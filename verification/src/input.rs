//! Decoding a single keystroke into a player command. Reading the key
//! itself is the shell's business; the mapping from the byte to the
//! command is the engine's.

use vstd::prelude::*;

use crate::Command;

verus! {

/// ASCII `A`.
pub const KEY_UPPER_A: u8 = 65;

/// ASCII `Z`.
pub const KEY_UPPER_Z: u8 = 90;

/// ASCII `q`.
pub const KEY_QUIT: u8 = 113;

/// ASCII `b`.
pub const KEY_BOT: u8 = 98;

/// ASCII `r`.
pub const KEY_RESET: u8 = 114;

/// ASCII `0`.
pub const KEY_ZERO: u8 = 48;

/// ASCII `1`.
pub const KEY_ONE: u8 = 49;

/// ASCII `9`.
pub const KEY_NINE: u8 = 57;

/// ASCII `n`.
pub const KEY_NO: u8 = 110;

/// ASCII `N`.
pub const KEY_NO_UPPER: u8 = 78;

/// The command a key byte stands for: `q` quits, `b` cycles the bot's
/// strength, `r` resets, a digit drops into that column (both `0` and `1`
/// mean the first column), upper case like lower case; anything else is
/// no command and the shell keeps reading.
pub open spec fn decode_spec(input: u8) -> Option<Command> {
    let low: u8 = if KEY_UPPER_A <= input && input <= KEY_UPPER_Z {
        (input + 32) as u8
    } else {
        input
    };
    if low == KEY_QUIT {
        Some(Command::Quit)
    } else if low == KEY_BOT {
        Some(Command::Bot)
    } else if low == KEY_RESET {
        Some(Command::Reset)
    } else if KEY_ZERO <= low && low <= KEY_NINE {
        Some(
            Command::Move(
                (if low >= KEY_ONE {
                    (low - KEY_ONE) as usize
                } else {
                    0
                }),
            ),
        )
    } else {
        None
    }
}

/// Decode one keystroke, case-insensitively: the command it stands for,
/// or `None` when the key means nothing and another must be read.
pub fn get_command(input: u8) -> (r: Option<Command>)
    ensures
        r == decode_spec(input),
{
    let low: u8 = if input >= KEY_UPPER_A && input <= KEY_UPPER_Z {
        input + 32
    } else {
        input
    };
    if low == KEY_QUIT {
        Some(Command::Quit)
    } else if low == KEY_BOT {
        Some(Command::Bot)
    } else if low == KEY_RESET {
        Some(Command::Reset)
    } else if KEY_ZERO <= low && low <= KEY_NINE {
        let v: u8 = if low >= KEY_ONE {
            low - KEY_ONE
        } else {
            0
        };
        Some(Command::Move(v as usize))
    } else {
        None
    }
}

/// Read a yes/no answer from one keystroke: everything but `n` (either
/// case) counts as yes.
pub fn confirm(input: u8) -> (r: bool)
    ensures
        r == !(input == KEY_NO || input == KEY_NO_UPPER),
{
    !(input == KEY_NO || input == KEY_NO_UPPER)
}

} // verus!
