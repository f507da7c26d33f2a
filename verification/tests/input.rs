use connect_four::input::{confirm, get_command};
use connect_four::Command;

#[test]
fn letter_keys_map_to_their_commands() {
    assert_eq!(get_command(b'q'), Some(Command::Quit));
    assert_eq!(get_command(b'b'), Some(Command::Bot));
    assert_eq!(get_command(b'r'), Some(Command::Reset));
}

#[test]
fn upper_case_keys_work_like_lower_case() {
    assert_eq!(get_command(b'Q'), Some(Command::Quit));
    assert_eq!(get_command(b'B'), Some(Command::Bot));
    assert_eq!(get_command(b'R'), Some(Command::Reset));
}

#[test]
fn digit_keys_pick_a_column() {
    assert_eq!(get_command(b'1'), Some(Command::Move(0)));
    assert_eq!(get_command(b'7'), Some(Command::Move(6)));
    assert_eq!(get_command(b'9'), Some(Command::Move(8)));
    // the zero key saturates onto the first column
    assert_eq!(get_command(b'0'), Some(Command::Move(0)));
}

#[test]
fn other_keys_mean_nothing() {
    assert_eq!(get_command(b'x'), None);
    assert_eq!(get_command(b' '), None);
    assert_eq!(get_command(27), None);
}

#[test]
fn only_the_n_key_declines() {
    assert!(!confirm(b'n'));
    assert!(!confirm(b'N'));
    assert!(confirm(b'y'));
    assert!(confirm(b'\n'));
    assert!(confirm(b' '));
}
