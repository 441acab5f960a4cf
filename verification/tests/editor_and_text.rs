use byo_suite::editor::{welcome_message, Editor, Frame, InputEvent, KeyPress};
use byo_suite::text::{
    append_bytes, append_str, center, chars_of, i64_to_string, join, nat_to_chars, pad_left, pad_right,
    parse_usize, repeat_char, slice_eq, str_eq, string_of, u64_to_string,
};

fn ctrl(c: char) -> InputEvent {
    InputEvent::Key(KeyPress { ch: Some(c), ctrl_only: true })
}

#[test]
fn control_q_quits_and_stays_quit() {
    let mut e = Editor::default();
    assert!(!e.should_quit());
    e.evaluate_event(&InputEvent::Key(KeyPress { ch: Some('q'), ctrl_only: false }));
    assert!(!e.should_quit());
    e.evaluate_event(&ctrl('x'));
    e.evaluate_event(&InputEvent::Other);
    assert!(!e.should_quit());
    e.evaluate_event(&ctrl('q'));
    assert!(e.should_quit());
    e.evaluate_event(&InputEvent::Other);
    assert!(e.should_quit());
    assert!(matches!(e.frame(80, 24, "hecto", "0.1.0"), Frame::Goodbye));
}

#[test]
fn welcome_is_centred_one_column_left() {
    // "hecto editor -- version 0.1.0" is 29 characters: (40 - 29) / 2 = 5, less one.
    assert_eq!(welcome_message("hecto", "0.1.0", 40), "    hecto editor -- version 0.1.0");
    assert_eq!(welcome_message("hecto", "0.1.0", 10), "hecto edit");
}

#[test]
fn frame_rows_are_tildes_and_the_welcome() {
    let e = Editor::default();
    match e.frame(40, 6, "hecto", "0.1.0") {
        Frame::Rows(rows) => {
            assert_eq!(rows.len(), 6);
            assert_eq!(rows[0], "~");
            assert_eq!(rows[2], welcome_message("hecto", "0.1.0", 40));
            assert_eq!(rows[5], "~");
        }
        Frame::Goodbye => panic!("expected rows"),
    }
}

#[test]
fn number_formatting() {
    assert_eq!(u64_to_string(0), "0");
    assert_eq!(u64_to_string(18446744073709551615), "18446744073709551615");
    assert_eq!(i64_to_string(-42), "-42");
    assert_eq!(i64_to_string(i64::MIN), "-9223372036854775808");
    assert_eq!(nat_to_chars(305), vec!['3', '0', '5']);
}

#[test]
fn padding_and_centring() {
    assert_eq!(pad_left("7", 3), "  7");
    assert_eq!(pad_left("1234", 3), "1234");
    assert_eq!(pad_right("ab", 4), "ab  ");
    assert_eq!(center("ab", 7), "  ab   ");
    assert_eq!(center("abc", 2), "abc");
    assert_eq!(repeat_char('-', 3), "---");
}

#[test]
fn strings_and_slices() {
    let cs = chars_of("héllo");
    assert_eq!(cs.len(), 5);
    assert_eq!(string_of(&cs, 1, 3), "él");
    assert!(slice_eq(&cs, 1, 3, &['é', 'l']));
    assert!(!slice_eq(&cs, 1, 3, &['e', 'l']));
    assert!(str_eq("ab", "ab"));
    assert!(!str_eq("ab", "abc"));
    let mut s = "a".to_string();
    append_str(&mut s, "bc");
    assert_eq!(s, "abc");
    let mut v = vec![1u8];
    append_bytes(&mut v, &[2, 3]);
    assert_eq!(v, vec![1, 2, 3]);
    assert_eq!(join(&vec!["a".to_string(), "b".to_string(), "c".to_string()], ", "), "a, b, c");
    assert_eq!(join(&vec![], ", "), "");
}

#[test]
fn usize_parsing_follows_std() {
    assert_eq!(parse_usize("42"), Some(42));
    assert_eq!(parse_usize("+42"), Some(42));
    assert_eq!(parse_usize("007"), Some(7));
    assert_eq!(parse_usize(""), None);
    assert_eq!(parse_usize("+"), None);
    assert_eq!(parse_usize("-1"), None);
    assert_eq!(parse_usize("1a"), None);
    assert_eq!(parse_usize("18446744073709551616"), None);
}
