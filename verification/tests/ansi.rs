use mping::ansi::{ansi_8bit, ansi_clear, ansi_code, ansi_rgb, combine_codes, orange, remove_ansi_formatting, visible_len, AnsiCC, AnsiColor, AnsiString};
use mping::engine::is_permission_error;

#[test]
fn test_codes() {
    assert_eq!(AnsiColor::Red.code(), 31);
    assert_eq!(AnsiColor::Red.bg(), 41);
    assert_eq!(AnsiColor::WhiteBright.bg(), 107);
    assert_eq!(AnsiCC::Bold.code(), 1);
    assert_eq!(AnsiCC::NoCrossout.code(), 29);
}

#[test]
fn test_ansi_helpers() {
    assert_eq!(ansi_clear(), "\x1b[0m");
    assert_eq!(ansi_code(1), "\x1b[1m");
    assert_eq!(ansi_code(107), "\x1b[107m");
    assert_eq!(ansi_8bit(208), "\x1b[38;5;208m");
    assert_eq!(ansi_rgb(1, 22, 255), "\x1b[38;2;1;22;255m");
    assert_eq!(orange("hi"), "\x1b[38;5;208mhi\x1b[0m");
}

#[test]
fn test_ansi_string_builder() {
    assert_eq!(AnsiString::new("plain").build(), "plain");
    assert_eq!(
        AnsiString::new("x").with_fg(AnsiColor::Red).build(),
        "\x1b[31mx\x1b[0m"
    );
    assert_eq!(
        AnsiString::new("x")
            .with_code(AnsiCC::Bold)
            .with_fg(AnsiColor::Green)
            .with_bg(AnsiColor::Black)
            .build(),
        "\x1b[1;32;40mx\x1b[0m"
    );
}

#[test]
fn test_combine_codes() {
    assert_eq!(combine_codes(AnsiColor::Red, None, None), "\x1b[31m");
    assert_eq!(
        combine_codes(AnsiColor::Red, Some(AnsiColor::Blue), None),
        "\x1b[31;44m"
    );
    assert_eq!(
        combine_codes(AnsiColor::Red, Some(AnsiColor::Blue), Some(vec![1, 4])),
        "\x1b[31;44;1;4m"
    );
}

#[test]
fn test_visible_len() {
    assert_eq!(visible_len(""), 0);
    assert_eq!(visible_len("hello"), 5);
    assert_eq!(visible_len("\x1b[31mred\x1b[0m"), 3);
    assert_eq!(visible_len("\x1b[1;32;40mx\x1b[0m"), 1);
    // An unterminated escape stays visible.
    assert_eq!(visible_len("\x1b[31"), 4);
    assert_eq!(visible_len("a\x1b[38;5;208mb\x1b[0mc"), 3);
}

#[test]
fn test_remove_ansi_formatting() {
    let (clean, digits) = remove_ansi_formatting("\x1b[31mred\x1b[0m");
    assert_eq!(clean, "red");
    assert_eq!(digits.as_deref(), Some("31"));
    let (clean, digits) = remove_ansi_formatting("plain");
    assert_eq!(clean, "plain");
    assert_eq!(digits, None);
    let (clean, digits) = remove_ansi_formatting("tail\x1b[0m");
    assert_eq!(clean, "tail");
    assert_eq!(digits, None);
    let (clean, digits) = remove_ansi_formatting("\x1b[1;44mboth sides\x1b[0m");
    assert_eq!(clean, "both sides");
    assert_eq!(digits.as_deref(), Some("1;44"));
}

#[test]
fn test_is_permission_error() {
    assert!(is_permission_error("Permission denied (os error 13)"));
    assert!(is_permission_error("Operation not PERMITTED"));
    assert!(!is_permission_error("connection refused"));
    assert!(!is_permission_error(""));
}
