use mping::tabulate::{simple_tabulate, tabulate_with_missing};

#[test]
fn test_simple_tabulate() {
    let data: Vec<Vec<String>> = vec![
        vec!["10.0.0.1".to_string(), "5".to_string(), "OK".to_string()],
        vec!["a".to_string(), "1234".to_string(), "timeout".to_string()],
    ];
    let headers: Vec<String> = vec!["Address".to_string(), "Sent".to_string(), "St".to_string()];
    let lines = simple_tabulate(&data, Some(&headers));
    assert_eq!(lines.len(), 4);
    assert_eq!(lines[0], "Address  | Sent | St     ");
    assert_eq!(lines[1], "---------+------+--------");
    assert_eq!(lines[2], "10.0.0.1 | 5    | OK     ");
    assert_eq!(lines[3], "a        | 1234 | timeout");
}

#[test]
fn test_simple_tabulate_no_headers_and_empty() {
    let data: Vec<Vec<String>> = vec![vec!["x".to_string(), "y".to_string()]];
    let lines = simple_tabulate(&data, None);
    assert_eq!(lines, vec!["x | y".to_string()]);
    let empty: Vec<Vec<String>> = Vec::new();
    assert_eq!(simple_tabulate(&empty, None).len(), 0);
}

#[test]
fn test_simple_tabulate_ansi_widths() {
    // ANSI escapes do not count toward the column width.
    let data: Vec<Vec<String>> = vec![
        vec!["\x1b[31mab\x1b[0m".to_string()],
        vec!["abcd".to_string()],
    ];
    let lines = simple_tabulate(&data, None);
    assert_eq!(lines[0], "\x1b[31mab\x1b[0m  ");
    assert_eq!(lines[1], "abcd");
}

#[test]
fn test_tabulate_with_missing() {
    let data: Vec<Vec<Option<String>>> = vec![
        vec![Some("a".to_string()), None],
        vec![Some("bb".to_string())],
    ];
    let lines = tabulate_with_missing(&data, None, "-");
    assert_eq!(lines.len(), 2);
    assert_eq!(lines[0], "a  | -");
    assert_eq!(lines[1], "bb | -");
}
