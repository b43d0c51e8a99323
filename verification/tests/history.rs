use rust_shell::context::Context;
use rust_shell::history::{
    history_file_content, history_listing, history_request, parse_usize, HistoryRequest,
};

fn words(v: &[&str]) -> Vec<String> {
    v.iter().map(|s| s.to_string()).collect()
}

#[test]
fn parse_counts() {
    assert_eq!(parse_usize("12"), Some(12));
    assert_eq!(parse_usize("+3"), Some(3));
    assert_eq!(parse_usize("007"), Some(7));
    assert_eq!(parse_usize("-1"), None);
    assert_eq!(parse_usize(""), None);
    assert_eq!(parse_usize("+"), None);
    assert_eq!(parse_usize("1a"), None);
    assert_eq!(parse_usize(" 1"), None);
    assert_eq!(parse_usize(&usize::MAX.to_string()), Some(usize::MAX));
    assert_eq!(parse_usize("99999999999999999999999"), None);
    for s in ["0", "42", "+9", "x", "", "18446744073709551616"] {
        assert_eq!(parse_usize(s), s.parse::<usize>().ok());
    }
}

#[test]
fn history_requests() {
    assert_eq!(history_request(&["-r", "f"]), HistoryRequest::Read("f".to_string()));
    assert_eq!(history_request(&["-w", "f"]), HistoryRequest::Write("f".to_string()));
    assert_eq!(history_request(&["-a", "f", "x"]), HistoryRequest::Append("f".to_string()));
    assert_eq!(history_request(&[]), HistoryRequest::List(None));
    assert_eq!(history_request(&["2"]), HistoryRequest::List(Some(2)));
    assert_eq!(
        history_request(&["x"]),
        HistoryRequest::Invalid("history: x: invalid number\n".to_string())
    );
    assert_eq!(
        history_request(&["-r"]),
        HistoryRequest::Invalid("history: -r: invalid number\n".to_string())
    );
}

#[test]
fn listing_last_entries() {
    let items = words(&["a", "b", "c"]);
    assert_eq!(history_listing(&items, None), "    1  a\n    2  b\n    3  c\n");
    assert_eq!(history_listing(&items, Some(2)), "    2  b\n    3  c\n");
    assert_eq!(history_listing(&items, Some(10)), "    1  a\n    2  b\n    3  c\n");
    assert_eq!(history_listing(&items, Some(0)), "");
    assert_eq!(history_listing(&vec![], None), "");
}

#[test]
fn listing_numbers_align() {
    let items: Vec<String> = (0..12).map(|i| format!("cmd{}", i)).collect();
    let out = history_listing(&items, Some(3));
    assert_eq!(out, "   10  cmd9\n   11  cmd10\n   12  cmd11\n");
}

#[test]
fn write_content() {
    assert_eq!(history_file_content(&words(&["a", "b"])), "a\nb\n");
    assert_eq!(history_file_content(&vec![]), "");
}

#[test]
fn append_twice_appends_only_new_entries() {
    let mut c = Context::new();
    let first = words(&["ls", "pwd"]);
    assert_eq!(c.history_append("h", &first), "ls\npwd\n");
    let second = words(&["ls", "pwd", "echo x"]);
    assert_eq!(c.history_append("h", &second), "echo x\n");
    assert_eq!(c.history_append("h", &second), "");
    assert_eq!(c.history_append("other", &second), "ls\npwd\necho x\n");
    assert_eq!(c.history_count_in_file.get("h"), Some(&3));
}
