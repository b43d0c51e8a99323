use rust_shell::shell_parse::{
    is_pipe_command, parse_shell_args, split_pipe, split_redirect, Redirect,
};

fn words(v: &[&str]) -> Vec<String> {
    v.iter().map(|s| s.to_string()).collect()
}

#[test]
fn parse_plain_words() {
    assert_eq!(parse_shell_args("echo hello world"), words(&["echo", "hello", "world"]));
    assert_eq!(parse_shell_args("  echo\thello \n"), words(&["echo", "hello"]));
    assert_eq!(parse_shell_args("   "), Vec::<String>::new());
    assert_eq!(parse_shell_args(""), Vec::<String>::new());
}

#[test]
fn parse_single_quotes_literal() {
    assert_eq!(parse_shell_args("echo 'a  b'"), words(&["echo", "a  b"]));
    assert_eq!(parse_shell_args("'a>b&c \"d\\e'"), words(&["a>b&c \"d\\e"]));
    assert_eq!(parse_shell_args("echo 'x'y'z'"), words(&["echo", "xyz"]));
}

#[test]
fn parse_double_quotes_literal() {
    assert_eq!(parse_shell_args("echo \"x y\" z"), words(&["echo", "x y", "z"]));
    assert_eq!(parse_shell_args("\"it's\""), words(&["it's"]));
    assert_eq!(parse_shell_args("\"a\\\"b\""), words(&["a\"b"]));
}

#[test]
fn parse_backslash_escapes() {
    assert_eq!(parse_shell_args("echo a\\ b"), words(&["echo", "a b"]));
    assert_eq!(parse_shell_args("a\\"), words(&["a"]));
    assert_eq!(parse_shell_args("echo '\\n'"), words(&["echo", "\\n"]));
    assert_eq!(parse_shell_args("echo \\>x"), words(&["echo", ">x"]));
}

#[test]
fn parse_redirect_tokens() {
    assert_eq!(parse_shell_args("ls > out"), words(&["ls", "1>", "out"]));
    assert_eq!(parse_shell_args("ls >> out"), words(&["ls", "1>>", "out"]));
    assert_eq!(parse_shell_args("ls 1> out"), words(&["ls", "1>", "out"]));
    assert_eq!(parse_shell_args("ls 2> err"), words(&["ls", "2>", "err"]));
    assert_eq!(parse_shell_args("ls 2>>err"), words(&["ls", "2>>", "err"]));
    assert_eq!(parse_shell_args("cmd x>f"), words(&["cmd", "x", "1>", "f"]));
    assert_eq!(parse_shell_args("cmd 12>f"), words(&["cmd", "12", "1>", "f"]));
    assert_eq!(parse_shell_args("echo \">\""), words(&["echo", ">"]));
}

#[test]
fn parse_ampersand_is_a_word() {
    assert_eq!(parse_shell_args("sleep 1 &"), words(&["sleep", "1", "&"]));
    assert_eq!(parse_shell_args("a&b"), words(&["a", "&", "b"]));
}

#[test]
fn parse_words_never_empty() {
    assert_eq!(parse_shell_args("a  ''  b \"\""), words(&["a", "b"]));
    for line in ["''", "\"\" ''", "x '' y", "& &"] {
        assert!(parse_shell_args(line).iter().all(|w| !w.is_empty()));
    }
}

#[test]
fn split_redirect_takes_files() {
    let (c, o, e) = split_redirect(&["echo", "hi", "1>", "f"]);
    assert_eq!(c, words(&["echo", "hi"]));
    assert_eq!(o, Some(Redirect::Normal("f".to_string())));
    assert_eq!(e, None);
}

#[test]
fn split_redirect_last_wins() {
    let (c, o, e) = split_redirect(&["x", "1>", "a", "1>>", "b", "2>", "e", "y"]);
    assert_eq!(c, words(&["x", "y"]));
    assert_eq!(o, Some(Redirect::Append("b".to_string())));
    assert_eq!(e, Some(Redirect::Normal("e".to_string())));
    let (_, _, e2) = split_redirect(&["x", "2>>", "log"]);
    assert_eq!(e2, Some(Redirect::Append("log".to_string())));
}

#[test]
fn split_redirect_plain_words_unchanged() {
    let (c, o, e) = split_redirect(&["ls", "-l", "/tmp"]);
    assert_eq!(c, words(&["ls", "-l", "/tmp"]));
    assert_eq!(o, None);
    assert_eq!(e, None);
    let (c, o, _) = split_redirect(&["ls", "1>"]);
    assert_eq!(c, words(&["ls", "1>"]));
    assert_eq!(o, None);
}

#[test]
fn split_redirect_keeps_lone_one_and_arrow() {
    let line = parse_shell_args("echo 1 '>' f");
    assert_eq!(line, words(&["echo", "1", ">", "f"]));
    let (c, o, e) = split_redirect(&["echo", "1", ">", "f"]);
    assert_eq!(c, words(&["echo", "1", ">", "f"]));
    assert_eq!(o, None);
    assert_eq!(e, None);
    let (c, o, _) = split_redirect(&["1>", "1", ">", "x"]);
    assert_eq!(c, words(&[">", "x"]));
    assert_eq!(o, Some(Redirect::Normal("1".to_string())));
}

#[test]
fn split_pipe_stages() {
    let p = split_pipe(&["ls", "|", "grep", "a"]).unwrap();
    assert_eq!(p, vec![words(&["ls"]), words(&["grep", "a"])]);
    assert_eq!(split_pipe(&["ls"]).unwrap(), vec![words(&["ls"])]);
}

#[test]
fn split_pipe_empty_stage() {
    assert_eq!(split_pipe(&["|", "a"]), None);
    assert_eq!(split_pipe(&["a", "|"]), None);
    assert_eq!(split_pipe(&["a", "|", "|", "b"]), None);
    assert_eq!(split_pipe(&[]), None);
}

#[test]
fn pipe_detection() {
    assert!(is_pipe_command(&["ls", "|", "wc"]));
    assert!(!is_pipe_command(&["ls", "||", "wc"]));
    assert!(!is_pipe_command(&[]));
}

#[test]
fn split_pipe_loses_no_words() {
    let line = ["a", "x", "|", "b", "|", "c", "y", "z"];
    let stages = split_pipe(&line).unwrap();
    let joined: Vec<String> = stages.join(&"|".to_string());
    assert_eq!(joined, words(&line));
}
