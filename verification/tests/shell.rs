use rust_shell::builtin::{DirEntryInfo, DirListing};
use rust_shell::shell::{
    external_action, external_would_panic, line_to_run, pipeline_would_panic, plan_line,
    plan_pipeline, ExternalAction, LinePlan, StageRole,
};
use rust_shell::shell_parse::Redirect;
use rust_shell::shellhelper::{command_candidates, last_whitespace, path_candidate, Candidate};

fn words(v: &[&str]) -> Vec<String> {
    v.iter().map(|s| s.to_string()).collect()
}

fn dirs() -> Vec<DirListing> {
    vec![DirListing {
        path: "/bin".to_string(),
        entries: ["ls", "wc", "&"]
            .iter()
            .map(|n| DirEntryInfo { name: n.to_string(), mode: 0o755 })
            .collect(),
    }]
}

#[test]
fn plan_simple_lines() {
    assert_eq!(plan_line("exit"), LinePlan::Exit);
    assert_eq!(plan_line("exit > f"), LinePlan::Exit);
    assert_eq!(plan_line("   "), LinePlan::Empty);
    assert_eq!(plan_line("> f"), LinePlan::Empty);
    assert_eq!(
        plan_line("echo hi > f"),
        LinePlan::Builtin(words(&["echo", "hi"]), Some(Redirect::Normal("f".to_string())), None)
    );
    assert_eq!(plan_line("exit 1"), LinePlan::Builtin(words(&["exit", "1"]), None, None));
    assert_eq!(
        plan_line("ls -l 2>> e"),
        LinePlan::External(words(&["ls", "-l"]), None, Some(Redirect::Append("e".to_string())))
    );
    assert_eq!(plan_line("ls | wc"), LinePlan::Pipe(words(&["ls", "|", "wc"])));
}

#[test]
fn lone_one_and_arrow_are_words() {
    assert_eq!(
        plan_line("echo 1 '>' f"),
        LinePlan::Builtin(words(&["echo", "1", ">", "f"]), None, None)
    );
}

#[test]
fn lines_trimmed_and_comments_dropped() {
    assert_eq!(line_to_run("  ls -l \t\n"), Some("ls -l".to_string()));
    assert_eq!(line_to_run("# note"), None);
    assert_eq!(line_to_run("   #x"), None);
    assert_eq!(line_to_run("echo # x"), Some("echo # x".to_string()));
    assert_eq!(line_to_run("   "), Some("".to_string()));
    assert_eq!(line_to_run("\u{3000}a\u{a0}"), Some("a".to_string()));
    for l in ["", " a ", "\tb", "c\r\n"] {
        assert_eq!(line_to_run(l), Some(l.trim().to_string()));
    }
}

#[test]
fn external_actions() {
    let d = dirs();
    assert_eq!(
        external_action(&["ls", "-l"], &d),
        ExternalAction::Run("ls".to_string(), words(&["-l"]))
    );
    assert_eq!(
        external_action(&["ls", "-l", "&"], &d),
        ExternalAction::Spawn("ls".to_string(), words(&["-l"]), words(&["ls", "-l", "&"]))
    );
    assert_eq!(
        external_action(&["nope", "&"], &d),
        ExternalAction::NotFound("nope: command not found\n".to_string())
    );
    assert!(external_would_panic(&["&"], &d));
    assert!(!external_would_panic(&["&"], &vec![]));
    assert!(!external_would_panic(&["ls", "&"], &d));
}

#[test]
fn pipeline_plans() {
    let d = dirs();
    let p = plan_pipeline(&["ls", "|", "wc", "-l", "1>", "out"], &d).unwrap();
    assert_eq!(p.len(), 2);
    assert_eq!(p[0].args, words(&["ls"]));
    assert_eq!(p[0].role, StageRole::SpawnPiped);
    assert_eq!(p[1].args, words(&["wc", "-l"]));
    assert_eq!(p[1].out, Some(Redirect::Normal("out".to_string())));
    assert_eq!(p[1].role, StageRole::SpawnLast);
    let q = plan_pipeline(&["echo", "x", "|", "nope", "|", "type", "ls"], &d).unwrap();
    assert_eq!(q[0].role, StageRole::BuiltinPiped);
    assert_eq!(
        q[1].role,
        StageRole::Unusable("nope: builtin command could not be used for pipe\n".to_string())
    );
    assert_eq!(q[2].role, StageRole::BuiltinLast);
    assert!(plan_pipeline(&["ls", "|"], &d).is_none());
}

#[test]
fn pipeline_refusals() {
    assert!(pipeline_would_panic(&["ls", "|", "1>", "f"]));
    assert!(!pipeline_would_panic(&["ls", "1", ">", "|", "wc"]));
    assert!(!pipeline_would_panic(&["ls", "|", "wc"]));
    assert!(!pipeline_would_panic(&["ls", "|"]));
}

#[test]
fn completion_word_start() {
    assert_eq!(last_whitespace("ls -l"), Some(2));
    assert_eq!(last_whitespace("ls"), None);
    assert_eq!(last_whitespace("a b\tc"), Some(3));
    assert_eq!(last_whitespace("x\u{3000}y"), Some(1));
    assert_eq!(last_whitespace(""), None);
}

#[test]
fn completion_candidates() {
    let cmds = words(&["cd", "complete", "echo"]);
    let ext = words(&["cat", "ls"]);
    let c = command_candidates(&cmds, &ext, "c");
    let pairs: Vec<(String, String)> = c.into_iter().map(|x| (x.display, x.replacement)).collect();
    assert_eq!(
        pairs,
        vec![
            ("cd".to_string(), "cd ".to_string()),
            ("complete".to_string(), "complete ".to_string()),
            ("cat".to_string(), "cat ".to_string()),
        ]
    );
    assert_eq!(command_candidates(&cmds, &ext, "").len(), 5);
    assert!(command_candidates(&cmds, &ext, "zz").is_empty());
}

#[test]
fn path_candidates() {
    assert_eq!(
        path_candidate("dir/"),
        Candidate { display: "dir/".to_string(), replacement: "dir/".to_string() }
    );
    assert_eq!(
        path_candidate("file"),
        Candidate { display: "file".to_string(), replacement: "file ".to_string() }
    );
}
