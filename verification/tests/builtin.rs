use rust_shell::builtin::{
    builtin_action, builtin_cmds, cd_target, get_path, get_type_of_command,
    handle_complete, handle_declare, handle_echo, handle_type, is_builtin_cmd,
    BuiltinAction,
    CdTarget, DirEntryInfo, DirListing, TypeCommand,
};
use rust_shell::context::Context;
use rust_shell::program::get_ext_executes;

fn dir(path: &str, entries: &[(&str, u32)]) -> DirListing {
    DirListing {
        path: path.to_string(),
        entries: entries
            .iter()
            .map(|(n, m)| DirEntryInfo { name: n.to_string(), mode: *m })
            .collect(),
    }
}

fn sample_dirs() -> Vec<DirListing> {
    vec![
        dir("/bin", &[("data", 0o644), ("ls", 0o755), ("wc", 0o700)]),
        dir("/usr/bin", &[("ls", 0o755), ("cat", 0o711), ("data", 0o001)]),
    ]
}

#[test]
fn builtin_names_listed() {
    assert_eq!(
        builtin_cmds(),
        vec!["cd", "exit", "echo", "type", "pwd", "complete", "jobs", "history", "declare"]
    );
    for name in builtin_cmds() {
        assert!(is_builtin_cmd(&name));
    }
    assert!(!is_builtin_cmd("ls"));
    assert!(!is_builtin_cmd("ech"));
    assert!(!is_builtin_cmd(""));
}

#[test]
fn type_of_command_searches_path_in_order() {
    let d = sample_dirs();
    assert_eq!(get_type_of_command("echo", &d), TypeCommand::Builtin("echo".to_string()));
    assert_eq!(get_type_of_command("ls", &d), TypeCommand::Program("/bin/ls".to_string()));
    assert_eq!(get_type_of_command("cat", &d), TypeCommand::Program("/usr/bin/cat".to_string()));
    assert_eq!(get_type_of_command("data", &d), TypeCommand::Program("/usr/bin/data".to_string()));
    assert_eq!(get_type_of_command("nope", &d), TypeCommand::NotFound);
    assert_eq!(get_type_of_command("ls", &vec![]), TypeCommand::NotFound);
}

#[test]
fn path_value_split() {
    assert_eq!(get_path("/bin:/usr/bin"), vec!["/bin", "/usr/bin"]);
    assert_eq!(get_path(""), vec![""]);
    assert_eq!(get_path("a::b:"), vec!["a", "", "b", ""]);
}

#[test]
fn executables_sorted_without_repeats() {
    let d = sample_dirs();
    assert_eq!(get_ext_executes(&d), vec!["cat", "data", "ls", "wc"]);
    let d2 = vec![dir("/x", &[("zz", 0o755), ("b", 0o755), ("a", 0o644), ("B", 0o100), ("b", 0o010)])];
    assert_eq!(get_ext_executes(&d2), vec!["B", "b", "zz"]);
    assert_eq!(get_ext_executes(&vec![]), Vec::<String>::new());
}

#[test]
fn echo_renders_words_and_variables() {
    let mut c = Context::new();
    assert_eq!(handle_echo(&c, &["a", "b"]), "a b\n");
    assert_eq!(handle_echo(&c, &[]), "\n");
    assert_eq!(handle_echo(&c, &["$missing", "x"]), " x\n");
    c.vars.set("name", "demo");
    assert_eq!(handle_echo(&c, &["hi", "$name"]), "hi demo\n");
}

#[test]
fn declare_then_echo() {
    let mut c = Context::new();
    assert_eq!(handle_declare(&mut c, &["name=demo"]), "");
    assert_eq!(handle_echo(&c, &["$name"]), "demo\n");
    assert_eq!(handle_declare(&mut c, &["copy=$name"]), "");
    assert_eq!(handle_echo(&c, &["$copy"]), "demo\n");
}

#[test]
fn declare_print() {
    let mut c = Context::new();
    assert_eq!(handle_declare(&mut c, &["-p", "x"]), "declare: x: not found\n");
    handle_declare(&mut c, &["x=v"]);
    assert_eq!(handle_declare(&mut c, &["-p", "x"]), "declare -- x=\"v\"\n");
}

#[test]
fn declare_invalid_identifiers() {
    let mut c = Context::new();
    assert_eq!(handle_declare(&mut c, &["1x=3"]), "declare: `1x=3': not a valid identifier\n");
    assert_eq!(handle_declare(&mut c, &["a-b=1"]), "declare: `a-b=1': not a valid identifier\n");
    assert_eq!(handle_declare(&mut c, &["=1"]), "declare: `=1': not a valid identifier\n");
    assert_eq!(handle_declare(&mut c, &["a=b=c"]), "");
    assert_eq!(handle_declare(&mut c, &["-p"]), "");
    assert_eq!(handle_declare(&mut c, &[]), "");
    assert_eq!(c.vars.get("a"), None);
}

#[test]
fn declare_unicode_names() {
    let mut c = Context::new();
    assert_eq!(handle_declare(&mut c, &["é_1=x"]), "");
    assert_eq!(c.vars.get("é_1"), Some(&"x".to_string()));
}

#[test]
fn declare_empty_value() {
    let mut c = Context::new();
    assert_eq!(handle_declare(&mut c, &["x=1"]), "");
    assert_eq!(handle_declare(&mut c, &["x="]), "");
    assert_eq!(c.vars.get("x"), Some(&"".to_string()));
    assert_eq!(handle_echo(&c, &["[$x]"]), "[$x]\n");
    assert_eq!(handle_echo(&c, &["$x", "y"]), " y\n");
}

#[test]
fn complete_register_print_remove() {
    let mut c = Context::new();
    assert_eq!(
        handle_complete(&mut c, &["-p", "git"]),
        "complete: git: no completion specification\n"
    );
    assert_eq!(handle_complete(&mut c, &["-C", "/usr/bin/gc", "git"]), "");
    assert_eq!(handle_complete(&mut c, &["-p", "git"]), "complete -C '/usr/bin/gc' git\n");
    assert_eq!(handle_complete(&mut c, &["-r", "git"]), "");
    assert_eq!(
        handle_complete(&mut c, &["-p", "git"]),
        "complete: git: no completion specification\n"
    );
    assert_eq!(handle_complete(&mut c, &[]), "");
    assert_eq!(handle_complete(&mut c, &["-C", "x"]), "");
    assert_eq!(c.regist_cmd_complete.get("x"), None);
}

#[test]
fn type_messages() {
    let d = sample_dirs();
    assert_eq!(handle_type(&["echo"], &d), "echo is a shell builtin\n");
    assert_eq!(handle_type(&["ls"], &d), "ls is /bin/ls\n");
    assert_eq!(handle_type(&["nope"], &d), "nope: not found\n");
    assert_eq!(handle_type(&["echo", "x"], &d), "echo: not found\n");
    assert_eq!(handle_type(&["ls", "x"], &d), "ls is /bin/ls\n");
    assert_eq!(handle_type(&[], &d), "");
}

#[test]
fn builtin_dispatch() {
    assert_eq!(builtin_action(&["echo", "x"]), BuiltinAction::Echo);
    assert_eq!(builtin_action(&["pwd"]), BuiltinAction::Pwd);
    assert_eq!(builtin_action(&["pwd", "x"]), BuiltinAction::Nothing);
    assert_eq!(builtin_action(&["cd"]), BuiltinAction::Cd("~".to_string()));
    assert_eq!(builtin_action(&["cd", "/tmp"]), BuiltinAction::Cd("/tmp".to_string()));
    assert_eq!(builtin_action(&["cd", "a", "b"]), BuiltinAction::Nothing);
    assert_eq!(builtin_action(&["complete"]), BuiltinAction::Complete);
    assert_eq!(builtin_action(&["jobs", "-l"]), BuiltinAction::Jobs);
    assert_eq!(builtin_action(&["history", "3"]), BuiltinAction::History);
    assert_eq!(builtin_action(&["declare"]), BuiltinAction::Declare);
    assert_eq!(builtin_action(&["type", "ls"]), BuiltinAction::Type);
    assert_eq!(builtin_action(&["exit"]), BuiltinAction::Nothing);
    assert_eq!(builtin_action(&[]), BuiltinAction::Nothing);
}

#[test]
fn cd_targets() {
    assert_eq!(cd_target("~"), CdTarget::Home);
    assert_eq!(cd_target("-"), CdTarget::Previous);
    assert_eq!(cd_target("/tmp"), CdTarget::Path("/tmp".to_string()));
}
