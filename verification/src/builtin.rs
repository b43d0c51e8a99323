use vstd::prelude::*;

use crate::context::{lookup, Context};
use crate::shell_parse::{str_is, str_views};
use crate::text::{
    char_is_alphanumeric, chars_of, is_alphanumeric, join, owned, push_char, push_joined,
    split_chars, split_on, string_from_chars, views,
};

verus! {

/// The names of the builtin commands, in the order the shell lists them.
pub open spec fn builtin_names() -> Seq<Seq<char>> {
    seq![
        "cd"@,
        "exit"@,
        "echo"@,
        "type"@,
        "pwd"@,
        "complete"@,
        "jobs"@,
        "history"@,
        "declare"@,
    ]
}

/// The names of the builtin commands.
pub fn builtin_cmds() -> (res: Vec<String>)
    ensures
        views(res@) == builtin_names(),
{
    let mut v: Vec<String> = Vec::new();
    v.push(owned("cd"));
    v.push(owned("exit"));
    v.push(owned("echo"));
    v.push(owned("type"));
    v.push(owned("pwd"));
    v.push(owned("complete"));
    v.push(owned("jobs"));
    v.push(owned("history"));
    v.push(owned("declare"));
    assert(views(v@) =~= builtin_names());
    v
}

/// Whether `cmd` names a builtin command.
pub fn is_builtin_cmd(cmd: &str) -> (res: bool)
    ensures
        res == builtin_names().contains(cmd@),
{
    let names = builtin_cmds();
    let mut i: usize = 0;
    while i < names.len()
        invariant
            views(names@) == builtin_names(),
            i <= names@.len(),
            forall|j: int| 0 <= j < i ==> builtin_names()[j] != cmd@,
        decreases names@.len() - i,
    {
        if str_is(cmd, names[i].as_str()) {
            assert(builtin_names()[i as int] == cmd@);
            return true;
        }
        i = i + 1;
    }
    false
}

/// What a command name denotes: a builtin, a program found on the search
/// path (with its full path), or nothing.
#[derive(Debug, PartialEq, Eq)]
pub enum TypeCommand {
    Builtin(String),
    Program(String),
    NotFound,
}

} // verus!

verus! {

/// The mathematical form of a [`TypeCommand`].
pub enum TypeCommandView {
    Builtin(Seq<char>),
    Program(Seq<char>),
    NotFound,
}

impl View for TypeCommand {
    type V = TypeCommandView;

    open spec fn view(&self) -> TypeCommandView {
        match self {
            TypeCommand::Builtin(s) => TypeCommandView::Builtin(s@),
            TypeCommand::Program(s) => TypeCommandView::Program(s@),
            TypeCommand::NotFound => TypeCommandView::NotFound,
        }
    }
}

/// A file found in a directory: its name and its permission bits.
pub struct DirEntryInfo {
    pub name: String,
    pub mode: u32,
}

/// A directory of the search path and the files it holds, in the order the
/// directory lists them.
pub struct DirListing {
    pub path: String,
    pub entries: Vec<DirEntryInfo>,
}

/// Some execute permission bit (owner, group or other) is set.
pub open spec fn is_executable(mode: u32) -> bool {
    mode & 0o111u32 != 0
}

/// Whether `entries` hold an executable file named `cmd`.
pub open spec fn has_executable(entries: Seq<DirEntryInfo>, cmd: Seq<char>) -> bool {
    exists|j: int| 0 <= j < entries.len() && #[trigger] entries[j].name@ == cmd && is_executable(entries[j].mode)
}

/// The full path of the first executable file named `cmd` in the directories
/// `dirs`, searched in order.
pub open spec fn find_program(dirs: Seq<DirListing>, cmd: Seq<char>) -> Option<Seq<char>>
    decreases dirs.len(),
{
    if dirs.len() == 0 {
        None
    } else if has_executable(dirs[0].entries@, cmd) {
        Some(dirs[0].path@ + seq!['/'] + cmd)
    } else {
        find_program(dirs.skip(1), cmd)
    }
}

/// What `command` denotes, given the directories of the search path.
pub open spec fn spec_type_of_command(command: Seq<char>, dirs: Seq<DirListing>) -> TypeCommandView {
    if builtin_names().contains(command) {
        TypeCommandView::Builtin(command)
    } else {
        match find_program(dirs, command) {
            Some(p) => TypeCommandView::Program(p),
            None => TypeCommandView::NotFound,
        }
    }
}

/// Whether `entries` hold an executable file named `cmd`.
fn dir_has_executable(entries: &Vec<DirEntryInfo>, cmd: &String) -> (res: bool)
    ensures
        res == has_executable(entries@, cmd@),
{
    let mut j: usize = 0;
    while j < entries.len()
        invariant
            j <= entries@.len(),
            forall|k: int| 0 <= k < j ==> !(#[trigger] entries@[k].name@ == cmd@ && is_executable(entries@[k].mode)),
        decreases entries@.len() - j,
    {
        if entries[j].name == *cmd && entries[j].mode & 0o111u32 != 0 {
            return true;
        }
        j = j + 1;
    }
    false
}

/// Classifies `command`: a builtin, else the first executable of that name
/// in the directories `dirs` of the search path, else nothing.
pub fn get_type_of_command(command: &str, dirs: &Vec<DirListing>) -> (res: TypeCommand)
    ensures
        res@ == spec_type_of_command(command@, dirs@),
{
    if is_builtin_cmd(command) {
        return TypeCommand::Builtin(owned(command));
    }
    let cmd = owned(command);
    let mut i: usize = 0;
    assert(dirs@.skip(0) =~= dirs@);
    while i < dirs.len()
        invariant
            cmd@ == command@,
            !builtin_names().contains(command@),
            i <= dirs@.len(),
            find_program(dirs@, command@) == find_program(dirs@.skip(i as int), command@),
        decreases dirs@.len() - i,
    {
        assert(dirs@.skip(i as int).skip(1) =~= dirs@.skip(i + 1));
        assert(dirs@.skip(i as int)[0] == dirs@[i as int]);
        if dir_has_executable(&dirs[i].entries, &cmd) {
            let mut p = dirs[i].path.clone();
            push_char(&mut p, '/');
            p.append(command);
            assert(p@ == dirs@.skip(i as int)[0].path@ + seq!['/'] + command@);
            assert(find_program(dirs@.skip(i as int), command@) == Some(p@));
            assert(!builtin_names().contains(command@));
            assert(find_program(dirs@, command@) == Some(p@));
            assert(spec_type_of_command(command@, dirs@) == TypeCommandView::Program(p@));
            return TypeCommand::Program(p);
        }
        i = i + 1;
    }
    assert(dirs@.skip(dirs@.len() as int) =~= Seq::<DirListing>::empty());
    TypeCommand::NotFound
}

/// The directories of a search-path value: the pieces between `:`.
pub fn get_path(path_var: &str) -> (res: Vec<String>)
    ensures
        views(res@) == split_on(path_var@, ':'),
{
    let parts = split_chars(path_var, ':');
    let ghost p = split_on(path_var@, ':');
    let mut res: Vec<String> = Vec::new();
    let mut i: usize = 0;
    assert(views(res@) =~= p.take(0));
    while i < parts.len()
        invariant
            parts@.len() == p.len(),
            forall|j: int| 0 <= j < parts@.len() ==> (#[trigger] parts@[j])@ == p[j],
            i <= parts@.len(),
            views(res@) == p.take(i as int),
        decreases parts@.len() - i,
    {
        let w = string_from_chars(parts[i].as_slice());
        let ghost before = views(res@);
        res.push(w);
        assert(views(res@) =~= before.push(w@));
        assert(p.take(i + 1) =~= p.take(i as int).push(p[i as int]));
        i = i + 1;
    }
    assert(p.take(p.len() as int) =~= p);
    res
}

} // verus!

verus! {

/// A word of `echo`: `$name` stands for the value of `name` (empty when
/// unset), any other word for itself.
pub open spec fn echo_word(m: Map<Seq<char>, Seq<char>>, w: Seq<char>) -> Seq<char> {
    if w.len() > 0 && w[0] == '$' {
        lookup(m, w.skip(1))
    } else {
        w
    }
}

/// What `echo` prints for the words `a`: the expanded words, joined with
/// spaces, and a newline.
pub open spec fn echo_output(m: Map<Seq<char>, Seq<char>>, a: Seq<Seq<char>>) -> Seq<char> {
    join(Seq::new(a.len(), |i: int| echo_word(m, a[i])), seq![' ']) + seq!['\n']
}

/// The `echo` builtin: the text it prints for the words `args`.
pub fn handle_echo(context: &Context, args: &[&str]) -> (out: String)
    requires
        context.wf(),
    ensures
        out@ == echo_output(context.vars@, str_views(args@)),
{
    let ghost m = context.vars@;
    let ghost a = str_views(args@);
    let ghost target = Seq::new(a.len(), |i: int| echo_word(m, a[i]));
    let mut rendered: Vec<String> = Vec::new();
    let mut i: usize = 0;
    while i < args.len()
        invariant
            context.wf(),
            m == context.vars@,
            a == str_views(args@),
            target == Seq::new(a.len(), |i: int| echo_word(m, a[i])),
            i <= args@.len(),
            views(rendered@) == target.take(i as int),
        decreases args@.len() - i,
    {
        let arg = args[i];
        let w: String = if arg.unicode_len() > 0 && arg.get_char(0) == '$' {
            let name = arg.substring_char(1, arg.unicode_len());
            assert(name@ =~= arg@.skip(1));
            match context.vars.get(name) {
                Some(v) => v.clone(),
                None => String::new(),
            }
        } else {
            owned(arg)
        };
        let ghost before = views(rendered@);
        rendered.push(w);
        assert(views(rendered@) =~= before.push(w@));
        assert(target.take(i + 1) =~= target.take(i as int).push(target[i as int]));
        i = i + 1;
    }
    assert(target.take(target.len() as int) =~= target);
    let mut out = String::new();
    push_joined(&mut out, &rendered, rendered.len());
    assert(views(rendered@).take(rendered@.len() as int) =~= views(rendered@));
    push_char(&mut out, '\n');
    out
}

/// What `complete` does with the words `a`, given the registered completions
/// `m`: the new registrations and the text printed.
/// `-p cmd` prints cmd's registration (or that it has none), `-C spec cmd`
/// registers `spec` for `cmd`, `-r cmd` drops cmd's registration; anything
/// else does nothing.
pub open spec fn spec_complete(m: Map<Seq<char>, Seq<char>>, a: Seq<Seq<char>>) -> (
    Map<Seq<char>, Seq<char>>,
    Seq<char>,
) {
    if a.len() == 0 {
        (m, seq![])
    } else if a[0] == "-p"@ && a.len() >= 2 {
        if m.dom().contains(a[1]) {
            (m, "complete -C '"@ + m[a[1]] + "' "@ + a[1] + seq!['\n'])
        } else {
            (m, "complete: "@ + a[1] + ": no completion specification"@ + seq!['\n'])
        }
    } else if a[0] == "-C"@ && a.len() >= 3 {
        (m.insert(a[2], a[1]), seq![])
    } else if a.len() >= 2 && a[0] == "-r"@ {
        (m.remove(a[1]), seq![])
    } else {
        (m, seq![])
    }
}

/// The `complete` builtin: updates the registered completions and returns
/// the text it prints.
pub fn handle_complete(context: &mut Context, args: &[&str]) -> (out: String)
    requires
        old(context).wf(),
    ensures
        final(context).wf(),
        (final(context).regist_cmd_complete@, out@) == spec_complete(
            old(context).regist_cmd_complete@,
            str_views(args@),
        ),
        final(context).tasks == old(context).tasks,
        final(context).history_count_in_file == old(context).history_count_in_file,
        final(context).vars == old(context).vars,
{
    let ghost a = str_views(args@);
    let mut out = String::new();
    if args.len() == 0 {
        return out;
    }
    assert(a[0] == args@[0]@);
    if str_is(args[0], "-p") && args.len() >= 2 {
        let cmd = args[1];
        assert(a[1] == cmd@);
        match context.regist_cmd_complete.get_key_value(cmd) {
            Some((_, complete)) => {
                out.append("complete -C '");
                out.append(complete.as_str());
                out.append("' ");
                out.append(cmd);
                push_char(&mut out, '\n');
            },
            None => {
                out.append("complete: ");
                out.append(args[1]);
                out.append(": no completion specification");
                push_char(&mut out, '\n');
            },
        }
    } else if str_is(args[0], "-C") && args.len() >= 3 {
        assert(a[1] == args@[1]@);
        assert(a[2] == args@[2]@);
        context.regist_cmd_complete.insert(owned(args[2]), owned(args[1]));
    } else if args.len() >= 2 && str_is(args[0], "-r") {
        assert(a[1] == args@[1]@);
        context.regist_cmd_complete.remove(args[1]);
    }
    out
}

/// A name `declare` accepts: letters, digits and `_`, not starting with an
/// ASCII digit.
pub open spec fn valid_identifier(k: Seq<char>) -> bool {
    &&& k.len() > 0
    &&& forall|i: int| 0 <= i < k.len() ==> char_is_alphanumeric(#[trigger] k[i]) || k[i] == '_'
    &&& !('0' <= k[0] <= '9')
}

/// What `declare` does with the words `a`, given the variables `m`: the new
/// variables and the text printed. `-p name` prints the variable; `name=value`
/// sets it (`value` may be `$other`, or empty) when the name is valid, else
/// says so; a word with no `=` or more than one does nothing.
pub open spec fn spec_declare(m: Map<Seq<char>, Seq<char>>, a: Seq<Seq<char>>) -> (
    Map<Seq<char>, Seq<char>>,
    Seq<char>,
) {
    if a.len() >= 2 && a[0] == "-p"@ {
        if m.dom().contains(a[1]) {
            (m, "declare -- "@ + a[1] + "=\""@ + m[a[1]] + seq!['"', '\n'])
        } else {
            (m, "declare: "@ + a[1] + ": not found"@ + seq!['\n'])
        }
    } else if a.len() >= 1 {
        let parts = split_on(a[0], '=');
        if parts.len() == 2 {
            let k = parts[0];
            let v = parts[1];
            if valid_identifier(k) {
                (
                    m.insert(
                        k,
                        if v.len() > 0 && v[0] == '$' {
                            lookup(m, v.skip(1))
                        } else {
                            v
                        },
                    ),
                    seq![],
                )
            } else {
                (m, "declare: `"@ + k + seq!['='] + v + "': not a valid identifier"@ + seq!['\n'])
            }
        } else {
            (m, seq![])
        }
    } else {
        (m, seq![])
    }
}

/// Whether `k` is a valid variable name.
fn is_valid_identifier(k: &Vec<char>) -> (res: bool)
    ensures
        res == valid_identifier(k@),
{
    let mut i: usize = 0;
    while i < k.len()
        invariant
            i <= k@.len(),
            forall|j: int| 0 <= j < i ==> char_is_alphanumeric(#[trigger] k@[j]) || k@[j] == '_',
        decreases k@.len() - i,
    {
        if !(is_alphanumeric(k[i]) || k[i] == '_') {
            return false;
        }
        i = i + 1;
    }
    k.len() > 0 && !('0' <= k[0] && k[0] <= '9')
}

/// The `declare` builtin: updates the variables and returns the text it
/// prints.
pub fn handle_declare(context: &mut Context, args: &[&str]) -> (out: String)
    requires
        old(context).wf(),
    ensures
        final(context).wf(),
        (final(context).vars@, out@) == spec_declare(old(context).vars@, str_views(args@)),
        final(context).tasks == old(context).tasks,
        final(context).history_count_in_file == old(context).history_count_in_file,
        final(context).regist_cmd_complete == old(context).regist_cmd_complete,
{
    let ghost a = str_views(args@);
    let mut out = String::new();
    if args.len() >= 2 && str_is(args[0], "-p") {
        let var = args[1];
        assert(a[1] == var@);
        match context.vars.get_k_v(var) {
            Some((k, v)) => {
                out.append("declare -- ");
                out.append(k.as_str());
                out.append("=\"");
                out.append(v.as_str());
                push_char(&mut out, '"');
                push_char(&mut out, '\n');
            },
            None => {
                out.append("declare: ");
                out.append(var);
                out.append(": not found");
                push_char(&mut out, '\n');
            },
        }
    } else if args.len() >= 1 {
        assert(a[0] == args@[0]@);
        let parts = split_chars(args[0], '=');
        if parts.len() == 2 {
            let k = string_from_chars(parts[0].as_slice());
            let v = string_from_chars(parts[1].as_slice());
            if is_valid_identifier(&parts[0]) {
                context.vars.set_var(k.as_str(), v.as_str());
            } else {
                out.append("declare: `");
                out.append(k.as_str());
                push_char(&mut out, '=');
                out.append(v.as_str());
                out.append("': not a valid identifier");
                push_char(&mut out, '\n');
            }
        }
    }
    out
}

/// The `type` builtin: the text it prints for the words `args`, given the
/// directories `dirs` of the search path.
pub fn handle_type(args: &[&str], dirs: &Vec<DirListing>) -> (out: String)
    ensures
        out@ == ({
            let a = str_views(args@);
            if a.len() == 1 && builtin_names().contains(a[0]) {
                a[0] + " is a shell builtin"@ + seq!['\n']
            } else if a.len() >= 1 {
                match spec_type_of_command(a[0], dirs@) {
                    TypeCommandView::Program(p) => a[0] + " is "@ + p + seq!['\n'],
                    _ => a[0] + ": not found"@ + seq!['\n'],
                }
            } else {
                seq![]
            }
        }),
{
    let ghost a = str_views(args@);
    let mut out = String::new();
    if args.len() == 0 {
        return out;
    }
    let command = args[0];
    assert(a[0] == command@);
    if args.len() == 1 && is_builtin_cmd(command) {
        out.append(command);
        out.append(" is a shell builtin");
        push_char(&mut out, '\n');
    } else {
        match get_type_of_command(command, dirs) {
            TypeCommand::Program(custom_exe) => {
                out.append(command);
                out.append(" is ");
                out.append(custom_exe.as_str());
                push_char(&mut out, '\n');
            },
            _ => {
                out.append(command);
                out.append(": not found");
                push_char(&mut out, '\n');
            },
        }
    }
    out
}

} // verus!

verus! {

/// Which builtin a command line runs; the words after the command name are
/// its arguments.
#[derive(Debug, PartialEq, Eq)]
pub enum BuiltinAction {
    Echo,
    Pwd,
    Cd(String),
    Complete,
    Jobs,
    History,
    Declare,
    Type,
    Nothing,
}

/// The mathematical form of a [`BuiltinAction`].
pub enum BuiltinActionView {
    Echo,
    Pwd,
    Cd(Seq<char>),
    Complete,
    Jobs,
    History,
    Declare,
    Type,
    Nothing,
}

impl View for BuiltinAction {
    type V = BuiltinActionView;

    open spec fn view(&self) -> BuiltinActionView {
        match self {
            BuiltinAction::Echo => BuiltinActionView::Echo,
            BuiltinAction::Pwd => BuiltinActionView::Pwd,
            BuiltinAction::Cd(d) => BuiltinActionView::Cd(d@),
            BuiltinAction::Complete => BuiltinActionView::Complete,
            BuiltinAction::Jobs => BuiltinActionView::Jobs,
            BuiltinAction::History => BuiltinActionView::History,
            BuiltinAction::Declare => BuiltinActionView::Declare,
            BuiltinAction::Type => BuiltinActionView::Type,
            BuiltinAction::Nothing => BuiltinActionView::Nothing,
        }
    }
}

/// The builtin that the words `a` run: `pwd` only alone, `cd` alone (to `~`)
/// or with one directory, the others with any arguments.
pub open spec fn spec_builtin_action(a: Seq<Seq<char>>) -> BuiltinActionView {
    if a.len() == 0 {
        BuiltinActionView::Nothing
    } else if a[0] == "echo"@ {
        BuiltinActionView::Echo
    } else if a[0] == "pwd"@ && a.len() == 1 {
        BuiltinActionView::Pwd
    } else if a[0] == "cd"@ && a.len() == 2 {
        BuiltinActionView::Cd(a[1])
    } else if a[0] == "cd"@ && a.len() == 1 {
        BuiltinActionView::Cd("~"@)
    } else if a[0] == "complete"@ {
        BuiltinActionView::Complete
    } else if a[0] == "jobs"@ {
        BuiltinActionView::Jobs
    } else if a[0] == "history"@ {
        BuiltinActionView::History
    } else if a[0] == "declare"@ {
        BuiltinActionView::Declare
    } else if a[0] == "type"@ {
        BuiltinActionView::Type
    } else {
        BuiltinActionView::Nothing
    }
}

/// Chooses the builtin that the words `args` run.
pub fn builtin_action(args: &[&str]) -> (res: BuiltinAction)
    ensures
        res@ == spec_builtin_action(str_views(args@)),
{
    let ghost a = str_views(args@);
    if args.len() == 0 {
        return BuiltinAction::Nothing;
    }
    let c = args[0];
    assert(a[0] == c@);
    if str_is(c, "echo") {
        BuiltinAction::Echo
    } else if str_is(c, "pwd") && args.len() == 1 {
        BuiltinAction::Pwd
    } else if str_is(c, "cd") && args.len() == 2 {
        assert(a[1] == args@[1]@);
        BuiltinAction::Cd(owned(args[1]))
    } else if str_is(c, "cd") && args.len() == 1 {
        BuiltinAction::Cd(owned("~"))
    } else if str_is(c, "complete") {
        BuiltinAction::Complete
    } else if str_is(c, "jobs") {
        BuiltinAction::Jobs
    } else if str_is(c, "history") {
        BuiltinAction::History
    } else if str_is(c, "declare") {
        BuiltinAction::Declare
    } else if str_is(c, "type") {
        BuiltinAction::Type
    } else {
        BuiltinAction::Nothing
    }
}

} // verus!

verus! {

/// A piece that does not hold `c` extends the last piece.
proof fn lemma_split_on_extend(p: Seq<char>, y: Seq<char>, c: char)
    requires
        !y.contains(c),
    ensures
        split_on(p + y, c) == split_on(p, c).update(
            split_on(p, c).len() - 1,
            split_on(p, c).last() + y,
        ),
    decreases y.len(),
{
    crate::text::lemma_split_on_nonempty(p, c);
    if y.len() == 0 {
        assert(p + y =~= p);
        assert(split_on(p, c).last() + y =~= split_on(p, c).last());
        assert(split_on(p, c).update(split_on(p, c).len() - 1, split_on(p, c).last()) =~= split_on(p, c));
    } else {
        let y0 = y.drop_last();
        assert(!y0.contains(c)) by {
            if y0.contains(c) {
                let j = choose|j: int| 0 <= j < y0.len() && y0[j] == c;
                assert(y[j] == c);
            }
        }
        lemma_split_on_extend(p, y0, c);
        assert((p + y).drop_last() =~= p + y0);
        assert((p + y).last() == y.last());
        assert(y.last() != c) by {
            assert(y[y.len() - 1] == y.last());
        }
        let r = split_on(p, c);
        let r0 = r.update(r.len() - 1, r.last() + y0);
        assert(r0 == split_on(p + y0, c));
        assert(r0.len() == r.len());
        assert(r0.last() == r.last() + y0);
        assert((r.last() + y0).push(y.last()) =~= r.last() + y);
        assert(split_on(p + y, c) == r0.update(r0.len() - 1, r0.last().push(y.last())));
        assert(r0.update(r0.len() - 1, r.last() + y) =~= r.update(r.len() - 1, r.last() + y));
    }
}

/// `k=v` splits at its `=` into `k` and `v` when neither holds an `=`.
pub proof fn lemma_split_assignment(k: Seq<char>, v: Seq<char>)
    requires
        !k.contains('='),
        !v.contains('='),
    ensures
        split_on(k + seq!['='] + v, '=') == seq![k, v],
{
    crate::text::lemma_split_on_without(k, '=');
    let p = k + seq!['='];
    assert(p.drop_last() =~= k);
    assert(split_on(p, '=') == seq![k].push(seq![]));
    lemma_split_on_extend(p, v, '=');
    assert(Seq::<char>::empty() + v =~= v);
    assert(seq![k].push(seq![]).update(1, v) =~= seq![k, v]);
}

/// The value `declare` stores for `name=value` is what `echo $name` prints
/// afterwards (for a valid name, a plain value, and no `=` in either).
pub proof fn law_declare_then_echo(m: Map<Seq<char>, Seq<char>>, k: Seq<char>, v: Seq<char>)
    requires
        valid_identifier(k),
        !k.contains('='),
        v.len() > 0,
        !v.contains('='),
        v[0] != '$',
    ensures
        spec_declare(m, seq![k + seq!['='] + v]).1 == Seq::<char>::empty(),
        spec_declare(m, seq![k + seq!['='] + v]).0 == m.insert(k, v),
        echo_output(spec_declare(m, seq![k + seq!['='] + v]).0, seq![seq!['$'] + k]) == v + seq!['\n'],
{
    lemma_split_assignment(k, v);
    let w = k + seq!['='] + v;
    assert(seq![w][0] == w);
    let m2 = m.insert(k, v);
    let d = seq!['$'] + k;
    assert(d.skip(1) =~= k);
    assert(echo_word(m2, d) == v);
    let ws = Seq::new(1, |i: int| echo_word(m2, seq![d][i]));
    assert(ws =~= seq![v]);
}

/// A registered completion is what `complete -p` reports next.
pub proof fn law_complete_register_then_print(m: Map<Seq<char>, Seq<char>>, spec: Seq<char>, cmd: Seq<char>)
    ensures
        spec_complete(m, seq!["-C"@, spec, cmd]).0 == m.insert(cmd, spec),
        spec_complete(spec_complete(m, seq!["-C"@, spec, cmd]).0, seq!["-p"@, cmd]).1
            == "complete -C '"@ + spec + "' "@ + cmd + seq!['\n'],
{
    assert("-C"@ != "-p"@) by {
        reveal_strlit("-C");
        reveal_strlit("-p");
        assert("-C"@[1] != "-p"@[1]);
    }
}

/// After `complete -r cmd`, `complete -p cmd` reports that there is no
/// completion for `cmd`.
pub proof fn law_complete_remove_then_print(m: Map<Seq<char>, Seq<char>>, cmd: Seq<char>)
    ensures
        spec_complete(m, seq!["-r"@, cmd]).0 == m.remove(cmd),
        spec_complete(spec_complete(m, seq!["-r"@, cmd]).0, seq!["-p"@, cmd]).1
            == "complete: "@ + cmd + ": no completion specification"@ + seq!['\n'],
{
    assert("-r"@ != "-p"@ && "-r"@ != "-C"@) by {
        reveal_strlit("-r");
        reveal_strlit("-p");
        reveal_strlit("-C");
        assert("-r"@[1] != "-p"@[1]);
        assert("-r"@[1] != "-C"@[1]);
    }
}

/// A variable set is read back, and setting one variable leaves the others
/// as they were.
pub proof fn law_set_then_get(m: Map<Seq<char>, Seq<char>>, k: Seq<char>, v: Seq<char>, other: Seq<char>)
    ensures
        lookup(m.insert(k, v), k) == v,
        other != k ==> lookup(m.insert(k, v), other) == lookup(m, other),
{
}

} // verus!

verus! {

/// Where `cd` goes: home, the previous directory, or a path taken from the
/// current directory.
#[derive(Debug, PartialEq, Eq)]
pub enum CdTarget {
    Home,
    Previous,
    Path(String),
}

/// The mathematical form of a [`CdTarget`].
pub enum CdTargetView {
    Home,
    Previous,
    Path(Seq<char>),
}

impl View for CdTarget {
    type V = CdTargetView;

    open spec fn view(&self) -> CdTargetView {
        match self {
            CdTarget::Home => CdTargetView::Home,
            CdTarget::Previous => CdTargetView::Previous,
            CdTarget::Path(p) => CdTargetView::Path(p@),
        }
    }
}

/// Where `cd dir` goes: `~` is the home directory, `-` the previous one, any
/// other word a path.
pub fn cd_target(dir: &str) -> (res: CdTarget)
    ensures
        res@ == if dir@ == "~"@ {
            CdTargetView::Home
        } else if dir@ == "-"@ {
            CdTargetView::Previous
        } else {
            CdTargetView::Path(dir@)
        },
{
    if str_is(dir, "~") {
        CdTarget::Home
    } else if str_is(dir, "-") {
        CdTarget::Previous
    } else {
        CdTarget::Path(owned(dir))
    }
}

} // verus!
