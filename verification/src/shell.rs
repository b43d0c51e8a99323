use vstd::prelude::*;

use crate::builtin::{
    builtin_names, get_type_of_command, is_builtin_cmd, spec_type_of_command, DirListing,
    TypeCommand, TypeCommandView,
};
use crate::shell_parse::{
    is_pipe_command, is_redirect_op, law_split_redirect_strips_operators, parse_shell_args,
    redirect_opt_view,
    spec_parse_shell_args, spec_split_pipe, spec_split_redirect, split_pipe, split_redirect,
    stage_views, str_is, str_views, Redirect, RedirectView,
};
use crate::text::{chars_of, is_white_space, is_whitespace, owned, push_char, views};

verus! {

/// Borrows the words of `v` as string slices.
pub fn as_strs(v: &Vec<String>) -> (res: Vec<&str>)
    ensures
        str_views(res@) == views(v@),
{
    let mut res: Vec<&str> = Vec::new();
    let mut i: usize = 0;
    while i < v.len()
        invariant
            i <= v@.len(),
            str_views(res@) == views(v@).take(i as int),
        decreases v@.len() - i,
    {
        let ghost before = str_views(res@);
        res.push(v[i].as_str());
        assert(str_views(res@) =~= before.push(v@[i as int]@));
        assert(views(v@).take(i + 1) =~= views(v@).take(i as int).push(v@[i as int]@));
        i = i + 1;
    }
    assert(views(v@).take(v@.len() as int) =~= views(v@));
    res
}

/// What a command line asks the shell to do.
#[derive(Debug, PartialEq, Eq)]
pub enum LinePlan {
    /// Nothing (an empty line).
    Empty,
    /// Leave the shell.
    Exit,
    /// Run a pipeline; the words of the whole line.
    Pipe(Vec<String>),
    /// Run a builtin with its words and redirections.
    Builtin(Vec<String>, Option<Redirect>, Option<Redirect>),
    /// Run another command with its words and redirections.
    External(Vec<String>, Option<Redirect>, Option<Redirect>),
}

/// The mathematical form of a [`LinePlan`].
pub enum LinePlanView {
    Empty,
    Exit,
    Pipe(Seq<Seq<char>>),
    Builtin(Seq<Seq<char>>, Option<RedirectView>, Option<RedirectView>),
    External(Seq<Seq<char>>, Option<RedirectView>, Option<RedirectView>),
}

impl View for LinePlan {
    type V = LinePlanView;

    open spec fn view(&self) -> LinePlanView {
        match self {
            LinePlan::Empty => LinePlanView::Empty,
            LinePlan::Exit => LinePlanView::Exit,
            LinePlan::Pipe(w) => LinePlanView::Pipe(views(w@)),
            LinePlan::Builtin(w, o, e) => LinePlanView::Builtin(
                views(w@),
                redirect_opt_view(*o),
                redirect_opt_view(*e),
            ),
            LinePlan::External(w, o, e) => LinePlanView::External(
                views(w@),
                redirect_opt_view(*o),
                redirect_opt_view(*e),
            ),
        }
    }
}

/// What the command line `input` asks for: a pipeline when it holds `|`;
/// otherwise, after the redirections are taken out, nothing for no words,
/// leaving for exactly `exit`, a builtin when the first word names one, and
/// another command else.
pub open spec fn spec_plan_line(input: Seq<char>) -> LinePlanView {
    let w = spec_parse_shell_args(input);
    if w.contains(seq!['|']) {
        LinePlanView::Pipe(w)
    } else {
        let (c, o, e) = spec_split_redirect(w);
        if c.len() == 0 {
            LinePlanView::Empty
        } else if c == seq!["exit"@] {
            LinePlanView::Exit
        } else if builtin_names().contains(c[0]) {
            LinePlanView::Builtin(c, o, e)
        } else {
            LinePlanView::External(c, o, e)
        }
    }
}

/// Reads a command line and decides what it asks for.
pub fn plan_line(input: &str) -> (res: LinePlan)
    ensures
        res@ == spec_plan_line(input@),
{
    let words = parse_shell_args(input);
    let refs = as_strs(&words);
    if is_pipe_command(refs.as_slice()) {
        return LinePlan::Pipe(words);
    }
    let (cmd, out, err) = split_redirect(refs.as_slice());
    if cmd.len() == 0 {
        return LinePlan::Empty;
    }
    let ghost c = views(cmd@);
    assert(c[0] == cmd@[0]@);
    if cmd.len() == 1 && str_is(cmd[0].as_str(), "exit") {
        assert(c =~= seq!["exit"@]);
        return LinePlan::Exit;
    }
    proof {
        if c == seq!["exit"@] {
            assert(c.len() == 1 && c[0] == "exit"@);
        }
    }
    if is_builtin_cmd(cmd[0].as_str()) {
        LinePlan::Builtin(cmd, out, err)
    } else {
        LinePlan::External(cmd, out, err)
    }
}

/// What to do with a command that is not a builtin.
#[derive(Debug, PartialEq, Eq)]
pub enum ExternalAction {
    /// Run the program in the foreground with these arguments.
    Run(String, Vec<String>),
    /// Start the program in the background with these arguments; the last
    /// vector holds all the words, kept for the job list.
    Spawn(String, Vec<String>, Vec<String>),
    /// No such command: the line to print.
    NotFound(String),
}

/// The mathematical form of an [`ExternalAction`].
pub enum ExternalActionView {
    Run(Seq<char>, Seq<Seq<char>>),
    Spawn(Seq<char>, Seq<Seq<char>>, Seq<Seq<char>>),
    NotFound(Seq<char>),
}

impl View for ExternalAction {
    type V = ExternalActionView;

    open spec fn view(&self) -> ExternalActionView {
        match self {
            ExternalAction::Run(e, a) => ExternalActionView::Run(e@, views(a@)),
            ExternalAction::Spawn(e, a, t) => ExternalActionView::Spawn(e@, views(a@), views(t@)),
            ExternalAction::NotFound(m) => ExternalActionView::NotFound(m@),
        }
    }
}

/// Whether running the words `a` stops the shell: the single word `&` names a
/// program, whose arguments would be the empty range `1..0`.
pub open spec fn spec_external_panics(a: Seq<Seq<char>>, dirs: Seq<DirListing>) -> bool {
    &&& a.len() == 1
    &&& a[0] == seq!['&']
    &&& spec_type_of_command(a[0], dirs) is Program
}

/// What running the words `a` does: a program found on the search path runs
/// in the foreground, or, when the last word is `&`, in the background
/// without that word; any other command is not found.
pub open spec fn spec_external_action(a: Seq<Seq<char>>, dirs: Seq<DirListing>) -> ExternalActionView {
    match spec_type_of_command(a[0], dirs) {
        TypeCommandView::Program(_) => if a.last() != seq!['&'] {
            ExternalActionView::Run(a[0], a.skip(1))
        } else {
            ExternalActionView::Spawn(a[0], a.subrange(1, a.len() - 1), a)
        },
        _ => ExternalActionView::NotFound(a[0] + ": command not found"@ + seq!['\n']),
    }
}

/// Whether running the words `args` stops the shell.
pub fn external_would_panic(args: &[&str], dirs: &Vec<DirListing>) -> (res: bool)
    requires
        args@.len() > 0,
    ensures
        res == spec_external_panics(str_views(args@), dirs@),
{
    let ghost a = str_views(args@);
    assert(a[0] == args@[0]@);
    assert(seq!['&'] =~= "&"@) by {
        reveal_strlit("&");
    }
    if args.len() == 1 && str_is(args[0], "&") {
        match get_type_of_command(args[0], dirs) {
            TypeCommand::Program(_) => true,
            _ => false,
        }
    } else {
        false
    }
}

/// The words `a[from..to]` as owned strings.
fn slice_words(args: &[&str], from: usize, to: usize) -> (res: Vec<String>)
    requires
        from <= to <= args@.len(),
    ensures
        views(res@) == str_views(args@).subrange(from as int, to as int),
{
    let mut res: Vec<String> = Vec::new();
    let mut i: usize = from;
    while i < to
        invariant
            from <= i <= to,
            to <= args@.len(),
            views(res@) == str_views(args@).subrange(from as int, i as int),
        decreases to - i,
    {
        let ghost before = views(res@);
        res.push(owned(args[i]));
        assert(views(res@) =~= before.push(args@[i as int]@));
        assert(str_views(args@).subrange(from as int, i + 1) =~= str_views(args@).subrange(
            from as int,
            i as int,
        ).push(args@[i as int]@));
        i = i + 1;
    }
    res
}

/// Decides how to run the words `args` of a command that is not a builtin,
/// given the directories `dirs` of the search path.
pub fn external_action(args: &[&str], dirs: &Vec<DirListing>) -> (res: ExternalAction)
    requires
        args@.len() > 0,
        !spec_external_panics(str_views(args@), dirs@),
    ensures
        res@ == spec_external_action(str_views(args@), dirs@),
{
    let ghost a = str_views(args@);
    let n = args.len();
    assert(a[0] == args@[0]@);
    assert(a.last() == args@[n - 1]@);
    assert(seq!['&'] =~= "&"@) by {
        reveal_strlit("&");
    }
    match get_type_of_command(args[0], dirs) {
        TypeCommand::Program(_) => {
            if !str_is(args[n - 1], "&") {
                let rest = slice_words(args, 1, n);
                assert(a.subrange(1, n as int) =~= a.skip(1));
                ExternalAction::Run(owned(args[0]), rest)
            } else {
                let rest = slice_words(args, 1, n - 1);
                let all = slice_words(args, 0, n);
                assert(a.subrange(0, n as int) =~= a);
                ExternalAction::Spawn(owned(args[0]), rest, all)
            }
        },
        _ => {
            let mut m = owned(args[0]);
            m.append(": command not found");
            push_char(&mut m, '\n');
            assert(m@ =~= a[0] + ": command not found"@ + seq!['\n']);
            ExternalAction::NotFound(m)
        },
    }
}

} // verus!

verus! {

/// How a stage of a pipeline runs.
#[derive(Debug, PartialEq, Eq)]
pub enum StageRole {
    /// A program that ends the pipeline: its output goes to the redirection
    /// or the terminal.
    SpawnLast,
    /// A program whose output feeds the next stage.
    SpawnPiped,
    /// A builtin that ends the pipeline: its output goes to the redirection
    /// or the terminal.
    BuiltinLast,
    /// A builtin whose output feeds the next stage.
    BuiltinPiped,
    /// A command that is neither: the line to print.
    Unusable(String),
}

/// The mathematical form of a [`StageRole`].
pub enum StageRoleView {
    SpawnLast,
    SpawnPiped,
    BuiltinLast,
    BuiltinPiped,
    Unusable(Seq<char>),
}

impl View for StageRole {
    type V = StageRoleView;

    open spec fn view(&self) -> StageRoleView {
        match self {
            StageRole::SpawnLast => StageRoleView::SpawnLast,
            StageRole::SpawnPiped => StageRoleView::SpawnPiped,
            StageRole::BuiltinLast => StageRoleView::BuiltinLast,
            StageRole::BuiltinPiped => StageRoleView::BuiltinPiped,
            StageRole::Unusable(m) => StageRoleView::Unusable(m@),
        }
    }
}

/// A stage of a pipeline: its command words, its redirections and its role.
pub struct PipeStage {
    pub args: Vec<String>,
    pub out: Option<Redirect>,
    pub err: Option<Redirect>,
    pub role: StageRole,
}

/// The mathematical form of a [`PipeStage`].
pub struct PipeStageView {
    pub args: Seq<Seq<char>>,
    pub out: Option<RedirectView>,
    pub err: Option<RedirectView>,
    pub role: StageRoleView,
}

impl View for PipeStage {
    type V = PipeStageView;

    open spec fn view(&self) -> PipeStageView {
        PipeStageView {
            args: views(self.args@),
            out: redirect_opt_view(self.out),
            err: redirect_opt_view(self.err),
            role: self.role@,
        }
    }
}

/// The role of a stage whose command `cmd` denotes `kind`.
pub open spec fn stage_role(kind: TypeCommandView, last: bool, cmd: Seq<char>) -> StageRoleView {
    match kind {
        TypeCommandView::Program(_) => if last {
            StageRoleView::SpawnLast
        } else {
            StageRoleView::SpawnPiped
        },
        TypeCommandView::Builtin(_) => if last {
            StageRoleView::BuiltinLast
        } else {
            StageRoleView::BuiltinPiped
        },
        TypeCommandView::NotFound => StageRoleView::Unusable(
            cmd + ": builtin command could not be used for pipe"@ + seq!['\n'],
        ),
    }
}

/// The stage made of the words `seg`, the last one of its pipeline or not.
pub open spec fn spec_stage(seg: Seq<Seq<char>>, last: bool, dirs: Seq<DirListing>) -> PipeStageView {
    let (c, o, e) = spec_split_redirect(seg);
    PipeStageView { args: c, out: o, err: e, role: stage_role(spec_type_of_command(c[0], dirs), last, c[0]) }
}

/// Whether a stage's words stop the shell: no command word is left once the
/// redirections are out (the first command word is read).
pub open spec fn spec_stage_panics(seg: Seq<Seq<char>>) -> bool {
    spec_split_redirect(seg).0.len() == 0
}

/// Whether running the pipeline `w` stops the shell.
pub open spec fn spec_pipeline_panics(w: Seq<Seq<char>>) -> bool {
    match spec_split_pipe(w) {
        Some(segs) => exists|k: int| 0 <= k < segs.len() && spec_stage_panics(#[trigger] segs[k]),
        None => false,
    }
}

/// The views of a list of stages.
pub open spec fn pipe_stage_views(v: Seq<PipeStage>) -> Seq<PipeStageView> {
    Seq::new(v.len(), |i: int| v[i]@)
}

/// The plan of the pipeline `w`: one stage per segment between `|` words, or
/// nothing when a segment is empty.
pub open spec fn spec_plan_pipeline(w: Seq<Seq<char>>, dirs: Seq<DirListing>) -> Option<Seq<PipeStageView>> {
    match spec_split_pipe(w) {
        Some(segs) => Some(
            Seq::new(segs.len(), |i: int| spec_stage(segs[i], i == segs.len() - 1, dirs)),
        ),
        None => None,
    }
}

/// Whether a stage's words stop the shell.
fn stage_would_panic(seg: &Vec<String>) -> (res: bool)
    ensures
        res == spec_stage_panics(views(seg@)),
{
    let refs = as_strs(seg);
    let (c, _, _) = split_redirect(refs.as_slice());
    c.len() == 0
}

/// Whether running the pipeline `words` stops the shell.
pub fn pipeline_would_panic(words: &[&str]) -> (res: bool)
    ensures
        res == spec_pipeline_panics(str_views(words@)),
{
    match split_pipe(words) {
        Some(segs) => {
            let ghost sv = stage_views(segs@);
            let mut k: usize = 0;
            while k < segs.len()
                invariant
                    sv == stage_views(segs@),
                    spec_split_pipe(str_views(words@)) == Some(sv),
                    k <= segs@.len(),
                    forall|j: int| 0 <= j < k ==> !spec_stage_panics(#[trigger] sv[j]),
                decreases segs@.len() - k,
            {
                if stage_would_panic(&segs[k]) {
                    assert(spec_stage_panics(sv[k as int]));
                    proof {
                        let w = str_views(words@);
                        let segs2 = spec_split_pipe(w)->0;
                        assert(segs2 == sv);
                        assert(spec_stage_panics(segs2[k as int]));
                        assert(spec_pipeline_panics(w));
                    }
                    return true;
                }
                k = k + 1;
            }
            false
        },
        None => false,
    }
}

/// Plans the pipeline `words`: its stages, each with its command words,
/// redirections and role, given the directories `dirs` of the search path.
pub fn plan_pipeline(words: &[&str], dirs: &Vec<DirListing>) -> (res: Option<Vec<PipeStage>>)
    requires
        !spec_pipeline_panics(str_views(words@)),
    ensures
        match res {
            Some(v) => spec_plan_pipeline(str_views(words@), dirs@) == Some(pipe_stage_views(v@)),
            None => spec_plan_pipeline(str_views(words@), dirs@) is None,
        },
{
    match split_pipe(words) {
        Some(segs) => {
            let ghost sv = stage_views(segs@);
            let ghost target = Seq::new(sv.len(), |i: int| spec_stage(sv[i], i == sv.len() - 1, dirs@));
            let n = segs.len();
            let mut stages: Vec<PipeStage> = Vec::new();
            let mut k: usize = 0;
            while k < n
                invariant
                    n == segs@.len(),
                    sv == stage_views(segs@),
                    target == Seq::new(sv.len(), |i: int| spec_stage(sv[i], i == sv.len() - 1, dirs@)),
                    forall|j: int| 0 <= j < sv.len() ==> !spec_stage_panics(#[trigger] sv[j]),
                    k <= n,
                    pipe_stage_views(stages@) == target.take(k as int),
                decreases n - k,
            {
                assert(!spec_stage_panics(sv[k as int]));
                let refs = as_strs(&segs[k]);
                let (c, o, e) = split_redirect(refs.as_slice());
                assert(c@.len() > 0);
                let last = k == n - 1;
                let cmd0 = c[0].as_str();
                let role = match get_type_of_command(cmd0, dirs) {
                    TypeCommand::Program(_) => if last {
                        StageRole::SpawnLast
                    } else {
                        StageRole::SpawnPiped
                    },
                    TypeCommand::Builtin(_) => if last {
                        StageRole::BuiltinLast
                    } else {
                        StageRole::BuiltinPiped
                    },
                    TypeCommand::NotFound => {
                        let mut m = owned(cmd0);
                        m.append(": builtin command could not be used for pipe");
                        push_char(&mut m, '\n');
                        assert(m@ =~= cmd0@ + ": builtin command could not be used for pipe"@
                            + seq!['\n']);
                        StageRole::Unusable(m)
                    },
                };
                let st = PipeStage { args: c, out: o, err: e, role };
                let ghost before = pipe_stage_views(stages@);
                stages.push(st);
                proof {
                    assert(views(st.args@)[0] == cmd0@);
                    assert(st@ == spec_stage(sv[k as int], k == sv.len() - 1, dirs@));
                    assert(pipe_stage_views(stages@) =~= before.push(st@));
                    assert(target.take(k + 1) =~= target.take(k as int).push(target[k as int]));
                }
                k = k + 1;
            }
            assert(target.take(n as int) =~= target);
            Some(stages)
        },
        None => None,
    }
}

} // verus!

verus! {

/// `s` without its leading whitespace.
pub open spec fn trim_front(s: Seq<char>) -> Seq<char>
    decreases s.len(),
{
    if s.len() > 0 && is_white_space(s[0]) {
        trim_front(s.skip(1))
    } else {
        s
    }
}

/// `s` without its trailing whitespace.
pub open spec fn trim_back(s: Seq<char>) -> Seq<char>
    decreases s.len(),
{
    if s.len() > 0 && is_white_space(s.last()) {
        trim_back(s.drop_last())
    } else {
        s
    }
}

/// `s` without leading and trailing whitespace (what `str::trim` gives).
pub open spec fn spec_trim(s: Seq<char>) -> Seq<char> {
    trim_back(trim_front(s))
}

/// The command line to run for the line read: the line trimmed, or nothing
/// for a comment (a trimmed line that starts with `#`).
pub open spec fn spec_line_to_run(s: Seq<char>) -> Option<Seq<char>> {
    let t = spec_trim(s);
    if t.len() > 0 && t[0] == '#' {
        None
    } else {
        Some(t)
    }
}

/// Trims the line read and drops it when it is a comment.
pub fn line_to_run(line: &str) -> (res: Option<String>)
    ensures
        match res {
            Some(t) => spec_line_to_run(line@) == Some(t@),
            None => spec_line_to_run(line@) is None,
        },
{
    let cs = chars_of(line);
    let n = cs.len();
    let ghost s = cs@;
    let mut a: usize = 0;
    assert(s.skip(0) =~= s);
    while a < n && is_whitespace(cs[a])
        invariant
            s == cs@,
            n == s.len(),
            a <= n,
            trim_front(s) == trim_front(s.skip(a as int)),
        decreases n - a,
    {
        assert(s.skip(a as int).skip(1) =~= s.skip(a + 1));
        assert(s.skip(a as int)[0] == s[a as int]);
        a = a + 1;
    }
    proof {
        if a < n {
            assert(s.skip(a as int)[0] == s[a as int]);
        }
    }
    let mut b: usize = n;
    assert(s.subrange(a as int, n as int) =~= s.skip(a as int));
    while b > a && is_whitespace(cs[b - 1])
        invariant
            s == cs@,
            n == s.len(),
            a <= b <= n,
            trim_front(s) == s.skip(a as int),
            spec_trim(s) == trim_back(s.subrange(a as int, b as int)),
        decreases b - a,
    {
        assert(s.subrange(a as int, b as int).drop_last() =~= s.subrange(a as int, b - 1));
        assert(s.subrange(a as int, b as int).last() == s[b - 1]);
        b = b - 1;
    }
    proof {
        if b > a {
            assert(s.subrange(a as int, b as int).last() == s[b - 1]);
        }
    }
    let ghost t = s.subrange(a as int, b as int);
    assert(spec_trim(s) == t);
    if b > a && cs[a] == '#' {
        assert(t[0] == s[a as int]);
        return None;
    }
    let mut out = String::new();
    let mut i: usize = a;
    while i < b
        invariant
            s == cs@,
            a <= i <= b,
            b <= s.len(),
            out@ == s.subrange(a as int, i as int),
        decreases b - i,
    {
        push_char(&mut out, cs[i]);
        assert(s.subrange(a as int, i + 1) =~= s.subrange(a as int, i as int).push(s[i as int]));
        i = i + 1;
    }
    proof {
        if t.len() > 0 {
            assert(t[0] == s[a as int]);
        }
    }
    Some(out)
}

} // verus!

verus! {

/// No word of `c` but the last is a redirection operator.
pub open spec fn no_inner_operator(c: Seq<Seq<char>>) -> bool {
    forall|k: int| 0 <= k < c.len() - 1 ==> !is_redirect_op(#[trigger] c[k])
}

/// What a line runs: a line whose words hold `|` is a pipeline of exactly
/// those words, redirections included (each stage takes its own); any other
/// line runs its command words with the redirections taken out, so no
/// operator followed by a file is left among them; a builtin when the first
/// command word names one, another command otherwise.
pub proof fn law_plan_line(l: Seq<char>)
    ensures
        (spec_plan_line(l) is Pipe) == spec_parse_shell_args(l).contains(seq!['|']),
        spec_plan_line(l) matches LinePlanView::Pipe(w) ==> w == spec_parse_shell_args(l),
        spec_plan_line(l) matches LinePlanView::Builtin(c, _, _) ==> c.len() > 0 && builtin_names().contains(
            c[0],
        ) && no_inner_operator(c),
        spec_plan_line(l) matches LinePlanView::External(c, _, _) ==> c.len() > 0 && !builtin_names().contains(
            c[0],
        ) && no_inner_operator(c),
{
    let w = spec_parse_shell_args(l);
    law_split_redirect_strips_operators(w);
}

/// Every stage of a pipeline has its own redirections taken out: no stage,
/// the last or any other, keeps an operator followed by a file among its
/// words; only the last stage has a closing role.
pub proof fn law_pipeline_stages(w: Seq<Seq<char>>, dirs: Seq<DirListing>)
    ensures
        spec_plan_pipeline(w, dirs) matches Some(st) ==> {
            &&& st.len() > 0
            &&& forall|i: int| 0 <= i < st.len() ==> no_inner_operator(#[trigger] st[i].args)
            &&& forall|i: int|
                0 <= i < st.len() - 1 ==> !((#[trigger] st[i].role) is SpawnLast) && !(st[i].role is BuiltinLast)
        },
{
    if let Some(segs) = spec_split_pipe(w) {
        let st = Seq::new(segs.len(), |i: int| spec_stage(segs[i], i == segs.len() - 1, dirs));
        assert forall|i: int| 0 <= i < st.len() implies no_inner_operator(#[trigger] st[i].args) by {
            law_split_redirect_strips_operators(segs[i]);
        }
        crate::shell_parse::law_split_pipe_roundtrip(w);
        lemma_pipe_from_nonempty(w, 0, seq![], seq![]);
    }
}

/// Splitting at `|` gives at least one segment.
proof fn lemma_pipe_from_nonempty(
    s: Seq<Seq<char>>,
    i: int,
    segs: Seq<Seq<Seq<char>>>,
    cur: Seq<Seq<char>>,
)
    ensures
        crate::shell_parse::pipe_from(s, i, segs, cur).len() > 0,
    decreases s.len() - i,
{
    if i >= 0 && i < s.len() {
        if s[i] == seq!['|'] {
            lemma_pipe_from_nonempty(s, i + 1, segs.push(cur), seq![]);
        } else {
            lemma_pipe_from_nonempty(s, i + 1, segs, cur.push(s[i]));
        }
    }
}

} // verus!
