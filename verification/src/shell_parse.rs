use vstd::prelude::*;

use crate::text::{chars_of, push_char, string_from_chars, views};

verus! {

/// Characters that end a word when they stand outside quotes.
pub open spec fn is_separator(c: char) -> bool {
    c == '&' || c == ' ' || c == '\t' || c == '\n'
}

/// `args` with the pending word `arg` appended, when that word is not empty.
pub open spec fn flush(args: Seq<Seq<char>>, arg: Seq<char>) -> Seq<Seq<char>> {
    if arg.len() > 0 {
        args.push(arg)
    } else {
        args
    }
}

/// The redirection token for descriptor `fd` (`'1'` or `'2'`): `N>` or, when
/// appending, `N>>`.
pub open spec fn redirect_token(fd: char, append: bool) -> Seq<char> {
    if append {
        seq![fd, '>', '>']
    } else {
        seq![fd, '>']
    }
}

/// The words of `s` from position `i` on, given the words `args` already
/// produced, the word `arg` being built, and whether a single (`sq`) or double
/// (`dq`) quote is open.
///
/// Outside single quotes a backslash takes the next character literally; a
/// quote toggles its mode unless the other kind is open; outside quotes a
/// blank or `&` ends the word (and `&` is a word of its own), and `>` or `>>`
/// becomes a redirection token `1>`/`1>>`, or `2>`/`2>>` when the pending word
/// is exactly `2` (a pending `1` or `2` is taken as the descriptor, any other
/// pending word is ended first).
pub open spec fn parse_from(
    s: Seq<char>,
    i: int,
    args: Seq<Seq<char>>,
    arg: Seq<char>,
    sq: bool,
    dq: bool,
) -> Seq<Seq<char>>
    decreases s.len() - i,
{
    if i < 0 || i >= s.len() {
        flush(args, arg)
    } else {
        let c = s[i];
        if c == '\'' && !dq {
            parse_from(s, i + 1, args, arg, !sq, dq)
        } else if c == '"' && !sq {
            parse_from(s, i + 1, args, arg, sq, !dq)
        } else if c == '\\' && !sq {
            if i + 1 < s.len() {
                parse_from(s, i + 2, args, arg.push(s[i + 1]), sq, dq)
            } else {
                parse_from(s, i + 1, args, arg, sq, dq)
            }
        } else if is_separator(c) && !sq && !dq {
            let args1 = flush(args, arg);
            let args2 = if c == '&' {
                args1.push(seq!['&'])
            } else {
                args1
            };
            parse_from(s, i + 1, args2, seq![], sq, dq)
        } else if c == '>' && !sq && !dq {
            let is_fd = arg == seq!['1'] || arg == seq!['2'];
            let args1 = if is_fd {
                args
            } else {
                flush(args, arg)
            };
            let fd = if arg == seq!['2'] {
                '2'
            } else {
                '1'
            };
            let append = i + 1 < s.len() && s[i + 1] == '>';
            let next = if append {
                i + 2
            } else {
                i + 1
            };
            parse_from(s, next, args1.push(redirect_token(fd, append)), seq![], sq, dq)
        } else {
            parse_from(s, i + 1, args, arg.push(c), sq, dq)
        }
    }
}

/// The words of a command line, as the shell splits them.
pub open spec fn spec_parse_shell_args(s: Seq<char>) -> Seq<Seq<char>> {
    parse_from(s, 0, seq![], seq![], false, false)
}

/// Moves the pending word into `args` when it is not empty.
fn flush_arg(args: &mut Vec<String>, arg: &mut Vec<char>)
    ensures
        views(final(args)@) == flush(views(old(args)@), old(arg)@),
        final(arg)@ == Seq::<char>::empty(),
{
    if arg.len() > 0 {
        let w = string_from_chars(arg.as_slice());
        let ghost before = views(args@);
        args.push(w);
        assert(views(args@) =~= before.push(w@));
        *arg = Vec::new();
    }
}

/// Appends the redirection token for `fd` to `args`.
fn push_redirect(args: &mut Vec<String>, fd: char, append: bool)
    ensures
        views(final(args)@) == views(old(args)@).push(redirect_token(fd, append)),
{
    let mut t = String::new();
    push_char(&mut t, fd);
    push_char(&mut t, '>');
    if append {
        push_char(&mut t, '>');
    }
    assert(t@ =~= redirect_token(fd, append));
    let ghost before = views(args@);
    args.push(t);
    assert(views(args@) =~= before.push(redirect_token(fd, append)));
}

/// Splits a command line into words, honouring quotes, backslash escapes,
/// `&` and the redirection operators `>`, `>>`, `2>`, `2>>`.
pub fn parse_shell_args(intput: &str) -> (res: Vec<String>)
    ensures
        views(res@) == spec_parse_shell_args(intput@),
{
    let s = chars_of(intput);
    let n = s.len();
    let mut args: Vec<String> = Vec::new();
    let mut arg: Vec<char> = Vec::new();
    let mut is_single_quotes = false;
    let mut is_double_quotes = false;
    let mut i: usize = 0;
    assert(views(args@) =~= Seq::<Seq<char>>::empty());
    while i < n
        invariant
            n == s@.len(),
            s@ == intput@,
            i <= n,
            spec_parse_shell_args(s@) == parse_from(
                s@,
                i as int,
                views(args@),
                arg@,
                is_single_quotes,
                is_double_quotes,
            ),
        decreases n - i,
    {
        let c = s[i];
        if c == '\'' && !is_double_quotes {
            is_single_quotes = !is_single_quotes;
            i = i + 1;
        } else if c == '"' && !is_single_quotes {
            is_double_quotes = !is_double_quotes;
            i = i + 1;
        } else if c == '\\' && !is_single_quotes {
            if i + 1 < n {
                arg.push(s[i + 1]);
                i = i + 2;
            } else {
                i = i + 1;
            }
        } else if (c == '&' || c == ' ' || c == '\t' || c == '\n') && !is_single_quotes
            && !is_double_quotes {
            flush_arg(&mut args, &mut arg);
            if c == '&' {
                let mut t = String::new();
                push_char(&mut t, '&');
                assert(t@ =~= seq!['&']);
                let ghost before = views(args@);
                args.push(t);
                assert(views(args@) =~= before.push(seq!['&']));
            }
            i = i + 1;
        } else if c == '>' && !is_double_quotes && !is_single_quotes {
            let is_one = arg.len() == 1 && arg[0] == '1';
            let is_two = arg.len() == 1 && arg[0] == '2';
            proof {
                assert(is_one == (arg@ == seq!['1'])) by {
                    if arg@ == seq!['1'] {
                        assert(arg@[0] == '1');
                    }
                    if is_one {
                        assert(arg@ =~= seq!['1']);
                    }
                }
                assert(is_two == (arg@ == seq!['2'])) by {
                    if arg@ == seq!['2'] {
                        assert(arg@[0] == '2');
                    }
                    if is_two {
                        assert(arg@ =~= seq!['2']);
                    }
                }
            }
            if is_one || is_two {
                arg = Vec::new();
            } else {
                flush_arg(&mut args, &mut arg);
            }
            let fd = if is_two {
                '2'
            } else {
                '1'
            };
            let append = i + 1 < n && s[i + 1] == '>';
            push_redirect(&mut args, fd, append);
            if append {
                i = i + 2;
            } else {
                i = i + 1;
            }
        } else {
            arg.push(c);
            i = i + 1;
        }
    }
    flush_arg(&mut args, &mut arg);
    args
}

} // verus!

verus! {

/// Where an output stream goes: a file created anew, or one appended to.
#[derive(Debug, PartialEq, Eq)]
pub enum Redirect {
    Normal(String),
    Append(String),
}

/// The mathematical form of a [`Redirect`].
pub enum RedirectView {
    Normal(Seq<char>),
    Append(Seq<char>),
}

impl View for Redirect {
    type V = RedirectView;

    open spec fn view(&self) -> RedirectView {
        match self {
            Redirect::Normal(f) => RedirectView::Normal(f@),
            Redirect::Append(f) => RedirectView::Append(f@),
        }
    }
}

/// The view of an optional redirection.
pub open spec fn redirect_opt_view(r: Option<Redirect>) -> Option<RedirectView> {
    match r {
        Some(x) => Some(x@),
        None => None,
    }
}

/// The views of a sequence of string slices.
pub open spec fn str_views(v: Seq<&str>) -> Seq<Seq<char>> {
    Seq::new(v.len(), |i: int| v[i]@)
}

/// Whether `w` is one of the four redirection operators.
pub open spec fn is_redirect_op(w: Seq<char>) -> bool {
    w == seq!['1', '>'] || w == seq!['2', '>'] || w == seq!['1', '>', '>'] || w == seq!['2', '>', '>']
}

/// Splitting the words from position `i` on, given the command words `cmd`
/// kept so far and the redirections `out` and `err` seen so far: an operator
/// followed by a word takes that word as its file (a later one replaces an
/// earlier one), every other word is a command word.
pub open spec fn split_from(
    s: Seq<Seq<char>>,
    i: int,
    cmd: Seq<Seq<char>>,
    out: Option<RedirectView>,
    err: Option<RedirectView>,
) -> (Seq<Seq<char>>, Option<RedirectView>, Option<RedirectView>)
    decreases s.len() - i,
{
    if i < 0 || i >= s.len() {
        (cmd, out, err)
    } else if i + 1 < s.len() && s[i] == seq!['1', '>'] {
        split_from(s, i + 2, cmd, Some(RedirectView::Normal(s[i + 1])), err)
    } else if i + 1 < s.len() && s[i] == seq!['2', '>'] {
        split_from(s, i + 2, cmd, out, Some(RedirectView::Normal(s[i + 1])))
    } else if i + 1 < s.len() && s[i] == seq!['1', '>', '>'] {
        split_from(s, i + 2, cmd, Some(RedirectView::Append(s[i + 1])), err)
    } else if i + 1 < s.len() && s[i] == seq!['2', '>', '>'] {
        split_from(s, i + 2, cmd, out, Some(RedirectView::Append(s[i + 1])))
    } else {
        split_from(s, i + 1, cmd.push(s[i]), out, err)
    }
}

/// The command words, the standard-output redirection and the standard-error
/// redirection of a list of words.
pub open spec fn spec_split_redirect(s: Seq<Seq<char>>) -> (
    Seq<Seq<char>>,
    Option<RedirectView>,
    Option<RedirectView>,
) {
    split_from(s, 0, seq![], None, None)
}

/// Whether the string slice `s` is exactly the literal `lit`.
pub fn str_is(s: &str, lit: &str) -> (res: bool)
    ensures
        res == (s@ == lit@),
{
    let a = String::from_str(s);
    let b = String::from_str(lit);
    a == b
}

/// Whether `w` is exactly the characters `cs`.
fn str_is_chars(w: &str, cs: &[char]) -> (res: bool)
    ensures
        res == (w@ == cs@),
{
    let v = chars_of(w);
    if v.len() != cs.len() {
        return false;
    }
    let mut i: usize = 0;
    while i < v.len()
        invariant
            v@ == w@,
            v@.len() == cs@.len(),
            i <= v@.len(),
            forall|j: int| 0 <= j < i ==> v@[j] == cs@[j],
        decreases v@.len() - i,
    {
        if v[i] != cs[i] {
            return false;
        }
        i = i + 1;
    }
    assert(v@ =~= cs@);
    true
}

} // verus!

verus! {

/// The file name word `w` as an owned string.
fn owned_word(w: &str) -> (res: String)
    ensures
        res@ == w@,
{
    String::from_str(w)
}

/// Separates the redirections `1> f`, `2> f`, `1>> f` and `2>> f` from the
/// command words; the last redirection of each stream wins. Any other word,
/// a lone `1` or `>` among them, is a command word.
pub fn split_redirect(args: &[&str]) -> (res: (Vec<String>, Option<Redirect>, Option<Redirect>))
    ensures
        (views(res.0@), redirect_opt_view(res.1), redirect_opt_view(res.2)) == spec_split_redirect(
            str_views(args@),
        ),
{
    let ghost s = str_views(args@);
    let n = args.len();
    let mut command_args: Vec<String> = Vec::new();
    let mut redirect_file: Option<Redirect> = None;
    let mut redirect_file_err: Option<Redirect> = None;
    let mut i: usize = 0;
    assert(views(command_args@) =~= Seq::<Seq<char>>::empty());
    while i < n
        invariant
            n == args@.len(),
            s == str_views(args@),
            i <= n + 1,
            spec_split_redirect(s) == split_from(
                s,
                i as int,
                views(command_args@),
                redirect_opt_view(redirect_file),
                redirect_opt_view(redirect_file_err),
            ),
        decreases n + 1 - i,
    {
        let w = args[i];
        proof {
            assert(s[i as int] == w@);
            assert(seq!['1', '>'] =~= ['1', '>']@);
            assert(seq!['2', '>'] =~= ['2', '>']@);
            assert(seq!['1', '>', '>'] =~= ['1', '>', '>']@);
            assert(seq!['2', '>', '>'] =~= ['2', '>', '>']@);
        }
        if i + 1 < n && str_is_chars(w, &['1', '>']) {
            redirect_file = Some(Redirect::Normal(owned_word(args[i + 1])));
            i = i + 2;
        } else if i + 1 < n && str_is_chars(w, &['2', '>']) {
            redirect_file_err = Some(Redirect::Normal(owned_word(args[i + 1])));
            i = i + 2;
        } else if i + 1 < n && str_is_chars(w, &['1', '>', '>']) {
            redirect_file = Some(Redirect::Append(owned_word(args[i + 1])));
            i = i + 2;
        } else if i + 1 < n && str_is_chars(w, &['2', '>', '>']) {
            redirect_file_err = Some(Redirect::Append(owned_word(args[i + 1])));
            i = i + 2;
        } else {
            let ghost before = views(command_args@);
            command_args.push(owned_word(w));
            assert(views(command_args@) =~= before.push(s[i as int]));
            i = i + 1;
        }
    }
    (command_args, redirect_file, redirect_file_err)
}

/// The segments of `s` from position `i` on, split at the word `|`, given the
/// segments `segs` already closed and the segment `cur` being built.
pub open spec fn pipe_from(
    s: Seq<Seq<char>>,
    i: int,
    segs: Seq<Seq<Seq<char>>>,
    cur: Seq<Seq<char>>,
) -> Seq<Seq<Seq<char>>>
    decreases s.len() - i,
{
    if i < 0 || i >= s.len() {
        segs.push(cur)
    } else if s[i] == seq!['|'] {
        pipe_from(s, i + 1, segs.push(cur), seq![])
    } else {
        pipe_from(s, i + 1, segs, cur.push(s[i]))
    }
}

/// The pipeline stages of `s`: the words between `|` words, or `None` when a
/// stage would be empty.
pub open spec fn spec_split_pipe(s: Seq<Seq<char>>) -> Option<Seq<Seq<Seq<char>>>> {
    let segs = pipe_from(s, 0, seq![], seq![]);
    if forall|k: int| 0 <= k < segs.len() ==> #[trigger] segs[k].len() > 0 {
        Some(segs)
    } else {
        None
    }
}

/// The views of a list of stages.
pub open spec fn stage_views(v: Seq<Vec<String>>) -> Seq<Seq<Seq<char>>> {
    Seq::new(v.len(), |i: int| views(v[i]@))
}

/// Splits a command line at its `|` words into the stages of a pipeline;
/// `None` when a stage is empty (a leading, trailing or doubled `|`).
pub fn split_pipe(args: &[&str]) -> (res: Option<Vec<Vec<String>>>)
    ensures
        match res {
            Some(v) => spec_split_pipe(str_views(args@)) == Some(stage_views(v@)),
            None => spec_split_pipe(str_views(args@)) is None,
        },
{
    let ghost s = str_views(args@);
    let n = args.len();
    let mut segs: Vec<Vec<String>> = Vec::new();
    let mut cur: Vec<String> = Vec::new();
    let mut all_filled = true;
    let mut i: usize = 0;
    assert(views(cur@) =~= Seq::<Seq<char>>::empty());
    assert(stage_views(segs@) =~= Seq::<Seq<Seq<char>>>::empty());
    while i < n
        invariant
            n == args@.len(),
            s == str_views(args@),
            i <= n,
            pipe_from(s, 0, seq![], seq![]) == pipe_from(s, i as int, stage_views(segs@), views(cur@)),
            all_filled == (forall|k: int| 0 <= k < segs@.len() ==> #[trigger] segs@[k]@.len() > 0),
        decreases n - i,
    {
        let w = args[i];
        proof {
            assert(s[i as int] == w@);
            assert(seq!['|'] =~= ['|']@);
        }
        if str_is_chars(w, &['|']) {
            let ghost before = stage_views(segs@);
            let ghost old_segs = segs@;
            if cur.len() == 0 {
                all_filled = false;
            }
            segs.push(cur);
            assert(stage_views(segs@) =~= before.push(views(segs@[segs@.len() - 1]@)));
            proof {
                assert forall|k: int| 0 <= k < old_segs.len() implies segs@[k] == old_segs[k] by {}
            }
            cur = Vec::new();
            assert(views(cur@) =~= Seq::<Seq<char>>::empty());
        } else {
            let ghost before = views(cur@);
            cur.push(owned_word(w));
            assert(views(cur@) =~= before.push(s[i as int]));
        }
        i = i + 1;
    }
    let ghost before = stage_views(segs@);
    let ghost old_segs = segs@;
    if cur.len() == 0 {
        all_filled = false;
    }
    segs.push(cur);
    assert(stage_views(segs@) =~= before.push(views(segs@[segs@.len() - 1]@)));
    proof {
        assert forall|k: int| 0 <= k < old_segs.len() implies segs@[k] == old_segs[k] by {}
        let sv = stage_views(segs@);
        assert(all_filled == (forall|k: int| 0 <= k < sv.len() ==> #[trigger] sv[k].len() > 0)) by {
            if all_filled {
                assert forall|k: int| 0 <= k < sv.len() implies #[trigger] sv[k].len() > 0 by {
                    assert(sv[k] == views(segs@[k]@));
                }
            } else {
                let k = choose|k: int| 0 <= k < segs@.len() && !(#[trigger] segs@[k]@.len() > 0);
                assert(sv[k] == views(segs@[k]@));
            }
        }
    }
    if all_filled {
        Some(segs)
    } else {
        None
    }
}

/// Whether the words of a command line hold a pipe `|`.
pub fn is_pipe_command(command: &[&str]) -> (res: bool)
    ensures
        res == str_views(command@).contains(seq!['|']),
{
    let ghost s = str_views(command@);
    let mut i: usize = 0;
    while i < command.len()
        invariant
            s == str_views(command@),
            i <= command@.len(),
            forall|j: int| 0 <= j < i ==> s[j] != seq!['|'],
        decreases command@.len() - i,
    {
        assert(seq!['|'] =~= ['|']@);
        if str_is_chars(command[i], &['|']) {
            assert(s[i as int] == seq!['|']);
            return true;
        }
        i = i + 1;
    }
    false
}

} // verus!

verus! {

/// Every word in `args` has at least one character.
pub open spec fn all_nonempty(args: Seq<Seq<char>>) -> bool {
    forall|k: int| 0 <= k < args.len() ==> (#[trigger] args[k]).len() > 0
}

proof fn lemma_parse_from_nonempty(
    s: Seq<char>,
    i: int,
    args: Seq<Seq<char>>,
    arg: Seq<char>,
    sq: bool,
    dq: bool,
)
    requires
        all_nonempty(args),
    ensures
        all_nonempty(parse_from(s, i, args, arg, sq, dq)),
    decreases s.len() - i,
{
    if i < 0 || i >= s.len() {
        assert(all_nonempty(flush(args, arg))) by {
            if arg.len() > 0 {
                assert forall|k: int| 0 <= k < args.push(arg).len() implies (#[trigger] args.push(arg)[k]).len() > 0 by {
                    if k < args.len() {
                        assert(args.push(arg)[k] == args[k]);
                    }
                }
            }
        }
    } else {
        let c = s[i];
        let f = flush(args, arg);
        assert(all_nonempty(f)) by {
            if arg.len() > 0 {
                assert forall|k: int| 0 <= k < args.push(arg).len() implies (#[trigger] args.push(arg)[k]).len() > 0 by {
                    if k < args.len() {
                        assert(args.push(arg)[k] == args[k]);
                    }
                }
            }
        }
        if c == '\'' && !dq {
            lemma_parse_from_nonempty(s, i + 1, args, arg, !sq, dq);
        } else if c == '"' && !sq {
            lemma_parse_from_nonempty(s, i + 1, args, arg, sq, !dq);
        } else if c == '\\' && !sq {
            if i + 1 < s.len() {
                lemma_parse_from_nonempty(s, i + 2, args, arg.push(s[i + 1]), sq, dq);
            } else {
                lemma_parse_from_nonempty(s, i + 1, args, arg, sq, dq);
            }
        } else if is_separator(c) && !sq && !dq {
            let a2 = if c == '&' {
                f.push(seq!['&'])
            } else {
                f
            };
            assert(all_nonempty(a2)) by {
                assert forall|k: int| 0 <= k < a2.len() implies (#[trigger] a2[k]).len() > 0 by {
                    if k < f.len() {
                        assert(a2[k] == f[k]);
                    }
                }
            }
            lemma_parse_from_nonempty(s, i + 1, a2, seq![], sq, dq);
        } else if c == '>' && !sq && !dq {
            let is_fd = arg == seq!['1'] || arg == seq!['2'];
            let args1 = if is_fd {
                args
            } else {
                f
            };
            let fd = if arg == seq!['2'] {
                '2'
            } else {
                '1'
            };
            let append = i + 1 < s.len() && s[i + 1] == '>';
            let next = if append {
                i + 2
            } else {
                i + 1
            };
            let a2 = args1.push(redirect_token(fd, append));
            assert(all_nonempty(a2)) by {
                assert forall|k: int| 0 <= k < a2.len() implies (#[trigger] a2[k]).len() > 0 by {
                    if k < args1.len() {
                        assert(a2[k] == args1[k]);
                    }
                }
            }
            lemma_parse_from_nonempty(s, next, a2, seq![], sq, dq);
        } else {
            lemma_parse_from_nonempty(s, i + 1, args, arg.push(c), sq, dq);
        }
    }
}

/// Splitting a command line never yields an empty word.
pub proof fn law_parse_words_nonempty(s: Seq<char>)
    ensures
        all_nonempty(spec_parse_shell_args(s)),
{
    lemma_parse_from_nonempty(s, 0, seq![], seq![], false, false);
}

/// Inside single quotes every character up to the closing quote is kept as
/// it is.
proof fn lemma_single_quoted(s: Seq<char>, i: int, k: int, args: Seq<Seq<char>>, arg: Seq<char>)
    requires
        0 <= i <= k < s.len(),
        s[k] == '\'',
        forall|j: int| i <= j < k ==> s[j] != '\'',
    ensures
        parse_from(s, i, args, arg, true, false) == parse_from(
            s,
            k + 1,
            args,
            arg + s.subrange(i, k),
            false,
            false,
        ),
    decreases k - i,
{
    if i == k {
        assert(arg + s.subrange(i, k) =~= arg);
    } else {
        lemma_single_quoted(s, i + 1, k, args, arg.push(s[i]));
        assert(arg.push(s[i]) + s.subrange(i + 1, k) =~= arg + s.subrange(i, k));
    }
}

/// A word in single quotes is one word, taken literally: blanks, `&`, `>`,
/// `"` and `\` inside lose their meaning.
pub proof fn law_single_quotes_literal(w: Seq<char>)
    requires
        w.len() > 0,
        !w.contains('\''),
    ensures
        spec_parse_shell_args(seq!['\''] + w + seq!['\'']) == seq![w],
{
    let s = seq!['\''] + w + seq!['\''];
    let k = s.len() - 1;
    assert forall|j: int| 1 <= j < k implies s[j] != '\'' by {
        assert(s[j] == w[j - 1]);
    }
    lemma_single_quoted(s, 1, k, seq![], seq![]);
    assert(Seq::<char>::empty() + s.subrange(1, k) =~= w);
    assert(flush(seq![], w) =~= seq![w]);
}

/// Inside double quotes every character but `\` is kept as it is, up to the
/// closing quote.
proof fn lemma_double_quoted(s: Seq<char>, i: int, k: int, args: Seq<Seq<char>>, arg: Seq<char>)
    requires
        0 <= i <= k < s.len(),
        s[k] == '"',
        forall|j: int| i <= j < k ==> s[j] != '"' && s[j] != '\\',
    ensures
        parse_from(s, i, args, arg, false, true) == parse_from(
            s,
            k + 1,
            args,
            arg + s.subrange(i, k),
            false,
            false,
        ),
    decreases k - i,
{
    if i == k {
        assert(arg + s.subrange(i, k) =~= arg);
    } else {
        lemma_double_quoted(s, i + 1, k, args, arg.push(s[i]));
        assert(arg.push(s[i]) + s.subrange(i + 1, k) =~= arg + s.subrange(i, k));
    }
}

/// A word in double quotes without `"` or `\` inside is one word, taken
/// literally.
pub proof fn law_double_quotes_literal(w: Seq<char>)
    requires
        w.len() > 0,
        !w.contains('"'),
        !w.contains('\\'),
    ensures
        spec_parse_shell_args(seq!['"'] + w + seq!['"']) == seq![w],
{
    let s = seq!['"'] + w + seq!['"'];
    let k = s.len() - 1;
    assert forall|j: int| 1 <= j < k implies s[j] != '"' && s[j] != '\\' by {
        assert(s[j] == w[j - 1]);
    }
    lemma_double_quoted(s, 1, k, seq![], seq![]);
    assert(Seq::<char>::empty() + s.subrange(1, k) =~= w);
    assert(flush(seq![], w) =~= seq![w]);
}

proof fn lemma_split_from_plain(
    s: Seq<Seq<char>>,
    i: int,
    cmd: Seq<Seq<char>>,
    out: Option<RedirectView>,
    err: Option<RedirectView>,
)
    requires
        0 <= i <= s.len(),
        forall|k: int| 0 <= k < s.len() ==> !is_redirect_op(#[trigger] s[k]),
    ensures
        split_from(s, i, cmd, out, err) == (cmd + s.subrange(i, s.len() as int), out, err),
    decreases s.len() - i,
{
    if i < s.len() {
        assert(!is_redirect_op(s[i]));
        lemma_split_from_plain(s, i + 1, cmd.push(s[i]), out, err);
        assert(cmd.push(s[i]) + s.subrange(i + 1, s.len() as int) =~= cmd + s.subrange(i, s.len() as int));
    } else {
        assert(cmd + s.subrange(i, s.len() as int) =~= cmd);
    }
}

/// Words without a redirection operator are all command words, and no
/// stream is redirected.
pub proof fn law_split_redirect_plain(s: Seq<Seq<char>>)
    requires
        forall|k: int| 0 <= k < s.len() ==> !is_redirect_op(#[trigger] s[k]),
    ensures
        spec_split_redirect(s) == (s, None::<RedirectView>, None::<RedirectView>),
{
    lemma_split_from_plain(s, 0, seq![], None, None);
    assert(Seq::<Seq<char>>::empty() + s.subrange(0, s.len() as int) =~= s);
}

} // verus!

verus! {

/// The words of the stages `segs`, with a `|` word between stages.
pub open spec fn join_stages(segs: Seq<Seq<Seq<char>>>) -> Seq<Seq<char>>
    decreases segs.len(),
{
    if segs.len() == 0 {
        seq![]
    } else if segs.len() == 1 {
        segs[0]
    } else {
        join_stages(segs.drop_last()) + seq![seq!['|']] + segs.last()
    }
}

proof fn lemma_pipe_from_joins(
    s: Seq<Seq<char>>,
    i: int,
    segs: Seq<Seq<Seq<char>>>,
    cur: Seq<Seq<char>>,
)
    requires
        0 <= i <= s.len(),
    ensures
        join_stages(pipe_from(s, i, segs, cur)) == join_stages(segs.push(cur)) + s.skip(i),
    decreases s.len() - i,
{
    if i >= s.len() {
        assert(s.skip(i) =~= Seq::<Seq<char>>::empty());
        assert(join_stages(segs.push(cur)) + s.skip(i) =~= join_stages(segs.push(cur)));
    } else if s[i] == seq!['|'] {
        lemma_pipe_from_joins(s, i + 1, segs.push(cur), seq![]);
        let p = segs.push(cur);
        assert(p.push(seq![]).drop_last() =~= p);
        assert(join_stages(p.push(seq![])) == join_stages(p) + seq![seq!['|']] + Seq::<Seq<char>>::empty());
        assert(s.skip(i) =~= seq![seq!['|']] + s.skip(i + 1));
        assert(join_stages(p) + seq![seq!['|']] + Seq::<Seq<char>>::empty() + s.skip(i + 1) =~= join_stages(p)
            + s.skip(i));
    } else {
        lemma_pipe_from_joins(s, i + 1, segs, cur.push(s[i]));
        assert(segs.push(cur.push(s[i])).drop_last() =~= segs);
        assert(segs.push(cur).drop_last() =~= segs);
        assert(s.skip(i) =~= seq![s[i]] + s.skip(i + 1));
        if segs.len() == 0 {
            assert(cur.push(s[i]) + s.skip(i + 1) =~= cur + s.skip(i));
        } else {
            assert(join_stages(segs) + seq![seq!['|']] + cur.push(s[i]) + s.skip(i + 1) =~= join_stages(segs)
                + seq![seq!['|']] + cur + s.skip(i));
        }
    }
}

/// Splitting a pipeline loses nothing: its stages, joined with `|` words,
/// are the words of the line.
pub proof fn law_split_pipe_roundtrip(w: Seq<Seq<char>>)
    ensures
        spec_split_pipe(w) matches Some(segs) ==> join_stages(segs) == w,
{
    lemma_pipe_from_joins(w, 0, seq![], seq![]);
    assert(Seq::<Seq<Seq<char>>>::empty().push(Seq::<Seq<char>>::empty()) =~= seq![Seq::<Seq<char>>::empty()]);
    assert(w.skip(0) =~= w);
    assert(Seq::<Seq<char>>::empty() + w =~= w);
}

} // verus!

verus! {

/// A character with no meaning to the splitter: not a blank, `&`, `>`, a
/// quote or a backslash.
pub open spec fn is_plain_char(c: char) -> bool {
    !is_separator(c) && c != '>' && c != '\'' && c != '"' && c != '\\'
}

/// A non-empty word of plain characters.
pub open spec fn is_plain_word(w: Seq<char>) -> bool {
    w.len() > 0 && forall|j: int| 0 <= j < w.len() ==> is_plain_char(#[trigger] w[j])
}

/// Plain characters accumulate into the pending word.
proof fn lemma_plain_run(s: Seq<char>, i: int, k: int, args: Seq<Seq<char>>, arg: Seq<char>)
    requires
        0 <= i <= k <= s.len(),
        forall|j: int| i <= j < k ==> is_plain_char(#[trigger] s[j]),
    ensures
        parse_from(s, i, args, arg, false, false) == parse_from(
            s,
            k,
            args,
            arg + s.subrange(i, k),
            false,
            false,
        ),
    decreases k - i,
{
    if i == k {
        assert(arg + s.subrange(i, k) =~= arg);
    } else {
        assert(is_plain_char(s[i]));
        lemma_plain_run(s, i + 1, k, args, arg.push(s[i]));
        assert(arg.push(s[i]) + s.subrange(i + 1, k) =~= arg + s.subrange(i, k));
    }
}

/// The words of `w op f`, where `op` is a redirection operator written with
/// the descriptor `fd` (`'1'`, `'2'`) or without one (`None`, meaning
/// standard output), `>` or `>>`.
pub open spec fn redirect_line(w: Seq<char>, fd: Option<char>, append: bool, f: Seq<char>) -> Seq<char> {
    let d = match fd {
        Some(c) => seq![c],
        None => seq![],
    };
    let arrows = if append {
        seq!['>', '>']
    } else {
        seq!['>']
    };
    w + seq![' '] + d + arrows + seq![' '] + f
}

proof fn lemma_redirect_line(w: Seq<char>, fd: Option<char>, append: bool, f: Seq<char>)
    requires
        is_plain_word(w),
        is_plain_word(f),
        fd == Some('1') || fd == Some('2') || fd is None,
    ensures
        spec_parse_shell_args(redirect_line(w, fd, append, f)) == seq![
            w,
            redirect_token(if fd == Some('2') { '2' } else { '1' }, append),
            f,
        ],
{
    let s = redirect_line(w, fd, append, f);
    let d: Seq<char> = match fd {
        Some(c) => seq![c],
        None => seq![],
    };
    let arrows: Seq<char> = if append {
        seq!['>', '>']
    } else {
        seq!['>']
    };
    let wl = w.len() as int;
    let dl = d.len() as int;
    let al = arrows.len() as int;
    let fdc = if fd == Some('2') {
        '2'
    } else {
        '1'
    };
    let tok = redirect_token(fdc, append);
    assert(s =~= w + seq![' '] + d + arrows + seq![' '] + f);
    assert forall|j: int| 0 <= j < wl implies is_plain_char(#[trigger] s[j]) by {
        assert(s[j] == w[j]);
    }
    lemma_plain_run(s, 0, wl, seq![], seq![]);
    assert(Seq::<char>::empty() + s.subrange(0, wl) =~= w);
    assert(s[wl] == ' ');
    assert(flush(seq![], w) =~= seq![w]);
    assert(parse_from(s, wl, seq![], w, false, false) == parse_from(s, wl + 1, seq![w], seq![], false, false));
    let p = wl + 1 + dl;
    assert(parse_from(s, wl + 1, seq![w], seq![], false, false) == parse_from(s, p, seq![w], d, false, false)) by {
        if dl == 1 {
            assert(s[wl + 1] == d[0]);
            assert(seq![].push(d[0]) =~= d);
        } else {
            assert(d =~= Seq::<char>::empty());
        }
    }
    assert(s[p] == '>');
    assert(append ==> s[p + 1] == '>');
    assert(!append ==> s[p + 1] == ' ');
    assert(d == seq!['1'] || d == seq!['2'] || d.len() == 0);
    assert(d == seq!['2'] <==> fd == Some('2'));
    let q = p + al;
    assert(parse_from(s, p, seq![w], d, false, false) == parse_from(s, q, seq![w].push(tok), seq![], false, false)) by {
        if d.len() == 0 {
            assert(flush(seq![w], d) == seq![w]);
        }
    }
    assert(s[q] == ' ');
    assert(flush(seq![w].push(tok), seq![]) == seq![w].push(tok));
    assert(parse_from(s, q, seq![w].push(tok), seq![], false, false) == parse_from(
        s,
        q + 1,
        seq![w].push(tok),
        seq![],
        false,
        false,
    ));
    assert(q + 1 + f.len() == s.len());
    assert forall|j: int| q + 1 <= j < s.len() implies is_plain_char(#[trigger] s[j]) by {
        assert(s[j] == f[j - q - 1]);
    }
    lemma_plain_run(s, q + 1, s.len() as int, seq![w].push(tok), seq![]);
    assert(Seq::<char>::empty() + s.subrange(q + 1, s.len() as int) =~= f);
    assert(seq![w].push(tok).push(f) =~= seq![w, tok, f]);
}

/// A redirection with an explicit descriptor 1 means the same as one with no
/// descriptor, and descriptor 2 goes to standard error: for plain words `w`
/// and `f`, `w > f` and `w 1> f` split into `[w, "1>", f]`, `w >> f` and
/// `w 1>> f` into `[w, "1>>", f]`, `w 2> f` into `[w, "2>", f]` and
/// `w 2>> f` into `[w, "2>>", f]`.
pub proof fn law_redirect_operators(w: Seq<char>, f: Seq<char>)
    requires
        is_plain_word(w),
        is_plain_word(f),
    ensures
        spec_parse_shell_args(redirect_line(w, None, false, f)) == seq![w, seq!['1', '>'], f],
        spec_parse_shell_args(redirect_line(w, Some('1'), false, f)) == seq![w, seq!['1', '>'], f],
        spec_parse_shell_args(redirect_line(w, None, true, f)) == seq![w, seq!['1', '>', '>'], f],
        spec_parse_shell_args(redirect_line(w, Some('1'), true, f)) == seq![w, seq!['1', '>', '>'], f],
        spec_parse_shell_args(redirect_line(w, Some('2'), false, f)) == seq![w, seq!['2', '>'], f],
        spec_parse_shell_args(redirect_line(w, Some('2'), true, f)) == seq![w, seq!['2', '>', '>'], f],
{
    lemma_redirect_line(w, None, false, f);
    lemma_redirect_line(w, Some('1'), false, f);
    lemma_redirect_line(w, None, true, f);
    lemma_redirect_line(w, Some('1'), true, f);
    lemma_redirect_line(w, Some('2'), false, f);
    lemma_redirect_line(w, Some('2'), true, f);
}

} // verus!

verus! {

/// No word of `c` is a redirection operator, except possibly its last word,
/// which is then the last word `last` of the line.
pub open spec fn operators_only_last(c: Seq<Seq<char>>, last: Seq<char>) -> bool {
    forall|k: int| 0 <= k < c.len() && is_redirect_op(#[trigger] c[k]) ==> k == c.len() - 1 && c[k] == last
}

proof fn lemma_split_from_operators(
    s: Seq<Seq<char>>,
    i: int,
    cmd: Seq<Seq<char>>,
    out: Option<RedirectView>,
    err: Option<RedirectView>,
)
    requires
        0 <= i,
        forall|k: int| 0 <= k < cmd.len() ==> !is_redirect_op(#[trigger] cmd[k]),
    ensures
        operators_only_last(split_from(s, i, cmd, out, err).0, s.last()),
    decreases s.len() - i,
{
    if i >= s.len() {
        assert(split_from(s, i, cmd, out, err).0 == cmd);
    } else if i + 1 < s.len() && s[i] == seq!['1', '>'] {
        lemma_split_from_operators(s, i + 2, cmd, Some(RedirectView::Normal(s[i + 1])), err);
    } else if i + 1 < s.len() && s[i] == seq!['2', '>'] {
        lemma_split_from_operators(s, i + 2, cmd, out, Some(RedirectView::Normal(s[i + 1])));
    } else if i + 1 < s.len() && s[i] == seq!['1', '>', '>'] {
        lemma_split_from_operators(s, i + 2, cmd, Some(RedirectView::Append(s[i + 1])), err);
    } else if i + 1 < s.len() && s[i] == seq!['2', '>', '>'] {
        lemma_split_from_operators(s, i + 2, cmd, out, Some(RedirectView::Append(s[i + 1])));
    } else if is_redirect_op(s[i]) {
        assert(i == s.len() - 1);
        let c2 = cmd.push(s[i]);
        assert(split_from(s, i, cmd, out, err) == split_from(s, i + 1, c2, out, err));
        assert(split_from(s, i + 1, c2, out, err) == (c2, out, err));
        assert(s.last() == s[i]);
        assert forall|k: int| 0 <= k < c2.len() && is_redirect_op(#[trigger] c2[k]) implies k == c2.len() - 1
            && c2[k] == s.last() by {
            if k < cmd.len() {
                assert(c2[k] == cmd[k]);
            }
        }
    } else {
        let c2 = cmd.push(s[i]);
        assert forall|k: int| 0 <= k < c2.len() implies !is_redirect_op(#[trigger] c2[k]) by {
            if k < cmd.len() {
                assert(c2[k] == cmd[k]);
            }
        }
        lemma_split_from_operators(s, i + 1, c2, out, err);
        assert(split_from(s, i, cmd, out, err) == split_from(s, i + 1, c2, out, err));
    }
}

/// Taking out the redirections leaves no operator among the command words,
/// except a last word of the line that has no file after it: every
/// operator that is followed by a word takes that word as its file.
pub proof fn law_split_redirect_strips_operators(s: Seq<Seq<char>>)
    ensures
        operators_only_last(spec_split_redirect(s).0, s.last()),
{
    lemma_split_from_operators(s, 0, seq![], None, None);
}

} // verus!
