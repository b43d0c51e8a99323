use vstd::prelude::*;

use crate::text::{chars_of, is_white_space, is_whitespace, owned, push_char, views};

verus! {

/// The position (in characters) of the last whitespace character of `s`.
pub open spec fn spec_last_whitespace(s: Seq<char>) -> Option<int>
    decreases s.len(),
{
    if s.len() == 0 {
        None
    } else if is_white_space(s.last()) {
        Some(s.len() - 1)
    } else {
        spec_last_whitespace(s.drop_last())
    }
}

/// Where the word being completed starts: just after the last whitespace
/// character before the cursor. Returns that character's position (in
/// characters), or `None` when the text before the cursor holds none.
pub fn last_whitespace(prefix: &str) -> (res: Option<usize>)
    ensures
        match res {
            Some(i) => spec_last_whitespace(prefix@) == Some(i as int),
            None => spec_last_whitespace(prefix@) is None,
        },
{
    let cs = chars_of(prefix);
    let mut i: usize = cs.len();
    assert(cs@.take(i as int) =~= cs@);
    while i > 0
        invariant
            cs@ == prefix@,
            i <= cs@.len(),
            spec_last_whitespace(prefix@) == spec_last_whitespace(cs@.take(i as int)),
        decreases i,
    {
        assert(cs@.take(i as int).last() == cs@[i - 1]);
        assert(cs@.take(i as int).drop_last() =~= cs@.take(i - 1));
        if is_whitespace(cs[i - 1]) {
            return Some(i - 1);
        }
        i = i - 1;
    }
    None
}

/// A completion offered to the line editor: what is shown and what replaces
/// the word.
#[derive(Debug, PartialEq, Eq)]
pub struct Candidate {
    pub display: String,
    pub replacement: String,
}

/// The command completions for `word` among `cmds`: each command that starts
/// with `word`, replaced by the command and a space.
pub open spec fn command_matches(cmds: Seq<Seq<char>>, word: Seq<char>) -> Seq<(Seq<char>, Seq<char>)>
    decreases cmds.len(),
{
    if cmds.len() == 0 {
        seq![]
    } else {
        let r = command_matches(cmds.drop_last(), word);
        if word.is_prefix_of(cmds.last()) {
            r.push((cmds.last(), cmds.last() + seq![' ']))
        } else {
            r
        }
    }
}

/// The views of a list of candidates.
pub open spec fn candidate_views(v: Seq<Candidate>) -> Seq<(Seq<char>, Seq<char>)> {
    Seq::new(v.len(), |i: int| (v[i].display@, v[i].replacement@))
}

/// Whether `s` starts with the characters `w`.
fn starts_with(s: &Vec<char>, w: &Vec<char>) -> (res: bool)
    ensures
        res == w@.is_prefix_of(s@),
{
    if w.len() > s.len() {
        return false;
    }
    let mut i: usize = 0;
    while i < w.len()
        invariant
            w@.len() <= s@.len(),
            i <= w@.len(),
            forall|j: int| 0 <= j < i ==> w@[j] == s@[j],
        decreases w@.len() - i,
    {
        if w[i] != s[i] {
            return false;
        }
        i = i + 1;
    }
    assert(s@.take(w@.len() as int) =~= w@);
    true
}

/// Adds the candidates of `list` that start with `word` to `out`.
fn push_matches(out: &mut Vec<Candidate>, list: &Vec<String>, word: &Vec<char>)
    ensures
        candidate_views(final(out)@) == candidate_views(old(out)@) + command_matches(views(list@), word@),
{
    let ghost l = views(list@);
    let mut i: usize = 0;
    assert(l.take(0) =~= Seq::<Seq<char>>::empty());
    assert(candidate_views(out@) =~= candidate_views(old(out)@) + command_matches(l.take(0), word@));
    while i < list.len()
        invariant
            l == views(list@),
            i <= list@.len(),
            candidate_views(out@) == candidate_views(old(out)@) + command_matches(l.take(i as int), word@),
        decreases list@.len() - i,
    {
        let cs = chars_of(list[i].as_str());
        assert(l.take(i + 1).drop_last() =~= l.take(i as int));
        assert(l.take(i + 1).last() == list@[i as int]@);
        let ghost before = candidate_views(out@);
        if starts_with(&cs, word) {
            let mut r = list[i].clone();
            push_char(&mut r, ' ');
            assert(r@ =~= list@[i as int]@ + seq![' ']);
            out.push(Candidate { display: list[i].clone(), replacement: r });
            assert(candidate_views(out@) =~= before.push((list@[i as int]@, list@[i as int]@ + seq![' '])));
        }
        assert(candidate_views(out@) =~= candidate_views(old(out)@) + command_matches(l.take(i + 1), word@));
        i = i + 1;
    }
    assert(l.take(list@.len() as int) =~= l);
}

/// The completions of the first word: the builtin commands `commands`, then
/// the programs `ext_executes`, that start with `word`.
pub fn command_candidates(commands: &Vec<String>, ext_executes: &Vec<String>, word: &str) -> (res: Vec<Candidate>)
    ensures
        candidate_views(res@) == command_matches(views(commands@), word@) + command_matches(
            views(ext_executes@),
            word@,
        ),
{
    let w = chars_of(word);
    let mut res: Vec<Candidate> = Vec::new();
    assert(candidate_views(res@) =~= Seq::<(Seq<char>, Seq<char>)>::empty());
    push_matches(&mut res, commands, &w);
    assert(candidate_views(res@) =~= command_matches(views(commands@), word@));
    push_matches(&mut res, ext_executes, &w);
    res
}

/// A file-name completion: shown as found; it replaces the word as it is
/// when it ends with `/` (a directory), else followed by a space.
pub fn path_candidate(replacement: &str) -> (res: Candidate)
    ensures
        res.display@ == replacement@,
        res.replacement@ == if replacement@.len() > 0 && replacement@.last() == '/' {
            replacement@
        } else {
            replacement@ + seq![' ']
        },
{
    let cs = chars_of(replacement);
    let mut r = owned(replacement);
    if !(cs.len() > 0 && cs[cs.len() - 1] == '/') {
        push_char(&mut r, ' ');
    }
    Candidate { display: owned(replacement), replacement: r }
}

} // verus!

verus! {

proof fn lemma_command_matches(cmds: Seq<Seq<char>>, word: Seq<char>)
    ensures
        forall|i: int|
            0 <= i < command_matches(cmds, word).len() ==> {
                let x = #[trigger] command_matches(cmds, word)[i];
                &&& word.is_prefix_of(x.0)
                &&& x.1 == x.0 + seq![' ']
                &&& cmds.contains(x.0)
            },
        forall|c: Seq<char>|
            #[trigger] cmds.contains(c) && word.is_prefix_of(c) ==> exists|i: int|
                0 <= i < command_matches(cmds, word).len() && (#[trigger] command_matches(cmds, word)[i]).0 == c,
    decreases cmds.len(),
{
    if cmds.len() > 0 {
        let p = cmds.drop_last();
        lemma_command_matches(p, word);
        let r0 = command_matches(p, word);
        let r = command_matches(cmds, word);
        assert forall|i: int| 0 <= i < r.len() implies {
            let x = #[trigger] r[i];
            &&& word.is_prefix_of(x.0)
            &&& x.1 == x.0 + seq![' ']
            &&& cmds.contains(x.0)
        } by {
            if i < r0.len() {
                assert(r[i] == r0[i]);
                let j = choose|j: int| 0 <= j < p.len() && p[j] == r0[i].0;
                assert(cmds[j] == p[j]);
            } else {
                assert(cmds[cmds.len() - 1] == cmds.last());
            }
        }
        assert forall|c: Seq<char>| #[trigger] cmds.contains(c) && word.is_prefix_of(c) implies exists|i: int|
            0 <= i < r.len() && (#[trigger] r[i]).0 == c by {
            let j = choose|j: int| 0 <= j < cmds.len() && cmds[j] == c;
            if j < cmds.len() - 1 {
                assert(p[j] == c);
                assert(p.contains(c));
                let i = choose|i: int| 0 <= i < r0.len() && (#[trigger] r0[i]).0 == c;
                assert(r[i] == r0[i]);
            } else {
                assert(cmds.last() == c);
                assert(r[r.len() - 1].0 == c);
            }
        }
    }
}

/// Completing the first word offers exactly the commands that start with
/// the typed word: each candidate is a builtin or a program that has the
/// word as a prefix, replaced by itself and a space, and every builtin or
/// program that has the word as a prefix is offered.
pub proof fn law_command_candidates(cmds: Seq<Seq<char>>, ext: Seq<Seq<char>>, word: Seq<char>)
    ensures
        forall|i: int|
            0 <= i < (command_matches(cmds, word) + command_matches(ext, word)).len() ==> {
                let x = #[trigger] (command_matches(cmds, word) + command_matches(ext, word))[i];
                &&& word.is_prefix_of(x.0)
                &&& x.1 == x.0 + seq![' ']
                &&& cmds.contains(x.0) || ext.contains(x.0)
            },
        forall|c: Seq<char>|
            (cmds.contains(c) || ext.contains(c)) && #[trigger] word.is_prefix_of(c) ==> exists|i: int|
                0 <= i < (command_matches(cmds, word) + command_matches(ext, word)).len() && (#[trigger] (
                command_matches(cmds, word) + command_matches(ext, word))[i]).0 == c,
{
    lemma_command_matches(cmds, word);
    lemma_command_matches(ext, word);
    let a = command_matches(cmds, word);
    let b = command_matches(ext, word);
    let r = a + b;
    assert forall|i: int| 0 <= i < r.len() implies {
        let x = #[trigger] r[i];
        &&& word.is_prefix_of(x.0)
        &&& x.1 == x.0 + seq![' ']
        &&& cmds.contains(x.0) || ext.contains(x.0)
    } by {
        if i < a.len() {
            assert(r[i] == a[i]);
        } else {
            assert(r[i] == b[i - a.len()]);
        }
    }
    assert forall|c: Seq<char>| (cmds.contains(c) || ext.contains(c)) && #[trigger] word.is_prefix_of(c) implies exists|i: int|
        0 <= i < r.len() && (#[trigger] r[i]).0 == c by {
        if cmds.contains(c) {
            let i = choose|i: int| 0 <= i < a.len() && (#[trigger] a[i]).0 == c;
            assert(r[i] == a[i]);
        } else {
            let i = choose|i: int| 0 <= i < b.len() && (#[trigger] b[i]).0 == c;
            assert(r[i + a.len()] == b[i]);
        }
    }
}

} // verus!
