use vstd::prelude::*;

use crate::builtin::{
    builtin_names, find_program, has_executable, spec_type_of_command, DirListing, TypeCommandView,
};
use crate::text::{chars_of, views};

verus! {

/// The order of strings by their characters' code points, a proper prefix
/// first (the order of `str`'s `Ord`, which compares UTF-8 bytes).
pub open spec fn lex_lt(a: Seq<char>, b: Seq<char>) -> bool
    decreases a.len(),
{
    if a.len() == 0 {
        b.len() > 0
    } else if b.len() == 0 {
        false
    } else if a[0] != b[0] {
        a[0] < b[0]
    } else {
        lex_lt(a.skip(1), b.skip(1))
    }
}

/// Every string of `s` comes strictly before the next ones.
pub open spec fn sorted_strict(s: Seq<Seq<char>>) -> bool {
    forall|i: int, j: int| 0 <= i < j < s.len() ==> lex_lt(#[trigger] s[i], #[trigger] s[j])
}

/// Whether `x` names an executable file of one of the directories `dirs`.
pub open spec fn is_executable_name(dirs: Seq<DirListing>, x: Seq<char>) -> bool {
    exists|d: int| 0 <= d < dirs.len() && has_executable(#[trigger] dirs[d].entries@, x)
}

pub proof fn lemma_lex_total(a: Seq<char>, b: Seq<char>)
    ensures
        a == b || lex_lt(a, b) || lex_lt(b, a),
        !(lex_lt(a, b) && lex_lt(b, a)),
        !lex_lt(a, a),
    decreases a.len(),
{
    if a.len() > 0 && b.len() > 0 {
        lemma_lex_total(a.skip(1), b.skip(1));
        lemma_lex_total(a.skip(1), a.skip(1));
        if a[0] == b[0] && a.skip(1) == b.skip(1) {
            assert(a =~= seq![a[0]] + a.skip(1));
            assert(b =~= seq![b[0]] + b.skip(1));
        }
    } else if a.len() > 0 {
        lemma_lex_total(a.skip(1), a.skip(1));
    } else if b.len() == 0 {
        assert(a =~= b);
    }
}

pub proof fn lemma_lex_trans(a: Seq<char>, b: Seq<char>, c: Seq<char>)
    requires
        lex_lt(a, b),
        lex_lt(b, c),
    ensures
        lex_lt(a, c),
    decreases a.len(),
{
    if a.len() > 0 && b.len() > 0 && c.len() > 0 {
        if a[0] == b[0] && b[0] == c[0] {
            lemma_lex_trans(a.skip(1), b.skip(1), c.skip(1));
        }
    }
}

/// Compares `a` and `b`: negative when `a` comes first, zero when equal,
/// positive when `b` comes first.
fn compare_chars(a: &Vec<char>, b: &Vec<char>) -> (r: i8)
    ensures
        (r < 0) == lex_lt(a@, b@),
        (r == 0) == (a@ == b@),
        (r > 0) == lex_lt(b@, a@),
{
    proof {
        lemma_lex_total(a@, b@);
    }
    let mut i: usize = 0;
    assert(a@.skip(0) =~= a@);
    assert(b@.skip(0) =~= b@);
    while i < a.len() && i < b.len()
        invariant
            i <= a@.len(),
            i <= b@.len(),
            a@.take(i as int) == b@.take(i as int),
            lex_lt(a@, b@) == lex_lt(a@.skip(i as int), b@.skip(i as int)),
            lex_lt(b@, a@) == lex_lt(b@.skip(i as int), a@.skip(i as int)),
        decreases a@.len() - i,
    {
        if a[i] != b[i] {
            proof {
                assert(a@.skip(i as int)[0] == a@[i as int]);
                assert(b@.skip(i as int)[0] == b@[i as int]);
                if a@ == b@ {
                    assert(a@[i as int] == b@[i as int]);
                }
            }
            if a[i] < b[i] {
                return -1;
            } else {
                return 1;
            }
        }
        proof {
            assert(a@.skip(i as int).skip(1) =~= a@.skip(i + 1));
            assert(b@.skip(i as int).skip(1) =~= b@.skip(i + 1));
            assert(a@.skip(i as int)[0] == a@[i as int]);
            assert(b@.skip(i as int)[0] == b@[i as int]);
            assert(a@.take(i + 1) =~= a@.take(i as int).push(a@[i as int]));
            assert(b@.take(i + 1) =~= b@.take(i as int).push(b@[i as int]));
        }
        i = i + 1;
    }
    if i == a.len() && i == b.len() {
        assert(a@ =~= a@.take(i as int));
        assert(b@ =~= b@.take(i as int));
        0
    } else if i == a.len() {
        assert(a@.skip(i as int).len() == 0);
        assert(a@ != b@);
        -1
    } else {
        assert(b@.skip(i as int).len() == 0);
        assert(a@ != b@);
        1
    }
}

/// Inserts `x` into the strictly sorted `res`, unless it is there already.
fn insert_sorted(res: &mut Vec<String>, keys: &mut Vec<Vec<char>>, x: String)
    requires
        old(keys)@.len() == old(res)@.len(),
        forall|k: int| 0 <= k < old(keys)@.len() ==> (#[trigger] old(keys)@[k])@ == old(res)@[k]@,
        sorted_strict(views(old(res)@)),
    ensures
        final(keys)@.len() == final(res)@.len(),
        forall|k: int| 0 <= k < final(keys)@.len() ==> (#[trigger] final(keys)@[k])@ == final(res)@[k]@,
        sorted_strict(views(final(res)@)),
        forall|y: Seq<char>| views(final(res)@).contains(y) <==> (views(old(res)@).contains(y) || y == x@),
{
    let xs = chars_of(x.as_str());
    let n = keys.len();
    let ghost old_v = views(res@);
    let mut j: usize = 0;
    let mut stop = false;
    while j < n && !stop
        invariant
            n == keys@.len(),
            n == res@.len(),
            keys@ == old(keys)@,
            res@ == old(res)@,
            old_v == views(res@),
            forall|k: int| 0 <= k < keys@.len() ==> (#[trigger] keys@[k])@ == res@[k]@,
            xs@ == x@,
            j <= n,
            stop ==> j < n && !lex_lt(old_v[j as int], x@),
            forall|k: int| 0 <= k < j ==> lex_lt(#[trigger] old_v[k], x@),
        decreases n - j + if stop { 0int } else { 1int },
    {
        let c = compare_chars(&keys[j], &xs);
        assert(keys@[j as int]@ == old_v[j as int]);
        if c >= 0 {
            stop = true;
        } else {
            j = j + 1;
        }
    }
    if stop {
        let c = compare_chars(&keys[j], &xs);
        assert(keys@[j as int]@ == old_v[j as int]);
        if c == 0 {
            assert(old_v.contains(x@)) by {
                assert(old_v[j as int] == x@);
            }
            return;
        }
        proof {
            lemma_lex_total(old_v[j as int], x@);
            assert(lex_lt(x@, old_v[j as int]));
        }
    }
    let ghost old_keys = keys@;
    keys.insert(j, xs);
    res.insert(j, x);
    let ghost v = views(res@);
    proof {
        assert forall|k: int| 0 <= k < v.len() implies v[k] == (if k < j {
            old_v[k]
        } else if k == j {
            x@
        } else {
            old_v[k - 1]
        }) by {}
        assert forall|k: int| 0 <= k < keys@.len() implies (#[trigger] keys@[k])@ == res@[k]@ by {
            if k < j {
                assert(keys@[k] == old_keys[k]);
            } else if k > j {
                assert(keys@[k] == old_keys[k - 1]);
            }
        }
        assert forall|a: int, b: int| 0 <= a < b < v.len() implies lex_lt(#[trigger] v[a], #[trigger] v[b]) by {
            if b < j {
                assert(lex_lt(old_v[a], old_v[b]));
            } else if b == j {
            } else if a < j {
                assert(lex_lt(old_v[a], x@));
                if b - 1 > j {
                    assert(lex_lt(old_v[j as int], old_v[b - 1]));
                    lemma_lex_trans(x@, old_v[j as int], old_v[b - 1]);
                }
                lemma_lex_trans(old_v[a], x@, old_v[b - 1]);
            } else if a == j {
                if b - 1 > j {
                    assert(lex_lt(old_v[j as int], old_v[b - 1]));
                    lemma_lex_trans(x@, old_v[j as int], old_v[b - 1]);
                }
            } else {
                assert(lex_lt(old_v[a - 1], old_v[b - 1]));
            }
        }
        assert forall|y: Seq<char>| v.contains(y) <==> (old_v.contains(y) || y == x@) by {
            if v.contains(y) {
                let k = choose|k: int| 0 <= k < v.len() && v[k] == y;
                if k < j {
                    assert(old_v[k] == y);
                } else if k > j {
                    assert(old_v[k - 1] == y);
                }
            }
            if old_v.contains(y) {
                let k = choose|k: int| 0 <= k < old_v.len() && old_v[k] == y;
                if k < j {
                    assert(v[k] == y);
                } else {
                    assert(v[k + 1] == y);
                }
            }
            if y == x@ {
                assert(v[j as int] == y);
            }
        }
    }
}

/// The names of the executable files in the directories `dirs`, sorted and
/// without repeats.
pub fn get_ext_executes(dirs: &Vec<DirListing>) -> (res: Vec<String>)
    ensures
        sorted_strict(views(res@)),
        forall|x: Seq<char>| views(res@).contains(x) <==> is_executable_name(dirs@, x),
{
    let mut res: Vec<String> = Vec::new();
    let mut keys: Vec<Vec<char>> = Vec::new();
    let mut d: usize = 0;
    while d < dirs.len()
        invariant
            d <= dirs@.len(),
            keys@.len() == res@.len(),
            forall|k: int| 0 <= k < keys@.len() ==> (#[trigger] keys@[k])@ == res@[k]@,
            sorted_strict(views(res@)),
            forall|x: Seq<char>| views(res@).contains(x) <==> is_executable_name(dirs@.take(d as int), x),
        decreases dirs@.len() - d,
    {
        let entries = &dirs[d].entries;
        let mut e: usize = 0;
        while e < entries.len()
            invariant
                d < dirs@.len(),
                entries == dirs@[d as int].entries,
                e <= entries@.len(),
                keys@.len() == res@.len(),
                forall|k: int| 0 <= k < keys@.len() ==> (#[trigger] keys@[k])@ == res@[k]@,
                sorted_strict(views(res@)),
                forall|x: Seq<char>| views(res@).contains(x) <==> (is_executable_name(dirs@.take(d as int), x)
                    || has_executable(entries@.take(e as int), x)),
            decreases entries@.len() - e,
        {
            let ghost before = views(res@);
            if entries[e].mode & 0o111u32 != 0 {
                insert_sorted(&mut res, &mut keys, entries[e].name.clone());
            }
            proof {
                let t1 = entries@.take(e + 1);
                let t0 = entries@.take(e as int);
                assert forall|x: Seq<char>| has_executable(t1, x) <==> (has_executable(t0, x) || (x
                    == entries@[e as int].name@ && crate::builtin::is_executable(entries@[e as int].mode))) by {
                    if has_executable(t1, x) {
                        let j = choose|j: int| 0 <= j < t1.len() && #[trigger] t1[j].name@ == x && crate::builtin::is_executable(t1[j].mode);
                        if j < e {
                            assert(t0[j] == t1[j]);
                        }
                    }
                    if has_executable(t0, x) {
                        let j = choose|j: int| 0 <= j < t0.len() && #[trigger] t0[j].name@ == x && crate::builtin::is_executable(t0[j].mode);
                        assert(t1[j] == t0[j]);
                    }
                    if x == entries@[e as int].name@ && crate::builtin::is_executable(entries@[e as int].mode) {
                        assert(t1[e as int] == entries@[e as int]);
                    }
                }
            }
            e = e + 1;
        }
        proof {
            assert(entries@.take(entries@.len() as int) =~= entries@);
            let t1 = dirs@.take(d + 1);
            let t0 = dirs@.take(d as int);
            assert forall|x: Seq<char>| is_executable_name(t1, x) <==> (is_executable_name(t0, x)
                || has_executable(dirs@[d as int].entries@, x)) by {
                if is_executable_name(t1, x) {
                    let k = choose|k: int| 0 <= k < t1.len() && has_executable(#[trigger] t1[k].entries@, x);
                    if k < d {
                        assert(t0[k] == t1[k]);
                    }
                }
                if is_executable_name(t0, x) {
                    let k = choose|k: int| 0 <= k < t0.len() && has_executable(#[trigger] t0[k].entries@, x);
                    assert(t1[k] == t0[k]);
                }
                if has_executable(dirs@[d as int].entries@, x) {
                    assert(t1[d as int] == dirs@[d as int]);
                }
            }
        }
        d = d + 1;
    }
    assert(dirs@.take(dirs@.len() as int) =~= dirs@);
    res
}

/// Some file named `c` in `dir` has an execute bit set.
pub open spec fn dir_runs(dir: DirListing, c: Seq<char>) -> bool {
    exists|j: int|
        0 <= j < dir.entries@.len() && #[trigger] dir.entries@[j].name@ == c
            && dir.entries@[j].mode & 0o111u32 != 0
}

proof fn lemma_find_program(dirs: Seq<DirListing>, c: Seq<char>)
    ensures
        find_program(dirs, c) is Some <==> exists|d: int| 0 <= d < dirs.len() && dir_runs(#[trigger] dirs[d], c),
        forall|d: int|
            0 <= d < dirs.len() && dir_runs(#[trigger] dirs[d], c) && (forall|e: int|
                0 <= e < d ==> !dir_runs(#[trigger] dirs[e], c)) ==> find_program(dirs, c) == Some(
                dirs[d].path@ + seq!['/'] + c,
            ),
    decreases dirs.len(),
{
    if dirs.len() > 0 {
        let t = dirs.skip(1);
        lemma_find_program(t, c);
        assert(has_executable(dirs[0].entries@, c) == dir_runs(dirs[0], c));
        if !dir_runs(dirs[0], c) {
            assert forall|d: int| 0 <= d < dirs.len() && dir_runs(#[trigger] dirs[d], c) implies (0 <= d - 1 < t.len()
                && dir_runs(t[d - 1], c)) by {
                assert(t[d - 1] == dirs[d]);
            }
            assert forall|d: int| 0 <= d < t.len() && dir_runs(#[trigger] t[d], c) implies dir_runs(dirs[d + 1], c) by {
                assert(t[d] == dirs[d + 1]);
            }
            assert forall|d: int|
                0 <= d < dirs.len() && dir_runs(#[trigger] dirs[d], c) && (forall|e: int|
                    0 <= e < d ==> !dir_runs(#[trigger] dirs[e], c)) implies find_program(dirs, c) == Some(
                dirs[d].path@ + seq!['/'] + c,
            ) by {
                assert(t[d - 1] == dirs[d]);
                assert forall|e: int| 0 <= e < d - 1 implies !dir_runs(#[trigger] t[e], c) by {
                    assert(t[e] == dirs[e + 1]);
                }
            }
        } else {
            assert forall|d: int|
                0 <= d < dirs.len() && dir_runs(#[trigger] dirs[d], c) && (forall|e: int|
                    0 <= e < d ==> !dir_runs(#[trigger] dirs[e], c)) implies d == 0 by {
                if d > 0 {
                    assert(!dir_runs(dirs[0], c));
                }
            }
        }
    }
}

/// Finding a command on the search path: a builtin name stands for the
/// builtin; any other name is found exactly when some directory holds a file
/// of that name with an execute bit (owner, group or other) set, which are
/// the names that `get_ext_executes` lists; and what is found is the file of
/// the first such directory, its path joined to the name by `/`.
pub proof fn law_type_of_command(c: Seq<char>, dirs: Seq<DirListing>)
    ensures
        builtin_names().contains(c) ==> spec_type_of_command(c, dirs) == TypeCommandView::Builtin(c),
        !builtin_names().contains(c) ==> (spec_type_of_command(c, dirs) is Program <==> exists|d: int, j: int|
            0 <= d < dirs.len() && 0 <= j < dirs[d].entries@.len() && #[trigger] dirs[d].entries@[j].name@ == c
                && dirs[d].entries@[j].mode & 0o111u32 != 0),
        !builtin_names().contains(c) ==> (spec_type_of_command(c, dirs) is Program <==> is_executable_name(dirs, c)),
        !builtin_names().contains(c) ==> (spec_type_of_command(c, dirs) is Program || spec_type_of_command(c, dirs) is NotFound),
        forall|d: int, j: int|
            !builtin_names().contains(c) && 0 <= d < dirs.len() && 0 <= j < dirs[d].entries@.len()
                && #[trigger] dirs[d].entries@[j].name@ == c && dirs[d].entries@[j].mode & 0o111u32 != 0
                && (forall|e: int, k: int|
                0 <= e < d && 0 <= k < dirs[e].entries@.len() && #[trigger] dirs[e].entries@[k].name@ == c
                    ==> dirs[e].entries@[k].mode & 0o111u32 == 0) ==> spec_type_of_command(c, dirs)
                == TypeCommandView::Program(dirs[d].path@ + seq!['/'] + c),
{
    lemma_find_program(dirs, c);
    assert((exists|d: int, j: int|
        0 <= d < dirs.len() && 0 <= j < dirs[d].entries@.len() && #[trigger] dirs[d].entries@[j].name@ == c
            && dirs[d].entries@[j].mode & 0o111u32 != 0) <==> exists|d: int| 0 <= d < dirs.len() && dir_runs(#[trigger] dirs[d], c));
    assert(is_executable_name(dirs, c) <==> exists|d: int| 0 <= d < dirs.len() && dir_runs(#[trigger] dirs[d], c)) by {
        assert forall|d: int| 0 <= d < dirs.len() implies has_executable(#[trigger] dirs[d].entries@, c) == dir_runs(dirs[d], c) by {}
    }
    assert forall|d: int, j: int|
        !builtin_names().contains(c) && 0 <= d < dirs.len() && 0 <= j < dirs[d].entries@.len()
            && #[trigger] dirs[d].entries@[j].name@ == c && dirs[d].entries@[j].mode & 0o111u32 != 0
            && (forall|e: int, k: int|
            0 <= e < d && 0 <= k < dirs[e].entries@.len() && #[trigger] dirs[e].entries@[k].name@ == c
                ==> dirs[e].entries@[k].mode & 0o111u32 == 0) implies spec_type_of_command(c, dirs)
            == TypeCommandView::Program(dirs[d].path@ + seq!['/'] + c) by {
        assert(dir_runs(dirs[d], c));
        assert forall|e: int| 0 <= e < d implies !dir_runs(#[trigger] dirs[e], c) by {
            if dir_runs(dirs[e], c) {
                let k = choose|k: int| 0 <= k < dirs[e].entries@.len() && #[trigger] dirs[e].entries@[k].name@ == c
                    && dirs[e].entries@[k].mode & 0o111u32 != 0;
                assert(dirs[e].entries@[k].mode & 0o111u32 == 0);
            }
        }
    }
}

} // verus!
