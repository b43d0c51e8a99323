use vstd::prelude::*;

use crate::context::Context;
use crate::shell_parse::{str_is, str_views};
use crate::text::{chars_of, decimal, decimal_chars, owned, pad_left, push_char, push_padded_left, views};

verus! {

/// Whether `c` is an ASCII decimal digit.
pub open spec fn is_digit(c: char) -> bool {
    '0' <= c <= '9'
}

/// The number written by the decimal digits `s`.
pub open spec fn digits_value(s: Seq<char>) -> int
    decreases s.len(),
{
    if s.len() == 0 {
        0
    } else {
        digits_value(s.drop_last()) * 10 + (s.last() as int - '0' as int)
    }
}

/// The digits of a number word: the word without one leading `+`.
pub open spec fn number_body(s: Seq<char>) -> Seq<char> {
    if s.len() > 0 && s[0] == '+' {
        s.skip(1)
    } else {
        s
    }
}

/// The `usize` that `s` denotes, as `str::parse::<usize>` reads it: an
/// optional `+`, then one or more decimal digits, with a value that fits.
pub open spec fn spec_parse_usize(s: Seq<char>) -> Option<usize> {
    let body = number_body(s);
    if body.len() > 0 && (forall|i: int| 0 <= i < body.len() ==> is_digit(#[trigger] body[i]))
        && digits_value(body) <= usize::MAX {
        Some(digits_value(body) as usize)
    } else {
        None
    }
}

proof fn lemma_digits_value_grows(s: Seq<char>, i: int)
    requires
        0 <= i <= s.len(),
        forall|j: int| 0 <= j < s.len() ==> is_digit(#[trigger] s[j]),
    ensures
        0 <= digits_value(s.take(i)) <= digits_value(s),
    decreases s.len() - i,
{
    if i < s.len() {
        lemma_digits_value_grows(s, i + 1);
        assert(s.take(i + 1).drop_last() =~= s.take(i));
        assert(is_digit(s[i]));
    } else {
        assert(s.take(i) =~= s);
        lemma_digits_value_nonneg(s);
    }
}

proof fn lemma_digits_value_nonneg(s: Seq<char>)
    requires
        forall|j: int| 0 <= j < s.len() ==> is_digit(#[trigger] s[j]),
    ensures
        digits_value(s) >= 0,
    decreases s.len(),
{
    if s.len() > 0 {
        assert forall|j: int| 0 <= j < s.drop_last().len() implies is_digit(#[trigger] s.drop_last()[j]) by {
            assert(s.drop_last()[j] == s[j]);
        }
        lemma_digits_value_nonneg(s.drop_last());
        assert(is_digit(s[s.len() - 1]));
    }
}

/// Reads a count the way `str::parse::<usize>` does.
pub fn parse_usize(s: &str) -> (res: Option<usize>)
    ensures
        res == spec_parse_usize(s@),
{
    let cs = chars_of(s);
    let start: usize = if cs.len() > 0 && cs[0] == '+' {
        1
    } else {
        0
    };
    let ghost body = number_body(s@);
    assert(body =~= cs@.skip(start as int));
    if start >= cs.len() {
        return None;
    }
    let mut v: usize = 0;
    let mut i: usize = start;
    assert(body.take(0) =~= Seq::<char>::empty());
    while i < cs.len()
        invariant
            cs@ == s@,
            body == number_body(s@),
            body == cs@.skip(start as int),
            start <= i <= cs@.len(),
            forall|j: int| 0 <= j < i - start ==> is_digit(#[trigger] body[j]),
            v == digits_value(body.take(i - start)),
        decreases cs@.len() - i,
    {
        let c = cs[i];
        assert(body[i - start] == c);
        if !('0' <= c && c <= '9') {
            assert(!is_digit(body[i - start]));
            assert(spec_parse_usize_body_fails(body));
            return None;
        }
        assert(is_digit(body[i - start]));
        let d = (c as u32 - '0' as u32) as usize;
        assert(body.take(i + 1 - start).drop_last() =~= body.take(i - start));
        assert(body.take(i + 1 - start).last() == c);
        match v.checked_mul(10) {
            Some(t) => match t.checked_add(d) {
                Some(u) => {
                    v = u;
                },
                None => {
                    proof {
                        assert(digits_value(body.take(i + 1 - start)) == v * 10 + d);
                        lemma_overflow_stays(body, i + 1 - start);
                    }
                    return None;
                },
            },
            None => {
                proof {
                    assert(digits_value(body.take(i + 1 - start)) == v * 10 + d);
                    lemma_overflow_stays(body, i + 1 - start);
                }
                return None;
            },
        }
        i = i + 1;
    }
    assert(body.take(cs@.len() - start) =~= body);
    Some(v)
}

/// Once a prefix of the digits is too large, the whole number is too large
/// (or some later character is not a digit).
proof fn lemma_overflow_stays(body: Seq<char>, k: int)
    requires
        0 <= k <= body.len(),
        forall|j: int| 0 <= j < k ==> is_digit(#[trigger] body[j]),
        digits_value(body.take(k)) > usize::MAX,
    ensures
        spec_parse_usize_body_fails(body),
{
    if forall|i: int| 0 <= i < body.len() ==> is_digit(#[trigger] body[i]) {
        lemma_digits_value_grows(body, k);
    }
}

/// `body` is not the digits of a `usize`.
pub open spec fn spec_parse_usize_body_fails(body: Seq<char>) -> bool {
    !(body.len() > 0 && (forall|i: int| 0 <= i < body.len() ==> is_digit(#[trigger] body[i]))
        && digits_value(body) <= usize::MAX)
}

/// A line of the history listing: the entry's number (from 1) right-aligned
/// in 5 columns, two spaces, the entry.
pub open spec fn history_line(i: int, item: Seq<char>) -> Seq<char> {
    pad_left(decimal((i + 1) as nat), 5) + seq![' ', ' '] + item + seq!['\n']
}

/// The listing lines of the entries `items[from..upto]`.
pub open spec fn listing_text(items: Seq<Seq<char>>, from: int, upto: int) -> Seq<char>
    decreases upto,
{
    if upto <= from || upto <= 0 {
        seq![]
    } else {
        listing_text(items, from, upto - 1) + history_line(upto - 1, items[upto - 1])
    }
}

/// The entries `items[from..upto]`, each followed by a newline.
pub open spec fn lines_text(items: Seq<Seq<char>>, from: int, upto: int) -> Seq<char>
    decreases upto,
{
    if upto <= from || upto <= 0 {
        seq![]
    } else {
        lines_text(items, from, upto - 1) + items[upto - 1] + seq!['\n']
    }
}

/// The first entry that `history n` lists among `len` entries: the last `n`
/// (all of them without `n`).
pub open spec fn first_listed(len: int, n: Option<usize>) -> int {
    match n {
        None => 0,
        Some(k) => if k >= len {
            0
        } else {
            len - k
        },
    }
}

/// The text of `history` (with an optional count `n`) for the entries
/// `items`: each listed entry on a numbered line.
pub fn history_listing(items: &Vec<String>, n: Option<usize>) -> (out: String)
    requires
        n matches Some(k) ==> items@.len() == 0 || k + items@.len() - 1 <= usize::MAX,
    ensures
        out@ == listing_text(views(items@), first_listed(items@.len() as int, n), items@.len() as int),
{
    let len = items.len();
    let first: usize = match n {
        None => 0,
        Some(k) => if k >= len {
            0
        } else {
            len - k
        },
    };
    let ghost it = views(items@);
    let mut out = String::new();
    let mut i: usize = first;
    proof {
        lemma_listing_empty(it, first as int, first as int);
    }
    while i < len
        invariant
            len == items@.len(),
            it == views(items@),
            first <= i <= len,
            out@ == listing_text(it, first as int, i as int),
        decreases len - i,
    {
        let d = decimal_chars((i + 1) as u64);
        push_padded_left(&mut out, d.as_slice(), 5);
        push_char(&mut out, ' ');
        push_char(&mut out, ' ');
        out.append(items[i].as_str());
        push_char(&mut out, '\n');
        assert(out@ =~= listing_text(it, first as int, (i + 1) as int));
        i = i + 1;
    }
    out
}

proof fn lemma_listing_empty(items: Seq<Seq<char>>, from: int, upto: int)
    requires
        upto <= from,
    ensures
        listing_text(items, from, upto) == Seq::<char>::empty(),
        lines_text(items, from, upto) == Seq::<char>::empty(),
{
}

/// Appends `items[from..]`, each followed by a newline, to `out`.
fn push_lines(out: &mut String, items: &Vec<String>, from: usize)
    ensures
        final(out)@ == old(out)@ + lines_text(views(items@), from as int, items@.len() as int),
{
    let ghost it = views(items@);
    let len = items.len();
    let start = if from < len {
        from
    } else {
        len
    };
    let mut i: usize = start;
    proof {
        if from >= len {
            lemma_listing_empty(it, from as int, len as int);
        } else {
            lemma_listing_empty(it, from as int, from as int);
        }
    }
    assert(old(out)@ + Seq::<char>::empty() =~= old(out)@);
    while i < len
        invariant
            len == items@.len(),
            it == views(items@),
            start <= i <= len,
            from < len ==> start == from,
            from >= len ==> start == len,
            out@ == old(out)@ + lines_text(it, from as int, i as int),
        decreases len - i,
    {
        out.append(items[i].as_str());
        push_char(out, '\n');
        assert(out@ =~= old(out)@ + lines_text(it, from as int, (i + 1) as int));
        i = i + 1;
    }
}

/// The file text of `history -w`: every entry followed by a newline.
pub fn history_file_content(items: &Vec<String>) -> (out: String)
    ensures
        out@ == lines_text(views(items@), 0, items@.len() as int),
{
    let mut out = String::new();
    push_lines(&mut out, items, 0);
    assert(out@ =~= lines_text(views(items@), 0, items@.len() as int));
    out
}

impl Context {
    /// `history -a file`: the entries not yet appended to `file` (those after
    /// the count recorded for it, 0 at first), each followed by a newline;
    /// the count for `file` becomes the number of entries.
    pub fn history_append(&mut self, file: &str, items: &Vec<String>) -> (out: String)
        requires
            old(self).wf(),
        ensures
            final(self).wf(),
            final(self).history_count_in_file@ == old(self).history_count_in_file@.insert(
                file@,
                items@.len() as usize,
            ),
            out@ == lines_text(
                views(items@),
                if old(self).history_count_in_file@.dom().contains(file@) {
                    old(self).history_count_in_file@[file@] as int
                } else {
                    0
                },
                items@.len() as int,
            ),
            final(self).tasks == old(self).tasks,
            final(self).regist_cmd_complete == old(self).regist_cmd_complete,
            final(self).vars == old(self).vars,
    {
        let count: usize = match self.history_count_in_file.get(file) {
            Some(c) => *c,
            None => 0,
        };
        self.history_count_in_file.insert(owned(file), items.len());
        let mut out = String::new();
        push_lines(&mut out, items, count);
        assert(out@ =~= lines_text(views(items@), count as int, items@.len() as int));
        out
    }
}

/// What `history` is asked to do.
#[derive(Debug, PartialEq, Eq)]
pub enum HistoryRequest {
    /// `-r file`: load the history from `file`.
    Read(String),
    /// `-w file`: write the whole history to `file`.
    Write(String),
    /// `-a file`: append the new entries to `file`.
    Append(String),
    /// List the last `n` entries, or all of them.
    List(Option<usize>),
    /// The count is not a number: the message to print on standard error.
    Invalid(String),
}

/// The mathematical form of a [`HistoryRequest`].
pub enum HistoryRequestView {
    Read(Seq<char>),
    Write(Seq<char>),
    Append(Seq<char>),
    List(Option<usize>),
    Invalid(Seq<char>),
}

impl View for HistoryRequest {
    type V = HistoryRequestView;

    open spec fn view(&self) -> HistoryRequestView {
        match self {
            HistoryRequest::Read(f) => HistoryRequestView::Read(f@),
            HistoryRequest::Write(f) => HistoryRequestView::Write(f@),
            HistoryRequest::Append(f) => HistoryRequestView::Append(f@),
            HistoryRequest::List(n) => HistoryRequestView::List(*n),
            HistoryRequest::Invalid(m) => HistoryRequestView::Invalid(m@),
        }
    }
}

/// What `history` with the arguments `a` asks for.
pub open spec fn spec_history_request(a: Seq<Seq<char>>) -> HistoryRequestView {
    if a.len() >= 2 && a[0] == "-r"@ {
        HistoryRequestView::Read(a[1])
    } else if a.len() >= 2 && a[0] == "-w"@ {
        HistoryRequestView::Write(a[1])
    } else if a.len() >= 2 && a[0] == "-a"@ {
        HistoryRequestView::Append(a[1])
    } else if a.len() == 0 {
        HistoryRequestView::List(None)
    } else {
        match spec_parse_usize(a[0]) {
            Some(n) => HistoryRequestView::List(Some(n)),
            None => HistoryRequestView::Invalid("history: "@ + a[0] + ": invalid number"@ + seq!['\n']),
        }
    }
}

/// Reads the arguments of `history`.
pub fn history_request(args: &[&str]) -> (res: HistoryRequest)
    ensures
        res@ == spec_history_request(str_views(args@)),
{
    let ghost a = str_views(args@);
    if args.len() == 0 {
        return HistoryRequest::List(None);
    }
    assert(a[0] == args@[0]@);
    if args.len() >= 2 {
        assert(a[1] == args@[1]@);
        if str_is(args[0], "-r") {
            return HistoryRequest::Read(owned(args[1]));
        } else if str_is(args[0], "-w") {
            return HistoryRequest::Write(owned(args[1]));
        } else if str_is(args[0], "-a") {
            return HistoryRequest::Append(owned(args[1]));
        }
    }
    match parse_usize(args[0]) {
        Some(n) => HistoryRequest::List(Some(n)),
        None => {
            let mut m = owned("history: ");
            m.append(args[0]);
            m.append(": invalid number");
            push_char(&mut m, '\n');
            assert(m@ =~= "history: "@ + a[0] + ": invalid number"@ + seq!['\n']);
            HistoryRequest::Invalid(m)
        },
    }
}

} // verus!

verus! {

/// The entries `from..mid` followed by the entries `mid..upto` are the
/// entries `from..upto`.
pub proof fn lemma_lines_text_concat(items: Seq<Seq<char>>, from: int, mid: int, upto: int)
    requires
        0 <= from <= mid <= upto,
    ensures
        lines_text(items, from, mid) + lines_text(items, mid, upto) == lines_text(items, from, upto),
    decreases upto,
{
    if upto == mid {
        assert(lines_text(items, mid, upto) == Seq::<char>::empty());
        assert(lines_text(items, from, mid) + Seq::<char>::empty() =~= lines_text(items, from, mid));
    } else {
        lemma_lines_text_concat(items, from, mid, upto - 1);
        assert(lines_text(items, from, mid) + lines_text(items, mid, upto) =~= lines_text(items, from, mid)
            + lines_text(items, mid, upto - 1) + items[upto - 1] + seq!['\n']);
    }
}

/// Two `history -a file` in a row, the history having grown from `first` to
/// `second` entries in between, append to a fresh file exactly the whole
/// history once, in order; the second appends only the new entries.
pub proof fn law_history_append_twice(
    m: Map<Seq<char>, usize>,
    file: Seq<char>,
    first: Seq<Seq<char>>,
    second: Seq<Seq<char>>,
)
    requires
        !m.dom().contains(file),
        first.len() <= second.len() <= usize::MAX,
        first == second.take(first.len() as int),
    ensures
        ({
            let m1 = m.insert(file, first.len() as usize);
            let from1 = if m.dom().contains(file) {
                m[file] as int
            } else {
                0
            };
            let from2 = if m1.dom().contains(file) {
                m1[file] as int
            } else {
                0
            };
            &&& from2 == first.len()
            &&& lines_text(first, from1, first.len() as int) + lines_text(second, from2, second.len() as int)
                == lines_text(second, 0, second.len() as int)
        }),
{
    lemma_lines_text_prefix(first, second, first.len() as int);
    lemma_lines_text_concat(second, 0, first.len() as int, second.len() as int);
}

/// The text of the first entries does not depend on the later ones.
proof fn lemma_lines_text_prefix(first: Seq<Seq<char>>, second: Seq<Seq<char>>, upto: int)
    requires
        0 <= upto <= first.len() <= second.len(),
        first == second.take(first.len() as int),
    ensures
        lines_text(first, 0, upto) == lines_text(second, 0, upto),
    decreases upto,
{
    if upto > 0 {
        lemma_lines_text_prefix(first, second, upto - 1);
        assert(first[upto - 1] == second[upto - 1]);
    }
}

} // verus!
