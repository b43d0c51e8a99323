use vstd::prelude::*;

use crate::table::StrTable;
use crate::text::{
    chars_of, decimal, decimal_chars, join, lemma_split_on_nonempty, lemma_split_on_without,
    pad_right, push_char, push_chars, push_joined, push_padded_right, split_chars, split_on,
    string_from_chars, views,
};

verus! {

/// The value of `key` in `m`, or the empty string when it is unset.
pub open spec fn lookup(m: Map<Seq<char>, Seq<char>>, key: Seq<char>) -> Seq<char> {
    if m.dom().contains(key) {
        m[key]
    } else {
        seq![]
    }
}

/// The first piece, followed by the value of each later piece taken as a
/// variable name.
pub open spec fn expand(m: Map<Seq<char>, Seq<char>>, parts: Seq<Seq<char>>) -> Seq<char>
    decreases parts.len(),
{
    if parts.len() == 0 {
        seq![]
    } else if parts.len() == 1 {
        parts[0]
    } else {
        expand(m, parts.drop_last()) + lookup(m, parts.last())
    }
}

/// The shell's variables.
pub struct Variables {
    pub vars: StrTable<String>,
}

impl View for Variables {
    type V = Map<Seq<char>, Seq<char>>;

    open spec fn view(&self) -> Map<Seq<char>, Seq<char>> {
        self.vars@
    }
}

impl Variables {
    pub open spec fn wf(&self) -> bool {
        self.vars.wf()
    }

    /// No variable set.
    pub fn new() -> (res: Self)
        ensures
            res.wf(),
            res@ == Map::<Seq<char>, Seq<char>>::empty(),
    {
        Variables { vars: StrTable::new() }
    }

    /// Sets `k` to `v`, or, when `v` is `$name`, to the value of `name` (the
    /// empty string when `name` is unset). An empty `v` sets `k` to the empty
    /// string.
    pub fn set_var(&mut self, k: &str, v: &str)
        requires
            old(self).wf(),
        ensures
            final(self).wf(),
            final(self)@ == old(self)@.insert(
                k@,
                if v@.len() > 0 && v@[0] == '$' {
                    lookup(old(self)@, v@.skip(1))
                } else {
                    v@
                },
            ),
    {
        if v.unicode_len() > 0 && v.get_char(0) == '$' {
            let v_k = v.substring_char(1, v.unicode_len());
            assert(v_k@ =~= v@.skip(1));
            let value = match self.vars.get(v_k) {
                Some(x) => x.clone(),
                None => String::new(),
            };
            self.set(k, value.as_str());
        } else {
            self.vars.insert(String::from_str(k), String::from_str(v));
        }
    }

    /// Sets `k` to `v`.
    pub fn set(&mut self, k: &str, v: &str)
        requires
            old(self).wf(),
        ensures
            final(self).wf(),
            final(self)@ == old(self)@.insert(k@, v@),
    {
        self.vars.insert(String::from_str(k), String::from_str(v));
    }

    /// The value of `k`.
    pub fn get(&self, k: &str) -> (res: Option<&String>)
        requires
            self.wf(),
        ensures
            match res {
                Some(v) => self@.dom().contains(k@) && self@[k@] == v@,
                None => !self@.dom().contains(k@),
            },
    {
        self.vars.get(k)
    }

    /// `k` with every `$name` after the first `$` replaced by the value of
    /// `name` (a name runs to the next `$`); `k` itself when it has no `$`.
    pub fn try_get(&self, k: &str) -> (res: String)
        requires
            self.wf(),
        ensures
            res@ == expand(self@, split_on(k@, '$')),
            !k@.contains('$') ==> res@ == k@,
    {
        let parts = split_chars(k, '$');
        let ghost p = split_on(k@, '$');
        let ghost m = self@;
        proof {
            lemma_split_on_nonempty(k@, '$');
        }
        let mut res = string_from_chars(parts[0].as_slice());
        assert(p.take(1) =~= seq![p[0]]);
        let mut j: usize = 1;
        while j < parts.len()
            invariant
                self.wf(),
                m == self@,
                parts@.len() == p.len(),
                forall|i: int| 0 <= i < parts@.len() ==> (#[trigger] parts@[i])@ == p[i],
                1 <= j <= parts@.len(),
                res@ == expand(m, p.take(j as int)),
            decreases parts@.len() - j,
        {
            let name = string_from_chars(parts[j].as_slice());
            match self.get(name.as_str()) {
                Some(v) => res.append(v.as_str()),
                None => {},
            }
            assert(p.take(j + 1).drop_last() =~= p.take(j as int));
            assert(p.take(j + 1).last() == p[j as int]);
            assert(res@ =~= expand(m, p.take(j as int)) + lookup(m, p[j as int]));
            j = j + 1;
        }
        assert(p.take(p.len() as int) =~= p);
        proof {
            if !k@.contains('$') {
                lemma_split_on_without(k@, '$');
            }
        }
        res
    }

    /// The stored name and value of `k`.
    pub fn get_k_v(&self, k: &str) -> (res: Option<(&String, &String)>)
        requires
            self.wf(),
        ensures
            match res {
                Some((name, v)) => name@ == k@ && self@.dom().contains(k@) && self@[k@] == v@,
                None => !self@.dom().contains(k@),
            },
    {
        self.vars.get_key_value(k)
    }
}

} // verus!

verus! {

/// A background job: its number, the words it was started with (the last one
/// is the `&`) and its marker (`+` for the current job, `-` for the previous
/// one, blank otherwise). The process itself is held by the caller under the
/// job's number.
pub struct Task {
    pub id: u32,
    pub args: Vec<String>,
    pub flush_flag: char,
}

/// What polling a job's process found.
pub enum TaskPoll {
    Running,
    Done,
    Failed(String),
}

/// A line to report about a job, for standard output or standard error.
#[derive(Debug, PartialEq, Eq)]
pub enum JobLine {
    Stdout(String),
    Stderr(String),
}

/// The mathematical form of a [`JobLine`].
pub enum JobLineView {
    Stdout(Seq<char>),
    Stderr(Seq<char>),
}

impl View for JobLine {
    type V = JobLineView;

    open spec fn view(&self) -> JobLineView {
        match self {
            JobLine::Stdout(s) => JobLineView::Stdout(s@),
            JobLine::Stderr(s) => JobLineView::Stderr(s@),
        }
    }
}

/// The views of a list of job lines.
pub open spec fn job_line_views(v: Seq<JobLine>) -> Seq<JobLineView> {
    Seq::new(v.len(), |i: int| v[i]@)
}

/// The highest job number in `tasks`, or 0 when there is none.
pub open spec fn max_id(tasks: Seq<Task>) -> nat
    decreases tasks.len(),
{
    if tasks.len() == 0 {
        0
    } else {
        let m = max_id(tasks.drop_last());
        if tasks.last().id > m {
            tasks.last().id as nat
        } else {
            m
        }
    }
}

/// The marker a job keeps when a new job is added: the current job becomes
/// the previous one, every other job loses its marker.
pub open spec fn demoted(flag: char) -> char {
    if flag == '+' {
        '-'
    } else {
        ' '
    }
}

/// The marker of the job at position `i` of `n` jobs after the list is
/// refreshed: the last is `+`, the one before it `-`, the others keep `flag`.
pub open spec fn refreshed(flag: char, i: int, n: int) -> char {
    if i == n - 1 {
        '+'
    } else if i == n - 2 {
        '-'
    } else {
        flag
    }
}

/// A job line: `[id]flag status-padded-to-24 words`.
pub open spec fn task_line(id: u32, flag: char, status: Seq<char>, words: Seq<Seq<char>>) -> Seq<char> {
    seq!['['] + decimal(id as nat) + seq![']', flag, ' '] + pad_right(status, 24) + join(
        words,
        seq![' '],
    )
}

/// The line for a finished job (its words without the final `&`).
pub open spec fn done_line(t: Task) -> Seq<char> {
    task_line(t.id, t.flush_flag, seq!['D', 'o', 'n', 'e'], views(t.args@).drop_last())
}

/// The line for a running job.
pub open spec fn running_line(t: Task) -> Seq<char> {
    task_line(t.id, t.flush_flag, seq!['R', 'u', 'n', 'n', 'i', 'n', 'g'], views(t.args@))
}

/// The line for a job whose process could not be polled.
pub open spec fn error_line(t: Task, e: Seq<char>) -> Seq<char> {
    "error checking tasks "@ + decimal(t.id as nat) + seq![' '] + join(views(t.args@), seq![' '])
        + seq![':', ' '] + e
}

/// The jobs of `tasks` whose poll says they still run, in order.
pub open spec fn still_running(tasks: Seq<Task>, polls: Seq<TaskPoll>) -> Seq<Task>
    decreases tasks.len(),
{
    if tasks.len() == 0 {
        seq![]
    } else {
        let r = still_running(tasks.drop_last(), polls);
        if polls[tasks.len() - 1] is Running {
            r.push(tasks.last())
        } else {
            r
        }
    }
}

/// The lines reported while polling `tasks`: a `Done` line for each finished
/// job, an error line for each job that could not be polled, and, when
/// `listing`, a `Running` line for each running job; in job order.
pub open spec fn job_lines(tasks: Seq<Task>, polls: Seq<TaskPoll>, listing: bool) -> Seq<JobLineView>
    decreases tasks.len(),
{
    if tasks.len() == 0 {
        seq![]
    } else {
        let r = job_lines(tasks.drop_last(), polls, listing);
        let t = tasks.last();
        match polls[tasks.len() - 1] {
            TaskPoll::Done => r.push(JobLineView::Stdout(done_line(t))),
            TaskPoll::Failed(e) => r.push(JobLineView::Stderr(error_line(t, e@))),
            TaskPoll::Running => if listing {
                r.push(JobLineView::Stdout(running_line(t)))
            } else {
                r
            },
        }
    }
}

/// `new` is `old` with every marker demoted and the job `id`, started with
/// `args`, added last as the current job.
pub open spec fn task_added(old: Seq<Task>, new: Seq<Task>, id: u32, args: Vec<String>) -> bool {
    &&& new.len() == old.len() + 1
    &&& forall|i: int|
        0 <= i < old.len() ==> {
            &&& (#[trigger] new[i]).id == old[i].id
            &&& new[i].args == old[i].args
            &&& new[i].flush_flag == demoted(old[i].flush_flag)
        }
    &&& new.last().id == id
    &&& new.last().args == args
    &&& new.last().flush_flag == '+'
}

/// `new` is what is left of `old` after polling: the jobs still running, in
/// order, with refreshed markers.
pub open spec fn tasks_polled(old: Seq<Task>, polls: Seq<TaskPoll>, new: Seq<Task>) -> bool {
    let kept = still_running(old, polls);
    &&& new.len() == kept.len()
    &&& forall|i: int|
        0 <= i < new.len() ==> {
            &&& (#[trigger] new[i]).id == kept[i].id
            &&& new[i].args == kept[i].args
            &&& new[i].flush_flag == refreshed(kept[i].flush_flag, i, kept.len() as int)
        }
}

/// The shell's state: registered completions, background jobs, how many
/// history entries were appended to each file, and variables.
pub struct Context {
    pub regist_cmd_complete: StrTable<String>,
    pub tasks: Vec<Task>,
    pub history_count_in_file: StrTable<usize>,
    pub vars: Variables,
}

/// Every job was started with at least one word.
pub open spec fn tasks_wf(tasks: Seq<Task>) -> bool {
    forall|i: int| 0 <= i < tasks.len() ==> (#[trigger] tasks[i]).args@.len() > 0
}

/// Builds the line `[id]flag status words`, the words being the first `n` of
/// `args`.
fn make_task_line(id: u32, flag: char, status: &[char], args: &Vec<String>, n: usize) -> (res: String)
    requires
        n <= args@.len(),
    ensures
        res@ == task_line(id, flag, status@, views(args@).take(n as int)),
{
    let mut s = String::new();
    push_char(&mut s, '[');
    let d = decimal_chars(id as u64);
    push_chars(&mut s, d.as_slice());
    push_char(&mut s, ']');
    push_char(&mut s, flag);
    push_char(&mut s, ' ');
    push_padded_right(&mut s, status, 24);
    push_joined(&mut s, args, n);
    assert(s@ =~= task_line(id, flag, status@, views(args@).take(n as int)));
    s
}

impl Context {
    pub open spec fn wf(&self) -> bool {
        &&& self.regist_cmd_complete.wf()
        &&& self.history_count_in_file.wf()
        &&& self.vars.wf()
        &&& tasks_wf(self.tasks@)
    }

    /// A fresh state: nothing registered, no jobs, no variables.
    pub fn new() -> (res: Self)
        ensures
            res.wf(),
            res.regist_cmd_complete@ == Map::<Seq<char>, Seq<char>>::empty(),
            res.tasks@.len() == 0,
            res.history_count_in_file@ == Map::<Seq<char>, usize>::empty(),
            res.vars@ == Map::<Seq<char>, Seq<char>>::empty(),
    {
        Self {
            regist_cmd_complete: StrTable::new(),
            tasks: Vec::new(),
            history_count_in_file: StrTable::new(),
            vars: Variables::new(),
        }
    }

    /// Registers a new background job started with the words `args` and
    /// returns its number, one more than the highest number in use. The new
    /// job becomes the current one (`+`), the current one the previous one
    /// (`-`), and the others lose their marker.
    pub fn add_task(&mut self, args: Vec<String>) -> (id: u32)
        requires
            old(self).wf(),
            args@.len() > 0,
            max_id(old(self).tasks@) < u32::MAX,
        ensures
            final(self).wf(),
            id == max_id(old(self).tasks@) + 1,
            task_added(old(self).tasks@, final(self).tasks@, id, args),
            final(self).regist_cmd_complete == old(self).regist_cmd_complete,
            final(self).history_count_in_file == old(self).history_count_in_file,
            final(self).vars == old(self).vars,
    {
        let n = self.tasks.len();
        let mut m: u32 = 0;
        let mut i: usize = 0;
        while i < n
            invariant
                n == self.tasks@.len(),
                self.tasks@ == old(self).tasks@,
                i <= n,
                m == max_id(self.tasks@.take(i as int)),
            decreases n - i,
        {
            assert(self.tasks@.take(i + 1).drop_last() =~= self.tasks@.take(i as int));
            if self.tasks[i].id > m {
                m = self.tasks[i].id;
            }
            i = i + 1;
        }
        assert(self.tasks@.take(n as int) =~= self.tasks@);
        let id = m + 1;
        let mut j: usize = 0;
        while j < n
            invariant
                n == self.tasks@.len(),
                n == old(self).tasks@.len(),
                j <= n,
                forall|k: int|
                    0 <= k < n ==> {
                        &&& (#[trigger] self.tasks@[k]).id == old(self).tasks@[k].id
                        &&& self.tasks@[k].args == old(self).tasks@[k].args
                        &&& self.tasks@[k].flush_flag == if k < j {
                            demoted(old(self).tasks@[k].flush_flag)
                        } else {
                            old(self).tasks@[k].flush_flag
                        }
                    },
                self.regist_cmd_complete == old(self).regist_cmd_complete,
                self.history_count_in_file == old(self).history_count_in_file,
                self.vars == old(self).vars,
            decreases n - j,
        {
            if self.tasks[j].flush_flag == '+' {
                self.tasks[j].flush_flag = '-';
            } else {
                self.tasks[j].flush_flag = ' ';
            }
            j = j + 1;
        }
        self.tasks.push(Task { id, args, flush_flag: '+' });
        proof {
            assert forall|k: int| 0 <= k < self.tasks@.len() implies (#[trigger] self.tasks@[k]).args@.len() > 0 by {
                if k < n {
                    assert(old(self).tasks@[k].args@.len() > 0);
                }
            }
        }
        id
    }

    /// Drops the jobs that are no longer running, with the lines to report,
    /// and refreshes the markers: the last job is current (`+`), the one
    /// before it previous (`-`). With `listing`, running jobs are reported
    /// too. `polls[i]` is what polling job `i` found.
    fn poll_tasks(&mut self, polls: &Vec<TaskPoll>, listing: bool) -> (lines: Vec<JobLine>)
        requires
            old(self).wf(),
            polls@.len() == old(self).tasks@.len(),
        ensures
            final(self).wf(),
            job_line_views(lines@) == job_lines(old(self).tasks@, polls@, listing),
            tasks_polled(old(self).tasks@, polls@, final(self).tasks@),
            final(self).regist_cmd_complete == old(self).regist_cmd_complete,
            final(self).history_count_in_file == old(self).history_count_in_file,
            final(self).vars == old(self).vars,
    {
        let ghost old_tasks = self.tasks@;
        let mut old_v: Vec<Task> = Vec::new();
        std::mem::swap(&mut old_v, &mut self.tasks);
        let mut kept: Vec<Task> = Vec::new();
        let mut lines: Vec<JobLine> = Vec::new();
        let mut i: usize = 0;
        let n = old_v.len();
        proof {
            assert(old_tasks.take(0) =~= Seq::<Task>::empty());
            assert(job_line_views(lines@) =~= Seq::<JobLineView>::empty());
        }
        while old_v.len() > 0
            invariant
                old_tasks.len() == n,
                i + old_v@.len() == n,
                old_v@ =~= old_tasks.skip(i as int),
                polls@.len() == n,
                tasks_wf(old_tasks),
                kept@ == still_running(old_tasks.take(i as int), polls@),
                job_line_views(lines@) == job_lines(old_tasks.take(i as int), polls@, listing),
            decreases old_v@.len(),
        {
            let t = old_v.remove(0);
            proof {
                assert(t == old_tasks[i as int]);
                assert(old_tasks.take(i + 1).drop_last() =~= old_tasks.take(i as int));
                assert(old_tasks.take(i + 1).last() == t);
                assert(old_tasks.take(i + 1).len() - 1 == i);
                assert(old_v@ =~= old_tasks.skip(i + 1));
                assert(t.args@.len() > 0);
            }
            let ghost before = job_line_views(lines@);
            match &polls[i] {
                TaskPoll::Done => {
                    let nargs = t.args.len() - 1;
                    let line = make_task_line(t.id, t.flush_flag, &['D', 'o', 'n', 'e'], &t.args, nargs);
                    proof {
                        assert(['D', 'o', 'n', 'e']@ =~= seq!['D', 'o', 'n', 'e']);
                        assert(views(t.args@).take(nargs as int) =~= views(t.args@).drop_last());
                    }
                    lines.push(JobLine::Stdout(line));
                },
                TaskPoll::Failed(e) => {
                    let mut s = String::new();
                    push_chars(&mut s, &['e', 'r', 'r', 'o', 'r', ' ', 'c', 'h', 'e', 'c', 'k', 'i', 'n', 'g', ' ', 't', 'a', 's', 'k', 's', ' ']);
                    let d = decimal_chars(t.id as u64);
                    push_chars(&mut s, d.as_slice());
                    push_char(&mut s, ' ');
                    push_joined(&mut s, &t.args, t.args.len());
                    push_char(&mut s, ':');
                    push_char(&mut s, ' ');
                    s.append(e.as_str());
                    proof {
                        reveal_strlit("error checking tasks ");
                        assert(views(t.args@).take(t.args@.len() as int) =~= views(t.args@));
                        assert(s@ =~= error_line(t, e@));
                    }
                    lines.push(JobLine::Stderr(s));
                },
                TaskPoll::Running => {
                    if listing {
                        let line = make_task_line(t.id, t.flush_flag, &['R', 'u', 'n', 'n', 'i', 'n', 'g'], &t.args, t.args.len());
                        proof {
                            assert(['R', 'u', 'n', 'n', 'i', 'n', 'g']@ =~= seq!['R', 'u', 'n', 'n', 'i', 'n', 'g']);
                            assert(views(t.args@).take(t.args@.len() as int) =~= views(t.args@));
                        }
                        lines.push(JobLine::Stdout(line));
                    }
                },
            }
            proof {
                assert(job_line_views(lines@) =~= job_lines(old_tasks.take(i + 1), polls@, listing)) by {
                    assert(job_line_views(lines@).len() >= before.len());
                    assert(job_line_views(lines@).take(before.len() as int) =~= before);
                }
            }
            let running = match &polls[i] {
                TaskPoll::Running => true,
                _ => false,
            };
            if running {
                kept.push(t);
            }
            i = i + 1;
        }
        assert(old_tasks.take(n as int) =~= old_tasks);
        let ghost kept0 = kept@;
        let count = kept.len();
        let mut j: usize = 0;
        while j < count
            invariant
                count == kept@.len(),
                count == kept0.len(),
                j <= count,
                forall|k: int|
                    0 <= k < count ==> {
                        &&& (#[trigger] kept@[k]).id == kept0[k].id
                        &&& kept@[k].args == kept0[k].args
                        &&& kept@[k].flush_flag == if k < j {
                            refreshed(kept0[k].flush_flag, k, count as int)
                        } else {
                            kept0[k].flush_flag
                        }
                    },
            decreases count - j,
        {
            if j == count - 1 {
                kept[j].flush_flag = '+';
            } else if j + 2 == count {
                kept[j].flush_flag = '-';
            }
            j = j + 1;
        }
        self.tasks = kept;
        proof {
            lemma_still_running_wf(old_tasks, polls@);
            assert forall|k: int| 0 <= k < self.tasks@.len() implies (#[trigger] self.tasks@[k]).args@.len() > 0 by {
                assert(kept0[k].args@.len() > 0);
            }
        }
        lines
    }

    /// Polls the background jobs: reports and drops those that finished or
    /// could not be polled, and refreshes the markers.
    pub fn update_tasks(&mut self, polls: &Vec<TaskPoll>) -> (lines: Vec<JobLine>)
        requires
            old(self).wf(),
            polls@.len() == old(self).tasks@.len(),
        ensures
            final(self).wf(),
            job_line_views(lines@) == job_lines(old(self).tasks@, polls@, false),
            tasks_polled(old(self).tasks@, polls@, final(self).tasks@),
            final(self).regist_cmd_complete == old(self).regist_cmd_complete,
            final(self).history_count_in_file == old(self).history_count_in_file,
            final(self).vars == old(self).vars,
    {
        self.poll_tasks(polls, false)
    }

    /// The `jobs` builtin: reports every job (running ones too), drops those
    /// that finished or could not be polled, and refreshes the markers.
    pub fn list_tasks(&mut self, polls: &Vec<TaskPoll>) -> (lines: Vec<JobLine>)
        requires
            old(self).wf(),
            polls@.len() == old(self).tasks@.len(),
        ensures
            final(self).wf(),
            job_line_views(lines@) == job_lines(old(self).tasks@, polls@, true),
            tasks_polled(old(self).tasks@, polls@, final(self).tasks@),
            final(self).regist_cmd_complete == old(self).regist_cmd_complete,
            final(self).history_count_in_file == old(self).history_count_in_file,
            final(self).vars == old(self).vars,
    {
        self.poll_tasks(polls, true)
    }
}

/// Jobs kept after polling were started with at least one word.
pub proof fn lemma_still_running_wf(tasks: Seq<Task>, polls: Seq<TaskPoll>)
    requires
        tasks_wf(tasks),
    ensures
        tasks_wf(still_running(tasks, polls)),
    decreases tasks.len(),
{
    if tasks.len() > 0 {
        assert(tasks_wf(tasks.drop_last())) by {
            assert forall|i: int| 0 <= i < tasks.drop_last().len() implies (#[trigger] tasks.drop_last()[i]).args@.len() > 0 by {
                assert(tasks.drop_last()[i] == tasks[i]);
            }
        }
        lemma_still_running_wf(tasks.drop_last(), polls);
        assert(tasks[tasks.len() - 1].args@.len() > 0);
    }
}

} // verus!

verus! {

/// The marker that the job at position `i` of `n` jobs shows: `+` for the
/// last, `-` for the one before it, blank for the others.
pub open spec fn marker(i: int, n: int) -> char {
    refreshed(' ', i, n)
}

/// Every job shows the marker of its position.
pub open spec fn markers_ok(t: Seq<Task>) -> bool {
    forall|i: int| 0 <= i < t.len() ==> (#[trigger] t[i]).flush_flag == marker(i, t.len() as int)
}

/// The job numbers increase along the list.
pub open spec fn ids_increasing(t: Seq<Task>) -> bool {
    forall|i: int, j: int| 0 <= i < j < t.len() ==> (#[trigger] t[i]).id < (#[trigger] t[j]).id
}

/// Every job number is at most `max_id`.
pub proof fn lemma_max_id(t: Seq<Task>)
    ensures
        forall|i: int| 0 <= i < t.len() ==> (#[trigger] t[i]).id <= max_id(t),
    decreases t.len(),
{
    if t.len() > 0 {
        lemma_max_id(t.drop_last());
        assert forall|i: int| 0 <= i < t.len() implies (#[trigger] t[i]).id <= max_id(t) by {
            if i < t.len() - 1 {
                assert(t.drop_last()[i] == t[i]);
            }
        }
    }
}

/// The kept job at position `i` of `kept` is a job of `old` at a position
/// that leaves at least as many jobs after it as `kept` leaves after `i`.
pub open spec fn kept_from(old: Seq<Task>, kept: Seq<Task>, i: int) -> bool {
    exists|j: int| #![trigger old[j]] 0 <= j < old.len() && old[j] == kept[i] && old.len() - j >= kept.len() - i
}

pub proof fn lemma_still_running_positions(old: Seq<Task>, polls: Seq<TaskPoll>)
    ensures
        forall|i: int|
            0 <= i < still_running(old, polls).len() ==> #[trigger] kept_from(old, still_running(old, polls), i),
    decreases old.len(),
{
    if old.len() > 0 {
        let prev = old.drop_last();
        lemma_still_running_positions(prev, polls);
        let k0 = still_running(prev, polls);
        let k = still_running(old, polls);
        assert forall|i: int| 0 <= i < k.len() implies #[trigger] kept_from(old, k, i) by {
            if i < k0.len() {
                assert(k[i] == k0[i]);
                assert(kept_from(prev, k0, i));
                let j = choose|j: int| 0 <= j < prev.len() && prev[j] == k0[i] && prev.len() - j >= k0.len() - i;
                assert(old[j] == prev[j]);
            } else {
                assert(old[old.len() - 1] == k[i]);
            }
        }
    }
}

/// Adding a job keeps the markers right: the new job is current (`+`), the
/// formerly current one previous (`-`), the others blank.
pub proof fn law_add_task_keeps_markers(old: Seq<Task>, new: Seq<Task>, id: u32, args: Vec<String>)
    requires
        markers_ok(old),
        task_added(old, new, id, args),
    ensures
        markers_ok(new),
{
    assert forall|i: int| 0 <= i < new.len() implies (#[trigger] new[i]).flush_flag == marker(i, new.len() as int) by {
        if i < old.len() {
            assert(old[i].flush_flag == marker(i, old.len() as int));
        }
    }
}

/// Polling the jobs keeps the markers right: whatever jobs finish, the last
/// one left is current (`+`), the one before it previous (`-`), the others
/// blank.
pub proof fn law_poll_keeps_markers(old: Seq<Task>, polls: Seq<TaskPoll>, new: Seq<Task>)
    requires
        markers_ok(old),
        tasks_polled(old, polls, new),
    ensures
        markers_ok(new),
{
    let kept = still_running(old, polls);
    lemma_still_running_positions(old, polls);
    assert forall|i: int| 0 <= i < new.len() implies (#[trigger] new[i]).flush_flag == marker(i, new.len() as int) by {
        if i < kept.len() - 2 {
            assert(kept_from(old, kept, i));
            let j = choose|j: int| 0 <= j < old.len() && old[j] == kept[i] && old.len() - j >= kept.len() - i;
            assert(old[j].flush_flag == marker(j, old.len() as int));
        }
    }
}

/// Adding a job gives it a number above every number in use, so the numbers
/// keep increasing along the list.
pub proof fn law_add_task_keeps_ids_increasing(old: Seq<Task>, new: Seq<Task>, args: Vec<String>)
    requires
        ids_increasing(old),
        max_id(old) < u32::MAX,
        task_added(old, new, (max_id(old) + 1) as u32, args),
    ensures
        ids_increasing(new),
        forall|i: int| 0 <= i < old.len() ==> (#[trigger] old[i]).id < new.last().id,
{
    lemma_max_id(old);
    assert forall|i: int, j: int| 0 <= i < j < new.len() implies (#[trigger] new[i]).id < (#[trigger] new[j]).id by {
        assert(new[i].id == old[i].id);
        if j < old.len() {
            assert(new[j].id == old[j].id);
        }
    }
}

/// The kept job at position `i` of `kept` is a job of `old`.
pub open spec fn kept_member(old: Seq<Task>, kept: Seq<Task>, i: int) -> bool {
    exists|j: int| #![trigger old[j]] 0 <= j < old.len() && old[j] == kept[i]
}

/// The kept jobs come from the list, in order.
pub proof fn lemma_still_running_in_order(old: Seq<Task>, polls: Seq<TaskPoll>)
    requires
        ids_increasing(old),
    ensures
        ids_increasing(still_running(old, polls)),
        forall|i: int|
            0 <= i < still_running(old, polls).len() ==> #[trigger] kept_member(old, still_running(old, polls), i),
    decreases old.len(),
{
    if old.len() > 0 {
        let prev = old.drop_last();
        assert(ids_increasing(prev)) by {
            assert forall|i: int, j: int| 0 <= i < j < prev.len() implies (#[trigger] prev[i]).id < (#[trigger] prev[j]).id by {
                assert(prev[i] == old[i]);
                assert(prev[j] == old[j]);
            }
        }
        lemma_still_running_in_order(prev, polls);
        let k0 = still_running(prev, polls);
        let k = still_running(old, polls);
        assert forall|i: int| 0 <= i < k.len() implies #[trigger] kept_member(old, k, i) by {
            if i < k0.len() {
                assert(k[i] == k0[i]);
                assert(kept_member(prev, k0, i));
                let j = choose|j: int| 0 <= j < prev.len() && prev[j] == k0[i];
                assert(old[j] == prev[j]);
            } else {
                assert(old[old.len() - 1] == k[i]);
            }
        }
        assert forall|a: int, b: int| 0 <= a < b < k.len() implies (#[trigger] k[a]).id < (#[trigger] k[b]).id by {
            if b < k0.len() {
                assert(k[a] == k0[a]);
                assert(k[b] == k0[b]);
            } else {
                assert(k[a] == k0[a]);
                assert(kept_member(prev, k0, a));
                let j = choose|j: int| 0 <= j < prev.len() && prev[j] == k0[a];
                assert(old[j] == prev[j]);
                assert(k[b] == old[old.len() - 1]);
            }
        }
    }
}

/// Polling keeps the job numbers increasing along the list.
pub proof fn law_poll_keeps_ids_increasing(old: Seq<Task>, polls: Seq<TaskPoll>, new: Seq<Task>)
    requires
        ids_increasing(old),
        tasks_polled(old, polls, new),
    ensures
        ids_increasing(new),
{
    lemma_still_running_in_order(old, polls);
    let kept = still_running(old, polls);
    assert forall|i: int, j: int| 0 <= i < j < new.len() implies (#[trigger] new[i]).id < (#[trigger] new[j]).id by {
        assert(new[i].id == kept[i].id);
        assert(new[j].id == kept[j].id);
    }
}

} // verus!

verus! {

/// At most one job of `t` shows the marker `c`.
pub open spec fn at_most_one(t: Seq<Task>, c: char) -> bool {
    forall|i: int, j: int|
        0 <= i < t.len() && 0 <= j < t.len() && (#[trigger] t[i]).flush_flag == c && (
        #[trigger] t[j]).flush_flag == c ==> i == j
}

/// Adding a job to a list with at most one current job (`+`) and increasing
/// numbers: the new job is the only current one, the formerly current job
/// becomes the previous one (`-`), every other job loses its marker (so at
/// most one job is previous), and the numbers still increase. (The job
/// numbers are `u32`, so the highest one in use must leave room for one
/// more.)
pub proof fn law_add_task_markers(old: Seq<Task>, new: Seq<Task>, args: Vec<String>)
    requires
        at_most_one(old, '+'),
        ids_increasing(old),
        max_id(old) < u32::MAX,
        task_added(old, new, (max_id(old) + 1) as u32, args),
    ensures
        forall|i: int| 0 <= i < new.len() ==> ((#[trigger] new[i]).flush_flag == '+' <==> i == new.len() - 1),
        forall|i: int|
            0 <= i < old.len() ==> (#[trigger] new[i]).flush_flag == if old[i].flush_flag == '+' {
                '-'
            } else {
                ' '
            },
        at_most_one(new, '-'),
        ids_increasing(new),
{
    law_add_task_keeps_ids_increasing(old, new, args);
    assert forall|i: int, j: int|
        0 <= i < new.len() && 0 <= j < new.len() && (#[trigger] new[i]).flush_flag == '-' && (
        #[trigger] new[j]).flush_flag == '-' implies i == j by {
        if i < old.len() && j < old.len() {
            assert(old[i].flush_flag == '+');
            assert(old[j].flush_flag == '+');
        }
    }
}

} // verus!
