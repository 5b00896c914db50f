//! The task model.

use crate::calendar::{date_instant, date_is_read, in_calendar, parse_date};
use crate::text::{chars_of, pieces, split, string_views, trim, trimmed};
use vstd::prelude::*;

verus! {

/// The place of a task in the task list.
pub type TaskIdx = usize;

/// A piece of work to be scheduled. Tasks are never changed by a run: what
/// is left of a task is its volume less the time committed to it.
#[derive(Debug)]
pub struct Task {
    pub description: String,
    /// The instant, in seconds since the Unix epoch, after which work on the
    /// task no longer counts.
    pub deadline: i64,
    /// A weight that multiplies the task's score.
    pub priority: u64,
    /// The work that the task needs, in seconds.
    pub volume: u64,
    /// The tasks that have to be done, or overdue, before this one.
    pub dependencies: Vec<TaskIdx>,
}

/// The mathematical value of a [`Task`].
pub struct TaskView {
    pub description: Seq<char>,
    pub deadline: i64,
    pub priority: u64,
    pub volume: u64,
    pub dependencies: Seq<TaskIdx>,
}

impl View for Task {
    type V = TaskView;

    open spec fn view(&self) -> TaskView {
        TaskView {
            description: self.description@,
            deadline: self.deadline,
            priority: self.priority,
            volume: self.volume,
            dependencies: self.dependencies@,
        }
    }
}

/// The values of a run of tasks, in the same order.
pub open spec fn task_views(tasks: Seq<Task>) -> Seq<TaskView> {
    Seq::new(tasks.len(), |i: int| tasks[i]@)
}

/// Why a task could not be read.
#[derive(Clone, Copy, Debug, PartialEq, Eq, Structural)]
pub enum TaskError {
    /// The fifth field holds something other than exclamation marks.
    Priority,
    /// The line does not have four fields, or five with the priority.
    Fields,
    /// The volume is not a number with a unit behind it.
    Volume,
    /// The progress is not a number with a sign behind it.
    Progress,
    /// The deadline is no date that the calendar knows.
    Deadline,
}

/// What a task line says, short of the instant of the deadline.
pub struct TaskLine {
    pub description: String,
    /// The date of the deadline, as it is written.
    pub date: String,
    pub priority: u64,
    /// The work that is left, in seconds.
    pub volume: u64,
}

/// The mathematical value of a [`TaskLine`].
pub struct TaskLineView {
    pub description: Seq<char>,
    pub date: Seq<char>,
    pub priority: u64,
    pub volume: u64,
}

impl View for TaskLine {
    type V = TaskLineView;

    open spec fn view(&self) -> TaskLineView {
        TaskLineView {
            description: self.description@,
            date: self.date@,
            priority: self.priority,
            volume: self.volume,
        }
    }
}

/// The digit that `c` is, if it is one of `0` to `9`.
pub open spec fn digit(c: char) -> Option<int> {
    if c == '0' {
        Some(0)
    } else if c == '1' {
        Some(1)
    } else if c == '2' {
        Some(2)
    } else if c == '3' {
        Some(3)
    } else if c == '4' {
        Some(4)
    } else if c == '5' {
        Some(5)
    } else if c == '6' {
        Some(6)
    } else if c == '7' {
        Some(7)
    } else if c == '8' {
        Some(8)
    } else if c == '9' {
        Some(9)
    } else {
        None
    }
}

/// `c` is one of the digits `0` to `9`.
pub open spec fn is_digit(c: char) -> bool {
    digit(c) is Some
}

/// The number that the digits of `s` spell.
pub open spec fn digits_value(s: Seq<char>) -> int
    decreases s.len(),
{
    if s.len() == 0 {
        0
    } else {
        digits_value(s.drop_last()) * 10 + digit(s.last())->0
    }
}

/// The number that the digits `s` spell: there is at least one, and the
/// number stays within 32 bits.
pub open spec fn unsigned(s: Seq<char>) -> Option<int> {
    if s.len() > 0 && (forall|i: int| 0 <= i < s.len() ==> is_digit(#[trigger] s[i]))
        && digits_value(s) <= u32::MAX {
        Some(digits_value(s))
    } else {
        None
    }
}

/// The number that `s` spells: digits that may follow a plus sign.
pub open spec fn number(s: Seq<char>) -> Option<int> {
    if s.len() > 0 && s[0] == '+' {
        unsigned(s.drop_first())
    } else {
        unsigned(s)
    }
}

/// The number in front of the last character of `field`, which stands for
/// the unit.
pub open spec fn amount(field: Seq<char>) -> Option<int> {
    if field.len() == 0 {
        None
    } else {
        number(field.drop_last())
    }
}

/// `s` is made of exclamation marks alone.
pub open spec fn is_marks(s: Seq<char>) -> bool {
    forall|i: int| 0 <= i < s.len() ==> (#[trigger] s[i]) == '!'
}

/// The seconds of work that are left of `hours` hours of which `percent`
/// in a hundred are done.
pub open spec fn seconds_left(hours: int, percent: int) -> int {
    if percent >= 100 {
        0
    } else {
        hours * 36 * (100 - percent)
    }
}

/// The fields of a line: what stands between the slashes, without the
/// white space around it.
pub open spec fn fields(line: Seq<char>) -> Seq<Seq<char>> {
    Seq::new(pieces(line, '/').len(), |i: int| trimmed(pieces(line, '/')[i]))
}

/// What the line says. A line has the fields description, deadline, volume
/// and progress, with slashes between them, and may end in a fifth field of
/// exclamation marks, whose number is the priority; without it the priority
/// is 1.
pub open spec fn read_line(line: Seq<char>) -> Result<TaskLineView, TaskError> {
    let all = fields(line);
    if all.len() == 5 && !is_marks(all[4]) {
        Err(TaskError::Priority)
    } else if all.len() != 4 && all.len() != 5 {
        Err(TaskError::Fields)
    } else if amount(all[2]) is None {
        Err(TaskError::Volume)
    } else if amount(all[3]) is None {
        Err(TaskError::Progress)
    } else {
        Ok(
            TaskLineView {
                description: all[0],
                date: all[1],
                priority: if all.len() == 5 {
                    all[4].len() as u64
                } else {
                    1
                },
                volume: seconds_left(amount(all[2])->0, amount(all[3])->0) as u64,
            },
        )
    }
}

/// More digits never make a number smaller.
proof fn lemma_digits_grow(s: Seq<char>, upto: int)
    requires
        0 <= upto <= s.len(),
        forall|i: int| 0 <= i < s.len() ==> is_digit(#[trigger] s[i]),
    ensures
        0 <= digits_value(s.take(upto)) <= digits_value(s),
    decreases s.len() - upto,
{
    lemma_digits_nonnegative(s.take(upto));
    if upto == s.len() {
        assert(s.take(upto) =~= s);
    } else {
        let next = s.take(upto + 1);
        assert(next.drop_last() =~= s.take(upto));
        assert(next.last() == s[upto]);
        lemma_digits_grow(s, upto + 1);
    }
}

proof fn lemma_digits_nonnegative(s: Seq<char>)
    requires
        forall|i: int| 0 <= i < s.len() ==> is_digit(#[trigger] s[i]),
    ensures
        0 <= digits_value(s),
    decreases s.len(),
{
    if s.len() > 0 {
        assert forall|i: int| 0 <= i < s.drop_last().len() implies is_digit(
            #[trigger] s.drop_last()[i],
        ) by {
            assert(s.drop_last()[i] == s[i]);
        }
        lemma_digits_nonnegative(s.drop_last());
        assert(is_digit(s[s.len() - 1]));
    }
}

/// The digit that `c` is, if it is one.
fn read_digit(c: char) -> (r: Option<u64>)
    ensures
        match r {
            Some(d) => digit(c) == Some(d as int) && d <= 9,
            None => digit(c) is None,
        },
{
    if c == '0' {
        Some(0)
    } else if c == '1' {
        Some(1)
    } else if c == '2' {
        Some(2)
    } else if c == '3' {
        Some(3)
    } else if c == '4' {
        Some(4)
    } else if c == '5' {
        Some(5)
    } else if c == '6' {
        Some(6)
    } else if c == '7' {
        Some(7)
    } else if c == '8' {
        Some(8)
    } else if c == '9' {
        Some(9)
    } else {
        None
    }
}

/// The number that the characters from `from` to `to` spell.
fn read_digits(chars: &Vec<char>, from: usize, to: usize) -> (r: Option<u32>)
    requires
        from <= to <= chars@.len(),
    ensures
        match r {
            Some(n) => unsigned(chars@.subrange(from as int, to as int)) == Some(n as int),
            None => unsigned(chars@.subrange(from as int, to as int)) is None,
        },
{
    let ghost digits = chars@.subrange(from as int, to as int);
    if from == to {
        return None;
    }
    let mut total: u64 = 0;
    let mut i: usize = from;
    assert(digits.take(0) =~= Seq::<char>::empty());
    while i < to
        invariant
            from <= i <= to,
            to <= chars@.len(),
            digits == chars@.subrange(from as int, to as int),
            forall|j: int| 0 <= j < i - from ==> is_digit(#[trigger] digits[j]),
            total == digits_value(digits.take(i - from)),
            total <= u32::MAX,
        decreases to - i,
    {
        assert(digits[i - from] == chars@[i as int]);
        let value: u64 = match read_digit(chars[i]) {
            Some(value) => value,
            None => {
                assert(!is_digit(digits[i - from]));
                return None;
            },
        };
        proof {
            let next = digits.take(i - from + 1);
            assert(next.drop_last() =~= digits.take(i - from));
            assert(next.last() == digits[i - from]);
        }
        total = total * 10 + value;
        if total > u32::MAX as u64 {
            proof {
                if forall|j: int| 0 <= j < digits.len() ==> is_digit(#[trigger] digits[j]) {
                    lemma_digits_grow(digits, i - from + 1);
                }
            }
            return None;
        }
        i += 1;
    }
    assert(digits.take(to - from) =~= digits);
    Some(total as u32)
}

/// The number that the characters before `to` spell.
fn read_number(chars: &Vec<char>, to: usize) -> (r: Option<u32>)
    requires
        to <= chars@.len(),
    ensures
        match r {
            Some(n) => number(chars@.take(to as int)) == Some(n as int),
            None => number(chars@.take(to as int)) is None,
        },
{
    let ghost s = chars@.take(to as int);
    let from: usize = if to > 0 && chars[0] == '+' {
        1
    } else {
        0
    };
    proof {
        if from == 1 {
            assert(s[0] == '+');
            assert(s.drop_first() =~= chars@.subrange(1, to as int));
        } else {
            if s.len() > 0 {
                assert(s[0] == chars@[0]);
            }
            assert(s =~= chars@.subrange(0, to as int));
        }
    }
    read_digits(chars, from, to)
}

/// The number in front of the last character of `field`.
fn read_amount(field: &str) -> (r: Option<u32>)
    ensures
        match r {
            Some(n) => amount(field@) == Some(n as int),
            None => amount(field@) is None,
        },
{
    let chars = chars_of(field);
    if chars.len() == 0 {
        return None;
    }
    assert(field@.drop_last() =~= chars@.take(chars@.len() - 1));
    read_number(&chars, chars.len() - 1)
}

/// Whether `field` is made of exclamation marks alone, and how many.
fn count_marks(field: &str) -> (r: Option<u64>)
    ensures
        match r {
            Some(n) => is_marks(field@) && n == field@.len(),
            None => !is_marks(field@),
        },
{
    let chars = chars_of(field);
    let mut i: usize = 0;
    while i < chars.len()
        invariant
            i <= chars.len(),
            chars@ == field@,
            forall|j: int| 0 <= j < i ==> (#[trigger] chars@[j]) == '!',
        decreases chars.len() - i,
    {
        if chars[i] != '!' {
            assert(field@[i as int] != '!');
            return None;
        }
        i += 1;
    }
    Some(chars.len() as u64)
}

/// Reads a task line, short of the instant of its deadline.
pub fn read_task_line(line: &str) -> (r: Result<TaskLine, TaskError>)
    ensures
        match r {
            Ok(read) => read_line(line@) == Ok::<TaskLineView, TaskError>(read@),
            Err(e) => read_line(line@) == Err::<TaskLineView, TaskError>(e),
        },
{
    let parts = split(line, '/');
    let count: usize = parts.len();
    let ghost all = fields(line@);
    assert(all.len() == count);
    let priority: u64 = if count == 5 {
        let marks = trim(parts[4].as_str());
        assert(string_views(parts@)[4] == parts@[4]@);
        assert(marks@ == all[4]);
        match count_marks(marks.as_str()) {
            Some(n) => n,
            None => {
                return Err(TaskError::Priority);
            },
        }
    } else {
        1
    };
    if count != 4 && count != 5 {
        return Err(TaskError::Fields);
    }
    proof {
        assert(string_views(parts@)[0] == parts@[0]@);
        assert(string_views(parts@)[1] == parts@[1]@);
        assert(string_views(parts@)[2] == parts@[2]@);
        assert(string_views(parts@)[3] == parts@[3]@);
    }
    let description = trim(parts[0].as_str());
    let date = trim(parts[1].as_str());
    let volume_text = trim(parts[2].as_str());
    let progress_text = trim(parts[3].as_str());
    let hours: u32 = match read_amount(volume_text.as_str()) {
        Some(hours) => hours,
        None => {
            return Err(TaskError::Volume);
        },
    };
    let percent: u32 = match read_amount(progress_text.as_str()) {
        Some(percent) => percent,
        None => {
            return Err(TaskError::Progress);
        },
    };
    let volume: u64 = if percent >= 100 {
        0
    } else {
        assert(hours as u64 * 36 * (100 - percent) as u64 <= u64::MAX) by (nonlinear_arith)
            requires
                hours <= u32::MAX,
                percent < 100,
        ;
        hours as u64 * 36 * (100 - percent) as u64
    };
    Ok(TaskLine { description, date, priority, volume })
}

impl Task {
    /// The task that a line of the form
    /// `description / deadline / volume / progress / priority` describes.
    /// The volume is a number of hours and the progress a number in a
    /// hundred, each with one character behind it; the priority is a run of
    /// exclamation marks and may be left out. The task has no dependencies.
    ///
    /// What the line says is read first. A deadline that is not read as a
    /// date is refused. The deadline is then the instant at which its date
    /// begins in the machine's time zone, which the calendar decides.
    pub fn try_from(value: String) -> (r: Result<Task, TaskError>)
        ensures
            read_line(value@) matches Ok(read) && !date_is_read(read.date) ==> r == Err::<
                Task,
                TaskError,
            >(TaskError::Deadline),
            match r {
                Ok(task) => {
                    &&& read_line(value@) matches Ok(read)
                    &&& date_is_read(read.date)
                    &&& in_calendar(task@.deadline as int)
                    &&& task@.description == read.description
                    &&& task@.priority == read.priority
                    &&& task@.volume == read.volume
                    &&& task@.dependencies.len() == 0
                },
                Err(TaskError::Deadline) => read_line(value@) is Ok,
                Err(e) => read_line(value@) == Err::<TaskLineView, TaskError>(e),
            },
    {
        let read = match read_task_line(value.as_str()) {
            Ok(read) => read,
            Err(e) => {
                return Err(e);
            },
        };
        let deadline = match parse_date(read.date.as_str()) {
            Ok(date) => match date_instant(date) {
                Ok(instant) => Some(instant),
                Err(_) => None,
            },
            Err(_) => None,
        };
        Task::with_deadline(read, deadline)
    }

    /// The task that `line` describes, with the deadline that the calendar
    /// gave for its date, or no task where it gave none.
    pub fn with_deadline(line: TaskLine, deadline: Option<i64>) -> (r: Result<Task, TaskError>)
        ensures
            match deadline {
                Some(instant) => r matches Ok(task) && task@ == (TaskView {
                    description: line@.description,
                    deadline: instant,
                    priority: line@.priority,
                    volume: line@.volume,
                    dependencies: Seq::<TaskIdx>::empty(),
                }),
                None => r matches Err(e) && e == TaskError::Deadline,
            },
    {
        match deadline {
            Some(instant) => Ok(
                Task {
                    description: line.description,
                    deadline: instant,
                    priority: line.priority,
                    volume: line.volume,
                    dependencies: Vec::new(),
                },
            ),
            None => Err(TaskError::Deadline),
        }
    }
}

/// The lines of all the chains, one chain after the other.
pub open spec fn chain_lines(chains: Seq<Vec<String>>) -> Seq<Seq<char>>
    decreases chains.len(),
{
    if chains.len() == 0 {
        Seq::empty()
    } else {
        chain_lines(chains.drop_last()) + string_views(chains.last()@)
    }
}

/// The dependencies that the chains give each line: the first line of a
/// chain has none, and every other line depends on the line before it.
pub open spec fn chain_links(chains: Seq<Vec<String>>) -> Seq<Seq<TaskIdx>>
    decreases chains.len(),
{
    if chains.len() == 0 {
        Seq::empty()
    } else {
        let before = chain_lines(chains.drop_last()).len();
        chain_links(chains.drop_last()) + Seq::new(
            chains.last()@.len(),
            |j: int|
                if j == 0 {
                    Seq::<TaskIdx>::empty()
                } else {
                    seq![(before + j - 1) as TaskIdx]
                },
        )
    }
}

/// The task is what `line` says, with the dependencies `links`.
pub open spec fn follows(task: TaskView, line: Seq<char>, links: Seq<TaskIdx>) -> bool {
    &&& read_line(line) matches Ok(read)
    &&& task.description == read.description
    &&& task.priority == read.priority
    &&& task.volume == read.volume
    &&& task.dependencies == links
}

/// Line `p` is the first that gives no task, and `e` is why: the lines
/// before it can all be read, and line `p` either cannot be read, for the
/// reason `e`, or can be read but has a deadline that the calendar does not
/// take.
pub open spec fn fails_first(lines: Seq<Seq<char>>, p: int, e: TaskError) -> bool {
    &&& 0 <= p < lines.len()
    &&& forall|q: int| 0 <= q < p ==> read_line(#[trigger] lines[q]) is Ok
    &&& if e == TaskError::Deadline {
        read_line(lines[p]) is Ok
    } else {
        read_line(lines[p]) == Err::<TaskLineView, TaskError>(e)
    }
}

/// A list of tasks.
pub struct Tasks {
    tasks: Vec<Task>,
}

impl View for Tasks {
    type V = Seq<TaskView>;

    closed spec fn view(&self) -> Seq<TaskView> {
        task_views(self.tasks@)
    }
}

impl Tasks {
    /// The tasks as a plain list.
    pub fn into_vec(self) -> (r: Vec<Task>)
        ensures
            task_views(r@) == self@,
    {
        self.tasks
    }

    /// The tasks that chains of task lines describe. Within a chain every
    /// task but the first depends on the task before it.
    ///
    /// The first line that gives no task gives the error. The deadlines
    /// are for the calendar to decide.
    pub fn try_from(value: Vec<Vec<String>>) -> (r: Result<Tasks, TaskError>)
        ensures
            match r {
                Ok(tasks) => {
                    &&& tasks@.len() == chain_lines(value@).len()
                    &&& chain_links(value@).len() == chain_lines(value@).len()
                    &&& forall|p: int|
                        0 <= p < tasks@.len() ==> follows(
                            #[trigger] tasks@[p],
                            chain_lines(value@)[p],
                            chain_links(value@)[p],
                        )
                    &&& forall|p: int, k: int|
                        0 <= p < tasks@.len() && 0 <= k < tasks@[p].dependencies.len()
                            ==> #[trigger] tasks@[p].dependencies[k] < p
                },
                Err(e) => exists|p: int| #[trigger] fails_first(chain_lines(value@), p, e),
            },
    {
        let mut tasks: Vec<Task> = Vec::new();
        let mut c: usize = 0;
        assert(value@.take(0) =~= Seq::<Vec<String>>::empty());
        while c < value.len()
            invariant
                c <= value.len(),
                tasks@.len() == chain_lines(value@.take(c as int)).len(),
                chain_links(value@.take(c as int)).len() == tasks@.len(),
                forall|p: int|
                    0 <= p < tasks@.len() ==> follows(
                        #[trigger] task_views(tasks@)[p],
                        chain_lines(value@.take(c as int))[p],
                        chain_links(value@.take(c as int))[p],
                    ),
                forall|p: int, k: int|
                    0 <= p < tasks@.len() && 0 <= k < task_views(tasks@)[p].dependencies.len()
                        ==> #[trigger] task_views(tasks@)[p].dependencies[k] < p,
            decreases value.len() - c,
        {
            let chain = &value[c];
            let ghost done = value@.take(c as int);
            let ghost upto = value@.take(c as int + 1);
            let ghost before = tasks@;
            proof {
                assert(upto.drop_last() =~= done);
                assert(upto.last() == *chain);
                lemma_lines_prefix(value@, c as int + 1);
            }
            let mut j: usize = 0;
            while j < chain.len()
                invariant
                    c < value.len(),
                    chain == &value@[c as int],
                    done == value@.take(c as int),
                    upto == value@.take(c as int + 1),
                    upto.drop_last() == done,
                    upto.last() == *chain,
                    j <= chain.len(),
                    before.len() == chain_lines(done).len(),
                    tasks@.len() == before.len() + j,
                    chain_links(upto).len() == chain_lines(upto).len(),
                    chain_lines(upto).len() == before.len() + chain@.len(),
                    chain_lines(upto).len() <= chain_lines(value@).len(),
                    forall|p: int|
                        0 <= p < chain_lines(upto).len() ==> chain_lines(value@)[p]
                            == #[trigger] chain_lines(upto)[p],
                    forall|p: int|
                        0 <= p < tasks@.len() ==> follows(
                            #[trigger] task_views(tasks@)[p],
                            chain_lines(upto)[p],
                            chain_links(upto)[p],
                        ),
                    forall|p: int, k: int|
                        0 <= p < tasks@.len() && 0 <= k < task_views(
                            tasks@,
                        )[p].dependencies.len() ==> #[trigger] task_views(
                            tasks@,
                        )[p].dependencies[k] < p,
                decreases chain.len() - j,
            {
                let ghost held = tasks@;
                let place: usize = tasks.len();
                assert(chain_lines(upto)[place as int] == chain@[j as int]@);
                let mut task = match Task::try_from(chain[j].clone()) {
                    Ok(task) => task,
                    Err(e) => {
                        proof {
                            let lines = chain_lines(value@);
                            assert(lines[place as int] == chain@[j as int]@);
                            assert forall|q: int| 0 <= q < place implies read_line(
                                #[trigger] lines[q],
                            ) is Ok by {
                                assert(follows(
                                    task_views(tasks@)[q],
                                    chain_lines(upto)[q],
                                    chain_links(upto)[q],
                                ));
                            }
                            assert(fails_first(lines, place as int, e));
                        }
                        return Err(e);
                    },
                };
                if j > 0 {
                    let mut links: Vec<TaskIdx> = Vec::new();
                    links.push(place - 1);
                    task.dependencies = links;
                    assert(task@.dependencies =~= seq![(place - 1) as TaskIdx]);
                } else {
                    assert(task@.dependencies =~= Seq::<TaskIdx>::empty());
                }
                tasks.push(task);
                proof {
                    assert forall|p: int| 0 <= p < tasks@.len() implies follows(
                        #[trigger] task_views(tasks@)[p],
                        chain_lines(upto)[p],
                        chain_links(upto)[p],
                    ) by {
                        if p < place {
                            assert(task_views(tasks@)[p] == task_views(held)[p]);
                        }
                    }
                    assert forall|p: int, k: int|
                        0 <= p < tasks@.len() && 0 <= k < task_views(
                            tasks@,
                        )[p].dependencies.len() implies #[trigger] task_views(
                        tasks@,
                    )[p].dependencies[k] < p by {
                        if p < place {
                            assert(task_views(tasks@)[p] == task_views(held)[p]);
                        }
                    }
                }
                j += 1;
            }
            c += 1;
        }
        proof {
            assert(value@.take(c as int) =~= value@);
        }
        let r = Tasks { tasks };
        Ok(r)
    }
}

/// The lines of the first chains are the first lines of all the chains,
/// and every line has its dependencies.
proof fn lemma_lines_prefix(chains: Seq<Vec<String>>, upto: int)
    requires
        0 <= upto <= chains.len(),
    ensures
        chain_links(chains.take(upto)).len() == chain_lines(chains.take(upto)).len(),
        chain_lines(chains.take(upto)).len() <= chain_lines(chains).len(),
        forall|p: int|
            0 <= p < chain_lines(chains.take(upto)).len() ==> chain_lines(chains)[p]
                == #[trigger] chain_lines(chains.take(upto))[p],
    decreases chains.len() - upto,
{
    lemma_links_len(chains.take(upto));
    if upto == chains.len() {
        assert(chains.take(upto) =~= chains);
    } else {
        let more = chains.take(upto + 1);
        assert(more.drop_last() =~= chains.take(upto));
        lemma_lines_prefix(chains, upto + 1);
        assert forall|p: int| 0 <= p < chain_lines(chains.take(upto)).len() implies chain_lines(
            chains,
        )[p] == #[trigger] chain_lines(chains.take(upto))[p] by {
            assert(chain_lines(more)[p] == chain_lines(chains.take(upto))[p]);
        }
    }
}

proof fn lemma_links_len(chains: Seq<Vec<String>>)
    ensures
        chain_links(chains).len() == chain_lines(chains).len(),
    decreases chains.len(),
{
    if chains.len() > 0 {
        lemma_links_len(chains.drop_last());
    }
}

} // verus!
