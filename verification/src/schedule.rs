//! The cleaning list of a year, built day by day.
//!
//! The list is built in steps: `prepare_plan` takes the task rows and the
//! history into account, `Plan::add_day_off_task`, `Plan::order_tasks` and
//! `Plan::assign_first_days` finish the task list, and a `Schedule` then
//! takes each day in turn: `Schedule::begin_day` counts the day down for
//! every task and `Schedule::plan_day` puts the day's task on the list.
//! Between the two, the caller sets each task's `slack_key`.
use vstd::prelude::*;
use vstd::string::*;
use crate::calendar::{Date, MAX_DAY, MIN_DAY, date_text, day_number, valid_ymd, year_of, ymd_of};
use crate::text::{decimal, usize_text};
use crate::generator::{get_valid_tasks, is_lowest_slack_at, is_valid_task_list, positions_in};
use crate::effort::HARD;
use crate::loader::{Season, TaskLog, TaskRow};
use crate::order::{comes_before, is_stable_order, stable_order};
use crate::slack::lowest_slack_position;
use crate::task::{
    DAY_OFF_ID,
    DatedTask,
    FirstDayError,
    first_day_choice,
    first_day_fault,
    Task,
    day_set_insert,
    in_summer_ranges,
    is_possible_first_day,
    new_day_set,
};
use fnv::FnvHashSet;
use rand_chacha::ChaCha8Rng;

verus! {

/// Why no cleaning list could be made.
#[derive(Debug, PartialEq, Eq, Structural)]
pub enum GenerateError {
    /// A date needed lies beyond the calendar.
    DateOutOfRange,
    /// The history reaches the year of the list, or beyond it.
    HistoryTooRecent,
    /// A task of the task sheet uses the id of the "day off" task.
    ReservedTaskId,
    /// A number of days does not fit an `i32`.
    Overflow,
    /// The day after the history is the last day of its year.
    StartNotBeforeEnd,
    /// The task with this id has no day of its period on which it may be
    /// done first.
    NoPossibleDay(usize),
    /// No task may be done on a day.
    NoValidTask,
}

pub open spec fn max_int(a: int, b: int) -> int {
    if a >= b { a } else { b }
}

pub open spec fn min_int(a: int, b: int) -> int {
    if a <= b { a } else { b }
}

/// The day number of the most recent log of the history.
pub open spec fn latest_day(h: Seq<TaskLog>) -> Option<int>
    decreases h.len(),
{
    if h.len() == 0 {
        None
    } else {
        let d = h.last().date@;
        match latest_day(h.drop_last()) {
            Some(m) => Some(max_int(d, m)),
            None => Some(d),
        }
    }
}

/// The day number of the oldest log of the history.
pub open spec fn earliest_day(h: Seq<TaskLog>) -> Option<int>
    decreases h.len(),
{
    if h.len() == 0 {
        None
    } else {
        let d = h.last().date@;
        match earliest_day(h.drop_last()) {
            Some(m) => Some(min_int(d, m)),
            None => Some(d),
        }
    }
}

/// The day number of the most recent log of task `id`.
pub open spec fn latest_day_of(h: Seq<TaskLog>, id: usize) -> Option<int>
    decreases h.len(),
{
    if h.len() == 0 {
        None
    } else {
        let rest = latest_day_of(h.drop_last(), id);
        if h.last().id == id {
            let d = h.last().date@;
            match rest {
                Some(m) => Some(max_int(d, m)),
                None => Some(d),
            }
        } else {
            rest
        }
    }
}

/// The first day of the list: the day after the most recent log, or
/// January 1 of `year` where there is no history; `None` where that day
/// lies beyond the calendar.
pub open spec fn start_day(h: Seq<TaskLog>, year: int) -> Option<int> {
    match latest_day(h) {
        Some(l) => if l + 1 <= MAX_DAY {
            Some(l + 1)
        } else {
            None
        },
        None => if valid_ymd(year, 1, 1) {
            Some(day_number(year, 1, 1))
        } else {
            None
        },
    }
}

pub open spec fn fits_i32(v: int) -> bool {
    i32::MIN <= v <= i32::MAX
}

/// The task of a row, once the history is taken into account: a task that
/// was done is due its period after the day it was last done.
pub open spec fn prepared_task(row: TaskRow, h: Seq<TaskLog>, start: int) -> Task {
    let t = Task {
        id: row.id,
        instructions: row.instructions,
        period_days: row.period_days,
        effort: row.effort,
        season: row.season,
        days_until: 0,
        slack_key: 0,
        seen: false,
    };
    match latest_day_of(h, row.id) {
        Some(l) => Task { days_until: (row.period_days - (start - l)) as i32, seen: true, ..t },
        None => t,
    }
}

/// What is wrong with a row, if anything: the id of the "day off" task, or
/// a due day that does not fit an `i32`.
pub open spec fn row_error(row: TaskRow, h: Seq<TaskLog>, start: int) -> Option<GenerateError> {
    if row.id == DAY_OFF_ID {
        Some(GenerateError::ReservedTaskId)
    } else {
        match latest_day_of(h, row.id) {
            Some(l) => if fits_i32(row.period_days - (start - l)) {
                None
            } else {
                Some(GenerateError::Overflow)
            },
            None => None,
        }
    }
}

/// What is wrong with the first row that has something wrong.
pub open spec fn first_row_error(rows: Seq<TaskRow>, h: Seq<TaskLog>, start: int) -> Option<
    GenerateError,
>
    decreases rows.len(),
{
    if rows.len() == 0 {
        None
    } else {
        match first_row_error(rows.drop_last(), h, start) {
            Some(e) => Some(e),
            None => row_error(rows.last(), h, start),
        }
    }
}

/// Once a row has something wrong, the first wrong row stays the same as
/// more rows follow.
proof fn lemma_first_row_error_stays(rows: Seq<TaskRow>, h: Seq<TaskLog>, start: int, i: int, j: int)
    requires
        0 <= i <= j <= rows.len(),
        first_row_error(rows.subrange(0, i), h, start) is Some,
    ensures
        first_row_error(rows.subrange(0, j), h, start) == first_row_error(rows.subrange(0, i), h, start),
    decreases j - i,
{
    if j > i {
        lemma_first_row_error_stays(rows, h, start, i, j - 1);
        assert(rows.subrange(0, j).drop_last() =~= rows.subrange(0, j - 1));
    }
}

/// Why the plan cannot be made, in the order in which the checks are made.
pub open spec fn prepare_error(rows: Seq<TaskRow>, h: Seq<TaskLog>, year: int) -> Option<
    GenerateError,
> {
    match start_day(h, year) {
        None => Some(GenerateError::DateOutOfRange),
        Some(s) => if year_of(s) > year {
            Some(GenerateError::HistoryTooRecent)
        } else if first_row_error(rows, h, s) is Some {
            first_row_error(rows, h, s)
        } else if !valid_ymd(year, 12, 31) {
            Some(GenerateError::DateOutOfRange)
        } else if !(s < day_number(year, 12, 31)) {
            Some(GenerateError::StartNotBeforeEnd)
        } else {
            None
        },
    }
}

/// The days on which the tasks that were done are due: no other task that
/// was never done should start on them.
pub open spec fn used_days_of(tasks: Seq<Task>) -> Set<i32> {
    Set::new(|d: i32| exists|k: int| 0 <= k < tasks.len() && tasks[k].seen && tasks[k].days_until == d)
}

/// The tasks of a year, before the days are planned.
pub struct Plan {
    pub tasks: Vec<Task>,
    /// The days on which a task is due.
    pub used_days: FnvHashSet<i32>,
    /// The first day of the list.
    pub start_date: Date,
    /// The last day of the list: December 31 of the year of the list.
    pub end_date: Date,
    /// The day of the oldest log of the history (the start date where there
    /// is none).
    pub oldest_date: Date,
}

pub open spec fn opt_view(o: Option<Date>) -> Option<int> {
    match o {
        Some(d) => Some(d@),
        None => None,
    }
}

/// What stops the plan from being made, if anything (see `prepare_error`).
pub fn plan_error(task_rows: &Vec<TaskRow>, history: &Vec<TaskLog>, current_year: i32) -> (r: Option<
    GenerateError,
>)
    ensures
        r == prepare_error(task_rows@, history@, current_year as int),
{
    match build_plan(task_rows, history, current_year) {
        Ok(_) => None,
        Err(e) => Some(e),
    }
}

/// Takes the history into account: the list starts on the day after the
/// most recent log and ends on December 31 of `current_year`, and each task
/// that was done is due its period after the day it was last done. The
/// inputs must not be refused (see `plan_error`).
pub fn prepare_plan(task_rows: &Vec<TaskRow>, history: &Vec<TaskLog>, current_year: i32) -> (p: Plan)
    requires
        prepare_error(task_rows@, history@, current_year as int) is None,
    ensures
        start_day(history@, current_year as int) is Some,
        p.start_date@ == start_day(history@, current_year as int).unwrap(),
        p.end_date@ == day_number(current_year as int, 12, 31),
        p.oldest_date@ == (match earliest_day(history@) {
            Some(e) => e,
            None => start_day(history@, current_year as int).unwrap(),
        }),
        p.tasks@.len() == task_rows@.len(),
        forall|k: int|
            0 <= k < task_rows@.len() ==> #[trigger] p.tasks@[k] == prepared_task(
                task_rows@[k],
                history@,
                start_day(history@, current_year as int).unwrap(),
            ),
        p.used_days@ == used_days_of(p.tasks@),
{
    build_plan(task_rows, history, current_year).unwrap()
}

/// Builds the plan, or says why it cannot be made.
fn build_plan(task_rows: &Vec<TaskRow>, history: &Vec<TaskLog>, current_year: i32) -> (r:
    Result<Plan, GenerateError>)
    ensures
        r is Err <==> prepare_error(task_rows@, history@, current_year as int) is Some,
        r matches Err(e) ==> prepare_error(task_rows@, history@, current_year as int) == Some(e),
        r matches Ok(p) ==> {
            let s = start_day(history@, current_year as int).unwrap();
            &&& start_day(history@, current_year as int) is Some
            &&& p.start_date@ == s
            &&& p.end_date@ == day_number(current_year as int, 12, 31)
            &&& p.oldest_date@ == (match earliest_day(history@) {
                Some(e) => e,
                None => s,
            })
            &&& p.tasks@.len() == task_rows@.len()
            &&& forall|k: int|
                0 <= k < task_rows@.len() ==> #[trigger] p.tasks@[k] == prepared_task(
                    task_rows@[k],
                    history@,
                    s,
                )
            &&& p.used_days@ == used_days_of(p.tasks@)
        },
{
    let h = history;
    let mut latest: Option<Date> = None;
    let mut earliest: Option<Date> = None;
    let mut i: usize = 0;
    while i < h.len()
        invariant
            i <= h.len(),
            opt_view(latest) == latest_day(h@.subrange(0, i as int)),
            opt_view(earliest) == earliest_day(h@.subrange(0, i as int)),
        decreases h.len() - i,
    {
        let ghost next = h@.subrange(0, i + 1);
        assert(next.drop_last() =~= h@.subrange(0, i as int));
        let d = h[i].date;
        latest = match latest {
            Some(m) => if d.days_from_ce() > m.days_from_ce() {
                Some(d)
            } else {
                Some(m)
            },
            None => Some(d),
        };
        earliest = match earliest {
            Some(m) => if d.days_from_ce() < m.days_from_ce() {
                Some(d)
            } else {
                Some(m)
            },
            None => Some(d),
        };
        i += 1;
    }
    assert(h@.subrange(0, h.len() as int) =~= h@);
    let start_date = match latest {
        Some(l) => match l.add_days(1) {
            Some(d) => d,
            None => {
                return Err(GenerateError::DateOutOfRange);
            },
        },
        None => match Date::from_ymd_opt(current_year, 1, 1) {
            Some(d) => d,
            None => {
                return Err(GenerateError::DateOutOfRange);
            },
        },
    };
    let ghost s = start_date@;
    let year = start_date.year();
    if year > current_year {
        return Err(GenerateError::HistoryTooRecent);
    }
    let oldest_date = match earliest {
        Some(e) => e,
        None => start_date,
    };
    let mut tasks: Vec<Task> = Vec::new();
    let mut used_days = new_day_set();
    let mut k: usize = 0;
    proof {
        assert(task_rows@.subrange(0, 0) =~= Seq::<TaskRow>::empty());
        assert(used_days@ =~= used_days_of(tasks@));
    }
    while k < task_rows.len()
        invariant
            k <= task_rows.len(),
            h@ == history@,
            s == start_date@,
            start_day(h@, current_year as int) == Some(s),
            year == year_of(s),
            year <= current_year,
            tasks@.len() == k,
            forall|q: int|
                0 <= q < k ==> #[trigger] tasks@[q] == prepared_task(task_rows@[q], h@, s),
            first_row_error(task_rows@.subrange(0, k as int), h@, s) is None,
            used_days@ == used_days_of(tasks@),
        decreases task_rows.len() - k,
    {
        let ghost next = task_rows@.subrange(0, k + 1);
        assert(next.drop_last() =~= task_rows@.subrange(0, k as int));
        assert(next.last() == task_rows@[k as int]);
        let mut task = Task::from_row(&task_rows[k]);
        if task.id == DAY_OFF_ID {
            proof {
                assert(row_error(next.last(), h@, s) == Some(GenerateError::ReservedTaskId));
                assert(first_row_error(next, h@, s) == Some(GenerateError::ReservedTaskId));
                lemma_first_row_error_stays(task_rows@, h@, s, k + 1, task_rows@.len() as int);
                assert(task_rows@.subrange(0, task_rows@.len() as int) =~= task_rows@);
            }
            return Err(GenerateError::ReservedTaskId);
        }
        let mut record: Option<Date> = None;
        let mut j: usize = 0;
        while j < h.len()
            invariant
                j <= h.len(),
                opt_view(record) == latest_day_of(h@.subrange(0, j as int), task.id),
            decreases h.len() - j,
        {
            let ghost hn = h@.subrange(0, j + 1);
            assert(hn.drop_last() =~= h@.subrange(0, j as int));
            if h[j].id == task.id {
                let d = h[j].date;
                record = match record {
                    Some(m) => if d.days_from_ce() > m.days_from_ce() {
                        Some(d)
                    } else {
                        Some(m)
                    },
                    None => Some(d),
                };
            }
            j += 1;
        }
        assert(h@.subrange(0, h.len() as int) =~= h@);
        if let Some(done_date) = record {
            let days_ago = start_date.days_since(&done_date);
            let due: i64 = task.period_days as i64 - days_ago as i64;
            if due < i32::MIN as i64 || due > i32::MAX as i64 {
                proof {
                    lemma_first_row_error_stays(task_rows@, h@, s, k + 1, task_rows@.len() as int);
                    assert(task_rows@.subrange(0, task_rows@.len() as int) =~= task_rows@);
                }
                return Err(GenerateError::Overflow);
            }
            task.days_until = due as i32;
            task.seen = true;
            day_set_insert(&mut used_days, task.days_until);
        }
        let ghost before = tasks@;
        tasks.push(task);
        proof {
            assert(tasks@[k as int] == prepared_task(task_rows@[k as int], h@, s));
            assert forall|d: i32| used_days@.contains(d) <==> used_days_of(tasks@).contains(d) by {
                if used_days@.contains(d) && !(tasks@[k as int].seen && tasks@[k as int].days_until == d) {
                    let w = choose|w: int| 0 <= w < before.len() && before[w].seen && before[w].days_until == d;
                    assert(tasks@[w] == before[w]);
                }
                if used_days_of(tasks@).contains(d) {
                    let w = choose|w: int| 0 <= w < tasks@.len() && tasks@[w].seen && tasks@[w].days_until == d;
                    if w < k {
                        assert(tasks@[w] == before[w]);
                        assert(used_days_of(before).contains(d));
                    }
                }
            }
            assert(used_days@ =~= used_days_of(tasks@));
        }
        k += 1;
    }
    assert(task_rows@.subrange(0, task_rows.len() as int) =~= task_rows@);
    let end_date = match Date::from_ymd_opt(current_year, 12, 31) {
        Some(d) => d,
        None => {
            return Err(GenerateError::DateOutOfRange);
        },
    };
    if !(start_date.days_from_ce() < end_date.days_from_ce()) {
        return Err(GenerateError::StartNotBeforeEnd);
    }
    Ok(Plan { tasks, used_days, start_date, end_date, oldest_date })
}


/// The generator that rand's `SeedableRng::seed_from_u64` makes from
/// `seed` (a function of the seed alone).
pub uninterp spec fn seeded_generator(seed: u64) -> ChaCha8Rng;

/// rand's `SeedableRng::seed_from_u64` for `ChaCha8Rng`. Claimed: the
/// generator depends on the seed alone, so the same seed gives the same
/// generator; what its state is, is not stated.
#[verifier::external_body]
fn seeded_rng(seed: u64) -> (r: ChaCha8Rng)
    ensures
        r == seeded_generator(seed),
{
    <ChaCha8Rng as rand::SeedableRng>::seed_from_u64(seed)
}

/// rand's `SeedableRng::from_rng` for `ChaCha8Rng`, seeded from
/// `rand::rng()`. Nothing is claimed of the generator it makes.
#[verifier::external_body]
fn entropy_rng() -> ChaCha8Rng {
    <ChaCha8Rng as rand::SeedableRng>::from_rng(&mut rand::rng())
}

/// The random generator that picks the first days of the tasks: seeded
/// with `seed` where there is one, so that the same inputs give the same
/// list, else from the system's entropy.
pub fn new_rng(seed: Option<u64>) -> (r: ChaCha8Rng)
    ensures
        seed matches Some(s) ==> r == seeded_generator(s),
{
    match seed {
        Some(s) => seeded_rng(s),
        None => entropy_rng(),
    }
}

/// The rank of a season in the task order: summer tasks come first.
pub open spec fn season_rank(s: Season) -> i64 {
    if s == Season::Summer {
        0
    } else {
        1
    }
}

/// The key by which the tasks are ordered before the days are planned:
/// summer tasks first, then by period.
pub open spec fn order_key(t: Task) -> (i64, i64, i64) {
    (season_rank(t.season), t.period_days as i64, 0)
}

pub open spec fn order_keys(tasks: Seq<Task>) -> Seq<(i64, i64, i64)> {
    Seq::new(tasks.len(), |i: int| order_key(tasks[i]))
}

/// The tasks in the order that `perm` gives.
pub open spec fn permuted(tasks: Seq<Task>, perm: Seq<usize>) -> Seq<Task> {
    Seq::new(perm.len(), |k: int| tasks[perm[k] as int])
}

/// What stops a task that was never done from getting its first day, if
/// anything.
pub open spec fn first_day_problem(t: Task, start: int, oldest: int) -> Option<GenerateError> {
    if t.seen {
        None
    } else {
        match first_day_fault(t, start, oldest) {
            Some(FirstDayError::DateOutOfRange) => Some(GenerateError::DateOutOfRange),
            Some(FirstDayError::Overflow) => Some(GenerateError::Overflow),
            Some(FirstDayError::NoPossibleDay) => Some(GenerateError::NoPossibleDay(t.id)),
            None => None,
        }
    }
}

/// What stops the first task that cannot get its first day.
pub open spec fn first_day_error(tasks: Seq<Task>, start: int, oldest: int) -> Option<GenerateError>
    decreases tasks.len(),
{
    if tasks.len() == 0 {
        None
    } else {
        match first_day_error(tasks.drop_last(), start, oldest) {
            Some(e) => Some(e),
            None => first_day_problem(tasks.last(), start, oldest),
        }
    }
}

proof fn lemma_first_day_error_stays(tasks: Seq<Task>, start: int, oldest: int, i: int, j: int)
    requires
        0 <= i <= j <= tasks.len(),
        first_day_error(tasks.subrange(0, i), start, oldest) is Some,
    ensures
        first_day_error(tasks.subrange(0, j), start, oldest) == first_day_error(
            tasks.subrange(0, i),
            start,
            oldest,
        ),
    decreases j - i,
{
    if j > i {
        lemma_first_day_error_stays(tasks, start, oldest, i, j - 1);
        assert(tasks.subrange(0, j).drop_last() =~= tasks.subrange(0, j - 1));
    }
}

/// Where no task of the list is stopped, no task of a prefix is either.
proof fn lemma_first_day_error_none_prefix(tasks: Seq<Task>, start: int, oldest: int, k: int)
    requires
        0 <= k <= tasks.len(),
        first_day_error(tasks, start, oldest) is None,
    ensures
        first_day_error(tasks.subrange(0, k), start, oldest) is None,
{
    if first_day_error(tasks.subrange(0, k), start, oldest) is Some {
        lemma_first_day_error_stays(tasks, start, oldest, k, tasks.len() as int);
        assert(tasks.subrange(0, tasks.len() as int) =~= tasks);
    }
}

/// The used days before task `k` gets its first day: those of `used`, and
/// the first days of the tasks before `k` that were never done.
pub open spec fn used_before(before: Seq<Task>, after: Seq<Task>, used: Set<i32>, k: int) -> Set<i32>
    decreases k,
{
    if k <= 0 {
        used
    } else {
        let u = used_before(before, after, used, k - 1);
        if before[k - 1].seen {
            u
        } else {
            u.insert(after[k - 1].days_until)
        }
    }
}

proof fn lemma_used_before_prefix(
    before: Seq<Task>,
    a1: Seq<Task>,
    a2: Seq<Task>,
    used: Set<i32>,
    k: int,
)
    requires
        forall|q: int| 0 <= q < k ==> a1[q] == a2[q],
    ensures
        used_before(before, a1, used, k) == used_before(before, a2, used, k),
    decreases k,
{
    if k > 0 {
        lemma_used_before_prefix(before, a1, a2, used, k - 1);
    }
}

/// The tasks, the used days and the generator's state once the first `k`
/// tasks got their first day, in order, from the generator in state `rng`
/// (see `first_day_choice`).
pub open spec fn first_days_run(
    before: Seq<Task>,
    used: Set<i32>,
    rng: ChaCha8Rng,
    start: int,
    oldest: int,
    k: int,
) -> (Seq<Task>, Set<i32>, ChaCha8Rng)
    decreases k,
{
    if k <= 0 {
        (before, used, rng)
    } else {
        let (tasks, u, g) = first_days_run(before, used, rng, start, oldest, k - 1);
        let t = before[k - 1];
        if t.seen {
            (tasks, u, g)
        } else {
            let (d, next) = first_day_choice(t, u, start, oldest, g);
            (tasks.update(k - 1, Task { days_until: d, ..t }), u.insert(d), next)
        }
    }
}

/// Task `k` got its first day as the rules say: a task that was done is
/// unchanged; a task that was never done gets a possible first day, one that
/// no earlier task uses where there is one.
pub open spec fn first_day_ok(
    before: Seq<Task>,
    after: Seq<Task>,
    used: Set<i32>,
    start: int,
    oldest: int,
    k: int,
) -> bool {
    let b = before[k];
    let a = after[k];
    if b.seen {
        a == b
    } else {
        &&& a == (Task { days_until: a.days_until, ..b })
        &&& is_possible_first_day(b.season, b.period_days as int, start, oldest, a.days_until as int)
        &&& (exists|e: i32|
            is_possible_first_day(b.season, b.period_days as int, start, oldest, e as int)
                && !used_before(before, after, used, k).contains(e)) ==> !used_before(
            before,
            after,
            used,
            k,
        ).contains(a.days_until)
    }
}

impl Plan {
    /// The number of days from the first to the last day of the list.
    pub fn total_days(&self) -> (r: i32)
        ensures
            r == self.end_date@ - self.start_date@,
    {
        self.end_date.days_since(&self.start_date)
    }

    /// Adds the "day off" task with the given period.
    pub fn add_day_off_task(&mut self, period_days: i32)
        ensures
            final(self).tasks@.len() == old(self).tasks@.len() + 1,
            forall|k: int|
                0 <= k < old(self).tasks@.len() ==> #[trigger] final(self).tasks@[k] == old(
                    self,
                ).tasks@[k],
            final(self).tasks@.last().id == DAY_OFF_ID,
            final(self).tasks@.last().instructions@ == "Day off"@,
            final(self).tasks@.last().period_days == period_days,
            final(self).tasks@.last().days_until == 0,
            crate::task::is_fresh(final(self).tasks@.last()),
            final(self).used_days == old(self).used_days,
            final(self).start_date == old(self).start_date,
            final(self).end_date == old(self).end_date,
            final(self).oldest_date == old(self).oldest_date,
    {
        let task = Task::get_day_off_task().with_period(period_days);
        self.tasks.push(task);
    }

    /// Orders the tasks: summer tasks first, then by period; tasks that are
    /// equal in both keep their order.
    pub fn order_tasks(&mut self)
        ensures
            exists|perm: Seq<usize>|
                is_stable_order(order_keys(old(self).tasks@), perm) && final(self).tasks@ == permuted(
                    old(self).tasks@,
                    perm,
                ),
            final(self).used_days == old(self).used_days,
            final(self).start_date == old(self).start_date,
            final(self).end_date == old(self).end_date,
            final(self).oldest_date == old(self).oldest_date,
    {
        let n = self.tasks.len();
        let mut keys: Vec<(i64, i64, i64)> = Vec::new();
        let mut k: usize = 0;
        while k < n
            invariant
                n == self.tasks.len(),
                k <= n,
                keys.len() == k,
                forall|q: int| 0 <= q < k ==> #[trigger] keys@[q] == order_key(self.tasks@[q]),
            decreases n - k,
        {
            let t = &self.tasks[k];
            let rank: i64 = if t.season == Season::Summer {
                0
            } else {
                1
            };
            keys.push((rank, t.period_days as i64, 0));
            k += 1;
        }
        assert(keys@ =~= order_keys(self.tasks@));
        let perm = stable_order(&keys);
        let mut ordered: Vec<Task> = Vec::new();
        let mut w: usize = 0;
        while w < n
            invariant
                n == self.tasks.len(),
                is_stable_order(keys@, perm@),
                keys@.len() == n,
                w <= n,
                ordered.len() == w,
                forall|q: int| 0 <= q < w ==> #[trigger] ordered@[q] == self.tasks@[perm@[q] as int],
            decreases n - w,
        {
            ordered.push(self.tasks[perm[w]].duplicate());
            w += 1;
        }
        let ghost old_tasks = self.tasks@;
        assert(ordered@ =~= permuted(old_tasks, perm@));
        self.tasks = ordered;
    }

    /// What stops the first task that was never done and cannot get its
    /// first day, if anything.
    pub fn first_days_error(&self) -> (r: Option<GenerateError>)
        ensures
            r == first_day_error(self.tasks@, self.start_date@, self.oldest_date@),
    {
        let n = self.tasks.len();
        let ghost tasks = self.tasks@;
        let ghost start = self.start_date@;
        let ghost oldest = self.oldest_date@;
        let mut k: usize = 0;
        proof {
            assert(tasks.subrange(0, 0) =~= Seq::<Task>::empty());
        }
        while k < n
            invariant
                n == tasks.len(),
                tasks == self.tasks@,
                start == self.start_date@,
                oldest == self.oldest_date@,
                k <= n,
                first_day_error(tasks.subrange(0, k as int), start, oldest) is None,
            decreases n - k,
        {
            let ghost next = tasks.subrange(0, k + 1);
            assert(next.drop_last() =~= tasks.subrange(0, k as int));
            assert(next.last() == tasks[k as int]);
            let task = &self.tasks[k];
            if !task.seen {
                match task.first_day_check(self.oldest_date, self.start_date) {
                    None => {},
                    Some(fault) => {
                        let err = match fault {
                            FirstDayError::DateOutOfRange => GenerateError::DateOutOfRange,
                            FirstDayError::Overflow => GenerateError::Overflow,
                            FirstDayError::NoPossibleDay => GenerateError::NoPossibleDay(task.id),
                        };
                        proof {
                            assert(first_day_error(next, start, oldest) == Some(err));
                            lemma_first_day_error_stays(tasks, start, oldest, k + 1, n as int);
                            assert(tasks.subrange(0, n as int) =~= tasks);
                        }
                        return Some(err);
                    },
                }
            }
            k += 1;
        }
        proof {
            assert(tasks.subrange(0, n as int) =~= tasks);
        }
        None
    }

    /// Gives each task that was never done its first day, in order (see
    /// `Task::set_days_until`). Every such task must be able to get one
    /// (see `first_days_error`).
    pub fn assign_first_days(&mut self, rng: &mut ChaCha8Rng)
        requires
            first_day_error(old(self).tasks@, old(self).start_date@, old(self).oldest_date@) is None,
        ensures
            final(self).tasks@.len() == old(self).tasks@.len(),
            forall|k: int|
                0 <= k < old(self).tasks@.len() ==> #[trigger] first_day_ok(
                    old(self).tasks@,
                    final(self).tasks@,
                    old(self).used_days@,
                    old(self).start_date@,
                    old(self).oldest_date@,
                    k,
                ),
            final(self).used_days@ == used_before(
                old(self).tasks@,
                final(self).tasks@,
                old(self).used_days@,
                old(self).tasks@.len() as int,
            ),
            (final(self).tasks@, final(self).used_days@, *final(rng)) == first_days_run(
                old(self).tasks@,
                old(self).used_days@,
                *old(rng),
                old(self).start_date@,
                old(self).oldest_date@,
                old(self).tasks@.len() as int,
            ),
            final(self).start_date == old(self).start_date,
            final(self).end_date == old(self).end_date,
            final(self).oldest_date == old(self).oldest_date,
    {
        let n = self.tasks.len();
        let ghost before = self.tasks@;
        let ghost used0 = self.used_days@;
        let ghost rng0 = *rng;
        let ghost start = self.start_date@;
        let ghost oldest = self.oldest_date@;
        let mut k: usize = 0;
        while k < n
            invariant
                n == before.len(),
                self.tasks@.len() == n,
                k <= n,
                start == self.start_date@,
                oldest == self.oldest_date@,
                self.start_date == old(self).start_date,
                self.end_date == old(self).end_date,
                self.oldest_date == old(self).oldest_date,
                before == old(self).tasks@,
                used0 == old(self).used_days@,
                first_day_error(before, start, oldest) is None,
                forall|q: int| k <= q < n ==> #[trigger] self.tasks@[q] == before[q],
                forall|q: int|
                    0 <= q < k ==> #[trigger] first_day_ok(before, self.tasks@, used0, start, oldest, q),
                self.used_days@ == used_before(before, self.tasks@, used0, k as int),
                rng0 == *old(rng),
                (self.tasks@, self.used_days@, *rng) == first_days_run(before, used0, rng0, start, oldest, k as int),
            decreases n - k,
        {
            let ghost next = before.subrange(0, k + 1);
            proof {
                lemma_first_day_error_none_prefix(before, start, oldest, k + 1);
                assert(next.drop_last() =~= before.subrange(0, k as int));
                assert(next.last() == before[k as int]);
            }
            let ghost tasks_before = self.tasks@;
            if !self.tasks[k].seen {
                let start_date = self.start_date;
                let oldest_date = self.oldest_date;
                self.tasks[k].set_days_until(rng, &mut self.used_days, oldest_date, start_date);
            }
            proof {
                assert forall|q: int| 0 <= q < k implies self.tasks@[q] == tasks_before[q] by {}
                lemma_used_before_prefix(before, tasks_before, self.tasks@, used0, k as int);
                assert forall|q: int| 0 <= q < k + 1 implies #[trigger] first_day_ok(
                    before,
                    self.tasks@,
                    used0,
                    start,
                    oldest,
                    q,
                ) by {
                    lemma_used_before_prefix(before, tasks_before, self.tasks@, used0, q);
                    if q < k {
                        assert(first_day_ok(before, tasks_before, used0, start, oldest, q));
                    }
                }
            }
            k += 1;
        }
    }

    /// The schedule of the days, with the given holidays.
    pub fn into_schedule(self, holidays: Vec<Date>) -> (s: Schedule)
        ensures
            s.tasks == self.tasks,
            s.holidays == holidays,
            s.start_date == self.start_date,
            s.end_date == self.end_date,
            s.prev_effort == 0,
            s.cleaning_list@.len() == 0,
    {
        Schedule {
            tasks: self.tasks,
            holidays,
            start_date: self.start_date,
            end_date: self.end_date,
            prev_effort: 0,
            cleaning_list: Vec::new(),
        }
    }
}

/// The days of a year, planned one at a time.
pub struct Schedule {
    pub tasks: Vec<Task>,
    /// The days on which no task is done.
    pub holidays: Vec<Date>,
    pub start_date: Date,
    pub end_date: Date,
    /// The effort of the task of the day before.
    pub prev_effort: u8,
    /// The tasks of the days planned so far.
    pub cleaning_list: Vec<DatedTask>,
}

/// Day number `n` is a holiday.
pub open spec fn is_holiday(holidays: Seq<Date>, n: int) -> bool {
    exists|k: int| 0 <= k < holidays.len() && (#[trigger] holidays[k])@ == n
}

impl Schedule {
    /// The days to plan, from the first to the last day of the list.
    pub fn days(&self) -> (r: Vec<Date>)
        ensures
            r@.len() == (if self.end_date@ >= self.start_date@ {
                self.end_date@ - self.start_date@ + 1
            } else {
                0
            }),
            forall|k: int| 0 <= k < r@.len() ==> (#[trigger] r@[k])@ == self.start_date@ + k,
    {
        let first = self.start_date.days_from_ce();
        let last = self.end_date.days_from_ce();
        let mut r: Vec<Date> = Vec::new();
        let mut n: i32 = first;
        while n <= last
            invariant
                first == self.start_date@,
                last == self.end_date@,
                MIN_DAY <= first,
                last <= MAX_DAY,
                first <= n <= (if last >= first { last + 1 } else { first as int }),
                r@.len() == n - first,
                forall|k: int| 0 <= k < r@.len() ==> (#[trigger] r@[k])@ == first + k,
            decreases last + 1 - n,
        {
            match Date::from_days_from_ce(n) {
                Some(d) => {
                    r.push(d);
                },
                None => {
                    proof {
                        assert(false);
                    }
                },
            }
            n += 1;
        }
        r
    }

    /// Starts a day: every task is one day closer to being due.
    pub fn begin_day(&mut self) -> (r: Result<(), GenerateError>)
        ensures
            r is Err <==> exists|k: int|
                0 <= k < old(self).tasks@.len() && (#[trigger] old(self).tasks@[k]).days_until
                    == i32::MIN,
            r matches Err(e) ==> e == GenerateError::Overflow,
            r is Ok ==> {
                &&& final(self).tasks@.len() == old(self).tasks@.len()
                &&& forall|k: int|
                    0 <= k < old(self).tasks@.len() ==> #[trigger] final(self).tasks@[k] == (Task {
                        days_until: (old(self).tasks@[k].days_until - 1) as i32,
                        ..old(self).tasks@[k]
                    })
            },
            final(self).holidays == old(self).holidays,
            final(self).start_date == old(self).start_date,
            final(self).end_date == old(self).end_date,
            final(self).prev_effort == old(self).prev_effort,
            final(self).cleaning_list == old(self).cleaning_list,
    {
        let n = self.tasks.len();
        let ghost before = self.tasks@;
        let mut k: usize = 0;
        while k < n
            invariant
                n == before.len(),
                before == old(self).tasks@,
                self.tasks@.len() == n,
                k <= n,
                forall|q: int| k <= q < n ==> #[trigger] self.tasks@[q] == before[q],
                forall|q: int| 0 <= q < k ==> (#[trigger] before[q]).days_until != i32::MIN,
                forall|q: int|
                    0 <= q < k ==> #[trigger] self.tasks@[q] == (Task {
                        days_until: (before[q].days_until - 1) as i32,
                        ..before[q]
                    }),
                self.holidays == old(self).holidays,
                self.start_date == old(self).start_date,
                self.end_date == old(self).end_date,
                self.prev_effort == old(self).prev_effort,
                self.cleaning_list == old(self).cleaning_list,
            decreases n - k,
        {
            if self.tasks[k].days_until == i32::MIN {
                return Err(GenerateError::Overflow);
            }
            self.tasks[k].days_until = self.tasks[k].days_until - 1;
            k += 1;
        }
        Ok(())
    }

    /// Plans a day: a holiday is filled with the holiday task; any other day
    /// with the valid task of lowest slack (see `get_valid_tasks` and
    /// `lowest_slack_position`), which is then due again a period later.
    pub fn plan_day(&mut self, date: Date) -> (r: Result<(), GenerateError>)
        ensures
            final(self).holidays == old(self).holidays,
            final(self).start_date == old(self).start_date,
            final(self).end_date == old(self).end_date,
            r is Ok ==> {
                &&& final(self).cleaning_list@.len() == old(self).cleaning_list@.len() + 1
                &&& final(self).cleaning_list@.drop_last() == old(self).cleaning_list@
                &&& final(self).cleaning_list@.last().do_date == date
            },
            r is Err ==> final(self).tasks == old(self).tasks && final(self).cleaning_list
                == old(self).cleaning_list && final(self).prev_effort == old(self).prev_effort,
            r is Ok && old(self).prev_effort >= HARD ==> final(self).prev_effort < HARD,
            is_holiday(old(self).holidays@, date@) ==> {
                let entry = final(self).cleaning_list@.last();
                &&& r is Ok
                &&& final(self).tasks == old(self).tasks
                &&& final(self).prev_effort == 0
                &&& final(self).cleaning_list@.len() == old(self).cleaning_list@.len() + 1
                &&& final(self).cleaning_list@.drop_last() == old(self).cleaning_list@
                &&& entry.id == DAY_OFF_ID
                &&& entry.do_date == date
                &&& entry.instructions@ == "Holiday"@
                &&& entry.days_until_when_added == 0
            },
            !is_holiday(old(self).holidays@, date@) ==> exists|v: Seq<usize>|
                is_valid_task_list(old(self).tasks@, date@, old(self).prev_effort, v) && (v.len()
                    == 0 ==> r == Err::<(), GenerateError>(GenerateError::NoValidTask)) && (v.len()
                    > 0 ==> exists|p: usize|
                    #[trigger] is_lowest_slack_at(old(self).tasks@, v, p) && {
                        let i = v[p as int] as int;
                        let t = old(self).tasks@[i];
                        &&& r is Ok
                        &&& final(self).prev_effort == t.effort
                        &&& final(self).tasks@ == old(self).tasks@.update(
                            i,
                            Task { days_until: t.period_days, seen: true, ..t },
                        )
                        &&& final(self).cleaning_list@ == old(self).cleaning_list@.push(
                            DatedTask {
                                id: t.id,
                                do_date: date,
                                instructions: t.instructions,
                                days_until_when_added: if t.seen {
                                    t.days_until
                                } else {
                                    0
                                },
                            },
                        )
                    }),
    {
        let day = date.days_from_ce();
        let mut holiday = false;
        let mut k: usize = 0;
        while k < self.holidays.len()
            invariant
                k <= self.holidays.len(),
                day == date@,
                holiday == exists|q: int| 0 <= q < k && (#[trigger] self.holidays@[q])@ == date@,
            decreases self.holidays.len() - k,
        {
            if self.holidays[k].days_from_ce() == day {
                holiday = true;
            }
            k += 1;
        }
        if holiday {
            let mut task = Task::get_holiday_task();
            task.days_until = 0;
            self.cleaning_list.push(DatedTask::from_task(&task, date));
            self.prev_effort = 0;
            return Ok(());
        }
        let valid = get_valid_tasks(&self.tasks, date, self.prev_effort);
        proof {
            assert forall|q: int| 0 <= q < valid@.len() implies #[trigger] valid@[q]
                < self.tasks@.len() by {
                assert(crate::generator::task_of(self.tasks@, valid@, q) == self.tasks@[valid@[q] as int]);
            }
        }
        match lowest_slack_position(&self.tasks, &valid) {
            None => Err(GenerateError::NoValidTask),
            Some(p) => {
                let i = valid[p];
                let ghost t = self.tasks@[i as int];
                assert(crate::generator::task_of(self.tasks@, valid@, p as int) == t);
                if !self.tasks[i].seen {
                    self.tasks[i].days_until = 0;
                }
                let entry = DatedTask::from_task(&self.tasks[i], date);
                self.cleaning_list.push(entry);
                self.tasks[i].days_until = self.tasks[i].period_days;
                self.tasks[i].seen = true;
                self.prev_effort = self.tasks[i].effort;
                proof {
                    assert(self.tasks@ =~= old(self).tasks@.update(
                        i as int,
                        Task { days_until: t.period_days, seen: true, ..t },
                    ));
                    assert(is_lowest_slack_at(old(self).tasks@, valid@, p));
                }
                Ok(())
            },
        }
    }
}

/// The number of entries of the list with the given task id.
pub open spec fn count_id(list: Seq<DatedTask>, id: usize) -> nat
    decreases list.len(),
{
    if list.len() == 0 {
        0
    } else {
        count_id(list.drop_last(), id) + if list.last().id == id {
            1nat
        } else {
            0nat
        }
    }
}

/// How many times the task with the given id is on the list.
pub fn count_scheduled(list: &Vec<DatedTask>, id: usize) -> (r: usize)
    ensures
        r == count_id(list@, id),
{
    let mut count: usize = 0;
    let mut k: usize = 0;
    while k < list.len()
        invariant
            k <= list.len(),
            count == count_id(list@.subrange(0, k as int), id),
            count <= k,
        decreases list.len() - k,
    {
        let ghost next = list@.subrange(0, k + 1);
        assert(next.drop_last() =~= list@.subrange(0, k as int));
        if list[k].id == id {
            count += 1;
        }
        k += 1;
    }
    assert(list@.subrange(0, list.len() as int) =~= list@);
    count
}

/// The line of an entry in the list's TSV text: id, date, an empty column
/// for the "done" checkbox, and the instructions, separated by tabs.
pub open spec fn tsv_line(t: DatedTask) -> Seq<char> {
    decimal(t.id as nat) + "\t"@ + date_text(ymd_of(t.do_date@)) + "\t\t"@ + t.instructions@
}

/// The lines of the entries, joined by line breaks.
pub open spec fn tsv_text(list: Seq<DatedTask>) -> Seq<char>
    decreases list.len(),
{
    if list.len() == 0 {
        Seq::<char>::empty()
    } else if list.len() == 1 {
        tsv_line(list[0])
    } else {
        tsv_text(list.drop_last()) + "\n"@ + tsv_line(list.last())
    }
}

/// The list as TSV text, ready to paste into the spreadsheet.
pub fn cleaning_list_tsv(list: &Vec<DatedTask>) -> (r: String)
    ensures
        r@ == tsv_text(list@),
{
    let mut text = String::new();
    let mut k: usize = 0;
    while k < list.len()
        invariant
            k <= list.len(),
            text@ == tsv_text(list@.subrange(0, k as int)),
        decreases list.len() - k,
    {
        let ghost next = list@.subrange(0, k + 1);
        assert(next.drop_last() =~= list@.subrange(0, k as int));
        let entry = &list[k];
        if k > 0 {
            text.append("\n");
        }
        let id_text = usize_text(entry.id);
        let date_text = entry.do_date.to_text();
        text.append(id_text.as_str());
        text.append("\t");
        text.append(date_text.as_str());
        text.append("\t\t");
        text.append(entry.instructions.as_str());
        proof {
            if k == 0 {
                assert(text@ =~= tsv_line(list@[0]));
            } else {
                assert(text@ =~= tsv_text(list@.subrange(0, k as int)) + "\n"@ + tsv_line(list@[k as int]));
            }
        }
        k += 1;
    }
    assert(list@.subrange(0, list.len() as int) =~= list@);
    text
}

} // verus!
