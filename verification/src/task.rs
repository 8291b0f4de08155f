//! Tasks as the scheduler handles them, the yearly windows in which they may
//! be done, and the tasks of the final list.
use vstd::prelude::*;
use vstd::string::*;
use crate::calendar::{Date, MAX_DAY, MIN_DAY, day_number, day_of, month_of, valid_ymd, year_of};
use crate::loader::{Season, TaskRow, summer_window_spec};
use core::hash::BuildHasherDefault;
use fnv::{FnvHashSet, FnvHasher};
use rand::seq::IndexedRandom;
use rand_chacha::ChaCha8Rng;

verus! {

/// `(m1, d1)` is on or before `(m2, d2)` within a year.
pub open spec fn md_le(m1: int, d1: int, m2: int, d2: int) -> bool {
    m1 < m2 || (m1 == m2 && d1 <= d2)
}

/// A part of each year, from a start month and day to an end month and day
/// (both included). Where the start comes after the end, the window runs
/// over the new year.
///
/// Month => [1..=12]
/// Day => [1..=31]
#[derive(Clone, Copy, Debug, PartialEq, Eq, Structural)]
pub struct AnnualWindow {
    pub start_month: u32,
    pub start_day: u32,
    pub end_month: u32,
    pub end_day: u32,
}

impl AnnualWindow {
    /// The window holds the month and day `(m, d)`.
    pub open spec fn holds(self, m: int, d: int) -> bool {
        let (sm, sd, em, ed) = (
            self.start_month as int,
            self.start_day as int,
            self.end_month as int,
            self.end_day as int,
        );
        if md_le(sm, sd, em, ed) {
            md_le(sm, sd, m, d) && md_le(m, d, em, ed)
        } else {
            md_le(sm, sd, m, d) || md_le(m, d, em, ed)
        }
    }

    /// Whether the window holds the month and day of `date`.
    pub fn contains(&self, date: Date) -> (r: bool)
        ensures
            r == self.holds(month_of(date@), day_of(date@)),
    {
        let (_, month, day) = date.ymd();
        let current = (month, day);
        let start = (self.start_month, self.start_day);
        let end = (self.end_month, self.end_day);
        let start_le_current = start.0 < current.0 || (start.0 == current.0 && start.1
            <= current.1);
        let current_le_end = current.0 < end.0 || (current.0 == end.0 && current.1 <= end.1);
        if start.0 < end.0 || (start.0 == end.0 && start.1 <= end.1) {
            start_le_current && current_le_end
        } else {
            start_le_current || current_le_end
        }
    }

    /// The first day of the window in `year`, if that day exists.
    pub fn get_start_date(&self, year: i32) -> (r: Option<Date>)
        ensures
            r is Some <==> valid_ymd(year as int, self.start_month as int, self.start_day as int),
            r matches Some(d) ==> d@ == day_number(
                year as int,
                self.start_month as int,
                self.start_day as int,
            ),
    {
        Date::from_ymd_opt(year, self.start_month, self.start_day)
    }

    /// The last day of the window in `year`, if that day exists.
    pub fn get_end_date(&self, year: i32) -> (r: Option<Date>)
        ensures
            r is Some <==> valid_ymd(year as int, self.end_month as int, self.end_day as int),
            r matches Some(d) ==> d@ == day_number(
                year as int,
                self.end_month as int,
                self.end_day as int,
            ),
    {
        Date::from_ymd_opt(year, self.end_month, self.end_day)
    }
}

#[verifier::external_type_specification]
#[verifier::external_body]
pub struct ExFnvHasher(FnvHasher);

#[verifier::external_type_specification]
#[verifier::external_body]
#[verifier::reject_recursive_types(H)]
pub struct ExBuildHasherDefault<H>(BuildHasherDefault<H>);

#[verifier::external_type_specification]
#[verifier::external_body]
pub struct ExChaCha8Rng(ChaCha8Rng);

/// An empty set of days, hashed with fnv.
pub fn new_day_set() -> (s: FnvHashSet<i32>)
    ensures
        s@ == Set::<i32>::empty(),
{
    FnvHashSet::default()
}

/// std's `HashSet::insert` on a set hashed with fnv. Claimed: the day is in
/// the set afterwards, and nothing else changed.
#[verifier::external_body]
pub(crate) fn day_set_insert(s: &mut FnvHashSet<i32>, day: i32)
    ensures
        final(s)@ == old(s)@.insert(day),
{
    s.insert(day);
}

/// std's `HashSet::contains` on a set hashed with fnv. Claimed: whether the
/// day is in the set.
#[verifier::external_body]
fn day_set_contains(s: &FnvHashSet<i32>, day: i32) -> (r: bool)
    ensures
        r == s@.contains(day),
{
    s.contains(&day)
}

/// The day that rand's `IndexedRandom::choose` picks from `days` with the
/// generator in state `rng` (a function of the two alone).
pub uninterp spec fn chosen_day(rng: ChaCha8Rng, days: Seq<i32>) -> Option<i32>;

/// The state of the generator after rand's `IndexedRandom::choose` picked
/// from `days` with the generator in state `rng`.
pub uninterp spec fn rng_after_choice(rng: ChaCha8Rng, days: Seq<i32>) -> ChaCha8Rng;

/// rand's `IndexedRandom::choose` on the days. Claimed: `None` exactly when
/// there are no days, else one of them; the day picked and the generator's
/// next state depend on the generator's state and the days alone. Which day
/// that is, is not stated.
#[verifier::external_body]
fn choose_day(rng: &mut ChaCha8Rng, days: &Vec<i32>) -> (r: Option<i32>)
    ensures
        r is None <==> days@.len() == 0,
        r matches Some(d) ==> days@.contains(d),
        r == chosen_day(*old(rng), days@),
        *final(rng) == rng_after_choice(*old(rng), days@),
{
    days.as_slice().choose(rng).copied()
}

/// Why a task's first day could not be set.
#[derive(Debug, PartialEq, Eq, Structural)]
pub enum FirstDayError {
    /// The date a period after the start date lies beyond the calendar.
    DateOutOfRange,
    /// The last day of the period does not fit an `i32`.
    Overflow,
    /// No day of the period is allowed for the task.
    NoPossibleDay,
}

/// Day `d` (counted from day number `start`) lies in the summer window of
/// year `y`.
pub open spec fn in_summer_of(start: int, y: int, d: int) -> bool {
    let w = summer_window_spec();
    day_number(y, w.start_month as int, w.start_day as int) - start <= d <= day_number(
        y,
        w.end_month as int,
        w.end_day as int,
    ) - start
}

/// Day `d` (counted from day number `start`) lies in the summer window of a
/// year from that of the start to that of the day `period` days later.
pub open spec fn in_summer_ranges(start: int, period: int, d: int) -> bool {
    exists|y: int| year_of(start) <= y <= year_of(start + period) && #[trigger] in_summer_of(start, y, d)
}

/// Day `d` (counted from day number `start`) is one on which a task that
/// was never done may be done first: within its period, shortened by the
/// days that the history covers (from day number `oldest`), and in summer
/// for a summer task.
pub open spec fn is_possible_first_day(season: Season, period: int, start: int, oldest: int, d: int) -> bool {
    &&& 1 <= d <= period - (start - oldest)
    &&& season == Season::Summer ==> in_summer_ranges(start, period, d)
}

/// What stops a task that was never done from getting a first day, if
/// anything: for a summer task, a period that ends beyond the calendar; a
/// last day of the period that does not fit an `i32`; or no possible day.
pub open spec fn first_day_fault(t: Task, start: int, oldest: int) -> Option<FirstDayError> {
    if t.season == Season::Summer && !(MIN_DAY <= start + t.period_days <= MAX_DAY) {
        Some(FirstDayError::DateOutOfRange)
    } else if !(i32::MIN <= t.period_days - (start - oldest) <= i32::MAX) {
        Some(FirstDayError::Overflow)
    } else if !(exists|d: i32| is_possible_first_day(t.season, t.period_days as int, start, oldest, d as int)) {
        Some(FirstDayError::NoPossibleDay)
    } else {
        None
    }
}

/// The possible first days `1..=n` of a task (see `is_possible_first_day`),
/// in increasing order.
pub open spec fn possible_days_upto(season: Season, period: int, start: int, oldest: int, n: int) -> Seq<i32>
    decreases n,
{
    if n <= 0 {
        Seq::<i32>::empty()
    } else {
        let p = possible_days_upto(season, period, start, oldest, n - 1);
        if is_possible_first_day(season, period, start, oldest, n) {
            p.push(n as i32)
        } else {
            p
        }
    }
}

/// The days of `days` that are not in `used`, in order.
pub open spec fn unused_days(days: Seq<i32>, used: Set<i32>) -> Seq<i32>
    decreases days.len(),
{
    if days.len() == 0 {
        Seq::<i32>::empty()
    } else {
        let u = unused_days(days.drop_last(), used);
        if used.contains(days.last()) {
            u
        } else {
            u.push(days.last())
        }
    }
}

/// A task as the scheduler handles it.
#[derive(Clone, Debug)]
pub struct Task {
    pub id: usize,
    pub instructions: String,
    pub period_days: i32,
    /// 1, 2, 3, 5, or 8
    pub effort: u8,
    pub season: Season,
    /// Days left before the task is due; a negative number means that it is
    /// overdue.
    pub days_until: i32,
    /// The task's slack, which combines `days_until` with the period so that
    /// shorter period tasks are prioritized more when overdue, and longer
    /// period tasks are prioritized when no tasks are due. Lower values mean
    /// the task is more overdue. The slack is a floating-point number that
    /// the caller computes; this field holds the integer whose order is that
    /// number's total order (`f32::total_cmp`).
    pub slack_key: i32,
    pub seen: bool,
}

/// The id of the "day off" task (and of holidays). No task of the task
/// sheet may use it.
pub const DAY_OFF_ID: usize = 0;

/// The fields of a task that a fresh task has besides those given.
pub open spec fn is_fresh(t: Task) -> bool {
    &&& t.effort == 0
    &&& t.season == Season::Any
    &&& t.slack_key == 0
    &&& !t.seen
}

/// The possible first days of a task that was never done, in increasing
/// order.
pub open spec fn possible_days(t: Task, start: int, oldest: int) -> Seq<i32> {
    possible_days_upto(t.season, t.period_days as int, start, oldest, t.period_days - (start - oldest))
}

/// The first day that a task that was never done gets, with the generator's
/// next state: the day picked among the possible days that are not used,
/// or, where all are used, among all possible days.
pub open spec fn first_day_choice(t: Task, used: Set<i32>, start: int, oldest: int, rng: ChaCha8Rng) -> (
    i32,
    ChaCha8Rng,
) {
    let p = possible_days(t, start, oldest);
    let u = unused_days(p, used);
    let next = rng_after_choice(rng, u);
    match chosen_day(rng, u) {
        Some(d) => (d, next),
        None => (
            match chosen_day(next, p) {
                Some(d) => d,
                None => 0,
            },
            rng_after_choice(next, p),
        ),
    }
}

impl Default for Task {
    fn default() -> (r: Task)
        ensures
            r.id == 0,
            r.instructions@ == Seq::<char>::empty(),
            r.period_days == 0,
            r.days_until == 0,
            is_fresh(r),
    {
        Task {
            id: 0,
            instructions: String::new(),
            period_days: 0,
            effort: 0,
            season: Season::Any,
            days_until: 0,
            slack_key: 0,
            seen: false,
        }
    }
}

impl Task {
    /// The days of the period on which a task without history may first be
    /// scheduled (see `is_possible_first_day`), in increasing order; or why they
    /// cannot be counted.
    fn possible_first_days(&self, oldest_date: Date, start_date: Date) -> (r: Result<Vec<i32>, FirstDayError>)
        ensures
            r matches Err(e) ==> Some(e) == first_day_fault(*self, start_date@, oldest_date@),
            r is Err ==> first_day_fault(*self, start_date@, oldest_date@) != Some(FirstDayError::NoPossibleDay),
            r is Ok ==> first_day_fault(*self, start_date@, oldest_date@) is None
                || first_day_fault(*self, start_date@, oldest_date@) == Some(FirstDayError::NoPossibleDay),
            r matches Ok(v) ==> v@ == possible_days(*self, start_date@, oldest_date@),
            r matches Ok(v) ==> forall|x: i32|
                #[trigger] v@.contains(x) <==> is_possible_first_day(
                    self.season,
                    self.period_days as int,
                    start_date@,
                    oldest_date@,
                    x as int,
                ),
    {
        let window = Season::summer_window();
        let summer = self.season == Season::Summer;
        let ghost start = start_date@;
        let ghost period = self.period_days as int;
        let mut ranges: Vec<(i32, i32)> = Vec::new();
        if summer {
            let max_date = match start_date.add_days(self.period_days as i64) {
                Some(d) => d,
                None => {
                    return Err(FirstDayError::DateOutOfRange);
                },
            };
            let y0 = start_date.year();
            let y1 = max_date.year();
            let mut y = y0;
            while y <= y1
                invariant
                    window == summer_window_spec(),
                    y0 == year_of(start),
                    y1 == year_of(start + period),
                    crate::calendar::MIN_YEAR <= y0,
                    y1 <= crate::calendar::MAX_YEAR,
                    y0 <= y,
                    y <= y1 + 1 || y == y0,
                    ranges.len() == y - y0,
                    start == start_date@,
                    forall|k: int|
                        0 <= k < ranges.len() ==> (#[trigger] ranges@[k]).0 == day_number(y0 + k, 5, 1)
                            - start && ranges@[k].1 == day_number(y0 + k, 8, 31) - start,
                decreases y1 + 1 - y,
            {
                let ws = match window.get_start_date(y) {
                    Some(d) => d,
                    None => {
                        proof {
                            assert(false);
                        }
                        return Err(FirstDayError::DateOutOfRange);
                    },
                };
                let we = match window.get_end_date(y) {
                    Some(d) => d,
                    None => {
                        proof {
                            assert(false);
                        }
                        return Err(FirstDayError::DateOutOfRange);
                    },
                };
                ranges.push((ws.days_since(&start_date), we.days_since(&start_date)));
                y += 1;
            }
            proof {
                assert forall|d: int| in_summer_ranges(start, period, d) <==> exists|k: int|
                    0 <= k < ranges.len() && (#[trigger] ranges@[k]).0 <= d <= ranges@[k].1 by {
                    if in_summer_ranges(start, period, d) {
                        let yy = choose|yy: int| year_of(start) <= yy <= year_of(start + period)
                            && #[trigger] in_summer_of(start, yy, d);
                        let k = yy - y0;
                        assert(ranges@[k].0 <= d <= ranges@[k].1);
                    }
                    if exists|k: int| 0 <= k < ranges.len() && (#[trigger] ranges@[k]).0 <= d <= ranges@[k].1 {
                        let k = choose|k: int| 0 <= k < ranges.len() && (#[trigger] ranges@[k]).0 <= d <= ranges@[k].1;
                        assert(in_summer_of(start, y0 + k, d));
                    }
                }
            }
        }
        let offset = start_date.days_since(&oldest_date);
        let last_wide: i64 = self.period_days as i64 - offset as i64;
        if last_wide < i32::MIN as i64 || last_wide > i32::MAX as i64 {
            return Err(FirstDayError::Overflow);
        }
        let last = last_wide as i32;
        let ghost season = self.season;
        let ghost oldest = oldest_date@;
        let mut possible: Vec<i32> = Vec::new();
        let mut d: i64 = 1;
        while d <= last as i64
            invariant
                1 <= d <= (if last >= 1 { last as i64 + 1 } else { 1 }),
                summer == (season == Season::Summer),
                summer ==> forall|e: int| in_summer_ranges(start, period, e) <==> exists|k: int|
                    0 <= k < ranges.len() && (#[trigger] ranges@[k]).0 <= e <= ranges@[k].1,
                last == period - (start - oldest),
                forall|x: i32| #[trigger] possible@.contains(x) ==> x < d && is_possible_first_day(season, period, start, oldest, x as int),
                forall|x: i32| 1 <= x < d && is_possible_first_day(season, period, start, oldest, x as int) ==> #[trigger] possible@.contains(x),
                possible@ == possible_days_upto(season, period, start, oldest, d - 1),
            decreases last as i64 + 1 - d,
        {
            let day = d as i32;
            let mut allowed = !summer;
            if summer {
                let mut k: usize = 0;
                while k < ranges.len()
                    invariant
                        k <= ranges.len(),
                        !allowed ==> forall|q: int| 0 <= q < k ==> !((#[trigger] ranges@[q]).0 <= day <= ranges@[q].1),
                        allowed ==> exists|q: int| 0 <= q < ranges.len() && (#[trigger] ranges@[q]).0 <= day <= ranges@[q].1,
                    decreases ranges.len() - k,
                {
                    if ranges[k].0 <= day && day <= ranges[k].1 {
                        allowed = true;
                    }
                    k += 1;
                }
            }
            assert(allowed == is_possible_first_day(season, period, start, oldest, day as int));
            if allowed {
                let ghost before_p = possible@;
                possible.push(day);
                proof {
                    assert forall|x: i32| #[trigger] possible@.contains(x) implies x < d + 1
                        && is_possible_first_day(season, period, start, oldest, x as int) by {
                        let w = choose|w: int| 0 <= w < possible@.len() && possible@[w] == x;
                        if w < before_p.len() {
                            assert(before_p[w] == x);
                            assert(before_p.contains(x));
                        }
                    }
                    assert forall|x: i32| 1 <= x < d + 1 && is_possible_first_day(season, period, start, oldest, x as int) implies #[trigger] possible@.contains(x) by {
                        if x == day {
                            assert(possible@[before_p.len() as int] == x);
                        } else {
                            assert(before_p.contains(x));
                            let w = choose|w: int| 0 <= w < before_p.len() && before_p[w] == x;
                            assert(possible@[w] == x);
                        }
                    }
                }
            }
            d += 1;
        }
        proof {
            assert forall|x: i32| is_possible_first_day(season, period, start, oldest, x as int) implies #[trigger] possible@.contains(x) by {
            }
            if possible@.len() > 0 {
                assert(possible@.contains(possible@[0]));
            }
        }
        Ok(possible)
    }

    /// What stops a task without history from getting a first day, if
    /// anything (see `first_day_fault`).
    pub fn first_day_check(&self, oldest_date: Date, start_date: Date) -> (r: Option<FirstDayError>)
        ensures
            r == first_day_fault(*self, start_date@, oldest_date@),
    {
        match self.possible_first_days(oldest_date, start_date) {
            Err(e) => Some(e),
            Ok(v) => {
                if v.len() == 0 {
                    proof {
                        assert forall|x: i32| !is_possible_first_day(
                            self.season,
                            self.period_days as int,
                            start_date@,
                            oldest_date@,
                            x as int,
                        ) by {
                            assert(!v@.contains(x));
                        }
                    }
                    Some(FirstDayError::NoPossibleDay)
                } else {
                    proof {
                        assert(v@.contains(v@[0]));
                    }
                    None
                }
            },
        }
    }

    /// Sets `days_until` for a task that was never done: a random day of its
    /// period on which no other task starts where there is one, else a random
    /// day of its period; the day is added to the used days. The task must
    /// have such a day (see `first_day_check`).
    pub fn set_days_until(
        &mut self,
        rng: &mut ChaCha8Rng,
        used_days: &mut FnvHashSet<i32>,
        oldest_date: Date,
        start_date: Date,
    )
        requires
            first_day_fault(*old(self), start_date@, oldest_date@) is None,
        ensures
            ({
                let d = final(self).days_until;
                &&& *final(self) == (Task { days_until: d, ..*old(self) })
                &&& is_possible_first_day(
                    old(self).season,
                    old(self).period_days as int,
                    start_date@,
                    oldest_date@,
                    d as int,
                )
                &&& (exists|e: i32|
                    is_possible_first_day(
                        old(self).season,
                        old(self).period_days as int,
                        start_date@,
                        oldest_date@,
                        e as int,
                    ) && !old(used_days)@.contains(e)) ==> !old(used_days)@.contains(d)
                &&& final(used_days)@ == old(used_days)@.insert(d)
            }),
            (final(self).days_until, *final(rng)) == first_day_choice(
                *old(self),
                old(used_days)@,
                start_date@,
                oldest_date@,
                *old(rng),
            ),
    {
        let possible = match self.possible_first_days(oldest_date, start_date) {
            Ok(v) => v,
            Err(_) => {
                assert(false);
                Vec::new()
            },
        };
        let ghost season = self.season;
        let ghost period = self.period_days as int;
        let ghost start = start_date@;
        let ghost oldest = oldest_date@;
        let mut unused: Vec<i32> = Vec::new();
        let mut k: usize = 0;
        while k < possible.len()
            invariant
                k <= possible.len(),
                forall|x: i32| #[trigger] unused@.contains(x) <==> (exists|q: int| 0 <= q < k && possible@[q] == x) && !used_days@.contains(x),
                unused@ == unused_days(possible@.subrange(0, k as int), used_days@),
            decreases possible.len() - k,
        {
            let day = possible[k];
            proof {
                let next = possible@.subrange(0, k + 1);
                assert(next.drop_last() =~= possible@.subrange(0, k as int));
                assert(next.last() == day);
            }
            let ghost before_u = unused@;
            if !day_set_contains(used_days, day) {
                unused.push(day);
            }
            proof {
                assert forall|x: i32| #[trigger] unused@.contains(x) <==> (exists|q: int| 0 <= q < k + 1 && possible@[q] == x) && !used_days@.contains(x) by {
                    if unused@.contains(x) {
                        let w = choose|w: int| 0 <= w < unused@.len() && unused@[w] == x;
                        if w < before_u.len() {
                            assert(before_u[w] == x);
                            assert(before_u.contains(x));
                        }
                    }
                    if (exists|q: int| 0 <= q < k + 1 && possible@[q] == x) && !used_days@.contains(x) {
                        let q = choose|q: int| 0 <= q < k + 1 && possible@[q] == x;
                        if q < k {
                            assert(before_u.contains(x));
                            let w = choose|w: int| 0 <= w < before_u.len() && before_u[w] == x;
                            assert(unused@[w] == x);
                        } else {
                            assert(unused@[before_u.len() as int] == x);
                        }
                    }
                }
            }
            k += 1;
        }
        proof {
            assert(possible@.subrange(0, possible@.len() as int) =~= possible@);
        }
        let day = match choose_day(rng, &unused) {
            Some(x) => x,
            None => match choose_day(rng, &possible) {
                Some(x) => x,
                None => {
                    proof {
                        let e = choose|e: i32| is_possible_first_day(season, period, start, oldest, e as int);
                        assert(possible@.contains(e));
                    }
                    0
                },
            },
        };
        proof {
            assert(possible@.contains(day)) by {
                if unused@.contains(day) {
                    let q = choose|q: int| 0 <= q < possible@.len() && possible@[q] == day;
                    assert(possible@[q] == day);
                }
            }
            if exists|e: i32| is_possible_first_day(season, period, start, oldest, e as int) && !used_days@.contains(e) {
                let e = choose|e: i32| is_possible_first_day(season, period, start, oldest, e as int) && !used_days@.contains(e);
                assert(possible@.contains(e));
                let q = choose|q: int| 0 <= q < possible@.len() && possible@[q] == e;
                assert(unused@.contains(e));
            }
        }
        self.days_until = day;
        day_set_insert(used_days, day);
    }

    /// A copy of the task.
    pub fn duplicate(&self) -> (r: Task)
        ensures
            r == *self,
    {
        Task {
            id: self.id,
            instructions: self.instructions.clone(),
            period_days: self.period_days,
            effort: self.effort,
            season: self.season,
            days_until: self.days_until,
            slack_key: self.slack_key,
            seen: self.seen,
        }
    }

    /// A task with the given id, period and days until it is due.
    pub fn new(id: usize, period_days: i32, days_until: i32) -> (r: Task)
        ensures
            r.id == id,
            r.instructions@ == Seq::<char>::empty(),
            r.period_days == period_days,
            r.days_until == days_until,
            is_fresh(r),
    {
        Task {
            id,
            instructions: String::new(),
            period_days,
            effort: 0,
            season: Season::Any,
            days_until,
            slack_key: 0,
            seen: false,
        }
    }

    /// The task with the given season.
    pub fn with_season(self, season: Season) -> (r: Task)
        ensures
            r == (Task { season, ..self }),
    {
        let mut task = self;
        task.season = season;
        task
    }

    /// The task with the given period.
    pub fn with_period(self, period_days: i32) -> (r: Task)
        ensures
            r == (Task { period_days, ..self }),
    {
        let mut task = self;
        task.period_days = period_days;
        task
    }

    /// The task that fills a day on which no other task is done.
    pub fn get_day_off_task() -> (r: Task)
        ensures
            r.id == DAY_OFF_ID,
            r.instructions@ == "Day off"@,
            r.period_days == 0,
            r.days_until == 0,
            is_fresh(r),
    {
        Task {
            id: DAY_OFF_ID,
            instructions: String::from_str("Day off"),
            period_days: 0,
            effort: 0,
            season: Season::Any,
            days_until: 0,
            slack_key: 0,
            seen: false,
        }
    }

    /// The task that fills a holiday.
    pub fn get_holiday_task() -> (r: Task)
        ensures
            r.id == DAY_OFF_ID,
            r.instructions@ == "Holiday"@,
            r.period_days == 0,
            r.days_until == 0,
            is_fresh(r),
    {
        let mut task = Task::get_day_off_task();
        task.instructions = String::from_str("Holiday");
        task
    }

    /// The task of a row of the task sheet.
    pub fn from_row(row: &TaskRow) -> (r: Task)
        ensures
            r == (Task {
                id: row.id,
                instructions: row.instructions,
                period_days: row.period_days,
                effort: row.effort,
                season: row.season,
                days_until: 0,
                slack_key: 0,
                seen: false,
            }),
    {
        Task {
            id: row.id,
            instructions: row.instructions.clone(),
            period_days: row.period_days,
            effort: row.effort,
            season: row.season,
            days_until: 0,
            slack_key: 0,
            seen: false,
        }
    }
}

/// A task of the final cleaning list.
#[derive(Clone, Debug)]
pub struct DatedTask {
    pub id: usize,
    pub do_date: Date,
    pub instructions: String,
    /// How many days until the task was due when it was put on the list
    pub days_until_when_added: i32,
}

impl DatedTask {
    /// The entry of the list for `task` on `do_date`.
    pub fn from_task(task: &Task, do_date: Date) -> (r: DatedTask)
        ensures
            r == (DatedTask {
                id: task.id,
                do_date,
                instructions: task.instructions,
                days_until_when_added: task.days_until,
            }),
    {
        DatedTask {
            id: task.id,
            do_date,
            instructions: task.instructions.clone(),
            days_until_when_added: task.days_until,
        }
    }
}

} // verus!
