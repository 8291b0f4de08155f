//! The rules that choose each day's task.
use vstd::prelude::*;
use crate::calendar::{Date, day_number, day_of, lemma_day_number_ordered, month_of, year_of};
use crate::effort::{EXTREME, HARD, MODERATE};
use crate::loader::{Season, summer_window_spec};
use crate::order::{comes_before, is_stable_order, key_lt, stable_order};
use crate::task::Task;

verus! {

/// The highest effort allowed on a day after a task of effort `prev_effort`:
/// high effort tasks are not done back to back.
pub open spec fn max_effort(prev_effort: u8) -> u8 {
    if prev_effort >= HARD {
        MODERATE
    } else {
        EXTREME
    }
}

pub open spec fn effort_allowed(t: Task, prev_effort: u8) -> bool {
    t.effort <= max_effort(prev_effort)
}

/// Day number `n` lies in the summer window of its year.
pub open spec fn in_summer(n: int) -> bool {
    summer_window_spec().holds(month_of(n), day_of(n))
}

/// The number of days from day number `n` to the last day of the summer
/// window of its year.
pub open spec fn summer_days_left(n: int) -> int {
    day_number(
        year_of(n),
        summer_window_spec().end_month as int,
        summer_window_spec().end_day as int,
    ) - n
}

/// A summer task that is due before the end of summer.
pub open spec fn due_in_summer(t: Task, days_left: int) -> bool {
    t.season == Season::Summer && t.days_until <= days_left
}

/// The key by which valid tasks are ordered on a summer day: summer tasks
/// that are due before the end of summer first, then by slack, then by
/// period.
pub open spec fn summer_key(t: Task, days_left: int) -> (i64, i64, i64) {
    (if due_in_summer(t, days_left) { 0 } else { 1 }, t.slack_key as i64, t.period_days as i64)
}

/// Task `i` comes before task `j` on a summer day with `days_left` days of
/// summer left: by `summer_key`, and then by position.
pub open spec fn summer_before(tasks: Seq<Task>, days_left: int, i: int, j: int) -> bool {
    key_lt(summer_key(tasks[i], days_left), summer_key(tasks[j], days_left)) || (summer_key(
        tasks[i],
        days_left,
    ) == summer_key(tasks[j], days_left) && i < j)
}

/// The task at position `q` of the list `v` of positions in `tasks`.
pub open spec fn task_of(tasks: Seq<Task>, v: Seq<usize>, q: int) -> Task {
    tasks[v[q] as int]
}

/// Task `a` has a lower slack than task `b`, or the same slack and a shorter
/// period.
pub open spec fn slack_lt(a: Task, b: Task) -> bool {
    a.slack_key < b.slack_key || (a.slack_key == b.slack_key && a.period_days < b.period_days)
}

/// Every entry of `v` is a position in `tasks`.
pub open spec fn positions_in(tasks: Seq<Task>, v: Seq<usize>) -> bool {
    forall|k: int| 0 <= k < v.len() ==> #[trigger] v[k] < tasks.len()
}

/// Entry `q` of `v` is a position in `tasks`.
pub open spec fn entry_in(tasks: Seq<Task>, v: Seq<usize>, q: usize) -> bool {
    v[q as int] < tasks.len()
}

/// The task at position `q` of the list `v` of positions in `tasks`.
pub open spec fn task_at(tasks: Seq<Task>, v: Seq<usize>, q: usize) -> Task {
    tasks[v[q as int] as int]
}

/// Position `p` of `v` holds the first of the tasks with the lowest slack
/// (and, among those, the shortest period), as `Iterator::min_by` finds it.
pub open spec fn is_lowest_slack_at(tasks: Seq<Task>, v: Seq<usize>, p: usize) -> bool {
    &&& p < v.len()
    &&& forall|q: usize| q < v.len() ==> !slack_lt(task_at(tasks, v, q), task_at(tasks, v, p))
    &&& forall|q: usize| q < p ==> slack_lt(task_at(tasks, v, p), task_at(tasks, v, q))
}

/// `v` is the list of the tasks that may be done on day number `date` after
/// a task of effort `prev_effort`:
///  - no task above the allowed effort;
///  - out of summer, no summer task, in the order of the tasks;
///  - in summer, the first `days_left + 1` tasks in the order of
///    `summer_before`, so that summer tasks due before the end of summer
///    come first.
pub open spec fn is_valid_task_list(tasks: Seq<Task>, date: int, prev_effort: u8, v: Seq<usize>) -> bool {
    &&& forall|k: int|
        0 <= k < v.len() ==> v[k] < tasks.len() && effort_allowed(
            #[trigger] task_of(tasks, v, k),
            prev_effort,
        )
    &&& if in_summer(date) {
        let dl = summer_days_left(date);
        &&& forall|a: int, b: int|
            0 <= a < b < v.len() ==> summer_before(tasks, dl, v[a] as int, v[b] as int)
        &&& v.len() <= dl + 1
        &&& forall|x: usize|
            x < tasks.len() && effort_allowed(tasks[x as int], prev_effort) && !v.contains(x)
                ==> v.len() == dl + 1 && forall|k: int|
                0 <= k < v.len() ==> summer_before(tasks, dl, #[trigger] v[k] as int, x as int)
    } else {
        &&& forall|a: int, b: int| 0 <= a < b < v.len() ==> v[a] < v[b]
        &&& forall|x: usize|
            #[trigger] v.contains(x) <==> (x < tasks.len() && effort_allowed(
                tasks[x as int],
                prev_effort,
            ) && tasks[x as int].season != Season::Summer)
    }
}

/// The tasks (by position) that may be done on `current_date` after a task
/// of effort `prev_effort`.
pub fn get_valid_tasks(tasks: &Vec<Task>, current_date: Date, prev_effort: u8) -> (r: Vec<usize>)
    ensures
        is_valid_task_list(tasks@, current_date@, prev_effort, r@),
{
    let effort_limit: u8 = if prev_effort >= HARD {
        MODERATE
    } else {
        EXTREME
    };
    let mut cand: Vec<usize> = Vec::new();
    let mut i: usize = 0;
    while i < tasks.len()
        invariant
            effort_limit == max_effort(prev_effort),
            i <= tasks.len(),
            forall|a: int, b: int| 0 <= a < b < cand.len() ==> cand@[a] < cand@[b],
            forall|k: int|
                0 <= k < cand.len() ==> #[trigger] cand@[k] < i && effort_allowed(
                    tasks@[cand@[k] as int],
                    prev_effort,
                ),
            forall|x: usize|
                x < i && effort_allowed(tasks@[x as int], prev_effort) ==> #[trigger] cand@.contains(
                    x,
                ),
        decreases tasks.len() - i,
    {
        if tasks[i].effort <= effort_limit {
            let ghost before = cand@;
            cand.push(i);
            proof {
                assert forall|x: usize|
                    x < i + 1 && effort_allowed(tasks@[x as int], prev_effort) implies #[trigger] cand@.contains(
                    x,
                ) by {
                    if x == i {
                        assert(cand@[before.len() as int] == x);
                    } else {
                        assert(before.contains(x));
                        let w = choose|w: int| 0 <= w < before.len() && before[w] == x;
                        assert(cand@[w] == x);
                    }
                }
            }
        }
        i += 1;
    }
    let window = Season::summer_window();
    if window.contains(current_date) {
        let (year, month, day) = current_date.ymd();
        let summer_end = match window.get_end_date(year) {
            Some(d) => d,
            None => {
                proof {
                    assert(false);
                }
                return Vec::new();
            },
        };
        proof {
            if month != 8 || day != 31 {
                lemma_day_number_ordered(year as int, month as int, day as int, year as int, 8, 31);
            }
        }
        let days_left = summer_end.days_since(&current_date);
        let ghost dl = days_left as int;
        assert(dl == summer_days_left(current_date@));
        assert(dl >= 0);
        let mut keys: Vec<(i64, i64, i64)> = Vec::new();
        let mut k: usize = 0;
        while k < cand.len()
            invariant
                k <= cand.len(),
                keys.len() == k,
                forall|a: int| 0 <= a < cand.len() ==> cand@[a] < tasks.len(),
                dl == days_left,
                forall|q: int|
                    0 <= q < k ==> #[trigger] keys@[q] == summer_key(tasks@[cand@[q] as int], dl),
            decreases cand.len() - k,
        {
            let t = &tasks[cand[k]];
            let first: i64 = if t.season == Season::Summer && t.days_until <= days_left {
                0
            } else {
                1
            };
            keys.push((first, t.slack_key as i64, t.period_days as i64));
            k += 1;
        }
        let perm = stable_order(&keys);
        let take: usize = if perm.len() <= days_left as usize {
            perm.len()
        } else {
            days_left as usize + 1
        };
        let mut result: Vec<usize> = Vec::new();
        let mut w: usize = 0;
        while w < take
            invariant
                take <= perm.len(),
                is_stable_order(keys@, perm@),
                keys.len() == cand.len(),
                w <= take,
                result.len() == w,
                forall|q: int| 0 <= q < w ==> #[trigger] result@[q] == cand@[perm@[q] as int],
            decreases take - w,
        {
            result.push(cand[perm[w]]);
            w += 1;
        }
        proof {
            assert forall|a: int, b: int| 0 <= a < cand.len() && 0 <= b < cand.len() && comes_before(
                keys@,
                a,
                b,
            ) implies summer_before(tasks@, dl, cand@[a] as int, cand@[b] as int) by {
                assert(keys@[a] == summer_key(tasks@[cand@[a] as int], dl));
                assert(keys@[b] == summer_key(tasks@[cand@[b] as int], dl));
                if a < b {
                    assert(cand@[a] < cand@[b]);
                }
            }
            assert forall|k: int| 0 <= k < result@.len() implies result@[k] < tasks.len()
                && effort_allowed(#[trigger] task_of(tasks@, result@, k), prev_effort) by {
                assert(result@[k] == cand@[perm@[k] as int]);
            }
            assert forall|a: int, b: int| 0 <= a < b < result@.len() implies summer_before(
                tasks@,
                dl,
                result@[a] as int,
                result@[b] as int,
            ) by {
                assert(result@[a] == cand@[perm@[a] as int]);
                assert(result@[b] == cand@[perm@[b] as int]);
                assert(comes_before(keys@, perm@[a] as int, perm@[b] as int));
            }
            assert forall|x: usize|
                x < tasks.len() && effort_allowed(tasks@[x as int], prev_effort)
                    && !result@.contains(x) implies result@.len() == dl + 1 && forall|k: int|
                0 <= k < result@.len() ==> summer_before(
                    tasks@,
                    dl,
                    #[trigger] result@[k] as int,
                    x as int,
                ) by {
                assert(cand@.contains(x));
                let p = choose|p: int| 0 <= p < cand.len() && cand@[p] == x;
                assert(perm@.contains(p as usize));
                let q = choose|q: int| 0 <= q < perm.len() && perm@[q] == p as usize;
                if q < take {
                    assert(result@[q] == x);
                    assert(false);
                }
                assert forall|k: int| 0 <= k < result@.len() implies summer_before(
                    tasks@,
                    dl,
                    #[trigger] result@[k] as int,
                    x as int,
                ) by {
                    assert(result@[k] == cand@[perm@[k] as int]);
                    assert(comes_before(keys@, perm@[k] as int, perm@[q] as int));
                }
            }
        }
        result
    } else {
        let mut result: Vec<usize> = Vec::new();
        let mut k: usize = 0;
        while k < cand.len()
            invariant
                k <= cand.len(),
                forall|a: int, b: int| 0 <= a < b < cand.len() ==> cand@[a] < cand@[b],
                forall|a: int|
                    0 <= a < cand.len() ==> #[trigger] cand@[a] < tasks.len() && effort_allowed(
                        tasks@[cand@[a] as int],
                        prev_effort,
                    ),
                forall|a: int, b: int| 0 <= a < b < result.len() ==> result@[a] < result@[b],
                forall|a: int| 0 <= a < result.len() ==> exists|c: int| 0 <= c < k && cand@[c] == #[trigger] result@[a],
                forall|x: usize|
                    #[trigger] result@.contains(x) ==> (x < tasks.len() && effort_allowed(
                        tasks@[x as int],
                        prev_effort,
                    ) && tasks@[x as int].season != Season::Summer),
                forall|c: int|
                    0 <= c < k && tasks@[cand@[c] as int].season != Season::Summer ==> result@.contains(
                        #[trigger] cand@[c],
                    ),
            decreases cand.len() - k,
        {
            let x = cand[k];
            if tasks[x].season != Season::Summer {
                let ghost before = result@;
                result.push(x);
                proof {
                    assert forall|a: int, b: int| 0 <= a < b < result.len() implies result@[a]
                        < result@[b] by {
                        if b == before.len() {
                            let c = choose|c: int| 0 <= c < k && cand@[c] == before[a];
                            assert(result@[a] == before[a]);
                        }
                    }
                    assert forall|x2: usize| #[trigger] result@.contains(x2) implies (x2
                        < tasks.len() && effort_allowed(tasks@[x2 as int], prev_effort)
                        && tasks@[x2 as int].season != Season::Summer) by {
                        let w = choose|w: int| 0 <= w < result.len() && result@[w] == x2;
                        if w < before.len() {
                            assert(before[w] == x2);
                            assert(before.contains(x2));
                        }
                    }
                    assert forall|c: int|
                        0 <= c < k + 1 && tasks@[cand@[c] as int].season
                            != Season::Summer implies result@.contains(#[trigger] cand@[c]) by {
                        if c == k {
                            assert(result@[before.len() as int] == x);
                        } else {
                            let w = choose|w: int| 0 <= w < before.len() && before[w] == cand@[c];
                            assert(result@[w] == cand@[c]);
                        }
                    }
                    assert forall|a: int| 0 <= a < result.len() implies exists|c: int|
                        0 <= c < k + 1 && cand@[c] == #[trigger] result@[a] by {
                        if a == before.len() {
                            assert(cand@[k as int] == result@[a]);
                        } else {
                            assert(result@[a] == before[a]);
                        }
                    }
                }
            }
            k += 1;
        }
        proof {
            assert forall|k2: int| 0 <= k2 < result@.len() implies result@[k2] < tasks.len()
                && effort_allowed(#[trigger] task_of(tasks@, result@, k2), prev_effort) by {
                assert(result@.contains(result@[k2]));
            }
            assert forall|x: usize|
                (x < tasks.len() && effort_allowed(tasks@[x as int], prev_effort) && tasks@[x as int].season
                    != Season::Summer) implies #[trigger] result@.contains(x) by {
                assert(cand@.contains(x));
                let c = choose|c: int| 0 <= c < cand.len() && cand@[c] == x;
            }
        }
        result
    }
}

} // verus!
