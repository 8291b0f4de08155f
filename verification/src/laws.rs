//! Properties of the scheduler that hold for all inputs.
use vstd::prelude::*;
use crate::calendar::{
    day_number,
    is_calendar_day,
    is_ymd_of,
    lemma_day_number_ordered,
    lemma_ymd_of,
    valid_ymd,
    year_of,
    ymd_of,
};
use crate::effort::HARD;
use crate::generator::{
    due_in_summer,
    effort_allowed,
    in_summer,
    is_valid_task_list,
    summer_before,
    summer_days_left,
    is_lowest_slack_at,
    slack_lt,
    task_at,
    task_of,
};
use crate::order::{comes_before, is_stable_order};
use crate::loader::{Season, TaskRow, ids_increasing, kept_rows, lemma_kept_rows_contains};
use crate::loader::TaskLog;
use crate::schedule::{
    earliest_day,
    first_row_error,
    latest_day,
    latest_day_of,
    prepare_error,
    prepared_task,
    row_error,
    start_day,
    used_days_of,
};
use crate::task::{Task, in_summer_of, in_summer_ranges, is_possible_first_day};

verus! {

/// After a task of high effort, no task of high effort may be done on the
/// next day.
pub proof fn law_no_hard_tasks_back_to_back(
    tasks: Seq<Task>,
    date: int,
    prev_effort: u8,
    valid: Seq<usize>,
)
    requires
        prev_effort >= HARD,
        is_valid_task_list(tasks, date, prev_effort, valid),
    ensures
        forall|k: int| 0 <= k < valid.len() ==> #[trigger] task_of(tasks, valid, k).effort < HARD,
{
    assert forall|k: int| 0 <= k < valid.len() implies #[trigger] task_of(tasks, valid, k).effort
        < HARD by {
        assert(effort_allowed(task_of(tasks, valid, k), prev_effort));
    }
}

/// Summer tasks may only be done in the summer window (May 1 to
/// August 31).
pub proof fn law_summer_tasks_only_in_summer(
    tasks: Seq<Task>,
    date: int,
    prev_effort: u8,
    valid: Seq<usize>,
    k: int,
)
    requires
        is_valid_task_list(tasks, date, prev_effort, valid),
        0 <= k < valid.len(),
        task_of(tasks, valid, k).season == Season::Summer,
    ensures
        in_summer(date),
{
    if !in_summer(date) {
        assert(valid.contains(valid[k]));
    }
}

/// In summer, the summer tasks that are due before the end of summer come
/// first among the tasks that may be done, and none is left out unless the
/// list is full of such tasks: they all get done before summer ends
/// (holidays aside).
pub proof fn law_due_summer_tasks_first(
    tasks: Seq<Task>,
    date: int,
    prev_effort: u8,
    valid: Seq<usize>,
    x: usize,
)
    requires
        is_valid_task_list(tasks, date, prev_effort, valid),
        in_summer(date),
        x < tasks.len(),
        effort_allowed(tasks[x as int], prev_effort),
        due_in_summer(tasks[x as int], summer_days_left(date)),
    ensures
        valid.contains(x) || forall|k: int|
            0 <= k < valid.len() ==> due_in_summer(
                #[trigger] task_of(tasks, valid, k),
                summer_days_left(date),
            ),
        forall|a: int, b: int|
            0 <= a < b < valid.len() && due_in_summer(
                #[trigger] task_of(tasks, valid, b),
                summer_days_left(date),
            ) ==> due_in_summer(#[trigger] task_of(tasks, valid, a), summer_days_left(date)),
{
    let dl = summer_days_left(date);
    if !valid.contains(x) {
        assert forall|k: int| 0 <= k < valid.len() implies due_in_summer(
            #[trigger] task_of(tasks, valid, k),
            dl,
        ) by {
            assert(summer_before(tasks, dl, valid[k] as int, x as int));
        }
    }
    assert forall|a: int, b: int|
        0 <= a < b < valid.len() && due_in_summer(#[trigger] task_of(tasks, valid, b), dl) implies due_in_summer(
        #[trigger] task_of(tasks, valid, a),
        dl,
    ) by {
        assert(summer_before(tasks, dl, valid[a] as int, valid[b] as int));
    }
}

/// Two lists ordered by strictly increasing id that hold the same rows are
/// the same list.
proof fn lemma_sorted_same_rows(a: Seq<TaskRow>, b: Seq<TaskRow>)
    requires
        ids_increasing(a),
        ids_increasing(b),
        forall|x: TaskRow| a.contains(x) <==> b.contains(x),
    ensures
        a == b,
    decreases a.len(),
{
    if a.len() == 0 {
        if b.len() > 0 {
            assert(b.contains(b[0]));
        }
        assert(a =~= b);
    } else {
        let n = a.len() - 1;
        assert(a.contains(a[n]));
        let j = choose|j: int| 0 <= j < b.len() && b[j] == a[n];
        let m = b.len() - 1;
        assert(b.contains(b[m]));
        let i = choose|i: int| 0 <= i < a.len() && a[i] == b[m];
        if i < n {
            assert(a[i].id < a[n].id);
        }
        if j < m {
            assert(b[j].id < b[m].id);
        }
        assert(j == m);
        assert forall|x: TaskRow| a.drop_last().contains(x) <==> b.drop_last().contains(x) by {
            if a.drop_last().contains(x) {
                let p = choose|p: int| 0 <= p < n && a.drop_last()[p] == x;
                assert(a[p] == x);
                assert(a.contains(x));
                let q = choose|q: int| 0 <= q < b.len() && b[q] == x;
                if q == m {
                    assert(a[p].id < a[n].id);
                }
                assert(b.drop_last()[q] == x);
            }
            if b.drop_last().contains(x) {
                let q = choose|q: int| 0 <= q < m && b.drop_last()[q] == x;
                assert(b[q] == x);
                assert(b.contains(x));
                let p = choose|p: int| 0 <= p < a.len() && a[p] == x;
                if p == n {
                    assert(b[q].id < b[m].id);
                }
                assert(a.drop_last()[p] == x);
            }
        }
        lemma_sorted_same_rows(a.drop_last(), b.drop_last());
        assert(a =~= a.drop_last().push(a[n]));
        assert(b =~= b.drop_last().push(b[m]));
    }
}

/// The checked task list does not depend on the order of the rows in the
/// sheet: two sheets whose rows are the same up to order give the same
/// list (as `check_task_rows` gives it).
pub proof fn law_task_list_independent_of_row_order(
    rows1: Seq<TaskRow>,
    rows2: Seq<TaskRow>,
    tasks1: Seq<TaskRow>,
    tasks2: Seq<TaskRow>,
)
    requires
        rows1.to_multiset() == rows2.to_multiset(),
        tasks1.len() == kept_rows(rows1).len(),
        ids_increasing(tasks1),
        forall|x: TaskRow| tasks1.contains(x) <==> kept_rows(rows1).contains(x),
        tasks2.len() == kept_rows(rows2).len(),
        ids_increasing(tasks2),
        forall|x: TaskRow| tasks2.contains(x) <==> kept_rows(rows2).contains(x),
    ensures
        tasks1 == tasks2,
{
    broadcast use vstd::seq_lib::group_to_multiset_ensures;

    assert forall|x: TaskRow| tasks1.contains(x) <==> tasks2.contains(x) by {
        lemma_kept_rows_contains(rows1, x);
        lemma_kept_rows_contains(rows2, x);
        assert(rows1.contains(x) <==> rows1.to_multiset().count(x) > 0);
        assert(rows2.contains(x) <==> rows2.to_multiset().count(x) > 0);
        if kept_rows(rows1).contains(x) {
            let k = choose|k: int| 0 <= k < rows1.len() && rows1[k] == x && rows1[k].period_days != 0;
            assert(rows1.contains(x));
            let q = choose|q: int| 0 <= q < rows2.len() && rows2[q] == x;
            assert(kept_rows(rows2).contains(x));
        }
        if kept_rows(rows2).contains(x) {
            let k = choose|k: int| 0 <= k < rows2.len() && rows2[k] == x && rows2[k].period_days != 0;
            assert(rows2.contains(x));
            let q = choose|q: int| 0 <= q < rows1.len() && rows1[q] == x;
            assert(kept_rows(rows1).contains(x));
        }
    }
    lemma_sorted_same_rows(tasks1, tasks2);
}

/// The most recent day of the history is the day of one of its logs, and
/// no log is later.
proof fn lemma_latest_day(h: Seq<TaskLog>)
    ensures
        latest_day(h) is None <==> h.len() == 0,
        latest_day(h) matches Some(m) ==> (exists|k: int| 0 <= k < h.len() && h[k].date@ == m)
            && forall|k: int| 0 <= k < h.len() ==> h[k].date@ <= m,
    decreases h.len(),
{
    if h.len() > 0 {
        lemma_latest_day(h.drop_last());
        let n = h.len() - 1;
        assert forall|k: int| 0 <= k < n implies h[k] == h.drop_last()[k] by {}
        if let Some(m) = latest_day(h.drop_last()) {
            let k = choose|k: int| 0 <= k < n && h.drop_last()[k].date@ == m;
            assert(h[k].date@ == m);
        }
    }
}

/// The oldest day of the history is the day of one of its logs, and no log
/// is earlier.
proof fn lemma_earliest_day(h: Seq<TaskLog>)
    ensures
        earliest_day(h) is None <==> h.len() == 0,
        earliest_day(h) matches Some(m) ==> (exists|k: int| 0 <= k < h.len() && h[k].date@ == m)
            && forall|k: int| 0 <= k < h.len() ==> m <= h[k].date@,
    decreases h.len(),
{
    if h.len() > 0 {
        lemma_earliest_day(h.drop_last());
        let n = h.len() - 1;
        assert forall|k: int| 0 <= k < n implies h[k] == h.drop_last()[k] by {}
        if let Some(m) = earliest_day(h.drop_last()) {
            let k = choose|k: int| 0 <= k < n && h.drop_last()[k].date@ == m;
            assert(h[k].date@ == m);
        }
    }
}

/// The most recent day of task `id` is the day of one of its logs, and no
/// log of it is later.
proof fn lemma_latest_day_of(h: Seq<TaskLog>, id: usize)
    ensures
        latest_day_of(h, id) is None <==> !exists|k: int| 0 <= k < h.len() && h[k].id == id,
        latest_day_of(h, id) matches Some(m) ==> (exists|k: int|
            0 <= k < h.len() && h[k].id == id && h[k].date@ == m) && forall|k: int|
            0 <= k < h.len() && h[k].id == id ==> h[k].date@ <= m,
    decreases h.len(),
{
    if h.len() > 0 {
        lemma_latest_day_of(h.drop_last(), id);
        let n = h.len() - 1;
        assert forall|k: int| 0 <= k < n implies h[k] == h.drop_last()[k] by {}
        if let Some(m) = latest_day_of(h.drop_last(), id) {
            let k = choose|k: int| 0 <= k < n && h.drop_last()[k].id == id && h.drop_last()[k].date@ == m;
            assert(h[k].id == id && h[k].date@ == m);
        }
        if exists|k: int| 0 <= k < n && h[k].id == id {
            let k = choose|k: int| 0 <= k < n && h[k].id == id;
            assert(h.drop_last()[k].id == id);
        }
    }
}

/// Two histories that hold the same logs have the same most recent and
/// oldest days, overall and of each task.
proof fn lemma_same_logs_same_days(h1: Seq<TaskLog>, h2: Seq<TaskLog>)
    requires
        forall|x: TaskLog| h1.contains(x) <==> h2.contains(x),
    ensures
        latest_day(h1) == latest_day(h2),
        earliest_day(h1) == earliest_day(h2),
        forall|id: usize| #[trigger] latest_day_of(h1, id) == latest_day_of(h2, id),
{
    lemma_latest_day(h1);
    lemma_latest_day(h2);
    lemma_earliest_day(h1);
    lemma_earliest_day(h2);
    if h1.len() > 0 {
        assert(h1.contains(h1[0]));
    }
    if h2.len() > 0 {
        assert(h2.contains(h2[0]));
    }
    if let (Some(m1), Some(m2)) = (latest_day(h1), latest_day(h2)) {
        let k1 = choose|k: int| 0 <= k < h1.len() && h1[k].date@ == m1;
        assert(h1.contains(h1[k1]));
        let q1 = choose|q: int| 0 <= q < h2.len() && h2[q] == h1[k1];
        let k2 = choose|k: int| 0 <= k < h2.len() && h2[k].date@ == m2;
        assert(h2.contains(h2[k2]));
        let q2 = choose|q: int| 0 <= q < h1.len() && h1[q] == h2[k2];
        assert(h2[q1].date@ <= m2);
        assert(h1[q2].date@ <= m1);
    }
    if let (Some(m1), Some(m2)) = (earliest_day(h1), earliest_day(h2)) {
        let k1 = choose|k: int| 0 <= k < h1.len() && h1[k].date@ == m1;
        assert(h1.contains(h1[k1]));
        let q1 = choose|q: int| 0 <= q < h2.len() && h2[q] == h1[k1];
        let k2 = choose|k: int| 0 <= k < h2.len() && h2[k].date@ == m2;
        assert(h2.contains(h2[k2]));
        let q2 = choose|q: int| 0 <= q < h1.len() && h1[q] == h2[k2];
        assert(m2 <= h2[q1].date@);
        assert(m1 <= h1[q2].date@);
    }
    assert forall|id: usize| #[trigger] latest_day_of(h1, id) == latest_day_of(h2, id) by {
        lemma_latest_day_of(h1, id);
        lemma_latest_day_of(h2, id);
        if exists|k: int| 0 <= k < h1.len() && h1[k].id == id {
            let k = choose|k: int| 0 <= k < h1.len() && h1[k].id == id;
            assert(h1.contains(h1[k]));
            let q = choose|q: int| 0 <= q < h2.len() && h2[q] == h1[k];
            assert(h2[q].id == id);
        }
        if exists|k: int| 0 <= k < h2.len() && h2[k].id == id {
            let k = choose|k: int| 0 <= k < h2.len() && h2[k].id == id;
            assert(h2.contains(h2[k]));
            let q = choose|q: int| 0 <= q < h1.len() && h1[q] == h2[k];
            assert(h1[q].id == id);
        }
        if let (Some(m1), Some(m2)) = (latest_day_of(h1, id), latest_day_of(h2, id)) {
            let k1 = choose|k: int| 0 <= k < h1.len() && h1[k].id == id && h1[k].date@ == m1;
            assert(h1.contains(h1[k1]));
            let q1 = choose|q: int| 0 <= q < h2.len() && h2[q] == h1[k1];
            let k2 = choose|k: int| 0 <= k < h2.len() && h2[k].id == id && h2[k].date@ == m2;
            assert(h2.contains(h2[k2]));
            let q2 = choose|q: int| 0 <= q < h1.len() && h1[q] == h2[k2];
            assert(h2[q1].date@ <= m2);
            assert(h1[q2].date@ <= m1);
        }
    }
}

proof fn lemma_same_first_row_error(rows: Seq<TaskRow>, h1: Seq<TaskLog>, h2: Seq<TaskLog>, start: int)
    requires
        forall|id: usize| #[trigger] latest_day_of(h1, id) == latest_day_of(h2, id),
    ensures
        first_row_error(rows, h1, start) == first_row_error(rows, h2, start),
    decreases rows.len(),
{
    if rows.len() > 0 {
        lemma_same_first_row_error(rows.drop_last(), h1, h2, start);
        assert(latest_day_of(h1, rows.last().id) == latest_day_of(h2, rows.last().id));
    }
}

/// The plan does not depend on the order of the logs of the history: two
/// histories that are the same up to order are refused alike, and
/// otherwise give the same start, the same oldest day and the same tasks
/// (the end is December 31 of the year in both).
pub proof fn law_plan_independent_of_history_order(
    rows: Seq<TaskRow>,
    h1: Seq<TaskLog>,
    h2: Seq<TaskLog>,
    year: int,
)
    requires
        h1.to_multiset() == h2.to_multiset(),
    ensures
        prepare_error(rows, h1, year) == prepare_error(rows, h2, year),
        start_day(h1, year) == start_day(h2, year),
        earliest_day(h1) == earliest_day(h2),
        forall|row: TaskRow, s: int| #[trigger] prepared_task(row, h1, s) == prepared_task(row, h2, s),
{
    broadcast use vstd::seq_lib::group_to_multiset_ensures;

    assert forall|x: TaskLog| h1.contains(x) <==> h2.contains(x) by {
        assert(h1.contains(x) <==> h1.to_multiset().count(x) > 0);
        assert(h2.contains(x) <==> h2.to_multiset().count(x) > 0);
    }
    lemma_same_logs_same_days(h1, h2);
    if let Some(s) = start_day(h1, year) {
        lemma_same_first_row_error(rows, h1, h2, s);
    }
    assert forall|row: TaskRow, s: int| #[trigger] prepared_task(row, h1, s) == prepared_task(row, h2, s) by {
        assert(latest_day_of(h1, row.id) == latest_day_of(h2, row.id));
    }
}

/// The order of the valid tasks on day number `date`: on a summer day that
/// of `summer_before`, else that of the positions.
spec fn valid_order(tasks: Seq<Task>, date: int, i: int, j: int) -> bool {
    if in_summer(date) {
        summer_before(tasks, summer_days_left(date), i, j)
    } else {
        i < j
    }
}

proof fn lemma_valid_list_sorted(tasks: Seq<Task>, date: int, prev_effort: u8, v: Seq<usize>)
    requires
        is_valid_task_list(tasks, date, prev_effort, v),
    ensures
        forall|a: int, b: int| 0 <= a < b < v.len() ==> valid_order(tasks, date, v[a] as int, v[b] as int),
        forall|i: int, j: int| !(valid_order(tasks, date, i, j) && valid_order(tasks, date, j, i)),
        forall|i: int, j: int| i != j ==> valid_order(tasks, date, i, j) || valid_order(tasks, date, j, i),
{
}

/// Where two valid lists agree before position `k`, the entry of the first
/// at `k` does not come before that of the second.
proof fn lemma_valid_entry_not_before(
    tasks: Seq<Task>,
    date: int,
    prev_effort: u8,
    v1: Seq<usize>,
    v2: Seq<usize>,
    k: int,
)
    requires
        is_valid_task_list(tasks, date, prev_effort, v1),
        is_valid_task_list(tasks, date, prev_effort, v2),
        0 <= k < v1.len(),
        k < v2.len(),
        forall|q: int| 0 <= q < k ==> v1[q] == v2[q],
    ensures
        !valid_order(tasks, date, v1[k] as int, v2[k] as int),
{
    lemma_valid_list_sorted(tasks, date, prev_effort, v1);
    lemma_valid_list_sorted(tasks, date, prev_effort, v2);
    let a = v1[k];
    let b = v2[k];
    if valid_order(tasks, date, a as int, b as int) {
        assert(task_of(tasks, v1, k) == tasks[a as int]);
        assert(effort_allowed(task_of(tasks, v1, k), prev_effort));
        if v2.contains(a) {
            let p = choose|p: int| 0 <= p < v2.len() && v2[p] == a;
            if p < k {
                assert(v1[p] == a);
                assert(valid_order(tasks, date, v1[p] as int, v1[k] as int));
            } else if p > k {
                assert(valid_order(tasks, date, v2[k] as int, v2[p] as int));
            }
        } else if in_summer(date) {
            assert(summer_before(tasks, summer_days_left(date), v2[k] as int, a as int));
        } else {
            assert(v1.contains(a));
        }
    }
}

/// Where the first valid list is shorter, the second holds no more
/// entries: both lists have the same length where they agree.
proof fn lemma_valid_list_not_longer(
    tasks: Seq<Task>,
    date: int,
    prev_effort: u8,
    v1: Seq<usize>,
    v2: Seq<usize>,
)
    requires
        is_valid_task_list(tasks, date, prev_effort, v1),
        is_valid_task_list(tasks, date, prev_effort, v2),
        v1.len() <= v2.len(),
        forall|q: int| 0 <= q < v1.len() ==> v1[q] == v2[q],
    ensures
        v1.len() == v2.len(),
{
    lemma_valid_list_sorted(tasks, date, prev_effort, v2);
    if v1.len() < v2.len() {
        let n = v1.len() as int;
        let x = v2[n];
        assert(task_of(tasks, v2, n) == tasks[x as int]);
        assert(effort_allowed(task_of(tasks, v2, n), prev_effort));
        if v1.contains(x) {
            let p = choose|p: int| 0 <= p < v1.len() && v1[p] == x;
            assert(v2[p] == x);
            assert(valid_order(tasks, date, v2[p] as int, v2[n] as int));
        } else if !in_summer(date) {
            assert(v2.contains(x));
        }
    }
}

/// The list of the tasks that may be done on a day is unique: the tasks
/// and the effort of the day before decide it, so the task that
/// `Schedule::plan_day` picks is decided by the schedule and the day alone.
pub proof fn law_valid_task_list_unique(
    tasks: Seq<Task>,
    date: int,
    prev_effort: u8,
    v1: Seq<usize>,
    v2: Seq<usize>,
)
    requires
        is_valid_task_list(tasks, date, prev_effort, v1),
        is_valid_task_list(tasks, date, prev_effort, v2),
    ensures
        v1 == v2,
{
    lemma_valid_prefix_equal(tasks, date, prev_effort, v1, v2, if v1.len() <= v2.len() {
        v1.len() as int
    } else {
        v2.len() as int
    });
    if v1.len() <= v2.len() {
        lemma_valid_list_not_longer(tasks, date, prev_effort, v1, v2);
    } else {
        lemma_valid_list_not_longer(tasks, date, prev_effort, v2, v1);
    }
    assert(v1 =~= v2);
}

proof fn lemma_valid_prefix_equal(
    tasks: Seq<Task>,
    date: int,
    prev_effort: u8,
    v1: Seq<usize>,
    v2: Seq<usize>,
    k: int,
)
    requires
        is_valid_task_list(tasks, date, prev_effort, v1),
        is_valid_task_list(tasks, date, prev_effort, v2),
        0 <= k <= v1.len(),
        k <= v2.len(),
    ensures
        forall|q: int| 0 <= q < k ==> v1[q] == v2[q],
    decreases k,
{
    if k > 0 {
        lemma_valid_prefix_equal(tasks, date, prev_effort, v1, v2, k - 1);
        lemma_valid_list_sorted(tasks, date, prev_effort, v1);
        lemma_valid_entry_not_before(tasks, date, prev_effort, v1, v2, k - 1);
        lemma_valid_entry_not_before(tasks, date, prev_effort, v2, v1, k - 1);
    }
}

/// The position of the task of lowest slack is unique.
pub proof fn law_lowest_slack_unique(tasks: Seq<Task>, v: Seq<usize>, p1: usize, p2: usize)
    requires
        is_lowest_slack_at(tasks, v, p1),
        is_lowest_slack_at(tasks, v, p2),
    ensures
        p1 == p2,
{
    if p1 < p2 {
        assert(slack_lt(task_at(tasks, v, p2), task_at(tasks, v, p1)));
    } else if p2 < p1 {
        assert(slack_lt(task_at(tasks, v, p1), task_at(tasks, v, p2)));
    }
}

/// The stable order of the items by their keys is unique, so the order
/// that `Plan::order_tasks` gives the tasks is decided by the tasks alone.
pub proof fn law_stable_order_unique(keys: Seq<(i64, i64, i64)>, p1: Seq<usize>, p2: Seq<usize>)
    requires
        is_stable_order(keys, p1),
        is_stable_order(keys, p2),
    ensures
        p1 == p2,
{
    lemma_stable_prefix_equal(keys, p1, p2, p1.len() as int);
    assert(p1 =~= p2);
}

proof fn lemma_stable_prefix_equal(keys: Seq<(i64, i64, i64)>, p1: Seq<usize>, p2: Seq<usize>, k: int)
    requires
        is_stable_order(keys, p1),
        is_stable_order(keys, p2),
        0 <= k <= p1.len(),
    ensures
        forall|q: int| 0 <= q < k ==> p1[q] == p2[q],
    decreases k,
{
    if k > 0 {
        lemma_stable_prefix_equal(keys, p1, p2, k - 1);
        let j = k - 1;
        let a = p1[j];
        let b = p2[j];
        if a != b {
            assert(p2.contains(a));
            let p = choose|p: int| 0 <= p < p2.len() && p2[p] == a;
            assert(p1.contains(b));
            let q = choose|q: int| 0 <= q < p1.len() && p1[q] == b;
            if p < j {
                assert(p1[p] == a);
                assert(comes_before(keys, p1[p] as int, p1[j] as int));
            }
            if q < j {
                assert(p2[q] == b);
                assert(comes_before(keys, p2[q] as int, p2[j] as int));
            }
            assert(comes_before(keys, p2[j] as int, p2[p] as int));
            assert(comes_before(keys, p1[j] as int, p1[q] as int));
        }
    }
}

/// On a summer day, a summer task that is not due before the end of summer
/// (more days until it is due than days are left until August 31) gets no
/// place ahead of other tasks: a task after it in the list is not due in
/// summer either and does not have a lower slack; and a task that is left
/// out of the list neither is due in summer nor has a lower slack.
pub proof fn law_summer_tasks_not_due_keep_their_slack_rank(
    tasks: Seq<Task>,
    date: int,
    prev_effort: u8,
    v: Seq<usize>,
    a: int,
)
    requires
        is_valid_task_list(tasks, date, prev_effort, v),
        in_summer(date),
        0 <= a < v.len(),
        task_of(tasks, v, a).season == Season::Summer,
        task_of(tasks, v, a).days_until > summer_days_left(date),
    ensures
        forall|b: int|
            a < b < v.len() ==> !(#[trigger] task_of(tasks, v, b).season == Season::Summer
                && task_of(tasks, v, b).days_until <= summer_days_left(date)) && !slack_lt(
                task_of(tasks, v, b),
                task_of(tasks, v, a),
            ),
        forall|x: usize|
            x < tasks.len() && effort_allowed(tasks[x as int], prev_effort) && !v.contains(x)
                ==> !(tasks[x as int].season == Season::Summer && tasks[x as int].days_until
                <= summer_days_left(date)) && !slack_lt(#[trigger] tasks[x as int], task_of(tasks, v, a)),
{
    let dl = summer_days_left(date);
    assert forall|b: int| a < b < v.len() implies !(#[trigger] task_of(tasks, v, b).season
        == Season::Summer && task_of(tasks, v, b).days_until <= dl) && !slack_lt(
        task_of(tasks, v, b),
        task_of(tasks, v, a),
    ) by {
        assert(summer_before(tasks, dl, v[a] as int, v[b] as int));
    }
    assert forall|x: usize|
        x < tasks.len() && effort_allowed(tasks[x as int], prev_effort) && !v.contains(x) implies !(
        tasks[x as int].season == Season::Summer && tasks[x as int].days_until <= dl) && !slack_lt(
        #[trigger] tasks[x as int],
        task_of(tasks, v, a),
    ) by {
        assert(summer_before(tasks, dl, v[a] as int, x as int));
    }
}

/// The summer days left on day `n` are the days from `n` to August 31 of
/// its year: `n` plus that number is August 31 of the same year, and on a
/// summer day the number is not negative.
pub proof fn law_summer_days_left_reach_august_31(n: int)
    requires
        is_calendar_day(n),
    ensures
        ymd_of(n + summer_days_left(n)) == (year_of(n), 8int, 31int),
        in_summer(n) ==> summer_days_left(n) >= 0,
{
    let t = choose|t: (int, int, int)| is_ymd_of(n, t);
    lemma_ymd_of(n, t);
    let y = t.0;
    assert(valid_ymd(y, 8, 31));
    lemma_ymd_of(day_number(y, 8, 31), (y, 8, 31));
    if in_summer(n) && !(t.1 == 8 && t.2 == 31) {
        lemma_day_number_ordered(t.0, t.1, t.2, y, 8, 31);
    }
}

/// On a summer day the list of valid tasks is cut only where fewer days are
/// left until August 31 than there are allowed tasks: it holds at most one
/// task more than the days left, and it leaves an allowed task out only
/// where it is that full.
pub proof fn law_summer_list_cut_at_august_31(tasks: Seq<Task>, date: int, prev_effort: u8, v: Seq<usize>)
    requires
        is_valid_task_list(tasks, date, prev_effort, v),
        in_summer(date),
        is_calendar_day(date),
    ensures
        ymd_of(date + summer_days_left(date)) == (year_of(date), 8int, 31int),
        v.len() <= summer_days_left(date) + 1,
        forall|x: usize|
            x < tasks.len() && effort_allowed(tasks[x as int], prev_effort) && !(#[trigger] v.contains(x))
                ==> v.len() == summer_days_left(date) + 1,
{
    law_summer_days_left_reach_august_31(date);
}

/// Later days do not have earlier years.
proof fn lemma_year_of_monotone(n1: int, n2: int)
    requires
        is_calendar_day(n1),
        is_calendar_day(n2),
        n1 <= n2,
    ensures
        year_of(n1) <= year_of(n2),
{
    let t1 = choose|t: (int, int, int)| is_ymd_of(n1, t);
    let t2 = choose|t: (int, int, int)| is_ymd_of(n2, t);
    lemma_ymd_of(n1, t1);
    lemma_ymd_of(n2, t2);
    if t1.0 > t2.0 {
        lemma_day_number_ordered(t2.0, t2.1, t2.2, t1.0, t1.1, t1.2);
    }
}

/// A summer task that was never done may first be done on any day of its
/// period (shortened by the days the history covers) that falls in the
/// summer window, May 1 to August 31, of any year: also in a later year
/// than that of the start, as long as the day lies within the period.
pub proof fn law_summer_days_of_the_period_are_possible_first_days(
    period: int,
    start: int,
    oldest: int,
    d: int,
)
    requires
        1 <= d <= period - (start - oldest),
        d <= period,
        is_calendar_day(start),
        is_calendar_day(start + d),
        is_calendar_day(start + period),
        in_summer(start + d),
    ensures
        is_possible_first_day(Season::Summer, period, start, oldest, d),
{
    let n = start + d;
    let t = choose|t: (int, int, int)| is_ymd_of(n, t);
    lemma_ymd_of(n, t);
    let y = t.0;
    assert(valid_ymd(y, 5, 1));
    assert(valid_ymd(y, 8, 31));
    if !(t.1 == 5 && t.2 == 1) {
        lemma_day_number_ordered(y, 5, 1, t.0, t.1, t.2);
    }
    if !(t.1 == 8 && t.2 == 31) {
        lemma_day_number_ordered(t.0, t.1, t.2, y, 8, 31);
    }
    assert(in_summer_of(start, y, d));
    lemma_year_of_monotone(start, n);
    lemma_year_of_monotone(n, start + period);
    assert(in_summer_ranges(start, period, d));
}

/// Every task that was done (it has a log in the history) is marked as
/// done before, whether or not it is overdue: it is due its period after
/// the day of its most recent log, which may lie in the past, and that day
/// is one of the used days of the plan.
pub proof fn law_done_tasks_are_seen(rows: Seq<TaskRow>, h: Seq<TaskLog>, start: int, k: int)
    requires
        0 <= k < rows.len(),
        exists|j: int| 0 <= j < h.len() && h[j].id == rows[k].id,
        row_error(rows[k], h, start) is None,
    ensures
        prepared_task(rows[k], h, start).seen,
        exists|j: int|
            0 <= j < h.len() && h[j].id == rows[k].id && prepared_task(rows[k], h, start).days_until
                == rows[k].period_days - (start - h[j].date@) && forall|i: int|
                0 <= i < h.len() && h[i].id == rows[k].id ==> h[i].date@ <= h[j].date@,
        used_days_of(Seq::new(rows.len(), |i: int| prepared_task(rows[i], h, start))).contains(
            prepared_task(rows[k], h, start).days_until,
        ),
{
    lemma_latest_day_of(h, rows[k].id);
    let tasks = Seq::new(rows.len(), |i: int| prepared_task(rows[i], h, start));
    assert(tasks[k] == prepared_task(rows[k], h, start));
}

/// A valid year, month and day is the date of its own day number, and the
/// day number of the date of a day is that day.
pub proof fn law_calendar_round_trip(y: int, m: int, d: int)
    requires
        valid_ymd(y, m, d),
    ensures
        ymd_of(day_number(y, m, d)) == (y, m, d),
{
    lemma_ymd_of(day_number(y, m, d), (y, m, d));
}

} // verus!
