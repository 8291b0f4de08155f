//! The order of tasks by slack.
use vstd::prelude::*;
use core::cmp::Ordering;
use crate::generator::{entry_in, is_lowest_slack_at, positions_in, slack_lt, task_at};
use crate::task::Task;

verus! {

/// The order of two tasks by slack, then by period.
pub open spec fn slack_order(a: Task, b: Task) -> Ordering {
    if a.slack_key < b.slack_key {
        Ordering::Less
    } else if a.slack_key > b.slack_key {
        Ordering::Greater
    } else if a.period_days < b.period_days {
        Ordering::Less
    } else if a.period_days > b.period_days {
        Ordering::Greater
    } else {
        Ordering::Equal
    }
}

/// Orders two tasks by slack, then by period.
pub fn lowest_slack(a: &Task, b: &Task) -> (r: Ordering)
    ensures
        r == slack_order(*a, *b),
{
    if a.slack_key < b.slack_key {
        Ordering::Less
    } else if a.slack_key > b.slack_key {
        Ordering::Greater
    } else if a.period_days < b.period_days {
        Ordering::Less
    } else if a.period_days > b.period_days {
        Ordering::Greater
    } else {
        Ordering::Equal
    }
}

/// The position in `valid` of the first task with the lowest slack, if
/// `valid` is not empty.
pub fn lowest_slack_position(tasks: &Vec<Task>, valid: &Vec<usize>) -> (r: Option<usize>)
    requires
        positions_in(tasks@, valid@),
    ensures
        r is None <==> valid@.len() == 0,
        r matches Some(p) ==> is_lowest_slack_at(tasks@, valid@, p),
{
    if valid.len() == 0 {
        return None;
    }
    let mut best: usize = 0;
    let mut k: usize = 1;
    while k < valid.len()
        invariant
            positions_in(tasks@, valid@),
            best < k <= valid.len(),
            forall|q: usize| q < k ==> !slack_lt(task_at(tasks@, valid@, q), task_at(tasks@, valid@, best)),
            forall|q: usize| q < best ==> slack_lt(task_at(tasks@, valid@, best), task_at(tasks@, valid@, q)),
        decreases valid.len() - k,
    {
        assert(entry_in(tasks@, valid@, k));
        assert(entry_in(tasks@, valid@, best));
        match lowest_slack(&tasks[valid[best]], &tasks[valid[k]]) {
            Ordering::Greater => {
                best = k;
            },
            _ => {},
        }
        k += 1;
    }
    Some(best)
}

} // verus!
