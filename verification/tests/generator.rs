use std::cmp::Ordering;

use sidera_task::calendar::Date;
use sidera_task::effort::{EXTREME, HARD, MODERATE};
use sidera_task::generator::get_valid_tasks;
use sidera_task::loader::Season;
use sidera_task::slack::{lowest_slack, lowest_slack_position};
use sidera_task::task::Task;

/// The slack of a task (signed squared days until due, weighted by the
/// period to the power 1.5), as the key that orders it like `f32::total_cmp`.
fn slack_key(days_until: i32, period_days: i32) -> i32 {
    let weight = 1.0 / (period_days as f32).powf(1.5);
    let signed_sq_err = days_until as f32 * (days_until as f32).abs();
    let slack = signed_sq_err * weight;
    let bits = slack.to_bits() as i32;
    bits ^ ((((bits >> 31) as u32) >> 1) as i32)
}

fn update_slack(task: &mut Task) {
    task.slack_key = slack_key(task.days_until, task.period_days);
}

fn ymd(year: i32, month: u32, day: u32) -> Date {
    Date::from_ymd_opt(year, month, day).unwrap()
}

fn ids_of(tasks: &[Task], valid: &[usize]) -> Vec<usize> {
    valid.iter().map(|&i| tasks[i].id).collect()
}

fn with_effort(mut task: Task, effort: u8) -> Task {
    task.effort = effort;
    task
}

#[test]
fn urgent_summer_tasks() {
    let mut tasks = vec![
        Task::new(1, 365, 2).with_season(Season::Summer),
        Task::new(2, 7, 3).with_season(Season::Summer),
        Task::new(3, 10, 0),
        Task::new(4, 7, -1),
        Task::new(5, 12, 0),
    ];

    tasks.iter_mut().for_each(update_slack);

    // 4 days of summer left
    let summer_end = Season::summer_window().get_end_date(2026).unwrap();
    let current_date = summer_end.add_days(-3).unwrap();

    let valid_tasks = get_valid_tasks(&tasks, current_date, 0);
    let ids = ids_of(&tasks, &valid_tasks);

    // Since there are only 4 days of summer left, valid_tasks should include the 2 summer tasks
    // even though they have higher slack (they are due before end of summer) and it should only
    // include 2 other tasks (2+2=4).
    assert_eq!(&ids, &[1, 2, 4, 3]);
}

#[test]
fn summer_tasks_are_left_out_of_summer() {
    let mut tasks = vec![
        Task::new(1, 30, -5).with_season(Season::Summer),
        Task::new(2, 7, 3),
        Task::new(3, 10, 0),
    ];
    tasks.iter_mut().for_each(update_slack);
    let valid = get_valid_tasks(&tasks, ymd(2026, 3, 10), 0);
    assert_eq!(ids_of(&tasks, &valid), vec![2, 3]);
    let valid = get_valid_tasks(&tasks, ymd(2026, 9, 1), 0);
    assert_eq!(ids_of(&tasks, &valid), vec![2, 3]);
    let valid = get_valid_tasks(&tasks, ymd(2026, 4, 30), 0);
    assert_eq!(ids_of(&tasks, &valid), vec![2, 3]);
}

#[test]
fn summer_tasks_are_valid_in_summer() {
    let mut tasks = vec![
        Task::new(1, 30, -5).with_season(Season::Summer),
        Task::new(2, 7, 3),
        Task::new(3, 10, 0),
    ];
    tasks.iter_mut().for_each(update_slack);
    // On the first day of summer every task fits in the days that are left;
    // the overdue summer task comes first, then the others by slack.
    let valid = get_valid_tasks(&tasks, ymd(2026, 5, 1), 0);
    assert_eq!(ids_of(&tasks, &valid), vec![1, 3, 2]);
    // On the last day of summer only one task is left.
    let valid = get_valid_tasks(&tasks, ymd(2026, 8, 31), 0);
    assert_eq!(ids_of(&tasks, &valid), vec![1]);
}

#[test]
fn no_hard_tasks_back_to_back() {
    let tasks = vec![
        with_effort(Task::new(1, 7, 0), EXTREME),
        with_effort(Task::new(2, 7, 0), HARD),
        with_effort(Task::new(3, 7, 0), MODERATE),
        with_effort(Task::new(4, 7, 0), 1),
    ];
    let day = ymd(2026, 2, 2);
    assert_eq!(ids_of(&tasks, &get_valid_tasks(&tasks, day, 0)), vec![1, 2, 3, 4]);
    assert_eq!(ids_of(&tasks, &get_valid_tasks(&tasks, day, MODERATE)), vec![1, 2, 3, 4]);
    assert_eq!(ids_of(&tasks, &get_valid_tasks(&tasks, day, HARD)), vec![3, 4]);
    assert_eq!(ids_of(&tasks, &get_valid_tasks(&tasks, day, EXTREME)), vec![3, 4]);
    // an effort above the scale is never valid
    let tasks = vec![with_effort(Task::new(1, 7, 0), 9)];
    assert!(get_valid_tasks(&tasks, day, 0).is_empty());
}

#[test]
fn lowest_slack_orders_by_slack_then_period() {
    let mut a = Task::new(1, 7, 0);
    let mut b = Task::new(2, 10, 0);
    a.slack_key = slack_key(-1, 7);
    b.slack_key = slack_key(0, 10);
    assert_eq!(lowest_slack(&a, &b), Ordering::Less);
    assert_eq!(lowest_slack(&b, &a), Ordering::Greater);
    a.slack_key = b.slack_key;
    assert_eq!(lowest_slack(&a, &b), Ordering::Less);
    assert_eq!(lowest_slack(&b, &a), Ordering::Greater);
    let c = a.clone();
    assert_eq!(lowest_slack(&a, &c), Ordering::Equal);
}

#[test]
fn slack_keys_order_like_the_slack() {
    // overdue tasks of short period are the most urgent
    assert!(slack_key(-3, 7) < slack_key(-3, 30));
    assert!(slack_key(-1, 7) < slack_key(0, 7));
    assert!(slack_key(0, 7) < slack_key(1, 7));
    // tasks that are not due yet: longer periods come first
    assert!(slack_key(3, 30) < slack_key(3, 7));
}

#[test]
fn lowest_slack_position_takes_the_first_minimum() {
    let mut tasks = vec![
        Task::new(1, 7, 2),
        Task::new(2, 7, -2),
        Task::new(3, 7, -2),
        Task::new(4, 5, 1),
    ];
    tasks.iter_mut().for_each(update_slack);
    assert_eq!(lowest_slack_position(&tasks, &vec![0, 1, 2, 3]), Some(1));
    assert_eq!(lowest_slack_position(&tasks, &vec![3, 2, 1, 0]), Some(1));
    assert_eq!(lowest_slack_position(&tasks, &vec![0, 3]), Some(1));
    assert_eq!(lowest_slack_position(&tasks, &vec![]), None);
}
