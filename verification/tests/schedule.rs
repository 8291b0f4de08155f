use sidera_task::calendar::Date;
use sidera_task::effort::{EASY, EXTREME, HARD};
use sidera_task::loader::{Area, Season, TaskLog, TaskRow};
use sidera_task::schedule::{
    cleaning_list_tsv, count_scheduled, new_rng, plan_error, prepare_plan, GenerateError, Plan,
    Schedule,
};
use sidera_task::task::{DatedTask, Task, DAY_OFF_ID};

fn ymd(year: i32, month: u32, day: u32) -> Date {
    Date::from_ymd_opt(year, month, day).unwrap()
}

fn row(id: usize, period_days: i32, effort: u8, season: Season) -> TaskRow {
    TaskRow {
        id,
        instructions: format!("task {}", id),
        period_days,
        effort,
        area: Area::Kitchen,
        season,
        created_at: ymd(2025, 1, 1),
    }
}

fn log(id: usize, date: Date) -> TaskLog {
    TaskLog { id, date, done: true }
}

fn slack_key(days_until: i32, period_days: i32) -> i32 {
    let weight = 1.0 / (period_days as f32).powf(1.5);
    let signed_sq_err = days_until as f32 * (days_until as f32).abs();
    let slack = signed_sq_err * weight;
    let bits = slack.to_bits() as i32;
    bits ^ ((((bits >> 31) as u32) >> 1) as i32)
}

fn plan_of(rows: &[TaskRow], history: &[TaskLog], year: i32) -> Plan {
    assert_eq!(plan_error(&rows.to_vec(), &history.to_vec(), year), None);
    prepare_plan(&rows.to_vec(), &history.to_vec(), year)
}

fn error_of(rows: &[TaskRow], history: &[TaskLog], year: i32) -> GenerateError {
    plan_error(&rows.to_vec(), &history.to_vec(), year).unwrap()
}

/// Plans every day of the schedule, as the program does.
fn run(mut schedule: Schedule) -> Vec<DatedTask> {
    for date in schedule.days() {
        schedule.begin_day().unwrap();
        for task in schedule.tasks.iter_mut() {
            task.slack_key = slack_key(task.days_until, task.period_days);
        }
        schedule.plan_day(date).unwrap();
    }
    schedule.cleaning_list
}

#[test]
fn plan_without_history_starts_on_january_first() {
    let rows = vec![row(1, 7, EASY, Season::Any), row(2, 30, HARD, Season::Summer)];
    let plan = plan_of(&rows, &[], 2026);
    assert_eq!(plan.start_date, ymd(2026, 1, 1));
    assert_eq!(plan.end_date, ymd(2026, 12, 31));
    assert_eq!(plan.oldest_date, ymd(2026, 1, 1));
    assert_eq!(plan.total_days(), 364);
    assert_eq!(plan.tasks.len(), 2);
    assert_eq!(plan.tasks[0].id, 1);
    assert_eq!(plan.tasks[0].instructions, "task 1");
    assert_eq!(plan.tasks[1].season, Season::Summer);
    assert_eq!(plan.tasks[1].effort, HARD);
    assert!(plan.tasks.iter().all(|t| !t.seen && t.days_until == 0));
    assert!(plan.used_days.is_empty());
}

#[test]
fn plan_starts_the_day_after_the_history() {
    let rows = vec![
        row(1, 7, EASY, Season::Any),
        row(2, 30, EASY, Season::Any),
        row(3, 14, EASY, Season::Any),
    ];
    let history = vec![
        log(1, ymd(2026, 3, 1)),
        log(1, ymd(2026, 3, 10)),
        log(2, ymd(2026, 2, 20)),
    ];
    let plan = plan_of(&rows, &history, 2026);
    assert_eq!(plan.start_date, ymd(2026, 3, 11));
    assert_eq!(plan.end_date, ymd(2026, 12, 31));
    assert_eq!(plan.oldest_date, ymd(2026, 2, 20));
    // done 1 day before the start, every 7 days
    assert!(plan.tasks[0].seen);
    assert_eq!(plan.tasks[0].days_until, 6);
    // done 19 days before the start, every 30 days
    assert!(plan.tasks[1].seen);
    assert_eq!(plan.tasks[1].days_until, 11);
    assert!(!plan.tasks[2].seen);
    assert_eq!(plan.tasks[2].days_until, 0);
    assert_eq!(plan.used_days.len(), 2);
    assert!(plan.used_days.contains(&6));
    assert!(plan.used_days.contains(&11));
}

#[test]
fn history_of_last_year_starts_the_year() {
    let rows = vec![row(1, 7, EASY, Season::Any)];
    let plan = plan_of(&rows, &[log(1, ymd(2025, 12, 31))], 2026);
    assert_eq!(plan.start_date, ymd(2026, 1, 1));
    assert_eq!(plan.tasks[0].days_until, 6);
    // an overdue task has a negative number of days until it is due
    let plan = plan_of(&rows, &[log(1, ymd(2025, 12, 1))], 2026);
    assert_eq!(plan.start_date, ymd(2025, 12, 2));
    // the list still runs to the end of the year asked for
    assert_eq!(plan.end_date, ymd(2026, 12, 31));
    let plan = plan_of(&rows, &[log(1, ymd(2025, 11, 1)), log(2, ymd(2025, 12, 1))], 2026);
    assert_eq!(plan.tasks[0].days_until, 7 - 31);
}

#[test]
fn plan_errors() {
    let rows = vec![row(1, 7, EASY, Season::Any)];
    assert_eq!(
        error_of(&rows, &[log(1, ymd(2026, 12, 31))], 2026),
        GenerateError::HistoryTooRecent
    );
    assert_eq!(
        error_of(&rows, &[log(1, ymd(2027, 5, 1))], 2026),
        GenerateError::HistoryTooRecent
    );
    assert_eq!(
        error_of(&rows, &[log(1, ymd(2026, 12, 30))], 2026),
        GenerateError::StartNotBeforeEnd
    );
    let with_zero = vec![row(1, 7, EASY, Season::Any), row(0, 7, EASY, Season::Any)];
    assert_eq!(error_of(&with_zero, &[], 2026), GenerateError::ReservedTaskId);
    // the year is checked before the rows
    assert_eq!(
        error_of(&with_zero, &[log(1, ymd(2026, 12, 31))], 2026),
        GenerateError::HistoryTooRecent
    );
    assert_eq!(error_of(&rows, &[], 300000), GenerateError::DateOutOfRange);
    let long = vec![row(1, i32::MIN, EASY, Season::Any)];
    assert_eq!(
        error_of(&long, &[log(1, ymd(2026, 3, 1)), log(2, ymd(2026, 3, 10))], 2026),
        GenerateError::Overflow
    );
}

#[test]
fn tasks_are_ordered_summer_first_then_by_period() {
    let rows = vec![
        row(1, 30, EASY, Season::Any),
        row(2, 7, EASY, Season::Any),
        row(3, 60, EASY, Season::Summer),
        row(4, 7, EASY, Season::Any),
        row(5, 14, EASY, Season::Summer),
    ];
    let mut plan = plan_of(&rows, &[], 2026);
    plan.add_day_off_task(3);
    plan.order_tasks();
    let ids: Vec<usize> = plan.tasks.iter().map(|t| t.id).collect();
    assert_eq!(ids, vec![5, 3, DAY_OFF_ID, 2, 4, 1]);
    let day_off = &plan.tasks[2];
    assert_eq!(day_off.instructions, "Day off");
    assert_eq!(day_off.period_days, 3);
}

#[test]
fn first_days_are_within_the_period_and_distinct() {
    let rows = vec![
        row(3, 3, EASY, Season::Any),
        row(2, 5, EASY, Season::Any),
        row(1, 7, EASY, Season::Any),
        row(4, 30, EASY, Season::Any),
    ];
    let history = vec![log(4, ymd(2026, 2, 28))];
    let mut plan = plan_of(&rows, &history, 2026);
    assert_eq!(plan.start_date, ymd(2026, 3, 1));
    let mut rng = new_rng(Some(7));
    plan.assign_first_days(&mut rng);
    // task 4 was done on the day before the start: its day is not changed
    assert_eq!(plan.tasks[3].days_until, 29);
    // the history goes back one day, which is taken off each period
    let mut days: Vec<i32> = plan.tasks.iter().map(|t| t.days_until).collect();
    assert!(days[0] >= 1 && days[0] <= 2);
    assert!(days[1] >= 1 && days[1] <= 4);
    assert!(days[2] >= 1 && days[2] <= 6);
    days.sort();
    days.dedup();
    assert_eq!(days.len(), 4);
    assert_eq!(plan.used_days.len(), 4);
    // the same seed gives the same days
    let mut again = plan_of(&rows, &history, 2026);
    again.assign_first_days(&mut new_rng(Some(7)));
    let a: Vec<i32> = plan.tasks.iter().map(|t| t.days_until).collect();
    let b: Vec<i32> = again.tasks.iter().map(|t| t.days_until).collect();
    assert_eq!(a, b);
}

#[test]
fn first_day_of_a_summer_task_is_in_summer() {
    let rows = vec![row(1, 365, EASY, Season::Summer)];
    for seed in 0..20 {
        let mut plan = plan_of(&rows, &[], 2026);
        plan.assign_first_days(&mut new_rng(Some(seed)));
        let day = plan.start_date.add_days(plan.tasks[0].days_until as i64).unwrap();
        assert!(day.month() >= 5 && day.month() <= 8);
        assert_eq!(day.year(), 2026);
    }
}

#[test]
fn a_task_without_a_possible_first_day_is_an_error() {
    let rows = vec![row(1, 7, EASY, Season::Any), row(2, 7, EASY, Season::Any)];
    let history = vec![log(1, ymd(2025, 1, 1)), log(1, ymd(2026, 3, 1))];
    let plan = plan_of(&rows, &history, 2026);
    assert_eq!(plan.first_days_error(), Some(GenerateError::NoPossibleDay(2)));
    // a summer task whose first period ends before the summer
    let rows = vec![row(1, 30, EASY, Season::Summer)];
    let plan = plan_of(&rows, &[], 2026);
    assert_eq!(plan.first_days_error(), Some(GenerateError::NoPossibleDay(1)));
}

#[test]
fn days_count_down_and_run_to_the_end_of_the_year() {
    let rows = vec![row(1, 7, EASY, Season::Any)];
    let plan = plan_of(&rows, &[log(1, ymd(2026, 12, 20))], 2026);
    let mut schedule = plan.into_schedule(vec![]);
    let days = schedule.days();
    assert_eq!(days.len(), 11);
    assert_eq!(days[0], ymd(2026, 12, 21));
    assert_eq!(days[10], ymd(2026, 12, 31));
    assert_eq!(schedule.tasks[0].days_until, 6);
    schedule.begin_day().unwrap();
    assert_eq!(schedule.tasks[0].days_until, 5);
    schedule.tasks[0].days_until = i32::MIN;
    assert_eq!(schedule.begin_day(), Err(GenerateError::Overflow));
}

#[test]
fn holidays_get_the_holiday_task() {
    let rows = vec![row(1, 2, HARD, Season::Any)];
    let plan = plan_of(&rows, &[], 2026);
    let mut schedule = plan.into_schedule(vec![ymd(2026, 1, 1)]);
    schedule.prev_effort = EXTREME;
    schedule.plan_day(ymd(2026, 1, 1)).unwrap();
    assert_eq!(schedule.prev_effort, 0);
    let entry = &schedule.cleaning_list[0];
    assert_eq!(entry.id, DAY_OFF_ID);
    assert_eq!(entry.instructions, "Holiday");
    assert_eq!(entry.do_date, ymd(2026, 1, 1));
    assert_eq!(entry.days_until_when_added, 0);
    // the next day is an ordinary day
    schedule.plan_day(ymd(2026, 1, 2)).unwrap();
    assert_eq!(schedule.cleaning_list[1].id, 1);
    assert_eq!(schedule.prev_effort, HARD);
    assert_eq!(schedule.tasks[0].days_until, 2);
    assert!(schedule.tasks[0].seen);
    // after a hard task there is no valid task
    assert_eq!(schedule.plan_day(ymd(2026, 1, 3)), Err(GenerateError::NoValidTask));
}

#[test]
fn the_task_of_lowest_slack_is_picked() {
    let rows = vec![row(1, 7, EASY, Season::Any), row(2, 7, EASY, Season::Any)];
    let plan = plan_of(&rows, &[log(1, ymd(2026, 1, 10)), log(2, ymd(2026, 1, 5))], 2026);
    let mut schedule = plan.into_schedule(vec![]);
    assert_eq!(schedule.start_date, ymd(2026, 1, 11));
    schedule.begin_day().unwrap();
    for task in schedule.tasks.iter_mut() {
        task.slack_key = slack_key(task.days_until, task.period_days);
    }
    schedule.plan_day(ymd(2026, 1, 11)).unwrap();
    // task 2 was due sooner
    let entry = &schedule.cleaning_list[0];
    assert_eq!(entry.id, 2);
    assert_eq!(entry.days_until_when_added, 0);
    assert_eq!(schedule.tasks[1].days_until, 7);
    assert_eq!(schedule.tasks[0].days_until, 5);
}

#[test]
fn a_full_year_has_one_task_per_day() {
    let rows = vec![
        row(1, 3, EXTREME, Season::Any),
        row(2, 4, HARD, Season::Any),
        row(3, 10, EASY, Season::Any),
        row(4, 150, EASY, Season::Summer),
    ];
    let holidays = vec![ymd(2026, 12, 25), ymd(2026, 7, 4)];
    let mut plan = plan_of(&rows, &[], 2026);
    plan.add_day_off_task(5);
    plan.order_tasks();
    plan.assign_first_days(&mut new_rng(Some(42)));
    let start = plan.start_date;
    let list = run(plan.into_schedule(holidays.clone()));
    assert_eq!(list.len(), 365);
    for (k, entry) in list.iter().enumerate() {
        assert_eq!(entry.do_date, start.add_days(k as i64).unwrap());
        if holidays.contains(&entry.do_date) {
            assert_eq!(entry.instructions, "Holiday");
        }
        if entry.id == 4 {
            assert!(entry.do_date.month() >= 5 && entry.do_date.month() <= 8);
        }
    }
    let effort = |id: usize| rows.iter().find(|r| r.id == id).map(|r| r.effort).unwrap_or(0);
    for pair in list.windows(2) {
        assert!(!(effort(pair[0].id) >= HARD && effort(pair[1].id) >= HARD));
    }
    assert!(count_scheduled(&list, 4) >= 1);
    let total: usize = [0, 1, 2, 3, 4].iter().map(|&id| count_scheduled(&list, id)).sum();
    assert_eq!(total, 365);
}

#[test]
fn counting_and_tsv_text() {
    let list = vec![
        DatedTask::from_task(&Task::new(3, 7, 0), ymd(2026, 1, 1)),
        DatedTask::from_task(&Task::get_holiday_task(), ymd(2026, 1, 2)),
        DatedTask::from_task(&Task::new(3, 7, 0), ymd(2026, 1, 3)),
    ];
    assert_eq!(count_scheduled(&list, 3), 2);
    assert_eq!(count_scheduled(&list, 0), 1);
    assert_eq!(count_scheduled(&list, 9), 0);
    assert_eq!(
        cleaning_list_tsv(&list),
        "3\t2026-01-01\t\t\n0\t2026-01-02\t\tHoliday\n3\t2026-01-03\t\t"
    );
    assert_eq!(cleaning_list_tsv(&vec![]), "");
}

#[test]
fn tasks_from_rows_and_dated_tasks() {
    let r = row(9, 12, HARD, Season::Summer);
    let t = Task::from_row(&r);
    assert_eq!((t.id, t.period_days, t.effort, t.season), (9, 12, HARD, Season::Summer));
    assert_eq!(t.instructions, "task 9");
    assert!(!t.seen);
    let d = DatedTask::from_task(&Task::new(4, 7, -3), ymd(2026, 6, 1));
    assert_eq!((d.id, d.do_date, d.days_until_when_added), (4, ymd(2026, 6, 1), -3));
    let off = Task::get_day_off_task().with_period(4);
    assert_eq!((off.id, off.period_days), (DAY_OFF_ID, 4));
    assert_eq!(off.instructions, "Day off");
    assert_eq!(Task::get_holiday_task().instructions, "Holiday");
}

#[test]
fn the_list_runs_to_the_end_of_the_year_asked_for() {
    let rows = vec![row(1, 1, EASY, Season::Any)];
    let history = vec![log(1, ymd(2025, 6, 1))];
    let mut plan = plan_of(&rows, &history, 2026);
    assert_eq!(plan.start_date, ymd(2025, 6, 2));
    assert_eq!(plan.end_date, ymd(2026, 12, 31));
    assert_eq!(plan.first_days_error(), None);
    plan.assign_first_days(&mut new_rng(Some(0)));
    let list = run(plan.into_schedule(vec![]));
    assert_eq!(list[0].do_date, ymd(2025, 6, 2));
    assert_eq!(list.last().unwrap().do_date, ymd(2026, 12, 31));
    // a year that the calendar cannot end is refused
    assert_eq!(error_of(&rows, &history, 300000), GenerateError::DateOutOfRange);
}

#[test]
fn history_order_does_not_matter() {
    let rows = vec![row(1, 7, EASY, Season::Any), row(2, 30, EASY, Season::Any)];
    let h1 = vec![log(1, ymd(2026, 3, 1)), log(2, ymd(2026, 2, 20)), log(1, ymd(2026, 3, 10))];
    let h2 = vec![log(1, ymd(2026, 3, 10)), log(1, ymd(2026, 3, 1)), log(2, ymd(2026, 2, 20))];
    let a = plan_of(&rows, &h1, 2026);
    let b = plan_of(&rows, &h2, 2026);
    assert_eq!((a.start_date, a.end_date, a.oldest_date), (b.start_date, b.end_date, b.oldest_date));
    let days = |p: &Plan| p.tasks.iter().map(|t| (t.id, t.days_until, t.seen)).collect::<Vec<_>>();
    assert_eq!(days(&a), days(&b));
}

#[test]
fn the_same_seed_gives_the_same_list() {
    let rows = vec![
        row(1, 3, EASY, Season::Any),
        row(2, 5, EASY, Season::Any),
        row(3, 9, EASY, Season::Any),
    ];
    let list = |seed: u64| {
        let mut plan = plan_of(&rows, &[], 2026);
        plan.assign_first_days(&mut new_rng(Some(seed)));
        run(plan.into_schedule(vec![]))
            .iter()
            .map(|e| (e.id, e.do_date))
            .collect::<Vec<_>>()
    };
    assert_eq!(list(11), list(11));
}
