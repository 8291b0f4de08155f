use sidera_task::calendar::Date;
use sidera_task::loader::Season;
use sidera_task::schedule::new_rng;
use sidera_task::task::{new_day_set, AnnualWindow, FirstDayError, Task};

fn ymd(year: i32, month: u32, day: u32) -> Date {
    Date::from_ymd_opt(year, month, day).unwrap()
}

#[test]
fn summer_window_contains_may_to_august() {
    let w = Season::summer_window();
    assert!(!w.contains(ymd(2026, 4, 30)));
    assert!(w.contains(ymd(2026, 5, 1)));
    assert!(w.contains(ymd(2026, 7, 15)));
    assert!(w.contains(ymd(2026, 8, 31)));
    assert!(!w.contains(ymd(2026, 9, 1)));
    assert!(!w.contains(ymd(2026, 1, 1)));
    assert_eq!(w.get_start_date(2026), Some(ymd(2026, 5, 1)));
    assert_eq!(w.get_end_date(2026), Some(ymd(2026, 8, 31)));
}

#[test]
fn window_over_the_new_year() {
    let w = AnnualWindow { start_month: 12, start_day: 1, end_month: 2, end_day: 28 };
    assert!(w.contains(ymd(2026, 12, 1)));
    assert!(w.contains(ymd(2026, 1, 15)));
    assert!(w.contains(ymd(2026, 2, 28)));
    assert!(!w.contains(ymd(2028, 2, 29)));
    assert!(!w.contains(ymd(2026, 3, 1)));
    assert!(!w.contains(ymd(2026, 11, 30)));
    let leap = AnnualWindow { start_month: 2, start_day: 29, end_month: 3, end_day: 1 };
    assert_eq!(leap.get_start_date(2026), None);
    assert_eq!(leap.get_start_date(2028), Some(ymd(2028, 2, 29)));
}

#[test]
fn first_day_prefers_an_unused_day() {
    let mut used = new_day_set();
    for d in [1, 2, 3, 5] {
        used.insert(d);
    }
    let start = ymd(2026, 1, 1);
    for seed in 0..10 {
        let mut task = Task::new(1, 5, 0);
        let mut days = used.clone();
        task.set_days_until(&mut new_rng(Some(seed)), &mut days, start, start);
        assert_eq!(task.days_until, 4);
        assert!(days.contains(&4));
        assert_eq!(days.len(), 5);
    }
    // with every day used, any day of the period may be picked
    let mut days = used.clone();
    days.insert(4);
    let mut task = Task::new(1, 5, 0);
    task.set_days_until(&mut new_rng(Some(3)), &mut days, start, start);
    assert!(task.days_until >= 1 && task.days_until <= 5);
    assert_eq!(days.len(), 5);
}

#[test]
fn first_day_is_shortened_by_the_history() {
    let start = ymd(2026, 3, 1);
    let oldest = ymd(2026, 2, 25);
    for seed in 0..10 {
        let mut task = Task::new(1, 7, 0);
        let mut days = new_day_set();
        task.set_days_until(&mut new_rng(Some(seed)), &mut days, oldest, start);
        assert!(task.days_until >= 1 && task.days_until <= 3);
    }
    assert_eq!(Task::new(1, 7, 0).first_day_check(oldest, start), None);
    let task = Task::new(1, 4, 0);
    assert_eq!(task.first_day_check(oldest, start), Some(FirstDayError::NoPossibleDay));
}

#[test]
fn first_day_of_a_summer_task() {
    let start = ymd(2026, 8, 30);
    for seed in 0..10 {
        let mut task = Task::new(1, 300, 0).with_season(Season::Summer);
        let mut days = new_day_set();
        task.set_days_until(&mut new_rng(Some(seed)), &mut days, start, start);
        let day = start.add_days(task.days_until as i64).unwrap();
        assert!(day == ymd(2026, 8, 31) || (day.year() == 2027 && day.month() >= 5 && day.month() <= 6));
    }
    let far = Date::from_ymd_opt(262142, 12, 1).unwrap();
    let task = Task::new(1, 300, 0).with_season(Season::Summer);
    assert_eq!(task.first_day_check(far, far), Some(FirstDayError::DateOutOfRange));
    let task = Task::new(1, i32::MIN, 0);
    let start = ymd(2026, 3, 1);
    assert_eq!(task.first_day_check(ymd(2026, 1, 1), start), Some(FirstDayError::Overflow));
    // a summer task whose period ends before summer has no possible day
    let task = Task::new(1, 30, 0).with_season(Season::Summer);
    let jan = ymd(2026, 1, 1);
    assert_eq!(task.first_day_check(jan, jan), Some(FirstDayError::NoPossibleDay));
}

#[test]
fn first_day_depends_on_the_seed_alone() {
    let start = ymd(2026, 1, 1);
    let day = |seed: u64| {
        let mut task = Task::new(1, 60, 0);
        let mut days = new_day_set();
        days.insert(3);
        task.set_days_until(&mut new_rng(Some(seed)), &mut days, start, start);
        task.days_until
    };
    for seed in 0..10 {
        assert_eq!(day(seed), day(seed));
        assert_ne!(day(seed), 3);
    }
    // different seeds do not all give the same day
    assert!((0..10).any(|seed| day(seed) != day(0)));
}
