use sidera_task::calendar::Date;
use sidera_task::loader::{
    check_task_rows, get_edit_url, get_sheet_url, google_bool_from_upper, holiday_rows_well_formed,
    keep_completed, parse_google_bool, parse_holiday, parse_holidays, read_holiday_sheet,
    sheet_years, task_rows_error, Area, HolidayFormatError,
    Season, TaskListError, TaskLog, TaskRow,
};

fn row(id: usize, period_days: i32) -> TaskRow {
    TaskRow {
        id,
        instructions: format!("task {}", id),
        period_days,
        effort: 2,
        area: Area::Kitchen,
        season: Season::Any,
        created_at: Date::from_ymd_opt(2025, 1, 1).unwrap(),
    }
}

fn ids(rows: &[TaskRow]) -> Vec<usize> {
    rows.iter().map(|r| r.id).collect()
}

#[test]
fn sheet_urls() {
    assert_eq!(
        get_sheet_url("abc123", "tasks"),
        "https://docs.google.com/spreadsheets/d/abc123/gviz/tq?tqx=out:csv&sheet=tasks"
    );
    assert_eq!(
        get_sheet_url("abc123", "2026"),
        "https://docs.google.com/spreadsheets/d/abc123/gviz/tq?tqx=out:csv&sheet=2026"
    );
    assert_eq!(get_edit_url("abc123"), "https://docs.google.com/spreadsheets/d/abc123/edit");
}

#[test]
fn task_rows_are_sorted_by_id() {
    let checked = check_task_rows(vec![row(3, 7), row(1, 30), row(2, 14)]);
    assert_eq!(ids(&checked.tasks), vec![1, 2, 3]);
    assert!(checked.skipped_ids.is_empty());
}

#[test]
fn rows_with_period_zero_are_skipped() {
    let checked = check_task_rows(vec![row(3, 7), row(5, 0), row(1, 30), row(4, 0)]);
    assert_eq!(ids(&checked.tasks), vec![1, 3]);
    assert_eq!(checked.skipped_ids, vec![5, 4]);
}

#[test]
fn duplicate_ids_are_refused() {
    let r = task_rows_error(&vec![row(3, 7), row(1, 30), row(3, 14)]);
    assert!(matches!(r, Some(TaskListError::DuplicateId(3))));
    // a skipped row does not count as an earlier task
    let rows = vec![row(3, 0), row(3, 14)];
    assert!(task_rows_error(&rows).is_none());
    assert_eq!(ids(&check_task_rows(rows).tasks), vec![3]);
    // but a skipped row with the id of an earlier task is refused
    let r = task_rows_error(&vec![row(3, 14), row(3, 0)]);
    assert!(matches!(r, Some(TaskListError::DuplicateId(3))));
    // the first repeated row is named
    let r = task_rows_error(&vec![row(5, 7), row(4, 7), row(4, 7), row(5, 7)]);
    assert!(matches!(r, Some(TaskListError::DuplicateId(4))));
}

#[test]
fn no_tasks_are_refused() {
    assert!(matches!(task_rows_error(&vec![]), Some(TaskListError::NoTasks)));
    assert!(matches!(task_rows_error(&vec![row(1, 0)]), Some(TaskListError::NoTasks)));
    assert!(task_rows_error(&vec![row(1, 0), row(2, 3)]).is_none());
}

#[test]
fn holidays_are_month_and_day() {
    let christmas = Date::from_ymd_opt(2026, 12, 25).unwrap();
    assert_eq!(parse_holiday("12-25", 2026), Ok(Some(christmas)));
    assert_eq!(parse_holiday("12-25-", 2026), Ok(Some(christmas)));
    assert_eq!(parse_holiday("+12-+25", 2026), Ok(Some(christmas)));
    assert_eq!(parse_holiday("01-01", 2026), Ok(Date::from_ymd_opt(2026, 1, 1)));
    // days that do not exist in the year are left out
    assert_eq!(parse_holiday("2-29", 2026), Ok(None));
    assert_eq!(parse_holiday("2-29", 2028), Ok(Date::from_ymd_opt(2028, 2, 29)));
    assert_eq!(parse_holiday("13-01", 2026), Ok(None));
}

#[test]
fn malformed_holidays_are_refused() {
    for text in ["", "12", "-12-25", "12--25", "12-25-1", "Dec-25", "12-2x", "12 -25", "12-", "99999999999-1"] {
        assert_eq!(parse_holiday(text, 2026), Err(HolidayFormatError::ExpectedMonthDay), "{}", text);
    }
}

#[test]
fn holiday_sheet() {
    let rows = vec!["01-01".to_string(), "02-30".to_string(), "12-25".to_string()];
    assert!(holiday_rows_well_formed(&rows));
    let days = parse_holidays(&rows, 2026);
    assert_eq!(
        days,
        vec![Date::from_ymd_opt(2026, 1, 1).unwrap(), Date::from_ymd_opt(2026, 12, 25).unwrap()]
    );
    let rows = vec!["01-01".to_string(), "Christmas".to_string()];
    assert!(!holiday_rows_well_formed(&rows));
}

#[test]
fn holiday_sheet_from_csv() {
    let csv = "date\n01-01\n07-04\n12-25\n";
    assert_eq!(
        read_holiday_sheet(csv, 2026),
        Ok(vec![
            Date::from_ymd_opt(2026, 1, 1).unwrap(),
            Date::from_ymd_opt(2026, 7, 4).unwrap(),
            Date::from_ymd_opt(2026, 12, 25).unwrap(),
        ])
    );
    // the header row is not a holiday, and an empty sheet has none
    assert_eq!(read_holiday_sheet("date\n", 2026), Ok(vec![]));
    assert_eq!(read_holiday_sheet("", 2026), Ok(vec![]));
    assert_eq!(
        read_holiday_sheet("date\n12-25\nChristmas\n", 2026),
        Err(HolidayFormatError::ExpectedMonthDay)
    );
    // reading stops at the first record that cannot be read
    assert_eq!(
        read_holiday_sheet("date\n12-25\n01-01,x\nJunk\n", 2026),
        Ok(vec![Date::from_ymd_opt(2026, 12, 25).unwrap()])
    );
}

#[test]
fn google_booleans() {
    assert_eq!(parse_google_bool("TRUE"), Some(true));
    assert_eq!(parse_google_bool("true"), Some(true));
    assert_eq!(parse_google_bool("True"), Some(true));
    assert_eq!(parse_google_bool("FALSE"), Some(false));
    assert_eq!(parse_google_bool("false"), Some(false));
    assert_eq!(parse_google_bool(""), Some(false));
    assert_eq!(parse_google_bool("yes"), None);
    assert_eq!(parse_google_bool(" TRUE"), None);
    assert_eq!(google_bool_from_upper("true"), None);
    assert_eq!(google_bool_from_upper("TRUE"), Some(true));
}

#[test]
fn sheet_names_of_edit_page() {
    let html = r#"<div class="goog-inline-block docs-sheet-tab-caption">tasks</div><div class="goog-inline-block docs-sheet-tab-caption">2025</div>x<span class="goog-inline-block docs-sheet-tab-caption">2026</span><div class="goog-inline-block docs-sheet-tab-caption">holidays</div>"#;
    assert_eq!(sheet_years(html).unwrap(), vec!["2025".to_string(), "2026".to_string()]);
    assert_eq!(sheet_years("no sheets here").unwrap(), Vec::<String>::new());
}

#[test]
fn only_completed_logs_are_kept() {
    let date = Date::from_ymd_opt(2025, 3, 1).unwrap();
    let logs = vec![
        TaskLog { id: 1, date, done: true },
        TaskLog { id: 2, date, done: false },
        TaskLog { id: 3, date, done: true },
    ];
    let kept: Vec<usize> = keep_completed(logs).iter().map(|l| l.id).collect();
    assert_eq!(kept, vec![1, 3]);
}

#[test]
fn summer_window_and_defaults() {
    let w = Season::summer_window();
    assert_eq!((w.start_month, w.start_day, w.end_month, w.end_day), (5, 1, 8, 31));
    assert_eq!(Season::default(), Season::Any);
    assert_eq!(Area::default(), Area::NoArea);
}

#[test]
fn task_list_does_not_depend_on_row_order() {
    let a = check_task_rows(vec![row(3, 7), row(5, 0), row(1, 30), row(2, 14)]);
    let b = check_task_rows(vec![row(2, 14), row(1, 30), row(3, 7)]);
    assert_eq!(ids(&a.tasks), ids(&b.tasks));
    let periods = |rows: &[TaskRow]| rows.iter().map(|r| r.period_days).collect::<Vec<_>>();
    assert_eq!(periods(&a.tasks), periods(&b.tasks));
    assert_eq!(periods(&a.tasks), vec![30, 14, 7]);
}
