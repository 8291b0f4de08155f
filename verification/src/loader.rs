//! The rows of the task, holiday and history sheets, and the rules by which
//! they are read.
use vstd::prelude::*;
use vstd::string::*;
use crate::calendar::{Date, day_number, valid_ymd};
use crate::task::AnnualWindow;
use crate::text::{chars_of, parse_u32, parse_u32_spec, split_terminator, split_terminator_pieces, str_equals, views_of};

verus! {

/// The area of the home that a task belongs to.
#[derive(Clone, Copy, Debug, PartialEq, Eq, Structural)]
pub enum Area {
    Multi,
    Bathroom,
    Bedroom,
    Deck,
    Kitchen,
    Laundry,
    Entryway,
    Loft,
    Living,
    /// The area of the "day off" task (no area).
    NoArea,
}

impl Default for Area {
    fn default() -> (r: Area)
        ensures
            r == Area::NoArea,
    {
        Area::NoArea
    }
}

/// When in the year a task may be done.
#[derive(Clone, Copy, Debug, PartialEq, Eq, Structural)]
pub enum Season {
    Any,
    Summer,
}

impl Default for Season {
    fn default() -> (r: Season)
        ensures
            r == Season::Any,
    {
        Season::Any
    }
}

pub open spec fn summer_window_spec() -> AnnualWindow {
    AnnualWindow { start_month: 5, start_day: 1, end_month: 8, end_day: 31 }
}

impl Season {
    /// The part of each year in which summer tasks are done: May 1 to
    /// August 31.
    pub fn summer_window() -> (r: AnnualWindow)
        ensures
            r == summer_window_spec(),
    {
        AnnualWindow { start_month: 5, start_day: 1, end_month: 8, end_day: 31 }
    }
}

/// A row of the task sheet.
#[derive(Clone, Debug)]
pub struct TaskRow {
    pub id: usize,
    pub instructions: String,
    pub period_days: i32,
    /// Current possible values: 1, 2, 3, 5, or 8
    pub effort: u8,
    pub area: Area,
    pub season: Season,
    pub created_at: Date,
}

/// A row of a history sheet: a task that was scheduled on a date, and
/// whether it was done.
#[derive(Clone, Debug)]
pub struct TaskLog {
    pub id: usize,
    pub date: Date,
    pub done: bool,
}

/// The address of the CSV export of sheet `sheet_name` of the spreadsheet.
pub fn get_sheet_url(sheet_id: &str, sheet_name: &str) -> (r: String)
    ensures
        r@ == "https://docs.google.com/spreadsheets/d/"@ + sheet_id@ + "/gviz/tq?tqx=out:csv&sheet="@
            + sheet_name@,
{
    let mut url = String::from_str("https://docs.google.com/spreadsheets/d/");
    url.append(sheet_id);
    url.append("/gviz/tq?tqx=out:csv&sheet=");
    url.append(sheet_name);
    url
}

/// The address of the edit page of the spreadsheet, which names its sheets.
pub fn get_edit_url(sheet_id: &str) -> (r: String)
    ensures
        r@ == "https://docs.google.com/spreadsheets/d/"@ + sheet_id@ + "/edit"@,
{
    let mut url = String::from_str("https://docs.google.com/spreadsheets/d/");
    url.append(sheet_id);
    url.append("/edit");
    url
}

/// Why the rows of the task sheet were refused.
#[derive(Debug, PartialEq, Eq, Structural)]
pub enum TaskListError {
    /// A row has the id of an earlier row that was kept.
    DuplicateId(usize),
    /// No row was kept.
    NoTasks,
}

/// The tasks of the task sheet, ordered by id, and the ids of the rows that
/// were skipped because their period is 0 days.
pub struct CheckedTasks {
    pub tasks: Vec<TaskRow>,
    pub skipped_ids: Vec<usize>,
}

/// The rows that are kept: those whose period is not 0 days.
pub open spec fn kept_rows(rows: Seq<TaskRow>) -> Seq<TaskRow>
    decreases rows.len(),
{
    if rows.len() == 0 {
        Seq::<TaskRow>::empty()
    } else {
        let k = kept_rows(rows.drop_last());
        if rows.last().period_days != 0 {
            k.push(rows.last())
        } else {
            k
        }
    }
}

/// The ids of the rows whose period is 0 days, in order.
pub open spec fn skipped_ids(rows: Seq<TaskRow>) -> Seq<usize>
    decreases rows.len(),
{
    if rows.len() == 0 {
        Seq::<usize>::empty()
    } else {
        let k = skipped_ids(rows.drop_last());
        if rows.last().period_days == 0 {
            k.push(rows.last().id)
        } else {
            k
        }
    }
}

/// Row `j` has the id of an earlier row that is kept.
pub open spec fn repeats_kept_id(rows: Seq<TaskRow>, j: int) -> bool {
    exists|i: int| 0 <= i < j && rows[i].period_days != 0 && #[trigger] rows[i].id == rows[j].id
}

pub open spec fn has_repeated_id(rows: Seq<TaskRow>) -> bool {
    exists|j: int| 0 <= j < rows.len() && repeats_kept_id(rows, j)
}

pub open spec fn ids_increasing(rows: Seq<TaskRow>) -> bool {
    forall|i: int, j: int| 0 <= i < j < rows.len() ==> rows[i].id < rows[j].id
}

pub(crate) proof fn lemma_kept_rows_contains(rows: Seq<TaskRow>, x: TaskRow)
    ensures
        kept_rows(rows).contains(x) <==> exists|k: int|
            0 <= k < rows.len() && rows[k] == x && rows[k].period_days != 0,
    decreases rows.len(),
{
    if rows.len() > 0 {
        let d = rows.drop_last();
        lemma_kept_rows_contains(d, x);
        let k = kept_rows(d);
        let last = rows.last();
        if kept_rows(rows).contains(x) {
            let w = choose|w: int| 0 <= w < kept_rows(rows).len() && kept_rows(rows)[w] == x;
            if w < k.len() {
                assert(k[w] == x);
                assert(k.contains(x));
                let q = choose|q: int| 0 <= q < d.len() && d[q] == x && d[q].period_days != 0;
                assert(rows[q] == d[q]);
            } else {
                assert(last == x && last.period_days != 0);
                assert(rows[rows.len() - 1] == x);
            }
        }
        if exists|q: int| 0 <= q < rows.len() && rows[q] == x && rows[q].period_days != 0 {
            let q = choose|q: int| 0 <= q < rows.len() && rows[q] == x && rows[q].period_days != 0;
            if q < rows.len() - 1 {
                assert(d[q] == x);
                assert(k.contains(x));
                let w = choose|w: int| 0 <= w < k.len() && k[w] == x;
                assert(kept_rows(rows)[w] == x);
            } else {
                assert(kept_rows(rows)[k.len() as int] == x);
            }
        }
    }
}

/// What the rows of the task sheet are refused for, if anything: the first
/// row with the id of an earlier kept row, else the absence of any row
/// with a period other than 0 days.
pub fn task_rows_error(rows: &Vec<TaskRow>) -> (r: Option<TaskListError>)
    ensures
        match r {
            None => !has_repeated_id(rows@) && kept_rows(rows@).len() > 0,
            Some(TaskListError::DuplicateId(id)) => exists|j: int|
                0 <= j < rows@.len() && repeats_kept_id(rows@, j) && rows@[j].id == id && forall|
                    k: int,
                | 0 <= k < j ==> !repeats_kept_id(rows@, k),
            Some(TaskListError::NoTasks) => !has_repeated_id(rows@) && kept_rows(rows@).len() == 0,
        },
{
    let n = rows.len();
    let mut any_kept = false;
    let mut j: usize = 0;
    while j < n
        invariant
            n == rows@.len(),
            j <= n,
            forall|k: int| 0 <= k < j ==> !repeats_kept_id(rows@, k),
            any_kept <==> exists|k: int| 0 <= k < j && (#[trigger] rows@[k]).period_days != 0,
        decreases n - j,
    {
        let mut i: usize = 0;
        while i < j
            invariant
                n == rows@.len(),
                i <= j < n,
                forall|k: int| 0 <= k < j ==> !repeats_kept_id(rows@, k),
                forall|q: int| 0 <= q < i ==> !(rows@[q].period_days != 0 && #[trigger] rows@[q].id
                    == rows@[j as int].id),
            decreases j - i,
        {
            if rows[i].period_days != 0 && rows[i].id == rows[j].id {
                proof {
                    assert(repeats_kept_id(rows@, j as int));
                }
                return Some(TaskListError::DuplicateId(rows[j].id));
            }
            i += 1;
        }
        if rows[j].period_days != 0 {
            any_kept = true;
        }
        j += 1;
    }
    proof {
        if any_kept {
            let k = choose|k: int| 0 <= k < n && (#[trigger] rows@[k]).period_days != 0;
            lemma_kept_rows_contains(rows@, rows@[k]);
        } else if kept_rows(rows@).len() > 0 {
            lemma_kept_rows_contains(rows@, kept_rows(rows@)[0]);
        }
    }
    if any_kept {
        None
    } else {
        Some(TaskListError::NoTasks)
    }
}

/// Checks the rows of the task sheet: rows with a period of 0 days are
/// skipped, and the kept rows are ordered by id. No row may have the id of
/// an earlier kept row, and at least one row must be kept (see
/// `task_rows_error`).
pub fn check_task_rows(rows: Vec<TaskRow>) -> (c: CheckedTasks)
    requires
        !has_repeated_id(rows@),
        kept_rows(rows@).len() > 0,
    ensures
        c.tasks@.len() == kept_rows(rows@).len(),
        ids_increasing(c.tasks@),
        forall|x: TaskRow| c.tasks@.contains(x) <==> kept_rows(rows@).contains(x),
        c.skipped_ids@ == skipped_ids(rows@),
{
    let ghost orig = rows@;
    let n = rows.len();
    let mut rest = rows;
    let mut tasks: Vec<TaskRow> = Vec::new();
    let mut skipped: Vec<usize> = Vec::new();
    let mut i: usize = 0;
    proof {
        assert(orig.subrange(0, 0) =~= Seq::<TaskRow>::empty());
        assert(orig.subrange(0, n as int) =~= orig);
    }
    while i < n
        invariant
            orig == rows@,
            !has_repeated_id(orig),
            kept_rows(orig).len() > 0,
            n == orig.len(),
            i <= n,
            rest@ == orig.subrange(i as int, n as int),
            forall|k: int| 0 <= k < i ==> !repeats_kept_id(orig, k),
            tasks@.len() == kept_rows(orig.subrange(0, i as int)).len(),
            ids_increasing(tasks@),
            forall|x: TaskRow|
                tasks@.contains(x) <==> kept_rows(orig.subrange(0, i as int)).contains(x),
            skipped@ == skipped_ids(orig.subrange(0, i as int)),
        decreases n - i,
    {
        let row = rest.remove(0);
        let ghost prefix = orig.subrange(0, i as int);
        let ghost next = orig.subrange(0, i + 1);
        assert(row == orig[i as int]);
        assert(next.drop_last() =~= prefix);
        assert(next.last() == row);
        let mut k: usize = 0;
        let mut pos: usize = tasks.len();
        while k < tasks.len()
            invariant
                orig == rows@,
                !has_repeated_id(orig),
                n == orig.len(),
                i < n,
                prefix == orig.subrange(0, i as int),
                row == orig[i as int],
                forall|q: int| 0 <= q < i ==> !repeats_kept_id(orig, q),
                forall|x: TaskRow| tasks@.contains(x) <==> kept_rows(prefix).contains(x),
                k <= tasks.len(),
                pos <= tasks.len(),
                ids_increasing(tasks@),
                forall|q: int| 0 <= q < k ==> tasks@[q].id != row.id,
                pos == tasks.len() ==> forall|q: int| 0 <= q < k ==> tasks@[q].id < row.id,
                pos < tasks.len() ==> pos < k && tasks@[pos as int].id > row.id && forall|q: int|
                    0 <= q < pos ==> tasks@[q].id < row.id,
            decreases tasks.len() - k,
        {
            assert(tasks@[k as int].id != row.id) by {
                if tasks@[k as int].id == row.id {
                    let t = tasks@[k as int];
                    assert(tasks@.contains(t));
                    lemma_kept_rows_contains(prefix, t);
                    let q = choose|q: int| 0 <= q < prefix.len() && prefix[q] == t && prefix[q].period_days != 0;
                    assert(prefix[q] == orig[q]);
                    assert(orig[q] == t);
                    assert(orig[q].id == orig[i as int].id);
                    assert(repeats_kept_id(orig, i as int));
                    assert(has_repeated_id(orig));
                }
            }
            if pos == tasks.len() && tasks[k].id > row.id {
                pos = k;
            }
            k += 1;
        }
        proof {
            if repeats_kept_id(orig, i as int) {
                let q = choose|q: int| 0 <= q < i && orig[q].period_days != 0 && #[trigger] orig[q].id == orig[i as int].id;
                assert(prefix[q] == orig[q]);
                lemma_kept_rows_contains(prefix, orig[q]);
                assert(tasks@.contains(orig[q]));
                let p = choose|p: int| 0 <= p < tasks@.len() && tasks@[p] == orig[q];
                assert(tasks@[p].id == row.id);
                assert(false);
            }
        }
        if row.period_days == 0 {
            skipped.push(row.id);
        } else {
            let ghost before = tasks@;
            tasks.insert(pos, row);
            proof {
                assert(tasks@ == before.insert(pos as int, row));
                assert forall|a: int, b: int| 0 <= a < b < tasks@.len() implies tasks@[a].id
                    < tasks@[b].id by {
                    if a < pos && b > pos {
                        assert(tasks@[b] == before[b - 1]);
                    }
                }
                assert forall|x: TaskRow| tasks@.contains(x) <==> kept_rows(next).contains(x) by {
                    assert(kept_rows(next) == kept_rows(prefix).push(row));
                    if tasks@.contains(x) {
                        let p = choose|p: int| 0 <= p < tasks@.len() && tasks@[p] == x;
                        if p < pos {
                            assert(before[p] == x);
                            assert(before.contains(x));
                        } else if p > pos {
                            assert(before[p - 1] == x);
                            assert(before.contains(x));
                        }
                        if x != row {
                            assert(kept_rows(prefix).contains(x));
                            let w = choose|w: int| 0 <= w < kept_rows(prefix).len() && kept_rows(prefix)[w] == x;
                            assert(kept_rows(next)[w] == x);
                        } else {
                            assert(kept_rows(next)[kept_rows(prefix).len() as int] == x);
                        }
                    }
                    if kept_rows(next).contains(x) {
                        let w = choose|w: int| 0 <= w < kept_rows(next).len() && kept_rows(next)[w] == x;
                        if w < kept_rows(prefix).len() {
                            assert(kept_rows(prefix)[w] == x);
                            assert(before.contains(x));
                            let p = choose|p: int| 0 <= p < before.len() && before[p] == x;
                            if p < pos {
                                assert(tasks@[p] == x);
                            } else {
                                assert(tasks@[p + 1] == x);
                            }
                        } else {
                            assert(tasks@[pos as int] == x);
                        }
                    }
                }
            }
        }
        i += 1;
    }
    CheckedTasks { tasks, skipped_ids: skipped }
}

/// Why a holiday was refused: it is not written as `MM-DD`.
#[derive(Debug, PartialEq, Eq, Structural)]
pub enum HolidayFormatError {
    ExpectedMonthDay,
}

/// The month and day that a holiday text names: exactly two pieces between
/// hyphens (a hyphen at the very end is allowed), each a `u32`.
pub open spec fn holiday_month_day(s: Seq<char>) -> Option<(u32, u32)> {
    let p = split_terminator_pieces(s, '-');
    if p.len() == 2 && parse_u32_spec(p[0]) is Some && parse_u32_spec(p[1]) is Some {
        Some((parse_u32_spec(p[0]).unwrap(), parse_u32_spec(p[1]).unwrap()))
    } else {
        None
    }
}

/// The holiday of `year` that `text` names as `MM-DD`: `None` where there
/// is no such day in that year.
pub fn parse_holiday(text: &str, year: i32) -> (r: Result<Option<Date>, HolidayFormatError>)
    ensures
        r is Err <==> holiday_month_day(text@) is None,
        r matches Ok(o) ==> {
            let (m, d) = holiday_month_day(text@).unwrap();
            &&& o is Some <==> valid_ymd(year as int, m as int, d as int)
            &&& o matches Some(date) ==> date@ == day_number(year as int, m as int, d as int)
        },
{
    let chars = chars_of(text);
    let pieces = split_terminator(&chars, '-');
    proof {
        assert(views_of(pieces@).len() == pieces@.len());
    }
    if pieces.len() != 2 {
        return Err(HolidayFormatError::ExpectedMonthDay);
    }
    assert(views_of(pieces@)[0] == pieces@[0]@);
    assert(views_of(pieces@)[1] == pieces@[1]@);
    let month = match parse_u32(&pieces[0]) {
        Some(m) => m,
        None => {
            return Err(HolidayFormatError::ExpectedMonthDay);
        },
    };
    let day = match parse_u32(&pieces[1]) {
        Some(d) => d,
        None => {
            return Err(HolidayFormatError::ExpectedMonthDay);
        },
    };
    Ok(Date::from_ymd_opt(year, month, day))
}

/// The holidays of `year` that the texts name, skipping days that do not
/// exist in that year.
pub open spec fn holiday_days(texts: Seq<Seq<char>>, year: int) -> Seq<int>
    decreases texts.len(),
{
    if texts.len() == 0 {
        Seq::<int>::empty()
    } else {
        let h = holiday_days(texts.drop_last(), year);
        let (m, d) = holiday_month_day(texts.last()).unwrap();
        if valid_ymd(year, m as int, d as int) {
            h.push(day_number(year, m as int, d as int))
        } else {
            h
        }
    }
}

/// The texts of the strings.
pub open spec fn string_views(v: Seq<String>) -> Seq<Seq<char>> {
    v.map_values(|s: String| s@)
}

pub open spec fn date_views(v: Seq<Date>) -> Seq<int> {
    v.map_values(|d: Date| d@)
}

/// Whether every row of the holiday sheet is written as `MM-DD`.
pub fn holiday_rows_well_formed(rows: &Vec<String>) -> (b: bool)
    ensures
        b <==> forall|i: int| 0 <= i < rows@.len() ==> holiday_month_day(#[trigger] rows@[i]@) is Some,
{
    let mut i: usize = 0;
    while i < rows.len()
        invariant
            i <= rows.len(),
            forall|k: int| 0 <= k < i ==> holiday_month_day(#[trigger] rows@[k]@) is Some,
        decreases rows.len() - i,
    {
        // whether a text is written as `MM-DD` does not depend on the year
        if parse_holiday(rows[i].as_str(), 2000).is_err() {
            return false;
        }
        i += 1;
    }
    true
}

/// The holidays of `year` that the rows of the holiday sheet name, in
/// order. Every row must be written as `MM-DD` (see
/// `holiday_rows_well_formed`).
pub fn parse_holidays(rows: &Vec<String>, year: i32) -> (r: Vec<Date>)
    requires
        forall|i: int| 0 <= i < rows@.len() ==> holiday_month_day(#[trigger] rows@[i]@) is Some,
    ensures
        date_views(r@) == holiday_days(string_views(rows@), year as int),
{
    let mut days: Vec<Date> = Vec::new();
    let mut i: usize = 0;
    proof {
        assert(string_views(rows@).subrange(0, 0) =~= Seq::<Seq<char>>::empty());
        assert(date_views(days@) =~= Seq::<int>::empty());
    }
    while i < rows.len()
        invariant
            i <= rows.len(),
            forall|k: int| 0 <= k < rows@.len() ==> holiday_month_day(#[trigger] rows@[k]@) is Some,
            date_views(days@) == holiday_days(string_views(rows@).subrange(0, i as int), year as int),
        decreases rows.len() - i,
    {
        let ghost texts = string_views(rows@).subrange(0, i + 1);
        assert(texts.drop_last() =~= string_views(rows@).subrange(0, i as int));
        assert(texts.last() == rows@[i as int]@);
        match parse_holiday(rows[i].as_str(), year) {
            Err(_) => {
                assert(false);
            },
            Ok(Some(d)) => {
                days.push(d);
                assert(date_views(days@) =~= holiday_days(texts, year as int));
            },
            Ok(None) => {
                assert(date_views(days@) =~= holiday_days(texts, year as int));
            },
        }
        i += 1;
    }
    assert(string_views(rows@).subrange(0, rows.len() as int) =~= string_views(rows@));
    days
}

/// The records of the CSV text `csv` after its header row, in order, as
/// csv's `Reader::deserialize` reads each of them into a `String`: its text,
/// or `None` where the record could not be read so.
pub uninterp spec fn csv_records(csv: Seq<char>) -> Seq<Option<Seq<char>>>;

/// csv's `Reader::from_reader` on the bytes of `csv`, then `deserialize`
/// of each record into a `String`. Claimed: the records are a function of
/// the text alone.
#[verifier::external_body]
fn csv_string_records(csv: &str) -> (r: Vec<Option<String>>)
    ensures
        opt_string_views(r@) == csv_records(csv@),
{
    let mut reader = csv::Reader::from_reader(csv.as_bytes());
    let records: Vec<Option<String>> = reader.deserialize::<String>().map(|row| row.ok()).collect();
    records
}

/// `rows` are the records of `s` before the first one that could not be
/// read.
pub open spec fn is_readable_prefix(s: Seq<Option<Seq<char>>>, rows: Seq<Seq<char>>) -> bool {
    &&& rows.len() <= s.len()
    &&& forall|i: int| 0 <= i < rows.len() ==> s[i] == Some(#[trigger] rows[i])
    &&& rows.len() < s.len() ==> s[rows.len() as int] is None
}

/// The records of `s` before the first one that could not be read.
pub open spec fn readable_prefix(s: Seq<Option<Seq<char>>>) -> Seq<Seq<char>> {
    choose|rows: Seq<Seq<char>>| is_readable_prefix(s, rows)
}

proof fn lemma_readable_prefix(s: Seq<Option<Seq<char>>>, rows: Seq<Seq<char>>)
    requires
        is_readable_prefix(s, rows),
    ensures
        readable_prefix(s) == rows,
{
    let other = readable_prefix(s);
    assert(is_readable_prefix(s, other));
    if other.len() < rows.len() {
        assert(s[other.len() as int] == Some(rows[other.len() as int]));
    }
    if rows.len() < other.len() {
        assert(s[rows.len() as int] == Some(other[rows.len() as int]));
    }
    assert forall|i: int| 0 <= i < rows.len() implies other[i] == rows[i] by {
        assert(s[i] == Some(other[i]));
    }
    assert(other =~= rows);
}

/// The holidays of `year` in the CSV text of the holiday sheet: the
/// records before the first that cannot be read, each written as `MM-DD`;
/// refused where one of them is not.
pub fn read_holiday_sheet(csv: &str, year: i32) -> (r: Result<Vec<Date>, HolidayFormatError>)
    ensures
        r is Err <==> exists|i: int|
            0 <= i < readable_prefix(csv_records(csv@)).len() && holiday_month_day(
                #[trigger] readable_prefix(csv_records(csv@))[i],
            ) is None,
        r matches Ok(v) ==> date_views(v@) == holiday_days(readable_prefix(csv_records(csv@)), year as int),
{
    let records = csv_string_records(csv);
    let ghost s = csv_records(csv@);
    let mut rows: Vec<String> = Vec::new();
    let mut k: usize = 0;
    let mut readable = true;
    while k < records.len() && readable
        invariant
            k <= records.len(),
            s == opt_string_views(records@),
            rows@.len() == k,
            forall|i: int| 0 <= i < k ==> s[i] == Some(#[trigger] string_views(rows@)[i]),
            !readable ==> k < records.len() && s[k as int] is None,
        decreases records.len() - k + (if readable { 1int } else { 0int }),
    {
        match &records[k] {
            Some(text) => {
                let ghost before = rows@;
                assert(s[k as int] == Some(text@));
                rows.push(text.clone());
                assert forall|i: int| 0 <= i <= k implies s[i] == Some(
                    #[trigger] string_views(rows@)[i],
                ) by {
                    if i < k {
                        assert(string_views(before)[i] == before[i]@);
                    }
                }
                k += 1;
            },
            None => {
                readable = false;
            },
        }
    }
    proof {
        lemma_readable_prefix(s, string_views(rows@));
        assert forall|i: int| 0 <= i < rows@.len() implies #[trigger] string_views(rows@)[i]
            == rows@[i]@ by {}
    }
    if !holiday_rows_well_formed(&rows) {
        proof {
            let i = choose|i: int| 0 <= i < rows@.len() && holiday_month_day(#[trigger] rows@[i]@) is None;
            assert(holiday_month_day(readable_prefix(s)[i]) is None);
        }
        return Err(HolidayFormatError::ExpectedMonthDay);
    }
    proof {
        let p = readable_prefix(s);
        if exists|i: int| 0 <= i < p.len() && holiday_month_day(#[trigger] p[i]) is None {
            let i = choose|i: int| 0 <= i < p.len() && holiday_month_day(#[trigger] p[i]) is None;
            assert(holiday_month_day(rows@[i]@) is Some);
        }
    }
    Ok(parse_holidays(&rows, year))
}

/// The text that std's `str::to_uppercase` gives for `s`.
pub uninterp spec fn uppercase(s: Seq<char>) -> Seq<char>;

/// std's `str::to_uppercase`. Claimed: its result is a function of the
/// characters of `s` alone; what that function is (Unicode's uppercase
/// mapping) is not stated.
#[verifier::external_body]
fn std_to_uppercase(s: &str) -> (r: String)
    ensures
        r@ == uppercase(s@),
{
    s.to_uppercase()
}

/// What the history sheet's `DONE` column means, once in upper case:
/// "TRUE" is true, "FALSE" and the empty text are false.
pub open spec fn google_bool_spec(upper: Seq<char>) -> Option<bool> {
    if upper == "TRUE"@ {
        Some(true)
    } else if upper == "FALSE"@ || upper == ""@ {
        Some(false)
    } else {
        None
    }
}

/// The value of an upper-case `DONE` cell.
pub fn google_bool_from_upper(upper: &str) -> (r: Option<bool>)
    ensures
        r == google_bool_spec(upper@),
{
    if str_equals(upper, "TRUE") {
        Some(true)
    } else if str_equals(upper, "FALSE") || str_equals(upper, "") {
        Some(false)
    } else {
        None
    }
}

/// The value of a `DONE` cell: "TRUE", "FALSE" or empty, in any case.
pub fn parse_google_bool(text: &str) -> (r: Option<bool>)
    ensures
        r == google_bool_spec(uppercase(text@)),
{
    let upper = std_to_uppercase(text);
    google_bool_from_upper(upper.as_str())
}

/// The pattern of a yearly history sheet in the spreadsheet's edit page:
/// the caption of a sheet tab made of four digits, captured as
/// `sheet_name`.
pub const SHEET_TAB_PATTERN: &'static str = "goog-inline-block docs-sheet-tab-caption\\\">(?<sheet_name>\\d{4})<";

/// The capture group of `SHEET_TAB_PATTERN` that holds the sheet name.
pub const SHEET_NAME_GROUP: &'static str = "sheet_name";

/// Whether regex's `Regex::new` compiles `pattern` (with its default size
/// limit).
pub uninterp spec fn regex_compiles(pattern: Seq<char>) -> bool;

/// What regex's `captures_iter` finds of the compiled `pattern` in `text`:
/// for each match, in order, the text of the capture group named `group`,
/// or `None` where that group took no part in the match.
pub uninterp spec fn regex_named_captures(pattern: Seq<char>, group: Seq<char>, text: Seq<char>) -> Seq<
    Option<Seq<char>>,
>;

pub open spec fn opt_string_views(v: Seq<Option<String>>) -> Seq<Option<Seq<char>>> {
    v.map_values(
        |o: Option<String>|
            match o {
                Some(s) => Some(s@),
                None => None,
            },
    )
}

#[verifier::external_type_specification]
#[verifier::external_body]
pub struct ExRegexError(regex::Error);

/// regex's `Regex::new` on `pattern`, then `captures_iter` on `text`,
/// taking the group named `group` of each match (`Captures::name`).
/// Claimed: the call fails exactly where the pattern does not compile,
/// which depends on the pattern alone; the captures are a function of the
/// pattern, the group name and the text alone.
#[verifier::external_body]
fn regex_captures(pattern: &str, group: &str, text: &str) -> (r: Result<Vec<Option<String>>, regex::Error>)
    ensures
        r is Ok <==> regex_compiles(pattern@),
        r matches Ok(v) ==> opt_string_views(v@) == regex_named_captures(pattern@, group@, text@),
{
    let re = regex::Regex::new(pattern)?;
    Ok(re.captures_iter(text).map(|c| c.name(group).map(|m| m.as_str().to_string())).collect())
}

/// The texts that are present, in order.
pub open spec fn present_texts(s: Seq<Option<Seq<char>>>) -> Seq<Seq<char>>
    decreases s.len(),
{
    if s.len() == 0 {
        Seq::<Seq<char>>::empty()
    } else {
        let k = present_texts(s.drop_last());
        match s.last() {
            Some(t) => k.push(t),
            None => k,
        }
    }
}

/// Why the sheet names could not be read.
#[derive(Debug, PartialEq, Eq, Structural)]
pub enum SheetNameError {
    /// The sheet-tab pattern does not compile.
    InvalidPattern,
}

/// The names of the yearly history sheets that the spreadsheet's edit page
/// `html` lists, in order: the `sheet_name` group of each match of
/// `SHEET_TAB_PATTERN`.
pub fn sheet_years(html: &str) -> (r: Result<Vec<String>, SheetNameError>)
    ensures
        r is Ok <==> regex_compiles(SHEET_TAB_PATTERN@),
        r matches Ok(v) ==> string_views(v@) == present_texts(
            regex_named_captures(SHEET_TAB_PATTERN@, SHEET_NAME_GROUP@, html@),
        ),
{
    match regex_captures(SHEET_TAB_PATTERN, SHEET_NAME_GROUP, html) {
        Err(_) => Err(SheetNameError::InvalidPattern),
        Ok(caps) => {
            let ghost found = opt_string_views(caps@);
            let mut names: Vec<String> = Vec::new();
            let mut k: usize = 0;
            proof {
                assert(found.subrange(0, 0) =~= Seq::<Option<Seq<char>>>::empty());
                assert(string_views(names@) =~= Seq::<Seq<char>>::empty());
            }
            while k < caps.len()
                invariant
                    k <= caps.len(),
                    found == opt_string_views(caps@),
                    string_views(names@) == present_texts(found.subrange(0, k as int)),
                decreases caps.len() - k,
            {
                let ghost next = found.subrange(0, k + 1);
                assert(next.drop_last() =~= found.subrange(0, k as int));
                match &caps[k] {
                    Some(name) => {
                        names.push(name.clone());
                        assert(string_views(names@) =~= present_texts(next));
                    },
                    None => {
                        assert(string_views(names@) =~= present_texts(next));
                    },
                }
                k += 1;
            }
            assert(found.subrange(0, caps.len() as int) =~= found);
            Ok(names)
        },
    }
}

/// The logs of the tasks that were done, in order.
pub open spec fn completed_logs(logs: Seq<TaskLog>) -> Seq<TaskLog>
    decreases logs.len(),
{
    if logs.len() == 0 {
        Seq::<TaskLog>::empty()
    } else {
        let k = completed_logs(logs.drop_last());
        if logs.last().done {
            k.push(logs.last())
        } else {
            k
        }
    }
}

/// Keeps the logs of the tasks that were done.
pub fn keep_completed(logs: Vec<TaskLog>) -> (r: Vec<TaskLog>)
    ensures
        r@ == completed_logs(logs@),
{
    let ghost orig = logs@;
    let n = logs.len();
    let mut rest = logs;
    let mut kept: Vec<TaskLog> = Vec::new();
    let mut i: usize = 0;
    proof {
        assert(orig.subrange(0, 0) =~= Seq::<TaskLog>::empty());
        assert(orig.subrange(0, n as int) =~= orig);
    }
    while i < n
        invariant
            n == orig.len(),
            i <= n,
            rest@ == orig.subrange(i as int, n as int),
            kept@ == completed_logs(orig.subrange(0, i as int)),
        decreases n - i,
    {
        let log = rest.remove(0);
        let ghost next = orig.subrange(0, i + 1);
        assert(next.drop_last() =~= orig.subrange(0, i as int));
        assert(log == next.last());
        if log.done {
            kept.push(log);
        }
        i += 1;
    }
    kept
}

} // verus!
