# sidera_task

A scheduler for recurring cleaning tasks. It reads a task list, the
holidays and the history of completed tasks from a Google Sheets
spreadsheet and plans one task per day up to December 31, as a TSV list
that can be pasted back into the spreadsheet.

The scheduling rules are a library verified with Verus:

- `src/calendar.rs`: dates as day numbers of the proleptic Gregorian
  calendar, with their year, month and day.
- `src/loader.rs`: checking the rows of the task sheet, reading holidays
  (`MM-DD`), the `DONE` column and the names of the yearly history sheets.
- `src/task.rs`: tasks, the yearly windows in which they may be done, and
  the choice of a task's first day.
- `src/generator.rs`, `src/slack.rs`, `src/order.rs`: which tasks may be
  done on a day and which one is picked.
- `src/schedule.rs`: the plan of a year, built day by day, and its TSV
  text.
- `src/laws.rs`: properties that hold for all inputs.

`app/` holds the command-line program around it: argument handling, the
downloads, CSV parsing and the floating-point slack of each task.
