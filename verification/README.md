# tempus_cli

Time tracking by project. `tempus -p <project>` starts a session and the same command ends it;
each finished session is appended to the project's log as a line `start,end` of two RFC 3339
times. `tempus -p <project> log [<range>] [--hours]` lists the logged sessions (or their total
hours) whose start lies in a date range such as `12-01`, `..12-01`, `2021-12-01..` or
`2021-12-01..today`.

Layout:

- `src/` is the library, verified with Verus:
  - `datetime.rs`: moments with a fixed UTC offset, the Gregorian calendar, their text, and the
    calls into `chrono` that read, write and find moments on the local clock;
  - `text.rs`: whitespace, trimming and splitting over characters;
  - `utils.rs`: date arguments, date ranges, and moments as text;
  - `times.rs`: reading the log and choosing the sessions of a range, and the proof that
    reading a log gives back the sessions that were recorded in it, for moments in the years
    0 to 9999 whose offsets are whole minutes (leap seconds included); a moment that `chrono`
    finds on the local clock is kept as its RFC 3339 text reads back (`keep_local_reading`),
    with the offset rounded to whole minutes;
  - `session.rs`: a session's paths and state, whether the command starts or ends it, and the
    line that records it.
- `app/` is the command itself: arguments, files, the clock of the session file, printing.
- `tests/` runs the library.
