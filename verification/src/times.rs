//! The log of sessions: reading it, choosing the sessions in a date range, and what reading
//! gives back of what was written.
use vstd::prelude::*;

pub use crate::datetime::DateRange;

use crate::datetime::{parse_rfc3339, rfc3339_reading, DateTime};
use crate::text::{
    chars_of, is_ws, lemma_split_on_join, lemma_split_on_without_sep,
    pieces, split_bounds, split_on, trim, trim_bounds, trim_end, trim_start,
};

verus! {

/// A line of the log: two RFC 3339 moments, the text before the first comma and the text
/// between the first and second commas; nothing where either is missing or not a moment.
pub open spec fn read_line(line: Seq<char>) -> Option<DateRange> {
    let f = split_on(line, ',');
    if f.len() < 2 {
        None
    } else {
        match (rfc3339_reading(f[0]), rfc3339_reading(f[1])) {
            (Some(a), Some(b)) => Some(DateRange(DateTime::from_parts(a), DateTime::from_parts(b))),
            _ => None,
        }
    }
}

/// The lines of a log: the text without surrounding whitespace, split at newlines.
pub open spec fn log_lines(content: Seq<char>) -> Seq<Seq<char>> {
    split_on(trim(content), '\n')
}

/// The sessions of a log, one per line, or nothing where some line does not read.
pub open spec fn read_log(content: Seq<char>) -> Option<Seq<DateRange>> {
    let lines = log_lines(content);
    if forall|i: int| 0 <= i < lines.len() ==> (#[trigger] read_line(lines[i])) is Some {
        Some(Seq::new(lines.len(), |i: int| read_line(lines[i])->0))
    } else {
        None
    }
}

/// Whether a session starts within the range, both ends included (any session, without one).
pub open spec fn in_range(session: DateRange, range: Option<DateRange>) -> bool {
    match range {
        Some(r) => r.0.secs <= session.0.secs <= r.1.secs,
        None => true,
    }
}

/// The sessions that start within the range, in their order.
pub open spec fn sessions_in_range(sessions: Seq<DateRange>, range: Option<DateRange>) -> Seq<DateRange> {
    sessions.filter(|e: DateRange| in_range(e, range))
}

/// Without a range, every session is kept, in order.
pub proof fn lemma_no_range_keeps_all(sessions: Seq<DateRange>)
    ensures
        sessions_in_range(sessions, None) == sessions,
    decreases sessions.len(),
{
    reveal_with_fuel(Seq::<_>::filter, 1);
    if sessions.len() > 0 {
        lemma_no_range_keeps_all(sessions.drop_last());
        assert(sessions.drop_last().push(sessions.last()) =~= sessions);
    } else {
        assert(sessions_in_range(sessions, None) =~= sessions);
    }
}

/// Choosing the sessions of a range from those of a wider range gives the sessions of the
/// narrower range: a range within another keeps the same sessions, in the same order.
pub proof fn lemma_narrower_range_of_wider(sessions: Seq<DateRange>, narrow: Option<DateRange>, wide: Option<DateRange>)
    requires
        forall|e: DateRange| #[trigger] in_range(e, narrow) ==> in_range(e, wide),
    ensures
        sessions_in_range(sessions_in_range(sessions, wide), narrow) == sessions_in_range(sessions, narrow),
    decreases sessions.len(),
{
    reveal_with_fuel(Seq::<_>::filter, 1);
    if sessions.len() > 0 {
        let rest = sessions.drop_last();
        lemma_narrower_range_of_wider(rest, narrow, wide);
        let e = sessions.last();
        assert(in_range(e, narrow) ==> in_range(e, wide));
        let kept = sessions_in_range(rest, wide);
        if in_range(e, wide) {
            assert(kept.push(e).drop_last() =~= kept);
        }
    } else {
        assert(sessions_in_range(sessions, wide) =~= sessions);
    }
}

/// The sessions of a log that start within a date range, in the order of the log.
pub struct Times {
    pub session_times: Vec<DateRange>,
}

/// The session that the line `v[a..b]` records.
fn read_line_at(v: &Vec<char>, a: usize, b: usize) -> (r: Option<DateRange>)
    requires
        a <= b <= v.len(),
    ensures
        r == read_line(v@.subrange(a as int, b as int)),
{
    let f = split_bounds(v, a, b, ',');
    assert(f@.len() == pieces(v@, f@).len());
    if f.len() < 2 {
        return None;
    }
    let (a0, b0) = f[0];
    let (a1, b1) = f[1];
    assert(pieces(v@, f@)[0] == v@.subrange(a0 as int, b0 as int));
    assert(pieces(v@, f@)[1] == v@.subrange(a1 as int, b1 as int));
    let start = parse_rfc3339(v, a0, b0);
    let end = parse_rfc3339(v, a1, b1);
    match (start, end) {
        (Some(s), Some(e)) => Some(DateRange(s, e)),
        _ => None,
    }
}

/// The sessions of the log `v`, or the index of the first line that does not read.
fn read_entries(v: &Vec<char>) -> (r: Result<Vec<DateRange>, usize>)
    ensures
        r matches Ok(es) ==> read_log(v@) == Some(es@),
        r matches Err(k) ==> read_log(v@) is None && k < log_lines(v@).len() && read_line(
            log_lines(v@)[k as int],
        ) is None && forall|j: int| 0 <= j < k ==> (#[trigger] read_line(log_lines(v@)[j])) is Some,
{
    let (lo, hi) = trim_bounds(v);
    let lines = split_bounds(v, lo, hi, '\n');
    let ghost ls = log_lines(v@);
    assert(ls == pieces(v@, lines@));
    let mut out: Vec<DateRange> = Vec::new();
    let mut k: usize = 0;
    while k < lines.len()
        invariant
            k <= lines.len() == ls.len(),
            ls == pieces(v@, lines@),
            ls == log_lines(v@),
            forall|j: int| 0 <= j < lines.len() ==> (#[trigger] lines@[j]).0 <= lines@[j].1 <= hi,
            hi <= v.len(),
            out@.len() == k,
            forall|j: int| 0 <= j < k ==> (#[trigger] read_line(ls[j])) is Some,
            forall|j: int| 0 <= j < k ==> out@[j] == read_line(ls[j])->0,
        decreases lines.len() - k,
    {
        let (a, b) = lines[k];
        assert(ls[k as int] == v@.subrange(a as int, b as int));
        match read_line_at(v, a, b) {
            Some(e) => {
                out.push(e);
            },
            None => {
                assert(read_line(ls[k as int]) is None);
                assert(!(forall|j: int| 0 <= j < ls.len() ==> (#[trigger] read_line(ls[j])) is Some));
                return Err(k);
            },
        }
        k = k + 1;
    }
    assert(out@ =~= Seq::new(ls.len(), |i: int| read_line(ls[i])->0));
    Ok(out)
}

impl Times {
    /// The sessions of the log `content` that start within `date_range` (all of them without
    /// one), for a log whose every line reads.
    pub fn new(content: &str, date_range: &Option<DateRange>) -> (r: Times)
        requires
            read_log(content@) is Some,
        ensures
            r.session_times@ == sessions_in_range(read_log(content@)->0, *date_range),
    {
        let v = chars_of(content);
        let es = match read_entries(&v) {
            Ok(es) => es,
            Err(_) => {
                proof {
                    assert(false);
                }
                Vec::new()
            },
        };
        let ghost pred = |e: DateRange| in_range(e, *date_range);
        let mut kept: Vec<DateRange> = Vec::new();
        let mut i: usize = 0;
        assert(es@.take(0) =~= Seq::<DateRange>::empty());
        while i < es.len()
            invariant
                i <= es.len(),
                kept@ == es@.take(i as int).filter(pred),
                pred == (|e: DateRange| in_range(e, *date_range)),
            decreases es.len() - i,
        {
            let e = es[i];
            proof {
                reveal_with_fuel(Seq::<_>::filter, 1);
                assert(es@.take(i + 1).drop_last() =~= es@.take(i as int));
            }
            let keep = match date_range {
                Some(r) => r.0.secs <= e.0.secs && e.0.secs <= r.1.secs,
                None => true,
            };
            if keep {
                kept.push(e);
            }
            i = i + 1;
        }
        assert(es@.take(es.len() as int) =~= es@);
        Times { session_times: kept }
    }

    /// As `new`, or the index of the first line of the log that does not read.
    pub fn try_new(content: &str, date_range: &Option<DateRange>) -> (r: Result<Times, usize>)
        ensures
            r matches Ok(t) ==> read_log(content@) is Some && t.session_times@ == sessions_in_range(
                read_log(content@)->0,
                *date_range,
            ),
            r matches Err(k) ==> read_log(content@) is None && k < log_lines(content@).len()
                && read_line(log_lines(content@)[k as int]) is None && forall|j: int|
                0 <= j < k ==> (#[trigger] read_line(log_lines(content@)[j])) is Some,
            read_log(content@) is Some <==> r is Ok,
    {
        let v = chars_of(content);
        match read_entries(&v) {
            Ok(_) => Ok(Times::new(content, date_range)),
            Err(k) => Err(k),
        }
    }

    /// The next session, removed from the front.
    pub fn next(&mut self) -> (r: Option<DateRange>)
        ensures
            old(self).session_times@.len() == 0 ==> r is None && final(self).session_times@
                == old(self).session_times@,
            old(self).session_times@.len() > 0 ==> r == Some(old(self).session_times@[0])
                && final(self).session_times@ == old(self).session_times@.drop_first(),
    {
        if self.session_times.len() == 0 {
            None
        } else {
            let e = self.session_times.remove(0);
            assert(old(self).session_times@.remove(0) =~= old(self).session_times@.drop_first());
            Some(e)
        }
    }
}

// ---- What reading gives back of what was written ----

/// The line that records a session: the start, a comma, the end and a newline.
pub open spec fn record_line(start: Seq<char>, end: Seq<char>) -> Seq<char> {
    start + seq![','] + end + seq!['\n']
}

/// The line without its newline.
pub open spec fn record_text(f: (Seq<char>, Seq<char>)) -> Seq<char> {
    f.0 + seq![','] + f.1
}

/// A log written line by line: the record lines of `fields`, in order.
pub open spec fn log_of(fields: Seq<(Seq<char>, Seq<char>)>) -> Seq<char>
    decreases fields.len(),
{
    if fields.len() == 0 {
        Seq::empty()
    } else {
        log_of(fields.drop_last()) + record_line(fields.last().0, fields.last().1)
    }
}

/// `f` is text that reads as the moment `t`, holds no whitespace and no comma, and is not empty:
/// what recording a plain moment writes.
pub open spec fn is_field_of(f: Seq<char>, t: DateTime) -> bool {
    &&& f.len() > 0
    &&& forall|i: int| 0 <= i < f.len() ==> !is_ws(#[trigger] f[i]) && f[i] != ','
    &&& rfc3339_reading(f) == Some(t.parts())
}

pub open spec fn fields_of(fields: Seq<(Seq<char>, Seq<char>)>, sessions: Seq<DateRange>) -> bool {
    &&& fields.len() == sessions.len()
    &&& forall|i: int|
        0 <= i < fields.len() ==> is_field_of(#[trigger] fields[i].0, sessions[i].0) && is_field_of(
            fields[i].1,
            sessions[i].1,
        )
}

proof fn lemma_log_of_shape(fields: Seq<(Seq<char>, Seq<char>)>)
    requires
        fields.len() > 0,
        fields[0].0.len() > 0,
    ensures
        log_of(fields).len() > 0,
        log_of(fields)[0] == fields[0].0[0],
        log_of(fields).last() == '\n',
        log_of(fields).drop_last() == (if fields.len() == 1 {
            record_text(fields[0])
        } else {
            log_of(fields.drop_last()).drop_last() + seq!['\n'] + record_text(fields.last())
        }),
    decreases fields.len(),
{
    let f = fields.last();
    if fields.len() == 1 {
        assert(fields.drop_last() =~= Seq::<(Seq<char>, Seq<char>)>::empty());
        assert(log_of(fields) =~= record_line(f.0, f.1));
        assert(record_line(f.0, f.1).drop_last() =~= record_text(f));
    } else {
        let init = fields.drop_last();
        assert(init[0] == fields[0]);
        lemma_log_of_shape(init);
        let l = log_of(init);
        assert(log_of(fields) == l + record_line(f.0, f.1));
        assert(l =~= l.drop_last() + seq!['\n']);
        assert((l + record_line(f.0, f.1)).drop_last() =~= l.drop_last() + seq!['\n'] + record_text(f));
    }
}

proof fn lemma_record_text_reads(f: (Seq<char>, Seq<char>), e: DateRange)
    requires
        is_field_of(f.0, e.0),
        is_field_of(f.1, e.1),
    ensures
        read_line(record_text(f)) == Some(e),
        forall|i: int| 0 <= i < record_text(f).len() ==> #[trigger] record_text(f)[i] != '\n',
        !is_ws(record_text(f).last()),
{
    let t = record_text(f);
    assert forall|i: int| 0 <= i < f.0.len() implies f.0[i] != ',' by {
        assert(!is_ws(f.0[i]) && f.0[i] != ',');
    }
    assert forall|i: int| 0 <= i < f.1.len() implies f.1[i] != ',' by {
        assert(!is_ws(f.1[i]) && f.1[i] != ',');
    }
    lemma_split_on_without_sep(f.0, ',');
    lemma_split_on_without_sep(f.1, ',');
    lemma_split_on_join(f.0, f.1, ',');
    let parts = split_on(t, ',');
    assert(parts =~= seq![f.0, f.1]);
    assert(DateTime::from_parts(e.0.parts()) == e.0);
    assert(DateTime::from_parts(e.1.parts()) == e.1);
    assert forall|i: int| 0 <= i < t.len() implies #[trigger] t[i] != '\n' by {
        if i < f.0.len() {
            assert(t[i] == f.0[i]);
            assert(!is_ws(f.0[i]));
        } else if i > f.0.len() {
            assert(t[i] == f.1[i - f.0.len() - 1]);
            assert(!is_ws(f.1[i - f.0.len() - 1]));
        }
    }
    assert(t.last() == f.1.last());
    assert(!is_ws(f.1[f.1.len() - 1]));
}

proof fn lemma_log_lines_of(fields: Seq<(Seq<char>, Seq<char>)>, sessions: Seq<DateRange>)
    requires
        fields.len() > 0,
        fields_of(fields, sessions),
    ensures
        split_on(log_of(fields).drop_last(), '\n') == fields.map_values(
            |f: (Seq<char>, Seq<char>)| record_text(f),
        ),
    decreases fields.len(),
{
    let f = fields.last();
    assert(is_field_of(fields[0].0, sessions[0].0));
    assert(is_field_of(fields[fields.len() - 1].0, sessions[fields.len() - 1].0));
    lemma_record_text_reads(f, sessions.last());
    lemma_log_of_shape(fields);
    lemma_split_on_without_sep(record_text(f), '\n');
    if fields.len() == 1 {
        assert(fields.map_values(|f: (Seq<char>, Seq<char>)| record_text(f)) =~= seq![record_text(f)]);
    } else {
        let init = fields.drop_last();
        assert forall|i: int| 0 <= i < init.len() implies is_field_of(
            #[trigger] init[i].0,
            sessions.drop_last()[i].0,
        ) && is_field_of(init[i].1, sessions.drop_last()[i].1) by {
            assert(is_field_of(fields[i].0, sessions[i].0));
        }
        lemma_log_lines_of(init, sessions.drop_last());
        lemma_split_on_join(log_of(init).drop_last(), record_text(f), '\n');
        assert(fields.map_values(|f: (Seq<char>, Seq<char>)| record_text(f)) =~= init.map_values(
            |f: (Seq<char>, Seq<char>)| record_text(f),
        ) + seq![record_text(f)]);
    }
}

/// Reading a log written line by line gives back the sessions that were written, in order:
/// for each line, the moments that its two fields read as.
pub proof fn lemma_log_reads_back(fields: Seq<(Seq<char>, Seq<char>)>, sessions: Seq<DateRange>)
    requires
        fields.len() > 0,
        fields_of(fields, sessions),
    ensures
        read_log(log_of(fields)) == Some(sessions),
{
    let l = log_of(fields);
    assert(is_field_of(fields[0].0, sessions[0].0));
    assert(is_field_of(fields[fields.len() - 1].1, sessions[fields.len() - 1].1));
    lemma_log_of_shape(fields);
    lemma_record_text_reads(fields.last(), sessions.last());
    // trim removes the final newline and nothing else
    assert(!is_ws(l[0])) by {
        assert(!is_ws(fields[0].0[0]));
    }
    assert(trim_start(l) == l);
    let b = l.drop_last();
    assert(b.len() > 0 && b.last() == record_text(fields.last()).last()) by {
        if fields.len() > 1 {
            let x = log_of(fields.drop_last()).drop_last() + seq!['\n'];
            assert(b == x + record_text(fields.last()));
        }
    }
    assert(trim_end(b) == b);
    assert(trim_end(l) == trim_end(b));
    assert(trim(l) == b);
    lemma_log_lines_of(fields, sessions);
    let lines = log_lines(l);
    assert forall|i: int| 0 <= i < lines.len() implies #[trigger] read_line(lines[i]) == Some(
        sessions[i],
    ) by {
        assert(lines[i] == record_text(fields[i]));
        lemma_record_text_reads(fields[i], sessions[i]);
    }
    assert(Seq::new(lines.len(), |i: int| read_line(lines[i])->0) =~= sessions);
}

} // verus!
