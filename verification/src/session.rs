//! A session of work: started when its file is created, ended when the file is removed,
//! and recorded as a line of the log.
use vstd::prelude::*;

use crate::datetime::{
    all_rfc3339_chars, is_rfc3339_char, lemma_exact_reads_back, lemma_rfc3339_text_plain, rfc3339_reading, rfc3339_text,
    local_now, rfc3339_string, rfc3339_writing, DateTime, MAX_TIMESTAMP,
};
use crate::text::is_ws;
use crate::utils::{local_timestamp_outcome, system_time_to_datetime};
use crate::times::{is_field_of, record_line};

verus! {

/// Whether a session is under way, and since when.
#[derive(Clone, Copy, Debug, PartialEq, Eq, Structural)]
pub enum SessionStatus {
    Started(DateTime),
    NotStarted,
}

/// What the command does with a project's session: start one where none is under way, or end
/// the one under way (and record it).
#[derive(Clone, Copy, Debug, PartialEq, Eq, Structural)]
pub enum SessionAction {
    Start,
    End,
}

/// A session of a project: where its file lies, whether it is under way, and when it
/// started and ended.
#[derive(Debug)]
pub struct Session<'a> {
    pub started_at: Option<DateTime>,
    pub ended_at: Option<DateTime>,
    pub session_dir: &'a str,
    pub session_path: String,
    pub status: SessionStatus,
    pub session_name: &'a str,
}

/// The RFC 3339 text of an exact moment is a field that reads back as that moment.
proof fn lemma_exact_field(t: DateTime, f: Seq<char>)
    requires
        t.is_rfc3339_exact(),
        t.has_rfc3339_text() ==> f == rfc3339_text(t),
        t.reads_back_rounded() ==> rfc3339_reading(f) == Some(t.minute_rounded().parts()),
    ensures
        is_field_of(f, t),
{
    lemma_exact_reads_back(t);
    lemma_rfc3339_text_plain(t);
    lemma_rfc3339_chars_plain(f);
}

proof fn lemma_rfc3339_chars_plain(f: Seq<char>)
    requires
        all_rfc3339_chars(f),
    ensures
        forall|i: int| 0 <= i < f.len() ==> !is_ws(#[trigger] f[i]) && f[i] != ',',
{
    assert forall|i: int| 0 <= i < f.len() implies !is_ws(#[trigger] f[i]) && f[i] != ',' by {
        assert(is_rfc3339_char(f[i]));
    }
}

/// `dir`, a slash, and `name`.
pub fn join_path(dir: &str, name: &str) -> (r: String)
    ensures
        r@ == dir@ + seq!['/'] + name@,
{
    let mut r = dir.to_owned();
    let slash = "/";
    proof {
        reveal_strlit("/");
        assert(slash@ =~= seq!['/']);
    }
    r.append(slash);
    r.append(name);
    r
}

impl<'a> Session<'a> {
    /// The session file `session_name` in `session_dir`, whose status was read from it:
    /// started when the file exists, at the time it was created.
    pub fn new(session_dir: &'a str, session_name: &'a str, status: SessionStatus) -> (r: Session<'a>)
        ensures
            r.session_dir == session_dir,
            r.session_name == session_name,
            r.session_path@ == session_dir@ + seq!['/'] + session_name@,
            r.status == status,
            r.started_at == (match status {
                SessionStatus::Started(t) => Some(t),
                SessionStatus::NotStarted => None,
            }),
            r.ended_at is None,
    {
        let session_path = join_path(session_dir, session_name);
        let started_at = match status {
            SessionStatus::Started(t) => Some(t),
            SessionStatus::NotStarted => None,
        };
        Session { started_at, ended_at: None, session_dir, session_path, status, session_name }
    }

    /// The same command starts a session and ends it: `End` where a session is under way (with
    /// its start time kept), `Start` where none is.
    pub fn next_action(&self) -> (r: SessionAction)
        requires
            self.started_at == (match self.status {
                SessionStatus::Started(t) => Some(t),
                SessionStatus::NotStarted => None,
            }),
        ensures
            r == (match self.status {
                SessionStatus::Started(_) => SessionAction::End,
                SessionStatus::NotStarted => SessionAction::Start,
            }),
            r == SessionAction::End ==> self.started_at is Some,
    {
        match self.status {
            SessionStatus::Started(_) => SessionAction::End,
            SessionStatus::NotStarted => SessionAction::Start,
        }
    }

    /// Starts the session: the start time is the creation time of the newly created session
    /// file, `created_secs` seconds after the UNIX epoch, on the local clock (as
    /// `system_time_to_datetime` gives it).
    pub fn start(&self, created_secs: u64) -> (r: Option<DateTime>)
        requires
            self.status == SessionStatus::NotStarted,
            created_secs <= MAX_TIMESTAMP,
        ensures
            local_timestamp_outcome(created_secs as int, r),
            r matches Some(t) ==> t.wf() && t.nanos == 0 && t.offset % 60 == 0,
    {
        system_time_to_datetime(created_secs)
    }

    /// Ends a started session now (after its file was removed), and keeps the end time.
    pub fn end(&mut self) -> (r: DateTime)
        requires
            old(self).status matches SessionStatus::Started(_),
        ensures
            final(self).ended_at == Some(r),
            final(self).started_at == old(self).started_at,
            final(self).status == old(self).status,
            final(self).session_dir == old(self).session_dir,
            final(self).session_path == old(self).session_path,
            final(self).session_name == old(self).session_name,
            r.wf(),
            r.nanos < 1_000_000_000,
    {
        let (now, _, _, _) = local_now();
        self.ended_at = Some(now);
        now
    }

    /// The log file `log_name` beside the session file, and the line that records this
    /// session in it: the start and end as RFC 3339 text, a comma between, a newline after.
    /// Each field reads back as its moment where that moment lies in the years 0 to 9999 and
    /// has an offset of whole minutes.
    pub fn record(&self, log_name: &str) -> (r: (String, String))
        requires
            self.started_at matches Some(s) && s.wf(),
            self.ended_at matches Some(e) && e.wf(),
        ensures
            r.0@ == self.session_dir@ + seq!['/'] + log_name@,
            ({
                let s = self.started_at->0;
                let e = self.ended_at->0;
                let fs = rfc3339_writing(s.secs, s.nanos, s.offset);
                let fe = rfc3339_writing(e.secs, e.nanos, e.offset);
                &&& r.1@ == record_line(fs, fe)
                &&& s.is_rfc3339_exact() ==> is_field_of(fs, s)
                &&& e.is_rfc3339_exact() ==> is_field_of(fe, e)
            }),
    {
        let log_file_path = join_path(self.session_dir, log_name);
        let start = match self.started_at {
            Some(s) => s,
            None => {
                proof {
                    assert(false);
                }
                DateTime { secs: 0, nanos: 0, offset: 0 }
            },
        };
        let end = match self.ended_at {
            Some(e) => e,
            None => {
                proof {
                    assert(false);
                }
                DateTime { secs: 0, nanos: 0, offset: 0 }
            },
        };
        let start_dt = rfc3339_string(&start);
        let end_dt = rfc3339_string(&end);
        let comma = ",";
        let newline = "\n";
        proof {
            reveal_strlit(",");
            reveal_strlit("\n");
            assert(comma@ =~= seq![',']);
            assert(newline@ =~= seq!['\n']);
            if start.is_rfc3339_exact() {
                lemma_exact_field(start, start_dt@);
            }
            if end.is_rfc3339_exact() {
                lemma_exact_field(end, end_dt@);
            }
        }
        let mut line = start_dt;
        line.append(comma);
        line.append(end_dt.as_str());
        line.append(newline);
        (log_file_path, line)
    }
}

} // verus!
