//! What the running app holds: the session it is in and the meeting it is
//! recording.

use vstd::prelude::*;

use crate::board::str_view;
use crate::db;
use crate::db::newest_open;
use crate::db::open_in;
use crate::models::RecordingNow;
use crate::rows::SessionRow;
use crate::rows::Store;
use crate::rows::Tables;
use crate::table;
use crate::table::row_at;
use crate::text;
use crate::time;
use crate::time::instant_of;

verus! {

broadcast use vstd::seq_lib::group_seq_properties;

// --------------------------------------------------------------- when it booted

/// How many characters stand before the first line break.
pub open spec fn line_len(s: Seq<char>) -> nat
    decreases s.len(),
{
    if s.len() == 0 || s[0] == '\n' {
        0
    } else {
        1 + line_len(s.drop_first())
    }
}

proof fn lemma_line_len(s: Seq<char>)
    ensures
        line_len(s) <= s.len(),
        line_len(s) < s.len() ==> s[line_len(s) as int] == '\n',
    decreases s.len(),
{
    if s.len() > 0 && s[0] != '\n' {
        lemma_line_len(s.drop_first());
    }
}

/// The first line that begins so.
pub open spec fn line_beginning(s: Seq<char>, pre: Seq<char>) -> Option<Seq<char>>
    decreases s.len(),
{
    let n = line_len(s) as int;
    if n > s.len() {
        None
    } else if text::begins(s.take(n), pre) {
        Some(s.take(n))
    } else if n == s.len() {
        None
    } else {
        line_beginning(s.skip(n + 1), pre)
    }
}

/// The second word of the line, as a number of seconds.
pub open spec fn booted(stat: Seq<char>) -> Option<i64> {
    match line_beginning(stat, "btime "@) {
        Some(line) => if text::words(line).len() < 2 {
            None
        } else {
            match text::integer(text::words(line)[1]) {
                Some(n) => if i64::MIN <= n <= i64::MAX {
                    Some(n as i64)
                } else {
                    None
                },
                None => None,
            }
        },
        None => None,
    }
}

/// When the machine booted, out of the kernel's statistics.
pub fn boot_time(stat: &str) -> (r: Option<i64>)
    ensures
        r == booted(stat@),
{
    let v = text::chars_of(stat);
    let mut from: usize = 0;
    proof {
        assert(v@.skip(0) =~= v@);
    }
    loop
        invariant
            from <= v.len(),
            v@ == stat@,
            line_beginning(stat@, "btime "@) == line_beginning(v@.skip(from as int), "btime "@),
        decreases v.len() - from,
    {
        let ghost s = v@.skip(from as int);
        let mut to: usize = from;
        proof {
            assert(v@.skip(from as int) =~= s.skip(0));
        }
        while to < v.len() && v[to] != '\n'
            invariant
                from <= to <= v.len(),
                s == v@.skip(from as int),
                line_len(s) == (to - from) + line_len(s.skip(to - from)),
            decreases v.len() - to,
        {
            proof {
                assert(s.skip(to - from)[0] == v@[to as int]);
                assert(s.skip(to - from).drop_first() =~= s.skip(to + 1 - from));
            }
            to = to + 1;
        }
        let line = text::string_of(&v, from, to);
        proof {
            lemma_line_len(s);
            if to < v.len() {
                assert(s.skip(to - from)[0] == v@[to as int]);
            }
            assert(line@ =~= s.take(line_len(s) as int));
        }
        if text::starts_with(line.as_str(), "btime ") {
            let words = text::split_words(&text::chars_of(line.as_str()));
            if words.len() < 2 {
                return None;
            }
            return text::parse_i64(words[1].as_str());
        }
        if to == v.len() {
            return None;
        }
        proof {
            assert(s.skip(line_len(s) as int + 1) =~= v@.skip(to + 1));
        }
        from = to + 1;
    }
}

// ----------------------------------------------------------------- which session

/// The session named in the environment, where it is still open: the
/// environment outlives a login.
pub open spec fn named_session(v: Tables, env: Option<Seq<char>>) -> Option<i64> {
    match env {
        Some(raw) => match text::integer(raw) {
            Some(n) => if i64::MIN <= n <= i64::MAX && db::open_in(v, n as i64) {
                Some(n as i64)
            } else {
                None
            },
            None => None,
        },
        None => None,
    }
}

/// The newest open session, where it started after the boot: an older one is a
/// leftover of a crash, and beating for it would say that it runs.
pub open spec fn booted_session(v: Tables, boot: Option<i64>) -> Option<i64> {
    match (newest_open(v.sessions), boot) {
        (Some(s), Some(b)) => match instant_of(s.started_at) {
            Some(t) => if t.secs >= b {
                Some(s.id)
            } else {
                None
            },
            None => None,
        },
        _ => None,
    }
}

/// The session this desktop runs in.
pub open spec fn adopted(v: Tables, env: Option<Seq<char>>, boot: Option<i64>) -> Option<i64> {
    match named_session(v, env) {
        Some(id) => Some(id),
        None => booted_session(v, boot),
    }
}

/// The session to take up while running: one that started no earlier than this
/// process. Both times are in the store's one format.
pub open spec fn adopted_after(
    v: Tables,
    env: Option<Seq<char>>,
    boot: Option<i64>,
    not_before: Seq<char>,
) -> Option<i64> {
    match adopted(v, env, boot) {
        Some(id) => match row_at::<SessionRow>(v.sessions, id) {
            Some(s) => if text::before(s.started_at, not_before) {
                None
            } else {
                Some(id)
            },
            None => None,
        },
        None => None,
    }
}

/// Which session this desktop runs in: the one named in the environment, else
/// the newest one since the boot, else none.
pub fn adopt_session(store: &Store, env: Option<&str>, boot: Option<i64>) -> (r: Option<i64>)
    requires
        store@.wf(),
    ensures
        r == adopted(store@, str_view(env), boot),
{
    if let Some(raw) = env {
        if let Some(id) = text::parse_i64(raw) {
            if db::session_is_open(store, id) {
                return Some(id);
            }
        }
    }
    let session = match db::latest_open_session(store) {
        Some(s) => s,
        None => {
            return None;
        },
    };
    let started = match time::parse_ts(session.started_at.as_str()) {
        Ok(t) => t.secs,
        Err(_) => {
            return None;
        },
    };
    match boot {
        Some(b) => if started >= b {
            Some(session.id)
        } else {
            None
        },
        None => None,
    }
}

/// Adoption while the app is running: a session that did not exist when it
/// started.
pub fn adopt_session_after(
    store: &Store,
    env: Option<&str>,
    boot: Option<i64>,
    not_before: &str,
) -> (r: Option<i64>)
    requires
        store@.wf(),
    ensures
        r == adopted_after(store@, str_view(env), boot, not_before@),
{
    let id = match adopt_session(store, env, boot) {
        Some(id) => id,
        None => {
            return None;
        },
    };
    match db::get_session(store, id) {
        Some(session) => if text::is_before(session.started_at.as_str(), not_before) {
            None
        } else {
            Some(id)
        },
        None => None,
    }
}

/// A session that is taken up while running is open, and started no earlier
/// than the process.
pub proof fn what_is_adopted_is_open(
    v: Tables,
    env: Option<Seq<char>>,
    boot: Option<i64>,
    not_before: Seq<char>,
)
    requires
        v.wf(),
        adopted_after(v, env, boot, not_before) is Some,
    ensures
        db::open_in(v, adopted_after(v, env, boot, not_before)->0),
        row_at::<SessionRow>(v.sessions, adopted_after(v, env, boot, not_before)->0) matches Some(s)
            && !text::before(s.started_at, not_before),
{
    let id = adopted_after(v, env, boot, not_before)->0;
    if named_session(v, env) is None {
        lemma_newest_open(v.sessions);
        let s = newest_open(v.sessions)->0;
        let k = choose|k: int| 0 <= k < v.sessions.len() && #[trigger] v.sessions[k] == s;
        table::lemma_row_at::<SessionRow>(v.sessions, k);
    }
}

/// A session that is taken up at the start is open, however it was named.
pub proof fn what_is_taken_up_is_open(v: Tables, env: Option<Seq<char>>, boot: Option<i64>)
    requires
        v.wf(),
        adopted(v, env, boot) is Some,
    ensures
        db::open_in(v, adopted(v, env, boot)->0),
{
    if named_session(v, env) is None {
        lemma_newest_open(v.sessions);
        let s = newest_open(v.sessions)->0;
        let k = choose|k: int| 0 <= k < v.sessions.len() && #[trigger] v.sessions[k] == s;
        table::lemma_row_at::<SessionRow>(v.sessions, k);
    }
}

proof fn lemma_newest_open(s: Seq<SessionRow<Seq<char>>>)
    ensures
        newest_open(s) matches Some(x) ==> db::is_open(x) && exists|k: int|
            0 <= k < s.len() && #[trigger] s[k] == x,
    decreases s.len(),
{
    if s.len() > 0 {
        if db::is_open(s.last()) {
            assert(s[s.len() - 1] == s.last());
        } else {
            let r = s.drop_last();
            lemma_newest_open(r);
            if let Some(x) = newest_open(r) {
                let k = choose|k: int| 0 <= k < r.len() && #[trigger] r[k] == x;
                assert(s[k] == x);
            }
        }
    }
}

// ----------------------------------------------------------------- what is held

/// The running app.
pub struct AppState {
    pub session: Option<i64>,
    /// When the process started: what a session has to clear to be taken up
    /// while it runs.
    pub app_started_at: String,
    /// The meeting that the microphone feeds, if any. It is what refuses a
    /// second start.
    pub meeting: Option<RecordingNow>,
}

/// The session held is one that can take writes.
pub open spec fn keeps(v: Tables, held: Option<i64>) -> bool {
    held is Some && open_in(v, held->0)
}

impl AppState {
    pub fn new(session: Option<i64>, now: String) -> (s: Self)
        ensures
            s.session == session,
            s.app_started_at@ == now@,
            s.meeting is None,
    {
        AppState { session, app_started_at: now, meeting: None }
    }

    pub fn session_id(&self) -> (r: Option<i64>)
        ensures
            r == self.session,
    {
        self.session
    }

    /// Makes the held session match the store: lets go of one that was closed
    /// elsewhere and takes up its successor in the same step. Returns the one
    /// let go of and the one taken up.
    pub fn sync_session(&mut self, store: &Store, env: Option<&str>, boot: Option<i64>) -> (r: (
        Option<i64>,
        Option<i64>,
    ))
        requires
            store@.wf(),
        ensures
            final(self).app_started_at == old(self).app_started_at,
            final(self).meeting == old(self).meeting,
            if keeps(store@, old(self).session) {
                r == (None::<i64>, None::<i64>) && final(self).session == old(self).session
            } else {
                let next = adopted_after(
                    store@,
                    str_view(env),
                    boot,
                    old(self).app_started_at@,
                );
                r == (old(self).session, next) && final(self).session == next
            },
    {
        let mut closed: Option<i64> = None;
        if let Some(id) = self.session {
            if db::session_is_open(store, id) {
                return (None, None);
            }
            closed = Some(id);
        }
        let opened = adopt_session_after(store, env, boot, self.app_started_at.as_str());
        self.session = opened;
        (closed, opened)
    }

    pub fn meeting_id(&self) -> (r: Option<i64>)
        ensures
            match self.meeting {
                Some(m) => r == Some(m.meeting_id),
                None => r is None,
            },
    {
        match &self.meeting {
            Some(m) => Some(m.meeting_id),
            None => None,
        }
    }

    pub fn recording(&self) -> (r: Option<RecordingNow>)
        ensures
            match (self.meeting, r) {
                (Some(m), Some(n)) => n.meeting_id == m.meeting_id && n.since@ == m.since@,
                (None, None) => true,
                _ => false,
            },
    {
        match &self.meeting {
            Some(m) => Some(
                RecordingNow { meeting_id: m.meeting_id, since: text::owned(m.since.as_str()) },
            ),
            None => None,
        }
    }

    pub fn set_meeting(&mut self, meeting: RecordingNow)
        ensures
            final(self).meeting == Some(meeting),
            final(self).session == old(self).session,
            final(self).app_started_at == old(self).app_started_at,
    {
        self.meeting = Some(meeting);
    }

    /// Takes the running meeting out. Taking and not reading is what makes two
    /// stops at once safe: only one of them gets it.
    pub fn take_meeting(&mut self) -> (r: Option<RecordingNow>)
        ensures
            r == old(self).meeting,
            final(self).meeting is None,
            final(self).session == old(self).session,
            final(self).app_started_at == old(self).app_started_at,
    {
        self.meeting.take()
    }
}

} // verus!
