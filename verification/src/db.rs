//! The store: sessions, their checkpoints, and the settings.

use vstd::prelude::*;

use crate::error::other;
use crate::error::AppError;
use crate::error::Failure;
use crate::models::Session;
use crate::paths;
use crate::rows::SessionRow;
use crate::rows::Store;
use crate::rows::Tables;
use crate::rows::TaskRow;
use crate::sort::deep;
use crate::table;
use crate::table::at_home;
use crate::table::in_order;
use crate::table::put;
use crate::table::row_at;
use crate::text;
use crate::text::opt_view;
use crate::time;
use crate::time::Stamp;

verus! {

broadcast use vstd::seq_lib::group_seq_properties;

pub const SCHEMA_VERSION: i64 = 8;

pub const MIGRATE_HINT: &'static str =
    "store schema is out of date — run: python3 -m gate migrate";

/// A number of rows as the screen is given it.
pub open spec fn counted(n: nat) -> i64 {
    if n > i64::MAX {
        i64::MAX
    } else {
        n as i64
    }
}

pub fn count(n: usize) -> (r: i64)
    ensures
        r == counted(n as nat),
{
    if n as u128 > 0x7fff_ffff_ffff_ffff {
        i64::MAX
    } else {
        n as i64
    }
}

/// The refusal when no id or position is left.
pub open spec fn full() -> Failure {
    Failure::Db("database or disk is full"@)
}

pub fn no_room() -> (e: AppError)
    ensures
        e@ == full(),
{
    AppError::Db(text::owned("database or disk is full"))
}

/// At most `limit` of a list; all of it where the limit is negative.
pub open spec fn limited<T>(s: Seq<T>, limit: i64) -> Seq<T> {
    if limit < 0 || s.len() <= limit {
        s
    } else {
        s.take(limit as int)
    }
}

// ------------------------------------------------------------------- settings

/// Where the store is kept: where the environment says, or under the home
/// directory.
pub open spec fn store_at(redirect: Option<Seq<char>>, home: Seq<char>) -> Seq<char> {
    match redirect {
        Some(p) => p,
        None => paths::under(home, ".local/share/intentionality/store.db"@),
    }
}

pub fn store_path(redirect: Option<&str>, home: &str) -> (r: String)
    ensures
        r@ == store_at(
            match redirect {
                Some(p) => Some(p@),
                None => None,
            },
            home@,
        ),
{
    match redirect {
        Some(p) => text::owned(p),
        None => paths::join(home, ".local/share/intentionality/store.db"),
    }
}

/// The value of a setting.
pub open spec fn setting(v: Tables, key: Seq<char>) -> Option<Seq<char>> {
    setting_in(v.settings, key)
}

pub open spec fn setting_in(s: Seq<crate::rows::Setting<Seq<char>>>, key: Seq<char>) -> Option<
    Seq<char>,
>
    decreases s.len(),
{
    if s.len() == 0 {
        None
    } else if s[0].key == key {
        Some(s[0].value)
    } else {
        setting_in(s.drop_first(), key)
    }
}

pub fn get_setting(store: &Store, key: &str) -> (r: Option<String>)
    ensures
        opt_view(r) == setting(store@, key@),
{
    let mut i: usize = 0;
    let ghost s = deep(store.settings@);
    proof {
        assert(s.skip(0) =~= s);
    }
    while i < store.settings.len()
        invariant
            i <= store.settings.len(),
            s == deep(store.settings@),
            setting_in(s, key@) == setting_in(s.skip(i as int), key@),
        decreases store.settings.len() - i,
    {
        proof {
            assert(s.skip(i as int)[0] == store.settings@[i as int].deep_view());
            assert(s.skip(i as int).drop_first() =~= s.skip(i + 1));
        }
        if text::same(store.settings[i].key.as_str(), key) {
            return Some(store.settings[i].value.clone());
        }
        i = i + 1;
    }
    None
}

/// The version a store says it has; `None` where it says none, or no number.
pub open spec fn version(v: Tables) -> Option<i64> {
    match setting(v, "schema_version"@) {
        None => None,
        Some(s) => match text::integer(s) {
            Some(n) => if i64::MIN <= n <= i64::MAX {
                Some(n as i64)
            } else {
                None
            },
            None => None,
        },
    }
}

pub fn schema_version(store: &Store) -> (r: Result<i64, AppError>)
    ensures
        match r {
            Ok(n) => version(store@) == Some(n),
            Err(e) => version(store@) is None && e@ == Failure::Other(MIGRATE_HINT@),
        },
{
    match get_setting(store, "schema_version") {
        None => Err(other(MIGRATE_HINT)),
        Some(s) => match text::parse_i64(s.as_str()) {
            Some(n) => Ok(n),
            None => Err(other(MIGRATE_HINT)),
        },
    }
}

/// Refuses a store older than what is understood here.
pub fn check_schema(store: &Store) -> (r: Result<(), AppError>)
    ensures
        match r {
            Ok(_) => version(store@) is Some && version(store@)->0 >= SCHEMA_VERSION,
            Err(e) => (version(store@) is None || version(store@)->0 < SCHEMA_VERSION) && e@
                == Failure::Other(MIGRATE_HINT@),
        },
{
    match schema_version(store) {
        Err(e) => Err(e),
        Ok(n) => if n < SCHEMA_VERSION {
            Err(other(MIGRATE_HINT))
        } else {
            Ok(())
        },
    }
}

// ------------------------------------------------------------------- sessions

/// A session as the screen is given it: with its first card and how many it
/// has.
pub open spec fn shown_session(v: Tables, s: SessionRow<Seq<char>>) -> Session<Seq<char>> {
    let cards = in_order::<TaskRow>(v.tasks, Some(s.id));
    Session {
        id: s.id,
        started_at: s.started_at,
        ended_at: s.ended_at,
        close_reason: s.close_reason,
        statement: s.statement,
        intended_minutes: s.intended_minutes,
        checkpoint_due_at: s.checkpoint_due_at,
        first_task: if cards.len() == 0 {
            None
        } else {
            Some(cards[0].title)
        },
        task_count: counted(at_home::<TaskRow>(v.tasks, Some(s.id)).len()),
    }
}

/// A session that can still take writes. One recovered without a time to put
/// in `ended_at` is closed by its reason alone.
pub open spec fn is_open(s: SessionRow<Seq<char>>) -> bool {
    s.ended_at is None && s.close_reason is None
}

fn is_open_row(s: &SessionRow) -> (r: bool)
    ensures
        r == is_open(s.deep_view()),
{
    s.ended_at.is_none() && s.close_reason.is_none()
}

fn show_session(store: &Store, s: &SessionRow) -> (r: Session)
    requires
        store@.wf(),
    ensures
        r.deep_view() == shown_session(store@, s.deep_view()),
{
    let cards = table::ordered(&store.tasks, Some(s.id));
    let first_task = if cards.len() == 0 {
        None
    } else {
        proof {
            assert(cards@[0] < store.tasks.len());
            assert(deep(store.tasks@)[cards@[0] as int] == store.tasks@[cards@[0] as int].deep_view());
        }
        Some(store.tasks[cards[0]].title.clone())
    };
    Session {
        id: s.id,
        started_at: s.started_at.clone(),
        ended_at: text::owned_opt(&s.ended_at),
        close_reason: text::owned_opt(&s.close_reason),
        statement: s.statement.clone(),
        intended_minutes: s.intended_minutes,
        checkpoint_due_at: text::owned_opt(&s.checkpoint_due_at),
        first_task,
        task_count: count(table::count_home(&store.tasks, Some(s.id))),
    }
}

/// The session with an id.
pub open spec fn session_with(v: Tables, id: i64) -> Option<Session<Seq<char>>> {
    match row_at::<SessionRow>(v.sessions, id) {
        Some(s) => Some(shown_session(v, s)),
        None => None,
    }
}

pub fn get_session(store: &Store, id: i64) -> (r: Option<Session>)
    requires
        store@.wf(),
    ensures
        r.deep_view() == session_with(store@, id),
{
    match table::find(&store.sessions, id) {
        Some(i) => Some(show_session(store, &store.sessions[i])),
        None => None,
    }
}

/// The newest open session.
pub open spec fn newest_open(s: Seq<SessionRow<Seq<char>>>) -> Option<SessionRow<Seq<char>>>
    decreases s.len(),
{
    if s.len() == 0 {
        None
    } else if is_open(s.last()) {
        Some(s.last())
    } else {
        newest_open(s.drop_last())
    }
}

pub open spec fn open_session(v: Tables) -> Option<Session<Seq<char>>> {
    match newest_open(v.sessions) {
        Some(s) => Some(shown_session(v, s)),
        None => None,
    }
}

pub fn latest_open_session(store: &Store) -> (r: Option<Session>)
    requires
        store@.wf(),
    ensures
        r.deep_view() == open_session(store@),
{
    let mut i: usize = store.sessions.len();
    let ghost s = deep(store.sessions@);
    proof {
        assert(s.take(i as int) =~= s);
    }
    while i > 0
        invariant
            i <= store.sessions.len(),
            s == deep(store.sessions@),
            store@.wf(),
            newest_open(s) == newest_open(s.take(i as int)),
        decreases i,
    {
        proof {
            assert(s.take(i as int).last() == store.sessions@[i - 1].deep_view());
            assert(s.take(i as int).drop_last() =~= s.take(i - 1));
        }
        let row = &store.sessions[i - 1];
        if is_open_row(row) {
            return Some(show_session(store, row));
        }
        i = i - 1;
    }
    None
}

/// The newest sessions.
pub open spec fn newest_sessions(v: Tables, limit: i64) -> Seq<Session<Seq<char>>> {
    limited(v.sessions.reverse(), limit).map_values(
        |s: SessionRow<Seq<char>>| shown_session(v, s),
    )
}

pub fn list_sessions(store: &Store, limit: i64) -> (r: Vec<Session>)
    requires
        store@.wf(),
    ensures
        deep(r@) == newest_sessions(store@, limit),
{
    let n = store.sessions.len();
    let mut out: Vec<Session> = Vec::new();
    let ghost rows = limited(deep(store.sessions@).reverse(), limit);
    while out.len() < n && (limit < 0 || (out.len() as u64) < limit as u64)
        invariant
            out.len() <= rows.len() <= n == store.sessions.len(),
            rows == limited(deep(store.sessions@).reverse(), limit),
            store@.wf(),
            forall|j: int|
                0 <= j < out.len() ==> #[trigger] deep(out@)[j] == shown_session(store@, rows[j]),
        decreases n - out.len(),
    {
        let k = out.len();
        let ghost before = out@;
        proof {
            assert(rows[k as int] == deep(store.sessions@)[n - 1 - k]);
        }
        out.push(show_session(store, &store.sessions[n - 1 - k]));
        proof {
            assert forall|j: int| 0 <= j < out.len() implies #[trigger] deep(out@)[j]
                == shown_session(store@, rows[j]) by {
                if j < k {
                    assert(deep(before)[j] == shown_session(store@, rows[j]));
                }
            }
        }
    }
    proof {
        assert(deep(out@) =~= newest_sessions(store@, limit));
    }
    out
}

/// Whether a session can still take writes. A missing one is not open.
pub open spec fn open_in(v: Tables, id: i64) -> bool {
    match row_at::<SessionRow>(v.sessions, id) {
        Some(s) => is_open(s),
        None => false,
    }
}

pub fn session_is_open(store: &Store, id: i64) -> (r: bool)
    requires
        store@.wf(),
    ensures
        r == open_in(store@, id),
{
    match table::find(&store.sessions, id) {
        Some(i) => is_open_row(&store.sessions[i]),
        None => false,
    }
}

/// Session history does not change once it is closed, so every write aimed at
/// the current session checks here first.
pub fn ensure_open(store: &Store, id: i64) -> (r: Result<(), AppError>)
    requires
        store@.wf(),
    ensures
        match r {
            Ok(_) => open_in(store@, id),
            Err(e) => !open_in(store@, id) && e@ == Failure::SessionClosed(id),
        },
{
    if session_is_open(store, id) {
        Ok(())
    } else {
        Err(AppError::SessionClosed(id))
    }
}

/// A copy of a session's row.
fn copy_session(s: &SessionRow) -> (r: SessionRow)
    ensures
        r.deep_view() == s.deep_view(),
{
    SessionRow {
        id: s.id,
        started_at: s.started_at.clone(),
        ended_at: text::owned_opt(&s.ended_at),
        close_reason: text::owned_opt(&s.close_reason),
        statement: s.statement.clone(),
        intended_minutes: s.intended_minutes,
        checkpoint_due_at: text::owned_opt(&s.checkpoint_due_at),
        last_heartbeat: text::owned_opt(&s.last_heartbeat),
        mode: s.mode.clone(),
    }
}

/// The sessions after a heartbeat; unchanged where the session is closed.
pub open spec fn after_heartbeat(v: Tables, id: i64, now: Seq<char>) -> Tables {
    match row_at::<SessionRow>(v.sessions, id) {
        Some(s) => if is_open(s) {
            Tables {
                sessions: put::<SessionRow>(
                    v.sessions,
                    id,
                    SessionRow { last_heartbeat: Some(now), ..s },
                ),
                ..v
            }
        } else {
            v
        },
        None => v,
    }
}

/// Returns false once the session is closed: a closed session is never
/// resurrected.
pub fn heartbeat(store: &mut Store, id: i64, now: &str) -> (r: bool)
    requires
        old(store)@.wf(),
    ensures
        final(store)@.wf(),
        final(store)@ == after_heartbeat(old(store)@, id, now@),
        r == open_in(old(store)@, id),
{
    match table::find(&store.sessions, id) {
        Some(i) => if is_open_row(&store.sessions[i]) {
            let mut row = copy_session(&store.sessions[i]);
            row.last_heartbeat = Some(text::owned(now));
            table::set_row(&mut store.sessions, i, row);
            true
        } else {
            false
        },
        None => false,
    }
}

// ---------------------------------------------------------------- checkpoints

/// Whether the checkpoint's time has come. Both sides are in the store's one
/// format, so the order of the strings is the order of the times.
pub open spec fn due(v: Tables, id: i64, now: Seq<char>) -> bool {
    match row_at::<SessionRow>(v.sessions, id) {
        Some(s) => is_open(s) && s.checkpoint_due_at is Some && !text::before(
            now,
            s.checkpoint_due_at->0,
        ),
        None => false,
    }
}

pub fn checkpoint_due(store: &Store, id: i64, now: &str) -> (r: bool)
    requires
        store@.wf(),
    ensures
        r == due(store@, id, now@),
{
    match table::find(&store.sessions, id) {
        Some(i) => {
            let row = &store.sessions[i];
            match &row.checkpoint_due_at {
                Some(at) => is_open_row(row) && !text::is_before(now, at.as_str()),
                None => false,
            }
        },
        None => false,
    }
}

/// The sessions with a checkpoint set or cleared.
pub open spec fn with_checkpoint(v: Tables, id: i64, at: Option<Seq<char>>) -> Tables {
    match row_at::<SessionRow>(v.sessions, id) {
        Some(s) => Tables {
            sessions: put::<SessionRow>(v.sessions, id, SessionRow { checkpoint_due_at: at, ..s }),
            ..v
        },
        None => v,
    }
}

pub fn clear_checkpoint(store: &mut Store, id: i64)
    requires
        old(store)@.wf(),
    ensures
        final(store)@.wf(),
        final(store)@ == with_checkpoint(old(store)@, id, None),
{
    match table::find(&store.sessions, id) {
        Some(i) => {
            let mut row = copy_session(&store.sessions[i]);
            row.checkpoint_due_at = None;
            table::set_row(&mut store.sessions, i, row);
        },
        None => {},
    }
}

/// Puts the checkpoint at a time. A closed session never gets a pending
/// checkpoint back.
pub fn set_checkpoint(store: &mut Store, id: i64, at: &str) -> (r: Result<(), AppError>)
    requires
        old(store)@.wf(),
    ensures
        final(store)@.wf(),
        match r {
            Ok(_) => open_in(old(store)@, id) && final(store)@ == with_checkpoint(
                old(store)@,
                id,
                Some(at@),
            ),
            Err(e) => !open_in(old(store)@, id) && final(store)@ == old(store)@ && e@
                == Failure::Other("session is closed"@),
        },
{
    match table::find(&store.sessions, id) {
        Some(i) => if is_open_row(&store.sessions[i]) {
            let mut row = copy_session(&store.sessions[i]);
            row.checkpoint_due_at = Some(text::owned(at));
            table::set_row(&mut store.sessions, i, row);
            Ok(())
        } else {
            Err(other("session is closed"))
        },
        None => Err(other("session is closed")),
    }
}

/// Puts the checkpoint off: it comes due `minutes` after `now`, in the store's
/// format.
pub fn extend_checkpoint(store: &mut Store, id: i64, minutes: i64, now: Stamp) -> (r: Result<
    String,
    AppError,
>)
    requires
        old(store)@.wf(),
        time::plain(now),
        time::FIRST_SECS <= now.secs + minutes * 60 <= time::LAST_SECS,
    ensures
        final(store)@.wf(),
        match r {
            Ok(at) => {
                let then = Stamp {
                    secs: (now.secs + minutes * 60) as i64,
                    nanos: now.nanos,
                };
                &&& open_in(old(store)@, id)
                &&& at@ == time::stamp_text(then)
                &&& time::in_four_digits(then) ==> time::spells_stamp(at@, then.secs as int)
                &&& final(store)@ == with_checkpoint(old(store)@, id, Some(at@))
            },
            Err(e) => !open_in(old(store)@, id) && final(store)@ == old(store)@ && e@
                == Failure::Other("session is closed"@),
        },
{
    let then = match time::shift(now, minutes * 60_000) {
        Some(t) => t,
        None => {
            proof {
                assert(false);
            }
            now
        },
    };
    proof {
        assert(time::instant(then) == time::instant(now) + minutes * 60 * 1_000_000_000);
        assert(then.secs == now.secs + minutes * 60);
        assert(then.nanos == now.nanos);
    }
    let at = time::format_stamp(then);
    match set_checkpoint(store, id, at.as_str()) {
        Ok(_) => Ok(at),
        Err(e) => Err(e),
    }
}

} // verus!
