//! The background loops, one step at a time: the heartbeat, the checks at
//! random times, and the checkpoint.
//!
//! All of them run against the wall clock in short ticks: a monotonic clock
//! pauses while the machine sleeps, and one long sleep would stretch by however
//! long the lid was closed.

use vstd::prelude::*;

use crate::analysis::Notice;
use crate::board::str_view;
use crate::db;
use crate::db::after_heartbeat;
use crate::models::Analysis;
use crate::notify;
use crate::recommendations::Recommendation;
use crate::rows::Store;
use crate::sort::deep;
use crate::state::adopted_after;
use crate::state::keeps;
use crate::state::AppState;
use crate::text;
use crate::time;
use crate::time::earlier;
use crate::time::Stamp;

verus! {

broadcast use vstd::seq_lib::group_seq_properties;

pub const HEARTBEAT_SECS: u64 = 30;

/// How often the checkpoint's time is read again, and so how late one can be.
pub const CHECKPOINT_TICK_SECS: u64 = 60;

/// A wall clock this many seconds ahead of the monotonic one over a tick means
/// that the machine was asleep.
pub const SUSPEND_JUMP_SECS: i64 = 60;

/// How often a session is looked for while none is held: a new one should be
/// on the board within seconds.
pub const ADOPT_POLL_SECS: u64 = 5;

/// How long to wait before the next beat.
pub fn tick_secs(session: Option<i64>) -> (n: u64)
    ensures
        n == (if session is Some {
            HEARTBEAT_SECS
        } else {
            ADOPT_POLL_SECS
        }),
{
    match session {
        Some(_) => HEARTBEAT_SECS,
        None => ADOPT_POLL_SECS,
    }
}

/// The machine slept between two ticks that are so far apart on the wall clock
/// and on the monotonic one.
pub open spec fn slept(wall_secs: i64, mono_secs: u64) -> bool {
    wall_secs - mono_secs >= SUSPEND_JUMP_SECS
}

/// The heartbeat is due: a session is held, and the machine was awake.
pub open spec fn beats(session: Option<i64>, wall_secs: i64, mono_secs: u64) -> bool {
    session is Some && !slept(wall_secs, mono_secs)
}

/// One beat. While a session is held and the machine was awake, the session is
/// stamped; one that ended elsewhere is never brought back, and is handed over
/// to its successor. After a sleep nothing is stamped: the last stamp is meant
/// to be the moment the user walked away.
///
/// Returns the session let go of and the one taken up.
pub fn heartbeat_tick(
    store: &mut Store,
    state: &mut AppState,
    wall_secs: i64,
    mono_secs: u64,
    env: Option<&str>,
    boot: Option<i64>,
    now: &str,
) -> (r: (Option<i64>, Option<i64>))
    requires
        old(store)@.wf(),
    ensures
        final(store)@.wf(),
        final(store)@ == (if beats(old(state).session, wall_secs, mono_secs) {
            after_heartbeat(old(store)@, old(state).session->0, now@)
        } else {
            old(store)@
        }),
        final(state).app_started_at == old(state).app_started_at,
        final(state).meeting == old(state).meeting,
        ({
            let stays = beats(old(state).session, wall_secs, mono_secs) && db::open_in(
                old(store)@,
                old(state).session->0,
            );
            if stays || keeps(final(store)@, old(state).session) {
                r == (None::<i64>, None::<i64>) && final(state).session == old(state).session
            } else {
                let next = adopted_after(
                    final(store)@,
                    str_view(env),
                    boot,
                    old(state).app_started_at@,
                );
                r == (old(state).session, next) && final(state).session == next
            }
        }),
{
    let asleep = wall_secs as i128 - mono_secs as i128 >= SUSPEND_JUMP_SECS as i128;
    if !asleep {
        if let Some(id) = state.session {
            if db::heartbeat(store, id, now) {
                return (None, None);
            }
        }
    }
    state.sync_session(store, env, boot)
}

/// What the timer of the checks does at a tick.
#[derive(Debug, PartialEq, Eq, Structural)]
pub enum CheckStep {
    Wait,
    /// The time has come without a session: another time is drawn.
    Redraw,
    Run,
}

pub fn check_step(now: Stamp, next: Stamp, session: Option<i64>) -> (r: CheckStep)
    ensures
        r == (if earlier(now, next) {
            CheckStep::Wait
        } else if session is None {
            CheckStep::Redraw
        } else {
            CheckStep::Run
        }),
{
    if time::is_earlier(now, next) {
        CheckStep::Wait
    } else if session.is_none() {
        CheckStep::Redraw
    } else {
        CheckStep::Run
    }
}

/// How an alignment is worded.
pub open spec fn band_of(alignment: Option<i64>) -> Seq<char> {
    match alignment {
        Some(v) => if v >= 67 {
            "aligned"@
        } else if v >= 34 {
            "drifting"@
        } else {
            "off track"@
        },
        None => "not judged"@,
    }
}

fn band(alignment: Option<i64>) -> (r: &'static str)
    ensures
        r@ == band_of(alignment),
{
    match alignment {
        Some(v) => if v >= 67 {
            "aligned"
        } else if v >= 34 {
            "drifting"
        } else {
            "off track"
        },
        None => "not judged",
    }
}

/// The first analysis of a list with an id.
pub open spec fn with_id(s: Seq<Analysis<Seq<char>, Recommendation<Seq<char>>>>, id: i64) -> Option<
    Analysis<Seq<char>, Recommendation<Seq<char>>>,
>
    decreases s.len(),
{
    if s.len() == 0 {
        None
    } else if s[0].id == id {
        Some(s[0])
    } else {
        with_id(s.drop_first(), id)
    }
}

/// What a check notifies, out of the list that holds it: exactly what the
/// screen will say of it.
pub fn check_notice(list: &Vec<Analysis>, id: i64) -> (r: Option<Notice>)
    ensures
        match (with_id(deep(list@), id), r) {
            (Some(a), Some(n)) => n.title@ == a.headline && n.body@ == notify::clipped(
                band_of(a.alignment) + " · "@ + a.body,
                notify::BODY_CHARS as nat,
            ),
            (None, None) => true,
            _ => false,
        },
{
    let ghost s = deep(list@);
    let mut i: usize = 0;
    proof {
        assert(s.skip(0) =~= s);
    }
    while i < list.len()
        invariant
            i <= list.len(),
            s == deep(list@),
            with_id(s, id) == with_id(s.skip(i as int), id),
        decreases list.len() - i,
    {
        proof {
            assert(s.skip(i as int)[0] == list@[i as int].deep_view());
            assert(s.skip(i as int).drop_first() =~= s.skip(i + 1));
        }
        if list[i].id == id {
            let line = text::cat3(band(list[i].alignment), " · ", list[i].body.as_str());
            return Some(
                Notice {
                    title: text::owned(list[i].headline.as_str()),
                    body: notify::clip(line.as_str(), notify::BODY_CHARS),
                },
            );
        }
        i = i + 1;
    }
    None
}

} // verus!
