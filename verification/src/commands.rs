//! What the screen asks for: each request is checked, and handed on to the
//! store.

use vstd::prelude::*;

use crate::analyses;
use crate::analyses::is_unseen;
use crate::analyses::pending_of;
use crate::analyses::recent;
use crate::analyses::shown;
use crate::attach::kind_name;
use crate::attach::MAX_EXTRACTED_CHARS_TOTAL;
use crate::attach::MAX_FILES;
use crate::attach::MAX_TOTAL_FILE_BYTES;
use crate::attach::Staged;
use crate::board;
use crate::board::card_room;
use crate::board::cards;
use crate::board::closed_to;
use crate::board::created;
use crate::board::in_backlog;
use crate::board::pulled;
use crate::board::str_view;
use crate::board::updated;
use crate::board::with_card;
use crate::build_info::BuildInfo;
use crate::db;
use crate::db::counted;
use crate::db::full;
use crate::db::newest_sessions;
use crate::db::open_in;
use crate::db::session_with;
use crate::db::version;
use crate::db::with_checkpoint;
use crate::db::MIGRATE_HINT;
use crate::db::SCHEMA_VERSION;
use crate::error::other;
use crate::error::AppError;
use crate::error::Failure;
use crate::meetings::attached;
use crate::meetings::file_refusal;
use crate::meetings::NewFile;
use crate::meetings;
use crate::meetings::actions_of;
use crate::meetings::files_of;
use crate::meetings::meeting_with;
use crate::meetings::newest_meetings;
use crate::meetings::no_meeting;
use crate::meetings::segments_of;
use crate::models::Analysis;
use crate::models::Arrangement;
use crate::models::AttachOutcome;
use crate::models::Board;
use crate::models::Health;
use crate::models::Meeting;
use crate::models::MeetingDetail;
use crate::models::Session;
use crate::rows::ActionRow;
use crate::rows::MeetingRow;
use crate::rows::SegmentRow;
use crate::rows::Store;
use crate::rows::StoredFile;
use crate::rows::Tables;
use crate::rows::TaskRow;
use crate::sort::deep;
use crate::table::after_top;
use crate::table::elsewhere;
use crate::table::fresh;
use crate::table::row_at;
use crate::table::without;
use crate::table;
use crate::text;
use crate::text::opt_view;
use crate::time;
use crate::time::Stamp;

verus! {

broadcast use vstd::seq_lib::group_seq_properties;

pub open spec fn no_session() -> Failure {
    Failure::Other("no open session"@)
}

fn none_open() -> (e: AppError)
    ensures
        e@ == no_session(),
{
    other("no open session")
}

pub open spec fn empty_title() -> Failure {
    Failure::Other("empty title"@)
}

/// A number brought into a range.
pub open spec fn between(n: i64, low: i64, high: i64) -> i64 {
    if n < low {
        low
    } else if n > high {
        high
    } else {
        n
    }
}

fn clamp(n: i64, low: i64, high: i64) -> (r: i64)
    ensures
        r == between(n, low, high),
{
    if n < low {
        low
    } else if n > high {
        high
    } else {
        n
    }
}

// -------------------------------------------------------------------- the state

/// How the app is.
pub fn health(
    store: &Store,
    session_id: Option<i64>,
    aw_ok: bool,
    build: BuildInfo,
    resume_gate: Option<String>,
) -> (r: Result<Health, AppError>)
    requires
        store@.wf(),
    ensures
        match r {
            Ok(h) => version(store@) == Some(h.schema_version) && h.needs_migration == (
            h.schema_version < SCHEMA_VERSION) && h.session.deep_view() == (match session_id {
                Some(id) => session_with(store@, id),
                None => None,
            }) && h.aw_ok == aw_ok && h.build == build && h.resume_gate == resume_gate,
            Err(e) => version(store@) is None && e@ == Failure::Other(MIGRATE_HINT@),
        },
{
    let schema_version = match db::schema_version(store) {
        Ok(n) => n,
        Err(e) => {
            return Err(e);
        },
    };
    let session = match session_id {
        Some(id) => db::get_session(store, id),
        None => None,
    };
    Ok(
        Health {
            schema_version,
            needs_migration: schema_version < SCHEMA_VERSION,
            session,
            aw_ok,
            build,
            resume_gate,
        },
    )
}

/// The board: the session's cards, the backlog, and how many analyses nobody
/// has seen.
pub fn get_board(store: &Store, session_id: Option<i64>) -> (r: Result<Board, AppError>)
    requires
        store@.wf(),
    ensures
        match r {
            Ok(b) => {
                &&& version(store@) is Some && version(store@)->0 >= SCHEMA_VERSION
                &&& deep(b.backlog@) == cards(store@, None)
                &&& match session_id {
                    Some(id) => b.session.deep_view() == session_with(store@, id) && deep(b.tasks@)
                        == cards(store@, Some(id)) && b.unseen == counted(
                        store@.analyses.filter(is_unseen(id)).len(),
                    ),
                    None => b.session is None && b.tasks@.len() == 0 && b.unseen == 0,
                }
            },
            Err(e) => (version(store@) is None || version(store@)->0 < SCHEMA_VERSION) && e@
                == Failure::Other(MIGRATE_HINT@),
        },
{
    match db::check_schema(store) {
        Ok(_) => {},
        Err(e) => {
            return Err(e);
        },
    }
    let backlog = board::backlog(store);
    match session_id {
        Some(id) => Ok(
            Board {
                session: db::get_session(store, id),
                tasks: board::session_tasks(store, id),
                backlog,
                unseen: analyses::unseen_analyses(store, id),
            },
        ),
        None => Ok(Board { session: None, tasks: Vec::new(), backlog, unseen: 0 }),
    }
}

// -------------------------------------------------------------------- the cards

/// Writes the board of the session that is held.
pub fn apply_board(
    store: &mut Store,
    session_id: Option<i64>,
    arr: &Arrangement,
    now: &str,
) -> (r: Result<(), AppError>)
    requires
        old(store)@.wf(),
        arr.todo.len() < i64::MAX,
        arr.doing.len() < i64::MAX,
        arr.done.len() < i64::MAX,
        arr.dropped.len() < i64::MAX,
    ensures
        final(store)@.wf(),
        match (session_id, r) {
            (None, r) => r is Err && r->Err_0@ == no_session() && final(store)@ == old(store)@,
            (Some(id), Ok(_)) => open_in(old(store)@, id) && board::first_stray(
                old(store)@,
                id,
                *arr,
            ) is None && final(store)@ == (Tables {
                tasks: board::board_moved(old(store)@.tasks, *arr, now@),
                ..old(store)@
            }),
            (Some(id), Err(e)) => final(store)@ == old(store)@ && if !open_in(old(store)@, id) {
                e@ == Failure::SessionClosed(id)
            } else {
                board::first_stray(old(store)@, id, *arr) is Some && e@ == Failure::Other(
                    "task "@ + text::decimal(board::first_stray(old(store)@, id, *arr)->0 as int)
                        + " is not on this board"@,
                )
            },
        },
{
    match session_id {
        Some(id) => board::apply_board(store, id, arr, now),
        None => Err(none_open()),
    }
}

/// Where a new card goes: into the backlog, or into the session that is held.
pub open spec fn home(session_id: Option<i64>, to_backlog: bool) -> Option<i64> {
    if to_backlog {
        None
    } else {
        session_id
    }
}

/// What comes of a new card that holds nothing but its title.
pub open spec fn quick_card(
    v: Tables,
    session_id: Option<i64>,
    title: Seq<char>,
    to_backlog: bool,
    now: Seq<char>,
) -> Result<Tables, Failure> {
    let place = home(session_id, to_backlog);
    if text::blank(title) {
        Err(empty_title())
    } else if place is None && !to_backlog {
        Err(no_session())
    } else if closed_to(v, place) {
        Err(Failure::SessionClosed(place->0))
    } else if !card_room(v, place) {
        Err(full())
    } else {
        Ok(with_card(v, place, text::trimmed(title), "mid-session"@, now))
    }
}

pub fn add_task(
    store: &mut Store,
    session_id: Option<i64>,
    title: &str,
    to_backlog: bool,
    now: &str,
) -> (r: Result<i64, AppError>)
    requires
        old(store)@.wf(),
    ensures
        final(store)@.wf(),
        match r {
            Ok(id) => id == fresh::<TaskRow>(old(store)@.tasks) && quick_card(
                old(store)@,
                session_id,
                title@,
                to_backlog,
                now@,
            ) == Ok::<Tables, Failure>(final(store)@),
            Err(e) => final(store)@ == old(store)@ && quick_card(
                old(store)@,
                session_id,
                title@,
                to_backlog,
                now@,
            ) == Err::<Tables, Failure>(e@),
        },
{
    let title = text::trim(title);
    if title.as_str().is_empty() {
        return Err(other("empty title"));
    }
    let place = if to_backlog {
        None
    } else {
        session_id
    };
    if place.is_none() && !to_backlog {
        return Err(none_open());
    }
    board::add_task(store, place, title.as_str(), now)
}

/// An empty field is no due date, however it is spelled.
pub open spec fn given(due_date: Option<Seq<char>>) -> Option<Seq<char>> {
    match due_date {
        Some(d) => if text::blank(d) {
            None
        } else {
            Some(text::trimmed(d))
        },
        None => None,
    }
}

pub fn blank_is_none(due_date: Option<&str>) -> (r: Option<String>)
    ensures
        opt_view(r) == given(str_view(due_date)),
{
    match due_date {
        Some(d) => {
            let t = text::trim(d);
            if t.as_str().is_empty() {
                None
            } else {
                Some(t)
            }
        },
        None => None,
    }
}

fn as_str(s: &Option<String>) -> (r: Option<&str>)
    ensures
        str_view(r) == opt_view(*s),
{
    match s {
        Some(x) => Some(x.as_str()),
        None => None,
    }
}

/// What comes of a new card with all its details.
pub open spec fn full_card(
    v: Tables,
    session_id: Option<i64>,
    title: Seq<char>,
    notes: Seq<char>,
    due_date: Option<Seq<char>>,
    labels: Seq<Seq<char>>,
    to_backlog: bool,
    now: Seq<char>,
) -> Result<Tables, Failure> {
    let place = home(session_id, to_backlog);
    if text::blank(title) {
        Err(empty_title())
    } else if place is None && !to_backlog {
        Err(no_session())
    } else {
        created(
            v,
            place,
            text::trimmed(title),
            text::trimmed(notes),
            given(due_date),
            labels,
            now,
        )
    }
}

/// A new card from the editor.
pub fn create_task(
    store: &mut Store,
    session_id: Option<i64>,
    title: &str,
    notes: &str,
    due_date: Option<&str>,
    labels: &Vec<String>,
    to_backlog: bool,
    now: &str,
) -> (r: Result<i64, AppError>)
    requires
        old(store)@.wf(),
    ensures
        final(store)@.wf(),
        ({
            let outcome = full_card(
                old(store)@,
                session_id,
                title@,
                notes@,
                str_view(due_date),
                text::views(labels@),
                to_backlog,
                now@,
            );
            match r {
                Ok(id) => id == fresh::<TaskRow>(old(store)@.tasks) && outcome == Ok::<
                    Tables,
                    Failure,
                >(final(store)@),
                Err(e) => final(store)@ == old(store)@ && outcome == Err::<Tables, Failure>(e@),
            }
        }),
{
    let title = text::trim(title);
    if title.as_str().is_empty() {
        return Err(other("empty title"));
    }
    let place = if to_backlog {
        None
    } else {
        session_id
    };
    if place.is_none() && !to_backlog {
        return Err(none_open());
    }
    let due = blank_is_none(due_date);
    let notes = text::trim(notes);
    board::create_task(store, place, title.as_str(), notes.as_str(), as_str(&due), labels, now)
}

/// The editor saves everything that it holds: the labels are all those that
/// the card wears afterwards, and a date that is missing is taken off.
pub fn update_task(
    store: &mut Store,
    id: i64,
    title: &str,
    notes: &str,
    due_date: Option<&str>,
    labels: &Vec<String>,
) -> (r: Result<(), AppError>)
    requires
        old(store)@.wf(),
    ensures
        final(store)@.wf(),
        ({
            let outcome = if text::blank(title@) {
                Err(empty_title())
            } else {
                updated(
                    old(store)@,
                    id,
                    text::trimmed(title@),
                    text::trimmed(notes@),
                    given(str_view(due_date)),
                    text::views(labels@),
                )
            };
            match r {
                Ok(_) => outcome == Ok::<Tables, Failure>(final(store)@),
                Err(e) => final(store)@ == old(store)@ && outcome == Err::<Tables, Failure>(e@),
            }
        }),
{
    let title = text::trim(title);
    if title.as_str().is_empty() {
        return Err(other("empty title"));
    }
    let due = blank_is_none(due_date);
    let notes = text::trim(notes);
    board::update_task(store, id, title.as_str(), notes.as_str(), as_str(&due), labels)
}

/// Takes a card out of the backlog into the session that is held.
pub fn pull_task(store: &mut Store, session_id: Option<i64>, id: i64) -> (r: Result<(), AppError>)
    requires
        old(store)@.wf(),
    ensures
        final(store)@.wf(),
        match (session_id, r) {
            (None, r) => r is Err && r->Err_0@ == no_session() && final(store)@ == old(store)@,
            (Some(sid), Ok(_)) => open_in(old(store)@, sid) && after_top::<TaskRow>(
                old(store)@.tasks,
                Some(sid),
                1,
            ) <= i64::MAX && in_backlog(old(store)@, id) && final(store)@ == pulled(
                old(store)@,
                sid,
                id,
            ),
            (Some(sid), Err(e)) => final(store)@ == old(store)@ && if !open_in(old(store)@, sid) {
                e@ == Failure::SessionClosed(sid)
            } else if after_top::<TaskRow>(old(store)@.tasks, Some(sid), 1) > i64::MAX {
                e@ == full()
            } else {
                !in_backlog(old(store)@, id) && e@ == Failure::Other("not a backlog item"@)
            },
        },
{
    match session_id {
        Some(sid) => board::pull_task(store, sid, id),
        None => Err(none_open()),
    }
}

// ----------------------------------------------------------------- the sessions

/// The newest sessions, a hundred of them at most.
pub fn list_sessions(store: &Store, limit: i64) -> (r: Vec<Session>)
    requires
        store@.wf(),
    ensures
        deep(r@) == newest_sessions(store@, between(limit, 1, 100)),
{
    db::list_sessions(store, clamp(limit, 1, 100))
}

/// The stretch of time that a session takes up: until now, where it has not
/// ended.
pub fn observed_span(store: &Store, session_id: i64, now: &str) -> (r: Result<
    (String, String),
    AppError,
>)
    requires
        store@.wf(),
    ensures
        match (session_with(store@, session_id), r) {
            (Some(s), Ok((start, end))) => start@ == s.started_at && end@ == (match s.ended_at {
                Some(e) => e,
                None => now@,
            }),
            (None, Err(e)) => e@ == Failure::Other("no such session"@),
            _ => false,
        },
{
    match db::get_session(store, session_id) {
        Some(s) => {
            let end = match s.ended_at {
                Some(e) => e,
                None => text::owned(now),
            };
            Ok((s.started_at, end))
        },
        None => Err(other("no such session")),
    }
}

/// The newest analyses across sessions, two hundred of them at most.
pub fn list_recent_analyses(store: &Store, limit: i64) -> (r: Vec<Analysis>)
    requires
        store@.wf(),
    ensures
        deep(r@) == recent(store@, between(limit, 1, 200)),
{
    analyses::list_recent_analyses(store, clamp(limit, 1, 200))
}

/// The checkpoint of the session that is held that waits to be acknowledged.
pub fn pending_checkpoint(store: &Store, session_id: Option<i64>) -> (r: Option<Analysis>)
    requires
        store@.wf(),
    ensures
        r.deep_view() == (match session_id {
            Some(id) => match pending_of(store@.analyses, id) {
                Some(a) => Some(shown(store@, a)),
                None => None,
            },
            None => None,
        }),
{
    match session_id {
        Some(id) => analyses::pending_checkpoint(store, id),
        None => None,
    }
}

/// Puts the checkpoint off, by a minute at least and by a day at most. It
/// never closes or extends the session itself.
pub fn extend_checkpoint(
    store: &mut Store,
    session_id: Option<i64>,
    minutes: i64,
    now: Stamp,
) -> (r: Result<String, AppError>)
    requires
        old(store)@.wf(),
        time::plain(now),
        now.secs + 86_400 <= time::LAST_SECS,
    ensures
        final(store)@.wf(),
        match (session_id, r) {
            (None, r) => r is Err && r->Err_0@ == no_session() && final(store)@ == old(store)@,
            (Some(id), Ok(at)) => {
                let then = Stamp {
                    secs: (now.secs + between(minutes, 1, 1440) * 60) as i64,
                    nanos: now.nanos,
                };
                &&& open_in(old(store)@, id)
                &&& at@ == time::stamp_text(then)
                &&& time::in_four_digits(then) ==> time::spells_stamp(at@, then.secs as int)
                &&& final(store)@ == with_checkpoint(old(store)@, id, Some(at@))
            },
            (Some(id), Err(e)) => !open_in(old(store)@, id) && final(store)@ == old(store)@ && e@
                == Failure::Other("session is closed"@),
        },
{
    match session_id {
        Some(id) => db::extend_checkpoint(store, id, clamp(minutes, 1, 1440), now),
        None => Err(none_open()),
    }
}

// ----------------------------------------------------------------- the meetings

/// The newest meetings, two hundred of them at most.
pub fn list_meetings(store: &Store, limit: i64) -> (r: Vec<Meeting>)
    ensures
        deep(r@) == newest_meetings(store@, between(limit, 1, 200)),
{
    meetings::list_meetings(store, clamp(limit, 1, 200))
}

/// A meeting with everything that the detail pane shows.
pub fn get_meeting(store: &Store, id: i64) -> (r: Result<MeetingDetail, AppError>)
    requires
        store@.wf(),
    ensures
        match (row_at::<MeetingRow>(store@.meetings, id), r) {
            (Some(m), Ok(d)) => meeting_with(store@, id) == Some(d.meeting.deep_view()) && deep(
                d.segments@,
            ) == segments_of(store@, id) && deep(d.actions@) == actions_of(store@, id) && deep(
                d.files@,
            ) == files_of(store@, id) && d.notes@ == m.notes && opt_view(d.summary) == m.summary
                && opt_view(d.summary_edited_at) == m.summary_edited_at && opt_view(
                d.clean_transcript,
            ) == m.clean_transcript,
            (None, Err(e)) => e@ == no_meeting(),
            _ => false,
        },
{
    let meeting = match meetings::get_meeting(store, id) {
        Some(m) => m,
        None => {
            return Err(other("no such meeting"));
        },
    };
    let (summary, summary_edited_at) = match meetings::meeting_summary(store, id) {
        Ok(x) => x,
        Err(e) => {
            return Err(e);
        },
    };
    let notes = match meetings::meeting_notes_text(store, id) {
        Ok(x) => x,
        Err(e) => {
            return Err(e);
        },
    };
    let clean_transcript = match meetings::clean_transcript(store, id) {
        Ok(x) => x,
        Err(e) => {
            return Err(e);
        },
    };
    Ok(
        MeetingDetail {
            meeting,
            segments: meetings::meeting_segments(store, id),
            actions: meetings::meeting_actions(store, id),
            files: meetings::meeting_files(store, id),
            notes,
            summary,
            summary_edited_at,
            clean_transcript,
        },
    )
}

/// Deletes a meeting; the one that is being recorded is stopped first.
pub fn delete_meeting(store: &mut Store, recording: Option<i64>, id: i64) -> (r: Result<
    (),
    AppError,
>)
    requires
        old(store)@.wf(),
    ensures
        final(store)@.wf(),
        match r {
            Ok(_) => recording != Some(id) && row_at::<MeetingRow>(old(store)@.meetings, id) is Some
                && final(store)@ == (Tables {
                meetings: without::<MeetingRow>(old(store)@.meetings, id),
                segments: elsewhere::<SegmentRow>(old(store)@.segments, Some(id)),
                files: elsewhere::<StoredFile>(old(store)@.files, Some(id)),
                actions: elsewhere::<ActionRow>(old(store)@.actions, Some(id)),
                ..old(store)@
            }),
            Err(e) => final(store)@ == old(store)@ && if recording == Some(id) {
                e@ == Failure::Other("stop the recording before deleting it"@)
            } else {
                row_at::<MeetingRow>(old(store)@.meetings, id) is None && e@ == no_meeting()
            },
        },
{
    if let Some(r) = recording {
        if r == id {
            return Err(other("stop the recording before deleting it"));
        }
    }
    meetings::delete_meeting(store, id)
}

/// A staged file as its row has it.
pub open spec fn staged_row(v: Tables, id: i64, meeting_id: i64, staged: Staged, now: Seq<char>) -> (
    StoredFile<Seq<char>>) {
    StoredFile {
        id,
        meeting_id,
        position: after_top::<StoredFile>(v.files, Some(meeting_id), 0) as i64,
        name: staged.name@,
        path: staged.final_path@,
        kind: kind_name(staged.kind),
        bytes: staged.bytes as i64,
        extracted: opt_view(staged.extracted),
        added_at: now,
    }
}

/// Why a meeting does not take a staged file.
pub open spec fn staged_refusal(v: Tables, meeting_id: i64, staged: Staged) -> Option<Failure> {
    file_refusal(
        v,
        meeting_id,
        staged.bytes as i64,
        opt_view(staged.extracted),
        MAX_FILES,
        MAX_TOTAL_FILE_BYTES,
        MAX_EXTRACTED_CHARS_TOTAL as i64,
    )
}

/// The store with the row of a staged file.
pub open spec fn with_staged(v: Tables, meeting_id: i64, staged: Staged, now: Seq<char>) -> Tables {
    let id = fresh::<StoredFile>(v.files) as i64;
    Tables { files: v.files.push(staged_row(v, id, meeting_id, staged, now)), ..v }
}

/// Attaches a staged file, within what a meeting may hold. Its copy is put in
/// place once the row is in.
pub fn attach_staged(store: &mut Store, meeting_id: i64, staged: &Staged, now: &str) -> (r: Result<
    i64,
    AppError,
>)
    requires
        old(store)@.wf(),
        staged.bytes <= i64::MAX,
    ensures
        final(store)@.wf(),
        ({
            let v = old(store)@;
            match r {
                Ok(id) => {
                    &&& staged_refusal(v, meeting_id, *staged) is None
                    &&& id == fresh::<StoredFile>(v.files)
                    &&& final(store)@ == with_staged(v, meeting_id, *staged, now@)
                },
                Err(e) => staged_refusal(v, meeting_id, *staged) == Some(e@) && final(store)@ == v,
            }
        }),
{
    let extracted: Option<&str> = match &staged.extracted {
        Some(t) => Some(t.as_str()),
        None => None,
    };
    let row = NewFile {
        name: staged.name.as_str(),
        path: staged.final_path.as_str(),
        kind: staged.kind.as_str(),
        bytes: staged.bytes as i64,
        extracted,
    };
    meetings::add_meeting_file(
        store,
        meeting_id,
        &row,
        MAX_FILES,
        MAX_TOTAL_FILE_BYTES,
        MAX_EXTRACTED_CHARS_TOTAL as i64,
        now,
    )
}

/// The store after a file's copy was put in place, or could not be: then the
/// row would point at nothing, and goes.
pub open spec fn placed(v: Tables, meeting_id: i64, file_id: i64, ok: bool) -> Tables {
    if !ok && attached(v, meeting_id, file_id) {
        Tables { files: without::<StoredFile>(v.files, file_id), ..v }
    } else {
        v
    }
}

/// What became of a picked file.
#[derive(Debug)]
pub enum Picked {
    /// There is no path to it.
    NoPath,
    /// It was refused: the name it is shown under, and why.
    Refused(Option<String>, String),
    /// It is one of the meeting's files.
    Attached,
}

/// What became of a picked file, over characters.
pub enum Fate {
    NoPath,
    Refused(Option<Seq<char>>, Seq<char>),
    Attached,
}

impl View for Picked {
    type V = Fate;

    open spec fn view(&self) -> Fate {
        match *self {
            Picked::NoPath => Fate::NoPath,
            Picked::Refused(name, why) => Fate::Refused(opt_view(name), why@),
            Picked::Attached => Fate::Attached,
        }
    }
}

/// What becomes of a file whose row was asked for, and whose copy, where the row
/// is in, was put in place or could not be: `unplaced` says why not.
pub open spec fn fate_of(
    name: Option<Seq<char>>,
    refusal: Option<Failure>,
    unplaced: Option<Seq<char>>,
) -> Fate {
    match (refusal, unplaced) {
        (Some(f), _) => Fate::Refused(name, f.message()),
        (None, Some(why)) => Fate::Refused(name, why),
        (None, None) => Fate::Attached,
    }
}

/// What became of a file whose row was asked for.
pub fn fate(name: Option<&str>, added: &Result<i64, AppError>, unplaced: Option<&str>) -> (r: Picked)
    ensures
        r@ == fate_of(
            str_view(name),
            match *added {
                Ok(_) => None,
                Err(e) => Some(e@),
            },
            str_view(unplaced),
        ),
{
    let name = match name {
        Some(n) => Some(text::owned(n)),
        None => None,
    };
    match (added, unplaced) {
        (Err(e), _) => Picked::Refused(name, e.message()),
        (Ok(_), Some(why)) => Picked::Refused(name, text::owned(why)),
        (Ok(_), None) => Picked::Attached,
    }
}

/// Ends the attaching of a file whose row is in.
pub fn settle_file(store: &mut Store, meeting_id: i64, file_id: i64, ok: bool)
    requires
        old(store)@.wf(),
    ensures
        final(store)@.wf(),
        final(store)@ == placed(old(store)@, meeting_id, file_id, ok),
{
    if !ok {
        let _ = meetings::delete_meeting_file(store, meeting_id, file_id);
    }
}

/// A file whose copy could not be put in place leaves the store as it was.
pub proof fn a_file_without_its_copy_leaves_no_row(
    v: Tables,
    meeting_id: i64,
    staged: Staged,
    now: Seq<char>,
)
    requires
        v.wf(),
        fresh::<StoredFile>(v.files) <= i64::MAX,
    ensures
        placed(
            with_staged(v, meeting_id, staged, now),
            meeting_id,
            fresh::<StoredFile>(v.files) as i64,
            false,
        ) == v,
{
    let id = fresh::<StoredFile>(v.files) as i64;
    let row = staged_row(v, id, meeting_id, staged, now);
    table::lemma_push_reads::<StoredFile>(v.files, row, id);
    table::lemma_push_undone::<StoredFile>(v.files, row);
    assert(placed(with_staged(v, meeting_id, staged, now), meeting_id, id, false) =~= v);
}

/// The line for a file that was refused: its name, or words for one without,
/// and why.
pub open spec fn rejected_line(name: Option<Seq<char>>, why: Seq<char>) -> Seq<char> {
    (match name {
        Some(n) => n,
        None => "that file"@,
    }) + ": "@ + why
}

/// The line for a file that was refused.
pub fn rejection(name: Option<&str>, why: &str) -> (r: String)
    ensures
        r@ == rejected_line(str_view(name), why@),
{
    let shown = match name {
        Some(n) => n,
        None => "that file",
    };
    text::cat3(shown, ": ", why)
}

/// The lines that a picked file adds to those of the rejected: one, or none
/// where it was attached.
pub open spec fn lines_of(fate: Fate) -> Seq<Seq<char>> {
    match fate {
        Fate::NoPath => seq!["that file could not be read"@],
        Fate::Refused(name, why) => seq![rejected_line(name, why)],
        Fate::Attached => seq![],
    }
}

/// Takes down what became of one picked file.
pub fn note_pick(rejected: &mut Vec<String>, picked: &Picked)
    ensures
        text::views(final(rejected)@) == text::views(old(rejected)@) + lines_of(picked@),
{
    let ghost before = text::views(rejected@);
    match picked {
        Picked::NoPath => {
            rejected.push(text::owned("that file could not be read"));
        },
        Picked::Refused(name, why) => {
            let name: Option<&str> = match name {
                Some(n) => Some(n.as_str()),
                None => None,
            };
            rejected.push(rejection(name, why.as_str()));
        },
        Picked::Attached => {},
    }
    proof {
        assert(text::views(rejected@) =~= before + lines_of(picked@));
    }
}

/// One picked file: the name it is shown under, where there is a path to it what
/// staging it gave, and why its copy was not put in place, where it was not.
pub struct Attempt {
    pub name: Option<Seq<char>>,
    pub staged: Option<Result<Staged, Seq<char>>>,
    pub unplaced: Option<Seq<char>>,
    pub now: Seq<char>,
}

/// What one picked file comes to: the store after it, and what became of it.
pub open spec fn attempted(v: Tables, meeting_id: i64, a: Attempt) -> (Tables, Fate) {
    match a.staged {
        None => (v, Fate::NoPath),
        Some(Err(why)) => (v, Fate::Refused(a.name, why)),
        Some(Ok(staged)) => {
            let refusal = staged_refusal(v, meeting_id, staged);
            let w = if refusal is Some {
                v
            } else {
                placed(
                    with_staged(v, meeting_id, staged, a.now),
                    meeting_id,
                    fresh::<StoredFile>(v.files) as i64,
                    a.unplaced is None,
                )
            };
            (w, fate_of(a.name, refusal, a.unplaced))
        },
    }
}

/// The store after some picked files, and the lines of those that were rejected.
pub open spec fn attempted_all(v: Tables, meeting_id: i64, picks: Seq<Attempt>) -> (
    Tables,
    Seq<Seq<char>>,
)
    decreases picks.len(),
{
    if picks.len() == 0 {
        (v, seq![])
    } else {
        let (w, lines) = attempted_all(v, meeting_id, picks.drop_last());
        let (u, fate) = attempted(w, meeting_id, picks.last());
        (u, lines + lines_of(fate))
    }
}

/// Every picked file ends as one more file of the meeting or as one line of the
/// rejected, and the files that the meeting had stay first.
pub proof fn every_pick_is_a_file_or_a_line(v: Tables, meeting_id: i64, picks: Seq<Attempt>)
    requires
        v.wf(),
    ensures
        ({
            let (u, lines) = attempted_all(v, meeting_id, picks);
            let (before, after) = (files_of(v, meeting_id), files_of(u, meeting_id));
            &&& u.wf()
            &&& u == (Tables { files: u.files, ..v })
            &&& before.len() <= after.len()
            &&& after.take(before.len() as int) == before
            &&& (after.len() - before.len()) + lines.len() == picks.len()
        }),
    decreases picks.len(),
{
    let before = files_of(v, meeting_id);
    if picks.len() == 0 {
        assert(before.take(before.len() as int) =~= before);
    } else {
        let (w, lines) = attempted_all(v, meeting_id, picks.drop_last());
        let a = picks.last();
        let (u, fate) = attempted(w, meeting_id, a);
        every_pick_is_a_file_or_a_line(v, meeting_id, picks.drop_last());
        if let Some(Ok(staged)) = a.staged {
            if staged_refusal(w, meeting_id, staged) is None {
                let id = fresh::<StoredFile>(w.files) as i64;
                let row = staged_row(w, id, meeting_id, staged, a.now);
                if a.unplaced is Some {
                    a_file_without_its_copy_leaves_no_row(w, meeting_id, staged, a.now);
                } else {
                    table::lemma_push_reads::<StoredFile>(w.files, row, id);
                    table::a_row_behind_the_top_is_last::<StoredFile>(w.files, row);
                    let (had, has) = (files_of(w, meeting_id), files_of(u, meeting_id));
                    assert(has.take(had.len() as int) =~= had);
                    assert(has.take(before.len() as int) =~= had.take(before.len() as int));
                }
            }
        }
    }
}

/// What came of attaching files: every file that the meeting has now, and not
/// only the new ones, because the screen replaces its list.
pub fn attach_outcome(store: &Store, meeting_id: i64, rejected: Vec<String>) -> (r: AttachOutcome)
    requires
        store@.wf(),
    ensures
        deep(r.files@) == files_of(store@, meeting_id),
        r.rejected == rejected,
{
    AttachOutcome { files: meetings::meeting_files(store, meeting_id), rejected }
}

} // verus!
