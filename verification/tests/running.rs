//! The running app: its session, its timers, its recordings and its commands.

use intentionality::analysis::{
    checkpoint_notice, observe_window, prepare, record_check, record_checkpoint, settle, stretch,
};
use intentionality::attach::{Kind, Staged};
use intentionality::audio::parse;
use intentionality::blocks::FileContent;
use intentionality::build_info::{banner, newest, stale_since, BuildInfo};
use intentionality::claude::{AnalysisResult, CheckpointResult, MeetingNotes};
use intentionality::commands;
use intentionality::commands::Picked;
use intentionality::db;
use intentionality::error::AppError;
use intentionality::meeting::{
    begin_notes, check_free, check_material, drained, end_notes, load, resume, start, stop,
    upload_failed, uploaded, Loaded,
};
use intentionality::meetings::{
    get_meeting, meeting_segments, meeting_summary, FileRow, NewFile,
};
use intentionality::models::{Arrangement, RecordingNow};
use intentionality::notify::clip;
use intentionality::recommendations;
use intentionality::resume_units::{warning, Layout, Unit, GATE_UNIT, RESUME_UNIT};
use intentionality::rows::{SessionRow, Setting, Store};
use intentionality::scheduler::{
    check_notice, check_step, heartbeat_tick, tick_secs, CheckStep, ADOPT_POLL_SECS,
    HEARTBEAT_SECS,
};
use intentionality::state::{adopt_session, adopt_session_after, boot_time, AppState};
use intentionality::time::{now, Stamp};
use intentionality::transcribe::{
    api_key, carry, check_key, config, read_answer, tail, unreadable, Config, CARRY_CHARS,
    MODEL,
};

// ------------------------------------------------------------------ the session

fn open_at(store: &mut Store, started_at: &str) -> i64 {
    let id = store.sessions.len() as i64 + 1;
    store.sessions.push(SessionRow {
        id,
        started_at: started_at.to_string(),
        ended_at: None,
        close_reason: None,
        statement: "ship it".to_string(),
        intended_minutes: Some(25),
        checkpoint_due_at: None,
        last_heartbeat: None,
        mode: "manual".to_string(),
    });
    id
}

fn open_session(store: &mut Store) -> i64 {
    open_at(store, &now())
}

/// Closes a session whose end is unknown.
fn recover(store: &mut Store, id: i64) {
    for s in store.sessions.iter_mut() {
        if s.id == id {
            s.close_reason = Some("recovered".to_string());
        }
    }
}

fn close(store: &mut Store, id: i64) {
    for s in store.sessions.iter_mut() {
        if s.id == id {
            s.ended_at = Some(now());
        }
    }
}

#[test]
fn an_open_session_is_kept() {
    let mut store = Store::new();
    let id = open_session(&mut store);
    let mut state = AppState::new(Some(id), now());
    assert_eq!(state.sync_session(&store, None, Some(0)), (None, None));
    assert_eq!(state.session_id(), Some(id));
}

#[test]
fn a_closed_session_hands_over_to_its_successor_in_one_step() {
    let mut store = Store::new();
    let old = open_session(&mut store);
    let mut state = AppState::new(Some(old), now());
    close(&mut store, old);
    let new = open_session(&mut store);
    assert_eq!(state.sync_session(&store, None, Some(0)), (Some(old), Some(new)));
    assert_eq!(state.session_id(), Some(new));
}

#[test]
fn a_closed_session_with_no_successor_leaves_none() {
    let mut store = Store::new();
    let old = open_session(&mut store);
    let mut state = AppState::new(Some(old), now());
    close(&mut store, old);
    assert_eq!(state.sync_session(&store, None, Some(0)), (Some(old), None));
    assert_eq!(state.session_id(), None);
}

#[test]
fn nothing_held_and_nothing_open_changes_nothing() {
    let store = Store::new();
    let mut state = AppState::new(None, now());
    assert_eq!(state.sync_session(&store, None, Some(0)), (None, None));
    assert_eq!(state.session_id(), None);
}

#[test]
fn the_boot_time_is_read_out_of_the_kernel_statistics() {
    assert_eq!(boot_time("cpu  1 2 3\nbtime 1757500000\nprocesses 9\n"), Some(1_757_500_000));
    assert_eq!(boot_time("cpu  1 2 3\n"), None);
    assert_eq!(boot_time("btime soon\n"), None);
}

#[test]
fn a_session_is_adopted_by_name_or_by_the_boot() {
    let mut store = Store::new();
    let a = open_at(&mut store, "2026-09-10T10:00:00.000+00:00");
    let b = open_at(&mut store, "2026-09-11T10:00:00.000+00:00");
    // 2026-09-11T10:00:00Z
    let started = 1_789_120_800;
    assert_eq!(adopt_session(&store, Some("1"), None), Some(a));
    assert_eq!(adopt_session(&store, Some("99"), None), None);
    assert_eq!(adopt_session(&store, None, None), None);
    let mut ended = Store::new();
    let c = open_at(&mut ended, "2026-09-11T10:00:00.000+00:00");
    close(&mut ended, c);
    assert_eq!(adopt_session(&ended, Some("1"), Some(0)), None);
    assert_eq!(adopt_session(&store, None, Some(started)), Some(b));
    assert_eq!(adopt_session(&store, Some("x"), Some(started + 1)), None);
    let after = |not_before: &str| adopt_session_after(&store, None, Some(0), not_before);
    assert_eq!(after("2026-09-11T10:00:00.000+00:00"), Some(b));
    assert_eq!(after("2026-09-11T10:00:00.001+00:00"), None);
}

#[test]
fn a_beat_stamps_the_session_unless_the_machine_slept() {
    let mut store = Store::new();
    let id = open_session(&mut store);
    let mut state = AppState::new(Some(id), now());
    let beat = |store: &mut Store, state: &mut AppState, wall: i64, at: &str| {
        heartbeat_tick(store, state, wall, 30, None, Some(0), at)
    };
    assert_eq!(beat(&mut store, &mut state, 30, "t1"), (None, None));
    assert_eq!(store.sessions[0].last_heartbeat.as_deref(), Some("t1"));
    assert_eq!(beat(&mut store, &mut state, 90, "t2"), (None, None));
    assert_eq!(store.sessions[0].last_heartbeat.as_deref(), Some("t1"));
    assert_eq!(beat(&mut store, &mut state, 89, "t3"), (None, None));
    assert_eq!(store.sessions[0].last_heartbeat.as_deref(), Some("t3"));
    close(&mut store, id);
    assert_eq!(beat(&mut store, &mut state, 30, "t4"), (Some(id), None));
    assert_eq!(store.sessions[0].last_heartbeat.as_deref(), Some("t3"));
    assert_eq!(tick_secs(Some(1)), HEARTBEAT_SECS);
    assert_eq!(tick_secs(None), ADOPT_POLL_SECS);
}

#[test]
fn a_recovered_session_is_closed_to_everything_that_runs() {
    let mut store = Store::new();
    store.sessions.push(SessionRow {
        id: 7,
        started_at: "2026-09-10T10:00:00+00:00".to_string(),
        ended_at: None,
        close_reason: Some("recovered".to_string()),
        statement: "ship it".to_string(),
        intended_minutes: None,
        checkpoint_due_at: None,
        last_heartbeat: Some("t0".to_string()),
        mode: "manual".to_string(),
    });
    assert_eq!(adopt_session(&store, Some("7"), None), None);
    assert_eq!(adopt_session(&store, Some("7"), Some(0)), None);
    let mut state = AppState::new(Some(7), now());
    assert_eq!(
        heartbeat_tick(&mut store, &mut state, 30, 30, None, Some(0), "t1"),
        (Some(7), None)
    );
    assert_eq!(store.sessions[0].last_heartbeat.as_deref(), Some("t0"));
    let at = Stamp { secs: 1_789_034_400, nanos: 0 };
    assert_eq!(
        commands::extend_checkpoint(&mut store, Some(7), 5, at).unwrap_err().message(),
        "session is closed"
    );

    let mut held = Store::new();
    let id = open_session(&mut held);
    assert_eq!(adopt_session(&held, Some("1"), None), Some(id));
    recover(&mut held, id);
    assert_eq!(adopt_session(&held, Some("1"), None), None);
}

#[test]
fn a_check_runs_when_its_time_has_come() {
    let at = |secs: i64| Stamp { secs, nanos: 0 };
    assert_eq!(check_step(at(9), at(10), Some(1)), CheckStep::Wait);
    assert_eq!(check_step(at(10), at(10), Some(1)), CheckStep::Run);
    assert_eq!(check_step(at(11), at(10), None), CheckStep::Redraw);
}

// ------------------------------------------------------------------- the checks

#[test]
fn a_check_and_a_checkpoint_are_written_down() {
    let mut store = Store::new();
    let id = open_at(&mut store, "2026-09-10T10:00:00.000+00:00");
    db::set_checkpoint(&mut store, id, "2026-09-10T10:25:00.000+00:00").unwrap();
    assert!(stretch(&store, 9).is_none());
    let quiet = observe_window(None, "a", "b");
    assert_eq!((quiet.active_ms, quiet.afk_ms), (0, 0));
    let p = prepare(
        stretch(&store, id).unwrap(),
        "2026-09-10T11:30:59.999+00:00".to_string(),
        quiet,
        None,
    );
    let p = match p {
        Ok(p) => p,
        Err(e) => panic!("{}", e.message()),
    };
    assert_eq!((p.elapsed_minutes, p.window_minutes), (90, 90));
    assert!(p.too_quiet());
    assert_eq!(p.context().statement, "ship it");

    let a = AnalysisResult {
        headline: "On it".to_string(),
        alignment: Some(67),
        body: "Good.".to_string(),
    };
    let check = record_check(&mut store, id, &p, &a, "{}", "t1").unwrap();
    let list = commands::list_recent_analyses(&store, 10);
    let notice = check_notice(&list, check).unwrap();
    assert_eq!((notice.title.as_str(), notice.body.as_str()), ("On it", "aligned · Good."));
    assert!(check_notice(&list, 77).is_none());

    assert!(db::checkpoint_due(&store, id, "2026-09-11"));
    let v = settle(None);
    assert_eq!(v.headline, "Nothing tracked to judge");
    let done = record_checkpoint(&mut store, id, &p, &v, "{}", "t2").unwrap();
    assert!(!db::checkpoint_due(&store, id, "2026-09-11"));
    let shown = commands::pending_checkpoint(&store, Some(id)).unwrap();
    assert_eq!((shown.id, shown.kind.as_str()), (done, "checkpoint"));
    assert_eq!(
        shown.recommendation.as_ref().unwrap().id,
        recommendations::quiet_window().id
    );
    let notice = checkpoint_notice(&p, &v);
    assert_eq!(notice.title, "Time's up — 25 min intended, 90 elapsed");
    assert!(notice.body.starts_with("Nothing tracked to judge · "));
    // The next window begins where the last one ended.
    assert_eq!(stretch(&store, id).unwrap().window_start, "2026-09-10T11:30:59.999+00:00");
}

#[test]
fn a_window_without_a_readable_time_is_refused() {
    let mut store = Store::new();
    let id = open_at(&mut store, "whenever");
    let quiet = observe_window(None, "a", "b");
    let r = prepare(
        stretch(&store, id).unwrap(),
        "2026-09-10T11:30:00.000+00:00".to_string(),
        quiet,
        None,
    );
    assert!(matches!(r, Err(AppError::BadTimestamp(s)) if s == "whenever"));
}

#[test]
fn a_checkpoint_says_what_the_model_said_or_why_not() {
    let v = settle(Some(Err(AppError::Other("API 500".to_string()))));
    assert_eq!(v.headline, "Check could not run");
    assert_eq!(v.body, "API 500. Your time is up regardless.");
    let said = |note: &str| CheckpointResult {
        headline: "H".to_string(),
        alignment: Some(3),
        body: "B".to_string(),
        recommendation: recommendations::resolve("wrap_up"),
        note: note.to_string(),
    };
    assert_eq!(settle(Some(Ok(said("")))).note, None);
    let v = settle(Some(Ok(said("why"))));
    assert_eq!((v.headline.as_str(), v.alignment, v.note.as_deref()), ("H", Some(3), Some("why")));
    assert_eq!(v.recommendation.id, "wrap_up");
}

#[test]
fn a_notification_is_cut_at_a_word() {
    assert_eq!(clip("short", 10), "short");
    assert_eq!(clip("one two three", 9), "one two…");
    assert_eq!(clip("unbroken", 4), "unbr…");
}

// --------------------------------------------------------------- the recordings

#[test]
fn clipping_twice_is_clipping_once() {
    for text in ["", " a b ", "one two three four", "seventeen", "é é é é é é é", "ab cdefghijkl"] {
        for max in 0..20 {
            let once = clip(text, max);
            assert_eq!(clip(&once, max), once, "{text:?} {max}");
        }
    }
    assert_eq!(clip("one two three", 9), "one two…");
    assert_eq!(clip("abc", 0), "…");
}

#[test]
fn a_recording_is_started_stopped_and_picked_back_up() {
    let mut store = Store::new();
    let mut state = AppState::new(None, now());
    assert!(check_free(&state).is_ok());
    assert_eq!(
        stop(&mut store, &mut state, "t").unwrap_err().message(),
        "no meeting is being recorded"
    );
    let mut c = start(&mut store, None, "t0").unwrap();
    let id = c.meeting_id;
    state.set_meeting(RecordingNow { meeting_id: id, since: "t0".to_string() });
    assert_eq!(
        check_free(&state).unwrap_err().message(),
        "a meeting is already being recorded"
    );
    assert_eq!(state.meeting_id(), Some(id));
    assert_eq!(state.recording().unwrap().since, "t0");
    assert_eq!(c.land(&mut store, Some("hello there"), "t1").unwrap(), 1);
    assert_eq!(c.land(&mut store, None, "t2").unwrap(), 2);
    assert_eq!((c.seq, c.context.as_str()), (2, "hello there"));
    assert_eq!(stop(&mut store, &mut state, "t3").unwrap(), id);
    assert_eq!(state.meeting_id(), None);
    assert!(resume(&mut store, id, "t4").is_err());
    assert!(drained(&mut store, id));
    assert!(!drained(&mut store, id));
    let mut c = resume(&mut store, id, "t5").unwrap();
    assert_eq!((c.seq, c.context.as_str()), (2, "hello there"));
    c.land(&mut store, Some("and more"), "t6").unwrap();
    // A chunk that never reached the store moves the recording on all the same.
    c.step(Some("said but not kept"));
    c.step(None);
    assert_eq!((c.seq, c.context.as_str()), (5, "said but not kept"));
    let texts: Vec<String> =
        meeting_segments(&store, id).into_iter().map(|s| s.text).collect();
    assert_eq!(texts, ["hello there", "", "and more"]);
}

fn finished(store: &mut Store) -> i64 {
    let id = start(store, None, "t0").unwrap().meeting_id;
    assert!(drained(store, id));
    id
}

#[test]
fn notes_end_in_a_summary_or_an_error() {
    let mut store = Store::new();
    let id = finished(&mut store);
    assert_eq!(
        begin_notes(&mut store, Some(id), id).unwrap_err().message(),
        "that meeting is still recording"
    );
    begin_notes(&mut store, None, id).unwrap();
    assert_eq!(
        begin_notes(&mut store, None, id).unwrap_err().message(),
        "that meeting is not finished yet"
    );
    let notes = MeetingNotes {
        title: "T".to_string(),
        summary: "S".to_string(),
        action_items: vec!["do".to_string()],
    };
    end_notes(&mut store, id, Ok(notes), "t1").unwrap();
    assert_eq!(meeting_summary(&store, id).unwrap().0.as_deref(), Some("S"));
    begin_notes(&mut store, None, id).unwrap();
    assert!(end_notes(&mut store, id, Err(AppError::Other("no".to_string())), "t2").is_err());
    let m = get_meeting(&store, id).unwrap();
    assert_eq!((m.state.as_str(), m.error.as_deref()), ("failed", Some("no")));
    // What was recorded before the notes is still there.
    let mut c = resume(&mut store, id, "t3").unwrap();
    c.land(&mut store, Some("said"), "t4").unwrap();
    assert!(drained(&mut store, id));
    begin_notes(&mut store, None, id).unwrap();
    assert!(end_notes(&mut store, id, Err(AppError::Other("no".to_string())), "t5").is_err());
    assert_eq!(meeting_segments(&store, id)[0].text, "said");
}

#[test]
fn notes_need_something_to_write_from() {
    assert!(check_material(" ", "\n", 0).is_err());
    assert!(check_material("said", "", 0).is_ok());
    assert!(check_material("", "typed", 0).is_ok());
    assert!(check_material("", "", 1).is_ok());
}

fn row(kind: &str, extracted: Option<&str>) -> FileRow {
    FileRow {
        name: "f".to_string(),
        path: "/p".to_string(),
        kind: kind.to_string(),
        extracted: extracted.map(|s| s.to_string()),
    }
}

#[test]
fn attachments_are_loaded_by_their_kind() {
    assert!(matches!(load(&row("text", Some("x")), None), Some(Loaded::Text(t)) if t == "x"));
    assert!(load(&row("office", None), None).is_none());
    assert!(load(&row("pdf", None), None).is_none());
    assert!(matches!(
        load(&row("pdf", None), Some(vec![1])),
        Some(Loaded::Upload { media_type: "application/pdf", .. })
    ));
    assert!(matches!(
        load(&row("image", None), Some(b"GIF89a".to_vec())),
        Some(Loaded::Upload { media_type: "image/gif", .. })
    ));
    assert!(load(&row("image", None), Some(b"no image".to_vec())).is_none());
    assert!(load(&row("film", Some("x")), Some(vec![])).is_none());
    assert!(matches!(
        uploaded("application/pdf", "f1".to_string()),
        FileContent::Pdf { file_id } if file_id == "f1"
    ));
    assert!(matches!(uploaded("image/png", "f".to_string()), FileContent::Image { .. }));
    assert_eq!(
        upload_failed("a.pdf", &AppError::Other("down".to_string())).message(),
        "could not upload a.pdf: down"
    );
}

#[test]
fn a_staged_file_is_attached_or_leaves_no_row() {
    let mut store = Store::new();
    let id = finished(&mut store);
    let staged = Staged {
        name: "a.txt".to_string(),
        kind: Kind::Text,
        bytes: 3,
        extracted: Some("abc".to_string()),
        temp: "/m/1/x.tmp".to_string(),
        final_path: "/m/1/x".to_string(),
    };
    assert!(commands::attach_staged(&mut store, 99, &staged, "t").is_err());
    let file = commands::attach_staged(&mut store, id, &staged, "t").unwrap();
    assert_eq!(store.files[0].path, "/m/1/x");
    assert_eq!((store.files[0].kind.as_str(), store.files[0].bytes), ("text", 3));
    commands::settle_file(&mut store, id, file, true);
    assert_eq!(store.files.len(), 1);
    commands::settle_file(&mut store, 99, file, false);
    assert_eq!(store.files.len(), 1);
    commands::settle_file(&mut store, id, file, false);
    assert!(store.files.is_empty());
    for _ in 0..8 {
        commands::attach_staged(&mut store, id, &staged, "t").unwrap();
    }
    assert_eq!(
        commands::attach_staged(&mut store, id, &staged, "t").unwrap_err().message(),
        "that meeting already has 8 files — remove one first"
    );
}

// ----------------------------------------------------------------- the commands

#[test]
fn every_picked_file_is_a_row_or_a_line() {
    let mut store = Store::new();
    let id = finished(&mut store);
    let staged = |name: &str| Staged {
        name: name.to_string(),
        kind: Kind::Text,
        bytes: 3,
        extracted: Some("abc".to_string()),
        temp: "/m/1/x.tmp".to_string(),
        final_path: "/m/1/x".to_string(),
    };
    let mut rejected: Vec<String> = Vec::new();
    let mut picks = 0;
    // No path, refused while it was staged.
    for fate in [
        Picked::NoPath,
        Picked::Refused(Some("a.bin".to_string()), "too odd".to_string()),
        Picked::Refused(None, "could not be read".to_string()),
    ] {
        commands::note_pick(&mut rejected, &fate);
        picks += 1;
    }
    // Put in place, not put in place, and refused by the store.
    for (meeting, name, unplaced) in
        [(id, "b", None), (id, "c", Some("disk full")), (99, "d", None), (id, "e", None)]
    {
        let added = commands::attach_staged(&mut store, meeting, &staged(name), "t");
        if let Ok(file) = &added {
            commands::settle_file(&mut store, meeting, *file, unplaced.is_none());
        }
        commands::note_pick(&mut rejected, &commands::fate(Some(name), &added, unplaced));
        picks += 1;
    }
    assert_eq!(
        rejected,
        [
            "that file could not be read",
            "a.bin: too odd",
            "that file: could not be read",
            "c: disk full",
            "d: no such meeting",
        ]
    );
    let out = commands::attach_outcome(&store, id, rejected);
    assert_eq!(out.files.iter().map(|f| f.name.as_str()).collect::<Vec<_>>(), ["b", "e"]);
    assert_eq!(out.files.len() + out.rejected.len(), picks);
}

#[test]
fn the_board_is_written_for_the_session_that_is_held() {
    let mut store = Store::new();
    store.settings.push(Setting {
        key: "schema_version".to_string(),
        value: db::SCHEMA_VERSION.to_string(),
    });
    let none = commands::add_task(&mut store, None, "x", false, "t").unwrap_err();
    assert_eq!(none.message(), "no open session");
    let spare = commands::add_task(&mut store, None, "later", true, "t").unwrap();
    let id = open_session(&mut store);
    let task = commands::add_task(&mut store, Some(id), "now", false, "t").unwrap();
    commands::pull_task(&mut store, Some(id), spare).unwrap();
    let arr = Arrangement {
        todo: vec![spare],
        doing: vec![task],
        done: vec![],
        dropped: vec![],
    };
    commands::apply_board(&mut store, Some(id), &arr, "t2").unwrap();
    let board = commands::get_board(&store, Some(id)).unwrap();
    assert_eq!(board.tasks.len(), 2);
    assert!(board.backlog.is_empty());
    assert_eq!(board.session.unwrap().id, id);
    assert!(commands::get_board(&store, None).unwrap().tasks.is_empty());
    assert!(commands::get_board(&store, Some(99)).unwrap().session.is_none());
}

#[test]
fn a_blank_date_is_no_date() {
    assert_eq!(commands::blank_is_none(Some("  ")), None);
    assert_eq!(commands::blank_is_none(Some(" 2026-01-02 ")).as_deref(), Some("2026-01-02"));
    assert_eq!(commands::blank_is_none(None), None);
    let mut store = Store::new();
    let labels = vec!["ops".to_string()];
    let id = commands::create_task(&mut store, None, "a", "n", Some(" "), &labels, true, "t");
    let id = id.unwrap();
    assert_eq!(store.tasks[0].due_date, None);
    commands::update_task(&mut store, id, "b", "", Some("2026-01-02"), &labels).unwrap();
    assert_eq!(store.tasks[0].due_date.as_deref(), Some("2026-01-02"));
}

#[test]
fn lists_are_kept_to_their_limits() {
    let mut store = Store::new();
    for _ in 0..120 {
        open_session(&mut store);
    }
    assert_eq!(commands::list_sessions(&store, 0).len(), 1);
    assert_eq!(commands::list_sessions(&store, 1000).len(), 100);
    for _ in 0..3 {
        start(&mut store, None, "t").unwrap();
    }
    assert_eq!(commands::list_meetings(&store, -5).len(), 1);
    assert_eq!(commands::list_meetings(&store, 2).len(), 2);
}

#[test]
fn a_checkpoint_is_put_off_by_a_day_at_most() {
    let mut store = Store::new();
    let at = Stamp { secs: 1_789_034_400, nanos: 0 };
    assert!(commands::extend_checkpoint(&mut store, None, 5, at).is_err());
    let id = open_session(&mut store);
    assert_eq!(
        commands::extend_checkpoint(&mut store, Some(id), 0, at).unwrap(),
        "2026-09-10T10:01:00+00:00"
    );
    assert_eq!(
        commands::extend_checkpoint(&mut store, Some(id), 99_999, at).unwrap(),
        "2026-09-11T10:00:00+00:00"
    );
}

#[test]
fn a_meeting_is_shown_whole_and_not_deleted_while_it_runs() {
    let mut store = Store::new();
    let id = finished(&mut store);
    let d = commands::get_meeting(&store, id).unwrap();
    assert_eq!((d.meeting.id, d.segments.len(), d.notes.as_str()), (id, 0, ""));
    assert!(commands::get_meeting(&store, 9).is_err());
    assert_eq!(
        commands::delete_meeting(&mut store, Some(id), id).unwrap_err().message(),
        "stop the recording before deleting it"
    );
    let f = NewFile { name: "a", path: "/p", kind: "text", bytes: 1, extracted: Some("x") };
    intentionality::meetings::add_meeting_file(&mut store, id, &f, 8, 10_000, 10_000, "t").unwrap();
    let shown = commands::attach_outcome(&store, id, vec![commands::rejection(None, "too big")]);
    assert_eq!((shown.files.len(), shown.rejected[0].as_str()), (1, "that file: too big"));
    assert_eq!(commands::rejection(Some("a.txt"), "no"), "a.txt: no");
    commands::delete_meeting(&mut store, None, id).unwrap();
    assert!(store.meetings.is_empty());
}

#[test]
fn health_reports_the_schema_and_the_session() {
    let build = || BuildInfo {
        version: "1".to_string(),
        built_at: None,
        stale_since: None,
    };
    let mut store = Store::new();
    assert!(commands::health(&store, None, true, build(), None).is_err());
    store.settings.push(Setting { key: "schema_version".to_string(), value: "1".to_string() });
    let id = open_session(&mut store);
    let h = commands::health(&store, Some(id), false, build(), Some("w".to_string())).unwrap();
    assert_eq!((h.schema_version, h.needs_migration, h.aw_ok), (1, true, false));
    assert_eq!(h.session.unwrap().id, id);
    assert_eq!(h.resume_gate.as_deref(), Some("w"));
}

#[test]
fn a_session_is_observed_until_it_ended() {
    let mut store = Store::new();
    let id = open_at(&mut store, "a");
    assert_eq!(
        commands::observed_span(&store, id, "n").unwrap(),
        ("a".to_string(), "n".to_string())
    );
    store.sessions[0].ended_at = Some("z".to_string());
    assert_eq!(
        commands::observed_span(&store, id, "n").unwrap(),
        ("a".to_string(), "z".to_string())
    );
    assert!(commands::observed_span(&store, 9, "n").is_err());
}

// -------------------------------------------------------------------- the build

#[test]
fn a_build_older_than_its_sources_is_stale() {
    assert_eq!(newest(&vec![None, Some(3), Some(9), Some(4)]), Some(9));
    assert_eq!(stale_since(Some(8), &vec![Some(9)]), Some(9));
    assert_eq!(stale_since(Some(9), &vec![Some(9)]), None);
    assert_eq!(stale_since(None, &vec![Some(9)]), None);
    assert_eq!(stale_since(Some(9), &vec![]), None);
    let mut b = BuildInfo {
        version: "0.5.0".to_string(),
        built_at: Some("noon".to_string()),
        stale_since: None,
    };
    assert_eq!(banner(&b), "intentionality v0.5.0 built noon");
    b.stale_since = Some("one".to_string());
    assert_eq!(banner(&b), "intentionality v0.5.0 built noon — STALE, source changed one");
}

// ------------------------------------------------------------- the resume units

/// Both units with the sources, and nothing installed.
fn layout() -> Layout {
    let units = [RESUME_UNIT, GATE_UNIT]
        .iter()
        .map(|u| Unit { installed: None, source: Some(format!("# {u}\n").into_bytes()) })
        .collect();
    Layout { sources: true, enabled: false, units }
}

fn copy_units(l: &mut Layout) {
    for u in l.units.iter_mut() {
        u.installed = u.source.clone();
    }
}

#[test]
fn nothing_installed() {
    assert!(warning(&layout()).unwrap().contains("not installed"));
}

#[test]
fn copied_but_never_enabled() {
    let mut l = layout();
    copy_units(&mut l);
    assert!(warning(&l).unwrap().contains("not installed"));
}

#[test]
fn installed_and_identical() {
    let mut l = layout();
    copy_units(&mut l);
    l.enabled = true;
    assert_eq!(warning(&l), None);
}

#[test]
fn edited_after_install() {
    let mut l = layout();
    copy_units(&mut l);
    l.enabled = true;
    l.units[1].source = Some(b"# changed\n".to_vec());
    assert!(warning(&l).unwrap().contains("differ"));
}

#[test]
fn enabled_but_unit_file_gone() {
    let mut l = layout();
    copy_units(&mut l);
    l.enabled = true;
    l.units[0].installed = None;
    assert!(warning(&l).unwrap().contains("differ"));
}

#[test]
fn no_repo_to_compare_against() {
    let l = Layout { sources: false, ..layout() };
    assert_eq!(warning(&l), None);
}

// -------------------------------------------------------------- the microphones

/// A listing of four objects, two of them microphones.
const DUMP: &str = r#"[
  {"id": 33, "type": "PipeWire:Interface:Node",
   "info": {"props": {"media.class": "Audio/Sink",
                      "node.name": "alsa_output.pci-0000_00_1f.3.HiFi__Speaker__sink",
                      "node.description": "Speakers"}}},
  {"id": 57, "type": "PipeWire:Interface:Node",
   "info": {"props": {"media.class": "Audio/Source",
                      "node.name": "alsa_input.pci-0000_00_1f.3-platform-skl_hda_dsp_generic.HiFi__Mic1__source",
                      "node.description": "Raptor Lake-P/U/H cAVS Digital Microphone",
                      "node.nick": "Digital Microphone",
                      "object.serial": 57}}},
  {"id": 121, "type": "PipeWire:Interface:Node",
   "info": {"props": {"media.class": "Audio/Source",
                      "node.name": "bluez_input.F4:33:B7:59:41:B8",
                      "node.description": "David’s Airpods",
                      "object.serial": 644}}},
  {"id": 42, "type": "PipeWire:Interface:Device",
   "info": {"props": {"device.name": "alsa_card.pci-0000_00_1f.3"}}}
]"#;

#[test]
fn only_capture_nodes_are_offered() {
    let got = parse(DUMP);
    assert_eq!(got.len(), 2, "{got:?}");
    assert!(got.iter().all(|s| !s.target.contains("output")));
}

#[test]
fn the_target_is_the_node_name_not_the_serial() {
    let got = parse(DUMP);
    assert!(got.iter().any(|s| s.target == "bluez_input.F4:33:B7:59:41:B8"));
    assert!(got.iter().all(|s| s.target.parse::<u64>().is_err()));
}

#[test]
fn the_label_prefers_the_human_readable_description() {
    let got = parse(DUMP);
    let labels: Vec<&str> = got.iter().map(|s| s.label.as_str()).collect();
    assert!(labels.contains(&"Raptor Lake-P/U/H cAVS Digital Microphone"), "{labels:?}");
    assert!(labels.contains(&"David’s Airpods"), "{labels:?}");
}

#[test]
fn a_source_with_no_description_falls_back_to_nick_then_name() {
    let json = r#"[
      {"info": {"props": {"media.class": "Audio/Source",
                          "node.name": "alsa_input.usb-boundary",
                          "node.nick": "Boundary Mic"}}},
      {"info": {"props": {"media.class": "Audio/Source",
                          "node.name": "alsa_input.nameless"}}}
    ]"#;
    let got = parse(json);
    assert_eq!(got[0].label, "Boundary Mic");
    assert_eq!(got[1].label, "alsa_input.nameless");
}

#[test]
fn unusable_output_yields_an_empty_list_not_a_failure() {
    assert!(parse("").is_empty());
    assert!(parse("not json").is_empty());
    assert!(parse("{}").is_empty()); // an object, not the expected array
    assert!(parse("[]").is_empty());
    assert!(parse(r#"[{"info": null}]"#).is_empty());
    assert!(parse(r#"[{"info": {"props": {"media.class": "Audio/Source"}}}]"#).is_empty());
}

#[test]
fn the_same_node_is_never_offered_twice() {
    let json = r#"[
      {"info": {"props": {"media.class": "Audio/Source",
                          "node.name": "mic", "node.description": "Mic"}}},
      {"info": {"props": {"media.class": "Audio/Source",
                          "node.name": "mic", "node.description": "Mic"}}}
    ]"#;
    assert_eq!(parse(json).len(), 1);
}

#[test]
fn a_node_with_two_names_is_offered_under_the_first() {
    let json = r#"[
      {"info": {"props": {"media.class": "Audio/Source",
                          "node.name": "mic", "node.description": "Zed"}}},
      {"info": {"props": {"media.class": "Audio/Source",
                          "node.name": "other", "node.description": "Mid"}}},
      {"info": {"props": {"media.class": "Audio/Source",
                          "node.name": "mic", "node.description": "Ace"}}}
    ]"#;
    let got = parse(json);
    let shown: Vec<(&str, &str)> =
        got.iter().map(|s| (s.target.as_str(), s.label.as_str())).collect();
    assert_eq!(shown, [("mic", "Ace"), ("other", "Mid")]);
}

// ------------------------------------------------------------ the transcription

#[test]
fn carry_takes_the_tail_not_the_head() {
    let long = "a".repeat(500) + "the end";
    let got = carry(&long);
    assert!(got.ends_with("the end"));
    assert_eq!(got.chars().count(), CARRY_CHARS);
}

#[test]
fn carry_returns_short_transcripts_whole() {
    assert_eq!(carry("  so we agreed on Thursday.  "), "so we agreed on Thursday.");
    assert_eq!(carry(""), "");
}

#[test]
fn carry_does_not_split_a_multibyte_character() {
    let text = "é".repeat(400);
    let got = carry(&text);
    assert_eq!(got.chars().count(), CARRY_CHARS);
    assert!(got.chars().all(|c| c == 'é'));
}

#[test]
fn a_tail_has_as_many_characters_as_asked_for() {
    assert_eq!(tail("abc", 0), "");
    assert_eq!(tail("", 0), "");
    assert_eq!(tail("abc", 1), "c");
    assert_eq!(tail(" abc ", 3), "abc");
    assert_eq!(tail("abc", 4), "abc");
    assert_eq!(tail("ab c", 2), "c");
}

#[test]
fn a_tail_in_two_steps_is_a_tail_in_one() {
    for text in ["", "  one two  three ", "ab  c", "é x\u{3000}y  z", "   "] {
        for n in 0..10 {
            for m in 0..=n {
                assert_eq!(tail(&tail(text, n), m), tail(text, m), "{text:?} {n} {m}");
            }
        }
    }
}

#[test]
fn what_was_said_before_the_end_is_not_carried() {
    for t in ["b".repeat(200), " ".repeat(150) + &"c".repeat(50), "d ".repeat(120)] {
        for p in ["", "x", "said before ", "   ", "y\n"] {
            assert_eq!(carry(&(p.to_string() + &t)), carry(&t), "{p:?}");
        }
    }
}

fn with_env(model: Option<&str>, language: Option<&str>) -> Result<Config, AppError> {
    config(model, language)
}

#[test]
fn the_default_configuration_is_what_shipped() {
    let got = with_env(None, None).unwrap();
    assert_eq!(got.model, "gpt-4o-transcribe");
    assert_eq!(got.language, "en");
}

#[test]
fn an_allowed_model_is_accepted() {
    assert_eq!(with_env(Some("whisper-1"), None).unwrap().model, "whisper-1");
    assert_eq!(with_env(Some(" whisper-1 "), None).unwrap().model, "whisper-1");
    // Empty is not a choice; it is an unset variable with extra steps.
    assert_eq!(with_env(Some(""), None).unwrap().model, MODEL);
}

#[test]
fn an_unknown_model_is_refused_with_the_allowed_list() {
    let err = with_env(Some("gpt-4o-transcribe-diarize"), None).unwrap_err().message();
    assert!(err.contains("gpt-4o-transcribe-diarize"), "{err}");
    assert!(err.contains("whisper-1"), "{err}");
}

#[test]
fn a_language_override_is_validated_as_iso_639_1() {
    assert_eq!(with_env(None, Some("de")).unwrap().language, "de");
    assert_eq!(with_env(None, Some("DE")).unwrap().language, "de");
    for bad in ["deu", "e", "e1", "german"] {
        assert!(with_env(None, Some(bad)).is_err(), "{bad} was accepted");
    }
}

#[test]
fn changing_the_model_does_not_change_the_language() {
    assert_eq!(with_env(Some("whisper-1"), None).unwrap().language, "en");
}

#[test]
fn a_transcription_is_read_out_of_its_answer() {
    let json = |s: &str| intentionality::json::parse(s).unwrap();
    assert_eq!(read_answer(true, "200", &json(r#"{"text": " hi "}"#)).unwrap(), "hi");
    assert_eq!(read_answer(true, "200", &json("{}")).unwrap(), "");
    assert_eq!(
        read_answer(false, "401 x", &json(r#"{"error": {"message": "bad key"}}"#))
            .unwrap_err()
            .message(),
        "transcription API 401 x: bad key"
    );
    assert_eq!(
        read_answer(false, "500", &json("{}")).unwrap_err().message(),
        "transcription API 500: unknown error"
    );
    assert_eq!(intentionality::transcribe::unreachable("x").message(), "transcription API unreachable: x");
    assert_eq!(unreadable("x").message(), "bad transcription response: x");
    assert_eq!(api_key(Some(" a "), None).unwrap(), "a");
    assert_eq!(api_key(None, Some("b")).unwrap(), "b");
    assert!(check_key(None, None).is_err());
    assert!(check_key(Some("a"), None).is_ok());
}
