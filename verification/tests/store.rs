//! The board, the labels and the meetings, over a store in memory.

use intentionality::analyses::{
    add_analysis, analysis_observed, last_analysis_end, latest_analysis, list_analyses,
    list_recent_analyses, mark_analysis_seen, pending_checkpoint, unseen_analyses, NewAnalysis,
};
use intentionality::board::{
    add_task, apply_board, backlog, create_label, create_task, delete_backlog_task, delete_label,
    list_labels, pull_task, session_tasks, update_task,
};
use intentionality::db::{
    check_schema, checkpoint_due, clear_checkpoint, extend_checkpoint, get_session, get_setting,
    heartbeat, latest_open_session, list_sessions, schema_version, session_is_open, set_checkpoint,
    store_path, MIGRATE_HINT, SCHEMA_VERSION,
};
use intentionality::error::AppError;
use intentionality::meetings::{
    add_meeting_file, add_segment, approve_actions, clean_transcript, delete_meeting,
    delete_meeting_file, finish_meeting, get_meeting, list_meetings, meeting_actions,
    meeting_cleaning, meeting_failed, meeting_file_rows, meeting_files, meeting_notes_text,
    meeting_rerun, meeting_resume, meeting_segments, meeting_state, meeting_stopped,
    meeting_summary, resume_point, set_clean_transcript, set_meeting_notes, set_meeting_summary,
    start_meeting, sweep_orphan_meetings, transcript, MeetingNotes, NewFile,
};
use intentionality::models::{Arrangement, Label};
use intentionality::rows::{SessionRow, Setting, Store, StoredFile};
use intentionality::time::{now, Stamp};

fn open_session(store: &mut Store) -> i64 {
    let id = store.sessions.len() as i64 + 1;
    store.sessions.push(SessionRow {
        id,
        started_at: now(),
        ended_at: None,
        close_reason: None,
        statement: String::new(),
        intended_minutes: None,
        checkpoint_due_at: None,
        last_heartbeat: None,
        mode: "manual".to_string(),
    });
    id
}

fn close(store: &mut Store, id: i64) {
    for s in store.sessions.iter_mut() {
        if s.id == id {
            s.ended_at = Some(now());
        }
    }
}

/// An open session with one card on it.
fn session_with_task(store: &mut Store) -> (i64, i64) {
    let session_id = open_session(store);
    let task_id = add_task(store, Some(session_id), "write the thing", &now()).unwrap();
    (session_id, task_id)
}

fn names(list: &[&str]) -> Vec<String> {
    list.iter().map(|s| s.to_string()).collect()
}

fn label_names(store: &Store, task_id: i64) -> Vec<String> {
    let session_id = store.tasks.iter().find(|t| t.id == task_id).unwrap().session_id.unwrap();
    session_tasks(store, session_id)
        .into_iter()
        .find(|t| t.id == task_id)
        .unwrap()
        .labels
        .into_iter()
        .map(|l| l.name)
        .collect()
}

fn finish(store: &mut Store, id: i64, title: &str, summary: &str, items: &[&str]) {
    let action_items = names(items);
    let notes = MeetingNotes { title, summary, action_items: &action_items };
    finish_meeting(store, id, &notes, &now()).unwrap();
}

#[test]
fn update_task_round_trips_title_notes_and_labels() {
    let mut store = Store::new();
    let (session_id, task_id) = session_with_task(&mut store);
    update_task(
        &mut store,
        task_id,
        "write the other thing",
        "two paragraphs\nof plain text",
        None,
        &names(&["billing", "urgent"]),
    )
    .unwrap();

    let task = session_tasks(&store, session_id).pop().unwrap();
    assert_eq!(task.title, "write the other thing");
    assert_eq!(task.notes, "two paragraphs\nof plain text");
    // Sorted by name, so the chips are in the same order every render.
    assert_eq!(
        task.labels.iter().map(|l| l.name.as_str()).collect::<Vec<_>>(),
        ["billing", "urgent"]
    );
    assert!(task.labels.iter().all(|l| l.color.starts_with('#')));
    assert_eq!(list_labels(&store).len(), 2);
}

#[test]
fn a_label_is_reused_across_tasks_whatever_its_case() {
    let mut store = Store::new();
    let (session_id, first) = session_with_task(&mut store);
    let second = add_task(&mut store, Some(session_id), "another", &now()).unwrap();
    update_task(&mut store, first, "a", "", None, &names(&["billing"])).unwrap();
    let color = list_labels(&store)[0].color.clone();

    update_task(&mut store, second, "b", "", None, &names(&["BILLING"])).unwrap();
    let labels = list_labels(&store);
    assert_eq!(labels.len(), 1);
    assert_eq!(labels[0].name, "billing");
    assert_eq!(labels[0].color, color);
    assert_eq!(label_names(&store, second), ["billing"]);
}

#[test]
fn a_label_outlives_its_last_task() {
    let mut store = Store::new();
    let (session_id, first) = session_with_task(&mut store);
    let second = add_task(&mut store, Some(session_id), "another", &now()).unwrap();
    update_task(&mut store, first, "a", "", None, &names(&["billing"])).unwrap();
    update_task(&mut store, second, "b", "", None, &names(&["billing", "urgent"])).unwrap();
    let uses = |store: &Store| -> Vec<(String, i64)> {
        list_labels(store).into_iter().map(|l| (l.name, l.uses)).collect()
    };
    assert_eq!(uses(&store), [("billing".to_string(), 2), ("urgent".to_string(), 1)]);

    update_task(&mut store, first, "a", "", None, &names(&[])).unwrap();
    update_task(&mut store, second, "b", "", None, &names(&[])).unwrap();
    assert_eq!(uses(&store), [("billing".to_string(), 0), ("urgent".to_string(), 0)]);
    assert_eq!(store.task_labels.len(), 0);
}

#[test]
fn a_preset_is_tagged_by_name_and_keeps_its_colour() {
    let mut store = Store::new();
    let (_, task_id) = session_with_task(&mut store);
    create_label(&mut store, "  Reading  ").unwrap();
    let preset = list_labels(&store).pop().unwrap();
    assert_eq!((preset.name.as_str(), preset.uses), ("Reading", 0));
    // Making it again, in another case, is the same label.
    create_label(&mut store, "reading").unwrap();
    assert_eq!(list_labels(&store).len(), 1);
    assert!(create_label(&mut store, "   ").is_err());

    update_task(&mut store, task_id, "a", "", None, &names(&["READING"])).unwrap();
    let task = session_tasks(&store, 1).pop().unwrap();
    assert_eq!(task.labels, [Label { name: "Reading".to_string(), color: preset.color }]);
}

#[test]
fn deleting_a_label_takes_it_off_every_card() {
    let mut store = Store::new();
    let (session_id, task_id) = session_with_task(&mut store);
    update_task(&mut store, task_id, "a", "", None, &names(&["billing", "urgent"])).unwrap();
    delete_label(&mut store, "Billing").unwrap();
    assert_eq!(label_names(&store, task_id), ["urgent"]);
    assert_eq!(list_labels(&store).len(), 1);
    assert!(delete_label(&mut store, "billing").is_err());
    assert_eq!(session_tasks(&store, session_id).len(), 1);
}

#[test]
fn create_task_writes_the_whole_card_at_once() {
    let mut store = Store::new();
    let (session_id, first) = session_with_task(&mut store);
    let id = create_task(
        &mut store,
        Some(session_id),
        "with details",
        "some notes",
        Some("2026-10-01"),
        &names(&["billing"]),
        &now(),
    )
    .unwrap();
    let tasks = session_tasks(&store, session_id);
    assert_eq!(tasks.iter().map(|t| t.id).collect::<Vec<_>>(), [first, id]);
    let task = &tasks[1];
    assert_eq!(
        (task.title.as_str(), task.notes.as_str(), task.due_date.as_deref(), task.position),
        ("with details", "some notes", Some("2026-10-01"), 2)
    );
    assert_eq!(label_names(&store, id), ["billing"]);

    let backlog_id =
        create_task(&mut store, None, "for later", "", None, &names(&["later"]), &now()).unwrap();
    let rows = backlog(&store);
    assert_eq!(rows.iter().map(|t| t.id).collect::<Vec<_>>(), [backlog_id]);
    assert_eq!(rows[0].labels.len(), 1);
}

#[test]
fn create_task_writes_nothing_when_refused() {
    let mut store = Store::new();
    let (session_id, _) = session_with_task(&mut store);
    assert!(create_task(
        &mut store,
        Some(session_id),
        "t",
        "",
        Some("2026-9-1"),
        &names(&[]),
        &now()
    )
    .is_err());
    close(&mut store, session_id);
    assert!(matches!(
        create_task(&mut store, Some(session_id), "t", "n", None, &names(&["x"]), &now()),
        Err(AppError::SessionClosed(_))
    ));
    assert_eq!(store.tasks.len(), 1);
    assert_eq!(store.labels.len(), 0);
}

#[test]
fn update_task_ignores_blank_and_repeated_labels() {
    let mut store = Store::new();
    let (_, task_id) = session_with_task(&mut store);
    update_task(&mut store, task_id, "a", "", None, &names(&["  billing  ", "", "Billing"])).unwrap();
    assert_eq!(label_names(&store, task_id), ["billing"]);
}

#[test]
fn update_task_refuses_an_unknown_id() {
    let mut store = Store::new();
    assert!(update_task(&mut store, 404, "a", "", None, &names(&[])).is_err());
}

#[test]
fn update_task_sets_and_clears_the_due_date() {
    let mut store = Store::new();
    let (session_id, task_id) = session_with_task(&mut store);
    update_task(&mut store, task_id, "a", "", Some("2026-09-18"), &names(&[])).unwrap();
    let task = session_tasks(&store, session_id).pop().unwrap();
    assert_eq!(task.due_date.as_deref(), Some("2026-09-18"));

    update_task(&mut store, task_id, "a", "", None, &names(&[])).unwrap();
    let task = session_tasks(&store, session_id).pop().unwrap();
    assert_eq!(task.due_date, None);
}

#[test]
fn update_task_refuses_a_malformed_due_date() {
    let mut store = Store::new();
    let (session_id, task_id) = session_with_task(&mut store);
    for bad in ["tomorrow", "2026-02-30", "2026-9-1", "2026-09-18T10:00", ""] {
        assert!(
            update_task(&mut store, task_id, "a", "", Some(bad), &names(&[])).is_err(),
            "{bad:?} was accepted"
        );
    }
    // Nothing else on the card changed.
    let task = session_tasks(&store, session_id).pop().unwrap();
    assert_eq!(task.title, "write the thing");
    assert_eq!(task.due_date, None);
}

#[test]
fn a_card_can_be_dropped_and_restored() {
    let mut store = Store::new();
    let (session_id, task_id) = session_with_task(&mut store);
    let arrange = |store: &mut Store, arr: Arrangement| {
        apply_board(store, session_id, &arr, &now()).unwrap();
        session_tasks(store, session_id).pop().unwrap()
    };

    let dropped = arrange(
        &mut store,
        Arrangement { todo: vec![], doing: vec![], done: vec![], dropped: vec![task_id] },
    );
    assert_eq!(dropped.status, "dropped");
    assert!(store.tasks[0].resolved_at.is_some());

    let restored = arrange(
        &mut store,
        Arrangement { todo: vec![task_id], doing: vec![], done: vec![], dropped: vec![] },
    );
    assert_eq!(restored.status, "planned");
    assert!(store.tasks[0].resolved_at.is_none());
}

#[test]
fn a_closed_session_refuses_board_writes() {
    let mut store = Store::new();
    let (session_id, task_id) = session_with_task(&mut store);
    let backlog_id = add_task(&mut store, None, "a backlog item", &now()).unwrap();
    close(&mut store, session_id);

    let moved = Arrangement { todo: vec![], doing: vec![task_id], done: vec![], dropped: vec![] };
    assert!(matches!(
        apply_board(&mut store, session_id, &moved, &now()),
        Err(AppError::SessionClosed(id)) if id == session_id
    ));
    assert!(matches!(
        add_task(&mut store, Some(session_id), "late", &now()),
        Err(AppError::SessionClosed(_))
    ));
    assert!(matches!(
        pull_task(&mut store, session_id, backlog_id),
        Err(AppError::SessionClosed(_))
    ));

    let task = store.tasks.iter().find(|t| t.id == task_id).unwrap();
    assert_eq!((task.status.as_str(), task.started_at.clone()), ("planned", None));
    assert_eq!(session_tasks(&store, session_id).len(), 1);
    assert_eq!(backlog(&store).len(), 1);
    // The backlog belongs to no session and stays writable between them.
    assert!(add_task(&mut store, None, "still fine", &now()).is_ok());
}

#[test]
fn a_missing_session_is_not_open() {
    assert!(!session_is_open(&Store::new(), 404));
}

#[test]
fn a_session_closed_with_an_unknown_end_is_not_open() {
    let mut store = Store::new();
    let (session_id, _) = session_with_task(&mut store);
    assert!(session_is_open(&store, session_id));
    store.sessions[0].close_reason = Some("recovered".to_string());
    assert!(!session_is_open(&store, session_id));
}

#[test]
fn deleting_a_backlog_task_releases_its_labels() {
    let mut store = Store::new();
    let task_id = add_task(&mut store, None, "a backlog item", &now()).unwrap();
    update_task(&mut store, task_id, "a backlog item", "", None, &names(&["billing"])).unwrap();
    assert_eq!(backlog(&store)[0].labels.len(), 1);

    delete_backlog_task(&mut store, task_id).unwrap();
    assert_eq!(store.task_labels.len(), 0);
    let labels = list_labels(&store);
    assert_eq!((labels[0].name.as_str(), labels[0].uses), ("billing", 0));
}

#[test]
fn a_meeting_records_outside_a_session() {
    let mut store = Store::new();
    let id = start_meeting(&mut store, None, &now()).unwrap();
    let m = get_meeting(&store, id).unwrap();
    assert_eq!(m.state, "recording");
    assert_eq!(m.session_id, None);
    assert_eq!(m.segment_count, 0);
}

#[test]
fn the_transcript_joins_segments_and_skips_failed_ones() {
    let mut store = Store::new();
    let id = start_meeting(&mut store, None, &now()).unwrap();
    add_segment(&mut store, id, 0, "First part.", &now()).unwrap();
    add_segment(&mut store, id, 1, "", &now()).unwrap();
    add_segment(&mut store, id, 2, "  Third part.  ", &now()).unwrap();
    assert_eq!(transcript(&store, id), "First part. Third part.");
    assert_eq!(get_meeting(&store, id).unwrap().segment_count, 3);
}

#[test]
fn approving_an_action_twice_creates_one_task() {
    let mut store = Store::new();
    let id = start_meeting(&mut store, None, &now()).unwrap();
    finish(&mut store, id, "Migration plan", "We agreed a date.", &["Send the doc", "Book a slot"]);

    let actions = meeting_actions(&store, id);
    assert_eq!(actions.len(), 2);
    assert!(actions.iter().all(|a| a.task_id.is_none()));

    let first = actions[0].id;
    assert_eq!(approve_actions(&mut store, id, &vec![first], &now()).unwrap(), 1);
    // The second approval of the same item is a no-op, not a duplicate.
    assert_eq!(approve_actions(&mut store, id, &vec![first], &now()).unwrap(), 0);

    let list = backlog(&store);
    assert_eq!(list.len(), 1);
    assert_eq!(list[0].title, "Send the doc");
    let row = store.tasks.iter().find(|t| t.id == list[0].id).unwrap();
    assert_eq!(row.source, "meeting");
    assert!(meeting_actions(&store, id)[0].task_id.is_some());
}

#[test]
fn the_scratchpad_round_trips_in_any_state() {
    let mut store = Store::new();
    let id = start_meeting(&mut store, None, &now()).unwrap();
    assert_eq!(meeting_notes_text(&store, id).unwrap(), "");
    set_meeting_notes(&mut store, id, "Ana Kirtsova, not 'on a curt so far'").unwrap();
    assert_eq!(
        meeting_notes_text(&store, id).unwrap(),
        "Ana Kirtsova, not 'on a curt so far'"
    );
    // Still writable once the meeting is over.
    meeting_cleaning(&mut store, id, &now());
    set_meeting_notes(&mut store, id, "and a todo nobody said out loud").unwrap();
    assert_eq!(meeting_notes_text(&store, id).unwrap(), "and a todo nobody said out loud");
    assert!(set_meeting_notes(&mut store, id + 99, "nowhere").is_err());
}

#[test]
fn cleaning_stores_a_second_transcript_beside_the_raw_one() {
    let mut store = Store::new();
    let id = start_meeting(&mut store, None, &now()).unwrap();
    add_segment(&mut store, id, 0, "um so we agreed thursday", &now()).unwrap();
    assert!(clean_transcript(&store, id).unwrap().is_none());
    assert!(!get_meeting(&store, id).unwrap().has_clean);

    set_clean_transcript(&mut store, id, "So we agreed Thursday.");
    assert_eq!(clean_transcript(&store, id).unwrap().unwrap(), "So we agreed Thursday.");
    assert!(get_meeting(&store, id).unwrap().has_clean);
    assert_eq!(transcript(&store, id), "um so we agreed thursday");
}

#[test]
fn a_meeting_moves_through_cleaning_then_summarizing() {
    let mut store = Store::new();
    let id = start_meeting(&mut store, None, &now()).unwrap();
    assert!(meeting_cleaning(&mut store, id, &now()));
    assert_eq!(get_meeting(&store, id).unwrap().state, "cleaning");
    assert!(meeting_state(&mut store, id, "cleaning", "summarizing"));
    assert_eq!(get_meeting(&store, id).unwrap().state, "summarizing");
    // Guarded: the same hop cannot be taken twice.
    assert!(!meeting_state(&mut store, id, "cleaning", "summarizing"));
}

#[test]
fn a_rerun_only_moves_a_finished_meeting() {
    let mut store = Store::new();
    let id = start_meeting(&mut store, None, &now()).unwrap();
    assert!(!meeting_rerun(&mut store, id)); // recording
    meeting_cleaning(&mut store, id, &now());
    assert!(!meeting_rerun(&mut store, id)); // mid-run

    meeting_failed(&mut store, id, "the model timed out", &now());
    assert!(meeting_rerun(&mut store, id));
    let m = get_meeting(&store, id).unwrap();
    assert_eq!(m.state, "cleaning");
    assert!(m.error.is_none(), "the old failure must not still be on screen");

    finish(&mut store, id, "t", "s", &[]);
    assert!(meeting_rerun(&mut store, id)); // done is re-runnable too
}

#[test]
fn a_resume_only_moves_a_finished_meeting() {
    let mut store = Store::new();
    let id = start_meeting(&mut store, None, &now()).unwrap();
    assert!(!meeting_resume(&mut store, id)); // recording
    meeting_cleaning(&mut store, id, &now());
    assert!(!meeting_resume(&mut store, id)); // cleaning
    meeting_state(&mut store, id, "cleaning", "summarizing");
    assert!(!meeting_resume(&mut store, id)); // summarizing

    finish(&mut store, id, "t", "s", &[]);
    assert!(meeting_resume(&mut store, id));
    assert_eq!(get_meeting(&store, id).unwrap().state, "recording");
    // And a second resume of the same meeting is refused, not stacked.
    assert!(!meeting_resume(&mut store, id));

    meeting_cleaning(&mut store, id, &now());
    meeting_failed(&mut store, id, "the model timed out", &now());
    assert!(meeting_resume(&mut store, id)); // failed is resumable too
}

#[test]
fn a_resume_clears_what_went_stale_and_keeps_the_notes() {
    let mut store = Store::new();
    let id = start_meeting(&mut store, None, &now()).unwrap();
    add_segment(&mut store, id, 0, "we agreed thursday", &now()).unwrap();
    meeting_cleaning(&mut store, id, &now());
    set_clean_transcript(&mut store, id, "We agreed Thursday.");
    finish(&mut store, id, "Planning", "Thursday.", &["Send the doc"]);
    let action = meeting_actions(&store, id)[0].id;
    approve_actions(&mut store, id, &vec![action], &now()).unwrap();
    let first_end = get_meeting(&store, id).unwrap().ended_at;
    assert!(first_end.is_some());

    assert!(meeting_resume(&mut store, id));
    let m = get_meeting(&store, id).unwrap();
    assert!(m.ended_at.is_none(), "the next Stop has to be able to stamp its own end");
    assert!(m.error.is_none());
    assert!(!m.has_clean);
    assert!(clean_transcript(&store, id).unwrap().is_none());
    assert_eq!(m.title, "Planning");
    assert_eq!(meeting_summary(&store, id).unwrap().0.as_deref(), Some("Thursday."));
    assert!(meeting_actions(&store, id)[0].task_id.is_some());
    assert_eq!(transcript(&store, id), "we agreed thursday");

    // The next Stop stamps a fresh end rather than keeping the first one.
    meeting_cleaning(&mut store, id, &now());
    assert!(get_meeting(&store, id).unwrap().ended_at.is_some());
}

#[test]
fn a_crash_mid_resume_is_swept_as_a_lost_recording() {
    let mut store = Store::new();
    let id = start_meeting(&mut store, None, &now()).unwrap();
    add_segment(&mut store, id, 0, "first part", &now()).unwrap();
    meeting_cleaning(&mut store, id, &now());
    meeting_failed(&mut store, id, "the model timed out", &now());

    assert!(meeting_resume(&mut store, id));
    add_segment(&mut store, id, 1, "second part", &now()).unwrap();
    let last = meeting_segments(&store, id)[1].started_at.clone();

    assert_eq!(sweep_orphan_meetings(&mut store), 1);
    let m = get_meeting(&store, id).unwrap();
    assert_eq!(m.state, "failed");
    assert_eq!(m.error.as_deref(), Some("recording stopped when the app did"));
    assert_eq!(m.ended_at.as_deref(), Some(last.as_str()));
}

#[test]
fn a_resume_carries_on_from_the_last_segment() {
    let mut store = Store::new();
    let id = start_meeting(&mut store, None, &now()).unwrap();
    assert_eq!(resume_point(&store, id).unwrap(), (0, String::new()));

    add_segment(&mut store, id, 0, "first part", &now()).unwrap();
    add_segment(&mut store, id, 1, "second part", &now()).unwrap();
    add_segment(&mut store, id, 2, "  ", &now()).unwrap();
    assert_eq!(resume_point(&store, id).unwrap(), (3, "second part".to_string()));

    let (next, _) = resume_point(&store, id).unwrap();
    add_segment(&mut store, id, next, "after the break", &now()).unwrap();
    assert_eq!(transcript(&store, id), "first part second part after the break");
}

#[test]
fn the_orphan_sweep_fails_a_meeting_stranded_while_cleaning() {
    let mut store = Store::new();
    let id = start_meeting(&mut store, None, &now()).unwrap();
    add_segment(&mut store, id, 0, "said something", &now()).unwrap();
    meeting_cleaning(&mut store, id, &now());

    assert_eq!(sweep_orphan_meetings(&mut store), 1);
    let m = get_meeting(&store, id).unwrap();
    assert_eq!(m.state, "failed");
    assert_eq!(m.error.unwrap(), "the app closed before the notes were written");
    // The transcript survives, which is what makes a re-run worth offering.
    assert_eq!(transcript(&store, id), "said something");
}

#[test]
fn editing_the_summary_marks_it_and_a_rerun_clears_the_mark() {
    let mut store = Store::new();
    let id = start_meeting(&mut store, None, &now()).unwrap();
    assert_eq!(meeting_summary(&store, id).unwrap(), (None, None));
    // Not while the notes are being written.
    meeting_cleaning(&mut store, id, &now());
    assert!(set_meeting_summary(&mut store, id, "too early", &now()).is_err());
    assert_eq!(meeting_summary(&store, id).unwrap(), (None, None));

    finish(&mut store, id, "Roadmap", "We picked Q4.\n\n## Key points\n- Ship in Q4", &[]);
    let (doc, edited) = meeting_summary(&store, id).unwrap();
    assert_eq!(doc.as_deref(), Some("We picked Q4.\n\n## Key points\n- Ship in Q4"));
    assert!(edited.is_none());

    set_meeting_summary(&mut store, id, "We picked Q4, and $x^2$.", &now()).unwrap();
    let (doc, edited) = meeting_summary(&store, id).unwrap();
    assert_eq!(doc.as_deref(), Some("We picked Q4, and $x^2$."));
    assert!(edited.is_some());

    // A failed meeting is editable too.
    assert!(meeting_rerun(&mut store, id));
    meeting_failed(&mut store, id, "the model timed out", &now());
    set_meeting_summary(&mut store, id, "by hand", &now()).unwrap();

    // The re-run's notes are the model's again.
    finish(&mut store, id, "Roadmap", "Second pass.", &[]);
    assert_eq!(meeting_summary(&store, id).unwrap(), (Some("Second pass.".to_string()), None));
    assert!(set_meeting_summary(&mut store, id + 99, "nowhere", &now()).is_err());
}

fn file<'a>(name: &'a str, path: &'a str, bytes: i64, text: &'a str) -> NewFile<'a> {
    NewFile { name, path, kind: "text", bytes, extracted: Some(text) }
}

#[test]
fn the_attachment_limits_hold_against_the_aggregate() {
    let mut store = Store::new();
    let id = start_meeting(&mut store, None, &now()).unwrap();
    for i in 0..3 {
        add_meeting_file(
            &mut store,
            id,
            &file("a.txt", &format!("p{i}"), 100, "x"),
            3,
            10_000,
            10_000,
            &now(),
        )
        .unwrap();
    }
    // The count cap.
    let err = add_meeting_file(
        &mut store,
        id,
        &file("d.txt", "p3", 100, "x"),
        3,
        10_000,
        10_000,
        &now(),
    )
    .unwrap_err()
    .message();
    assert!(err.contains("already has 3 files"), "{err}");

    // The byte cap, on the total rather than the one file.
    let ok = add_meeting_file(
        &mut store,
        id,
        &file("e.txt", "p4", 9_000, "x"),
        9,
        1024 * 1024,
        10_000,
        &now(),
    );
    assert!(ok.is_ok(), "9 kB fits inside 1 MB");
    let err = add_meeting_file(
        &mut store,
        id,
        &file("f.txt", "p5", 2 * 1024 * 1024, "x"),
        9,
        1024 * 1024,
        10_000,
        &now(),
    )
    .unwrap_err()
    .message();
    assert!(err.contains("attachments"), "{err}");

    // The character cap, which bounds the bill rather than the disk.
    let long = "y".repeat(9_000);
    let err = add_meeting_file(
        &mut store,
        id,
        &file("g.txt", "p6", 10, &long),
        9,
        1024 * 1024,
        100,
        &now(),
    )
    .unwrap_err()
    .message();
    assert!(err.contains("text this can send"), "{err}");
}

#[test]
fn attaching_to_a_missing_meeting_is_refused() {
    let mut store = Store::new();
    assert!(add_meeting_file(
        &mut store,
        999,
        &file("a.txt", "p", 1, "x"),
        8,
        10_000,
        10_000,
        &now()
    )
    .is_err());
}

#[test]
fn deleting_an_attachment_returns_the_path_to_unlink() {
    let mut store = Store::new();
    let id = start_meeting(&mut store, None, &now()).unwrap();
    let file_id = add_meeting_file(
        &mut store,
        id,
        &file("deck.pptx", "/tmp/opaque123", 4096, "slides"),
        8,
        10_000,
        10_000,
        &now(),
    )
    .unwrap();
    assert_eq!(meeting_file_rows(&store, id)[0].path, "/tmp/opaque123");

    let path = delete_meeting_file(&mut store, id, file_id).unwrap();
    assert_eq!(path, "/tmp/opaque123");
    assert!(meeting_files(&store, id).is_empty());
    // A second delete is not a second unlink.
    assert!(delete_meeting_file(&mut store, id, file_id).is_err());
}

#[test]
fn attachment_positions_do_not_collide_after_a_removal() {
    let mut store = Store::new();
    let id = start_meeting(&mut store, None, &now()).unwrap();
    let put = |store: &mut Store, name: &str, path: &str| {
        add_meeting_file(store, id, &file(name, path, 1, "x"), 8, 10_000, 10_000, &now()).unwrap()
    };
    let first = put(&mut store, "a", "p0");
    put(&mut store, "b", "p1");
    delete_meeting_file(&mut store, id, first).unwrap();
    put(&mut store, "c", "p2");

    let files = meeting_files(&store, id);
    let positions: Vec<i64> = files.iter().map(|f| f.position).collect();
    assert_eq!(positions, vec![1, 2]);
    assert_eq!(files.iter().map(|f| f.name.as_str()).collect::<Vec<_>>(), vec!["b", "c"]);
}

#[test]
fn only_the_model_side_sees_the_stored_path() {
    let mut store = Store::new();
    let id = start_meeting(&mut store, None, &now()).unwrap();
    let name = ["spec", "md"].join(".");
    add_meeting_file(
        &mut store,
        id,
        &file(&name, "/tmp/opaque", 12, "the body"),
        8,
        10_000,
        10_000,
        &now(),
    )
    .unwrap();
    let rows = meeting_file_rows(&store, id);
    assert_eq!(rows[0].path, "/tmp/opaque");
    assert_eq!(rows[0].extracted.as_deref(), Some("the body"));

    let shown = format!("{:?}", meeting_files(&store, id));
    assert!(!shown.contains("opaque"), "the path reached the screen: {shown}");
    assert!(!shown.contains("the body"), "the contents reached the screen");
    assert!(shown.contains(&name));
}

#[test]
fn a_meeting_row_counts_its_files() {
    let mut store = Store::new();
    let id = start_meeting(&mut store, None, &now()).unwrap();
    assert_eq!(get_meeting(&store, id).unwrap().file_count, 0);
    store.files.push(StoredFile {
        id: 1,
        meeting_id: id,
        position: 0,
        name: "deck.pptx".to_string(),
        path: "ab12cd34".to_string(),
        kind: "office".to_string(),
        bytes: 4096,
        extracted: None,
        added_at: now(),
    });
    assert_eq!(get_meeting(&store, id).unwrap().file_count, 1);
    let files = meeting_files(&store, id);
    assert_eq!(files.len(), 1);
    assert_eq!(files[0].name, "deck.pptx");
    assert_eq!(files[0].kind, "office");
}

#[test]
fn resummarizing_keeps_approved_actions_and_replaces_the_rest() {
    let mut store = Store::new();
    let id = start_meeting(&mut store, None, &now()).unwrap();
    finish(&mut store, id, "First pass", "s", &["Keep me", "Replace me"]);
    let keep = meeting_actions(&store, id)[0].id;
    approve_actions(&mut store, id, &vec![keep], &now()).unwrap();

    finish(&mut store, id, "Second pass", "s2", &["Brand new"]);

    let after: Vec<String> = meeting_actions(&store, id).into_iter().map(|a| a.text).collect();
    assert_eq!(after, vec!["Keep me".to_string(), "Brand new".to_string()]);
    assert_eq!(get_meeting(&store, id).unwrap().title, "Second pass");
    assert_eq!(backlog(&store).len(), 1); // still just the approved one
}

#[test]
fn the_orphan_sweep_closes_a_meeting_at_its_last_segment() {
    let mut store = Store::new();
    let id = start_meeting(&mut store, None, &now()).unwrap();
    add_segment(&mut store, id, 0, "something said", "2026-09-10T10:00:05+00:00").unwrap();
    let seg_at = meeting_segments(&store, id)[0].started_at.clone();

    assert_eq!(sweep_orphan_meetings(&mut store), 1);
    let m = get_meeting(&store, id).unwrap();
    assert_eq!(m.state, "failed");
    assert_eq!(m.ended_at.as_deref(), Some(seg_at.as_str()));
    assert!(m.error.is_some());
    // A second start must not close again what is already closed.
    assert_eq!(sweep_orphan_meetings(&mut store), 0);
}

#[test]
fn the_orphan_sweep_fails_a_meeting_stranded_while_summarizing() {
    let mut store = Store::new();
    let id = start_meeting(&mut store, None, &now()).unwrap();
    add_segment(&mut store, id, 0, "something said", &now()).unwrap();
    assert!(meeting_cleaning(&mut store, id, &now()));
    let stopped_at = get_meeting(&store, id).unwrap().ended_at;
    assert!(stopped_at.is_some(), "Stop records ended_at before the notes");

    assert_eq!(sweep_orphan_meetings(&mut store), 1);
    let m = get_meeting(&store, id).unwrap();
    assert_eq!(m.state, "failed");
    // The moment recording stopped, not the moment the app came back.
    assert_eq!(m.ended_at, stopped_at);
    assert_eq!(m.error.as_deref(), Some("the app closed before the notes were written"));
    assert_eq!(sweep_orphan_meetings(&mut store), 0);
}

#[test]
fn deleting_a_meeting_spares_the_tasks_it_produced() {
    let mut store = Store::new();
    let id = start_meeting(&mut store, None, &now()).unwrap();
    add_segment(&mut store, id, 0, "said", &now()).unwrap();
    finish(&mut store, id, "t", "s", &["Do the thing"]);
    let action = meeting_actions(&store, id)[0].id;
    approve_actions(&mut store, id, &vec![action], &now()).unwrap();

    delete_meeting(&mut store, id).unwrap();
    assert!(get_meeting(&store, id).is_none());
    assert_eq!(meeting_segments(&store, id).len(), 0);
    assert_eq!(meeting_actions(&store, id).len(), 0);
    let list = backlog(&store);
    assert_eq!(list.len(), 1);
    assert_eq!(list[0].title, "Do the thing");
}

#[test]
fn stopping_a_meeting_twice_only_moves_it_once() {
    let mut store = Store::new();
    let id = start_meeting(&mut store, None, &now()).unwrap();
    assert!(meeting_cleaning(&mut store, id, &now()));
    assert!(!meeting_cleaning(&mut store, id, &now()));
}

#[test]
fn stopping_keeps_a_meeting_recording_and_stamps_its_end_once() {
    let mut store = Store::new();
    let id = start_meeting(&mut store, None, "2026-09-10T10:00:00+00:00").unwrap();
    assert!(meeting_stopped(&mut store, id, "2026-09-10T10:05:00+00:00"));
    assert!(meeting_stopped(&mut store, id, "2026-09-10T10:06:00+00:00"));
    let m = get_meeting(&store, id).unwrap();
    assert_eq!(m.state, "recording");
    assert_eq!(m.ended_at.as_deref(), Some("2026-09-10T10:05:00+00:00"));
    assert!(!meeting_stopped(&mut store, id + 1, "x"));
}

#[test]
fn a_segment_number_is_taken_once_and_needs_a_meeting() {
    let mut store = Store::new();
    let id = start_meeting(&mut store, None, "t").unwrap();
    add_segment(&mut store, id, 0, "a", "t").unwrap();
    let err = add_segment(&mut store, id, 0, "b", "t").unwrap_err();
    assert!(matches!(err, AppError::Db(_)));
    assert_eq!(
        err.message(),
        "store: UNIQUE constraint failed: meeting_segment.meeting_id, meeting_segment.seq"
    );
    assert_eq!(
        add_segment(&mut store, 77, 0, "b", "t").unwrap_err().message(),
        "store: FOREIGN KEY constraint failed"
    );
    assert_eq!(store.segments.len(), 1);
}

#[test]
fn meetings_are_listed_newest_first() {
    let mut store = Store::new();
    for i in 0..3 {
        start_meeting(&mut store, None, &format!("t{i}")).unwrap();
    }
    let ids: Vec<i64> = list_meetings(&store, 2).iter().map(|m| m.id).collect();
    assert_eq!(ids, [3, 2]);
}

#[test]
fn a_card_is_pulled_from_the_backlog_once() {
    let mut store = Store::new();
    let (session_id, first) = session_with_task(&mut store);
    let id = add_task(&mut store, None, "later", "t").unwrap();
    pull_task(&mut store, session_id, id).unwrap();
    let tasks = session_tasks(&store, session_id);
    assert_eq!(tasks.iter().map(|t| (t.id, t.position)).collect::<Vec<_>>(), [(first, 1), (id, 2)]);
    assert!(backlog(&store).is_empty());
    assert_eq!(pull_task(&mut store, session_id, id).unwrap_err().message(), "not a backlog item");
    assert_eq!(
        delete_backlog_task(&mut store, id).unwrap_err().message(),
        "only backlog items can be deleted"
    );
}

#[test]
fn a_board_with_a_stray_card_is_refused_whole() {
    let mut store = Store::new();
    let (session_id, task_id) = session_with_task(&mut store);
    let stray = add_task(&mut store, None, "elsewhere", "t").unwrap();
    let arr = Arrangement { todo: vec![], doing: vec![task_id], done: vec![stray], dropped: vec![] };
    let err = apply_board(&mut store, session_id, &arr, "t").unwrap_err();
    assert_eq!(err.message(), format!("task {stray} is not on this board"));
    assert_eq!(session_tasks(&store, session_id)[0].status, "planned");
}

#[test]
fn a_card_keeps_the_moment_it_was_started() {
    let mut store = Store::new();
    let (session_id, task_id) = session_with_task(&mut store);
    let doing = Arrangement { todo: vec![], doing: vec![task_id], done: vec![], dropped: vec![] };
    apply_board(&mut store, session_id, &doing, "2026-09-10T10:00:00+00:00").unwrap();
    apply_board(&mut store, session_id, &doing, "2026-09-10T11:00:00+00:00").unwrap();
    assert_eq!(store.tasks[0].started_at.as_deref(), Some("2026-09-10T10:00:00+00:00"));
    assert_eq!(store.tasks[0].status, "doing");
}

#[test]
fn sessions_are_listed_with_their_first_card() {
    let mut store = Store::new();
    let (a, _) = session_with_task(&mut store);
    close(&mut store, a);
    let b = open_session(&mut store);
    let list = list_sessions(&store, 10);
    assert_eq!(list.iter().map(|s| s.id).collect::<Vec<_>>(), [b, a]);
    assert_eq!(list[1].first_task.as_deref(), Some("write the thing"));
    assert_eq!(list[1].task_count, 1);
    assert_eq!(list[0].first_task, None);
    assert_eq!(latest_open_session(&store).unwrap().id, b);
    assert!(get_session(&store, 9).is_none());
    assert_eq!(list_sessions(&store, 1).len(), 1);
}

#[test]
fn a_heartbeat_never_revives_a_session() {
    let mut store = Store::new();
    let id = open_session(&mut store);
    assert!(heartbeat(&mut store, id, "2026-09-10T10:00:00+00:00"));
    assert_eq!(store.sessions[0].last_heartbeat.as_deref(), Some("2026-09-10T10:00:00+00:00"));
    close(&mut store, id);
    assert!(!heartbeat(&mut store, id, "2026-09-10T11:00:00+00:00"));
    assert_eq!(store.sessions[0].last_heartbeat.as_deref(), Some("2026-09-10T10:00:00+00:00"));
}

#[test]
fn a_checkpoint_comes_due_is_put_off_and_is_cleared() {
    let mut store = Store::new();
    let id = open_session(&mut store);
    assert!(!checkpoint_due(&store, id, "2026-09-10T10:00:00+00:00"));
    set_checkpoint(&mut store, id, "2026-09-10T10:00:00+00:00").unwrap();
    assert!(!checkpoint_due(&store, id, "2026-09-10T09:59:59+00:00"));
    assert!(checkpoint_due(&store, id, "2026-09-10T10:00:00+00:00"));
    let at = extend_checkpoint(&mut store, id, 15, Stamp { secs: 1_757_498_400, nanos: 5 }).unwrap();
    assert_eq!(at, "2025-09-10T10:15:00+00:00");
    assert_eq!(store.sessions[0].checkpoint_due_at.as_deref(), Some(at.as_str()));
    clear_checkpoint(&mut store, id);
    assert!(!checkpoint_due(&store, id, "2999-01-01T00:00:00+00:00"));
    close(&mut store, id);
    assert_eq!(
        set_checkpoint(&mut store, id, "x").unwrap_err().message(),
        "session is closed"
    );
}

#[test]
fn a_recovered_session_takes_no_heartbeat_and_no_checkpoint() {
    let mut store = Store::new();
    let id = open_session(&mut store);
    set_checkpoint(&mut store, id, "2026-09-10T10:00:00+00:00").unwrap();
    assert!(heartbeat(&mut store, id, "2026-09-10T09:00:00+00:00"));
    store.sessions[0].close_reason = Some("recovered".to_string());
    assert!(!heartbeat(&mut store, id, "2026-09-10T11:00:00+00:00"));
    assert_eq!(store.sessions[0].last_heartbeat.as_deref(), Some("2026-09-10T09:00:00+00:00"));
    assert!(!checkpoint_due(&store, id, "2999-01-01T00:00:00+00:00"));
    let at = Stamp { secs: 1_757_498_400, nanos: 0 };
    for refused in [
        set_checkpoint(&mut store, id, "2026-09-10T12:00:00+00:00").unwrap_err(),
        extend_checkpoint(&mut store, id, 15, at).unwrap_err(),
    ] {
        assert_eq!(refused.message(), "session is closed");
    }
    assert_eq!(
        store.sessions[0].checkpoint_due_at.as_deref(),
        Some("2026-09-10T10:00:00+00:00")
    );
}

#[test]
fn approving_counts_each_open_action_once() {
    let mut store = Store::new();
    add_task(&mut store, None, "already there", &now()).unwrap();
    let other = start_meeting(&mut store, None, &now()).unwrap();
    add_segment(&mut store, other, 0, "elsewhere", &now()).unwrap();
    meeting_cleaning(&mut store, other, &now());
    finish(&mut store, other, "Other", "Other.", &["not of this meeting"]);
    let foreign = meeting_actions(&store, other)[0].id;
    let id = start_meeting(&mut store, None, &now()).unwrap();
    add_segment(&mut store, id, 0, "we agreed", &now()).unwrap();
    meeting_cleaning(&mut store, id, &now());
    finish(&mut store, id, "Planning", "Thursday.", &["first", "second", "third"]);
    let actions: Vec<i64> = meeting_actions(&store, id).iter().map(|a| a.id).collect();
    let ids = vec![actions[2], actions[0], actions[2], foreign, 404, actions[0]];

    assert_eq!(approve_actions(&mut store, id, &ids, "t1").unwrap(), 2);
    let titles: Vec<String> = backlog(&store).iter().map(|t| t.title.clone()).collect();
    assert_eq!(titles, ["already there", "third", "first"]);
    let tasks: Vec<Option<i64>> = meeting_actions(&store, id).iter().map(|a| a.task_id).collect();
    assert_eq!(tasks, [Some(store.tasks[2].id), None, Some(store.tasks[1].id)]);
    for t in &store.tasks[1..] {
        assert_eq!((t.source.as_str(), t.created_at.as_str()), ("meeting", "t1"));
    }
    assert!(meeting_actions(&store, other)[0].task_id.is_none());

    assert_eq!(approve_actions(&mut store, id, &ids, "t2").unwrap(), 0);
    assert_eq!(backlog(&store).len(), 3);

    // With the last id given out there is no room, unless none is needed.
    store.tasks[2].id = i64::MAX;
    assert_eq!(approve_actions(&mut store, id, &ids, "t3").unwrap(), 0);
    assert!(approve_actions(&mut store, id, &vec![actions[1]], "t3").is_err());
}

#[test]
fn an_old_store_is_refused_with_a_hint() {
    let mut store = Store::new();
    assert_eq!(check_schema(&store).unwrap_err().message(), MIGRATE_HINT);
    store.settings.push(Setting {
        key: "schema_version".to_string(),
        value: (SCHEMA_VERSION - 1).to_string(),
    });
    assert_eq!(schema_version(&store).unwrap(), SCHEMA_VERSION - 1);
    assert!(check_schema(&store).is_err());
    store.settings[0].value = SCHEMA_VERSION.to_string();
    assert!(check_schema(&store).is_ok());
    assert_eq!(get_setting(&store, "schema_version"), Some(SCHEMA_VERSION.to_string()));
    assert_eq!(get_setting(&store, "other"), None);
    store.settings[0].value = "many".to_string();
    assert!(schema_version(&store).is_err());
}

#[test]
fn the_store_stands_where_the_environment_says() {
    assert_eq!(store_path(Some("/tmp/x.db"), "/home/a"), "/tmp/x.db");
    assert_eq!(store_path(None, "/home/a"), "/home/a/.local/share/intentionality/store.db");
}

fn note<'a>(session_id: i64, kind: &'a str, headline: &'a str) -> NewAnalysis<'a> {
    NewAnalysis {
        session_id,
        kind,
        window_start: "2026-09-10T10:00:00+00:00",
        window_end: "2026-09-10T11:00:00+00:00",
        headline,
        alignment: Some(50),
        body: "body",
        observed_json: "{\"active_seconds\":1.0}",
        recommendation_id: Some("pick_one"),
        recommendation_note: None,
    }
}

#[test]
fn analyses_are_listed_seen_and_acknowledged() {
    let mut store = Store::new();
    let s = open_session(&mut store);
    let a = add_analysis(&mut store, &note(s, "check", "one"), "2026-09-10T11:00:00+00:00").unwrap();
    let b = add_analysis(&mut store, &note(s, "checkpoint", "two"), "2026-09-10T10:30:00+00:00")
        .unwrap();
    assert_eq!(unseen_analyses(&store, s), 2);
    assert_eq!(list_analyses(&store, s).iter().map(|x| x.id).collect::<Vec<_>>(), [b, a]);
    // Across sessions the newest are those made last.
    assert_eq!(list_recent_analyses(&store, 5).iter().map(|x| x.id).collect::<Vec<_>>(), [a, b]);
    assert_eq!(latest_analysis(&store, s).unwrap().headline, "two");
    assert_eq!(last_analysis_end(&store, s).as_deref(), Some("2026-09-10T11:00:00+00:00"));
    assert_eq!(last_analysis_end(&store, s + 1), None);
    assert_eq!(pending_checkpoint(&store, s).unwrap().id, b);
    assert_eq!(list_analyses(&store, s)[0].recommendation.unwrap().id, "pick_one");
    assert_eq!(analysis_observed(&store, a).as_deref(), Some("{\"active_seconds\":1.0}"));
    assert_eq!(analysis_observed(&store, 99), None);
    mark_analysis_seen(&mut store, b, "2026-09-10T12:00:00+00:00");
    mark_analysis_seen(&mut store, b, "2026-09-10T13:00:00+00:00");
    assert_eq!(
        list_analyses(&store, s)[0].seen_at.as_deref(),
        Some("2026-09-10T12:00:00+00:00")
    );
    assert!(pending_checkpoint(&store, s).is_none());
    assert_eq!(unseen_analyses(&store, s), 1);
}

#[test]
fn rows_out_of_order_are_noticed() {
    let mut store = Store::new();
    open_session(&mut store);
    open_session(&mut store);
    assert!(store.is_wf());
    store.sessions[1].id = 1;
    assert!(!store.is_wf());
}

#[test]
fn what_was_typed_is_quoted_in_a_refusal() {
    let mut store = Store::new();
    let (_, task_id) = session_with_task(&mut store);
    assert_eq!(
        delete_label(&mut store, "a\"b\n").unwrap_err().message(),
        format!("no label {:?}", "a\"b\n")
    );
    assert_eq!(
        update_task(&mut store, task_id, "a", "", Some("so\\on"), &names(&[]))
            .unwrap_err()
            .message(),
        format!("due date must be YYYY-MM-DD, not {:?}", "so\\on")
    );
}

#[test]
fn every_error_is_worded_for_the_user() {
    let worded = |e: AppError| e.message();
    assert_eq!(worded(AppError::Db("x".into())), "store: x");
    assert_eq!(worded(AppError::AwUnavailable("x".into())), "ActivityWatch not reachable: x");
    assert_eq!(worded(AppError::BadTimestamp("x".into())), "bad timestamp: x");
    assert_eq!(worded(AppError::Other("x".into())), "x");
    assert_eq!(worded(AppError::Refused(" (x)".into())), "the model declined this request (x)");
    let closed = worded(AppError::SessionClosed(7));
    assert!(closed.starts_with("session 7 was closed at "), "{closed}");
    assert!(closed.ends_with("gate — showing the current board"), "{closed}");
}

#[test]
fn a_label_that_is_there_needs_no_room() {
    let mut store = Store::new();
    let (_, task) = session_with_task(&mut store);
    create_label(&mut store, "billing").unwrap();
    store.labels[0].id = i64::MAX;
    create_label(&mut store, " Billing ").unwrap();
    assert_eq!(store.labels.len(), 1);
    assert!(create_label(&mut store, "other").is_err());
    update_task(&mut store, task, "t", "", None, &names(&["BILLING", " ", "billing"])).unwrap();
    assert_eq!(store.task_labels, [(task, i64::MAX)]);
    update_task(&mut store, task, "t", "", None, &names(&[])).unwrap();
    assert!(store.task_labels.is_empty());
    assert!(update_task(&mut store, task, "t", "", None, &names(&["new"])).is_err());
    // One id is left, and two spellings of one name need no more.
    store.labels[0].id = i64::MAX - 1;
    update_task(&mut store, task, "t", "", None, &names(&["New", "new ", "billing"])).unwrap();
    assert_eq!(store.labels[1].id, i64::MAX);
}

#[test]
fn notes_without_items_need_no_room() {
    let mut store = Store::new();
    let id = start_meeting(&mut store, None, &now()).unwrap();
    add_segment(&mut store, id, 0, "we agreed", &now()).unwrap();
    meeting_cleaning(&mut store, id, &now());
    finish(&mut store, id, "Planning", "Thursday.", &["first"]);
    let action = meeting_actions(&store, id)[0].id;
    approve_actions(&mut store, id, &vec![action], &now()).unwrap();
    store.actions[0].id = i64::MAX;
    finish(&mut store, id, "Again", "Friday.", &[]);
    assert_eq!(meeting_summary(&store, id).unwrap().0.as_deref(), Some("Friday."));
    assert_eq!(store.actions.len(), 1);
}
