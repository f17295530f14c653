//! The note taker, step by step: the microphone, the transcript, the notes.
//!
//! Recording begins and ends on a click. Each chunk is stored as it is
//! transcribed, so that the transcript survives the app. Stopping does not
//! write the notes: the user reads and corrects the transcript first, and asks
//! for them.

use vstd::prelude::*;

use crate::attach;
use crate::blocks::FileContent;
use crate::board::str_view;
use crate::claude;
use crate::db::full;
use crate::error::other;
use crate::error::AppError;
use crate::error::Failure;
use crate::meetings;
use crate::meetings::failed;
use crate::meetings::finished_with;
use crate::meetings::in_state;
use crate::meetings::is_done;
use crate::meetings::last_said;
use crate::meetings::new_meeting;
use crate::meetings::or_else;
use crate::meetings::segment_added;
use crate::meetings::segments_of;
use crate::meetings::underway;
use crate::meetings::with_meeting;
use crate::meetings::FileRow;
use crate::rows::MeetingRow;
use crate::rows::SegmentRow;
use crate::rows::Store;
use crate::rows::Tables;
use crate::state::AppState;
use crate::table;
use crate::table::after_top;
use crate::table::fresh;
use crate::table::row_at;
use crate::text;
use crate::transcribe;
use crate::transcribe::tail_of;
use crate::transcribe::CARRY_CHARS;

verus! {

broadcast use vstd::seq_lib::group_seq_properties;

// ---------------------------------------------------------------- the recording

/// A recording in progress: the meeting, the number of its next segment, and
/// what is handed to the next chunk as context.
pub struct Capture {
    pub meeting_id: i64,
    pub seq: i64,
    pub context: String,
}

/// A second recording is refused.
pub fn check_free(state: &AppState) -> (r: Result<(), AppError>)
    ensures
        match r {
            Ok(_) => state.meeting is None,
            Err(e) => state.meeting is Some && e@ == Failure::Other(
                "a meeting is already being recorded"@,
            ),
        },
{
    if state.meeting_id().is_some() {
        Err(other("a meeting is already being recorded"))
    } else {
        Ok(())
    }
}

/// Begins a new meeting.
pub fn start(store: &mut Store, session_id: Option<i64>, now: &str) -> (r: Result<
    Capture,
    AppError,
>)
    requires
        old(store)@.wf(),
    ensures
        final(store)@.wf(),
        match r {
            Ok(c) => c.meeting_id == fresh::<MeetingRow>(old(store)@.meetings) && c.seq == 0
                && c.context@.len() == 0 && final(store)@ == (Tables {
                meetings: old(store)@.meetings.push(new_meeting(old(store)@, session_id, now@)),
                ..old(store)@
            }),
            Err(e) => fresh::<MeetingRow>(old(store)@.meetings) > i64::MAX && final(store)@
                == old(store)@ && e@ == full(),
        },
{
    match meetings::start_meeting(store, session_id, now) {
        Ok(meeting_id) => Ok(Capture { meeting_id, seq: 0, context: String::new() }),
        Err(e) => Err(e),
    }
}

/// A meeting that is picked back up.
pub open spec fn resumed(m: MeetingRow<Seq<char>>) -> MeetingRow<Seq<char>> {
    MeetingRow {
        state: "recording"@,
        ended_at: None,
        error: None,
        clean_transcript: None,
        ..m
    }
}

/// Picks a finished meeting back up: the next chunk carries on after its last
/// segment, with that segment's end as context. One without a number left for
/// it is failed and not left as if it were recording.
pub fn resume(store: &mut Store, meeting_id: i64, now: &str) -> (r: Result<Capture, AppError>)
    requires
        old(store)@.wf(),
    ensures
        final(store)@.wf(),
        ({
            let v = old(store)@;
            let m = row_at::<MeetingRow>(v.meetings, meeting_id)->0;
            let next = after_top::<SegmentRow>(v.segments, Some(meeting_id), 0);
            match r {
                Ok(c) => is_done(v, meeting_id) && next <= i64::MAX && c.meeting_id == meeting_id
                    && c.seq == next && c.context@ == tail_of(
                    last_said(segments_of(v, meeting_id)),
                    CARRY_CHARS as nat,
                ) && final(store)@ == with_meeting(v, meeting_id, resumed(m)),
                Err(e) => if is_done(v, meeting_id) {
                    next > i64::MAX && e@ == full() && final(store)@ == with_meeting(
                        with_meeting(v, meeting_id, resumed(m)),
                        meeting_id,
                        failed(resumed(m), full().message(), now@),
                    )
                } else {
                    final(store)@ == v && e@ == Failure::Other(
                        "that meeting is not finished, or no longer exists"@,
                    )
                },
            }
        }),
{
    let ghost v = store@;
    if !meetings::meeting_resume(store, meeting_id) {
        return Err(other("that meeting is not finished, or no longer exists"));
    }
    let ghost m = row_at::<MeetingRow>(v.meetings, meeting_id)->0;
    proof {
        let i = table::lemma_row_found::<MeetingRow>(v.meetings, meeting_id);
        assert(v.meetings[i] == m);
        table::lemma_put_reads::<MeetingRow>(v.meetings, meeting_id, resumed(m), meeting_id);
    }
    match meetings::resume_point(store, meeting_id) {
        Ok((seq, last)) => Ok(
            Capture { meeting_id, seq, context: transcribe::carry(last.as_str()) },
        ),
        Err(e) => {
            let message = e.message();
            meetings::meeting_failed(store, meeting_id, message.as_str(), now);
            Err(e)
        },
    }
}

/// What a chunk that could not be transcribed says: nothing. The empty segment
/// stays, so that the gap can be seen.
pub open spec fn said(heard: Option<Seq<char>>) -> Seq<char> {
    match heard {
        Some(s) => s,
        None => seq![],
    }
}

impl Capture {
    /// The chunk is behind: the next one has the next number, and carries the
    /// end of what was heard where that is anything.
    pub fn step(&mut self, heard: Option<&str>)
        requires
            old(self).seq < i64::MAX,
        ensures
            final(self).meeting_id == old(self).meeting_id,
            final(self).seq == old(self).seq + 1,
            final(self).context@ == (if said(str_view(heard)).len() == 0 {
                old(self).context@
            } else {
                tail_of(said(str_view(heard)), CARRY_CHARS as nat)
            }),
    {
        if let Some(words) = heard {
            if !words.is_empty() {
                self.context = transcribe::carry(words);
            }
        }
        self.seq = self.seq + 1;
    }

    /// Takes what was heard in a chunk: stores the segment, and steps on. A
    /// failed chunk costs itself and no more, and neither does a segment that
    /// cannot be stored.
    pub fn land(&mut self, store: &mut Store, heard: Option<&str>, now: &str) -> (r: Result<
        i64,
        AppError,
    >)
        requires
            old(store)@.wf(),
            old(self).seq < i64::MAX,
        ensures
            final(store)@.wf(),
            final(self).meeting_id == old(self).meeting_id,
            final(self).seq == old(self).seq + 1,
            ({
                let s = said(str_view(heard));
                let outcome = segment_added(
                    old(store)@,
                    old(self).meeting_id,
                    old(self).seq,
                    s,
                    now@,
                );
                &&& final(self).context@ == (if s.len() == 0 {
                    old(self).context@
                } else {
                    tail_of(s, CARRY_CHARS as nat)
                })
                &&& match r {
                    Ok(id) => id == fresh::<SegmentRow>(old(store)@.segments) && outcome == Ok::<
                        Tables,
                        Failure,
                    >(final(store)@),
                    Err(e) => outcome == Err::<Tables, Failure>(e@) && final(store)@ == old(
                        store,
                    )@,
                }
            }),
    {
        let words = match heard {
            Some(s) => text::owned(s),
            None => String::new(),
        };
        let r = meetings::add_segment(store, self.meeting_id, self.seq, words.as_str(), now);
        self.step(heard);
        r
    }
}

/// Ends the recording: the microphone is shut, and the end is stamped. The
/// meeting stays as it is until its last chunk is in.
pub fn stop(store: &mut Store, state: &mut AppState, now: &str) -> (r: Result<i64, AppError>)
    requires
        old(store)@.wf(),
    ensures
        final(store)@.wf(),
        final(state).meeting is None,
        final(state).session == old(state).session,
        final(state).app_started_at == old(state).app_started_at,
        match old(state).meeting {
            None => r is Err && r->Err_0@ == Failure::Other("no meeting is being recorded"@)
                && final(store)@ == old(store)@,
            Some(now_recording) => {
                let id = now_recording.meeting_id;
                let m = row_at::<MeetingRow>(old(store)@.meetings, id)->0;
                if in_state(old(store)@, id, "recording"@) {
                    r is Ok && r->Ok_0 == id && final(store)@ == with_meeting(
                        old(store)@,
                        id,
                        MeetingRow { ended_at: or_else(m.ended_at, now@), ..m },
                    )
                } else {
                    r is Err && r->Err_0@ == Failure::Other("that meeting is no longer recording"@)
                        && final(store)@ == old(store)@
                }
            },
        },
{
    match state.take_meeting() {
        None => Err(other("no meeting is being recorded")),
        Some(m) => if meetings::meeting_stopped(store, m.meeting_id, now) {
            Ok(m.meeting_id)
        } else {
            Err(other("that meeting is no longer recording"))
        },
    }
}

/// The last chunk is in. A meeting that was failed meanwhile stays failed.
pub fn drained(store: &mut Store, id: i64) -> (r: bool)
    requires
        old(store)@.wf(),
    ensures
        final(store)@.wf(),
        r == in_state(old(store)@, id, "recording"@),
        final(store)@ == (if r {
            let m = row_at::<MeetingRow>(old(store)@.meetings, id)->0;
            with_meeting(old(store)@, id, MeetingRow { state: "done"@, ..m })
        } else {
            old(store)@
        }),
{
    meetings::meeting_state(store, id, "recording", "done")
}

// -------------------------------------------------------------------- the files

/// An attachment read off disk, before anything is sent.
#[derive(Debug)]
pub enum Loaded {
    Text(String),
    /// A PDF or an image, still to be uploaded. Its type is read out of its
    /// bytes, so that what is declared is what is sent.
    Upload { bytes: Vec<u8>, media_type: &'static str },
}

/// A loaded attachment over characters and bytes.
pub enum LoadedView {
    Text(Seq<char>),
    Upload { bytes: Seq<u8>, media_type: Seq<char> },
}

impl View for Loaded {
    type V = LoadedView;

    open spec fn view(&self) -> LoadedView {
        match *self {
            Loaded::Text(s) => LoadedView::Text(s@),
            Loaded::Upload { bytes, media_type } => LoadedView::Upload {
                bytes: bytes@,
                media_type: media_type@,
            },
        }
    }
}

/// Whether a file has to be read off disk.
pub open spec fn needs_bytes(kind: Seq<char>) -> bool {
    kind == "pdf"@ || kind == "image"@
}

pub fn is_read(row: &FileRow) -> (r: bool)
    ensures
        r == needs_bytes(row.kind@),
{
    text::same(row.kind.as_str(), "pdf") || text::same(row.kind.as_str(), "image")
}

/// What an attachment comes to, given the bytes of its copy where it has to be
/// read. One whose text is missing, whose copy is gone or is no image any
/// more, or whose kind is not known is left out: the meeting is still worth
/// writing up.
pub open spec fn loaded(row: FileRow<Seq<char>>, bytes: Option<Seq<u8>>) -> Option<LoadedView> {
    if row.kind == "text"@ || row.kind == "office"@ {
        match row.extracted {
            Some(t) => Some(LoadedView::Text(t)),
            None => None,
        }
    } else if row.kind == "pdf"@ {
        match bytes {
            Some(b) => Some(LoadedView::Upload { bytes: b, media_type: "application/pdf"@ }),
            None => None,
        }
    } else if row.kind == "image"@ {
        match bytes {
            Some(b) => match attach::media_type(b) {
                Some(t) => Some(LoadedView::Upload { bytes: b, media_type: t }),
                None => None,
            },
            None => None,
        }
    } else {
        None
    }
}

pub open spec fn bytes_view(b: Option<Vec<u8>>) -> Option<Seq<u8>> {
    match b {
        Some(v) => Some(v@),
        None => None,
    }
}

/// Loads an attachment.
pub fn load(row: &FileRow, bytes: Option<Vec<u8>>) -> (r: Option<Loaded>)
    ensures
        match r {
            Some(l) => loaded(row.deep_view(), bytes_view(bytes)) == Some(l@),
            None => loaded(row.deep_view(), bytes_view(bytes)) is None,
        },
{
    let kind = row.kind.as_str();
    if text::same(kind, "text") || text::same(kind, "office") {
        return match &row.extracted {
            Some(t) => Some(Loaded::Text(text::owned(t.as_str()))),
            None => None,
        };
    }
    if text::same(kind, "pdf") {
        return match bytes {
            Some(b) => Some(Loaded::Upload { bytes: b, media_type: "application/pdf" }),
            None => None,
        };
    }
    if text::same(kind, "image") {
        return match bytes {
            Some(b) => match attach::image_media_type(b.as_slice()) {
                Some(media_type) => Some(Loaded::Upload { bytes: b, media_type }),
                None => None,
            },
            None => None,
        };
    }
    None
}

/// An uploaded file as the model takes it.
pub fn uploaded(media_type: &str, file_id: String) -> (r: FileContent)
    ensures
        r == (if media_type@ == "application/pdf"@ {
            FileContent::Pdf { file_id }
        } else {
            FileContent::Image { file_id }
        }),
{
    if text::same(media_type, "application/pdf") {
        FileContent::Pdf { file_id }
    } else {
        FileContent::Image { file_id }
    }
}

/// The error of an upload that failed, which fails the run: notes without a
/// file that was attached would be worse without saying so.
pub fn upload_failed(name: &str, cause: &AppError) -> (e: AppError)
    ensures
        e@ == Failure::Other("could not upload "@ + name@ + ": "@ + cause@.message()),
{
    let mut line = text::cat3("could not upload ", name, ": ");
    line.append(cause.message().as_str());
    AppError::Other(line)
}

// -------------------------------------------------------------------- the notes

/// Whether there is anything to write notes from. Typed notes without a word
/// recorded are enough.
pub fn check_material(raw: &str, notes: &str, files: usize) -> (r: Result<(), AppError>)
    ensures
        match r {
            Ok(_) => !text::blank(raw@) || !text::blank(notes@) || files > 0,
            Err(e) => text::blank(raw@) && text::blank(notes@) && files == 0 && e@
                == Failure::Other(
                "nothing to write notes from — no transcript, no notes, no files"@,
            ),
        },
{
    if text::is_blank(raw) && text::is_blank(notes) && files == 0 {
        Err(other("nothing to write notes from — no transcript, no notes, no files"))
    } else {
        Ok(())
    }
}

/// Begins to write a finished meeting's notes.
pub fn begin_notes(store: &mut Store, recording: Option<i64>, id: i64) -> (r: Result<(), AppError>)
    requires
        old(store)@.wf(),
    ensures
        final(store)@.wf(),
        ({
            let m = row_at::<MeetingRow>(old(store)@.meetings, id)->0;
            match r {
                Ok(_) => recording != Some(id) && is_done(old(store)@, id) && final(store)@
                    == with_meeting(
                    old(store)@,
                    id,
                    MeetingRow { state: "cleaning"@, error: None, ..m },
                ),
                Err(e) => final(store)@ == old(store)@ && if recording == Some(id) {
                    e@ == Failure::Other("that meeting is still recording"@)
                } else {
                    !is_done(old(store)@, id) && e@ == Failure::Other(
                        "that meeting is not finished yet"@,
                    )
                },
            }
        }),
{
    if let Some(r) = recording {
        if r == id {
            return Err(other("that meeting is still recording"));
        }
    }
    if !meetings::meeting_rerun(store, id) {
        return Err(other("that meeting is not finished yet"));
    }
    Ok(())
}

/// The store after a failure to write a meeting's notes.
pub open spec fn notes_failed(v: Tables, id: i64, error: Failure, now: Seq<char>) -> Tables {
    match row_at::<MeetingRow>(v.meetings, id) {
        Some(m) => if underway(m) {
            with_meeting(v, id, failed(m, error.message(), now))
        } else {
            v
        },
        None => v,
    }
}

/// What comes of writing a meeting's notes.
pub open spec fn notes_ended(
    v: Tables,
    id: i64,
    outcome: Result<(Seq<char>, Seq<char>, Seq<Seq<char>>), Failure>,
    now: Seq<char>,
) -> (Tables, Option<Failure>) {
    match outcome {
        Ok((title, summary, items)) => match finished_with(v, id, title, summary, items, now) {
            Ok(t) => (t, None),
            Err(e) => (notes_failed(v, id, e, now), Some(e)),
        },
        Err(e) => (notes_failed(v, id, e, now), Some(e)),
    }
}

pub open spec fn outcome_view(r: Result<claude::MeetingNotes, AppError>) -> Result<
    (Seq<char>, Seq<char>, Seq<Seq<char>>),
    Failure,
> {
    match r {
        Ok(n) => Ok((n.title@, n.summary@, text::views(n.action_items@))),
        Err(e) => Err(e@),
    }
}

/// Ends the writing of a meeting's notes, whatever came of it: they are
/// stored, or the meeting is marked with what went wrong.
pub fn end_notes(
    store: &mut Store,
    id: i64,
    outcome: Result<claude::MeetingNotes, AppError>,
    now: &str,
) -> (r: Result<(), AppError>)
    requires
        old(store)@.wf(),
    ensures
        final(store)@.wf(),
        ({
            let (t, e) = notes_ended(old(store)@, id, outcome_view(outcome), now@);
            final(store)@ == t && match r {
                Ok(_) => e is None,
                Err(x) => e == Some(x@),
            }
        }),
{
    let e = match outcome {
        Ok(n) => {
            let notes = meetings::MeetingNotes {
                title: n.title.as_str(),
                summary: n.summary.as_str(),
                action_items: &n.action_items,
            };
            match meetings::finish_meeting(store, id, &notes, now) {
                Ok(_) => {
                    return Ok(());
                },
                Err(e) => e,
            }
        },
        Err(e) => e,
    };
    let message = e.message();
    meetings::meeting_failed(store, id, message.as_str(), now);
    Err(e)
}

/// However the writing of notes ends, a meeting that it was begun for is
/// finished then: it is never left under way with nothing working on it.
pub proof fn writing_notes_always_ends(
    v: Tables,
    id: i64,
    outcome: Result<(Seq<char>, Seq<char>, Seq<Seq<char>>), Failure>,
    now: Seq<char>,
)
    requires
        v.wf(),
        row_at::<MeetingRow>(v.meetings, id) matches Some(m) && underway(m),
    ensures
        is_done(notes_ended(v, id, outcome, now).0, id),
{
    let m = row_at::<MeetingRow>(v.meetings, id)->0;
    let i = table::lemma_row_found::<MeetingRow>(v.meetings, id);
    assert(v.meetings[i] == m);
    let (t, e) = notes_ended(v, id, outcome, now);
    let row = match e {
        None => MeetingRow {
            title: outcome->Ok_0.0,
            summary: Some(outcome->Ok_0.1),
            summary_edited_at: None,
            state: "done"@,
            error: None,
            ended_at: or_else(m.ended_at, now),
            ..m
        },
        Some(f) => failed(m, f.message(), now),
    };
    table::lemma_put_reads::<MeetingRow>(v.meetings, id, row, id);
}

/// However the writing of notes ends, what was recorded, typed and attached is
/// as it was, and so is every other meeting.
pub proof fn writing_notes_keeps_the_record(
    v: Tables,
    id: i64,
    outcome: Result<(Seq<char>, Seq<char>, Seq<Seq<char>>), Failure>,
    now: Seq<char>,
    other_id: i64,
)
    requires
        v.wf(),
    ensures
        ({
            let u = notes_ended(v, id, outcome, now).0;
            &&& u.segments == v.segments
            &&& u.files == v.files
            &&& u.tasks == v.tasks
            &&& match row_at::<MeetingRow>(v.meetings, other_id) {
                None => row_at::<MeetingRow>(u.meetings, other_id) is None,
                Some(m) => row_at::<MeetingRow>(u.meetings, other_id) matches Some(n) && n.notes
                    == m.notes && n.clean_transcript == m.clean_transcript && n.started_at
                    == m.started_at && (other_id != id ==> n == m),
            }
        }),
{
    if let Some(m) = row_at::<MeetingRow>(v.meetings, id) {
        let i = table::lemma_row_found::<MeetingRow>(v.meetings, id);
        assert(v.meetings[i] == m);
        let (u, e) = notes_ended(v, id, outcome, now);
        let row = match e {
            None => MeetingRow {
                title: outcome->Ok_0.0,
                summary: Some(outcome->Ok_0.1),
                summary_edited_at: None,
                state: "done"@,
                error: None,
                ended_at: or_else(m.ended_at, now),
                ..m
            },
            Some(f) => failed(m, f.message(), now),
        };
        table::lemma_put_reads::<MeetingRow>(v.meetings, id, row, other_id);
        if other_id == id {
            table::lemma_put_reads::<MeetingRow>(v.meetings, id, row, id);
        }
    }
}

} // verus!
