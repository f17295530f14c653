//! What the screen is given, over strings as it is handed out and over
//! characters as contracts speak of it.

use vstd::prelude::*;

use crate::build_info::BuildInfo;
use crate::recommendations::Recommendation;
use crate::sort::deep;
use crate::text::opt_view;

verus! {

#[derive(Debug)]
pub struct Session<S = String> {
    pub id: i64,
    pub started_at: S,
    pub ended_at: Option<S>,
    pub close_reason: Option<S>,
    pub statement: S,
    pub intended_minutes: Option<i64>,
    /// When the time-up checkpoint fires; `None` once it has, or for an
    /// open-ended session that never gets one.
    pub checkpoint_due_at: Option<S>,
    /// A session without a statement is labelled by its tasks instead.
    pub first_task: Option<S>,
    pub task_count: i64,
}

impl DeepView for Session {
    type V = Session<Seq<char>>;

    open spec fn deep_view(&self) -> Session<Seq<char>> {
        Session {
            id: self.id,
            started_at: self.started_at@,
            ended_at: opt_view(self.ended_at),
            close_reason: opt_view(self.close_reason),
            statement: self.statement@,
            intended_minutes: self.intended_minutes,
            checkpoint_due_at: opt_view(self.checkpoint_due_at),
            first_task: opt_view(self.first_task),
            task_count: self.task_count,
        }
    }
}

/// One PipeWire capture node, for the source selector.
#[derive(Debug)]
pub struct AudioSource<S = String> {
    /// What the recorder is given: the node name. Never the object serial,
    /// which is reassigned when a device reconnects.
    pub target: S,
    /// What a person reads.
    pub label: S,
}

impl DeepView for AudioSource {
    type V = AudioSource<Seq<char>>;

    open spec fn deep_view(&self) -> AudioSource<Seq<char>> {
        AudioSource { target: self.target@, label: self.label@ }
    }
}

#[derive(Debug, PartialEq, Eq)]
pub struct Label<S = String> {
    pub name: S,
    pub color: S,
}

impl DeepView for Label {
    type V = Label<Seq<char>>;

    open spec fn deep_view(&self) -> Label<Seq<char>> {
        Label { name: self.name@, color: self.color@ }
    }
}

/// A label and how many tasks wear it.
#[derive(Debug)]
pub struct LabelSummary<S = String> {
    pub name: S,
    pub color: S,
    pub uses: i64,
}

impl DeepView for LabelSummary {
    type V = LabelSummary<Seq<char>>;

    open spec fn deep_view(&self) -> LabelSummary<Seq<char>> {
        LabelSummary { name: self.name@, color: self.color@, uses: self.uses }
    }
}

#[derive(Debug)]
pub struct Task<S = String, L = Vec<Label>> {
    pub id: i64,
    pub session_id: Option<i64>,
    pub title: S,
    pub position: i64,
    pub status: S,
    /// 0 for tasks that were never carried over.
    pub carry_count: i64,
    pub notes: S,
    pub due_date: Option<S>,
    pub labels: L,
}

impl DeepView for Task {
    type V = Task<Seq<char>, Seq<Label<Seq<char>>>>;

    open spec fn deep_view(&self) -> Task<Seq<char>, Seq<Label<Seq<char>>>> {
        Task {
            id: self.id,
            session_id: self.session_id,
            title: self.title@,
            position: self.position,
            status: self.status@,
            carry_count: self.carry_count,
            notes: self.notes@,
            due_date: opt_view(self.due_date),
            labels: deep(self.labels@),
        }
    }
}

#[derive(Debug)]
pub struct Board {
    pub session: Option<Session>,
    /// The current session's cards; empty where there is none.
    pub tasks: Vec<Task>,
    pub backlog: Vec<Task>,
    /// Unread analyses, for the badge.
    pub unseen: i64,
}

/// The entire board after a drop, written atomically.
#[derive(Debug)]
pub struct Arrangement {
    pub todo: Vec<i64>,
    pub doing: Vec<i64>,
    pub done: Vec<i64>,
    pub dropped: Vec<i64>,
}

#[derive(Debug)]
pub struct Analysis<S = String, R = Recommendation> {
    pub id: i64,
    pub session_id: i64,
    pub created_at: S,
    pub window_start: S,
    pub window_end: S,
    pub headline: S,
    pub alignment: Option<i64>,
    pub body: S,
    pub seen_at: Option<S>,
    /// `None` only if the session is gone.
    pub session_statement: Option<S>,
    /// "check" or "checkpoint".
    pub kind: S,
    /// Looked up at read time, so that a reworded entry applies to every
    /// checkpoint already recorded. `None` on plain checks, and on a stored id
    /// the catalog no longer knows.
    pub recommendation: Option<R>,
    pub recommendation_note: Option<S>,
}

impl DeepView for Analysis {
    type V = Analysis<Seq<char>, Recommendation<Seq<char>>>;

    open spec fn deep_view(&self) -> Analysis<Seq<char>, Recommendation<Seq<char>>> {
        Analysis {
            id: self.id,
            session_id: self.session_id,
            created_at: self.created_at@,
            window_start: self.window_start@,
            window_end: self.window_end@,
            headline: self.headline@,
            alignment: self.alignment,
            body: self.body@,
            seen_at: opt_view(self.seen_at),
            session_statement: opt_view(self.session_statement),
            kind: self.kind@,
            recommendation: self.recommendation.deep_view(),
            recommendation_note: opt_view(self.recommendation_note),
        }
    }
}

/// A transcribed meeting, as the list shows it.
#[derive(Debug)]
pub struct Meeting<S = String> {
    pub id: i64,
    /// `None` where it was recorded between sessions.
    pub session_id: Option<i64>,
    pub started_at: S,
    pub ended_at: Option<S>,
    pub title: S,
    /// "recording", "cleaning", "summarizing", "done" or "failed".
    pub state: S,
    pub error: Option<S>,
    pub segment_count: i64,
    pub file_count: i64,
    pub has_clean: bool,
}

impl DeepView for Meeting {
    type V = Meeting<Seq<char>>;

    open spec fn deep_view(&self) -> Meeting<Seq<char>> {
        Meeting {
            id: self.id,
            session_id: self.session_id,
            started_at: self.started_at@,
            ended_at: opt_view(self.ended_at),
            title: self.title@,
            state: self.state@,
            error: opt_view(self.error),
            segment_count: self.segment_count,
            file_count: self.file_count,
            has_clean: self.has_clean,
        }
    }
}

#[derive(Debug)]
pub struct MeetingSegment<S = String> {
    pub id: i64,
    pub seq: i64,
    pub started_at: S,
    /// Empty where that chunk's transcription failed.
    pub text: S,
}

impl DeepView for MeetingSegment {
    type V = MeetingSegment<Seq<char>>;

    open spec fn deep_view(&self) -> MeetingSegment<Seq<char>> {
        MeetingSegment {
            id: self.id,
            seq: self.seq,
            started_at: self.started_at@,
            text: self.text@,
        }
    }
}

#[derive(Debug)]
pub struct MeetingAction<S = String> {
    pub id: i64,
    pub position: i64,
    pub text: S,
    /// The backlog task this action became, which is what stops a second
    /// approval from inserting it twice.
    pub task_id: Option<i64>,
}

impl DeepView for MeetingAction {
    type V = MeetingAction<Seq<char>>;

    open spec fn deep_view(&self) -> MeetingAction<Seq<char>> {
        MeetingAction {
            id: self.id,
            position: self.position,
            text: self.text@,
            task_id: self.task_id,
        }
    }
}

/// What the screen may know about an attached file: neither where the copy
/// lives nor what is in it.
#[derive(Debug)]
pub struct MeetingFile<S = String> {
    pub id: i64,
    pub position: i64,
    pub name: S,
    pub kind: S,
    pub bytes: i64,
    pub added_at: S,
}

impl DeepView for MeetingFile {
    type V = MeetingFile<Seq<char>>;

    open spec fn deep_view(&self) -> MeetingFile<Seq<char>> {
        MeetingFile {
            id: self.id,
            position: self.position,
            name: self.name@,
            kind: self.kind@,
            bytes: self.bytes,
            added_at: self.added_at@,
        }
    }
}

/// One meeting with everything the detail pane needs.
#[derive(Debug)]
pub struct MeetingDetail {
    pub meeting: Meeting,
    pub segments: Vec<MeetingSegment>,
    pub actions: Vec<MeetingAction>,
    pub files: Vec<MeetingFile>,
    pub notes: String,
    pub summary: Option<String>,
    pub summary_edited_at: Option<String>,
    pub clean_transcript: Option<String>,
}

/// The recording in progress.
#[derive(Debug)]
pub struct RecordingNow {
    pub meeting_id: i64,
    pub since: String,
}

/// How the app is.
#[derive(Debug)]
pub struct Health {
    pub schema_version: i64,
    pub needs_migration: bool,
    pub session: Option<Session>,
    pub aw_ok: bool,
    pub build: BuildInfo,
    /// What is wrong with the resume gate, if anything is.
    pub resume_gate: Option<String>,
}

/// What came of attaching files: the whole list, and a line for each file that
/// was refused.
#[derive(Debug)]
pub struct AttachOutcome {
    pub files: Vec<MeetingFile>,
    pub rejected: Vec<String>,
}

} // verus!
