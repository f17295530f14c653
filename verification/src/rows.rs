//! The rows of the store, over strings as they are kept and over characters as
//! contracts speak of them.

use vstd::prelude::*;

use crate::sort::deep;
use crate::table::ascending;
use crate::table::Keyed;
use crate::table::Placed;
use crate::text::opt_view;

verus! {

#[derive(Debug)]
pub struct SessionRow<S = String> {
    pub id: i64,
    pub started_at: S,
    pub ended_at: Option<S>,
    pub close_reason: Option<S>,
    pub statement: S,
    pub intended_minutes: Option<i64>,
    pub checkpoint_due_at: Option<S>,
    pub last_heartbeat: Option<S>,
    pub mode: S,
}

#[derive(Debug)]
pub struct TaskRow<S = String> {
    pub id: i64,
    /// `None` in the backlog.
    pub session_id: Option<i64>,
    pub title: S,
    pub position: i64,
    /// "planned", "doing", "done" or "dropped".
    pub status: S,
    pub notes: S,
    pub due_date: Option<S>,
    pub carried_from: Option<i64>,
    pub started_at: Option<S>,
    pub resolved_at: Option<S>,
    pub source: S,
    pub created_at: S,
}

#[derive(Debug)]
pub struct LabelRow<S = String> {
    pub id: i64,
    pub name: S,
    pub color: S,
}

#[derive(Debug)]
pub struct AnalysisRow<S = String> {
    pub id: i64,
    pub session_id: i64,
    pub created_at: S,
    pub window_start: S,
    pub window_end: S,
    pub headline: S,
    pub alignment: Option<i64>,
    pub body: S,
    pub observed_json: S,
    /// "check" or "checkpoint".
    pub kind: S,
    pub recommendation_id: Option<S>,
    pub recommendation_note: Option<S>,
    pub seen_at: Option<S>,
}

#[derive(Debug)]
pub struct MeetingRow<S = String> {
    pub id: i64,
    /// `None` where it was recorded between sessions.
    pub session_id: Option<i64>,
    pub started_at: S,
    pub ended_at: Option<S>,
    pub title: S,
    pub summary: Option<S>,
    pub summary_edited_at: Option<S>,
    /// "recording", "cleaning", "summarizing", "done" or "failed".
    pub state: S,
    pub error: Option<S>,
    pub notes: S,
    pub clean_transcript: Option<S>,
}

#[derive(Debug)]
pub struct SegmentRow<S = String> {
    pub id: i64,
    pub meeting_id: i64,
    pub seq: i64,
    pub started_at: S,
    pub text: S,
}

#[derive(Debug)]
pub struct StoredFile<S = String> {
    pub id: i64,
    pub meeting_id: i64,
    pub position: i64,
    pub name: S,
    pub path: S,
    pub kind: S,
    pub bytes: i64,
    pub extracted: Option<S>,
    pub added_at: S,
}

#[derive(Debug)]
pub struct ActionRow<S = String> {
    pub id: i64,
    pub meeting_id: i64,
    pub position: i64,
    pub text: S,
    /// The task this action became.
    pub task_id: Option<i64>,
}

/// A setting, by its key.
#[derive(Debug)]
pub struct Setting<S = String> {
    pub key: S,
    pub value: S,
}

impl DeepView for SessionRow {
    type V = SessionRow<Seq<char>>;

    open spec fn deep_view(&self) -> SessionRow<Seq<char>> {
        SessionRow {
            id: self.id,
            started_at: self.started_at@,
            ended_at: opt_view(self.ended_at),
            close_reason: opt_view(self.close_reason),
            statement: self.statement@,
            intended_minutes: self.intended_minutes,
            checkpoint_due_at: opt_view(self.checkpoint_due_at),
            last_heartbeat: opt_view(self.last_heartbeat),
            mode: self.mode@,
        }
    }
}

impl Keyed for SessionRow {
    open spec fn key(v: SessionRow<Seq<char>>) -> i64 {
        v.id
    }

    fn id(&self) -> (r: i64) {
        self.id
    }
}

impl DeepView for TaskRow {
    type V = TaskRow<Seq<char>>;

    open spec fn deep_view(&self) -> TaskRow<Seq<char>> {
        TaskRow {
            id: self.id,
            session_id: self.session_id,
            title: self.title@,
            position: self.position,
            status: self.status@,
            notes: self.notes@,
            due_date: opt_view(self.due_date),
            carried_from: self.carried_from,
            started_at: opt_view(self.started_at),
            resolved_at: opt_view(self.resolved_at),
            source: self.source@,
            created_at: self.created_at@,
        }
    }
}

impl Keyed for TaskRow {
    open spec fn key(v: TaskRow<Seq<char>>) -> i64 {
        v.id
    }

    fn id(&self) -> (r: i64) {
        self.id
    }
}

impl Placed for TaskRow {
    open spec fn home(v: TaskRow<Seq<char>>) -> Option<i64> {
        v.session_id
    }

    open spec fn position(v: TaskRow<Seq<char>>) -> i64 {
        v.position
    }

    fn home_id(&self) -> (r: Option<i64>) {
        self.session_id
    }

    fn place(&self) -> (r: i64) {
        self.position
    }
}

impl DeepView for LabelRow {
    type V = LabelRow<Seq<char>>;

    open spec fn deep_view(&self) -> LabelRow<Seq<char>> {
        LabelRow { id: self.id, name: self.name@, color: self.color@ }
    }
}

impl Keyed for LabelRow {
    open spec fn key(v: LabelRow<Seq<char>>) -> i64 {
        v.id
    }

    fn id(&self) -> (r: i64) {
        self.id
    }
}

impl DeepView for AnalysisRow {
    type V = AnalysisRow<Seq<char>>;

    open spec fn deep_view(&self) -> AnalysisRow<Seq<char>> {
        AnalysisRow {
            id: self.id,
            session_id: self.session_id,
            created_at: self.created_at@,
            window_start: self.window_start@,
            window_end: self.window_end@,
            headline: self.headline@,
            alignment: self.alignment,
            body: self.body@,
            observed_json: self.observed_json@,
            kind: self.kind@,
            recommendation_id: opt_view(self.recommendation_id),
            recommendation_note: opt_view(self.recommendation_note),
            seen_at: opt_view(self.seen_at),
        }
    }
}

impl Keyed for AnalysisRow {
    open spec fn key(v: AnalysisRow<Seq<char>>) -> i64 {
        v.id
    }

    fn id(&self) -> (r: i64) {
        self.id
    }
}

impl DeepView for MeetingRow {
    type V = MeetingRow<Seq<char>>;

    open spec fn deep_view(&self) -> MeetingRow<Seq<char>> {
        MeetingRow {
            id: self.id,
            session_id: self.session_id,
            started_at: self.started_at@,
            ended_at: opt_view(self.ended_at),
            title: self.title@,
            summary: opt_view(self.summary),
            summary_edited_at: opt_view(self.summary_edited_at),
            state: self.state@,
            error: opt_view(self.error),
            notes: self.notes@,
            clean_transcript: opt_view(self.clean_transcript),
        }
    }
}

impl Keyed for MeetingRow {
    open spec fn key(v: MeetingRow<Seq<char>>) -> i64 {
        v.id
    }

    fn id(&self) -> (r: i64) {
        self.id
    }
}

impl DeepView for SegmentRow {
    type V = SegmentRow<Seq<char>>;

    open spec fn deep_view(&self) -> SegmentRow<Seq<char>> {
        SegmentRow {
            id: self.id,
            meeting_id: self.meeting_id,
            seq: self.seq,
            started_at: self.started_at@,
            text: self.text@,
        }
    }
}

impl Keyed for SegmentRow {
    open spec fn key(v: SegmentRow<Seq<char>>) -> i64 {
        v.id
    }

    fn id(&self) -> (r: i64) {
        self.id
    }
}

impl Placed for SegmentRow {
    open spec fn home(v: SegmentRow<Seq<char>>) -> Option<i64> {
        Some(v.meeting_id)
    }

    open spec fn position(v: SegmentRow<Seq<char>>) -> i64 {
        v.seq
    }

    fn home_id(&self) -> (r: Option<i64>) {
        Some(self.meeting_id)
    }

    fn place(&self) -> (r: i64) {
        self.seq
    }
}

impl DeepView for StoredFile {
    type V = StoredFile<Seq<char>>;

    open spec fn deep_view(&self) -> StoredFile<Seq<char>> {
        StoredFile {
            id: self.id,
            meeting_id: self.meeting_id,
            position: self.position,
            name: self.name@,
            path: self.path@,
            kind: self.kind@,
            bytes: self.bytes,
            extracted: opt_view(self.extracted),
            added_at: self.added_at@,
        }
    }
}

impl Keyed for StoredFile {
    open spec fn key(v: StoredFile<Seq<char>>) -> i64 {
        v.id
    }

    fn id(&self) -> (r: i64) {
        self.id
    }
}

impl Placed for StoredFile {
    open spec fn home(v: StoredFile<Seq<char>>) -> Option<i64> {
        Some(v.meeting_id)
    }

    open spec fn position(v: StoredFile<Seq<char>>) -> i64 {
        v.position
    }

    fn home_id(&self) -> (r: Option<i64>) {
        Some(self.meeting_id)
    }

    fn place(&self) -> (r: i64) {
        self.position
    }
}

impl DeepView for ActionRow {
    type V = ActionRow<Seq<char>>;

    open spec fn deep_view(&self) -> ActionRow<Seq<char>> {
        ActionRow {
            id: self.id,
            meeting_id: self.meeting_id,
            position: self.position,
            text: self.text@,
            task_id: self.task_id,
        }
    }
}

impl Keyed for ActionRow {
    open spec fn key(v: ActionRow<Seq<char>>) -> i64 {
        v.id
    }

    fn id(&self) -> (r: i64) {
        self.id
    }
}

impl Placed for ActionRow {
    open spec fn home(v: ActionRow<Seq<char>>) -> Option<i64> {
        Some(v.meeting_id)
    }

    open spec fn position(v: ActionRow<Seq<char>>) -> i64 {
        v.position
    }

    fn home_id(&self) -> (r: Option<i64>) {
        Some(self.meeting_id)
    }

    fn place(&self) -> (r: i64) {
        self.position
    }
}

impl DeepView for Setting {
    type V = Setting<Seq<char>>;

    open spec fn deep_view(&self) -> Setting<Seq<char>> {
        Setting { key: self.key@, value: self.value@ }
    }
}

/// Everything that is kept. Each table is in the order of its ids.
#[derive(Debug)]
pub struct Store {
    pub sessions: Vec<SessionRow>,
    pub tasks: Vec<TaskRow>,
    pub labels: Vec<LabelRow>,
    /// Which task wears which label.
    pub task_labels: Vec<(i64, i64)>,
    pub analyses: Vec<AnalysisRow>,
    pub meetings: Vec<MeetingRow>,
    pub segments: Vec<SegmentRow>,
    pub files: Vec<StoredFile>,
    pub actions: Vec<ActionRow>,
    pub settings: Vec<Setting>,
}

/// The store over characters.
#[verifier::ext_equal]
pub struct Tables {
    pub sessions: Seq<SessionRow<Seq<char>>>,
    pub tasks: Seq<TaskRow<Seq<char>>>,
    pub labels: Seq<LabelRow<Seq<char>>>,
    pub task_labels: Seq<(i64, i64)>,
    pub analyses: Seq<AnalysisRow<Seq<char>>>,
    pub meetings: Seq<MeetingRow<Seq<char>>>,
    pub segments: Seq<SegmentRow<Seq<char>>>,
    pub files: Seq<StoredFile<Seq<char>>>,
    pub actions: Seq<ActionRow<Seq<char>>>,
    pub settings: Seq<Setting<Seq<char>>>,
}

impl View for Store {
    type V = Tables;

    open spec fn view(&self) -> Tables {
        Tables {
            sessions: deep(self.sessions@),
            tasks: deep(self.tasks@),
            labels: deep(self.labels@),
            task_labels: self.task_labels@,
            analyses: deep(self.analyses@),
            meetings: deep(self.meetings@),
            segments: deep(self.segments@),
            files: deep(self.files@),
            actions: deep(self.actions@),
            settings: deep(self.settings@),
        }
    }
}

impl Tables {
    /// Every table is in the order of its ids, and no id is there twice.
    pub open spec fn wf(self) -> bool {
        &&& ascending::<SessionRow>(self.sessions)
        &&& ascending::<TaskRow>(self.tasks)
        &&& ascending::<LabelRow>(self.labels)
        &&& ascending::<AnalysisRow>(self.analyses)
        &&& ascending::<MeetingRow>(self.meetings)
        &&& ascending::<SegmentRow>(self.segments)
        &&& ascending::<StoredFile>(self.files)
        &&& ascending::<ActionRow>(self.actions)
    }

    /// Nothing kept.
    pub open spec fn empty() -> Tables {
        Tables {
            sessions: seq![],
            tasks: seq![],
            labels: seq![],
            task_labels: seq![],
            analyses: seq![],
            meetings: seq![],
            segments: seq![],
            files: seq![],
            actions: seq![],
            settings: seq![],
        }
    }
}

impl Store {
    /// A store with nothing in it.
    pub fn new() -> (s: Store)
        ensures
            s@ == Tables::empty(),
            s@.wf(),
    {
        let s = Store {
            sessions: Vec::new(),
            tasks: Vec::new(),
            labels: Vec::new(),
            task_labels: Vec::new(),
            analyses: Vec::new(),
            meetings: Vec::new(),
            segments: Vec::new(),
            files: Vec::new(),
            actions: Vec::new(),
            settings: Vec::new(),
        };
        proof {
            assert(s@ =~= Tables::empty());
        }
        s
    }

    /// Whether rows read from elsewhere are in the order of their ids, table by
    /// table.
    pub fn is_wf(&self) -> (r: bool)
        ensures
            r == self@.wf(),
    {
        is_ascending(&self.sessions) && is_ascending(&self.tasks) && is_ascending(&self.labels)
            && is_ascending(&self.analyses) && is_ascending(&self.meetings) && is_ascending(
            &self.segments,
        ) && is_ascending(&self.files) && is_ascending(&self.actions)
    }
}

fn is_ascending<R: Keyed>(rows: &Vec<R>) -> (r: bool)
    ensures
        r == ascending::<R>(deep(rows@)),
{
    let mut i: usize = 1;
    while i < rows.len()
        invariant
            1 <= i,
            i <= rows.len() || rows.len() == 0,
            forall|a: int, b: int|
                0 <= a < b < i && b < rows.len() ==> R::key(#[trigger] deep(rows@)[a]) < R::key(
                    #[trigger] deep(rows@)[b],
                ),
        decreases rows.len() - i,
    {
        proof {
            assert(deep(rows@)[i - 1] == rows@[i - 1].deep_view());
            assert(deep(rows@)[i as int] == rows@[i as int].deep_view());
        }
        if rows[i - 1].id() >= rows[i].id() {
            return false;
        }
        i = i + 1;
    }
    true
}

} // verus!
