//! The meetings in the store: their segments, their notes, the files attached
//! to them, and the actions they propose.

use vstd::prelude::*;

use crate::board::card_room;
use crate::board::insert_task;
use crate::board::new_card;
use crate::board::str_view;
use crate::board::with_card;
use crate::db::count;
use crate::db::counted;
use crate::db::full;
use crate::db::limited;
use crate::db::no_room;
use crate::error::other;
use crate::error::AppError;
use crate::error::Failure;
use crate::models::Meeting;
use crate::models::MeetingAction;
use crate::models::MeetingFile;
use crate::models::MeetingSegment;
use crate::rows::ActionRow;
use crate::rows::MeetingRow;
use crate::rows::SegmentRow;
use crate::rows::Store;
use crate::rows::StoredFile;
use crate::rows::Tables;
use crate::rows::TaskRow;
use crate::sort::deep;
use crate::table;
use crate::table::after_top;
use crate::table::at_home;
use crate::table::elsewhere;
use crate::table::fresh;
use crate::table::in_order;
use crate::table::put;
use crate::table::row_at;
use crate::table::Shown;
use crate::table::without;
use crate::text;
use crate::text::opt_view;
use crate::time::toward_zero;

verus! {

broadcast use vstd::seq_lib::group_seq_properties;

// ------------------------------------------------------------------- meetings

/// A meeting as the list shows it: neither its transcripts nor its write-up.
pub open spec fn shown_meeting(v: Tables, m: MeetingRow<Seq<char>>) -> Meeting<Seq<char>> {
    Meeting {
        id: m.id,
        session_id: m.session_id,
        started_at: m.started_at,
        ended_at: m.ended_at,
        title: m.title,
        state: m.state,
        error: m.error,
        segment_count: counted(at_home::<SegmentRow>(v.segments, Some(m.id)).len()),
        file_count: counted(at_home::<StoredFile>(v.files, Some(m.id)).len()),
        has_clean: m.clean_transcript is Some,
    }
}

fn show_meeting(store: &Store, m: &MeetingRow) -> (r: Meeting)
    ensures
        r.deep_view() == shown_meeting(store@, m.deep_view()),
{
    Meeting {
        id: m.id,
        session_id: m.session_id,
        started_at: m.started_at.clone(),
        ended_at: text::owned_opt(&m.ended_at),
        title: m.title.clone(),
        state: m.state.clone(),
        error: text::owned_opt(&m.error),
        segment_count: count(table::count_home(&store.segments, Some(m.id))),
        file_count: count(table::count_home(&store.files, Some(m.id))),
        has_clean: m.clean_transcript.is_some(),
    }
}

/// A meeting that has just begun.
pub open spec fn new_meeting(v: Tables, session_id: Option<i64>, now: Seq<char>) -> (MeetingRow<
    Seq<char>,
>) {
    MeetingRow {
        id: fresh::<MeetingRow>(v.meetings) as i64,
        session_id,
        started_at: now,
        ended_at: None,
        title: ""@,
        summary: None,
        summary_edited_at: None,
        state: "recording"@,
        error: None,
        notes: ""@,
        clean_transcript: None,
    }
}

pub fn start_meeting(store: &mut Store, session_id: Option<i64>, now: &str) -> (r: Result<
    i64,
    AppError,
>)
    requires
        old(store)@.wf(),
    ensures
        final(store)@.wf(),
        match r {
            Ok(id) => id == fresh::<MeetingRow>(old(store)@.meetings) && final(store)@ == (Tables {
                meetings: old(store)@.meetings.push(new_meeting(old(store)@, session_id, now@)),
                ..old(store)@
            }),
            Err(e) => fresh::<MeetingRow>(old(store)@.meetings) > i64::MAX && final(store)@
                == old(store)@ && e@ == full(),
        },
{
    let id = match table::next_id(&store.meetings) {
        Some(id) => id,
        None => return Err(no_room()),
    };
    let row = MeetingRow {
        id,
        session_id,
        started_at: text::owned(now),
        ended_at: None,
        title: text::owned(""),
        summary: None,
        summary_edited_at: None,
        state: text::owned("recording"),
        error: None,
        notes: text::owned(""),
        clean_transcript: None,
    };
    table::add_row(&mut store.meetings, row);
    Ok(id)
}

/// The meeting with an id, as the list shows it.
pub open spec fn meeting_with(v: Tables, id: i64) -> Option<Meeting<Seq<char>>> {
    match row_at::<MeetingRow>(v.meetings, id) {
        Some(m) => Some(shown_meeting(v, m)),
        None => None,
    }
}

pub fn get_meeting(store: &Store, id: i64) -> (r: Option<Meeting>)
    requires
        store@.wf(),
    ensures
        r.deep_view() == meeting_with(store@, id),
{
    match table::find(&store.meetings, id) {
        Some(i) => Some(show_meeting(store, &store.meetings[i])),
        None => None,
    }
}

/// The newest meetings.
pub open spec fn newest_meetings(v: Tables, limit: i64) -> Seq<Meeting<Seq<char>>> {
    limited(v.meetings.reverse(), limit).map_values(
        |m: MeetingRow<Seq<char>>| shown_meeting(v, m),
    )
}

pub fn list_meetings(store: &Store, limit: i64) -> (r: Vec<Meeting>)
    ensures
        deep(r@) == newest_meetings(store@, limit),
{
    let n = store.meetings.len();
    let mut out: Vec<Meeting> = Vec::new();
    let ghost rows = limited(deep(store.meetings@).reverse(), limit);
    while out.len() < n && (limit < 0 || (out.len() as u64) < limit as u64)
        invariant
            out.len() <= rows.len() <= n == store.meetings.len(),
            rows == limited(deep(store.meetings@).reverse(), limit),
            forall|j: int|
                0 <= j < out.len() ==> #[trigger] deep(out@)[j] == shown_meeting(store@, rows[j]),
        decreases n - out.len(),
    {
        let k = out.len();
        let ghost before = out@;
        proof {
            assert(rows[k as int] == deep(store.meetings@)[n - 1 - k]);
        }
        out.push(show_meeting(store, &store.meetings[n - 1 - k]));
        proof {
            assert forall|j: int| 0 <= j < out.len() implies #[trigger] deep(out@)[j]
                == shown_meeting(store@, rows[j]) by {
                if j < k {
                    assert(deep(before)[j] == shown_meeting(store@, rows[j]));
                }
            }
        }
    }
    proof {
        assert(deep(out@) =~= newest_meetings(store@, limit));
    }
    out
}

fn copy_meeting(m: &MeetingRow) -> (r: MeetingRow)
    ensures
        r.deep_view() == m.deep_view(),
{
    MeetingRow {
        id: m.id,
        session_id: m.session_id,
        started_at: m.started_at.clone(),
        ended_at: text::owned_opt(&m.ended_at),
        title: m.title.clone(),
        summary: text::owned_opt(&m.summary),
        summary_edited_at: text::owned_opt(&m.summary_edited_at),
        state: m.state.clone(),
        error: text::owned_opt(&m.error),
        notes: m.notes.clone(),
        clean_transcript: text::owned_opt(&m.clean_transcript),
    }
}

// -------------------------------------------------------------------- segments

pub open spec fn shown_segment(s: SegmentRow<Seq<char>>) -> MeetingSegment<Seq<char>> {
    MeetingSegment { id: s.id, seq: s.seq, started_at: s.started_at, text: s.text }
}

/// A meeting's segments, in the order they were spoken.
pub open spec fn segments_of(v: Tables, meeting_id: i64) -> Seq<MeetingSegment<Seq<char>>> {
    in_order::<SegmentRow>(v.segments, Some(meeting_id)).map_values(
        |s: SegmentRow<Seq<char>>| shown_segment(s),
    )
}

impl Shown<SegmentRow> for MeetingSegment {
    open spec fn shown(v: SegmentRow<Seq<char>>) -> MeetingSegment<Seq<char>> {
        shown_segment(v)
    }

    fn show(row: &SegmentRow) -> (r: Self) {
        MeetingSegment {
            id: row.id,
            seq: row.seq,
            started_at: row.started_at.clone(),
            text: row.text.clone(),
        }
    }
}

pub fn meeting_segments(store: &Store, meeting_id: i64) -> (r: Vec<MeetingSegment>)
    requires
        store@.wf(),
    ensures
        deep(r@) == segments_of(store@, meeting_id),
{
    proof {
        assert(segments_of(store@, meeting_id) =~= in_order::<SegmentRow>(
            store@.segments,
            Some(meeting_id),
        ).map_values(table::show_each::<SegmentRow, MeetingSegment>()));
    }
    table::list::<SegmentRow, MeetingSegment>(&store.segments, Some(meeting_id))
}

/// What is said in a list of segments, trimmed; a failed chunk says nothing.
pub open spec fn spoken(s: Seq<MeetingSegment<Seq<char>>>) -> Seq<Seq<char>>
    decreases s.len(),
{
    if s.len() == 0 {
        seq![]
    } else {
        let rest = spoken(s.drop_last());
        if text::blank(s.last().text) {
            rest
        } else {
            rest.push(text::trimmed(s.last().text))
        }
    }
}

/// The transcript as one block, which is what the model is given.
pub open spec fn transcript_of(v: Tables, meeting_id: i64) -> Seq<char> {
    text::joined(spoken(segments_of(v, meeting_id)), " "@)
}

pub fn transcript(store: &Store, meeting_id: i64) -> (r: String)
    requires
        store@.wf(),
    ensures
        r@ == transcript_of(store@, meeting_id),
{
    let segments = meeting_segments(store, meeting_id);
    let ghost all = deep(segments@);
    let mut parts: Vec<String> = Vec::new();
    let mut i: usize = 0;
    proof {
        assert(all.take(0) =~= seq![]);
        assert(text::views(parts@) =~= seq![]);
    }
    while i < segments.len()
        invariant
            i <= segments.len(),
            all == deep(segments@),
            text::views(parts@) == spoken(all.take(i as int)),
        decreases segments.len() - i,
    {
        proof {
            assert(all.take(i + 1).drop_last() =~= all.take(i as int));
            assert(all.take(i + 1).last() == segments@[i as int].deep_view());
        }
        let t = text::trim(segments[i].text.as_str());
        if !t.as_str().is_empty() {
            let ghost before = text::views(parts@);
            let ghost tv = t@;
            parts.push(t);
            proof {
                assert(text::views(parts@) =~= before.push(tv));
            }
        }
        i = i + 1;
    }
    proof {
        assert(all.take(all.len() as int) =~= all);
    }
    text::join(&parts, " ")
}

/// A meeting has a segment with that number already.
pub open spec fn seq_taken(v: Tables, meeting_id: i64, seq: i64) -> bool {
    exists|i: int|
        0 <= i < v.segments.len() && (#[trigger] v.segments[i]).meeting_id == meeting_id
            && v.segments[i].seq == seq
}

/// What comes of adding a segment. The meeting has to be there, and no number
/// is used twice.
pub open spec fn segment_added(
    v: Tables,
    meeting_id: i64,
    seq: i64,
    said: Seq<char>,
    now: Seq<char>,
) -> Result<Tables, Failure> {
    if row_at::<MeetingRow>(v.meetings, meeting_id) is None {
        Err(Failure::Db("FOREIGN KEY constraint failed"@))
    } else if seq_taken(v, meeting_id, seq) {
        Err(
            Failure::Db(
                "UNIQUE constraint failed: meeting_segment.meeting_id, meeting_segment.seq"@,
            ),
        )
    } else if fresh::<SegmentRow>(v.segments) > i64::MAX {
        Err(full())
    } else {
        Ok(
            Tables {
                segments: v.segments.push(
                    SegmentRow {
                        id: fresh::<SegmentRow>(v.segments) as i64,
                        meeting_id,
                        seq,
                        started_at: now,
                        text: said,
                    },
                ),
                ..v
            },
        )
    }
}

fn has_seq(store: &Store, meeting_id: i64, seq: i64) -> (r: bool)
    ensures
        r == seq_taken(store@, meeting_id, seq),
{
    let mut i: usize = 0;
    while i < store.segments.len()
        invariant
            i <= store.segments.len(),
            forall|j: int|
                0 <= j < i ==> !((#[trigger] store@.segments[j]).meeting_id == meeting_id
                    && store@.segments[j].seq == seq),
        decreases store.segments.len() - i,
    {
        proof {
            assert(store@.segments[i as int] == store.segments@[i as int].deep_view());
        }
        if store.segments[i].meeting_id == meeting_id && store.segments[i].seq == seq {
            return true;
        }
        i = i + 1;
    }
    false
}

pub fn add_segment(store: &mut Store, meeting_id: i64, seq: i64, said: &str, now: &str) -> (r:
    Result<i64, AppError>)
    requires
        old(store)@.wf(),
    ensures
        final(store)@.wf(),
        match r {
            Ok(id) => id == fresh::<SegmentRow>(old(store)@.segments) && segment_added(
                old(store)@,
                meeting_id,
                seq,
                said@,
                now@,
            ) == Ok::<Tables, Failure>(final(store)@),
            Err(e) => final(store)@ == old(store)@ && segment_added(
                old(store)@,
                meeting_id,
                seq,
                said@,
                now@,
            ) == Err::<Tables, Failure>(e@),
        },
{
    if table::find(&store.meetings, meeting_id).is_none() {
        return Err(AppError::Db(text::owned("FOREIGN KEY constraint failed")));
    }
    if has_seq(store, meeting_id, seq) {
        return Err(
            AppError::Db(
                text::owned(
                    "UNIQUE constraint failed: meeting_segment.meeting_id, meeting_segment.seq",
                ),
            ),
        );
    }
    let id = match table::next_id(&store.segments) {
        Some(id) => id,
        None => return Err(no_room()),
    };
    let row = SegmentRow {
        id,
        meeting_id,
        seq,
        started_at: text::owned(now),
        text: text::owned(said),
    };
    table::add_row(&mut store.segments, row);
    Ok(id)
}

// ---------------------------------------------------------------------- states

/// A meeting that has finished one way or the other.
pub open spec fn finished(m: MeetingRow<Seq<char>>) -> bool {
    m.state == "done"@ || m.state == "failed"@
}

/// A meeting that is recording or whose notes are being written.
pub open spec fn underway(m: MeetingRow<Seq<char>>) -> bool {
    m.state == "recording"@ || m.state == "cleaning"@ || m.state == "summarizing"@
}

fn is_finished(m: &MeetingRow) -> (r: bool)
    ensures
        r == finished(m.deep_view()),
{
    text::same(m.state.as_str(), "done") || text::same(m.state.as_str(), "failed")
}

fn is_underway(m: &MeetingRow) -> (r: bool)
    ensures
        r == underway(m.deep_view()),
{
    text::same(m.state.as_str(), "recording") || text::same(m.state.as_str(), "cleaning")
        || text::same(m.state.as_str(), "summarizing")
}

/// The meeting is there and in that state.
pub open spec fn in_state(v: Tables, id: i64, state: Seq<char>) -> bool {
    match row_at::<MeetingRow>(v.meetings, id) {
        Some(m) => m.state == state,
        None => false,
    }
}

pub open spec fn is_done(v: Tables, id: i64) -> bool {
    match row_at::<MeetingRow>(v.meetings, id) {
        Some(m) => finished(m),
        None => false,
    }
}

/// The store with a meeting's row replaced.
pub open spec fn with_meeting(v: Tables, id: i64, m: MeetingRow<Seq<char>>) -> Tables {
    Tables { meetings: put::<MeetingRow>(v.meetings, id, m), ..v }
}

/// The value there is, or else the other.
pub open spec fn or_else(a: Option<Seq<char>>, b: Seq<char>) -> Option<Seq<char>> {
    match a {
        Some(x) => Some(x),
        None => Some(b),
    }
}

fn coalesce(a: &Option<String>, b: &str) -> (r: Option<String>)
    ensures
        opt_view(r) == or_else(opt_view(*a), b@),
{
    match a {
        Some(x) => Some(x.clone()),
        None => Some(text::owned(b)),
    }
}

/// The microphone is shut: the end is stamped unless it was already, and the
/// meeting stays where it is until its last chunk is in.
pub fn meeting_stopped(store: &mut Store, id: i64, now: &str) -> (r: bool)
    requires
        old(store)@.wf(),
    ensures
        final(store)@.wf(),
        r == in_state(old(store)@, id, "recording"@),
        !r ==> final(store)@ == old(store)@,
        r ==> {
            let m = row_at::<MeetingRow>(old(store)@.meetings, id)->0;
            final(store)@ == with_meeting(
                old(store)@,
                id,
                MeetingRow { ended_at: or_else(m.ended_at, now@), ..m },
            )
        },
{
    match table::find(&store.meetings, id) {
        Some(i) => if text::same(store.meetings[i].state.as_str(), "recording") {
            let mut row = copy_meeting(&store.meetings[i]);
            row.ended_at = coalesce(&row.ended_at, now);
            table::set_row(&mut store.meetings, i, row);
            true
        } else {
            false
        },
        None => false,
    }
}

/// Stop recording. Only a meeting that is recording moves, so that the startup
/// sweep and a real Stop cannot both close the same one.
pub fn meeting_cleaning(store: &mut Store, id: i64, now: &str) -> (r: bool)
    requires
        old(store)@.wf(),
    ensures
        final(store)@.wf(),
        r == in_state(old(store)@, id, "recording"@),
        !r ==> final(store)@ == old(store)@,
        r ==> {
            let m = row_at::<MeetingRow>(old(store)@.meetings, id)->0;
            final(store)@ == with_meeting(
                old(store)@,
                id,
                MeetingRow { state: "cleaning"@, ended_at: or_else(m.ended_at, now@), ..m },
            )
        },
{
    match table::find(&store.meetings, id) {
        Some(i) => if text::same(store.meetings[i].state.as_str(), "recording") {
            let mut row = copy_meeting(&store.meetings[i]);
            row.ended_at = coalesce(&row.ended_at, now);
            row.state = text::owned("cleaning");
            table::set_row(&mut store.meetings, i, row);
            true
        } else {
            false
        },
        None => false,
    }
}

/// A guarded hop: a meeting that has left `from` is not dragged back.
pub fn meeting_state(store: &mut Store, id: i64, from: &str, to: &str) -> (r: bool)
    requires
        old(store)@.wf(),
    ensures
        final(store)@.wf(),
        r == in_state(old(store)@, id, from@),
        !r ==> final(store)@ == old(store)@,
        r ==> {
            let m = row_at::<MeetingRow>(old(store)@.meetings, id)->0;
            final(store)@ == with_meeting(old(store)@, id, MeetingRow { state: to@, ..m })
        },
{
    match table::find(&store.meetings, id) {
        Some(i) => if text::same(store.meetings[i].state.as_str(), from) {
            let mut row = copy_meeting(&store.meetings[i]);
            row.state = text::owned(to);
            table::set_row(&mut store.meetings, i, row);
            true
        } else {
            false
        },
        None => false,
    }
}

/// Starts the notes of a finished meeting over, without the old error.
pub fn meeting_rerun(store: &mut Store, id: i64) -> (r: bool)
    requires
        old(store)@.wf(),
    ensures
        final(store)@.wf(),
        r == is_done(old(store)@, id),
        !r ==> final(store)@ == old(store)@,
        r ==> {
            let m = row_at::<MeetingRow>(old(store)@.meetings, id)->0;
            final(store)@ == with_meeting(
                old(store)@,
                id,
                MeetingRow { state: "cleaning"@, error: None, ..m },
            )
        },
{
    match table::find(&store.meetings, id) {
        Some(i) => if is_finished(&store.meetings[i]) {
            let mut row = copy_meeting(&store.meetings[i]);
            row.state = text::owned("cleaning");
            row.error = None;
            table::set_row(&mut store.meetings, i, row);
            true
        } else {
            false
        },
        None => false,
    }
}

/// Picks a finished meeting back up. Its end, its error and its repaired
/// transcript are cleared: the next Stop stamps a new end, a crash reports the
/// recording it lost, and the repaired transcript no longer covers the meeting.
/// The write-up and the actions stay until the next Stop replaces them.
pub fn meeting_resume(store: &mut Store, id: i64) -> (r: bool)
    requires
        old(store)@.wf(),
    ensures
        final(store)@.wf(),
        r == is_done(old(store)@, id),
        !r ==> final(store)@ == old(store)@,
        r ==> {
            let m = row_at::<MeetingRow>(old(store)@.meetings, id)->0;
            final(store)@ == with_meeting(
                old(store)@,
                id,
                MeetingRow {
                    state: "recording"@,
                    ended_at: None,
                    error: None,
                    clean_transcript: None,
                    ..m
                },
            )
        },
{
    match table::find(&store.meetings, id) {
        Some(i) => if is_finished(&store.meetings[i]) {
            let mut row = copy_meeting(&store.meetings[i]);
            row.state = text::owned("recording");
            row.ended_at = None;
            row.error = None;
            row.clean_transcript = None;
            table::set_row(&mut store.meetings, i, row);
            true
        } else {
            false
        },
        None => false,
    }
}

/// A meeting that failed while it was under way.
pub open spec fn failed(
    m: MeetingRow<Seq<char>>,
    error: Seq<char>,
    now: Seq<char>,
) -> MeetingRow<Seq<char>> {
    MeetingRow {
        state: "failed"@,
        error: Some(error),
        ended_at: or_else(m.ended_at, now),
        ..m
    }
}

/// Fails a meeting that is under way; any other is left as it is.
pub fn meeting_failed(store: &mut Store, id: i64, error: &str, now: &str)
    requires
        old(store)@.wf(),
    ensures
        final(store)@.wf(),
        final(store)@ == (match row_at::<MeetingRow>(old(store)@.meetings, id) {
            Some(m) => if underway(m) {
                with_meeting(old(store)@, id, failed(m, error@, now@))
            } else {
                old(store)@
            },
            None => old(store)@,
        }),
{
    match table::find(&store.meetings, id) {
        Some(i) => if is_underway(&store.meetings[i]) {
            let mut row = copy_meeting(&store.meetings[i]);
            row.state = text::owned("failed");
            row.error = Some(text::owned(error));
            row.ended_at = coalesce(&row.ended_at, now);
            table::set_row(&mut store.meetings, i, row);
        },
        None => {},
    }
}

/// Nothing but spaces.
pub open spec fn only_spaces(s: Seq<char>) -> bool {
    forall|i: int| 0 <= i < s.len() ==> #[trigger] s[i] == ' '
}

fn is_only_spaces(s: &str) -> (r: bool)
    ensures
        r == only_spaces(s@),
{
    let v = text::chars_of(s);
    let mut i: usize = 0;
    while i < v.len()
        invariant
            i <= v.len(),
            v@ == s@,
            forall|j: int| 0 <= j < i ==> #[trigger] v@[j] == ' ',
        decreases v.len() - i,
    {
        if v[i] != ' ' {
            return false;
        }
        i = i + 1;
    }
    true
}

/// The last thing actually transcribed.
pub open spec fn last_said(s: Seq<MeetingSegment<Seq<char>>>) -> Seq<char>
    decreases s.len(),
{
    if s.len() == 0 {
        seq![]
    } else if only_spaces(s.last().text) {
        last_said(s.drop_last())
    } else {
        s.last().text
    }
}

/// Where a resumed recording carries on from: the next free number, and the
/// last thing transcribed, which is the context for its first chunk.
pub fn resume_point(store: &Store, meeting_id: i64) -> (r: Result<(i64, String), AppError>)
    requires
        store@.wf(),
    ensures
        match r {
            Ok((next, last)) => next == after_top::<SegmentRow>(
                store@.segments,
                Some(meeting_id),
                0,
            ) && last@ == last_said(segments_of(store@, meeting_id)),
            Err(e) => after_top::<SegmentRow>(store@.segments, Some(meeting_id), 0) > i64::MAX
                && e@ == full(),
        },
{
    let next = match table::next_position(&store.segments, Some(meeting_id), 0) {
        Some(n) => n,
        None => return Err(no_room()),
    };
    let segments = meeting_segments(store, meeting_id);
    let ghost all = deep(segments@);
    let mut i: usize = segments.len();
    proof {
        assert(all.take(i as int) =~= all);
    }
    while i > 0
        invariant
            i <= segments.len(),
            all == deep(segments@),
            last_said(all) == last_said(all.take(i as int)),
            next == after_top::<SegmentRow>(store@.segments, Some(meeting_id), 0),
            all == segments_of(store@, meeting_id),
        decreases i,
    {
        proof {
            assert(all.take(i as int).drop_last() =~= all.take(i - 1));
            assert(all.take(i as int).last() == segments@[i - 1].deep_view());
        }
        if !is_only_spaces(segments[i - 1].text.as_str()) {
            return Ok((next, segments[i - 1].text.clone()));
        }
        i = i - 1;
    }
    let empty = String::new();
    proof {
        assert(empty@ =~= seq![]);
    }
    Ok((next, empty))
}

// ----------------------------------------------------------------- the sweep

/// The latest of the stamps of a meeting's segments.
pub open spec fn latest_segment(s: Seq<SegmentRow<Seq<char>>>, meeting_id: i64) -> Option<
    Seq<char>,
>
    decreases s.len(),
{
    if s.len() == 0 {
        None
    } else {
        let t = latest_segment(s.drop_last(), meeting_id);
        if s.last().meeting_id != meeting_id {
            t
        } else {
            match t {
                None => Some(s.last().started_at),
                Some(x) => if text::before(x, s.last().started_at) {
                    Some(s.last().started_at)
                } else {
                    Some(x)
                },
            }
        }
    }
}

fn find_latest(store: &Store, meeting_id: i64) -> (r: Option<String>)
    ensures
        opt_view(r) == latest_segment(store@.segments, meeting_id),
{
    let mut best: Option<String> = None;
    let mut i: usize = 0;
    let ghost s = store@.segments;
    proof {
        assert(s.take(0) =~= seq![]);
    }
    while i < store.segments.len()
        invariant
            i <= store.segments.len(),
            s == store@.segments,
            opt_view(best) == latest_segment(s.take(i as int), meeting_id),
        decreases store.segments.len() - i,
    {
        let row = &store.segments[i];
        proof {
            assert(s.take(i + 1).drop_last() =~= s.take(i as int));
            assert(s.take(i + 1).last() == row.deep_view());
        }
        if row.meeting_id == meeting_id {
            let newer = match &best {
                None => true,
                Some(x) => text::is_before(x.as_str(), row.started_at.as_str()),
            };
            if newer {
                best = Some(row.started_at.clone());
            }
        }
        i = i + 1;
    }
    proof {
        assert(s.take(s.len() as int) =~= s);
    }
    best
}

/// A meeting lost with the app: it ended when its audio did, and it says which
/// of the two ways it was lost unless it already had something to say.
pub open spec fn swept(v: Tables, m: MeetingRow<Seq<char>>) -> MeetingRow<Seq<char>> {
    if underway(m) {
        MeetingRow {
            state: "failed"@,
            error: or_else(
                m.error,
                if m.state == "recording"@ {
                    "recording stopped when the app did"@
                } else {
                    "the app closed before the notes were written"@
                },
            ),
            ended_at: match m.ended_at {
                Some(t) => Some(t),
                None => or_else(latest_segment(v.segments, m.id), m.started_at),
            },
            ..m
        }
    } else {
        m
    }
}

pub open spec fn sweep_row(v: Tables) -> spec_fn(MeetingRow<Seq<char>>) -> MeetingRow<Seq<char>> {
    |m: MeetingRow<Seq<char>>| swept(v, m)
}

pub open spec fn is_lost() -> spec_fn(MeetingRow<Seq<char>>) -> bool {
    |m: MeetingRow<Seq<char>>| underway(m)
}

/// The store after the startup sweep.
pub open spec fn after_sweep(v: Tables) -> Tables {
    Tables { meetings: v.meetings.map_values(sweep_row(v)), ..v }
}

/// Fails every meeting that was under way when the app died. Returns how many.
pub fn sweep_orphan_meetings(store: &mut Store) -> (n: usize)
    requires
        old(store)@.wf(),
    ensures
        final(store)@.wf(),
        final(store)@ == after_sweep(old(store)@),
        n == old(store)@.meetings.filter(is_lost()).len(),
{
    let ghost v = store@;
    let ghost f = sweep_row(v);
    let ghost lost = is_lost();
    let mut n: usize = 0;
    let mut i: usize = 0;
    proof {
        reveal(Seq::filter);
        assert(v.meetings.take(0) =~= seq![]);
        assert(v.meetings.take(0).map_values(f) + v.meetings.skip(0) =~= v.meetings);
    }
    while i < store.meetings.len()
        invariant
            i <= store.meetings.len() == v.meetings.len(),
            n <= i,
            v == old(store)@,
            v.wf(),
            f == sweep_row(v),
            lost == is_lost(),
            store@ == (Tables {
                meetings: v.meetings.take(i as int).map_values(f) + v.meetings.skip(i as int),
                ..v
            }),
            n == v.meetings.take(i as int).filter(lost).len(),
        decreases store.meetings.len() - i,
    {
        let ghost cur = store@.meetings;
        let ghost m = v.meetings[i as int];
        proof {
            reveal(Seq::filter);
            assert(cur[i as int] == m);
            assert(cur[i as int] == store.meetings@[i as int].deep_view());
            assert(v.meetings.take(i + 1).drop_last() =~= v.meetings.take(i as int));
            assert(v.meetings.take(i + 1).last() == m);
            assert(v.meetings.take(i + 1).map_values(f) =~= v.meetings.take(i as int).map_values(
                f,
            ).push(f(m)));
        }
        if is_underway(&store.meetings[i]) {
            let mut row = copy_meeting(&store.meetings[i]);
            let why = if text::same(row.state.as_str(), "recording") {
                "recording stopped when the app did"
            } else {
                "the app closed before the notes were written"
            };
            row.error = coalesce(&row.error, why);
            row.ended_at = match &row.ended_at {
                Some(t) => Some(t.clone()),
                None => {
                    let latest = find_latest(store, row.id);
                    coalesce(&latest, row.started_at.as_str())
                },
            };
            row.state = text::owned("failed");
            let ghost rv = row.deep_view();
            proof {
                assert(rv == f(m));
            }
            store.meetings.set(i, row);
            proof {
                assert(store@.meetings =~= cur.update(i as int, rv));
                assert(cur.update(i as int, rv) =~= v.meetings.take(i + 1).map_values(f)
                    + v.meetings.skip(i + 1));
            }
            n = n + 1;
        } else {
            proof {
                assert(f(m) == m);
                assert(cur =~= v.meetings.take(i + 1).map_values(f) + v.meetings.skip(i + 1));
            }
        }
        i = i + 1;
    }
    proof {
        assert(v.meetings.take(i as int) =~= v.meetings);
        assert(v.meetings.map_values(f) + v.meetings.skip(i as int) =~= v.meetings.map_values(f));
        let t = v.meetings.map_values(f);
        assert forall|a: int, b: int| 0 <= a < b < t.len() implies (#[trigger] t[a]).id < (
        #[trigger] t[b]).id by {
            assert(v.meetings[a].id < v.meetings[b].id) by {
                assert(<MeetingRow as table::Keyed>::key(v.meetings[a])
                    < <MeetingRow as table::Keyed>::key(v.meetings[b]));
            }
        }
    }
    n
}

// ------------------------------------------------------------------- the notes

pub open spec fn no_meeting() -> Failure {
    Failure::Other("no such meeting"@)
}

pub open spec fn no_rows() -> Failure {
    Failure::Db("Query returned no rows"@)
}

fn none_found() -> (e: AppError)
    ensures
        e@ == no_rows(),
{
    AppError::Db(text::owned("Query returned no rows"))
}

/// The scratchpad. Writable in any state: it is the user's own text.
pub fn set_meeting_notes(store: &mut Store, id: i64, notes: &str) -> (r: Result<(), AppError>)
    requires
        old(store)@.wf(),
    ensures
        final(store)@.wf(),
        match r {
            Ok(_) => row_at::<MeetingRow>(old(store)@.meetings, id) is Some && final(store)@
                == with_meeting(
                old(store)@,
                id,
                MeetingRow {
                    notes: notes@,
                    ..row_at::<MeetingRow>(old(store)@.meetings, id)->0
                },
            ),
            Err(e) => row_at::<MeetingRow>(old(store)@.meetings, id) is None && final(store)@
                == old(store)@ && e@ == no_meeting(),
        },
{
    match table::find(&store.meetings, id) {
        Some(i) => {
            let mut row = copy_meeting(&store.meetings[i]);
            row.notes = text::owned(notes);
            table::set_row(&mut store.meetings, i, row);
            Ok(())
        },
        None => Err(other("no such meeting")),
    }
}

pub fn meeting_notes_text(store: &Store, id: i64) -> (r: Result<String, AppError>)
    requires
        store@.wf(),
    ensures
        match r {
            Ok(s) => row_at::<MeetingRow>(store@.meetings, id) is Some && s@ == row_at::<
                MeetingRow,
            >(store@.meetings, id)->0.notes,
            Err(e) => row_at::<MeetingRow>(store@.meetings, id) is None && e@ == no_rows(),
        },
{
    match table::find(&store.meetings, id) {
        Some(i) => Ok(store.meetings[i].notes.clone()),
        None => Err(none_found()),
    }
}

/// The write-up and when the user last edited it.
pub fn meeting_summary(store: &Store, id: i64) -> (r: Result<
    (Option<String>, Option<String>),
    AppError,
>)
    requires
        store@.wf(),
    ensures
        match r {
            Ok((summary, edited)) => row_at::<MeetingRow>(store@.meetings, id) is Some && opt_view(
                summary,
            ) == row_at::<MeetingRow>(store@.meetings, id)->0.summary && opt_view(edited)
                == row_at::<MeetingRow>(store@.meetings, id)->0.summary_edited_at,
            Err(e) => row_at::<MeetingRow>(store@.meetings, id) is None && e@ == no_rows(),
        },
{
    match table::find(&store.meetings, id) {
        Some(i) => Ok(
            (
                text::owned_opt(&store.meetings[i].summary),
                text::owned_opt(&store.meetings[i].summary_edited_at),
            ),
        ),
        None => Err(none_found()),
    }
}

/// The user's edit to the write-up, once the model is done with it. The stamp
/// is what lets a later re-run ask before it throws the edit away.
pub fn set_meeting_summary(store: &mut Store, id: i64, summary: &str, now: &str) -> (r: Result<
    (),
    AppError,
>)
    requires
        old(store)@.wf(),
    ensures
        final(store)@.wf(),
        match r {
            Ok(_) => is_done(old(store)@, id) && final(store)@ == with_meeting(
                old(store)@,
                id,
                MeetingRow {
                    summary: Some(summary@),
                    summary_edited_at: Some(now@),
                    ..row_at::<MeetingRow>(old(store)@.meetings, id)->0
                },
            ),
            Err(e) => !is_done(old(store)@, id) && final(store)@ == old(store)@ && e@
                == Failure::Other(
                "that meeting's notes are still being written, or it no longer exists"@,
            ),
        },
{
    match table::find(&store.meetings, id) {
        Some(i) => if is_finished(&store.meetings[i]) {
            let mut row = copy_meeting(&store.meetings[i]);
            row.summary = Some(text::owned(summary));
            row.summary_edited_at = Some(text::owned(now));
            table::set_row(&mut store.meetings, i, row);
            Ok(())
        } else {
            Err(other("that meeting's notes are still being written, or it no longer exists"))
        },
        None => Err(other("that meeting's notes are still being written, or it no longer exists")),
    }
}

pub fn clean_transcript(store: &Store, id: i64) -> (r: Result<Option<String>, AppError>)
    requires
        store@.wf(),
    ensures
        match r {
            Ok(t) => row_at::<MeetingRow>(store@.meetings, id) is Some && opt_view(t) == row_at::<
                MeetingRow,
            >(store@.meetings, id)->0.clean_transcript,
            Err(e) => row_at::<MeetingRow>(store@.meetings, id) is None && e@ == no_rows(),
        },
{
    match table::find(&store.meetings, id) {
        Some(i) => Ok(text::owned_opt(&store.meetings[i].clean_transcript)),
        None => Err(none_found()),
    }
}

/// The repaired transcript, kept beside the segments and never over them.
pub fn set_clean_transcript(store: &mut Store, id: i64, repaired: &str)
    requires
        old(store)@.wf(),
    ensures
        final(store)@.wf(),
        final(store)@ == (match row_at::<MeetingRow>(old(store)@.meetings, id) {
            Some(m) => with_meeting(
                old(store)@,
                id,
                MeetingRow { clean_transcript: Some(repaired@), ..m },
            ),
            None => old(store)@,
        }),
{
    match table::find(&store.meetings, id) {
        Some(i) => {
            let mut row = copy_meeting(&store.meetings[i]);
            row.clean_transcript = Some(text::owned(repaired));
            table::set_row(&mut store.meetings, i, row);
        },
        None => {},
    }
}

// -------------------------------------------------------------------- the files

/// One attached file as the model's side needs it, with the path the screen
/// never sees.
#[derive(Debug)]
pub struct FileRow<S = String> {
    pub name: S,
    pub kind: S,
    pub path: S,
    pub extracted: Option<S>,
}

impl DeepView for FileRow {
    type V = FileRow<Seq<char>>;

    open spec fn deep_view(&self) -> FileRow<Seq<char>> {
        FileRow {
            name: self.name@,
            kind: self.kind@,
            path: self.path@,
            extracted: opt_view(self.extracted),
        }
    }
}

pub open spec fn model_file(f: StoredFile<Seq<char>>) -> FileRow<Seq<char>> {
    FileRow { name: f.name, kind: f.kind, path: f.path, extracted: f.extracted }
}

/// A meeting's files as the model's side needs them, in the order they were
/// attached.
pub open spec fn file_rows(v: Tables, meeting_id: i64) -> Seq<FileRow<Seq<char>>> {
    in_order::<StoredFile>(v.files, Some(meeting_id)).map_values(
        |f: StoredFile<Seq<char>>| model_file(f),
    )
}

impl Shown<StoredFile> for FileRow {
    open spec fn shown(v: StoredFile<Seq<char>>) -> FileRow<Seq<char>> {
        model_file(v)
    }

    fn show(row: &StoredFile) -> (r: Self) {
        FileRow {
            name: row.name.clone(),
            kind: row.kind.clone(),
            path: row.path.clone(),
            extracted: text::owned_opt(&row.extracted),
        }
    }
}

pub fn meeting_file_rows(store: &Store, meeting_id: i64) -> (r: Vec<FileRow>)
    requires
        store@.wf(),
    ensures
        deep(r@) == file_rows(store@, meeting_id),
{
    proof {
        assert(file_rows(store@, meeting_id) =~= in_order::<StoredFile>(
            store@.files,
            Some(meeting_id),
        ).map_values(table::show_each::<StoredFile, FileRow>()));
    }
    table::list::<StoredFile, FileRow>(&store.files, Some(meeting_id))
}

pub open spec fn shown_file(f: StoredFile<Seq<char>>) -> MeetingFile<Seq<char>> {
    MeetingFile {
        id: f.id,
        position: f.position,
        name: f.name,
        kind: f.kind,
        bytes: f.bytes,
        added_at: f.added_at,
    }
}

/// A meeting's files as the screen is given them.
pub open spec fn files_of(v: Tables, meeting_id: i64) -> Seq<MeetingFile<Seq<char>>> {
    in_order::<StoredFile>(v.files, Some(meeting_id)).map_values(
        |f: StoredFile<Seq<char>>| shown_file(f),
    )
}

impl Shown<StoredFile> for MeetingFile {
    open spec fn shown(v: StoredFile<Seq<char>>) -> MeetingFile<Seq<char>> {
        shown_file(v)
    }

    fn show(row: &StoredFile) -> (r: Self) {
        MeetingFile {
            id: row.id,
            position: row.position,
            name: row.name.clone(),
            kind: row.kind.clone(),
            bytes: row.bytes,
            added_at: row.added_at.clone(),
        }
    }
}

pub fn meeting_files(store: &Store, meeting_id: i64) -> (r: Vec<MeetingFile>)
    requires
        store@.wf(),
    ensures
        deep(r@) == files_of(store@, meeting_id),
{
    proof {
        assert(files_of(store@, meeting_id) =~= in_order::<StoredFile>(
            store@.files,
            Some(meeting_id),
        ).map_values(table::show_each::<StoredFile, MeetingFile>()));
    }
    table::list::<StoredFile, MeetingFile>(&store.files, Some(meeting_id))
}

/// A file about to be attached.
pub struct NewFile<'a> {
    pub name: &'a str,
    pub path: &'a str,
    pub kind: &'a str,
    pub bytes: i64,
    pub extracted: Option<&'a str>,
}

/// The characters the store counts in a text: those before the first NUL.
pub open spec fn stored_len(s: Seq<char>) -> nat
    decreases s.len(),
{
    if s.len() == 0 || s[0] == '\0' {
        0
    } else {
        1 + stored_len(s.drop_first())
    }
}

/// How many files a meeting has, how many bytes and how many characters.
pub open spec fn usage(s: Seq<StoredFile<Seq<char>>>, meeting_id: i64) -> (int, int, int)
    decreases s.len(),
{
    if s.len() == 0 {
        (0, 0, 0)
    } else {
        let (n, b, c) = usage(s.drop_last(), meeting_id);
        let f = s.last();
        if f.meeting_id != meeting_id {
            (n, b, c)
        } else {
            (
                n + 1,
                b + f.bytes,
                c + (match f.extracted {
                    Some(t) => stored_len(t) as int,
                    None => 0,
                }),
            )
        }
    }
}

/// Why a file is not attached: the aggregate limits hold whatever a screen
/// that is out of date believes.
pub open spec fn file_refusal(
    v: Tables,
    meeting_id: i64,
    bytes: i64,
    extracted: Option<Seq<char>>,
    max_files: i64,
    max_total_bytes: i64,
    max_total_chars: i64,
) -> Option<Failure> {
    let (n, b, c) = usage(v.files, meeting_id);
    let more = match extracted {
        Some(t) => t.len() as int,
        None => 0,
    };
    if row_at::<MeetingRow>(v.meetings, meeting_id) is None {
        Some(no_meeting())
    } else if n >= max_files {
        Some(
            Failure::Other(
                "that meeting already has "@ + text::decimal(max_files as int)
                    + " files — remove one first"@,
            ),
        )
    } else if b + bytes > max_total_bytes {
        Some(
            Failure::Other(
                "that would take the meeting over its "@ + text::decimal(
                    toward_zero(max_total_bytes as int, 1048576),
                ) + " MB of attachments"@,
            ),
        )
    } else if c + more > max_total_chars {
        Some(
            Failure::Other("that would take the meeting over the amount of text this can send"@),
        )
    } else if fresh::<StoredFile>(v.files) > i64::MAX || after_top::<StoredFile>(
        v.files,
        Some(meeting_id),
        0,
    ) > i64::MAX {
        Some(full())
    } else {
        None
    }
}

fn count_stored(s: &str) -> (n: usize)
    ensures
        n == stored_len(s@),
{
    let v = text::chars_of(s);
    let mut i: usize = 0;
    proof {
        assert(v@.skip(0) =~= v@);
    }
    while i < v.len() && v[i] != '\0'
        invariant
            i <= v.len(),
            stored_len(v@) == i + stored_len(v@.skip(i as int)),
        decreases v.len() - i,
    {
        proof {
            assert(v@.skip(i as int)[0] == v@[i as int]);
            assert(v@.skip(i as int).drop_first() =~= v@.skip(i + 1));
        }
        i = i + 1;
    }
    proof {
        if i < v.len() {
            assert(v@.skip(i as int)[0] == v@[i as int]);
        }
    }
    i
}

fn measure(store: &Store, meeting_id: i64) -> (r: (u64, i128, u128))
    ensures
        (r.0 as int, r.1 as int, r.2 as int) == usage(store@.files, meeting_id),
        -0x8000_0000_0000_0000 * 0xffff_ffff_ffff_ffff <= r.1 <= 0x7fff_ffff_ffff_ffff
            * 0xffff_ffff_ffff_ffff,
        r.2 <= 0xffff_ffff_ffff_ffff * 0xffff_ffff_ffff_ffff,
{
    let ghost s = store@.files;
    let mut n: u64 = 0;
    let mut b: i128 = 0;
    let mut c: u128 = 0;
    let mut i: usize = 0;
    proof {
        assert(s.take(0) =~= seq![]);
    }
    while i < store.files.len()
        invariant
            i <= store.files.len(),
            s == store@.files,
            (n as int, b as int, c as int) == usage(s.take(i as int), meeting_id),
            n <= i,
            -0x8000_0000_0000_0000 * i <= b <= 0x7fff_ffff_ffff_ffff * i,
            c <= 0xffff_ffff_ffff_ffff * i,
        decreases store.files.len() - i,
    {
        let row = &store.files[i];
        proof {
            assert(s.take(i + 1).drop_last() =~= s.take(i as int));
            assert(s.take(i + 1).last() == row.deep_view());
        }
        if row.meeting_id == meeting_id {
            n = n + 1;
            b = b + row.bytes as i128;
            if let Some(t) = &row.extracted {
                c = c + count_stored(t.as_str()) as u128;
            }
        }
        i = i + 1;
    }
    proof {
        assert(s.take(s.len() as int) =~= s);
    }
    (n, b, c)
}

/// Adds the row of a staged file, or refuses. The row goes in before the file
/// is moved into place: a row without its file is deleted again, a file without
/// its row would be invisible litter.
pub fn add_meeting_file(
    store: &mut Store,
    meeting_id: i64,
    file: &NewFile,
    max_files: i64,
    max_total_bytes: i64,
    max_total_chars: i64,
    now: &str,
) -> (r: Result<i64, AppError>)
    requires
        old(store)@.wf(),
    ensures
        final(store)@.wf(),
        ({
            let refusal = file_refusal(
                old(store)@,
                meeting_id,
                file.bytes,
                str_view(file.extracted),
                max_files,
                max_total_bytes,
                max_total_chars,
            );
            match r {
                Ok(id) => {
                    &&& refusal is None
                    &&& id == fresh::<StoredFile>(old(store)@.files)
                    &&& final(store)@ == (Tables {
                        files: old(store)@.files.push(
                            StoredFile {
                                id,
                                meeting_id,
                                position: after_top::<StoredFile>(
                                    old(store)@.files,
                                    Some(meeting_id),
                                    0,
                                ) as i64,
                                name: file.name@,
                                path: file.path@,
                                kind: file.kind@,
                                bytes: file.bytes,
                                extracted: str_view(file.extracted),
                                added_at: now@,
                            },
                        ),
                        ..old(store)@
                    })
                },
                Err(e) => refusal == Some(e@) && final(store)@ == old(store)@,
            }
        }),
{
    if table::find(&store.meetings, meeting_id).is_none() {
        return Err(other("no such meeting"));
    }
    let (n, b, c) = measure(store, meeting_id);
    if n as i128 >= max_files as i128 {
        return Err(
            AppError::Other(
                text::cat3(
                    "that meeting already has ",
                    text::of_i64(max_files).as_str(),
                    " files — remove one first",
                ),
            ),
        );
    }
    if b + file.bytes as i128 > max_total_bytes as i128 {
        let mb: i64 = if max_total_bytes >= 0 {
            max_total_bytes / 1048576
        } else {
            let up: u128 = (-(max_total_bytes as i128)) as u128 / 1048576;
            -(up as i64)
        };
        return Err(
            AppError::Other(
                text::cat3(
                    "that would take the meeting over its ",
                    text::of_i64(mb).as_str(),
                    " MB of attachments",
                ),
            ),
        );
    }
    let more: usize = match file.extracted {
        Some(t) => text::count(t),
        None => 0,
    };
    if max_total_chars < 0 || c + more as u128 > max_total_chars as u128 {
        return Err(other("that would take the meeting over the amount of text this can send"));
    }
    let position = match table::next_position(&store.files, Some(meeting_id), 0) {
        Some(p) => p,
        None => return Err(no_room()),
    };
    let id = match table::next_id(&store.files) {
        Some(id) => id,
        None => return Err(no_room()),
    };
    let row = StoredFile {
        id,
        meeting_id,
        position,
        name: text::owned(file.name),
        path: text::owned(file.path),
        kind: text::owned(file.kind),
        bytes: file.bytes,
        extracted: match file.extracted {
            Some(t) => Some(text::owned(t)),
            None => None,
        },
        added_at: text::owned(now),
    };
    table::add_row(&mut store.files, row);
    Ok(id)
}

/// The file is attached to that meeting.
pub open spec fn attached(v: Tables, meeting_id: i64, file_id: i64) -> bool {
    match row_at::<StoredFile>(v.files, file_id) {
        Some(f) => f.meeting_id == meeting_id,
        None => false,
    }
}

/// Takes out one attachment's row and hands back the copy to unlink.
pub fn delete_meeting_file(store: &mut Store, meeting_id: i64, file_id: i64) -> (r: Result<
    String,
    AppError,
>)
    requires
        old(store)@.wf(),
    ensures
        final(store)@.wf(),
        match r {
            Ok(path) => attached(old(store)@, meeting_id, file_id) && path@ == row_at::<
                StoredFile,
            >(old(store)@.files, file_id)->0.path && final(store)@ == (Tables {
                files: without::<StoredFile>(old(store)@.files, file_id),
                ..old(store)@
            }),
            Err(e) => !attached(old(store)@, meeting_id, file_id) && final(store)@ == old(store)@
                && e@ == Failure::Other("no such file"@),
        },
{
    match table::find(&store.files, file_id) {
        Some(i) => if store.files[i].meeting_id == meeting_id {
            let path = store.files[i].path.clone();
            table::remove_row(&mut store.files, i);
            Ok(path)
        } else {
            Err(other("no such file"))
        },
        None => Err(other("no such file")),
    }
}

// ------------------------------------------------------------------ the actions

/// The notes of a meeting, as they are stored.
pub struct MeetingNotes<'a> {
    pub title: &'a str,
    /// The write-up, as markdown.
    pub summary: &'a str,
    pub action_items: &'a Vec<String>,
}

/// The actions a re-run replaces: those of the meeting that nobody accepted.
pub open spec fn kept_action(meeting_id: i64) -> spec_fn(ActionRow<Seq<char>>) -> bool {
    |a: ActionRow<Seq<char>>| !(a.meeting_id == meeting_id && a.task_id is None)
}

/// Proposals put behind those that are there.
pub open spec fn proposed(
    s: Seq<ActionRow<Seq<char>>>,
    meeting_id: i64,
    items: Seq<Seq<char>>,
) -> Seq<ActionRow<Seq<char>>>
    decreases items.len(),
{
    if items.len() == 0 {
        s
    } else {
        let t = proposed(s, meeting_id, items.drop_last());
        t.push(
            ActionRow {
                id: fresh::<ActionRow>(t) as i64,
                meeting_id,
                position: after_top::<ActionRow>(t, Some(meeting_id), 0) as i64,
                text: items.last(),
                task_id: None,
            },
        )
    }
}

/// There are ids and positions left for `n` more actions.
pub open spec fn action_room(s: Seq<ActionRow<Seq<char>>>, meeting_id: i64, n: int) -> bool {
    n == 0 || (fresh::<ActionRow>(s) + n <= i64::MAX + 1 && after_top::<ActionRow>(
        s,
        Some(meeting_id),
        0,
    ) + n <= i64::MAX + 1)
}

/// What comes of storing a meeting's notes: the write-up and the proposals
/// land together, and a proposal somebody accepted stays.
pub open spec fn finished_with(
    v: Tables,
    id: i64,
    title: Seq<char>,
    summary: Seq<char>,
    items: Seq<Seq<char>>,
    now: Seq<char>,
) -> Result<Tables, Failure> {
    let kept = v.actions.filter(kept_action(id));
    match row_at::<MeetingRow>(v.meetings, id) {
        None => Err(no_meeting()),
        Some(m) => if !action_room(kept, id, items.len() as int) {
            Err(full())
        } else {
            Ok(
                Tables {
                    meetings: put::<MeetingRow>(
                        v.meetings,
                        id,
                        MeetingRow {
                            title,
                            summary: Some(summary),
                            summary_edited_at: None,
                            state: "done"@,
                            error: None,
                            ended_at: or_else(m.ended_at, now),
                            ..m
                        },
                    ),
                    actions: proposed(kept, id, items),
                    ..v
                },
            )
        },
    }
}

fn keep_accepted(actions: &Vec<ActionRow>, meeting_id: i64) -> (out: Vec<ActionRow>)
    ensures
        deep(out@) == deep(actions@).filter(kept_action(meeting_id)),
{
    let ghost s = deep(actions@);
    let ghost keep = kept_action(meeting_id);
    let mut out: Vec<ActionRow> = Vec::new();
    let mut i: usize = 0;
    proof {
        reveal(Seq::filter);
        assert(s.take(0) =~= seq![]);
        assert(deep(out@) =~= s.take(0).filter(keep));
    }
    while i < actions.len()
        invariant
            i <= actions.len(),
            s == deep(actions@),
            keep == kept_action(meeting_id),
            deep(out@) == s.take(i as int).filter(keep),
        decreases actions.len() - i,
    {
        let a = &actions[i];
        proof {
            reveal(Seq::filter);
            assert(s.take(i + 1).drop_last() =~= s.take(i as int));
            assert(s.take(i + 1).last() == a.deep_view());
        }
        if !(a.meeting_id == meeting_id && a.task_id.is_none()) {
            let ghost before = deep(out@);
            out.push(
                ActionRow {
                    id: a.id,
                    meeting_id: a.meeting_id,
                    position: a.position,
                    text: a.text.clone(),
                    task_id: a.task_id,
                },
            );
            proof {
                assert(deep(out@) =~= before.push(a.deep_view()));
            }
        }
        i = i + 1;
    }
    proof {
        assert(s.take(s.len() as int) =~= s);
    }
    out
}

/// A row put behind the last one of its home is the last one then.
proof fn lemma_top_push(s: Seq<ActionRow<Seq<char>>>, a: ActionRow<Seq<char>>)
    requires
        a.position == after_top::<ActionRow>(s, Some(a.meeting_id), 0),
    ensures
        after_top::<ActionRow>(s.push(a), Some(a.meeting_id), 0) == a.position + 1,
{
    assert(s.push(a).drop_last() =~= s);
    assert(s.push(a).last() == a);
}

/// Stores a meeting's notes.
pub fn finish_meeting(store: &mut Store, id: i64, notes: &MeetingNotes, now: &str) -> (r: Result<
    (),
    AppError,
>)
    requires
        old(store)@.wf(),
    ensures
        final(store)@.wf(),
        match r {
            Ok(_) => finished_with(
                old(store)@,
                id,
                notes.title@,
                notes.summary@,
                text::views(notes.action_items@),
                now@,
            ) == Ok::<Tables, Failure>(final(store)@),
            Err(e) => final(store)@ == old(store)@ && finished_with(
                old(store)@,
                id,
                notes.title@,
                notes.summary@,
                text::views(notes.action_items@),
                now@,
            ) == Err::<Tables, Failure>(e@),
        },
{
    let at = match table::find(&store.meetings, id) {
        Some(i) => i,
        None => return Err(other("no such meeting")),
    };
    let mut actions = keep_accepted(&store.actions, id);
    let ghost kept = deep(actions@);
    let ghost items = text::views(notes.action_items@);
    let n = notes.action_items.len();
    proof {
        table::lemma_filter_ascending::<ActionRow>(old(store)@.actions, kept_action(id));
    }
    if n > 0 {
        match (table::next_id(&actions), table::next_position(&actions, Some(id), 0)) {
            (Some(a), Some(p)) => if a as i128 + n as i128 > 0x8000_0000_0000_0000 || p as i128
                + n as i128 > 0x8000_0000_0000_0000 {
                return Err(no_room());
            },
            _ => return Err(no_room()),
        }
    }
    let mut k: usize = 0;
    proof {
        assert(items.take(0) =~= seq![]);
    }
    while k < n
        invariant
            k <= n == notes.action_items.len(),
            items == text::views(notes.action_items@),
            table::ascending::<ActionRow>(deep(actions@)),
            action_room(kept, id, n as int),
            deep(actions@) == proposed(kept, id, items.take(k as int)),
            fresh::<ActionRow>(deep(actions@)) <= fresh::<ActionRow>(kept) + k,
            after_top::<ActionRow>(deep(actions@), Some(id), 0) <= after_top::<ActionRow>(
                kept,
                Some(id),
                0,
            ) + k,
        decreases n - k,
    {
        proof {
            assert(items.take(k + 1).drop_last() =~= items.take(k as int));
            assert(items.take(k + 1).last() == notes.action_items@[k as int]@);
        }
        let next = match table::next_id(&actions) {
            Some(x) => x,
            None => 0,
        };
        let position = match table::next_position(&actions, Some(id), 0) {
            Some(p) => p,
            None => 0,
        };
        let row = ActionRow {
            id: next,
            meeting_id: id,
            position,
            text: notes.action_items[k].clone(),
            task_id: None,
        };
        proof {
            lemma_top_push(deep(actions@), row.deep_view());
        }
        table::add_row(&mut actions, row);
        k = k + 1;
    }
    proof {
        assert(items.take(items.len() as int) =~= items);
    }
    let mut row = copy_meeting(&store.meetings[at]);
    row.title = text::owned(notes.title);
    row.summary = Some(text::owned(notes.summary));
    row.summary_edited_at = None;
    row.state = text::owned("done");
    row.error = None;
    row.ended_at = coalesce(&row.ended_at, now);
    table::set_row(&mut store.meetings, at, row);
    store.actions = actions;
    Ok(())
}

pub open spec fn shown_action(a: ActionRow<Seq<char>>) -> MeetingAction<Seq<char>> {
    MeetingAction { id: a.id, position: a.position, text: a.text, task_id: a.task_id }
}

/// A meeting's actions, in order.
pub open spec fn actions_of(v: Tables, meeting_id: i64) -> Seq<MeetingAction<Seq<char>>> {
    in_order::<ActionRow>(v.actions, Some(meeting_id)).map_values(
        |a: ActionRow<Seq<char>>| shown_action(a),
    )
}

impl Shown<ActionRow> for MeetingAction {
    open spec fn shown(v: ActionRow<Seq<char>>) -> MeetingAction<Seq<char>> {
        shown_action(v)
    }

    fn show(row: &ActionRow) -> (r: Self) {
        MeetingAction {
            id: row.id,
            position: row.position,
            text: row.text.clone(),
            task_id: row.task_id,
        }
    }
}

pub fn meeting_actions(store: &Store, meeting_id: i64) -> (r: Vec<MeetingAction>)
    requires
        store@.wf(),
    ensures
        deep(r@) == actions_of(store@, meeting_id),
{
    proof {
        assert(actions_of(store@, meeting_id) =~= in_order::<ActionRow>(
            store@.actions,
            Some(meeting_id),
        ).map_values(table::show_each::<ActionRow, MeetingAction>()));
    }
    table::list::<ActionRow, MeetingAction>(&store.actions, Some(meeting_id))
}

/// An action of the meeting that has become no task yet.
pub open spec fn open_action(v: Tables, meeting_id: i64, id: i64) -> bool {
    match row_at::<ActionRow>(v.actions, id) {
        Some(a) => a.meeting_id == meeting_id && a.task_id is None,
        None => false,
    }
}

/// The store after one action became a task in the backlog.
pub open spec fn approved_one(v: Tables, id: i64, now: Seq<char>) -> Tables {
    let a = row_at::<ActionRow>(v.actions, id)->0;
    let task = fresh::<TaskRow>(v.tasks) as i64;
    Tables {
        actions: put::<ActionRow>(v.actions, id, ActionRow { task_id: Some(task), ..a }),
        ..with_card(v, None, a.text, "meeting"@, now)
    }
}

/// The store after a list of actions was approved. One that became a task
/// before is passed over.
pub open spec fn approved(v: Tables, meeting_id: i64, ids: Seq<i64>, now: Seq<char>) -> Tables
    decreases ids.len(),
{
    if ids.len() == 0 {
        v
    } else {
        let w = approved(v, meeting_id, ids.drop_last(), now);
        if open_action(w, meeting_id, ids.last()) {
            approved_one(w, ids.last(), now)
        } else {
            w
        }
    }
}

/// The actions among `ids` that have become no task yet, each of them once, in
/// the order in which they come first.
pub open spec fn open_among(v: Tables, meeting_id: i64, ids: Seq<i64>) -> Seq<i64>
    decreases ids.len(),
{
    if ids.len() == 0 {
        seq![]
    } else {
        let rest = open_among(v, meeting_id, ids.drop_last());
        if open_action(v, meeting_id, ids.last()) && !rest.contains(ids.last()) {
            rest.push(ids.last())
        } else {
            rest
        }
    }
}

/// The open actions among `ids`, none of them twice.
pub proof fn lemma_open_among(v: Tables, meeting_id: i64, ids: Seq<i64>)
    ensures
        open_among(v, meeting_id, ids).no_duplicates(),
        open_among(v, meeting_id, ids).len() <= ids.len(),
        forall|id: i64| #[trigger]
            open_among(v, meeting_id, ids).contains(id) <==> ids.contains(id) && open_action(
                v,
                meeting_id,
                id,
            ),
    decreases ids.len(),
{
    if ids.len() > 0 {
        let r = ids.drop_last();
        let last = ids.last();
        lemma_open_among(v, meeting_id, r);
        let rest = open_among(v, meeting_id, r);
        let all = open_among(v, meeting_id, ids);
        assert(r.push(last) =~= ids);
        assert forall|id: i64| #[trigger] all.contains(id) <==> ids.contains(id) && open_action(
            v,
            meeting_id,
            id,
        ) by {
            vstd::seq_lib::lemma_seq_contains_after_push(r, last, id);
            vstd::seq_lib::lemma_seq_contains_after_push(rest, last, id);
            assert(rest.contains(id) <==> r.contains(id) && open_action(v, meeting_id, id));
        }
    }
}

proof fn lemma_open_among_grows(v: Tables, meeting_id: i64, ids: Seq<i64>, k: int)
    requires
        0 <= k <= ids.len(),
    ensures
        open_among(v, meeting_id, ids.take(k)).len() <= open_among(v, meeting_id, ids).len(),
    decreases ids.len(),
{
    if k == ids.len() {
        assert(ids.take(k) =~= ids);
    } else {
        assert(ids.drop_last().take(k) =~= ids.take(k));
        lemma_open_among_grows(v, meeting_id, ids.drop_last(), k);
    }
}

/// What is still open after a list of actions was approved.
pub proof fn lemma_still_open(v: Tables, meeting_id: i64, ids: Seq<i64>, now: Seq<char>, id: i64)
    ensures
        row_at::<ActionRow>(approved(v, meeting_id, ids, now).actions, id) is Some <==> row_at::<
            ActionRow,
        >(v.actions, id) is Some,
        !open_among(v, meeting_id, ids).contains(id) ==> row_at::<ActionRow>(
            approved(v, meeting_id, ids, now).actions,
            id,
        ) == row_at::<ActionRow>(v.actions, id),
        open_action(approved(v, meeting_id, ids, now), meeting_id, id) <==> open_action(
            v,
            meeting_id,
            id,
        ) && !open_among(v, meeting_id, ids).contains(id),
    decreases ids.len(),
{
    if ids.len() > 0 {
        let r = ids.drop_last();
        let last = ids.last();
        let w = approved(v, meeting_id, r, now);
        let rest = open_among(v, meeting_id, r);
        lemma_still_open(v, meeting_id, r, now, id);
        lemma_still_open(v, meeting_id, r, now, last);
        if open_action(w, meeting_id, last) {
            let a = row_at::<ActionRow>(w.actions, last)->0;
            let i = table::lemma_row_found::<ActionRow>(w.actions, last);
            let b = ActionRow { task_id: Some(fresh::<TaskRow>(w.tasks) as i64), ..a };
            table::lemma_put_reads::<ActionRow>(w.actions, last, b, id);
            vstd::seq_lib::lemma_seq_contains_after_push(rest, last, id);
        }
    }
}

/// There are ids and positions left for `n` more cards in the backlog.
pub open spec fn backlog_room(v: Tables, n: int) -> bool {
    n == 0 || (fresh::<TaskRow>(v.tasks) + n <= i64::MAX + 1 && after_top::<TaskRow>(
        v.tasks,
        None,
        1,
    ) + n <= i64::MAX + 1)
}

proof fn lemma_card_top(v: Tables, title: Seq<char>, source: Seq<char>, now: Seq<char>)
    requires
        card_room(v, None),
    ensures
        fresh::<TaskRow>(with_card(v, None, title, source, now).tasks) == fresh::<TaskRow>(v.tasks)
            + 1,
        after_top::<TaskRow>(with_card(v, None, title, source, now).tasks, None, 1) == after_top::<
            TaskRow,
        >(v.tasks, None, 1) + 1,
{
    let t = new_card(v, None, title, source, now);
    assert(v.tasks.push(t).drop_last() =~= v.tasks);
    assert(v.tasks.push(t).last() == t);
}

fn count_open(store: &Store, meeting_id: i64, ids: &Vec<i64>) -> (n: usize)
    requires
        store@.wf(),
    ensures
        n == open_among(store@, meeting_id, ids@).len(),
{
    let mut found: Vec<i64> = Vec::new();
    let mut i: usize = 0;
    proof {
        assert(ids@.take(0) =~= seq![]);
        assert(found@ =~= seq![]);
    }
    while i < ids.len()
        invariant
            i <= ids.len(),
            store@.wf(),
            found@ == open_among(store@, meeting_id, ids@.take(i as int)),
        decreases ids.len() - i,
    {
        proof {
            assert(ids@.take(i + 1).drop_last() =~= ids@.take(i as int));
            assert(ids@.take(i + 1).last() == ids@[i as int]);
        }
        if let Some(k) = table::find(&store.actions, ids[i]) {
            if store.actions[k].meeting_id == meeting_id && store.actions[k].task_id.is_none()
                && !among(&found, ids[i]) {
                found.push(ids[i]);
            }
        }
        i = i + 1;
    }
    proof {
        assert(ids@.take(ids@.len() as int) =~= ids@);
    }
    found.len()
}

fn among(v: &Vec<i64>, id: i64) -> (r: bool)
    ensures
        r == v@.contains(id),
{
    let mut i: usize = 0;
    while i < v.len()
        invariant
            i <= v.len(),
            forall|j: int| 0 <= j < i ==> v@[j] != id,
        decreases v.len() - i,
    {
        if v[i] == id {
            return true;
        }
        i = i + 1;
    }
    false
}

/// Turns approved actions into backlog tasks. Approving the same one twice
/// inserts once. Returns how many tasks were created.
pub fn approve_actions(store: &mut Store, meeting_id: i64, ids: &Vec<i64>, now: &str) -> (r: Result<
    usize,
    AppError,
>)
    requires
        old(store)@.wf(),
    ensures
        final(store)@.wf(),
        match r {
            Ok(n) => {
                &&& n == open_among(old(store)@, meeting_id, ids@).len()
                &&& backlog_room(old(store)@, n as int)
                &&& final(store)@ == approved(old(store)@, meeting_id, ids@, now@)
            },
            Err(e) => {
                &&& !backlog_room(
                    old(store)@,
                    open_among(old(store)@, meeting_id, ids@).len() as int,
                )
                &&& final(store)@ == old(store)@
                &&& e@ == full()
            },
        },
{
    let count = count_open(store, meeting_id, ids);
    if count > 0 {
        match (table::next_id(&store.tasks), table::next_position(&store.tasks, None, 1)) {
            (Some(a), Some(p)) => if a as i128 + count as i128 > 0x8000_0000_0000_0000 || p as i128
                + count as i128 > 0x8000_0000_0000_0000 {
                return Err(no_room());
            },
            _ => return Err(no_room()),
        }
    }
    let ghost v = store@;
    let mut created: usize = 0;
    let mut i: usize = 0;
    proof {
        assert(ids@.take(0) =~= seq![]);
    }
    while i < ids.len()
        invariant
            i <= ids.len(),
            v == old(store)@,
            count == open_among(v, meeting_id, ids@).len(),
            backlog_room(v, count as int),
            store@.wf(),
            store@ == approved(v, meeting_id, ids@.take(i as int), now@),
            created == open_among(v, meeting_id, ids@.take(i as int)).len(),
            fresh::<TaskRow>(store@.tasks) == fresh::<TaskRow>(v.tasks) + created,
            after_top::<TaskRow>(store@.tasks, None, 1) == after_top::<TaskRow>(v.tasks, None, 1)
                + created,
        decreases ids.len() - i,
    {
        let ghost w = store@;
        proof {
            assert(ids@.take(i + 1).drop_last() =~= ids@.take(i as int));
            assert(ids@.take(i + 1).last() == ids@[i as int]);
            lemma_still_open(v, meeting_id, ids@.take(i as int), now@, ids@[i as int]);
            lemma_open_among_grows(v, meeting_id, ids@, i + 1);
        }
        if let Some(k) = table::find(&store.actions, ids[i]) {
            if store.actions[k].meeting_id == meeting_id && store.actions[k].task_id.is_none() {
                let said = store.actions[k].text.clone();
                let position = store.actions[k].position;
                proof {
                    lemma_card_top(w, said@, "meeting"@, now@);
                }
                match insert_task(store, None, said.as_str(), "meeting", now) {
                    Ok(task) => {
                        let row = ActionRow {
                            id: ids[i],
                            meeting_id,
                            position,
                            text: said,
                            task_id: Some(task),
                        };
                        table::set_row(&mut store.actions, k, row);
                        created = created + 1;
                    },
                    Err(_) => {
                        proof {
                            assert(false);
                        }
                    },
                }
            }
        }
        i = i + 1;
    }
    proof {
        assert(ids@.take(ids@.len() as int) =~= ids@);
    }
    Ok(created)
}

/// Deletes a meeting with its segments, its files and its proposals. The tasks
/// that came out of it stay: they stopped belonging to it.
pub fn delete_meeting(store: &mut Store, id: i64) -> (r: Result<(), AppError>)
    requires
        old(store)@.wf(),
    ensures
        final(store)@.wf(),
        match r {
            Ok(_) => row_at::<MeetingRow>(old(store)@.meetings, id) is Some && final(store)@
                == (Tables {
                meetings: without::<MeetingRow>(old(store)@.meetings, id),
                segments: elsewhere::<SegmentRow>(old(store)@.segments, Some(id)),
                files: elsewhere::<StoredFile>(old(store)@.files, Some(id)),
                actions: elsewhere::<ActionRow>(old(store)@.actions, Some(id)),
                ..old(store)@
            }),
            Err(e) => row_at::<MeetingRow>(old(store)@.meetings, id) is None && final(store)@
                == old(store)@ && e@ == no_meeting(),
        },
{
    match table::find(&store.meetings, id) {
        Some(i) => {
            table::remove_row(&mut store.meetings, i);
            table::clear_home(&mut store.segments, Some(id));
            table::clear_home(&mut store.files, Some(id));
            table::clear_home(&mut store.actions, Some(id));
            Ok(())
        },
        None => Err(other("no such meeting")),
    }
}

} // verus!
