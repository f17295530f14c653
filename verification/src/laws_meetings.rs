//! What is promised of the meetings: what was said, what was attached and what
//! came of them.

use vstd::prelude::*;

use crate::db::full;
use crate::error::Failure;
use crate::meetings::actions_of;
use crate::meetings::attached;
use crate::meetings::failed;
use crate::meetings::file_refusal;
use crate::meetings::file_rows;
use crate::meetings::files_of;
use crate::meetings::finished;
use crate::meetings::finished_with;
use crate::meetings::kept_action;
use crate::meetings::last_said;
use crate::meetings::latest_segment;
use crate::meetings::meeting_with;
use crate::meetings::new_meeting;
use crate::meetings::newest_meetings;
use crate::meetings::open_action;
use crate::meetings::proposed;
use crate::meetings::segment_added;
use crate::meetings::segments_of;
use crate::meetings::seq_taken;
use crate::meetings::shown_meeting;
use crate::meetings::spoken;
use crate::meetings::stored_len;
use crate::meetings::swept;
use crate::meetings::transcript_of;
use crate::meetings::underway;
use crate::meetings::usage;
use crate::meetings::with_meeting;
use crate::meetings::FileRow;
use crate::models::MeetingAction;
use crate::models::MeetingFile;
use crate::models::MeetingSegment;
use crate::rows::ActionRow;
use crate::rows::MeetingRow;
use crate::rows::SegmentRow;
use crate::rows::StoredFile;
use crate::rows::Tables;
use crate::table;
use crate::table::after_top;
use crate::table::ascending;
use crate::table::fresh;
use crate::table::in_order;
use crate::table::is_home;
use crate::table::row_at;
use crate::table::top;
use crate::text;

verus! {

broadcast use vstd::seq_lib::group_seq_properties;

// ----------------------------------------------------------------- the meetings

/// A meeting is listed as it is stored, with the number of its segments and of
/// its files, and whether its transcript was repaired.
pub proof fn a_meeting_is_listed_as_stored(v: Tables, m: MeetingRow<Seq<char>>)
    requires
        v.segments.len() <= i64::MAX,
        v.files.len() <= i64::MAX,
    ensures
        ({
            let x = shown_meeting(v, m);
            &&& x.id == m.id
            &&& x.session_id == m.session_id
            &&& x.started_at == m.started_at
            &&& x.ended_at == m.ended_at
            &&& x.title == m.title
            &&& x.state == m.state
            &&& x.error == m.error
            &&& x.has_clean == (m.clean_transcript is Some)
            &&& x.segment_count == v.segments.filter(
                |s: SegmentRow<Seq<char>>| s.meeting_id == m.id,
            ).len()
            &&& x.file_count == v.files.filter(
                |f: StoredFile<Seq<char>>| f.meeting_id == m.id,
            ).len()
        }),
{
    let p = |s: SegmentRow<Seq<char>>| s.meeting_id == m.id;
    let q = |f: StoredFile<Seq<char>>| f.meeting_id == m.id;
    assert(is_home::<SegmentRow>(Some(m.id)) =~= p);
    assert(is_home::<StoredFile>(Some(m.id)) =~= q);
    lemma_filter_len(v.segments, p);
    lemma_filter_len(v.files, q);
}

proof fn lemma_filter_len<T>(s: Seq<T>, keep: spec_fn(T) -> bool)
    ensures
        s.filter(keep).len() <= s.len(),
    decreases s.len(),
{
    reveal(Seq::filter);
    if s.len() > 0 {
        lemma_filter_len(s.drop_last(), keep);
    }
}

/// The meetings are listed newest first, as many as are asked for, and all of
/// them where the number asked for is negative; each is found by its id.
pub proof fn meetings_are_listed_newest_first(v: Tables, limit: i64, i: int)
    requires
        v.wf(),
    ensures
        newest_meetings(v, limit).len() == if 0 <= limit < v.meetings.len() {
            limit as nat
        } else {
            v.meetings.len()
        },
        0 <= i < newest_meetings(v, limit).len() ==> newest_meetings(v, limit)[i] == shown_meeting(
            v,
            v.meetings[v.meetings.len() - 1 - i],
        ),
        0 <= i < v.meetings.len() ==> meeting_with(v, v.meetings[i].id) == Some(
            shown_meeting(v, v.meetings[i]),
        ),
{
    if 0 <= i < v.meetings.len() {
        table::lemma_row_at::<MeetingRow>(v.meetings, i);
    }
}

/// A meeting that begins is recording, of the session it was begun in, and has
/// nothing yet.
pub proof fn a_meeting_begins_recording(v: Tables, session_id: Option<i64>, now: Seq<char>)
    ensures
        ({
            let m = new_meeting(v, session_id, now);
            &&& m.session_id == session_id
            &&& m.started_at == now
            &&& m.state == "recording"@
            &&& m.title.len() == 0
            &&& m.notes.len() == 0
            &&& m.ended_at is None
            &&& m.summary is None
            &&& m.summary_edited_at is None
            &&& m.error is None
            &&& m.clean_transcript is None
        }),
{
    reveal_strlit("");
}

/// Which states a meeting is under way in, and which it has finished in.
pub proof fn the_states_of_a_meeting(m: MeetingRow<Seq<char>>)
    ensures
        underway(m) <==> m.state == "recording"@ || m.state == "cleaning"@ || m.state
            == "summarizing"@,
        finished(m) <==> m.state == "done"@ || m.state == "failed"@,
{
}

/// A meeting that failed says why, ended when it did before or else now, and
/// is otherwise what it was.
pub proof fn a_failed_meeting_says_why(
    m: MeetingRow<Seq<char>>,
    error: Seq<char>,
    now: Seq<char>,
)
    ensures
        failed(m, error, now) == (MeetingRow {
            state: "failed"@,
            error: Some(error),
            ended_at: if m.ended_at is Some {
                m.ended_at
            } else {
                Some(now)
            },
            ..m
        }),
{
}

/// A meeting lost with the app failed. What it already said of an error or of
/// its end stays; else it says how it was lost, and it ended with the last of
/// its segments or, without any, when it began. Every other meeting is as it
/// was.
pub proof fn a_lost_meeting_says_how(v: Tables, m: MeetingRow<Seq<char>>)
    ensures
        !underway(m) ==> swept(v, m) == m,
        underway(m) ==> swept(v, m) == (MeetingRow {
            state: "failed"@,
            error: if m.error is Some {
                m.error
            } else if m.state == "recording"@ {
                Some("recording stopped when the app did"@)
            } else {
                Some("the app closed before the notes were written"@)
            },
            ended_at: if m.ended_at is Some {
                m.ended_at
            } else if latest_segment(v.segments, m.id) is Some {
                latest_segment(v.segments, m.id)
            } else {
                Some(m.started_at)
            },
            ..m
        }),
{
}

/// The latest of a meeting's segments is one of them, and none of them is
/// later; a meeting without segments has none.
pub proof fn the_latest_segment_is_one_of_them(s: Seq<SegmentRow<Seq<char>>>, id: i64)
    ensures
        match latest_segment(s, id) {
            Some(t) => {
                &&& exists|k: int|
                    0 <= k < s.len() && (#[trigger] s[k]).meeting_id == id && s[k].started_at == t
                &&& forall|k: int|
                    0 <= k < s.len() && (#[trigger] s[k]).meeting_id == id ==> !text::before(
                        t,
                        s[k].started_at,
                    )
            },
            None => forall|k: int| 0 <= k < s.len() ==> (#[trigger] s[k]).meeting_id != id,
        },
    decreases s.len(),
{
    if s.len() > 0 {
        let (r, l) = (s.drop_last(), s[s.len() - 1]);
        the_latest_segment_is_one_of_them(r, id);
        assert forall|k: int| 0 <= k < r.len() implies r[k] == s[k] by {}
        let (old_latest, new_latest) = (latest_segment(r, id), latest_segment(s, id));
        text::lemma_before_irreflexive(l.started_at);
        if let Some(t) = old_latest {
            let k = choose|k: int|
                0 <= k < r.len() && (#[trigger] r[k]).meeting_id == id && r[k].started_at == t;
            assert(s[k].meeting_id == id && s[k].started_at == t);
        }
        if l.meeting_id == id {
            assert(s[s.len() - 1].meeting_id == id);
        }
        if let Some(t) = new_latest {
            assert forall|k: int|
                0 <= k < s.len() && (#[trigger] s[k]).meeting_id == id implies !text::before(
                t,
                s[k].started_at,
            ) by {
                if k < r.len() {
                    assert(r[k] == s[k]);
                    let x = old_latest->0;
                    assert(!text::before(x, r[k].started_at));
                    if t != x {
                        if text::before(t, s[k].started_at) {
                            text::lemma_before_transitive(x, t, s[k].started_at);
                        }
                    }
                }
            }
        } else {
            assert forall|k: int| 0 <= k < s.len() implies (#[trigger] s[k]).meeting_id != id by {
                if k < r.len() {
                    assert(r[k].meeting_id != id);
                }
            }
        }
    }
}

/// A meeting whose row was replaced is the new row, and no other is touched.
pub proof fn a_replaced_meeting_is_read_back(
    v: Tables,
    id: i64,
    m: MeetingRow<Seq<char>>,
    other: i64,
)
    requires
        m.id == id,
        row_at::<MeetingRow>(v.meetings, id) is Some,
    ensures
        row_at::<MeetingRow>(with_meeting(v, id, m).meetings, id) == Some(m),
        other != id ==> row_at::<MeetingRow>(with_meeting(v, id, m).meetings, other) == row_at::<
            MeetingRow,
        >(v.meetings, other),
        with_meeting(v, id, m) == (Tables { meetings: with_meeting(v, id, m).meetings, ..v }),
{
    table::lemma_put_reads::<MeetingRow>(v.meetings, id, m, id);
    table::lemma_put_reads::<MeetingRow>(v.meetings, id, m, other);
}

// ----------------------------------------------------------------- what was said

/// A segment shows a row.
pub open spec fn shows_segment(s: SegmentRow<Seq<char>>, x: MeetingSegment<Seq<char>>) -> bool {
    x.id == s.id && x.seq == s.seq && x.started_at == s.started_at && x.text == s.text
}

/// A segment shown is one of a meeting's.
pub open spec fn is_segment_of(v: Tables, id: i64, x: MeetingSegment<Seq<char>>) -> bool {
    exists|i: int|
        0 <= i < v.segments.len() && (#[trigger] v.segments[i]).meeting_id == id && shows_segment(
            v.segments[i],
            x,
        )
}

/// A row is among the segments shown.
pub open spec fn is_shown_segment(
    s: SegmentRow<Seq<char>>,
    l: Seq<MeetingSegment<Seq<char>>>,
) -> bool {
    exists|k: int| 0 <= k < l.len() && shows_segment(s, #[trigger] l[k])
}

/// A meeting's segments are all of them and no others, each with what was said,
/// in the order of their numbers.
pub proof fn segments_are_read_in_order(v: Tables, id: i64)
    requires
        ascending::<SegmentRow>(v.segments),
    ensures
        forall|i: int, j: int|
            0 <= i < j < segments_of(v, id).len() ==> (#[trigger] segments_of(v, id)[i]).seq < (
            #[trigger] segments_of(v, id)[j]).seq || (segments_of(v, id)[i].seq == segments_of(
                v,
                id,
            )[j].seq && segments_of(v, id)[i].id < segments_of(v, id)[j].id),
        forall|k: int|
            0 <= k < segments_of(v, id).len() ==> is_segment_of(
                v,
                id,
                #[trigger] segments_of(v, id)[k],
            ),
        forall|i: int|
            0 <= i < v.segments.len() && (#[trigger] v.segments[i]).meeting_id == id
                ==> is_shown_segment(v.segments[i], segments_of(v, id)),
{
    let home = Some(id);
    table::a_home_is_listed_by_position::<SegmentRow>(v.segments, home);
    let o = in_order::<SegmentRow>(v.segments, home);
    let l = segments_of(v, id);
    assert forall|k: int| 0 <= k < l.len() implies is_segment_of(v, id, #[trigger] l[k]) by {
        assert(v.segments.contains(o[k]));
        let i = choose|i: int| 0 <= i < v.segments.len() && v.segments[i] == o[k];
        assert(v.segments[i].meeting_id == id);
    }
    assert forall|i: int|
        0 <= i < v.segments.len() && (#[trigger] v.segments[i]).meeting_id
            == id implies is_shown_segment(v.segments[i], l) by {
        assert(<SegmentRow as table::Placed>::home(v.segments[i]) == home);
        assert(o.contains(v.segments[i]));
        let k = choose|k: int| 0 <= k < o.len() && o[k] == v.segments[i];
        assert(shows_segment(v.segments[i], l[k]));
    }
    assert forall|i: int, j: int| 0 <= i < j < l.len() implies (#[trigger] l[i]).seq < (
    #[trigger] l[j]).seq || (l[i].seq == l[j].seq && l[i].id < l[j].id) by {
        assert(o[i].seq < o[j].seq || (o[i].seq == o[j].seq && o[i].id < o[j].id));
    }
}

/// The transcript is what was said, segment by segment, without the whitespace
/// round each, with a space between each two; a blank segment says nothing.
pub proof fn the_transcript_is_what_was_said(
    v: Tables,
    id: i64,
    a: Seq<MeetingSegment<Seq<char>>>,
    x: MeetingSegment<Seq<char>>,
)
    ensures
        transcript_of(v, id) == text::joined(spoken(segments_of(v, id)), seq![' ']),
        spoken(Seq::empty()) == Seq::<Seq<char>>::empty(),
        text::trimmed(x.text).len() == 0 ==> spoken(a.push(x)) == spoken(a),
        text::trimmed(x.text).len() > 0 ==> spoken(a.push(x)) == spoken(a).push(
            text::trimmed(x.text),
        ),
{
    reveal_strlit(" ");
    assert(" "@ =~= seq![' ']);
    assert(a.push(x).drop_last() =~= a);
}

/// A segment is added to a meeting that is there, under a number that it does
/// not have yet, with what was said; nothing else changes.
pub proof fn a_segment_is_added_under_a_new_number(
    v: Tables,
    id: i64,
    seq: i64,
    said: Seq<char>,
    now: Seq<char>,
)
    ensures
        row_at::<MeetingRow>(v.meetings, id) is None ==> segment_added(v, id, seq, said, now)
            == Err::<Tables, Failure>(Failure::Db("FOREIGN KEY constraint failed"@)),
        row_at::<MeetingRow>(v.meetings, id) is Some && (exists|i: int|
            0 <= i < v.segments.len() && (#[trigger] v.segments[i]).meeting_id == id
                && v.segments[i].seq == seq) ==> segment_added(v, id, seq, said, now) == Err::<
            Tables,
            Failure,
        >(
            Failure::Db(
                "UNIQUE constraint failed: meeting_segment.meeting_id, meeting_segment.seq"@,
            ),
        ),
        row_at::<MeetingRow>(v.meetings, id) is Some && (forall|i: int|
            0 <= i < v.segments.len() ==> (#[trigger] v.segments[i]).meeting_id != id
                || v.segments[i].seq != seq) && fresh::<SegmentRow>(v.segments) <= i64::MAX ==> ({
            let r = segment_added(v, id, seq, said, now);
            let u = r->Ok_0;
            &&& r is Ok
            &&& u == (Tables { segments: u.segments, ..v })
            &&& u.segments.len() == v.segments.len() + 1
            &&& u.segments.drop_last() == v.segments
            &&& u.segments.last().meeting_id == id
            &&& u.segments.last().seq == seq
            &&& u.segments.last().started_at == now
            &&& u.segments.last().text == said
        }),
{
    if row_at::<MeetingRow>(v.meetings, id) is Some && !seq_taken(v, id, seq) && fresh::<
        SegmentRow,
    >(v.segments) <= i64::MAX {
        let u = segment_added(v, id, seq, said, now)->Ok_0;
        assert(u.segments.drop_last() =~= v.segments);
    }
}

/// What a resumed recording carries on from is the last segment that is more
/// than spaces.
pub proof fn the_last_thing_said_is_carried_on(s: Seq<MeetingSegment<Seq<char>>>, k: int)
    requires
        -1 <= k < s.len(),
        forall|i: int|
            k < i < s.len() ==> forall|j: int|
                0 <= j < (#[trigger] s[i]).text.len() ==> #[trigger] s[i].text[j] == ' ',
    ensures
        k == -1 ==> last_said(s).len() == 0,
        k >= 0 && (exists|j: int| 0 <= j < s[k].text.len() && #[trigger] s[k].text[j] != ' ')
            ==> last_said(s) == s[k].text,
    decreases s.len(),
{
    if s.len() > 0 && k < s.len() - 1 {
        let r = s.drop_last();
        let l = s[s.len() - 1];
        assert forall|j: int| 0 <= j < l.text.len() implies #[trigger] l.text[j] == ' ' by {
            assert(s[s.len() - 1].text[j] == ' ');
        }
        assert forall|i: int| k < i < r.len() implies forall|j: int|
            0 <= j < (#[trigger] r[i]).text.len() ==> #[trigger] r[i].text[j] == ' ' by {
            assert(r[i] == s[i]);
        }
        the_last_thing_said_is_carried_on(r, k);
        if k >= 0 {
            assert(r[k] == s[k]);
        }
    }
}

// ------------------------------------------------------------ what was attached

/// A file shows a row, on the screen and to the model.
pub open spec fn shows_file(
    f: StoredFile<Seq<char>>,
    x: MeetingFile<Seq<char>>,
    y: FileRow<Seq<char>>,
) -> bool {
    &&& x.id == f.id
    &&& x.position == f.position
    &&& x.name == f.name
    &&& x.kind == f.kind
    &&& x.bytes == f.bytes
    &&& x.added_at == f.added_at
    &&& y.name == f.name
    &&& y.kind == f.kind
    &&& y.path == f.path
    &&& y.extracted == f.extracted
}

/// A file shown is one of a meeting's.
pub open spec fn is_file_of(
    v: Tables,
    id: i64,
    x: MeetingFile<Seq<char>>,
    y: FileRow<Seq<char>>,
) -> bool {
    exists|i: int|
        0 <= i < v.files.len() && (#[trigger] v.files[i]).meeting_id == id && shows_file(
            v.files[i],
            x,
            y,
        )
}

/// A row is among the files shown.
pub open spec fn is_shown_file(f: StoredFile<Seq<char>>, l: Seq<MeetingFile<Seq<char>>>) -> bool {
    exists|k: int| 0 <= k < l.len() && (#[trigger] l[k]).id == f.id
}

/// A meeting's files are all of them and no others, in the order in which they
/// were attached; the screen and the model are given the same ones.
pub proof fn files_are_read_in_order(v: Tables, id: i64)
    requires
        ascending::<StoredFile>(v.files),
    ensures
        files_of(v, id).len() == file_rows(v, id).len(),
        forall|i: int, j: int|
            0 <= i < j < files_of(v, id).len() ==> (#[trigger] files_of(v, id)[i]).position < (
            #[trigger] files_of(v, id)[j]).position || (files_of(v, id)[i].position == files_of(
                v,
                id,
            )[j].position && files_of(v, id)[i].id < files_of(v, id)[j].id),
        forall|k: int|
            0 <= k < files_of(v, id).len() ==> is_file_of(
                v,
                id,
                #[trigger] files_of(v, id)[k],
                file_rows(v, id)[k],
            ),
        forall|i: int|
            0 <= i < v.files.len() && (#[trigger] v.files[i]).meeting_id == id ==> is_shown_file(
                v.files[i],
                files_of(v, id),
            ),
{
    let home = Some(id);
    table::a_home_is_listed_by_position::<StoredFile>(v.files, home);
    let o = in_order::<StoredFile>(v.files, home);
    let (l, m) = (files_of(v, id), file_rows(v, id));
    assert forall|k: int| 0 <= k < l.len() implies is_file_of(v, id, #[trigger] l[k], m[k]) by {
        assert(v.files.contains(o[k]));
        let i = choose|i: int| 0 <= i < v.files.len() && v.files[i] == o[k];
        assert(v.files[i].meeting_id == id);
    }
    assert forall|i: int|
        0 <= i < v.files.len() && (#[trigger] v.files[i]).meeting_id == id implies is_shown_file(
        v.files[i],
        l,
    ) by {
        assert(<StoredFile as table::Placed>::home(v.files[i]) == home);
        assert(o.contains(v.files[i]));
        let k = choose|k: int| 0 <= k < o.len() && o[k] == v.files[i];
        assert(l[k].id == v.files[i].id);
    }
    assert forall|i: int, j: int| 0 <= i < j < l.len() implies (#[trigger] l[i]).position < (
    #[trigger] l[j]).position || (l[i].position == l[j].position && l[i].id < l[j].id) by {
        assert(o[i].position < o[j].position || (o[i].position == o[j].position && o[i].id
            < o[j].id));
    }
}

/// What a meeting has attached is added up file by file: their number, their
/// bytes and the characters of their text, which end at a NUL.
pub proof fn attachments_add_up(
    s: Seq<StoredFile<Seq<char>>>,
    f: StoredFile<Seq<char>>,
    id: i64,
    t: Seq<char>,
    rest: Seq<char>,
)
    ensures
        usage(Seq::empty(), id) == (0int, 0int, 0int),
        f.meeting_id != id ==> usage(s.push(f), id) == usage(s, id),
        f.meeting_id == id && f.extracted is None ==> usage(s.push(f), id) == (
            usage(s, id).0 + 1,
            usage(s, id).1 + f.bytes,
            usage(s, id).2,
        ),
        f.meeting_id == id && f.extracted == Some(t) && text::without(t, '\0') ==> usage(
            s.push(f),
            id,
        ) == (usage(s, id).0 + 1, usage(s, id).1 + f.bytes, usage(s, id).2 + t.len()),
        f.meeting_id == id && f.extracted == Some(t + seq!['\0'] + rest) && text::without(t, '\0')
            ==> usage(s.push(f), id) == (
            usage(s, id).0 + 1,
            usage(s, id).1 + f.bytes,
            usage(s, id).2 + t.len(),
        ),
{
    assert(s.push(f).drop_last() =~= s);
    if text::without(t, '\0') {
        lemma_stored_len(t, rest);
    }
}

proof fn lemma_stored_len(t: Seq<char>, rest: Seq<char>)
    requires
        text::without(t, '\0'),
    ensures
        stored_len(t) == t.len(),
        stored_len(t + seq!['\0'] + rest) == t.len(),
    decreases t.len(),
{
    let s = t + seq!['\0'] + rest;
    if t.len() > 0 {
        let d = t.drop_first();
        assert(t[0] != '\0');
        assert(s[0] == t[0]);
        assert forall|i: int| 0 <= i < d.len() implies #[trigger] d[i] != '\0' by {
            assert(d[i] == t[i + 1]);
        }
        assert(s.drop_first() =~= d + seq!['\0'] + rest);
        lemma_stored_len(d, rest);
    } else {
        assert(s[0] == '\0');
    }
}

/// A file is refused where there is no such meeting, where the meeting has as
/// many files as it may, and where its bytes or its text would be over what
/// they may be; otherwise it is attached.
pub proof fn a_file_is_refused_beyond_a_limit(
    v: Tables,
    id: i64,
    bytes: i64,
    extracted: Option<Seq<char>>,
    max_files: i64,
    max_bytes: i64,
    max_chars: i64,
)
    ensures
        ({
            let r = file_refusal(v, id, bytes, extracted, max_files, max_bytes, max_chars);
            let (n, b, c) = usage(v.files, id);
            let more = match extracted {
                Some(t) => t.len() as int,
                None => 0,
            };
            let known = row_at::<MeetingRow>(v.meetings, id) is Some;
            &&& !known ==> r == Some(Failure::Other("no such meeting"@))
            &&& known && n >= max_files ==> r == Some(
                Failure::Other(
                    "that meeting already has "@ + text::decimal(max_files as int)
                        + " files — remove one first"@,
                ),
            )
            &&& known && n < max_files && b + bytes > max_bytes >= 0 ==> r == Some(
                Failure::Other(
                    "that would take the meeting over its "@ + text::decimal(
                        max_bytes as int / 1_048_576,
                    ) + " MB of attachments"@,
                ),
            )
            &&& known && n < max_files && b + bytes <= max_bytes && c + more > max_chars ==> r
                == Some(
                Failure::Other(
                    "that would take the meeting over the amount of text this can send"@,
                ),
            )
            &&& known && n < max_files && b + bytes <= max_bytes && c + more <= max_chars && fresh::<
                StoredFile,
            >(v.files) <= i64::MAX && after_top::<StoredFile>(v.files, Some(id), 0) <= i64::MAX
                ==> r is None
        }),
{
}

/// A file is attached to one meeting.
pub proof fn a_file_belongs_to_its_meeting(v: Tables, id: i64, i: int)
    requires
        v.wf(),
        0 <= i < v.files.len(),
    ensures
        attached(v, id, v.files[i].id) <==> v.files[i].meeting_id == id,
{
    table::lemma_row_at::<StoredFile>(v.files, i);
}

// --------------------------------------------------------------- what came of it

/// An action shows a row.
pub open spec fn shows_action(a: ActionRow<Seq<char>>, x: MeetingAction<Seq<char>>) -> bool {
    x.id == a.id && x.position == a.position && x.text == a.text && x.task_id == a.task_id
}

/// An action shown is one of a meeting's.
pub open spec fn is_action_of(v: Tables, id: i64, x: MeetingAction<Seq<char>>) -> bool {
    exists|i: int|
        0 <= i < v.actions.len() && (#[trigger] v.actions[i]).meeting_id == id && shows_action(
            v.actions[i],
            x,
        )
}

/// A row is among the actions shown.
pub open spec fn is_shown_action(
    a: ActionRow<Seq<char>>,
    l: Seq<MeetingAction<Seq<char>>>,
) -> bool {
    exists|k: int| 0 <= k < l.len() && shows_action(a, #[trigger] l[k])
}

/// A meeting's actions are all of them and no others, in the order of their
/// positions.
pub proof fn actions_are_read_in_order(v: Tables, id: i64)
    requires
        ascending::<ActionRow>(v.actions),
    ensures
        forall|i: int, j: int|
            0 <= i < j < actions_of(v, id).len() ==> (#[trigger] actions_of(v, id)[i]).position < (
            #[trigger] actions_of(v, id)[j]).position || (actions_of(v, id)[i].position
                == actions_of(v, id)[j].position && actions_of(v, id)[i].id < actions_of(
                v,
                id,
            )[j].id),
        forall|k: int|
            0 <= k < actions_of(v, id).len() ==> is_action_of(
                v,
                id,
                #[trigger] actions_of(v, id)[k],
            ),
        forall|i: int|
            0 <= i < v.actions.len() && (#[trigger] v.actions[i]).meeting_id == id
                ==> is_shown_action(v.actions[i], actions_of(v, id)),
{
    let home = Some(id);
    table::a_home_is_listed_by_position::<ActionRow>(v.actions, home);
    let o = in_order::<ActionRow>(v.actions, home);
    let l = actions_of(v, id);
    assert forall|k: int| 0 <= k < l.len() implies is_action_of(v, id, #[trigger] l[k]) by {
        assert(v.actions.contains(o[k]));
        let i = choose|i: int| 0 <= i < v.actions.len() && v.actions[i] == o[k];
        assert(v.actions[i].meeting_id == id);
    }
    assert forall|i: int|
        0 <= i < v.actions.len() && (#[trigger] v.actions[i]).meeting_id
            == id implies is_shown_action(v.actions[i], l) by {
        assert(<ActionRow as table::Placed>::home(v.actions[i]) == home);
        assert(o.contains(v.actions[i]));
        let k = choose|k: int| 0 <= k < o.len() && o[k] == v.actions[i];
        assert(shows_action(v.actions[i], l[k]));
    }
    assert forall|i: int, j: int| 0 <= i < j < l.len() implies (#[trigger] l[i]).position < (
    #[trigger] l[j]).position || (l[i].position == l[j].position && l[i].id < l[j].id) by {
        assert(o[i].position < o[j].position || (o[i].position == o[j].position && o[i].id
            < o[j].id));
    }
}

/// Every item proposed becomes an action of the meeting, with its text and no
/// task yet, one behind the other and all behind those that were there.
pub proof fn proposals_are_put_behind_one_another(
    s: Seq<ActionRow<Seq<char>>>,
    id: i64,
    items: Seq<Seq<char>>,
)
    requires
        after_top::<ActionRow>(s, Some(id), 0) >= i64::MIN,
        after_top::<ActionRow>(s, Some(id), 0) + items.len() <= i64::MAX + 1,
    ensures
        proposed(s, id, items).len() == s.len() + items.len(),
        proposed(s, id, items).take(s.len() as int) == s,
        forall|k: int|
            0 <= k < items.len() ==> {
                let a = #[trigger] proposed(s, id, items)[s.len() + k];
                &&& a.meeting_id == id
                &&& a.text == items[k]
                &&& a.task_id is None
                &&& a.position == after_top::<ActionRow>(s, Some(id), 0) + k
            },
        items.len() > 0 ==> top::<ActionRow>(proposed(s, id, items), Some(id)) == Some(
            (after_top::<ActionRow>(s, Some(id), 0) + items.len() - 1) as i64,
        ),
        items.len() == 0 ==> proposed(s, id, items) == s,
    decreases items.len(),
{
    if items.len() == 0 {
        assert(s.take(s.len() as int) =~= s);
    } else {
        let rest = items.drop_last();
        proposals_are_put_behind_one_another(s, id, rest);
        let t = proposed(s, id, rest);
        let u = proposed(s, id, items);
        let first = after_top::<ActionRow>(s, Some(id), 0);
        assert(after_top::<ActionRow>(t, Some(id), 0) == first + rest.len());
        assert(u.drop_last() =~= t);
        assert(u.take(s.len() as int) =~= t.take(s.len() as int));
        assert forall|k: int| 0 <= k < items.len() implies {
            let a = #[trigger] u[s.len() + k];
            a.meeting_id == id && a.text == items[k] && a.task_id is None && a.position == first + k
        } by {
            if k < rest.len() {
                assert(u[s.len() + k] == t[s.len() + k]);
                assert(rest[k] == items[k]);
            } else {
                assert(u[s.len() + k] == u.last());
            }
        }
    }
}

/// Notes are stored where the meeting is there and there is room for their
/// actions: the meeting is done, with the title and the write-up, at the end it
/// had or else now, and what the user wrote and what was said stay.
pub proof fn notes_are_stored_with_their_meeting(
    v: Tables,
    id: i64,
    title: Seq<char>,
    summary: Seq<char>,
    items: Seq<Seq<char>>,
    now: Seq<char>,
    m: MeetingRow<Seq<char>>,
)
    requires
        v.wf(),
    ensures
        row_at::<MeetingRow>(v.meetings, id) is None ==> finished_with(
            v,
            id,
            title,
            summary,
            items,
            now,
        ) == Err::<Tables, Failure>(Failure::Other("no such meeting"@)),
        row_at::<MeetingRow>(v.meetings, id) == Some(m) ==> match finished_with(
            v,
            id,
            title,
            summary,
            items,
            now,
        ) {
            Ok(u) => {
                &&& row_at::<MeetingRow>(u.meetings, id) == Some(
                    MeetingRow {
                        title,
                        summary: Some(summary),
                        summary_edited_at: None,
                        state: "done"@,
                        error: None,
                        ended_at: if m.ended_at is Some {
                            m.ended_at
                        } else {
                            Some(now)
                        },
                        ..m
                    },
                )
                &&& u.segments == v.segments
                &&& u.files == v.files
                &&& u.tasks == v.tasks
                &&& u.sessions == v.sessions
            },
            Err(e) => e == full(),
        },
{
    if row_at::<MeetingRow>(v.meetings, id) == Some(m) {
        let i = table::lemma_row_found::<MeetingRow>(v.meetings, id);
        if let Ok(u) = finished_with(v, id, title, summary, items, now) {
            let done = MeetingRow {
                title,
                summary: Some(summary),
                summary_edited_at: None,
                state: "done"@,
                error: None,
                ended_at: if m.ended_at is Some {
                    m.ended_at
                } else {
                    Some(now)
                },
                ..m
            };
            table::lemma_put_reads::<MeetingRow>(v.meetings, id, done, id);
        }
    }
}

/// Only what nobody accepted gives way to new notes, and only of that meeting.
pub proof fn only_open_proposals_give_way(id: i64, a: ActionRow<Seq<char>>)
    ensures
        !kept_action(id)(a) <==> a.meeting_id == id && a.task_id is None,
{
}

/// An action can be approved where it is the meeting's and has become no task.
pub proof fn an_action_is_approved_once(v: Tables, id: i64, i: int)
    requires
        v.wf(),
        0 <= i < v.actions.len(),
    ensures
        open_action(v, id, v.actions[i].id) <==> v.actions[i].meeting_id == id
            && v.actions[i].task_id is None,
{
    table::lemma_row_at::<ActionRow>(v.actions, i);
}

/// What is said of a meeting that is not there.
pub proof fn a_missing_meeting_is_told()
    ensures
        crate::meetings::no_meeting() == Failure::Other("no such meeting"@),
        crate::meetings::no_rows() == Failure::Db("Query returned no rows"@),
{
}

} // verus!
