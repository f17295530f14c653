//! What holds of the store across several writes and reads.

use vstd::prelude::*;

use crate::board::color_of;
use crate::board::detailed;
use crate::board::label_fits;
use crate::board::label_id;
use crate::board::label_named;
use crate::board::label_room;
use crate::board::lemma_named_push;
use crate::board::lemma_next_name_fits;
use crate::board::lemma_room_for_fewer;
use crate::board::moved_card;
use crate::board::names_differ;
use crate::board::new_card;
use crate::board::not_label;
use crate::board::not_task;
use crate::board::tagged;
use crate::board::with_label;
use crate::board::without_label;
use crate::board::worn;
use crate::db::after_heartbeat;
use crate::db::open_in;
use crate::db::with_checkpoint;
use crate::meetings::action_room;
use crate::meetings::after_sweep;
use crate::meetings::approved;
use crate::meetings::backlog_room;
use crate::meetings::file_refusal;
use crate::meetings::finished;
use crate::meetings::finished_with;
use crate::meetings::in_state;
use crate::meetings::is_done;
use crate::meetings::is_lost;
use crate::meetings::kept_action;
use crate::meetings::lemma_open_among;
use crate::meetings::lemma_still_open;
use crate::meetings::open_action;
use crate::meetings::open_among;
use crate::meetings::or_else;
use crate::meetings::proposed;
use crate::meetings::stored_len;
use crate::meetings::swept;
use crate::meetings::underway;
use crate::meetings::usage;
use crate::meetings::with_meeting;
use crate::rows::ActionRow;
use crate::rows::LabelRow;
use crate::rows::MeetingRow;
use crate::rows::SessionRow;
use crate::rows::StoredFile;
use crate::rows::Tables;
use crate::rows::TaskRow;
use crate::table::Keyed;
use crate::table::Placed;
use crate::table::after_top;
use crate::table::ascending;
use crate::table::fresh;
use crate::table::in_order;
use crate::table::lemma_push_reads;
use crate::table::lemma_put_ascending;
use crate::table::lemma_put_reads;
use crate::table::put;
use crate::table::row_at;
use crate::table::top;
use crate::table;
use crate::text::folded;
use crate::text;

verus! {

broadcast use vstd::seq_lib::group_seq_properties;

// ------------------------------------------------------------------ approvals

proof fn lemma_nothing_open(v: Tables, meeting_id: i64, ids: Seq<i64>, now: Seq<char>)
    requires
        forall|id: i64| ids.contains(id) ==> !#[trigger] open_action(v, meeting_id, id),
    ensures
        approved(v, meeting_id, ids, now) == v,
        open_among(v, meeting_id, ids) == Seq::<i64>::empty(),
    decreases ids.len(),
{
    if ids.len() > 0 {
        assert forall|id: i64| ids.drop_last().contains(id) implies !#[trigger] open_action(
            v,
            meeting_id,
            id,
        ) by {
            let k = choose|k: int| 0 <= k < ids.len() - 1 && ids.drop_last()[k] == id;
            assert(ids[k] == id);
        }
        lemma_nothing_open(v, meeting_id, ids.drop_last(), now);
        assert(ids.contains(ids.last()));
    }
}

/// Approving the same actions a second time finds none of them open, creates no
/// task and changes nothing.
pub proof fn approving_twice_inserts_once(
    v: Tables,
    meeting_id: i64,
    ids: Seq<i64>,
    now: Seq<char>,
    later: Seq<char>,
)
    ensures
        ({
            let once = approved(v, meeting_id, ids, now);
            approved(once, meeting_id, ids, later) == once && open_among(
                once,
                meeting_id,
                ids,
            ).len() == 0
        }),
{
    let once = approved(v, meeting_id, ids, now);
    lemma_open_among(v, meeting_id, ids);
    assert forall|id: i64| ids.contains(id) implies !#[trigger] open_action(
        once,
        meeting_id,
        id,
    ) by {
        lemma_still_open(v, meeting_id, ids, now, id);
        assert(open_among(v, meeting_id, ids).contains(id) <==> ids.contains(id) && open_action(
            v,
            meeting_id,
            id,
        ));
    }
    lemma_nothing_open(once, meeting_id, ids, later);
}

/// The task that came out of an approved action.
pub open spec fn came_of(
    u: Tables,
    v: Tables,
    action: i64,
    task: TaskRow<Seq<char>>,
    now: Seq<char>,
) -> bool {
    let a = row_at::<ActionRow>(v.actions, action)->0;
    &&& task.title == a.text
    &&& task.source == "meeting"@
    &&& task.session_id is None
    &&& task.created_at == now
    &&& row_at::<ActionRow>(u.actions, action) == Some(
        (ActionRow { task_id: Some(task.id), ..a }),
    )
}

/// The ids that are open, each counted once, are those approved: as many tasks
/// come out of them, in the order in which they were named, behind everything
/// that stood in the backlog. Each action knows its task from then on, and
/// nothing else changes.
pub proof fn approving_makes_one_task_each(
    v: Tables,
    meeting_id: i64,
    ids: Seq<i64>,
    now: Seq<char>,
)
    requires
        v.wf(),
        backlog_room(v, open_among(v, meeting_id, ids).len() as int),
    ensures
        ({
            let p = open_among(v, meeting_id, ids);
            let u = approved(v, meeting_id, ids, now);
            let n = v.tasks.len() as int;
            &&& p.len() == ids.to_set().filter(|id: i64| open_action(v, meeting_id, id)).len()
            &&& u.wf()
            &&& u.tasks.len() == n + p.len()
            &&& u.tasks.take(n) == v.tasks
            &&& in_order::<TaskRow>(u.tasks, None) == in_order::<TaskRow>(v.tasks, None)
                + u.tasks.skip(n)
            &&& forall|k: int|
                0 <= k < p.len() ==> came_of(u, v, #[trigger] p[k], u.tasks[n + k], now)
            &&& forall|id: i64|
                !p.contains(id) ==> #[trigger] row_at::<ActionRow>(u.actions, id) == row_at::<
                    ActionRow,
                >(v.actions, id)
            &&& u == (Tables { actions: u.actions, tasks: u.tasks, ..v })
        }),
{
    let p = open_among(v, meeting_id, ids);
    let u = approved(v, meeting_id, ids, now);
    lemma_open_among(v, meeting_id, ids);
    lemma_one_task_each(v, meeting_id, ids, now);
    assert forall|id: i64| !p.contains(id) implies #[trigger] row_at::<ActionRow>(u.actions, id)
        == row_at::<ActionRow>(v.actions, id) by {
        lemma_still_open(v, meeting_id, ids, now, id);
    }
    p.unique_seq_to_set();
    let open = ids.to_set().filter(|id: i64| open_action(v, meeting_id, id));
    assert(p.to_set() =~= open) by {
        assert forall|id: i64| p.to_set().contains(id) <==> open.contains(id) by {
            assert(p.contains(id) <==> ids.contains(id) && open_action(v, meeting_id, id));
        }
    }
}

proof fn lemma_one_task_each(v: Tables, meeting_id: i64, ids: Seq<i64>, now: Seq<char>)
    requires
        v.wf(),
        backlog_room(v, open_among(v, meeting_id, ids).len() as int),
    ensures
        ({
            let p = open_among(v, meeting_id, ids);
            let u = approved(v, meeting_id, ids, now);
            let n = v.tasks.len() as int;
            &&& u.wf()
            &&& u.tasks.len() == n + p.len()
            &&& u.tasks.take(n) == v.tasks
            &&& fresh::<TaskRow>(u.tasks) == fresh::<TaskRow>(v.tasks) + p.len()
            &&& after_top::<TaskRow>(u.tasks, None, 1) == after_top::<TaskRow>(v.tasks, None, 1)
                + p.len()
            &&& in_order::<TaskRow>(u.tasks, None) == in_order::<TaskRow>(v.tasks, None)
                + u.tasks.skip(n)
            &&& forall|k: int|
                0 <= k < p.len() ==> came_of(u, v, #[trigger] p[k], u.tasks[n + k], now)
            &&& u == (Tables { actions: u.actions, tasks: u.tasks, ..v })
        }),
    decreases ids.len(),
{
    let p = open_among(v, meeting_id, ids);
    let u = approved(v, meeting_id, ids, now);
    let n = v.tasks.len() as int;
    if ids.len() == 0 {
        assert(v.tasks.take(n) =~= v.tasks);
        assert(u.tasks.skip(n) =~= seq![]);
    } else {
        let r = ids.drop_last();
        let last = ids.last();
        let w = approved(v, meeting_id, r, now);
        let rest = open_among(v, meeting_id, r);
        lemma_one_task_each(v, meeting_id, r, now);
        lemma_open_among(v, meeting_id, r);
        lemma_still_open(v, meeting_id, r, now, last);
        if open_action(w, meeting_id, last) {
            let a = row_at::<ActionRow>(w.actions, last)->0;
            let i = table::lemma_row_found::<ActionRow>(w.actions, last);
            let card = new_card(w, None, a.text, "meeting"@, now);
            let b = ActionRow { task_id: Some(card.id), ..a };
            lemma_put_ascending::<ActionRow>(w.actions, last, b);
            lemma_push_reads::<TaskRow>(w.tasks, card, 0);
            table::a_row_behind_the_top_is_last::<TaskRow>(w.tasks, card);
            assert(u.tasks == w.tasks.push(card));
            assert(w.tasks.push(card).drop_last() =~= w.tasks);
            assert(u.tasks.take(n) =~= w.tasks.take(n));
            assert(in_order::<TaskRow>(u.tasks, None) =~= in_order::<TaskRow>(v.tasks, None)
                + u.tasks.skip(n));
            assert forall|k: int| 0 <= k < p.len() implies came_of(
                u,
                v,
                #[trigger] p[k],
                u.tasks[n + k],
                now,
            ) by {
                lemma_put_reads::<ActionRow>(w.actions, last, b, p[k]);
                if k < rest.len() {
                    assert(p[k] == rest[k]);
                    assert(rest.contains(rest[k]));
                    assert(came_of(w, v, rest[k], w.tasks[n + k], now));
                }
            }
        }
    }
}

// ------------------------------------------------------------------- the notes

proof fn lemma_proposed(s: Seq<ActionRow<Seq<char>>>, meeting_id: i64, items: Seq<Seq<char>>)
    requires
        ascending::<ActionRow>(s),
        action_room(s, meeting_id, items.len() as int),
    ensures
        ascending::<ActionRow>(proposed(s, meeting_id, items)),
        proposed(s, meeting_id, items).len() == s.len() + items.len(),
        proposed(s, meeting_id, items).take(s.len() as int) == s,
        forall|k: int|
            0 <= k < items.len() ==> (#[trigger] proposed(s, meeting_id, items)[s.len() + k]).text
                == items[k] && proposed(s, meeting_id, items)[s.len() + k].meeting_id == meeting_id
                && proposed(s, meeting_id, items)[s.len() + k].task_id is None,
        forall|id: i64|
            row_at::<ActionRow>(s, id) is Some ==> #[trigger] row_at::<ActionRow>(
                proposed(s, meeting_id, items),
                id,
            ) == row_at::<ActionRow>(s, id),
        fresh::<ActionRow>(proposed(s, meeting_id, items)) <= fresh::<ActionRow>(s) + items.len(),
        after_top::<ActionRow>(proposed(s, meeting_id, items), Some(meeting_id), 0) <= after_top::<
            ActionRow,
        >(s, Some(meeting_id), 0) + items.len(),
    decreases items.len(),
{
    if items.len() == 0 {
        assert(s.take(s.len() as int) =~= s);
    } else {
        let rest = items.drop_last();
        lemma_proposed(s, meeting_id, rest);
        let t = proposed(s, meeting_id, rest);
        let row = ActionRow {
            id: fresh::<ActionRow>(t) as i64,
            meeting_id,
            position: after_top::<ActionRow>(t, Some(meeting_id), 0) as i64,
            text: items.last(),
            task_id: None,
        };
        let u = proposed(s, meeting_id, items);
        assert(u == t.push(row));
        lemma_push_reads::<ActionRow>(t, row, 0);
        assert(u.take(s.len() as int) =~= t.take(s.len() as int));
        assert forall|id: i64| row_at::<ActionRow>(s, id) is Some implies #[trigger] row_at::<
            ActionRow,
        >(u, id) == row_at::<ActionRow>(s, id) by {
            lemma_push_reads::<ActionRow>(t, row, id);
        }
        assert(u.drop_last() =~= t);
        assert(u.last() == row);
        assert forall|k: int| 0 <= k < items.len() implies (#[trigger] u[s.len() + k]).text
            == items[k] && u[s.len() + k].meeting_id == meeting_id && u[s.len()
            + k].task_id is None by {
            if k < rest.len() {
                assert(u[s.len() + k] == t[s.len() + k]);
                assert(rest[k] == items[k]);
            }
        }
    }
}

/// Writing a meeting's notes again keeps every action somebody accepted, as it
/// is; the proposals nobody accepted give way to the new ones.
pub proof fn rewriting_notes_keeps_accepted_actions(
    v: Tables,
    id: i64,
    title: Seq<char>,
    summary: Seq<char>,
    items: Seq<Seq<char>>,
    now: Seq<char>,
    action: i64,
)
    requires
        v.wf(),
        finished_with(v, id, title, summary, items, now) is Ok,
    ensures
        ({
            let u = finished_with(v, id, title, summary, items, now)->Ok_0;
            &&& u.wf()
            &&& u.tasks == v.tasks
            &&& u.segments == v.segments
            &&& match row_at::<ActionRow>(v.actions, action) {
                Some(a) => a.task_id is Some || a.meeting_id != id ==> row_at::<ActionRow>(
                    u.actions,
                    action,
                ) == Some(a),
                None => true,
            }
            &&& u.actions.len() == v.actions.filter(kept_action(id)).len() + items.len()
        }),
{
    let kept = v.actions.filter(kept_action(id));
    table::lemma_filter_ascending::<ActionRow>(v.actions, kept_action(id));
    table::lemma_filter_reads::<ActionRow>(v.actions, kept_action(id), action);
    lemma_proposed(kept, id, items);
    let u = finished_with(v, id, title, summary, items, now)->Ok_0;
    let m = row_at::<MeetingRow>(v.meetings, id)->0;
    let i = table::lemma_row_found::<MeetingRow>(v.meetings, id);
    let n = row_at::<MeetingRow>(u.meetings, id);
    let done = MeetingRow {
        title,
        summary: Some(summary),
        summary_edited_at: None,
        state: "done"@,
        error: None,
        ended_at: or_else(m.ended_at, now),
        ..m
    };
    lemma_put_ascending::<MeetingRow>(v.meetings, id, done);
    if row_at::<ActionRow>(v.actions, action) is Some {
        let a = row_at::<ActionRow>(v.actions, action)->0;
        if a.task_id is Some || a.meeting_id != id {
            assert(row_at::<ActionRow>(kept, action) == Some(a));
        }
    }
}

/// What was stored of a meeting's notes is read back, and the mark of an edit
/// is gone: the document is the model's again.
pub proof fn stored_notes_are_read_back(
    v: Tables,
    id: i64,
    title: Seq<char>,
    summary: Seq<char>,
    items: Seq<Seq<char>>,
    now: Seq<char>,
)
    requires
        v.wf(),
        finished_with(v, id, title, summary, items, now) is Ok,
    ensures
        ({
            let u = finished_with(v, id, title, summary, items, now)->Ok_0;
            let m = row_at::<MeetingRow>(u.meetings, id);
            m is Some && m->0.title == title && m->0.summary == Some(summary)
                && m->0.summary_edited_at is None && m->0.state == "done"@ && m->0.error is None
                && m->0.ended_at is Some
        }),
{
    let m = row_at::<MeetingRow>(v.meetings, id)->0;
    let i = table::lemma_row_found::<MeetingRow>(v.meetings, id);
    let done = MeetingRow {
        title,
        summary: Some(summary),
        summary_edited_at: None,
        state: "done"@,
        error: None,
        ended_at: or_else(m.ended_at, now),
        ..m
    };
    lemma_put_reads::<MeetingRow>(v.meetings, id, done, id);
}

// ------------------------------------------------------------------- the sweep

/// No meeting is under way after the sweep, and a second sweep finds nothing
/// and changes nothing.
pub proof fn sweeping_twice_sweeps_once(v: Tables)
    ensures
        forall|i: int|
            0 <= i < after_sweep(v).meetings.len() ==> !underway(
                #[trigger] after_sweep(v).meetings[i],
            ),
        after_sweep(after_sweep(v)) == after_sweep(v),
        after_sweep(v).meetings.filter(is_lost()).len() == 0,
{
    let u = after_sweep(v);
    lemma_states_differ();
    assert forall|i: int| 0 <= i < u.meetings.len() implies !underway(#[trigger] u.meetings[i]) by {
        assert(u.meetings[i] == swept(v, v.meetings[i]));
    }
    assert(after_sweep(u).meetings =~= u.meetings) by {
        assert forall|i: int| 0 <= i < u.meetings.len() implies #[trigger] after_sweep(
            u,
        ).meetings[i] == u.meetings[i] by {
            assert(!underway(u.meetings[i]));
        }
    }
    lemma_filter_none(u.meetings, is_lost());
}

proof fn lemma_filter_none<V>(s: Seq<V>, keep: spec_fn(V) -> bool)
    requires
        forall|i: int| 0 <= i < s.len() ==> !keep(#[trigger] s[i]),
    ensures
        s.filter(keep).len() == 0,
    decreases s.len(),
{
    reveal(Seq::filter);
    if s.len() > 0 {
        assert forall|i: int| 0 <= i < s.drop_last().len() implies !keep(
            #[trigger] s.drop_last()[i],
        ) by {
            assert(s.drop_last()[i] == s[i]);
        }
        lemma_filter_none(s.drop_last(), keep);
        assert(!keep(s[s.len() - 1]));
    }
}

proof fn lemma_filter_has<V>(s: Seq<V>, keep: spec_fn(V) -> bool, x: V)
    ensures
        s.filter(keep).contains(x) <==> s.contains(x) && keep(x),
    decreases s.len(),
{
    reveal(Seq::filter);
    if s.len() > 0 {
        let t = s.drop_last();
        lemma_filter_has(t, keep, x);
        assert(s =~= t.push(s.last()));
        lemma_contains_push(t, s.last(), x);
        if keep(s.last()) {
            lemma_contains_push(t.filter(keep), s.last(), x);
        }
    }
}

proof fn lemma_states_differ()
    ensures
        "failed"@ != "recording"@,
        "failed"@ != "cleaning"@,
        "failed"@ != "summarizing"@,
        "done"@ != "recording"@,
        "done"@ != "cleaning"@,
        "done"@ != "summarizing"@,
        "cleaning"@ != "recording"@,
        "cleaning"@ != "summarizing"@,
{
    reveal_strlit("failed");
    reveal_strlit("done");
    reveal_strlit("recording");
    reveal_strlit("cleaning");
    reveal_strlit("summarizing");
    assert("recording"@.len() == 9 && "cleaning"@.len() == 8 && "summarizing"@.len() == 11
        && "failed"@.len() == 6 && "done"@.len() == 4);
}

/// A meeting is either finished, so that its notes can be written again, or
/// under way, so that it can fail; never both.
pub proof fn finished_is_not_under_way(m: MeetingRow<Seq<char>>)
    ensures
        !(finished(m) && underway(m)),
{
    lemma_states_differ();
}

/// Stopping a meeting that was stopped moves nothing: it has left the state
/// that a Stop looks for.
pub proof fn stopping_twice_moves_once(v: Tables, id: i64, ended_at: Option<Seq<char>>)
    requires
        in_state(v, id, "recording"@),
    ensures
        !in_state(
            with_meeting(
                v,
                id,
                MeetingRow {
                    state: "cleaning"@,
                    ended_at,
                    ..row_at::<MeetingRow>(v.meetings, id)->0
                },
            ),
            id,
            "recording"@,
        ),
{
    lemma_states_differ();
    let m = row_at::<MeetingRow>(v.meetings, id)->0;
    let i = table::lemma_row_found::<MeetingRow>(v.meetings, id);
    let n = MeetingRow { state: "cleaning"@, ended_at, ..m };
    lemma_put_reads::<MeetingRow>(v.meetings, id, n, id);
}

/// Resuming a meeting twice is refused: the microphone is open on it.
pub proof fn resuming_twice_is_refused(v: Tables, id: i64)
    requires
        is_done(v, id),
    ensures
        !is_done(
            with_meeting(
                v,
                id,
                MeetingRow {
                    state: "recording"@,
                    ended_at: None,
                    error: None,
                    clean_transcript: None,
                    ..row_at::<MeetingRow>(v.meetings, id)->0
                },
            ),
            id,
        ),
{
    lemma_states_differ();
    let m = row_at::<MeetingRow>(v.meetings, id)->0;
    let i = table::lemma_row_found::<MeetingRow>(v.meetings, id);
    let n = MeetingRow {
        state: "recording"@,
        ended_at: None,
        error: None,
        clean_transcript: None,
        ..m
    };
    lemma_put_reads::<MeetingRow>(v.meetings, id, n, id);
}

// ----------------------------------------------------------------------- files

/// A place behind the last one is taken by no row there.
pub proof fn next_place_is_free<R: Placed>(s: Seq<R::V>, home: Option<i64>, start: int)
    ensures
        forall|i: int|
            0 <= i < s.len() && R::home(#[trigger] s[i]) == home ==> R::position(s[i])
                < after_top::<R>(s, home, start),
    decreases s.len(),
{
    if s.len() > 0 {
        let t = s.drop_last();
        next_place_is_free::<R>(t, home, start);
        assert forall|i: int| 0 <= i < s.len() && R::home(#[trigger] s[i]) == home implies
            R::position(s[i]) < after_top::<R>(s, home, start) by {
            if i < t.len() {
                assert(t[i] == s[i]);
                assert(R::position(t[i]) < after_top::<R>(t, home, start));
                lemma_top_some::<R>(t, home, i);
            }
        }
    }
}

proof fn lemma_top_some<R: Placed>(s: Seq<R::V>, home: Option<i64>, i: int)
    requires
        0 <= i < s.len(),
        R::home(s[i]) == home,
    ensures
        top::<R>(s, home) is Some,
    decreases s.len(),
{
    if i < s.len() - 1 {
        assert(s.drop_last()[i] == s[i]);
        lemma_top_some::<R>(s.drop_last(), home, i);
    }
}

proof fn lemma_stored_len(s: Seq<char>)
    ensures
        stored_len(s) <= s.len(),
    decreases s.len(),
{
    if s.len() > 0 && s[0] != '\0' {
        lemma_stored_len(s.drop_first());
    }
}

/// The aggregate limits hold after a file was attached, whatever was attached
/// before it.
pub proof fn attachment_limits_hold(
    v: Tables,
    meeting_id: i64,
    file: StoredFile<Seq<char>>,
    max_files: i64,
    max_total_bytes: i64,
    max_total_chars: i64,
)
    requires
        file.meeting_id == meeting_id,
        file_refusal(
            v,
            meeting_id,
            file.bytes,
            file.extracted,
            max_files,
            max_total_bytes,
            max_total_chars,
        ) is None,
    ensures
        ({
            let (n, b, c) = usage(v.files.push(file), meeting_id);
            n <= max_files && b <= max_total_bytes && c <= max_total_chars
        }),
{
    let s = v.files.push(file);
    assert(s.drop_last() =~= v.files);
    assert(s.last() == file);
    if file.extracted is Some {
        lemma_stored_len(file.extracted->0);
    }
}

// ----------------------------------------------------------------------- cards

/// A card's start is stamped once: the first time it gets going, and never
/// again.
pub proof fn a_card_starts_once(
    t: TaskRow<Seq<char>>,
    status: Seq<char>,
    position: i64,
    now: Seq<char>,
)
    ensures
        t.started_at is Some ==> moved_card(t, status, position, now).started_at == t.started_at,
        moved_card(t, status, position, now).id == t.id,
        moved_card(t, status, position, now).session_id == t.session_id,
        moved_card(t, status, position, now).title == t.title,
{
}

/// A dropped card that is put back is open again, as if it had never been
/// settled.
pub proof fn a_dropped_card_can_be_restored(
    t: TaskRow<Seq<char>>,
    p: i64,
    q: i64,
    now: Seq<char>,
    later: Seq<char>,
)
    requires
        t.resolved_at is None,
        t.status == "planned"@,
        t.position == q,
    ensures
        moved_card(t, "dropped"@, p, now).resolved_at == Some(now),
        moved_card(moved_card(t, "dropped"@, p, now), "planned"@, q, later) == t,
{
    reveal_strlit("planned");
    reveal_strlit("dropped");
    reveal_strlit("doing");
    reveal_strlit("done");
    assert("planned"@.len() == 7 && "dropped"@.len() == 7 && "doing"@.len() == 5 && "done"@.len()
        == 4);
    assert("planned"@[0] == 'p' && "dropped"@[0] == 'd');
}

// ---------------------------------------------------------------------- labels

proof fn lemma_named(s: Seq<LabelRow<Seq<char>>>, name: Seq<char>)
    ensures
        match label_named(s, name) {
            Some(l) => s.contains(l) && folded(l.name) == folded(name),
            None => forall|i: int|
                0 <= i < s.len() ==> folded((#[trigger] s[i]).name) != folded(name),
        },
    decreases s.len(),
{
    if s.len() > 0 {
        let t = s.drop_first();
        if folded(s[0].name) == folded(name) {
            assert(s.contains(s[0]));
        } else {
            lemma_named(t, name);
            match label_named(t, name) {
                Some(l) => {
                    let k = choose|k: int| 0 <= k < t.len() && t[k] == l;
                    assert(s[k + 1] == l);
                },
                None => {
                    assert forall|i: int| 0 <= i < s.len() implies folded((#[trigger] s[i]).name)
                        != folded(name) by {
                        if i > 0 {
                            assert(t[i - 1] == s[i]);
                        }
                    }
                },
            }
        }
    }
}

/// A label is found again under any spelling of its name, and asking for it
/// makes no second one.
pub proof fn a_label_is_reused_whatever_its_case(v: Tables, name: Seq<char>, again: Seq<char>)
    requires
        folded(name) == folded(again),
    ensures
        with_label(with_label(v, name), again) == with_label(v, name),
        label_id(with_label(v, name), again) == label_id(v, name),
{
    let u = with_label(v, name);
    lemma_same_fold(v.labels, name, again);
    lemma_same_fold(u.labels, name, again);
    lemma_named(v.labels, name);
    if label_named(v.labels, name) is None {
        let l = LabelRow {
            id: fresh::<LabelRow>(v.labels) as i64,
            name,
            color: color_of(v.labels.len() as int),
        };
        lemma_named_push(v.labels, l, name);
    }
}

proof fn lemma_same_fold(s: Seq<LabelRow<Seq<char>>>, name: Seq<char>, again: Seq<char>)
    requires
        folded(name) == folded(again),
    ensures
        label_named(s, name) == label_named(s, again),
    decreases s.len(),
{
    if s.len() > 0 {
        lemma_same_fold(s.drop_first(), name, again);
    }
}

/// Label names stay distinct, capitals aside, when a label is asked for.
pub proof fn label_names_stay_distinct(v: Tables, name: Seq<char>)
    requires
        v.wf(),
        names_differ(v.labels),
        label_fits(v, name),
    ensures
        with_label(v, name).wf(),
        names_differ(with_label(v, name).labels),
{
    lemma_named(v.labels, name);
    if label_named(v.labels, name) is None {
        let l = LabelRow {
            id: fresh::<LabelRow>(v.labels) as i64,
            name,
            color: color_of(v.labels.len() as int),
        };
        lemma_push_reads::<LabelRow>(v.labels, l, 0);
        let t = v.labels.push(l);
        assert forall|i: int, j: int| 0 <= i < j < t.len() implies folded((#[trigger] t[i]).name)
            != folded((#[trigger] t[j]).name) by {
            if j < v.labels.len() {
                assert(folded(v.labels[i].name) != folded(v.labels[j].name));
            } else {
                assert(folded(v.labels[i].name) != folded(name));
            }
        }
    }
}

/// A deleted label is worn by no card, and the other labels of every card are
/// untouched.
pub proof fn deleting_a_label_takes_it_off_every_card(v: Tables, id: i64, task: i64, label: i64)
    ensures
        worn(without_label(v, id), task, label) <==> worn(v, task, label) && label != id,
        without_label(v, id).tasks == v.tasks,
{
    let s = v.task_labels;
    lemma_filter_has(s, not_label(id), (task, label));
}

/// A name among those given, once trimmed, is one of a label's spellings.
pub open spec fn names_it(names: Seq<Seq<char>>, l: LabelRow<Seq<char>>) -> bool {
    exists|k: int|
        0 <= k < names.len() && text::trimmed(#[trigger] names[k]).len() > 0 && folded(
            text::trimmed(names[k]),
        ) == folded(l.name)
}

/// Labels only come, they do not go; cards are untouched but for the pairs of
/// the one that is tagged.
proof fn lemma_tagged(v: Tables, id: i64, names: Seq<Seq<char>>)
    requires
        v.wf(),
        names_differ(v.labels),
        label_room(v, names),
    ensures
        ({
            let u = tagged(v, id, names);
            &&& u.wf()
            &&& names_differ(u.labels)
            &&& u.tasks == v.tasks
            &&& u == (Tables { labels: u.labels, task_labels: u.task_labels, ..v })
            &&& v.labels.len() <= u.labels.len()
            &&& u.labels.take(v.labels.len() as int) == v.labels
            &&& forall|task: i64, label: i64|
                task != id ==> (#[trigger] worn(u, task, label) <==> worn(v, task, label))
            &&& forall|i: int|
                0 <= i < u.labels.len() ==> (worn(u, id, (#[trigger] u.labels[i]).id) <==> names_it(
                    names,
                    u.labels[i],
                ) || worn(v, id, u.labels[i].id))
        }),
    decreases names.len(),
{
    if names.len() == 0 {
        assert(v.labels.take(v.labels.len() as int) =~= v.labels);
    } else {
        let rest = names.drop_last();
        assert(names.take(names.len() - 1) =~= rest);
        lemma_room_for_fewer(v, names, names.len() - 1);
        lemma_tagged(v, id, rest);
        let w = tagged(v, id, rest);
        let u = tagged(v, id, names);
        let name = text::trimmed(names.last());
        if name.len() == 0 {
            assert forall|l: LabelRow<Seq<char>>| #[trigger] names_it(names, l) <==> names_it(
                rest,
                l,
            ) by {
                lemma_names_it_step(names, l);
            }
        } else {
            let x = with_label(w, name);
            let lid = label_id(w, name);
            lemma_next_name_fits(v, id, names);
            label_names_stay_distinct(w, name);
            lemma_named(w.labels, name);
            assert(x.labels.take(v.labels.len() as int) =~= w.labels.take(v.labels.len() as int));
            assert(u.labels == x.labels);
            // Which label the name stands for.
            let at = if label_named(w.labels, name) is Some {
                choose|k: int|
                    0 <= k < w.labels.len() && w.labels[k] == label_named(w.labels, name)->0
            } else {
                w.labels.len() as int
            };
            assert(0 <= at < x.labels.len() && x.labels[at].id == lid && folded(x.labels[at].name)
                == folded(name));
            assert forall|task: i64, label: i64| #[trigger] worn(u, task, label) <==> worn(
                w,
                task,
                label,
            ) || (task == id && label == lid) by {
                if !worn(x, id, lid) {
                    lemma_contains_push(x.task_labels, (id, lid), (task, label));
                }
            }
            assert forall|i: int| 0 <= i < u.labels.len() implies (worn(
                u,
                id,
                (#[trigger] u.labels[i]).id,
            ) <==> names_it(names, u.labels[i]) || worn(v, id, u.labels[i].id)) by {
                let l = u.labels[i];
                lemma_names_it_step(names, l);
                if i != at {
                    assert(folded(x.labels[i].name) != folded(x.labels[at].name));
                    assert(<LabelRow as Keyed>::key(x.labels[i]) != <LabelRow as Keyed>::key(
                        x.labels[at],
                    ));
                }
                if i < w.labels.len() {
                    assert(w.labels[i] == l);
                } else {
                    // A label made just now was worn by nothing.
                    assert(i == at);
                }
            }
        }
    }
}

proof fn lemma_contains_push<A>(s: Seq<A>, x: A, y: A)
    ensures
        s.push(x).contains(y) <==> s.contains(y) || x == y,
{
    if s.contains(y) {
        let k = choose|k: int| 0 <= k < s.len() && s[k] == y;
        assert(s.push(x)[k] == y);
    }
    if x == y {
        assert(s.push(x)[s.len() as int] == y);
    }
    if s.push(x).contains(y) && x != y {
        let k = choose|k: int| 0 <= k < s.push(x).len() && s.push(x)[k] == y;
        assert(s[k] == y);
    }
}

proof fn lemma_names_it_step(names: Seq<Seq<char>>, l: LabelRow<Seq<char>>)
    requires
        names.len() > 0,
    ensures
        names_it(names, l) <==> names_it(names.drop_last(), l) || (text::trimmed(
            names.last(),
        ).len() > 0 && folded(text::trimmed(names.last())) == folded(l.name)),
{
    let rest = names.drop_last();
    if names_it(rest, l) {
        let k = choose|k: int|
            0 <= k < rest.len() && text::trimmed(#[trigger] rest[k]).len() > 0 && folded(
                text::trimmed(rest[k]),
            ) == folded(l.name);
        assert(names[k] == rest[k]);
    }
    if names_it(names, l) {
        let k = choose|k: int|
            0 <= k < names.len() && text::trimmed(#[trigger] names[k]).len() > 0 && folded(
                text::trimmed(names[k]),
            ) == folded(l.name);
        if k < rest.len() {
            assert(rest[k] == names[k]);
        }
    }
}

/// A card that was written wears exactly the labels it was given, whatever
/// their case; it has the text it was given; no label was deleted; and no other
/// card lost or gained a label.
pub proof fn a_card_wears_what_it_was_given(
    v: Tables,
    id: i64,
    title: Seq<char>,
    notes: Seq<char>,
    due_date: Option<Seq<char>>,
    names: Seq<Seq<char>>,
)
    requires
        v.wf(),
        names_differ(v.labels),
        label_room(v, names),
        row_at::<TaskRow>(v.tasks, id) is Some,
    ensures
        ({
            let u = detailed(v, id, title, notes, due_date, names);
            let t = row_at::<TaskRow>(u.tasks, id);
            &&& u.wf()
            &&& names_differ(u.labels)
            &&& t is Some
            &&& t->0.title == title
            &&& t->0.notes == notes
            &&& t->0.due_date == due_date
            &&& t->0.status == row_at::<TaskRow>(v.tasks, id)->0.status
            &&& t->0.position == row_at::<TaskRow>(v.tasks, id)->0.position
            &&& v.labels.len() <= u.labels.len()
            &&& u.labels.take(v.labels.len() as int) == v.labels
            &&& forall|i: int|
                0 <= i < u.labels.len() ==> (worn(u, id, (#[trigger] u.labels[i]).id) <==> names_it(
                    names,
                    u.labels[i],
                ))
            &&& forall|task: i64, label: i64|
                task != id ==> (#[trigger] worn(u, task, label) <==> worn(v, task, label))
        }),
{
    let row = row_at::<TaskRow>(v.tasks, id)->0;
    let k = table::lemma_row_found::<TaskRow>(v.tasks, id);
    let edited = TaskRow { title, notes, due_date, ..row };
    let bare = Tables {
        tasks: put::<TaskRow>(v.tasks, id, edited),
        task_labels: v.task_labels.filter(not_task(id)),
        ..v
    };
    lemma_put_ascending::<TaskRow>(v.tasks, id, edited);
    lemma_put_reads::<TaskRow>(v.tasks, id, edited, id);
    lemma_tagged(bare, id, names);
    let u = detailed(v, id, title, notes, due_date, names);
    assert forall|task: i64, label: i64| #[trigger] worn(bare, task, label) <==> worn(
        v,
        task,
        label,
    ) && task != id by {
        lemma_filter_has(v.task_labels, not_task(id), (task, label));
    }
    assert forall|task: i64, label: i64| task != id implies (#[trigger] worn(u, task, label)
        <==> worn(v, task, label)) by {
        assert(worn(bare, task, label) <==> worn(v, task, label));
    }
    assert forall|i: int| 0 <= i < u.labels.len() implies (worn(u, id, (#[trigger] u.labels[i]).id)
        <==> names_it(names, u.labels[i])) by {
        assert(!worn(bare, id, u.labels[i].id));
    }
}

// ---------------------------------------------------------------- the sessions

/// A heartbeat closes no session and revives none, and touches nothing but the
/// stamp of a session that is open.
pub proof fn a_heartbeat_revives_nothing(v: Tables, id: i64, now: Seq<char>, other: i64)
    requires
        v.wf(),
    ensures
        ({
            let u = after_heartbeat(v, id, now);
            &&& open_in(u, other) == open_in(v, other)
            &&& other != id || !open_in(v, id) ==> row_at::<SessionRow>(u.sessions, other)
                == row_at::<SessionRow>(v.sessions, other)
            &&& u == (Tables { sessions: u.sessions, ..v })
        }),
{
    if let Some(s) = row_at::<SessionRow>(v.sessions, id) {
        let i = table::lemma_row_found::<SessionRow>(v.sessions, id);
        assert(v.sessions[i] == s);
        let row = SessionRow { last_heartbeat: Some(now), ..s };
        lemma_put_reads::<SessionRow>(v.sessions, id, row, other);
    }
    let u = after_heartbeat(v, id, now);
    assert(u =~= (Tables { sessions: u.sessions, ..v }));
}

/// A checkpoint that is set, put off or cleared neither closes its session nor
/// moves anything else of it.
pub proof fn a_checkpoint_closes_nothing(v: Tables, id: i64, at: Option<Seq<char>>, other: i64)
    requires
        v.wf(),
    ensures
        ({
            let u = with_checkpoint(v, id, at);
            &&& open_in(u, other) == open_in(v, other)
            &&& match row_at::<SessionRow>(v.sessions, other) {
                None => row_at::<SessionRow>(u.sessions, other) is None,
                Some(s) => row_at::<SessionRow>(u.sessions, other) == Some(
                    SessionRow {
                        checkpoint_due_at: if other == id {
                            at
                        } else {
                            s.checkpoint_due_at
                        },
                        ..s
                    },
                ),
            }
        }),
{
    if let Some(s) = row_at::<SessionRow>(v.sessions, id) {
        let i = table::lemma_row_found::<SessionRow>(v.sessions, id);
        assert(v.sessions[i] == s);
        let row = SessionRow { checkpoint_due_at: at, ..s };
        lemma_put_reads::<SessionRow>(v.sessions, id, row, other);
    }
}

} // verus!
