//! What is promised of the sessions, their checkpoints and what was said of
//! them.

use vstd::prelude::*;

use crate::analyses::after_seen;
use crate::analyses::date_slot;
use crate::analyses::new_row;
use crate::analyses::newest_of;
use crate::analyses::of_session;
use crate::analyses::pending_of;
use crate::analyses::recent;
use crate::analyses::shown;
use crate::analyses::is_unseen;
use crate::analyses::NewAnalysis;
use crate::analysis::unreadable_time;
use crate::analysis::check_row;
use crate::analysis::checkpoint_row;
use crate::analysis::minutes_from;
use crate::analysis::nothing_seen;
use crate::analysis::previous_of;
use crate::analysis::summary_or_nothing;
use crate::analysis::time_spent;
use crate::analysis::window_start_of;
use crate::analysis::with_checkpoint_row;
use crate::analysis::Prepared;
use crate::analysis::Verdict;
use crate::analysis::MIN_ACTIVE_MS;
use crate::board::str_view;
use crate::claude::AnalysisResult;
use crate::db::after_heartbeat;
use crate::db::counted;
use crate::db::due;
use crate::db::limited;
use crate::db::newest_open;
use crate::db::newest_sessions;
use crate::db::open_in;
use crate::db::open_session;
use crate::db::session_with;
use crate::db::setting;
use crate::db::setting_in;
use crate::db::shown_session;
use crate::db::store_at;
use crate::db::version;
use crate::db::with_checkpoint;
use crate::models::Analysis;
use crate::observed::summarized;
use crate::observed::Events;
use crate::paths;
use crate::recommendations;
use crate::recommendations::Recommendation;
use crate::rows::AnalysisRow;
use crate::rows::SessionRow;
use crate::rows::Setting;
use crate::rows::Tables;
use crate::rows::TaskRow;
use crate::sort::Ranked;
use crate::state::adopted;
use crate::state::adopted_after;
use crate::state::booted;
use crate::state::booted_session;
use crate::state::line_beginning;
use crate::state::line_len;
use crate::state::named_session;
use crate::table;
use crate::table::ascending;
use crate::table::at_home;
use crate::table::fresh;
use crate::table::in_order;
use crate::table::is_home;
use crate::table::row_at;
use crate::table::text_order;
use crate::table::TextSlot;
use crate::text;
use crate::text::opt_view;
use crate::time;
use crate::time::instant_of;
use crate::time::Stamp;

verus! {

broadcast use vstd::seq_lib::group_seq_properties;

// ----------------------------------------------------------------- the sessions

/// A session takes writes as long as it has neither an end nor a reason for
/// one.
pub proof fn an_open_session_has_no_end(v: Tables, id: i64)
    ensures
        open_in(v, id) <==> (row_at::<SessionRow>(v.sessions, id) matches Some(s) && s.ended_at
            is None && s.close_reason is None),
{
}

/// The open session is the last one that has no end.
pub proof fn the_newest_open_session_counts(v: Tables, k: int)
    requires
        -1 <= k < v.sessions.len(),
        forall|i: int|
            k < i < v.sessions.len() ==> (#[trigger] v.sessions[i]).ended_at is Some
                || v.sessions[i].close_reason is Some,
    ensures
        k == -1 ==> newest_open(v.sessions) is None && open_session(v) is None,
        k >= 0 && v.sessions[k].ended_at is None && v.sessions[k].close_reason is None
            ==> newest_open(v.sessions) == Some(v.sessions[k]) && open_session(v) == Some(
            shown_session(v, v.sessions[k]),
        ),
{
    lemma_newest_open(v.sessions, k);
}

proof fn lemma_newest_open(s: Seq<SessionRow<Seq<char>>>, k: int)
    requires
        -1 <= k < s.len(),
        forall|i: int|
            k < i < s.len() ==> (#[trigger] s[i]).ended_at is Some || s[i].close_reason is Some,
    ensures
        k == -1 ==> newest_open(s) is None,
        k >= 0 && s[k].ended_at is None && s[k].close_reason is None ==> newest_open(s) == Some(
            s[k],
        ),
    decreases s.len(),
{
    if s.len() > 0 && k < s.len() - 1 {
        let r = s.drop_last();
        assert(s[s.len() - 1].ended_at is Some || s[s.len() - 1].close_reason is Some);
        assert forall|i: int| k < i < r.len() implies (#[trigger] r[i]).ended_at is Some
            || r[i].close_reason is Some by {
            assert(r[i] == s[i]);
        }
        lemma_newest_open(r, k);
        if k >= 0 {
            assert(r[k] == s[k]);
        }
    }
}

/// A session is shown as it is stored, with the number of its cards and the
/// title of the one at the lowest position.
pub proof fn a_session_is_shown_as_stored(v: Tables, s: SessionRow<Seq<char>>, k: int)
    requires
        ascending::<TaskRow>(v.tasks),
    ensures
        ({
            let x = shown_session(v, s);
            &&& x.id == s.id
            &&& x.started_at == s.started_at
            &&& x.ended_at == s.ended_at
            &&& x.close_reason == s.close_reason
            &&& x.statement == s.statement
            &&& x.intended_minutes == s.intended_minutes
            &&& x.checkpoint_due_at == s.checkpoint_due_at
            &&& 0 <= k < v.tasks.len() && v.tasks[k].session_id == Some(s.id) && (forall|i: int|
                0 <= i < v.tasks.len() && i != k && (#[trigger] v.tasks[i]).session_id == Some(s.id)
                    ==> v.tasks[k].position < v.tasks[i].position) ==> x.first_task == Some(
                v.tasks[k].title,
            )
            &&& (forall|i: int|
                0 <= i < v.tasks.len() ==> (#[trigger] v.tasks[i]).session_id != Some(s.id))
                ==> x.first_task is None && x.task_count == 0
            &&& v.tasks.len() <= i64::MAX ==> x.task_count == v.tasks.filter(
                |t: TaskRow<Seq<char>>| t.session_id == Some(s.id),
            ).len()
        }),
{
    let home = Some(s.id);
    let o = in_order::<TaskRow>(v.tasks, home);
    table::a_home_is_listed_by_position::<TaskRow>(v.tasks, home);
    let of_it = |t: TaskRow<Seq<char>>| t.session_id == Some(s.id);
    assert(is_home::<TaskRow>(home) =~= of_it);
    lemma_filter_len(v.tasks, of_it);
    if 0 <= k < v.tasks.len() && v.tasks[k].session_id == home && (forall|i: int|
        0 <= i < v.tasks.len() && i != k && (#[trigger] v.tasks[i]).session_id == Some(s.id)
            ==> v.tasks[k].position < v.tasks[i].position) {
        assert(<TaskRow as table::Placed>::home(v.tasks[k]) == home);
        assert(o.contains(v.tasks[k]));
        let p = choose|p: int| 0 <= p < o.len() && o[p] == v.tasks[k];
        assert(v.tasks.contains(o[0]));
        let i = choose|i: int| 0 <= i < v.tasks.len() && v.tasks[i] == o[0];
        if p > 0 {
            assert(o[0].position < o[p].position || (o[0].position == o[p].position && o[0].id
                < o[p].id));
            assert(v.tasks[i].session_id == home);
            assert(i != k);
        }
    }
    if forall|i: int|
        0 <= i < v.tasks.len() ==> (#[trigger] v.tasks[i]).session_id != Some(s.id) {
        if o.len() > 0 {
            assert(v.tasks.contains(o[0]));
            let i = choose|i: int| 0 <= i < v.tasks.len() && v.tasks[i] == o[0];
            assert(v.tasks[i].session_id != home);
        }
        let f = v.tasks.filter(of_it);
        if f.len() > 0 {
            assert(f.contains(f[0]));
            v.tasks.lemma_filter_contains_rev(of_it, f[0]);
            lemma_filter_holds(v.tasks, of_it, 0);
            let i = choose|i: int| 0 <= i < v.tasks.len() && v.tasks[i] == f[0];
            assert(v.tasks[i].session_id != home);
        }
    }
}

proof fn lemma_filter_len<T>(s: Seq<T>, keep: spec_fn(T) -> bool)
    ensures
        s.filter(keep).len() <= s.len(),
    decreases s.len(),
{
    reveal(Seq::filter);
    if s.len() > 0 {
        lemma_filter_len(s.drop_last(), keep);
    }
}

proof fn lemma_filter_holds<T>(s: Seq<T>, keep: spec_fn(T) -> bool, i: int)
    requires
        0 <= i < s.filter(keep).len(),
    ensures
        keep(s.filter(keep)[i]),
    decreases s.len(),
{
    reveal(Seq::filter);
    if s.len() > 0 {
        let f = s.drop_last().filter(keep);
        if i < f.len() {
            lemma_filter_holds(s.drop_last(), keep, i);
        }
    }
}

/// The sessions are listed newest first, as many as are asked for, and all of
/// them where the number asked for is negative.
pub proof fn sessions_are_listed_newest_first(v: Tables, limit: i64, i: int)
    ensures
        newest_sessions(v, limit).len() == if 0 <= limit < v.sessions.len() {
            limit as nat
        } else {
            v.sessions.len()
        },
        0 <= i < newest_sessions(v, limit).len() ==> newest_sessions(v, limit)[i] == shown_session(
            v,
            v.sessions[v.sessions.len() - 1 - i],
        ),
{
}

/// A session is found by its id.
pub proof fn a_session_is_found_by_its_id(v: Tables, i: int, id: i64)
    requires
        v.wf(),
    ensures
        0 <= i < v.sessions.len() ==> session_with(v, v.sessions[i].id) == Some(
            shown_session(v, v.sessions[i]),
        ),
        (forall|j: int| 0 <= j < v.sessions.len() ==> (#[trigger] v.sessions[j]).id != id)
            ==> session_with(v, id) is None && !open_in(v, id),
{
    if 0 <= i < v.sessions.len() {
        table::lemma_row_at::<SessionRow>(v.sessions, i);
    }
    if forall|j: int| 0 <= j < v.sessions.len() ==> (#[trigger] v.sessions[j]).id != id {
        table::lemma_row_missing::<SessionRow>(v.sessions, id);
    }
}

/// A heartbeat is stamped on its session where that is open.
pub proof fn a_heartbeat_is_stamped(v: Tables, id: i64, now: Seq<char>)
    requires
        v.wf(),
        open_in(v, id),
    ensures
        row_at::<SessionRow>(after_heartbeat(v, id, now).sessions, id) == Some(
            SessionRow {
                last_heartbeat: Some(now),
                ..row_at::<SessionRow>(v.sessions, id)->0
            },
        ),
{
    let s = row_at::<SessionRow>(v.sessions, id)->0;
    let i = table::lemma_row_found::<SessionRow>(v.sessions, id);
    table::lemma_put_reads::<SessionRow>(
        v.sessions,
        id,
        SessionRow { last_heartbeat: Some(now), ..s },
        id,
    );
}

/// A checkpoint is due from its time on, for an open session, and never where
/// none is set.
pub proof fn a_checkpoint_is_due_from_its_time_on(
    v: Tables,
    id: i64,
    at: Seq<char>,
    now: Seq<char>,
)
    requires
        v.wf(),
        open_in(v, id),
    ensures
        due(with_checkpoint(v, id, Some(at)), id, now) <==> at == now || text::before(at, now),
        !due(with_checkpoint(v, id, None), id, now),
{
    let s = row_at::<SessionRow>(v.sessions, id)->0;
    let i = table::lemma_row_found::<SessionRow>(v.sessions, id);
    table::lemma_put_reads::<SessionRow>(
        v.sessions,
        id,
        SessionRow { checkpoint_due_at: Some(at), ..s },
        id,
    );
    table::lemma_put_reads::<SessionRow>(
        v.sessions,
        id,
        SessionRow { checkpoint_due_at: None, ..s },
        id,
    );
    text::lemma_before_total(at, now);
    text::lemma_before_irreflexive(at);
    if text::before(at, now) && text::before(now, at) {
        text::lemma_before_transitive(at, now, at);
    }
}

/// A closed session has no checkpoint due, and neither has a missing one.
pub proof fn a_closed_session_has_none_due(v: Tables, id: i64, now: Seq<char>)
    requires
        !open_in(v, id),
    ensures
        !due(v, id, now),
{
}

/// The value of a setting is that of the first row with its key.
pub proof fn the_first_setting_counts(v: Tables, key: Seq<char>, k: int)
    requires
        0 <= k <= v.settings.len(),
        forall|i: int| 0 <= i < k ==> (#[trigger] v.settings[i]).key != key,
    ensures
        k == v.settings.len() ==> setting(v, key) is None,
        k < v.settings.len() && v.settings[k].key == key ==> setting(v, key) == Some(
            v.settings[k].value,
        ),
{
    lemma_setting(v.settings, key, k);
}

proof fn lemma_setting(s: Seq<Setting<Seq<char>>>, key: Seq<char>, k: int)
    requires
        0 <= k <= s.len(),
        forall|i: int| 0 <= i < k ==> (#[trigger] s[i]).key != key,
    ensures
        k == s.len() ==> setting_in(s, key) is None,
        k < s.len() && s[k].key == key ==> setting_in(s, key) == Some(s[k].value),
    decreases k,
{
    if k > 0 {
        let rest = s.drop_first();
        assert(s[0].key != key);
        assert forall|i: int| 0 <= i < k - 1 implies (#[trigger] rest[i]).key != key by {
            assert(rest[i] == s[i + 1]);
        }
        lemma_setting(rest, key, k - 1);
    }
}

/// The version of a store is the number under `schema_version`.
pub proof fn the_version_is_the_number_stored(v: Tables, n: nat)
    ensures
        n <= i64::MAX && setting(v, "schema_version"@) == Some(text::digits(n)) ==> version(v)
            == Some(n as i64),
        setting(v, "schema_version"@) is None ==> version(v) is None,
        crate::db::SCHEMA_VERSION == 8,
{
    crate::laws_text::a_number_is_read_back(n, seq![], 0);
}

/// The store is where the environment says, or under the home directory.
pub proof fn the_store_is_where_it_is_said_to_be(p: Seq<char>, home: Seq<char>)
    ensures
        store_at(Some(p), home) == p,
        store_at(None, home) == paths::under(home, ".local/share/intentionality/store.db"@),
{
}

/// A number of rows is itself, as far as it fits.
pub proof fn a_count_is_the_number(n: nat)
    ensures
        n <= i64::MAX ==> counted(n) == n,
        n > i64::MAX ==> counted(n) == i64::MAX,
{
}

// ----------------------------------------------------------------- the analyses

/// The newest analysis of a session is the last one that is of it: where the
/// next window begins, and what the look before said.
pub proof fn the_newest_analysis_counts(v: Tables, id: i64, started_at: Seq<char>, k: int)
    requires
        -1 <= k < v.analyses.len(),
        forall|i: int| k < i < v.analyses.len() ==> (#[trigger] v.analyses[i]).session_id != id,
    ensures
        k == -1 ==> newest_of(v.analyses, id) is None && window_start_of(v, id, started_at)
            == started_at && previous_of(v, id) is None,
        k >= 0 && v.analyses[k].session_id == id ==> newest_of(v.analyses, id) == Some(
            v.analyses[k],
        ) && window_start_of(v, id, started_at) == v.analyses[k].window_end && previous_of(v, id)
            == Some((v.analyses[k].headline, v.analyses[k].alignment)),
{
    lemma_newest_of(v.analyses, id, k);
}

proof fn lemma_newest_of(s: Seq<AnalysisRow<Seq<char>>>, id: i64, k: int)
    requires
        -1 <= k < s.len(),
        forall|i: int| k < i < s.len() ==> (#[trigger] s[i]).session_id != id,
    ensures
        k == -1 ==> newest_of(s, id) is None,
        k >= 0 && s[k].session_id == id ==> newest_of(s, id) == Some(s[k]),
    decreases s.len(),
{
    if s.len() > 0 && k < s.len() - 1 {
        let r = s.drop_last();
        assert(s[s.len() - 1].session_id != id);
        assert forall|i: int| k < i < r.len() implies (#[trigger] r[i]).session_id != id by {
            assert(r[i] == s[i]);
        }
        lemma_newest_of(r, id, k);
        if k >= 0 {
            assert(r[k] == s[k]);
        }
    }
}

/// A row waits to be acknowledged: a checkpoint of the session that nobody has
/// seen.
pub open spec fn waits(a: AnalysisRow<Seq<char>>, id: i64) -> bool {
    a.session_id == id && a.kind == "checkpoint"@ && a.seen_at is None
}

/// The checkpoint to be acknowledged is the last one of the session that
/// nobody has seen.
pub proof fn the_newest_unseen_checkpoint_waits(s: Seq<AnalysisRow<Seq<char>>>, id: i64, k: int)
    requires
        -1 <= k < s.len(),
        forall|i: int| k < i < s.len() ==> !waits(#[trigger] s[i], id),
    ensures
        k == -1 ==> pending_of(s, id) is None,
        k >= 0 && waits(s[k], id) ==> pending_of(s, id) == Some(s[k]),
    decreases s.len(),
{
    if s.len() > 0 && k < s.len() - 1 {
        let r = s.drop_last();
        assert(!waits(s[s.len() - 1], id));
        assert forall|i: int| k < i < r.len() implies !waits(#[trigger] r[i], id) by {
            assert(r[i] == s[i]);
        }
        the_newest_unseen_checkpoint_waits(r, id, k);
        if k >= 0 {
            assert(r[k] == s[k]);
        }
    }
}

/// An analysis is shown as it is stored, with what its session was for.
pub open spec fn shows(
    v: Tables,
    a: AnalysisRow<Seq<char>>,
    x: Analysis<Seq<char>, Recommendation<Seq<char>>>,
) -> bool {
    &&& x.id == a.id
    &&& x.session_id == a.session_id
    &&& x.created_at == a.created_at
    &&& x.window_start == a.window_start
    &&& x.window_end == a.window_end
    &&& x.headline == a.headline
    &&& x.alignment == a.alignment
    &&& x.body == a.body
    &&& x.seen_at == a.seen_at
    &&& x.kind == a.kind
    &&& x.recommendation_note == a.recommendation_note
    &&& match row_at::<SessionRow>(v.sessions, a.session_id) {
        Some(s) => x.session_statement == Some(s.statement),
        None => x.session_statement is None,
    }
    &&& match a.recommendation_id {
        Some(id) => x.recommendation == recommendations::known(id),
        None => x.recommendation is None,
    }
}

/// The analyses of a session are all those of it, the newest first.
pub proof fn analyses_are_listed_newest_first(
    v: Tables,
    a: AnalysisRow<Seq<char>>,
    s: Seq<AnalysisRow<Seq<char>>>,
    id: i64,
)
    ensures
        of_session(v, Seq::empty(), id) == Seq::<
            Analysis<Seq<char>, Recommendation<Seq<char>>>,
        >::empty(),
        a.session_id != id ==> of_session(v, s.push(a), id) == of_session(v, s, id),
        a.session_id == id ==> of_session(v, s.push(a), id).len() == of_session(v, s, id).len() + 1
            && shows(v, a, of_session(v, s.push(a), id)[0]) && of_session(
            v,
            s.push(a),
            id,
        ).drop_first() == of_session(v, s, id),
    decreases s.len(),
{
    if s.len() == 0 {
        assert(s.push(a).drop_first() =~= s);
        assert(s.push(a)[0] == a);
        assert(s =~= seq![]);
        assert(of_session(v, s, id) =~= seq![]);
        if a.session_id == id {
            assert(of_session(v, s.push(a), id) =~= seq![shown(v, a)]);
            assert(of_session(v, s, id) =~= of_session(v, s.push(a), id).drop_first());
        }
    } else {
        let d = s.drop_first();
        analyses_are_listed_newest_first(v, a, d, id);
        assert(s.push(a).drop_first() =~= d.push(a));
        assert(s.push(a)[0] == s[0]);
        if a.session_id == id {
            let (x, y) = (of_session(v, d.push(a), id), of_session(v, d, id));
            if s[0].session_id == id {
                assert(x.push(shown(v, s[0])).drop_first() =~= y.push(shown(v, s[0])));
            }
        }
    }
}

/// The newest analyses of all sessions are listed by the time they were made,
/// the latest first and of the same time the last written, as many as are asked
/// for; none that is left out was made later than one that is listed.
pub proof fn recent_analyses_are_the_latest(v: Tables, limit: i64)
    requires
        ascending::<AnalysisRow>(v.analyses),
    ensures
        recent(v, limit).len() == if 0 <= limit < v.analyses.len() {
            limit as nat
        } else {
            v.analyses.len()
        },
        forall|k: int|
            0 <= k < recent(v, limit).len() ==> stored(v, #[trigger] recent(v, limit)[k]),
        forall|i: int, j: int|
            0 <= i < j < recent(v, limit).len() ==> !text::before(
                (#[trigger] recent(v, limit)[i]).created_at,
                (#[trigger] recent(v, limit)[j]).created_at,
            ),
        forall|i: int, j: int|
            0 <= i < j < recent(v, limit).len() && (#[trigger] recent(v, limit)[i]).created_at == (
            #[trigger] recent(v, limit)[j]).created_at ==> recent(v, limit)[i].id >= recent(
                v,
                limit,
            )[j].id,
        forall|k: int, n: int|
            0 <= k < recent(v, limit).len() && 0 <= n < v.analyses.len() && text::before(
                (#[trigger] recent(v, limit)[k]).created_at,
                (#[trigger] v.analyses[n]).created_at,
            ) ==> listed(v, limit, v.analyses[n].id),
{
    broadcast use vstd::seq_lib::group_to_multiset_ensures;

    let keys = v.analyses.map_values(date_slot());
    let o = keys.sort_by(text_order());
    TextSlot::total();
    keys.lemma_sort_by_ensures(text_order());
    assert(keys.to_multiset().len() == o.to_multiset().len());
    assert(keys.len() == o.len());
    let d = o.reverse();
    let r = limited(d, limit);
    let x = recent(v, limit);
    assert(x.len() == r.len());
    assert forall|k: int| 0 <= k < d.len() implies dated(v, #[trigger] d[k]) by {
        let q = d[k];
        assert(o.contains(o[o.len() - 1 - k]));
        assert(o.to_multiset().count(q) > 0);
        assert(keys.contains(q));
        let n = choose|n: int| 0 <= n < keys.len() && keys[n] == q;
        assert(v.analyses[n].id == q.1);
    }
    assert forall|k: int| 0 <= k < x.len() implies stored(v, #[trigger] x[k]) && x[k].created_at
        == r[k].0 && x[k].id == r[k].1 by {
        assert(r[k] == d[k]);
        assert(dated(v, d[k]));
        let n = choose|n: int|
            0 <= n < v.analyses.len() && (#[trigger] v.analyses[n]).created_at == d[k].0
                && v.analyses[n].id == d[k].1;
        table::lemma_row_at::<AnalysisRow>(v.analyses, n);
        assert(shows(v, v.analyses[n], x[k]));
    }
    assert forall|i: int, j: int| 0 <= i < j < x.len() implies !text::before(
        (#[trigger] x[i]).created_at,
        (#[trigger] x[j]).created_at,
    ) by {
        lemma_later_first(o, o.len() - 1 - j, o.len() - 1 - i);
    }
    assert forall|i: int, j: int|
        0 <= i < j < x.len() && (#[trigger] x[i]).created_at == (
        #[trigger] x[j]).created_at implies x[i].id >= x[j].id by {
        text::lemma_before_irreflexive(x[i].created_at);
        assert(text_order()(o[o.len() - 1 - j], o[o.len() - 1 - i]));
    }
    assert forall|k: int, n: int|
        0 <= k < x.len() && 0 <= n < v.analyses.len() && text::before(
            (#[trigger] x[k]).created_at,
            (#[trigger] v.analyses[n]).created_at,
        ) implies listed(v, limit, v.analyses[n].id) by {
        let q = keys[n];
        assert(keys.contains(q));
        assert(keys.to_multiset().count(q) > 0);
        assert(o.contains(q));
        let m = choose|m: int| 0 <= m < o.len() && o[m] == q;
        let p = o.len() - 1 - m;
        assert(d[p] == q);
        if p > k {
            lemma_later_first(o, m, o.len() - 1 - k);
        }
        assert(p <= k);
        assert(x[p].id == q.1);
    }
}

/// Some analysis was made at a time and has an id.
spec fn dated(v: Tables, k: (Seq<char>, i64)) -> bool {
    exists|n: int|
        0 <= n < v.analyses.len() && (#[trigger] v.analyses[n]).created_at == k.0
            && v.analyses[n].id == k.1
}

proof fn lemma_later_first(o: Seq<(Seq<char>, i64)>, i: int, j: int)
    requires
        0 <= i < j < o.len(),
        vstd::relations::sorted_by(o, text_order()),
    ensures
        !text::before(o[j].0, o[i].0),
{
    assert(text_order()(o[i], o[j]));
    text::lemma_before_irreflexive(o[i].0);
    if text::before(o[i].0, o[j].0) && text::before(o[j].0, o[i].0) {
        text::lemma_before_transitive(o[i].0, o[j].0, o[i].0);
    }
}

/// A listed analysis is one that is stored.
pub open spec fn stored(v: Tables, x: Analysis<Seq<char>, Recommendation<Seq<char>>>) -> bool {
    exists|n: int| 0 <= n < v.analyses.len() && shows(v, #[trigger] v.analyses[n], x)
}

/// The analysis with an id is among the newest.
pub open spec fn listed(v: Tables, limit: i64, id: i64) -> bool {
    exists|k: int| 0 <= k < recent(v, limit).len() && (#[trigger] recent(v, limit)[k]).id == id
}

/// An analysis that was seen has the time at which it was seen first; no other
/// is touched, and nothing else of it.
pub proof fn an_analysis_is_seen_once(v: Tables, id: i64, now: Seq<char>, other: i64)
    requires
        v.wf(),
    ensures
        ({
            let u = after_seen(v, id, now);
            let (was, is) = (
                row_at::<AnalysisRow>(v.analyses, other),
                row_at::<AnalysisRow>(u.analyses, other),
            );
            &&& u == (Tables { analyses: u.analyses, ..v })
            &&& u.analyses.len() == v.analyses.len()
            &&& other != id ==> is == was
            &&& was is None ==> is is None
            &&& other == id && was is Some ==> is == Some(
                AnalysisRow {
                    seen_at: match was->0.seen_at {
                        Some(at) => Some(at),
                        None => Some(now),
                    },
                    ..was->0
                },
            )
        }),
{
    if let Some(a) = row_at::<AnalysisRow>(v.analyses, id) {
        let i = table::lemma_row_found::<AnalysisRow>(v.analyses, id);
        table::lemma_put_reads::<AnalysisRow>(
            v.analyses,
            id,
            AnalysisRow { seen_at: Some(now), ..a },
            other,
        );
    }
}

/// What counts as unseen.
pub proof fn unseen_is_without_a_time(id: i64, a: AnalysisRow<Seq<char>>)
    ensures
        is_unseen(id)(a) <==> a.session_id == id && a.seen_at is None,
{
}

/// A new analysis holds what it was given, and nobody has seen it.
pub proof fn a_new_analysis_holds_what_it_was_given(id: i64, a: NewAnalysis, now: Seq<char>)
    ensures
        ({
            let r = new_row(id, a, now);
            &&& r.id == id
            &&& r.session_id == a.session_id
            &&& r.created_at == now
            &&& r.window_start == a.window_start@
            &&& r.window_end == a.window_end@
            &&& r.headline == a.headline@
            &&& r.alignment == a.alignment
            &&& r.body == a.body@
            &&& r.observed_json == a.observed_json@
            &&& r.kind == a.kind@
            &&& r.recommendation_id == str_view(a.recommendation_id)
            &&& r.recommendation_note == str_view(a.recommendation_note)
            &&& r.seen_at is None
        }),
{
}

/// A check is written down over the window it judged, without a
/// recommendation; the next window begins where it ended.
pub proof fn a_check_is_written_down(
    v: Tables,
    id: i64,
    session_id: i64,
    p: Prepared,
    a: AnalysisResult,
    observed_json: Seq<char>,
    now: Seq<char>,
    started_at: Seq<char>,
)
    ensures
        ({
            let r = check_row(id, session_id, p, a, observed_json, now);
            let u = Tables { analyses: v.analyses.push(r), ..v };
            &&& r.id == id && r.session_id == session_id && r.created_at == now
            &&& r.window_start == p.window_start@ && r.window_end == p.window_end@
            &&& r.headline == a.headline@ && r.alignment == a.alignment && r.body == a.body@
            &&& r.observed_json == observed_json && r.kind == "check"@
            &&& r.recommendation_id is None && r.recommendation_note is None && r.seen_at is None
            &&& window_start_of(u, session_id, started_at) == p.window_end@
            &&& previous_of(u, session_id) == Some((a.headline@, a.alignment))
        }),
{
    let r = check_row(id, session_id, p, a, observed_json, now);
    let u = v.analyses.push(r);
    lemma_newest_of(u, session_id, u.len() - 1);
}

/// A checkpoint is written down with its recommendation, and waits to be
/// acknowledged.
pub proof fn a_checkpoint_is_written_down(
    t: Tables,
    id: i64,
    session_id: i64,
    p: Prepared,
    v: Verdict,
    observed_json: Seq<char>,
    now: Seq<char>,
    started_at: Seq<char>,
)
    ensures
        ({
            let r = checkpoint_row(id, session_id, p, v, observed_json, now);
            let u = with_checkpoint_row(t, r);
            &&& r.id == id && r.session_id == session_id && r.created_at == now
            &&& r.window_start == p.window_start@ && r.window_end == p.window_end@
            &&& r.headline == v.headline@ && r.alignment == v.alignment && r.body == v.body@
            &&& r.observed_json == observed_json && r.kind == "checkpoint"@
            &&& r.recommendation_id == Some(v.recommendation.id@) && r.recommendation_note
                == opt_view(v.note) && r.seen_at is None
            &&& u.analyses == t.analyses.push(r)
            &&& pending_of(u.analyses, session_id) == Some(r)
            &&& window_start_of(u, session_id, started_at) == p.window_end@
            &&& previous_of(u, session_id) == Some((v.headline@, v.alignment))
        }),
{
    let r = checkpoint_row(id, session_id, p, v, observed_json, now);
    let u = t.analyses.push(r);
    lemma_newest_of(u, session_id, u.len() - 1);
    the_newest_unseen_checkpoint_waits(u, session_id, u.len() - 1);
}

/// Whole minutes between two instants: as many as have passed, the rest of one
/// left out, and negative where the second comes first.
pub proof fn minutes_are_whole(a: Stamp, b: Stamp, n: int)
    requires
        time::plain(a) && time::whole_ms(a),
        time::plain(b) && time::whole_ms(b),
        n >= 0,
    ensures
        n * 60_000_000_000 <= time::instant(b) - time::instant(a) < (n + 1) * 60_000_000_000
            ==> minutes_from(a, b) == n,
        n * 60_000_000_000 <= time::instant(a) - time::instant(b) < (n + 1) * 60_000_000_000
            ==> minutes_from(a, b) == -n,
{
    time::distance_is_the_difference(b, a);
}

/// A stretch that cannot be summarized reads as one in which nothing was seen.
pub proof fn what_cannot_be_summarized_reads_as_nothing(
    events: Events,
    start: Seq<char>,
    end: Seq<char>,
)
    ensures
        match summarized(events, start, end) {
            Ok(o) => summary_or_nothing(events, start, end) == o,
            Err(_) => {
                let o = summary_or_nothing(events, start, end);
                o.per_app.len() == 0 && o.per_title.len() == 0 && o.active_ms == 0 && o.afk_ms == 0
            },
        },
        nothing_seen().active_ms == 0 && nothing_seen().afk_ms == 0,
        MIN_ACTIVE_MS == 300_000,
{
}

/// How the time is told.
pub proof fn the_time_spent_is_told_in_minutes(m: i64, elapsed: i64)
    ensures
        time_spent(Some(m), elapsed) == text::decimal(m as int) + " min intended, "@
            + text::decimal(elapsed as int) + " elapsed"@,
        time_spent(None, elapsed) == text::decimal(elapsed as int) + " min elapsed"@,
{
}

// ----------------------------------------------------------------- what is adopted

/// The session named in the environment is taken up where it is open, and
/// before any other.
pub proof fn the_named_session_comes_first(
    v: Tables,
    n: nat,
    boot: Option<i64>,
    env: Option<Seq<char>>,
)
    ensures
        n <= i64::MAX && open_in(v, n as i64) ==> adopted(v, Some(text::digits(n)), boot) == Some(
            n as i64,
        ),
        n <= i64::MAX && !open_in(v, n as i64) ==> adopted(v, Some(text::digits(n)), boot)
            == booted_session(v, boot),
        adopted(v, None, boot) == booted_session(v, boot),
        env is Some && text::integer(env->0) is None ==> named_session(v, env) is None,
{
    crate::laws_text::a_number_is_read_back(n, seq![], 0);
}

/// Without a name the newest open session is taken up, where it started at the
/// boot or after.
pub proof fn the_session_since_the_boot_is_taken_up(
    v: Tables,
    s: SessionRow<Seq<char>>,
    t: Stamp,
    b: i64,
)
    ensures
        newest_open(v.sessions) == Some(s) && instant_of(s.started_at) == Some(t) ==> (
        booted_session(v, Some(b)) == if t.secs >= b {
            Some(s.id)
        } else {
            None::<i64>
        }),
        newest_open(v.sessions) == Some(s) && instant_of(s.started_at) is None ==> booted_session(
            v,
            Some(b),
        ) is None,
        newest_open(v.sessions) is None ==> booted_session(v, Some(b)) is None,
        booted_session(v, None) is None,
{
}

/// While running, a session is taken up only where it started no earlier than
/// the process.
pub proof fn only_a_new_session_is_taken_up(
    v: Tables,
    env: Option<Seq<char>>,
    boot: Option<i64>,
    not_before: Seq<char>,
    id: i64,
    s: SessionRow<Seq<char>>,
)
    ensures
        adopted(v, env, boot) is None ==> adopted_after(v, env, boot, not_before) is None,
        adopted(v, env, boot) == Some(id) && row_at::<SessionRow>(v.sessions, id) == Some(s) ==> (
        adopted_after(v, env, boot, not_before) == if text::before(s.started_at, not_before) {
            None::<i64>
        } else {
            Some(id)
        }),
{
}

/// The time of the boot is the number behind `btime` on the first line that
/// begins so.
pub proof fn the_boot_time_is_on_its_line(before: Seq<Seq<char>>, n: nat, after: Seq<char>)
    requires
        n <= i64::MAX,
        forall|i: int|
            0 <= i < before.len() ==> text::without(#[trigger] before[i], '\n') && !text::begins(
                before[i],
                "btime "@,
            ),
    ensures
        booted(ended(before) + "btime "@ + text::digits(n) + seq!['\n'] + after) == Some(n as i64),
        booted(ended(before)) is None,
    decreases before.len(),
{
    reveal_strlit("btime ");
    let d = text::digits(n);
    text::lemma_digits(n);
    if before.len() == 0 {
        let line = "btime "@ + d;
        let s = ended(before) + "btime "@ + d + seq!['\n'] + after;
        assert(s =~= line + seq!['\n'] + after);
        assert forall|i: int| 0 <= i < line.len() implies #[trigger] line[i] != '\n' by {
            if i >= 6 {
                assert(line[i] == d[i - 6]);
                assert(text::is_digit(d[i - 6]));
            }
        }
        lemma_line(line, after);
        assert(s.take(line.len() as int) =~= line);
        assert(line.subrange(0, 6) =~= "btime "@);
        let w = seq!['b', 't', 'i', 'm', 'e'];
        assert(line =~= w + seq![' '] + d);
        crate::laws_text::words_stand_between_whitespace(w, ' ', d, w, seq![]);
        assert forall|i: int| 0 <= i < d.len() implies !text::white(#[trigger] d[i]) by {
            assert(text::is_digit(d[i]));
        }
        crate::laws_text::words_stand_between_whitespace(w, ' ', d, d, seq![]);
        assert(text::words(line) =~= seq![w, d]);
        crate::laws_text::a_number_is_read_back(n, seq![], 0);
        assert(line_len(ended(before)) == 0);
        assert(ended(before).take(0) =~= seq![]);
    } else {
        let (l, rest) = (before[0], before.drop_first());
        assert(text::without(before[0], '\n'));
        assert forall|i: int| 0 <= i < rest.len() implies text::without(#[trigger] rest[i], '\n')
            && !text::begins(rest[i], "btime "@) by {
            assert(rest[i] == before[i + 1]);
        }
        the_boot_time_is_on_its_line(rest, n, after);
        let t = ended(rest) + "btime "@ + d + seq!['\n'] + after;
        let s = ended(before) + "btime "@ + d + seq!['\n'] + after;
        assert(ended(before) =~= l + seq!['\n'] + ended(rest));
        assert(s =~= l + seq!['\n'] + t);
        lemma_line(l, t);
        lemma_line(l, ended(rest));
        assert(s.take(l.len() as int) =~= l);
        assert(s.skip((l.len() + 1) as int) =~= t);
        assert(line_beginning(s, "btime "@) == line_beginning(t, "btime "@));
        assert(ended(before).take(l.len() as int) =~= l);
        assert(ended(before).skip((l.len() + 1) as int) =~= ended(rest));
    }
}

/// The lines, each with a line break behind it.
pub open spec fn ended(lines: Seq<Seq<char>>) -> Seq<char>
    decreases lines.len(),
{
    if lines.len() == 0 {
        seq![]
    } else {
        lines[0] + seq!['\n'] + ended(lines.drop_first())
    }
}

proof fn lemma_line(l: Seq<char>, t: Seq<char>)
    requires
        text::without(l, '\n'),
    ensures
        line_len(l + seq!['\n'] + t) == l.len(),
    decreases l.len(),
{
    let s = l + seq!['\n'] + t;
    if l.len() > 0 {
        let d = l.drop_first();
        assert(l[0] != '\n');
        assert(s[0] == l[0]);
        assert forall|i: int| 0 <= i < d.len() implies #[trigger] d[i] != '\n' by {
            assert(d[i] == l[i + 1]);
        }
        assert(s.drop_first() =~= d + seq!['\n'] + t);
        lemma_line(d, t);
    } else {
        assert(s[0] == '\n');
    }
}

/// Of the times of a check the first that cannot be read is told: the end of
/// its window, the start of the session, the start of its window.
pub proof fn the_first_unreadable_time_is_told(
    end: Seq<char>,
    started: Seq<char>,
    start: Seq<char>,
)
    ensures
        instant_of(end) is None ==> unreadable_time(end, started, start) == Some(end),
        instant_of(end) is Some && instant_of(started) is None ==> unreadable_time(
            end,
            started,
            start,
        ) == Some(started),
        instant_of(end) is Some && instant_of(started) is Some && instant_of(start) is None
            ==> unreadable_time(end, started, start) == Some(start),
        unreadable_time(end, started, start) is None <==> instant_of(end) is Some && instant_of(
            started,
        ) is Some && instant_of(start) is Some,
{
}

} // verus!
