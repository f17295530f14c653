//! The analyses in the store: the notes on how a session went.

use vstd::prelude::*;

use crate::board::str_view;
use crate::db::count;
use crate::db::counted;
use crate::db::full;
use crate::db::limited;
use crate::db::no_room;
use crate::error::AppError;
use crate::models::Analysis;
use crate::recommendations;
use crate::recommendations::Recommendation;
use crate::rows::AnalysisRow;
use crate::rows::SessionRow;
use crate::rows::Store;
use crate::rows::Tables;
use crate::sort;
use crate::sort::deep;
use crate::sort::Ranked;
use crate::table;
use crate::table::fresh;
use crate::table::put;
use crate::table::row_at;
use crate::table::text_order;
use crate::table::TextSlot;
use crate::text;
use crate::text::opt_view;

verus! {

broadcast use vstd::seq_lib::group_seq_properties;

/// An analysis as the screen is given it. A stored recommendation the catalog
/// no longer knows reads as none, rather than quietly becoming another.
pub open spec fn shown(v: Tables, a: AnalysisRow<Seq<char>>) -> Analysis<
    Seq<char>,
    Recommendation<Seq<char>>,
> {
    Analysis {
        id: a.id,
        session_id: a.session_id,
        created_at: a.created_at,
        window_start: a.window_start,
        window_end: a.window_end,
        headline: a.headline,
        alignment: a.alignment,
        body: a.body,
        seen_at: a.seen_at,
        session_statement: match row_at::<SessionRow>(v.sessions, a.session_id) {
            Some(s) => Some(s.statement),
            None => None,
        },
        kind: a.kind,
        recommendation: match a.recommendation_id {
            Some(id) => recommendations::known(id),
            None => None,
        },
        recommendation_note: a.recommendation_note,
    }
}

fn show(store: &Store, a: &AnalysisRow) -> (r: Analysis)
    requires
        store@.wf(),
    ensures
        r.deep_view() == shown(store@, a.deep_view()),
{
    let statement = match table::find(&store.sessions, a.session_id) {
        Some(i) => Some(store.sessions[i].statement.clone()),
        None => None,
    };
    let recommendation = match &a.recommendation_id {
        Some(id) => recommendations::get(id.as_str()),
        None => None,
    };
    Analysis {
        id: a.id,
        session_id: a.session_id,
        created_at: a.created_at.clone(),
        window_start: a.window_start.clone(),
        window_end: a.window_end.clone(),
        headline: a.headline.clone(),
        alignment: a.alignment,
        body: a.body.clone(),
        seen_at: text::owned_opt(&a.seen_at),
        session_statement: statement,
        kind: a.kind.clone(),
        recommendation,
        recommendation_note: text::owned_opt(&a.recommendation_note),
    }
}

/// The analyses of a session, newest first.
pub open spec fn of_session(v: Tables, s: Seq<AnalysisRow<Seq<char>>>, session_id: i64) -> Seq<
    Analysis<Seq<char>, Recommendation<Seq<char>>>,
>
    decreases s.len(),
{
    if s.len() == 0 {
        seq![]
    } else {
        let rest = of_session(v, s.drop_first(), session_id);
        if s[0].session_id == session_id {
            rest.push(shown(v, s[0]))
        } else {
            rest
        }
    }
}

pub fn list_analyses(store: &Store, session_id: i64) -> (r: Vec<Analysis>)
    requires
        store@.wf(),
    ensures
        deep(r@) == of_session(store@, store@.analyses, session_id),
{
    let ghost s = store@.analyses;
    let mut out: Vec<Analysis> = Vec::new();
    let mut i: usize = store.analyses.len();
    proof {
        assert(s.skip(i as int) =~= seq![]);
        assert(deep(out@) =~= seq![]);
    }
    while i > 0
        invariant
            i <= store.analyses.len(),
            s == store@.analyses,
            store@.wf(),
            deep(out@) == of_session(store@, s.skip(i as int), session_id),
        decreases i,
    {
        i = i - 1;
        let row = &store.analyses[i];
        proof {
            assert(s.skip(i as int)[0] == row.deep_view());
            assert(s.skip(i as int).drop_first() =~= s.skip(i + 1));
        }
        if row.session_id == session_id {
            let ghost before = deep(out@);
            out.push(show(store, row));
            proof {
                assert(deep(out@) =~= before.push(shown(store@, row.deep_view())));
            }
        }
    }
    proof {
        assert(s.skip(0) =~= s);
    }
    out
}

pub open spec fn date_slot() -> spec_fn(AnalysisRow<Seq<char>>) -> (Seq<char>, i64) {
    |a: AnalysisRow<Seq<char>>| (a.created_at, a.id)
}

/// The newest analyses across every session, by the time they were made.
pub open spec fn recent(v: Tables, limit: i64) -> Seq<
    Analysis<Seq<char>, Recommendation<Seq<char>>>,
> {
    limited(v.analyses.map_values(date_slot()).sort_by(text_order()).reverse(), limit).map_values(
        |k: (Seq<char>, i64)| shown(v, row_at::<AnalysisRow>(v.analyses, k.1)->0),
    )
}

pub fn list_recent_analyses(store: &Store, limit: i64) -> (r: Vec<Analysis>)
    requires
        store@.wf(),
    ensures
        deep(r@) == recent(store@, limit),
{
    let ghost s = store@.analyses;
    let ghost all = s.map_values(date_slot());
    let mut found: Vec<TextSlot> = Vec::new();
    let mut i: usize = 0;
    while i < store.analyses.len()
        invariant
            i <= store.analyses.len(),
            s == store@.analyses,
            all == s.map_values(date_slot()),
            found.len() == i,
            forall|j: int| 0 <= j < i ==> #[trigger] deep(found@)[j] == all[j],
        decreases store.analyses.len() - i,
    {
        let ghost before = found@;
        proof {
            assert(s[i as int] == store.analyses@[i as int].deep_view());
        }
        found.push(
            TextSlot {
                text: store.analyses[i].created_at.clone(),
                id: store.analyses[i].id,
            },
        );
        proof {
            assert forall|j: int| 0 <= j < i + 1 implies #[trigger] deep(found@)[j] == all[j] by {
                if j < i {
                    assert(deep(before)[j] == all[j]);
                }
            }
        }
        i = i + 1;
    }
    proof {
        assert(deep(found@) =~= all);
    }
    let sorted = sort::sort(found);
    let n = sorted.len();
    proof {
        TextSlot::total();
        all.lemma_sort_by_ensures(TextSlot::leq());
    }
    let ghost slots = limited(deep(sorted@).reverse(), limit);
    let mut out: Vec<Analysis> = Vec::new();
    while out.len() < n && (limit < 0 || (out.len() as u64) < limit as u64)
        invariant
            out.len() <= slots.len() <= n == sorted.len(),
            s == store@.analyses,
            store@.wf(),
            all == s.map_values(date_slot()),
            deep(sorted@) == all.sort_by(text_order()),
            slots == limited(deep(sorted@).reverse(), limit),
            forall|x: (Seq<char>, i64)| !all.contains(x) ==> !(#[trigger] deep(sorted@).contains(x)),
            forall|j: int|
                0 <= j < out.len() ==> #[trigger] deep(out@)[j] == recent(store@, limit)[j],
        decreases n - out.len(),
    {
        let k = out.len();
        let ghost before = out@;
        proof {
            let slot = deep(sorted@)[n - 1 - k];
            assert(slots[k as int] == slot);
            assert(slot == sorted@[n - 1 - k].deep_view());
            assert(deep(sorted@).contains(slot));
            assert(all.contains(slot));
            let m = choose|m: int| 0 <= m < all.len() && all[m] == slot;
            table::lemma_row_at::<AnalysisRow>(s, m);
        }
        match table::find(&store.analyses, sorted[n - 1 - k].id) {
            Some(at) => {
                out.push(show(store, &store.analyses[at]));
            },
            None => {
                proof {
                    assert(false);
                }
                return out;
            },
        }
        proof {
            assert forall|j: int| 0 <= j < out.len() implies #[trigger] deep(out@)[j] == recent(
                store@,
                limit,
            )[j] by {
                if j < k {
                    assert(deep(before)[j] == recent(store@, limit)[j]);
                }
            }
        }
    }
    proof {
        assert(deep(out@) =~= recent(store@, limit));
    }
    out
}

/// The breakdown an analysis was judged against, as it was stored; `None` for a
/// missing analysis.
pub fn analysis_observed(store: &Store, id: i64) -> (r: Option<String>)
    requires
        store@.wf(),
    ensures
        opt_view(r) == (match row_at::<AnalysisRow>(store@.analyses, id) {
            Some(a) => Some(a.observed_json),
            None => None,
        }),
{
    match table::find(&store.analyses, id) {
        Some(i) => Some(store.analyses[i].observed_json.clone()),
        None => None,
    }
}

pub open spec fn is_unseen(session_id: i64) -> spec_fn(AnalysisRow<Seq<char>>) -> bool {
    |a: AnalysisRow<Seq<char>>| a.session_id == session_id && a.seen_at is None
}

pub fn unseen_analyses(store: &Store, session_id: i64) -> (r: i64)
    ensures
        r == counted(store@.analyses.filter(is_unseen(session_id)).len()),
{
    let ghost s = store@.analyses;
    let ghost keep = is_unseen(session_id);
    let mut n: usize = 0;
    let mut i: usize = 0;
    proof {
        reveal(Seq::filter);
        assert(s.take(0) =~= seq![]);
    }
    while i < store.analyses.len()
        invariant
            i <= store.analyses.len(),
            n <= i,
            s == store@.analyses,
            keep == is_unseen(session_id),
            n == s.take(i as int).filter(keep).len(),
        decreases store.analyses.len() - i,
    {
        let row = &store.analyses[i];
        proof {
            reveal(Seq::filter);
            assert(s.take(i + 1).drop_last() =~= s.take(i as int));
            assert(s.take(i + 1).last() == row.deep_view());
        }
        if row.session_id == session_id && row.seen_at.is_none() {
            n = n + 1;
        }
        i = i + 1;
    }
    proof {
        assert(s.take(s.len() as int) =~= s);
    }
    count(n)
}

/// The analyses after one was marked as seen; the first time counts.
pub open spec fn after_seen(v: Tables, id: i64, now: Seq<char>) -> Tables {
    match row_at::<AnalysisRow>(v.analyses, id) {
        Some(a) => if a.seen_at is None {
            Tables {
                analyses: put::<AnalysisRow>(
                    v.analyses,
                    id,
                    AnalysisRow { seen_at: Some(now), ..a },
                ),
                ..v
            }
        } else {
            v
        },
        None => v,
    }
}

pub fn mark_analysis_seen(store: &mut Store, id: i64, now: &str)
    requires
        old(store)@.wf(),
    ensures
        final(store)@.wf(),
        final(store)@ == after_seen(old(store)@, id, now@),
{
    if let Some(i) = table::find(&store.analyses, id) {
        if store.analyses[i].seen_at.is_none() {
            let a = &store.analyses[i];
            let row = AnalysisRow {
                id: a.id,
                session_id: a.session_id,
                created_at: a.created_at.clone(),
                window_start: a.window_start.clone(),
                window_end: a.window_end.clone(),
                headline: a.headline.clone(),
                alignment: a.alignment,
                body: a.body.clone(),
                observed_json: a.observed_json.clone(),
                kind: a.kind.clone(),
                recommendation_id: text::owned_opt(&a.recommendation_id),
                recommendation_note: text::owned_opt(&a.recommendation_note),
                seen_at: Some(text::owned(now)),
            };
            table::set_row(&mut store.analyses, i, row);
        }
    }
}

/// An analysis about to be stored.
pub struct NewAnalysis<'a> {
    pub session_id: i64,
    /// "check" or "checkpoint".
    pub kind: &'a str,
    pub window_start: &'a str,
    pub window_end: &'a str,
    pub headline: &'a str,
    pub alignment: Option<i64>,
    pub body: &'a str,
    pub observed_json: &'a str,
    pub recommendation_id: Option<&'a str>,
    pub recommendation_note: Option<&'a str>,
}

/// The row of a new analysis.
pub open spec fn new_row(id: i64, a: NewAnalysis, now: Seq<char>) -> AnalysisRow<Seq<char>> {
    AnalysisRow {
        id,
        session_id: a.session_id,
        created_at: now,
        window_start: a.window_start@,
        window_end: a.window_end@,
        headline: a.headline@,
        alignment: a.alignment,
        body: a.body@,
        observed_json: a.observed_json@,
        kind: a.kind@,
        recommendation_id: str_view(a.recommendation_id),
        recommendation_note: str_view(a.recommendation_note),
        seen_at: None,
    }
}

fn owned_str(s: Option<&str>) -> (r: Option<String>)
    ensures
        opt_view(r) == str_view(s),
{
    match s {
        Some(x) => Some(text::owned(x)),
        None => None,
    }
}

pub fn add_analysis(store: &mut Store, a: &NewAnalysis, now: &str) -> (r: Result<i64, AppError>)
    requires
        old(store)@.wf(),
    ensures
        final(store)@.wf(),
        match r {
            Ok(id) => id == fresh::<AnalysisRow>(old(store)@.analyses) && final(store)@
                == (Tables {
                analyses: old(store)@.analyses.push(new_row(id, *a, now@)),
                ..old(store)@
            }),
            Err(e) => fresh::<AnalysisRow>(old(store)@.analyses) > i64::MAX && final(store)@
                == old(store)@ && e@ == full(),
        },
{
    let id = match table::next_id(&store.analyses) {
        Some(id) => id,
        None => return Err(no_room()),
    };
    let row = AnalysisRow {
        id,
        session_id: a.session_id,
        created_at: text::owned(now),
        window_start: text::owned(a.window_start),
        window_end: text::owned(a.window_end),
        headline: text::owned(a.headline),
        alignment: a.alignment,
        body: text::owned(a.body),
        observed_json: text::owned(a.observed_json),
        kind: text::owned(a.kind),
        recommendation_id: owned_str(a.recommendation_id),
        recommendation_note: owned_str(a.recommendation_note),
        seen_at: None,
    };
    table::add_row(&mut store.analyses, row);
    Ok(id)
}

/// The newest analysis of a session.
pub open spec fn newest_of(s: Seq<AnalysisRow<Seq<char>>>, session_id: i64) -> Option<
    AnalysisRow<Seq<char>>,
>
    decreases s.len(),
{
    if s.len() == 0 {
        None
    } else if s.last().session_id == session_id {
        Some(s.last())
    } else {
        newest_of(s.drop_last(), session_id)
    }
}

/// The newest analysis of a session, as the screen is given it.
pub fn latest_analysis(store: &Store, session_id: i64) -> (r: Option<Analysis>)
    requires
        store@.wf(),
    ensures
        r.deep_view() == (match newest_of(store@.analyses, session_id) {
            Some(a) => Some(shown(store@, a)),
            None => None,
        }),
{
    let ghost s = store@.analyses;
    let mut i: usize = store.analyses.len();
    proof {
        assert(s.take(i as int) =~= s);
    }
    while i > 0
        invariant
            i <= store.analyses.len(),
            s == store@.analyses,
            store@.wf(),
            newest_of(s, session_id) == newest_of(s.take(i as int), session_id),
        decreases i,
    {
        let row = &store.analyses[i - 1];
        proof {
            assert(s.take(i as int).last() == row.deep_view());
            assert(s.take(i as int).drop_last() =~= s.take(i - 1));
        }
        if row.session_id == session_id {
            return Some(show(store, row));
        }
        i = i - 1;
    }
    None
}

/// Where the last window that was judged ended.
pub fn last_analysis_end(store: &Store, session_id: i64) -> (r: Option<String>)
    ensures
        opt_view(r) == (match newest_of(store@.analyses, session_id) {
            Some(a) => Some(a.window_end),
            None => None,
        }),
{
    let ghost s = store@.analyses;
    let mut i: usize = store.analyses.len();
    proof {
        assert(s.take(i as int) =~= s);
    }
    while i > 0
        invariant
            i <= store.analyses.len(),
            s == store@.analyses,
            newest_of(s, session_id) == newest_of(s.take(i as int), session_id),
        decreases i,
    {
        proof {
            assert(s.take(i as int).last() == store.analyses@[i - 1].deep_view());
            assert(s.take(i as int).drop_last() =~= s.take(i - 1));
        }
        if store.analyses[i - 1].session_id == session_id {
            return Some(store.analyses[i - 1].window_end.clone());
        }
        i = i - 1;
    }
    None
}

/// The newest checkpoint of a session that nobody has seen.
pub open spec fn pending_of(s: Seq<AnalysisRow<Seq<char>>>, session_id: i64) -> Option<
    AnalysisRow<Seq<char>>,
>
    decreases s.len(),
{
    if s.len() == 0 {
        None
    } else if s.last().session_id == session_id && s.last().kind == "checkpoint"@
        && s.last().seen_at is None {
        Some(s.last())
    } else {
        pending_of(s.drop_last(), session_id)
    }
}

/// The checkpoint waiting to be acknowledged, if any.
pub fn pending_checkpoint(store: &Store, session_id: i64) -> (r: Option<Analysis>)
    requires
        store@.wf(),
    ensures
        r.deep_view() == (match pending_of(store@.analyses, session_id) {
            Some(a) => Some(shown(store@, a)),
            None => None,
        }),
{
    let ghost s = store@.analyses;
    let mut i: usize = store.analyses.len();
    proof {
        assert(s.take(i as int) =~= s);
    }
    while i > 0
        invariant
            i <= store.analyses.len(),
            s == store@.analyses,
            store@.wf(),
            pending_of(s, session_id) == pending_of(s.take(i as int), session_id),
        decreases i,
    {
        let row = &store.analyses[i - 1];
        proof {
            assert(s.take(i as int).last() == row.deep_view());
            assert(s.take(i as int).drop_last() =~= s.take(i - 1));
        }
        if row.session_id == session_id && text::same(row.kind.as_str(), "checkpoint")
            && row.seen_at.is_none() {
            return Some(show(store, row));
        }
        i = i - 1;
    }
    None
}

} // verus!
