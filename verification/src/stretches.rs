//! What a summary counts, millisecond by millisecond.
//!
//! Where every instant is a whole millisecond, the time away and the time in a
//! window are numbers of milliseconds that have a property, and stretches that
//! adjoin add up.

use vstd::prelude::*;

use crate::aw::AwEvent;
use crate::observed::Events;
use crate::observed::apart;
use crate::observed::away_spans;
use crate::observed::by_app;
use crate::observed::clipped;
use crate::observed::covers;
use crate::observed::end_of;
use crate::observed::ends;
use crate::observed::held;
use crate::observed::lemma_added_held;
use crate::observed::lemma_by_app;
use crate::observed::lemma_covers_push;
use crate::observed::lemma_overlap_counts;
use crate::observed::lemma_union_ends;
use crate::observed::lemma_uses;
use crate::observed::named;
use crate::observed::overlap_ms;
use crate::observed::proper;
use crate::observed::says_away;
use crate::observed::span_ms;
use crate::observed::spent;
use crate::observed::summarized;
use crate::observed::total;
use crate::observed::union_counts_once;
use crate::observed::union_of;
use crate::observed::uses;
use crate::time::Stamp;
use crate::time::earlier;
use crate::time::earliest;
use crate::time::instant_of;
use crate::time::latest;
use crate::time;

verus! {

broadcast use vstd::seq_lib::group_seq_properties;

// ------------------------------------------------------------------- counting

/// How many of the numbers from `lo` up to `hi`, `hi` itself left out, have a
/// property.
pub open spec fn count(p: spec_fn(int) -> bool, lo: int, hi: int) -> nat
    decreases hi - lo,
{
    if lo >= hi {
        0
    } else {
        count(p, lo, hi - 1) + (if p(hi - 1) {
            1nat
        } else {
            0
        })
    }
}

proof fn lemma_count_split(p: spec_fn(int) -> bool, lo: int, mid: int, hi: int)
    requires
        lo <= mid <= hi,
    ensures
        count(p, lo, hi) == count(p, lo, mid) + count(p, mid, hi),
    decreases hi - mid,
{
    if mid < hi {
        lemma_count_split(p, lo, mid, hi - 1);
    }
}

pub proof fn lemma_count_same(p: spec_fn(int) -> bool, q: spec_fn(int) -> bool, lo: int, hi: int)
    requires
        forall|n: int| lo <= n < hi ==> #[trigger] p(n) == q(n),
    ensures
        count(p, lo, hi) == count(q, lo, hi),
    decreases hi - lo,
{
    if lo < hi {
        lemma_count_same(p, q, lo, hi - 1);
        assert(p(hi - 1) == q(hi - 1));
    }
}

proof fn lemma_count_none(p: spec_fn(int) -> bool, lo: int, hi: int)
    requires
        forall|n: int| lo <= n < hi ==> !#[trigger] p(n),
    ensures
        count(p, lo, hi) == 0,
    decreases hi - lo,
{
    if lo < hi {
        lemma_count_none(p, lo, hi - 1);
        assert(!p(hi - 1));
    }
}

/// What has one property or the other, never both, is counted by the sum.
proof fn lemma_count_either(
    p: spec_fn(int) -> bool,
    q: spec_fn(int) -> bool,
    r: spec_fn(int) -> bool,
    lo: int,
    hi: int,
)
    requires
        forall|n: int|
            lo <= n < hi ==> #[trigger] r(n) == (p(n) || q(n)) && !(p(n) && q(n)),
    ensures
        count(r, lo, hi) == count(p, lo, hi) + count(q, lo, hi),
    decreases hi - lo,
{
    if lo < hi {
        lemma_count_either(p, q, r, lo, hi - 1);
        assert(r(hi - 1) == (p(hi - 1) || q(hi - 1)));
    }
}

spec fn between(x: int, y: int) -> spec_fn(int) -> bool {
    |n: int| x <= n < y
}

proof fn lemma_count_between(x: int, y: int, lo: int, hi: int)
    ensures
        count(between(x, y), lo, hi) == {
            let a = if x > lo {
                x
            } else {
                lo
            };
            let b = if y < hi {
                y
            } else {
                hi
            };
            if a < b {
                b - a
            } else {
                0
            }
        },
    decreases hi - lo,
{
    if lo < hi {
        lemma_count_between(x, y, lo, hi - 1);
    }
}

// --------------------------------------------------------------- milliseconds

/// A whole millisecond outside leap seconds.
pub open spec fn on_grid(t: Stamp) -> bool {
    time::plain(t) && time::whole_ms(t)
}

/// The milliseconds since 1970.
pub open spec fn tick(t: Stamp) -> int {
    time::instant(t) / 1_000_000
}

/// The instant so many milliseconds after 1970.
pub open spec fn at(n: int) -> Stamp {
    Stamp { secs: (n / 1000) as i64, nanos: ((n % 1000) * 1_000_000) as u32 }
}

/// A millisecond of the calendar.
spec fn dated(n: int) -> bool {
    time::FIRST_SECS * 1000 <= n < (time::LAST_SECS + 1) * 1000
}

proof fn lemma_at(n: int, t: Stamp)
    requires
        dated(n),
        on_grid(t),
    ensures
        earlier(at(n), t) <==> n < tick(t),
{
}

proof fn lemma_dated(n: int, t: Stamp, u: Stamp)
    requires
        on_grid(t),
        on_grid(u),
        tick(t) <= n < tick(u),
    ensures
        dated(n),
{
}

proof fn lemma_ticks(a: Stamp, b: Stamp)
    requires
        on_grid(a),
        on_grid(b),
    ensures
        earlier(a, b) <==> tick(a) < tick(b),
        time::apart(b, a) == tick(b) - tick(a),
{
    time::distance_is_the_difference(b, a);
}

pub open spec fn grid() -> spec_fn(Stamp) -> bool {
    |t: Stamp| on_grid(t)
}

/// The milliseconds that some span holds.
pub open spec fn covered(s: Seq<(Stamp, Stamp)>) -> spec_fn(int) -> bool {
    |n: int| covers(s, at(n))
}

/// Spans that do not touch take as much out of a stretch as they hold
/// milliseconds of it.
proof fn lemma_overlap_is_count(s: Seq<(Stamp, Stamp)>, a: Stamp, b: Stamp)
    requires
        proper(s),
        apart(s),
        ends(s, grid()),
        on_grid(a),
        on_grid(b),
    ensures
        overlap_ms(s, a, b) == count(covered(s), tick(a), tick(b)),
    decreases s.len(),
{
    let (lo, hi) = (tick(a), tick(b));
    if s.len() == 0 {
        lemma_count_none(covered(s), lo, hi);
    } else {
        let r = s.drop_last();
        let x = s[s.len() - 1];
        assert forall|i: int| 0 <= i < r.len() implies r[i] == s[i] by {}
        lemma_overlap_is_count(r, a, b);
        assert(grid()(x.0) && grid()(x.1));
        let (p, q) = (tick(x.0), tick(x.1));
        assert forall|n: int| lo <= n < hi implies #[trigger] covered(s)(n) == (covered(r)(n)
            || between(p, q)(n)) && !(covered(r)(n) && between(p, q)(n)) by {
            lemma_dated(n, a, b);
            lemma_at(n, x.0);
            lemma_at(n, x.1);
            lemma_covers_push(r, x, at(n));
            assert(r.push(x) =~= s);
            if covers(r, at(n)) {
                let i = choose|i: int|
                    0 <= i < r.len() && !earlier(at(n), (#[trigger] r[i]).0) && earlier(
                        at(n),
                        r[i].1,
                    );
                assert(earlier(s[i].1, x.0));
                assert(grid()(s[i].1));
                lemma_at(n, s[i].1);
                lemma_ticks(s[i].1, x.0);
            }
        }
        lemma_count_either(covered(r), between(p, q), covered(s), lo, hi);
        lemma_count_between(p, q, lo, hi);
        lemma_ticks(latest(a, x.0), earliest(b, x.1));
        lemma_ticks(a, x.0);
        lemma_ticks(x.1, b);
    }
}

/// Spans inside a stretch take all that they are long out of it.
proof fn lemma_spans_inside(s: Seq<(Stamp, Stamp)>, a: Stamp, b: Stamp)
    requires
        proper(s),
        ends(s, grid()),
        ends(s, |t: Stamp| !earlier(t, a) && !earlier(b, t)),
    ensures
        span_ms(s) == overlap_ms(s, a, b),
    decreases s.len(),
{
    if s.len() > 0 {
        let r = s.drop_last();
        let x = s[s.len() - 1];
        assert forall|i: int| 0 <= i < r.len() implies r[i] == s[i] by {}
        lemma_spans_inside(r, a, b);
        let kind = |t: Stamp| !earlier(t, a) && !earlier(b, t);
        assert(kind(x.0) && kind(x.1));
        assert(grid()(x.0) && grid()(x.1));
        lemma_ticks(x.0, x.1);
    }
}

// -------------------------------------------------------------------- events

/// Every event that can be read begins on a whole millisecond outside leap
/// seconds.
pub open spec fn steady(s: Seq<AwEvent>) -> bool {
    forall|i: int|
        0 <= i < s.len() ==> match instant_of((#[trigger] s[i]).timestamp@) {
            Some(t) => on_grid(t),
            None => true,
        }
}

/// The event goes on at that millisecond.
pub open spec fn lasts(ev: AwEvent, n: int) -> bool {
    match instant_of(ev.timestamp@) {
        Some(t) => match end_of(t, ev.duration_ms) {
            Some(e) => tick(t) <= n < tick(e),
            None => false,
        },
        None => false,
    }
}

/// At that millisecond some event says that the user is away.
pub open spec fn away_at(s: Seq<AwEvent>) -> spec_fn(int) -> bool {
    |n: int| exists|i: int| 0 <= i < s.len() && says_away(#[trigger] s[i]) && lasts(s[i], n)
}

pub proof fn lemma_steady(s: Seq<AwEvent>)
    requires
        steady(s),
        s.len() > 0,
    ensures
        steady(s.drop_last()),
        match instant_of(s.last().timestamp@) {
            Some(t) => on_grid(t) && match end_of(t, s.last().duration_ms) {
                Some(e) => on_grid(e),
                None => true,
            },
            None => true,
        },
{
    let r = s.drop_last();
    assert forall|i: int| 0 <= i < r.len() implies match instant_of(
        (#[trigger] r[i]).timestamp@,
    ) {
        Some(t) => on_grid(t),
        None => true,
    } by {
        assert(r[i] == s[i]);
    }
    let ev = s[s.len() - 1];
    if let Some(t) = instant_of(ev.timestamp@) {
        time::shifting_adds(t, ev.duration_ms);
    }
}

/// What is left of an event inside a stretch are the milliseconds of the
/// stretch at which it goes on.
proof fn lemma_clipped(ev: AwEvent, start: Stamp, end: Stamp)
    requires
        on_grid(start),
        on_grid(end),
        match instant_of(ev.timestamp@) {
            Some(t) => on_grid(t) && match end_of(t, ev.duration_ms) {
                Some(e) => on_grid(e),
                None => true,
            },
            None => true,
        },
        clipped(ev, start, end) is Ok,
    ensures
        match clipped(ev, start, end)->Ok_0 {
            Some((a, b)) => {
                &&& on_grid(a) && on_grid(b) && earlier(a, b)
                &&& !earlier(a, start) && !earlier(end, b)
                &&& forall|n: int|
                    tick(start) <= n < tick(end) ==> (#[trigger] lasts(ev, n) <==> tick(a) <= n
                        < tick(b))
            },
            None => forall|n: int| tick(start) <= n < tick(end) ==> !#[trigger] lasts(ev, n),
        },
{
    let t = instant_of(ev.timestamp@)->0;
    let e = end_of(t, ev.duration_ms)->0;
    lemma_ticks(latest(t, start), earliest(e, end));
    lemma_ticks(t, start);
    lemma_ticks(end, e);
}

proof fn lemma_away(s: Seq<AwEvent>, start: Stamp, end: Stamp)
    requires
        on_grid(start),
        on_grid(end),
        steady(s),
        away_spans(s, start, end) is Ok,
    ensures
        proper(away_spans(s, start, end)->Ok_0),
        ends(away_spans(s, start, end)->Ok_0, grid()),
        ends(away_spans(s, start, end)->Ok_0, |t: Stamp| !earlier(t, start) && !earlier(end, t)),
        forall|n: int|
            tick(start) <= n < tick(end) ==> #[trigger] covered(
                away_spans(s, start, end)->Ok_0,
            )(n) == away_at(s)(n),
    decreases s.len(),
{
    let spans = away_spans(s, start, end)->Ok_0;
    if s.len() > 0 {
        let r = s.drop_last();
        let ev = s[s.len() - 1];
        lemma_steady(s);
        lemma_away(r, start, end);
        let old_spans = away_spans(r, start, end)->Ok_0;
        if says_away(ev) {
            lemma_clipped(ev, start, end);
        }
        assert forall|n: int| tick(start) <= n < tick(end) implies #[trigger] covered(spans)(n)
            == away_at(s)(n) by {
            assert(covered(old_spans)(n) == away_at(r)(n));
            assert(away_at(s)(n) <==> away_at(r)(n) || (says_away(ev) && lasts(ev, n))) by {
                if away_at(r)(n) {
                    let i = choose|i: int|
                        0 <= i < r.len() && says_away(#[trigger] r[i]) && lasts(r[i], n);
                    assert(s[i] == r[i]);
                }
                if away_at(s)(n) {
                    let i = choose|i: int|
                        0 <= i < s.len() && says_away(#[trigger] s[i]) && lasts(s[i], n);
                    if i < r.len() {
                        assert(s[i] == r[i]);
                    }
                }
            }
            if says_away(ev) {
                if let Some((a, b)) = clipped(ev, start, end)->Ok_0 {
                    lemma_covers_push(old_spans, (a, b), at(n));
                    lemma_dated(n, start, end);
                    lemma_at(n, a);
                    lemma_at(n, b);
                }
            }
        }
    }
}

/// The time away in a stretch is the number of its milliseconds at which some
/// event says so.
pub proof fn time_away_is_counted(s: Seq<AwEvent>, start: Stamp, end: Stamp)
    requires
        on_grid(start),
        on_grid(end),
        steady(s),
        away_spans(s, start, end) is Ok,
    ensures
        span_ms(union_of(away_spans(s, start, end)->Ok_0)) == count(
            away_at(s),
            tick(start),
            tick(end),
        ),
{
    let spans = away_spans(s, start, end)->Ok_0;
    let u = union_of(spans);
    lemma_away(s, start, end);
    lemma_merged(s, start, end);
    lemma_union_ends(spans, |t: Stamp| !earlier(t, start) && !earlier(end, t));
    lemma_spans_inside(u, start, end);
    lemma_overlap_is_count(u, start, end);
    lemma_count_same(covered(u), away_at(s), tick(start), tick(end));
}

pub proof fn lemma_merged(s: Seq<AwEvent>, start: Stamp, end: Stamp)
    requires
        on_grid(start),
        on_grid(end),
        steady(s),
        away_spans(s, start, end) is Ok,
    ensures
        proper(union_of(away_spans(s, start, end)->Ok_0)),
        apart(union_of(away_spans(s, start, end)->Ok_0)),
        ends(union_of(away_spans(s, start, end)->Ok_0), grid()),
        forall|n: int|
            tick(start) <= n < tick(end) ==> #[trigger] covered(
                union_of(away_spans(s, start, end)->Ok_0),
            )(n) == away_at(s)(n),
{
    let spans = away_spans(s, start, end)->Ok_0;
    let u = union_of(spans);
    lemma_away(s, start, end);
    union_counts_once(spans);
    lemma_union_ends(spans, grid());
    assert forall|n: int| tick(start) <= n < tick(end) implies #[trigger] covered(u)(n) == away_at(
        s,
    )(n) by {
        assert(covers(u, at(n)) <==> covers(spans, at(n)));
        assert(covered(spans)(n) == away_at(s)(n));
    }
}

/// The event goes on and the user is not away.
pub open spec fn worked_at(ev: AwEvent, away: spec_fn(int) -> bool) -> spec_fn(int) -> bool {
    |n: int| lasts(ev, n) && !away(n)
}

/// The application of an event.
pub open spec fn app_of(ev: AwEvent) -> Seq<char> {
    named(ev.data.deep_view(), "app"@)
}

/// The milliseconds from `lo` to `hi` that the events of some applications went
/// on while the user was not away, those of one event after those of another.
pub open spec fn worked(
    s: Seq<AwEvent>,
    away: spec_fn(int) -> bool,
    apps: spec_fn(Seq<char>) -> bool,
    lo: int,
    hi: int,
) -> nat
    decreases s.len(),
{
    if s.len() == 0 {
        0
    } else {
        worked(s.drop_last(), away, apps, lo, hi) + (if apps(app_of(s.last())) {
            count(worked_at(s.last(), away), lo, hi)
        } else {
            0
        })
    }
}

/// What one event adds: its length inside the stretch without what the spans
/// take out of it.
pub proof fn lemma_use_is_count(
    ev: AwEvent,
    start: Stamp,
    end: Stamp,
    away: Seq<(Stamp, Stamp)>,
    p: spec_fn(int) -> bool,
)
    requires
        on_grid(start),
        on_grid(end),
        match instant_of(ev.timestamp@) {
            Some(t) => on_grid(t) && match end_of(t, ev.duration_ms) {
                Some(e) => on_grid(e),
                None => true,
            },
            None => true,
        },
        clipped(ev, start, end) is Ok,
        proper(away),
        apart(away),
        ends(away, grid()),
        forall|n: int| tick(start) <= n < tick(end) ==> #[trigger] covered(away)(n) == p(n),
    ensures
        count(worked_at(ev, p), tick(start), tick(end)) == match clipped(ev, start, end)->Ok_0 {
            Some((a, b)) => time::apart(b, a) - overlap_ms(away, a, b),
            None => 0,
        },
{
    let w = worked_at(ev, p);
    let (lo, hi) = (tick(start), tick(end));
    lemma_clipped(ev, start, end);
    match clipped(ev, start, end)->Ok_0 {
        None => {
            assert forall|n: int| lo <= n < hi implies !#[trigger] w(n) by {
                assert(!lasts(ev, n));
            }
            lemma_count_none(w, lo, hi);
        },
        Some((a, b)) => {
            let (x, y) = (tick(a), tick(b));
            lemma_ticks(a, b);
            lemma_ticks(a, start);
            lemma_ticks(end, b);
            lemma_overlap_is_count(away, a, b);
            lemma_count_split(w, lo, x, hi);
            lemma_count_split(w, x, y, hi);
            assert forall|n: int| lo <= n < x implies !#[trigger] w(n) by {
                assert(!lasts(ev, n));
            }
            lemma_count_none(w, lo, x);
            assert forall|n: int| y <= n < hi implies !#[trigger] w(n) by {
                assert(!lasts(ev, n));
            }
            lemma_count_none(w, y, hi);
            assert forall|n: int| x <= n < y implies #[trigger] between(x, y)(n) == (covered(away)(n)
                || w(n)) && !(covered(away)(n) && w(n)) by {
                assert(lasts(ev, n));
                assert(covered(away)(n) == p(n));
            }
            lemma_count_either(covered(away), w, between(x, y), x, y);
            lemma_count_between(x, y, x, y);
        },
    }
}

pub open spec fn any_app() -> spec_fn(Seq<char>) -> bool {
    |a: Seq<char>| true
}

pub open spec fn one_app(app: Seq<char>) -> spec_fn(Seq<char>) -> bool {
    |a: Seq<char>| a == app
}

/// The milliseconds that the last event adds, where they are any.
pub proof fn lemma_last_use(s: Seq<AwEvent>, start: Stamp, end: Stamp, away: Seq<(Stamp, Stamp)>)
    requires
        s.len() > 0,
        uses(s, start, end, away) is Ok,
    ensures
        uses(s.drop_last(), start, end, away) is Ok,
        clipped(s.last(), start, end) is Ok,
        ({
            let list = uses(s, start, end, away)->Ok_0;
            let before = uses(s.drop_last(), start, end, away)->Ok_0;
            match clipped(s.last(), start, end)->Ok_0 {
                Some((a, b)) => {
                    let ms = time::apart(b, a) - overlap_ms(away, a, b);
                    if ms > 0 {
                        &&& list.len() > 0
                        &&& list.drop_last() == before
                        &&& list.last().app == app_of(s.last())
                        &&& list.last().title == named(s.last().data.deep_view(), "title"@)
                        &&& list.last().ms == ms
                    } else {
                        list == before
                    }
                },
                None => list == before,
            }
        }),
{
    if let Some((a, b)) = clipped(s.last(), start, end)->Ok_0 {
        lemma_overlap_counts(away, a, b);
        let list = uses(s, start, end, away)->Ok_0;
        let before = uses(s.drop_last(), start, end, away)->Ok_0;
        if list.len() > before.len() {
            assert(list.drop_last() =~= before);
        }
    }
}

proof fn lemma_uses_are_counted(
    s: Seq<AwEvent>,
    start: Stamp,
    end: Stamp,
    away: Seq<(Stamp, Stamp)>,
    p: spec_fn(int) -> bool,
    app: Seq<char>,
)
    requires
        s.len() <= u64::MAX,
        on_grid(start),
        on_grid(end),
        steady(s),
        uses(s, start, end, away) is Ok,
        proper(away),
        apart(away),
        ends(away, grid()),
        forall|n: int| tick(start) <= n < tick(end) ==> #[trigger] covered(away)(n) == p(n),
    ensures
        spent(uses(s, start, end, away)->Ok_0) <= u128::MAX,
        spent(uses(s, start, end, away)->Ok_0) == worked(s, p, any_app(), tick(start), tick(end)),
        held(by_app(uses(s, start, end, away)->Ok_0), app) == worked(
            s,
            p,
            one_app(app),
            tick(start),
            tick(end),
        ),
    decreases s.len(),
{
    let list = uses(s, start, end, away)->Ok_0;
    lemma_uses(s, start, end, away);
    assert(i64::MAX * s.len() <= u128::MAX) by (nonlinear_arith)
        requires
            s.len() <= u64::MAX,
    ;
    if s.len() > 0 {
        let r = s.drop_last();
        let ev = s.last();
        lemma_steady(s);
        lemma_uses_are_counted(r, start, end, away, p, app);
        lemma_use_is_count(ev, start, end, away, p);
        lemma_last_use(s, start, end, away);
        let before = uses(r, start, end, away)->Ok_0;
        let n = count(worked_at(ev, p), tick(start), tick(end));
        assert(any_app()(app_of(ev)));
        assert(one_app(app)(app_of(ev)) == (app_of(ev) == app));
        if n > 0 {
            assert(list.last().ms == n);
            lemma_by_app(before, app);
            lemma_added_held(by_app(before), list.last().app, list.last().ms, app);
        } else {
            assert(list == before);
        }
    }
}

/// The time in an application is the number of milliseconds of the stretch at
/// which a window of it was in front and the user not away, and the active time
/// the sum over all of them.
pub proof fn time_in_an_app_is_counted(
    events: Events,
    start: Stamp,
    end: Stamp,
    app: Seq<char>,
)
    requires
        on_grid(start),
        on_grid(end),
        steady(events.afk@),
        steady(events.window@),
        away_spans(events.afk@, start, end) is Ok,
        uses(
            events.window@,
            start,
            end,
            union_of(away_spans(events.afk@, start, end)->Ok_0),
        ) is Ok,
    ensures
        ({
            let list = uses(
                events.window@,
                start,
                end,
                union_of(away_spans(events.afk@, start, end)->Ok_0),
            )->Ok_0;
            let away = away_at(events.afk@);
            &&& held(by_app(list), app) == worked(
                events.window@,
                away,
                one_app(app),
                tick(start),
                tick(end),
            )
            &&& total(by_app(list)) == worked(
                events.window@,
                away,
                any_app(),
                tick(start),
                tick(end),
            )
            &&& total(by_app(list)) <= u128::MAX
        }),
{
    let u = union_of(away_spans(events.afk@, start, end)->Ok_0);
    let n = events.window.len();
    assert(events.window@.len() == n);
    lemma_merged(events.afk@, start, end);
    lemma_uses_are_counted(events.window@, start, end, u, away_at(events.afk@), app);
    lemma_by_app(uses(events.window@, start, end, u)->Ok_0, app);
}

// ------------------------------------------------------- adjoining stretches

proof fn lemma_worked_split(
    s: Seq<AwEvent>,
    away: spec_fn(int) -> bool,
    apps: spec_fn(Seq<char>) -> bool,
    lo: int,
    mid: int,
    hi: int,
)
    requires
        lo <= mid <= hi,
    ensures
        worked(s, away, apps, lo, hi) == worked(s, away, apps, lo, mid) + worked(
            s,
            away,
            apps,
            mid,
            hi,
        ),
    decreases s.len(),
{
    if s.len() > 0 {
        lemma_worked_split(s.drop_last(), away, apps, lo, mid, hi);
        lemma_count_split(worked_at(s.last(), away), lo, mid, hi);
    }
}

proof fn lemma_same_away_faults(s: Seq<AwEvent>, a: Stamp, b: Stamp, c: Stamp, d: Stamp)
    requires
        away_spans(s, a, b) is Err,
    ensures
        away_spans(s, c, d) == away_spans(s, a, b),
    decreases s.len(),
{
    let r = s.drop_last();
    if away_spans(r, a, b) is Err {
        lemma_same_away_faults(r, a, b, c, d);
    } else if away_spans(r, c, d) is Err {
        lemma_same_away_faults(r, c, d, a, b);
    }
}

proof fn lemma_same_use_faults(
    s: Seq<AwEvent>,
    a: Stamp,
    b: Stamp,
    x: Seq<(Stamp, Stamp)>,
    c: Stamp,
    d: Stamp,
    y: Seq<(Stamp, Stamp)>,
)
    requires
        uses(s, a, b, x) is Err,
    ensures
        uses(s, c, d, y) == uses(s, a, b, x),
    decreases s.len(),
{
    let r = s.drop_last();
    if uses(r, a, b, x) is Err {
        lemma_same_use_faults(r, a, b, x, c, d, y);
    } else if uses(r, c, d, y) is Err {
        lemma_same_use_faults(r, c, d, y, a, b, x);
    }
}

/// What keeps events from being summarized does so whatever the stretch.
pub proof fn faults_do_not_depend_on_the_stretch(
    events: Events,
    start: Seq<char>,
    end: Seq<char>,
    start2: Seq<char>,
    end2: Seq<char>,
)
    requires
        instant_of(start) is Some,
        instant_of(end) is Some,
        instant_of(start2) is Some,
        instant_of(end2) is Some,
        summarized(events, start, end) is Err,
    ensures
        summarized(events, start2, end2) == summarized(events, start, end),
{
    let (a, b) = (instant_of(start)->0, instant_of(end)->0);
    let (c, d) = (instant_of(start2)->0, instant_of(end2)->0);
    let (p, q) = (away_spans(events.afk@, a, b), away_spans(events.afk@, c, d));
    if p is Err {
        lemma_same_away_faults(events.afk@, a, b, c, d);
    } else if q is Err {
        lemma_same_away_faults(events.afk@, c, d, a, b);
    } else {
        lemma_same_use_faults(
            events.window@,
            a,
            b,
            union_of(p->Ok_0),
            c,
            d,
            union_of(q->Ok_0),
        );
    }
}

pub proof fn lemma_summary_is_counted(events: Events, start: Seq<char>, end: Seq<char>)
    requires
        steady(events.afk@),
        steady(events.window@),
        on_grid(instant_of(start)->0),
        on_grid(instant_of(end)->0),
        summarized(events, start, end) is Ok,
    ensures
        ({
            let o = summarized(events, start, end)->Ok_0;
            let (lo, hi) = (tick(instant_of(start)->0), tick(instant_of(end)->0));
            let away = away_at(events.afk@);
            &&& o.afk_ms == count(away, lo, hi)
            &&& o.active_ms == worked(events.window@, away, any_app(), lo, hi)
            &&& forall|app: Seq<char>| #[trigger]
                held(o.per_app, app) == worked(events.window@, away, one_app(app), lo, hi)
        }),
{
    let (a, b) = (instant_of(start)->0, instant_of(end)->0);
    let o = summarized(events, start, end)->Ok_0;
    let away = away_at(events.afk@);
    time_away_is_counted(events.afk@, a, b);
    lemma_count_bound(away, tick(a), tick(b));
    time_in_an_app_is_counted(events, a, b, seq![]);
    assert forall|app: Seq<char>| #[trigger] held(o.per_app, app) == worked(
        events.window@,
        away,
        one_app(app),
        tick(a),
        tick(b),
    ) by {
        time_in_an_app_is_counted(events, a, b, app);
    }
}

proof fn lemma_count_bound(p: spec_fn(int) -> bool, lo: int, hi: int)
    ensures
        lo <= hi ==> count(p, lo, hi) <= hi - lo,
        lo > hi ==> count(p, lo, hi) == 0,
    decreases hi - lo,
{
    if lo < hi {
        lemma_count_bound(p, lo, hi - 1);
    }
}

/// Two stretches that adjoin add up to the whole: the time away, the active
/// time, and the time in every application, one that is not listed counting
/// for nothing.
pub proof fn adjoining_stretches_add_up(
    events: Events,
    a: Seq<char>,
    b: Seq<char>,
    c: Seq<char>,
)
    requires
        steady(events.afk@),
        steady(events.window@),
        instant_of(a) is Some && on_grid(instant_of(a)->0),
        instant_of(b) is Some && on_grid(instant_of(b)->0),
        instant_of(c) is Some && on_grid(instant_of(c)->0),
        !earlier(instant_of(b)->0, instant_of(a)->0),
        !earlier(instant_of(c)->0, instant_of(b)->0),
    ensures
        match summarized(events, a, c) {
            Err(e) => summarized(events, a, b) == summarized(events, a, c) && summarized(
                events,
                b,
                c,
            ) == summarized(events, a, c),
            Ok(whole) => {
                let (left, right) = (summarized(events, a, b), summarized(events, b, c));
                &&& left is Ok
                &&& right is Ok
                &&& whole.afk_ms == left->Ok_0.afk_ms + right->Ok_0.afk_ms
                &&& whole.active_ms == left->Ok_0.active_ms + right->Ok_0.active_ms
                &&& forall|app: Seq<char>| #[trigger]
                    held(whole.per_app, app) == held(left->Ok_0.per_app, app) + held(
                        right->Ok_0.per_app,
                        app,
                    )
            },
        },
{
    let (x, y, z) = (instant_of(a)->0, instant_of(b)->0, instant_of(c)->0);
    let (left, right) = (summarized(events, a, b), summarized(events, b, c));
    if summarized(events, a, c) is Err {
        faults_do_not_depend_on_the_stretch(events, a, c, a, b);
        faults_do_not_depend_on_the_stretch(events, a, c, b, c);
    } else {
        if left is Err {
            faults_do_not_depend_on_the_stretch(events, a, b, a, c);
        }
        if right is Err {
            faults_do_not_depend_on_the_stretch(events, b, c, a, c);
        }
        lemma_summary_is_counted(events, a, b);
        lemma_summary_is_counted(events, b, c);
        lemma_summary_is_counted(events, a, c);
        lemma_ticks(y, x);
        lemma_ticks(z, y);
        let (lo, mid, hi) = (tick(x), tick(y), tick(z));
        let away = away_at(events.afk@);
        lemma_count_split(away, lo, mid, hi);
        lemma_worked_split(events.window@, away, any_app(), lo, mid, hi);
        let whole = summarized(events, a, c)->Ok_0;
        assert forall|app: Seq<char>| #[trigger] held(whole.per_app, app) == held(
            left->Ok_0.per_app,
            app,
        ) + held(right->Ok_0.per_app, app) by {
            lemma_worked_split(events.window@, away, one_app(app), lo, mid, hi);
        }
    }
}

} // verus!
