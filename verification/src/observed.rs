//! What the computer was doing: window events clipped to a stretch of time,
//! with the time away taken out, added up per application and per title.
//!
//! Time away is the union of the spans away, whatever the windows did: a
//! locked screen, with no window events at all, still counts as away, and
//! spans that overlap count once.

use vstd::prelude::*;

use crate::aw::AwEvent;
use crate::error::AppError;
use crate::error::Failure;
use crate::json::Doc;
use crate::json::Json;
use crate::sort;
use crate::sort::deep;
use crate::sort::Ranked;
use crate::text;
use crate::time;
use crate::time::earlier;
use crate::time::earliest;
use crate::time::instant_of;
use crate::time::latest;
use crate::time::Stamp;

pub use crate::time::parse_ts;

verus! {

broadcast use vstd::seq_lib::group_seq_properties;

pub const MAX_TITLES_PER_APP: usize = 15;

/// What stands for an application's long tail of titles.
pub const OTHER: &'static str = "(other)";

/// The events of one span, fetched once so that several windows inside it can
/// be summarized.
pub struct Events {
    pub afk: Vec<AwEvent>,
    pub window: Vec<AwEvent>,
}

/// A name and the milliseconds spent on it.
#[derive(Debug)]
pub struct Tally<S = String> {
    pub name: S,
    pub ms: u128,
}

impl DeepView for Tally {
    type V = Tally<Seq<char>>;

    open spec fn deep_view(&self) -> Tally<Seq<char>> {
        Tally { name: self.name@, ms: self.ms }
    }
}

/// An application's titles.
#[derive(Debug)]
pub struct AppTitles<S = String, T = Vec<Tally>> {
    pub app: S,
    pub titles: T,
}

impl DeepView for AppTitles {
    type V = AppTitles<Seq<char>, Seq<Tally<Seq<char>>>>;

    open spec fn deep_view(&self) -> AppTitles<Seq<char>, Seq<Tally<Seq<char>>>> {
        AppTitles { app: self.app@, titles: deep(self.titles@) }
    }
}

/// What was observed of a stretch of time. The lists are in the order of their
/// names, and no name is in one twice.
#[derive(Debug)]
pub struct Observed<A = Vec<Tally>, T = Vec<AppTitles>> {
    pub per_app: A,
    pub per_title: T,
    pub active_ms: u128,
    pub afk_ms: i128,
}

impl DeepView for Observed {
    type V = Observed<Seq<Tally<Seq<char>>>, Seq<AppTitles<Seq<char>, Seq<Tally<Seq<char>>>>>>;

    open spec fn deep_view(&self) -> Observed<
        Seq<Tally<Seq<char>>>,
        Seq<AppTitles<Seq<char>, Seq<Tally<Seq<char>>>>>,
    > {
        Observed {
            per_app: deep(self.per_app@),
            per_title: deep(self.per_title@),
            active_ms: self.active_ms,
            afk_ms: self.afk_ms,
        }
    }
}

// ------------------------------------------------------------------- the spans

/// A stretch of time, its end not in it.
pub struct Span {
    pub start: Stamp,
    pub end: Stamp,
}

impl DeepView for Span {
    type V = (Stamp, Stamp);

    open spec fn deep_view(&self) -> (Stamp, Stamp) {
        (self.start, self.end)
    }
}

pub open spec fn span_leq(a: (Stamp, Stamp), b: (Stamp, Stamp)) -> bool {
    earlier(a.0, b.0) || (a.0 == b.0 && !earlier(b.1, a.1))
}

pub open spec fn span_order() -> spec_fn((Stamp, Stamp), (Stamp, Stamp)) -> bool {
    |a: (Stamp, Stamp), b: (Stamp, Stamp)| span_leq(a, b)
}

impl Ranked for Span {
    open spec fn leq() -> spec_fn((Stamp, Stamp), (Stamp, Stamp)) -> bool {
        span_order()
    }

    proof fn total() {
    }

    fn ranks(&self, other: &Self) -> (r: bool) {
        time::is_earlier(self.start, other.start) || (self.start == other.start
            && !time::is_earlier(other.end, self.end))
    }
}

/// Spans in the order of their starts, joined where they touch or overlap.
pub open spec fn joined(s: Seq<(Stamp, Stamp)>) -> Seq<(Stamp, Stamp)>
    decreases s.len(),
{
    if s.len() == 0 {
        seq![]
    } else {
        let m = joined(s.drop_last());
        let (a, b) = s.last();
        if m.len() > 0 && !earlier(m.last().1, a) {
            m.drop_last().push((m.last().0, latest(m.last().1, b)))
        } else {
            m.push((a, b))
        }
    }
}

/// The union of spans, as spans that do not touch.
pub open spec fn union_of(s: Seq<(Stamp, Stamp)>) -> Seq<(Stamp, Stamp)> {
    joined(s.sort_by(span_order()))
}

/// The union of spans.
pub fn merge_spans(spans: Vec<Span>) -> (r: Vec<Span>)
    ensures
        deep(r@) == union_of(deep(spans@)),
{
    let ghost all = deep(spans@);
    let sorted = sort::sort(spans);
    let ghost s = deep(sorted@);
    let mut merged: Vec<Span> = Vec::new();
    let mut i: usize = 0;
    proof {
        assert(s.take(0) =~= seq![]);
        assert(deep(merged@) =~= seq![]);
    }
    while i < sorted.len()
        invariant
            i <= sorted.len(),
            s == deep(sorted@),
            deep(merged@) == joined(s.take(i as int)),
        decreases sorted.len() - i,
    {
        let (a, b) = (sorted[i].start, sorted[i].end);
        let ghost m = deep(merged@);
        proof {
            assert(s.take(i + 1).drop_last() =~= s.take(i as int));
            assert(s.take(i + 1).last() == (a, b));
        }
        let n = merged.len();
        let touches = n > 0 && !time::is_earlier(merged[n - 1].end, a);
        proof {
            if n > 0 {
                assert(m.last() == merged@[n - 1].deep_view());
            }
        }
        if touches {
            let span = Span {
                start: merged[n - 1].start,
                end: time::later_of(merged[n - 1].end, b),
            };
            let ghost v = span.deep_view();
            merged.set(n - 1, span);
            proof {
                assert(deep(merged@) =~= m.drop_last().push(v));
            }
        } else {
            merged.push(Span { start: a, end: b });
            proof {
                assert(deep(merged@) =~= m.push((a, b)));
            }
        }
        i = i + 1;
    }
    proof {
        assert(s.take(s.len() as int) =~= s);
    }
    merged
}

/// Some span holds the instant.
pub open spec fn covers(s: Seq<(Stamp, Stamp)>, t: Stamp) -> bool {
    exists|i: int| 0 <= i < s.len() && !earlier(t, (#[trigger] s[i]).0) && earlier(t, s[i].1)
}

/// Every span has a length.
pub open spec fn proper(s: Seq<(Stamp, Stamp)>) -> bool {
    forall|i: int| 0 <= i < s.len() ==> earlier((#[trigger] s[i]).0, s[i].1)
}

pub open spec fn starts_ascend(s: Seq<(Stamp, Stamp)>) -> bool {
    forall|i: int, j: int|
        0 <= i < j < s.len() ==> !earlier((#[trigger] s[j]).0, (#[trigger] s[i]).0)
}

/// Each span ends before the next one starts.
pub open spec fn apart(s: Seq<(Stamp, Stamp)>) -> bool {
    forall|i: int, j: int|
        0 <= i < j < s.len() ==> earlier((#[trigger] s[i]).1, (#[trigger] s[j]).0)
}

pub proof fn lemma_covers_push(s: Seq<(Stamp, Stamp)>, x: (Stamp, Stamp), t: Stamp)
    ensures
        covers(s.push(x), t) <==> covers(s, t) || (!earlier(t, x.0) && earlier(t, x.1)),
{
    let p = s.push(x);
    if covers(s, t) {
        let i = choose|i: int|
            0 <= i < s.len() && !earlier(t, (#[trigger] s[i]).0) && earlier(t, s[i].1);
        assert(p[i] == s[i]);
    }
    if !earlier(t, x.0) && earlier(t, x.1) {
        assert(p[s.len() as int] == x);
    }
    if covers(p, t) {
        let i = choose|i: int|
            0 <= i < p.len() && !earlier(t, (#[trigger] p[i]).0) && earlier(t, p[i].1);
        if i < s.len() {
            assert(s[i] == p[i]);
        }
    }
}

proof fn lemma_joined(s: Seq<(Stamp, Stamp)>)
    requires
        proper(s),
        starts_ascend(s),
    ensures
        proper(joined(s)),
        apart(joined(s)),
        s.len() > 0 ==> joined(s).len() > 0 && !earlier(s.last().0, joined(s).last().0),
        forall|t: Stamp| #[trigger] covers(joined(s), t) <==> covers(s, t),
    decreases s.len(),
{
    if s.len() > 0 {
        let r = s.drop_last();
        let x = s.last();
        assert(proper(r)) by {
            assert forall|i: int| 0 <= i < r.len() implies earlier((#[trigger] r[i]).0, r[i].1) by {
                assert(r[i] == s[i]);
            }
        }
        assert(starts_ascend(r)) by {
            assert forall|i: int, j: int| 0 <= i < j < r.len() implies !earlier(
                (#[trigger] r[j]).0,
                (#[trigger] r[i]).0,
            ) by {
                assert(r[i] == s[i] && r[j] == s[j]);
            }
        }
        lemma_joined(r);
        let m = joined(r);
        let n = joined(s);
        assert(s =~= r.push(x));
        assert(earlier(x.0, x.1)) by {
            assert(s[s.len() - 1] == x);
        }
        if m.len() > 0 && !earlier(m.last().1, x.0) {
            let l = m.last();
            let y = (l.0, latest(l.1, x.1));
            let h = m.drop_last();
            assert(n == h.push(y));
            assert(m =~= h.push(l));
            if r.len() > 0 {
                assert(!earlier(s[s.len() - 1].0, s[r.len() - 1].0));
            }
            assert(!earlier(x.0, l.0));
            assert forall|t: Stamp| #[trigger] covers(n, t) <==> covers(s, t) by {
                lemma_covers_push(h, y, t);
                lemma_covers_push(h, l, t);
                lemma_covers_push(r, x, t);
                assert(covers(m, t) <==> covers(r, t));
            }
            assert(proper(n)) by {
                assert(earlier(m[m.len() - 1].0, m[m.len() - 1].1));
                assert forall|i: int| 0 <= i < n.len() implies earlier(
                    (#[trigger] n[i]).0,
                    n[i].1,
                ) by {
                    if i < h.len() {
                        assert(n[i] == m[i]);
                    }
                }
            }
            assert(apart(n)) by {
                assert forall|i: int, j: int| 0 <= i < j < n.len() implies earlier(
                    (#[trigger] n[i]).1,
                    (#[trigger] n[j]).0,
                ) by {
                    assert(n[i] == m[i]);
                    if j < h.len() {
                        assert(n[j] == m[j]);
                    } else {
                        assert(n[j].0 == m[m.len() - 1].0);
                    }
                    assert(earlier(m[i].1, m[j].0));
                }
            }
        } else {
            assert(n == m.push(x));
            assert forall|t: Stamp| #[trigger] covers(n, t) <==> covers(s, t) by {
                lemma_covers_push(m, x, t);
                lemma_covers_push(r, x, t);
                assert(covers(m, t) <==> covers(r, t));
            }
            assert(proper(n)) by {
                assert forall|i: int| 0 <= i < n.len() implies earlier(
                    (#[trigger] n[i]).0,
                    n[i].1,
                ) by {
                    if i < m.len() {
                        assert(n[i] == m[i]);
                    }
                }
            }
            assert(apart(n)) by {
                assert forall|i: int, j: int| 0 <= i < j < n.len() implies earlier(
                    (#[trigger] n[i]).1,
                    (#[trigger] n[j]).0,
                ) by {
                    assert(n[i] == m[i]);
                    if j < m.len() {
                        assert(n[j] == m[j]);
                        assert(earlier(m[i].1, m[j].0));
                    } else if i < m.len() - 1 {
                        assert(earlier(m[i].1, m[m.len() - 1].0));
                        assert(earlier(m[m.len() - 1].0, m[m.len() - 1].1));
                    }
                }
            }
        }
    }
}

/// The union covers an instant exactly where one of the spans does, and its
/// spans have gaps between them: nothing is counted twice.
pub proof fn union_counts_once(s: Seq<(Stamp, Stamp)>)
    requires
        proper(s),
    ensures
        proper(union_of(s)),
        apart(union_of(s)),
        forall|t: Stamp| #[trigger] covers(union_of(s), t) <==> covers(s, t),
{
    Span::total();
    let order = span_order();
    s.lemma_sort_by_ensures(order);
    let o = s.sort_by(order);
    assert(forall|x: (Stamp, Stamp)| s.contains(x) <==> o.contains(x)) by {
        broadcast use vstd::seq_lib::group_to_multiset_ensures;

        assert forall|x: (Stamp, Stamp)| s.contains(x) <==> o.contains(x) by {
            assert(s.to_multiset().count(x) == o.to_multiset().count(x));
        }
    }
    assert(proper(o)) by {
        assert forall|i: int| 0 <= i < o.len() implies earlier((#[trigger] o[i]).0, o[i].1) by {
            assert(o.contains(o[i]));
            assert(s.contains(o[i]));
            let k = choose|k: int| 0 <= k < s.len() && s[k] == o[i];
            assert(earlier(s[k].0, s[k].1));
        }
    }
    assert(starts_ascend(o)) by {
        assert forall|i: int, j: int| 0 <= i < j < o.len() implies !earlier(
            (#[trigger] o[j]).0,
            (#[trigger] o[i]).0,
        ) by {
            assert(order(o[i], o[j]));
        }
    }
    lemma_joined(o);
    assert forall|t: Stamp| #[trigger] covers(union_of(s), t) <==> covers(s, t) by {
        assert(covers(o, t) <==> covers(s, t)) by {
            if covers(o, t) {
                let i = choose|i: int|
                    0 <= i < o.len() && !earlier(t, (#[trigger] o[i]).0) && earlier(t, o[i].1);
                assert(o.contains(o[i]));
                assert(s.contains(o[i]));
                let k = choose|k: int| 0 <= k < s.len() && s[k] == o[i];
                assert(!earlier(t, s[k].0));
            }
            if covers(s, t) {
                let i = choose|i: int|
                    0 <= i < s.len() && !earlier(t, (#[trigger] s[i]).0) && earlier(t, s[i].1);
                assert(s.contains(s[i]));
                assert(o.contains(s[i]));
                let k = choose|k: int| 0 <= k < o.len() && o[k] == s[i];
                assert(!earlier(t, o[k].0));
            }
        }
    }
}

// ------------------------------------------------------------------ the tallies

/// All the milliseconds of a list.
pub open spec fn total(s: Seq<Tally<Seq<char>>>) -> nat
    decreases s.len(),
{
    if s.len() == 0 {
        0
    } else {
        total(s.drop_last()) + s.last().ms as nat
    }
}

/// The list with some milliseconds more on a name, put in its place where it
/// was not there.
pub open spec fn added(s: Seq<Tally<Seq<char>>>, name: Seq<char>, ms: u128) -> Seq<
    Tally<Seq<char>>,
>
    decreases s.len(),
{
    if s.len() == 0 {
        seq![Tally { name, ms }]
    } else if s[0].name == name {
        s.update(0, Tally { name, ms: (s[0].ms + ms) as u128 })
    } else if text::before(name, s[0].name) {
        seq![Tally { name, ms }] + s
    } else {
        seq![s[0]] + added(s.drop_first(), name, ms)
    }
}

proof fn lemma_total_front(x: Tally<Seq<char>>, s: Seq<Tally<Seq<char>>>)
    ensures
        total(seq![x] + s) == x.ms + total(s),
    decreases s.len(),
{
    let t = seq![x] + s;
    if s.len() == 0 {
        assert(t.drop_last() =~= seq![]);
        assert(t.last() == x);
        assert(total(t.drop_last()) == 0);
    } else {
        assert(t.drop_last() =~= seq![x] + s.drop_last());
        assert(t.last() == s.last());
        lemma_total_front(x, s.drop_last());
    }
}

/// Adding milliseconds to a name adds them to the total.
pub proof fn lemma_added_total(s: Seq<Tally<Seq<char>>>, name: Seq<char>, ms: u128)
    requires
        total(s) + ms <= u128::MAX,
    ensures
        total(added(s, name, ms)) == total(s) + ms,
    decreases s.len(),
{
    if s.len() == 0 {
        let t = seq![Tally { name, ms }];
        assert(t.drop_last() =~= seq![]);
        assert(t.last().ms == ms);
        assert(total(t.drop_last()) == 0);
    } else {
        let d = s.drop_first();
        assert(s =~= seq![s[0]] + d);
        lemma_total_front(s[0], d);
        if s[0].name == name {
            let x = Tally { name, ms: (s[0].ms + ms) as u128 };
            assert(s.update(0, x) =~= seq![x] + d);
            lemma_total_front(x, d);
        } else if text::before(name, s[0].name) {
            lemma_total_front(Tally { name, ms }, s);
        } else {
            lemma_added_total(d, name, ms);
            lemma_total_front(s[0], added(d, name, ms));
        }
    }
}

proof fn lemma_entry_below_total(s: Seq<Tally<Seq<char>>>, i: int)
    requires
        0 <= i < s.len(),
    ensures
        s[i].ms <= total(s),
    decreases s.len(),
{
    if i < s.len() - 1 {
        assert(s.drop_last()[i] == s[i]);
        lemma_entry_below_total(s.drop_last(), i);
    }
}

/// Where a name stands in a list, or is to be put.
spec fn place(s: Seq<Tally<Seq<char>>>, name: Seq<char>, k: int) -> bool {
    &&& 0 <= k <= s.len()
    &&& forall|i: int|
        0 <= i < k ==> (#[trigger] s[i]).name != name && !text::before(name, s[i].name)
    &&& k < s.len() ==> s[k].name == name || text::before(name, s[k].name)
}

/// To add is to change or to put in the entry at the name's place.
proof fn lemma_added_at(s: Seq<Tally<Seq<char>>>, name: Seq<char>, ms: u128, k: int)
    requires
        place(s, name, k),
    ensures
        added(s, name, ms) == if k < s.len() && s[k].name == name {
            s.update(k, Tally { name, ms: (s[k].ms + ms) as u128 })
        } else {
            s.insert(k, Tally { name, ms })
        },
    decreases k,
{
    let x = Tally { name, ms };
    if k == 0 {
        assert(s.insert(0, x) =~= seq![x] + s);
    } else {
        let d = s.drop_first();
        assert forall|i: int| 0 <= i < k - 1 implies (#[trigger] d[i]).name != name
            && !text::before(name, d[i].name) by {
            assert(d[i] == s[i + 1]);
        }
        lemma_added_at(d, name, ms, k - 1);
        assert(s[0].name != name && !text::before(name, s[0].name));
        if k < s.len() && s[k].name == name {
            let y = Tally { name, ms: (s[k].ms + ms) as u128 };
            assert(seq![s[0]] + d.update(k - 1, y) =~= s.update(k, y));
        } else {
            assert(seq![s[0]] + d.insert(k - 1, x) =~= s.insert(k, x));
        }
    }
}

fn find_place(v: &Vec<Tally>, name: &str) -> (k: usize)
    ensures
        place(deep(v@), name@, k as int),
{
    let ghost s = deep(v@);
    let mut k: usize = 0;
    while k < v.len() && !text::same(v[k].name.as_str(), name) && !text::is_before(
        name,
        v[k].name.as_str(),
    )
        invariant
            k <= v.len(),
            s == deep(v@),
            forall|i: int|
                0 <= i < k ==> (#[trigger] s[i]).name != name@ && !text::before(name@, s[i].name),
        decreases v.len() - k,
    {
        k = k + 1;
    }
    k
}

/// Puts some milliseconds on a name.
fn add_to(v: &mut Vec<Tally>, name: &str, ms: u128)
    requires
        total(deep(old(v)@)) + ms <= u128::MAX,
    ensures
        deep(final(v)@) == added(deep(old(v)@), name@, ms),
        total(deep(final(v)@)) == total(deep(old(v)@)) + ms,
{
    let ghost s = deep(v@);
    let k = find_place(v, name);
    proof {
        lemma_added_total(s, name@, ms);
        lemma_added_at(s, name@, ms, k as int);
    }
    if k < v.len() && text::same(v[k].name.as_str(), name) {
        proof {
            lemma_entry_below_total(s, k as int);
        }
        let entry = Tally { name: text::owned(name), ms: v[k].ms + ms };
        let ghost x = entry.deep_view();
        v.set(k, entry);
        proof {
            assert(deep(v@) =~= s.update(k as int, x));
        }
    } else {
        let entry = Tally { name: text::owned(name), ms };
        let ghost x = entry.deep_view();
        v.insert(k, entry);
        proof {
            assert(deep(v@) =~= s.insert(k as int, x));
        }
    }
}

/// The names of a list go up, and none is there twice.
pub open spec fn names_ascend(s: Seq<Tally<Seq<char>>>) -> bool {
    forall|i: int, j: int|
        0 <= i < j < s.len() ==> text::before((#[trigger] s[i]).name, (#[trigger] s[j]).name)
}

/// A list in the order of its names stays so, and holds the names it held and
/// the one that was added.
proof fn lemma_added_ascends(s: Seq<Tally<Seq<char>>>, name: Seq<char>, ms: u128)
    requires
        names_ascend(s),
    ensures
        names_ascend(added(s, name, ms)),
        forall|i: int|
            0 <= i < added(s, name, ms).len() ==> (#[trigger] added(s, name, ms)[i]).name == name
                || exists|k: int| 0 <= k < s.len() && (#[trigger] s[k]).name == added(
                s,
                name,
                ms,
            )[i].name,
    decreases s.len(),
{
    let t = added(s, name, ms);
    if s.len() > 0 {
        let d = s.drop_first();
        assert(names_ascend(d)) by {
            assert forall|i: int, j: int| 0 <= i < j < d.len() implies text::before(
                (#[trigger] d[i]).name,
                (#[trigger] d[j]).name,
            ) by {
                assert(d[i] == s[i + 1] && d[j] == s[j + 1]);
            }
        }
        if s[0].name == name {
            assert forall|i: int, j: int| 0 <= i < j < t.len() implies text::before(
                (#[trigger] t[i]).name,
                (#[trigger] t[j]).name,
            ) by {
                assert(t[i].name == s[i].name && t[j].name == s[j].name);
            }
            assert forall|i: int| 0 <= i < t.len() implies (#[trigger] t[i]).name == name || exists|
                k: int,
            |
                0 <= k < s.len() && (#[trigger] s[k]).name == t[i].name by {
                assert(t[i].name == s[i].name);
            }
        } else if text::before(name, s[0].name) {
            assert forall|i: int, j: int| 0 <= i < j < t.len() implies text::before(
                (#[trigger] t[i]).name,
                (#[trigger] t[j]).name,
            ) by {
                assert(t[j] == s[j - 1]);
                if i == 0 {
                    if j > 1 {
                        assert(text::before(s[0].name, s[j - 1].name));
                        text::lemma_before_transitive(name, s[0].name, s[j - 1].name);
                    }
                } else {
                    assert(t[i] == s[i - 1]);
                }
            }
            assert forall|i: int| 0 <= i < t.len() implies (#[trigger] t[i]).name == name || exists|
                k: int,
            |
                0 <= k < s.len() && (#[trigger] s[k]).name == t[i].name by {
                if i > 0 {
                    assert(t[i] == s[i - 1]);
                }
            }
        } else {
            lemma_added_ascends(d, name, ms);
            let u = added(d, name, ms);
            text::lemma_before_total(name, s[0].name);
            assert forall|j: int| 0 <= j < u.len() implies text::before(
                s[0].name,
                (#[trigger] u[j]).name,
            ) by {
                if u[j].name != name {
                    let k = choose|k: int| 0 <= k < d.len() && (#[trigger] d[k]).name == u[j].name;
                    assert(d[k] == s[k + 1]);
                    assert(text::before(s[0].name, s[k + 1].name));
                }
            }
            assert forall|i: int, j: int| 0 <= i < j < t.len() implies text::before(
                (#[trigger] t[i]).name,
                (#[trigger] t[j]).name,
            ) by {
                assert(t[j] == u[j - 1]);
                if i > 0 {
                    assert(t[i] == u[i - 1]);
                }
            }
            assert forall|i: int| 0 <= i < t.len() implies (#[trigger] t[i]).name == name || exists|
                k: int,
            |
                0 <= k < s.len() && (#[trigger] s[k]).name == t[i].name by {
                if i == 0 {
                    assert(t[0] == s[0]);
                } else {
                    assert(t[i] == u[i - 1]);
                    if u[i - 1].name != name {
                        let k = choose|k: int|
                            0 <= k < d.len() && (#[trigger] d[k]).name == u[i - 1].name;
                        assert(d[k] == s[k + 1]);
                    }
                }
            }
        }
    }
}

/// The longest-running first; by name where two ran as long.
pub open spec fn longer(a: Tally<Seq<char>>, b: Tally<Seq<char>>) -> bool {
    a.ms > b.ms || (a.ms == b.ms && !text::before(b.name, a.name))
}

pub open spec fn longest_first() -> spec_fn(Tally<Seq<char>>, Tally<Seq<char>>) -> bool {
    |a: Tally<Seq<char>>, b: Tally<Seq<char>>| longer(a, b)
}

impl Ranked for Tally {
    open spec fn leq() -> spec_fn(Tally<Seq<char>>, Tally<Seq<char>>) -> bool {
        longest_first()
    }

    proof fn total() {
        let leq = Self::leq();
        assert forall|a: Tally<Seq<char>>| #[trigger] leq(a, a) by {
            text::lemma_before_irreflexive(a.name);
        }
        assert forall|a: Tally<Seq<char>>, b: Tally<Seq<char>>| #[trigger] leq(a, b)
            && #[trigger] leq(b, a) implies a == b by {
            text::lemma_before_total(a.name, b.name);
        }
        assert forall|a: Tally<Seq<char>>, b: Tally<Seq<char>>, c: Tally<Seq<char>>| #[trigger]
            leq(a, b) && #[trigger] leq(b, c) implies leq(a, c) by {
            if a.ms == b.ms && b.ms == c.ms && text::before(c.name, a.name) {
                text::lemma_before_total(a.name, b.name);
                text::lemma_before_total(b.name, c.name);
                if a.name != b.name && b.name != c.name {
                    text::lemma_before_transitive(a.name, b.name, c.name);
                    text::lemma_before_transitive(a.name, c.name, a.name);
                    text::lemma_before_irreflexive(a.name);
                }
            }
        }
        assert forall|a: Tally<Seq<char>>, b: Tally<Seq<char>>| #[trigger] leq(a, b)
            || #[trigger] leq(b, a) by {
            if text::before(a.name, b.name) && text::before(b.name, a.name) {
                text::lemma_before_transitive(a.name, b.name, a.name);
                text::lemma_before_irreflexive(a.name);
            }
        }
    }

    fn ranks(&self, other: &Self) -> (r: bool) {
        self.ms > other.ms || (self.ms == other.ms && !text::is_before(
            other.name.as_str(),
            self.name.as_str(),
        ))
    }
}

/// Every entry of a list added to another, one after the other.
pub open spec fn added_all(s: Seq<Tally<Seq<char>>>, t: Seq<Tally<Seq<char>>>) -> Seq<
    Tally<Seq<char>>,
>
    decreases t.len(),
{
    if t.len() == 0 {
        s
    } else {
        added(added_all(s, t.drop_last()), t.last().name, t.last().ms)
    }
}

/// The longest-running titles, and the rest rolled into one.
pub open spec fn capped(s: Seq<Tally<Seq<char>>>, keep: int) -> Seq<Tally<Seq<char>>> {
    if s.len() <= keep {
        s
    } else {
        let r = s.sort_by(longest_first());
        added(added_all(seq![], r.take(keep)), OTHER@, total(r.skip(keep)) as u128)
    }
}

pub proof fn lemma_total_concat(s: Seq<Tally<Seq<char>>>, t: Seq<Tally<Seq<char>>>)
    ensures
        total(s + t) == total(s) + total(t),
    decreases t.len(),
{
    if t.len() == 0 {
        assert(s + t =~= s);
    } else {
        assert((s + t).drop_last() =~= s + t.drop_last());
        assert((s + t).last() == t.last());
        lemma_total_concat(s, t.drop_last());
    }
}

/// The order of a list does not matter to its total.
pub proof fn lemma_total_permuted(s: Seq<Tally<Seq<char>>>, t: Seq<Tally<Seq<char>>>)
    requires
        s.to_multiset() == t.to_multiset(),
    ensures
        total(s) == total(t),
        s.len() == t.len(),
    decreases s.len(),
{
    broadcast use vstd::seq_lib::group_to_multiset_ensures;

    assert(s.len() == s.to_multiset().len());
    assert(t.len() == t.to_multiset().len());
    if s.len() > 0 {
        let x = s.last();
        assert(s.contains(x));
        assert(s.to_multiset().count(x) > 0);
        assert(t.contains(x));
        let k = choose|k: int| 0 <= k < t.len() && t[k] == x;
        let u = t.remove(k);
        assert(s.remove(s.len() - 1) =~= s.drop_last());
        assert(s.drop_last().to_multiset() =~= s.to_multiset().remove(x));
        assert(u.to_multiset() =~= t.to_multiset().remove(x));
        lemma_total_permuted(s.drop_last(), u);
        let (a, b) = (t.take(k), t.skip(k + 1));
        assert(u =~= a + b);
        assert(t =~= a + (seq![x] + b));
        lemma_total_concat(a, b);
        lemma_total_concat(a, seq![x] + b);
        lemma_total_front(x, b);
    }
}

proof fn lemma_added_all_total(s: Seq<Tally<Seq<char>>>, t: Seq<Tally<Seq<char>>>)
    requires
        total(s) + total(t) <= u128::MAX,
    ensures
        total(added_all(s, t)) == total(s) + total(t),
    decreases t.len(),
{
    if t.len() > 0 {
        lemma_added_all_total(s, t.drop_last());
        lemma_added_total(added_all(s, t.drop_last()), t.last().name, t.last().ms);
    }
}

/// However many titles are rolled up, an application's titles still sum to its
/// total.
pub proof fn capped_titles_still_sum(s: Seq<Tally<Seq<char>>>, keep: int)
    requires
        0 <= keep,
        total(s) <= u128::MAX,
    ensures
        total(capped(s, keep)) == total(s),
{
    if s.len() > keep {
        let r = s.sort_by(longest_first());
        Tally::total();
        s.lemma_sort_by_ensures(longest_first());
        lemma_total_permuted(s, r);
        assert(r =~= r.take(keep) + r.skip(keep));
        lemma_total_concat(r.take(keep), r.skip(keep));
        lemma_added_all_total(seq![], r.take(keep));
        lemma_added_total(
            added_all(seq![], r.take(keep)),
            OTHER@,
            total(r.skip(keep)) as u128,
        );
    }
}

/// Keeps the longest-running titles. The tail becomes one entry rather than
/// being dropped, so an application's titles still sum to its total.
pub fn cap_titles(titles: Vec<Tally>, keep: usize) -> (r: Vec<Tally>)
    requires
        total(deep(titles@)) <= u128::MAX,
    ensures
        deep(r@) == capped(deep(titles@), keep as int),
        total(deep(r@)) == total(deep(titles@)),
{
    let ghost s = deep(titles@);
    proof {
        capped_titles_still_sum(s, keep as int);
    }
    if titles.len() <= keep {
        return titles;
    }
    let ranked = sort::sort(titles);
    let ghost r = deep(ranked@);
    proof {
        Tally::total();
        s.lemma_sort_by_ensures(longest_first());
        lemma_total_permuted(s, r);
        assert(r =~= r.take(keep as int) + r.skip(keep as int));
        lemma_total_concat(r.take(keep as int), r.skip(keep as int));
    }
    let mut kept: Vec<Tally> = Vec::new();
    let mut i: usize = 0;
    proof {
        assert(deep(kept@) =~= seq![]);
        assert(r.take(keep as int).take(0) =~= seq![]);
    }
    while i < keep
        invariant
            i <= keep < ranked.len(),
            r == deep(ranked@),
            total(r.take(keep as int)) <= u128::MAX,
            deep(kept@) == added_all(seq![], r.take(i as int)),
            total(deep(kept@)) == total(r.take(i as int)),
        decreases keep - i,
    {
        proof {
            let h = r.take(keep as int);
            assert(r.take(i + 1).drop_last() =~= r.take(i as int));
            assert(r.take(i + 1).last() == ranked@[i as int].deep_view());
            assert(h =~= r.take(i + 1) + h.skip(i + 1));
            lemma_total_concat(r.take(i + 1), h.skip(i + 1));
        }
        add_to(&mut kept, ranked[i].name.as_str(), ranked[i].ms);
        i = i + 1;
    }
    let mut tail: u128 = 0;
    let mut k: usize = keep;
    proof {
        assert(r.subrange(keep as int, keep as int) =~= seq![]);
    }
    while k < ranked.len()
        invariant
            keep <= k <= ranked.len(),
            r == deep(ranked@),
            total(r.skip(keep as int)) <= u128::MAX,
            tail == total(r.subrange(keep as int, k as int)),
        decreases ranked.len() - k,
    {
        proof {
            let h = r.skip(keep as int);
            let p = r.subrange(keep as int, k + 1);
            assert(p.drop_last() =~= r.subrange(keep as int, k as int));
            assert(p.last() == ranked@[k as int].deep_view());
            assert(h =~= p + r.skip(k + 1));
            lemma_total_concat(p, r.skip(k + 1));
        }
        tail = tail + ranked[k].ms;
        k = k + 1;
    }
    proof {
        assert(r.subrange(keep as int, r.len() as int) =~= r.skip(keep as int));
    }
    add_to(&mut kept, OTHER, tail);
    kept
}

// ------------------------------------------------------------------ the summary

/// Where an event that began at `t` ends; `None` past the calendar's end.
pub open spec fn end_of(t: Stamp, ms: i64) -> Option<Stamp> {
    if ms == i64::MIN {
        None
    } else {
        time::shifted(t, ms)
    }
}

/// The part of an event inside a stretch of time, if any is. An event whose
/// start cannot be read, or that ends past the calendar's end, is refused.
pub open spec fn clipped(ev: AwEvent, start: Stamp, end: Stamp) -> Result<
    Option<(Stamp, Stamp)>,
    Failure,
> {
    match instant_of(ev.timestamp@) {
        None => Err(Failure::BadTimestamp(ev.timestamp@)),
        Some(t) => match end_of(t, ev.duration_ms) {
            None => Err(Failure::BadTimestamp(ev.timestamp@)),
            Some(e) => {
                let a = latest(t, start);
                let b = earliest(e, end);
                if earlier(a, b) {
                    Ok(Some((a, b)))
                } else {
                    Ok(None)
                }
            },
        },
    }
}

fn clip(ev: &AwEvent, start: Stamp, end: Stamp) -> (r: Result<Option<Span>, AppError>)
    requires
        time::valid(start),
        time::valid(end),
    ensures
        match r {
            Ok(Some(s)) => clipped(*ev, start, end) == Ok::<Option<(Stamp, Stamp)>, Failure>(
                Some(s.deep_view()),
            ) && time::valid(s.start) && time::valid(s.end),
            Ok(None) => clipped(*ev, start, end) == Ok::<Option<(Stamp, Stamp)>, Failure>(None),
            Err(e) => clipped(*ev, start, end) == Err::<Option<(Stamp, Stamp)>, Failure>(e@),
        },
{
    let t = match parse_ts(ev.timestamp.as_str()) {
        Ok(t) => t,
        Err(e) => {
            return Err(e);
        },
    };
    let e = if ev.duration_ms == i64::MIN {
        None
    } else {
        time::shift(t, ev.duration_ms)
    };
    match e {
        None => Err(AppError::BadTimestamp(text::owned(ev.timestamp.as_str()))),
        Some(e) => {
            let a = time::later_of(t, start);
            let b = time::earlier_of(e, end);
            if time::is_earlier(a, b) {
                Ok(Some(Span { start: a, end: b }))
            } else {
                Ok(None)
            }
        },
    }
}

/// The event says that the user is away.
pub open spec fn says_away(ev: AwEvent) -> bool {
    ev.data.deep_view().field("status"@).string() == Some("afk"@)
}

/// The spans in which the user was away, clipped to the stretch.
pub open spec fn away_spans(s: Seq<AwEvent>, start: Stamp, end: Stamp) -> Result<
    Seq<(Stamp, Stamp)>,
    Failure,
>
    decreases s.len(),
{
    if s.len() == 0 {
        Ok(seq![])
    } else {
        match away_spans(s.drop_last(), start, end) {
            Err(e) => Err(e),
            Ok(spans) => if !says_away(s.last()) {
                Ok(spans)
            } else {
                match clipped(s.last(), start, end) {
                    Err(e) => Err(e),
                    Ok(None) => Ok(spans),
                    Ok(Some(x)) => Ok(spans.push(x)),
                }
            },
        }
    }
}

proof fn lemma_away_fails(s: Seq<AwEvent>, start: Stamp, end: Stamp, k: int)
    requires
        0 <= k <= s.len(),
        away_spans(s.take(k), start, end) is Err,
    ensures
        away_spans(s, start, end) == away_spans(s.take(k), start, end),
    decreases s.len(),
{
    if k == s.len() {
        assert(s.take(k) =~= s);
    } else {
        assert(s.drop_last().take(k) =~= s.take(k));
        lemma_away_fails(s.drop_last(), start, end, k);
    }
}

/// Every span lies on the calendar.
pub open spec fn on_calendar(s: Seq<(Stamp, Stamp)>) -> bool {
    forall|i: int| 0 <= i < s.len() ==> time::valid((#[trigger] s[i]).0) && time::valid(s[i].1)
}

fn find_away(v: &Vec<AwEvent>, start: Stamp, end: Stamp) -> (r: Result<Vec<Span>, AppError>)
    requires
        time::valid(start),
        time::valid(end),
    ensures
        match r {
            Ok(s) => away_spans(v@, start, end) == Ok::<Seq<(Stamp, Stamp)>, Failure>(deep(s@))
                && on_calendar(deep(s@)),
            Err(e) => away_spans(v@, start, end) == Err::<Seq<(Stamp, Stamp)>, Failure>(e@),
        },
{
    let mut spans: Vec<Span> = Vec::new();
    let mut i: usize = 0;
    proof {
        assert(deep(spans@) =~= seq![]);
        assert(v@.take(0) =~= seq![]);
    }
    while i < v.len()
        invariant
            i <= v.len(),
            time::valid(start),
            time::valid(end),
            away_spans(v@.take(i as int), start, end) == Ok::<Seq<(Stamp, Stamp)>, Failure>(
                deep(spans@),
            ),
            on_calendar(deep(spans@)),
        decreases v.len() - i,
    {
        let ghost t = v@.take(i + 1);
        proof {
            assert(t.drop_last() =~= v@.take(i as int));
            assert(t.last() == v@[i as int]);
        }
        let away = match v[i].data.str_at("status") {
            Some(status) => text::same(status, "afk"),
            None => false,
        };
        if away {
            match clip(&v[i], start, end) {
                Err(e) => {
                    proof {
                        lemma_away_fails(v@, start, end, i + 1);
                    }
                    return Err(e);
                },
                Ok(None) => {},
                Ok(Some(span)) => {
                    let ghost m = deep(spans@);
                    let ghost x = span.deep_view();
                    spans.push(span);
                    proof {
                        assert(deep(spans@) =~= m.push(x));
                    }
                },
            }
        }
        i = i + 1;
    }
    proof {
        assert(v@.take(v@.len() as int) =~= v@);
    }
    Ok(spans)
}

/// The milliseconds of a list of spans.
pub open spec fn span_ms(s: Seq<(Stamp, Stamp)>) -> int
    decreases s.len(),
{
    if s.len() == 0 {
        0
    } else {
        span_ms(s.drop_last()) + time::apart(s.last().1, s.last().0)
    }
}

fn add_spans(v: &Vec<Span>) -> (ms: i128)
    requires
        on_calendar(deep(v@)),
    ensures
        ms == span_ms(deep(v@)),
{
    let ghost s = deep(v@);
    let mut ms: i128 = 0;
    let mut i: usize = 0;
    proof {
        assert(s.take(0) =~= seq![]);
    }
    while i < v.len()
        invariant
            i <= v.len(),
            s == deep(v@),
            on_calendar(s),
            ms == span_ms(s.take(i as int)),
            i64::MIN * i <= ms <= i64::MAX * i,
        decreases v.len() - i,
    {
        proof {
            assert(s.take(i + 1).drop_last() =~= s.take(i as int));
            assert(s[i as int] == v@[i as int].deep_view());
            assert(i64::MIN * i + i64::MIN == i64::MIN * (i + 1)) by (nonlinear_arith);
            assert(i64::MAX * i + i64::MAX == i64::MAX * (i + 1)) by (nonlinear_arith);
        }
        ms = ms + time::millis_between(v[i].end, v[i].start) as i128;
        i = i + 1;
    }
    proof {
        assert(s.take(s.len() as int) =~= s);
    }
    ms
}

/// The milliseconds that a list of spans takes out of a stretch.
pub open spec fn overlap_ms(s: Seq<(Stamp, Stamp)>, a: Stamp, b: Stamp) -> int
    decreases s.len(),
{
    if s.len() == 0 {
        0
    } else {
        let o = time::apart(earliest(b, s.last().1), latest(a, s.last().0));
        overlap_ms(s.drop_last(), a, b) + (if o > 0 {
            o as int
        } else {
            0
        })
    }
}

fn add_overlaps(v: &Vec<Span>, a: Stamp, b: Stamp) -> (ms: i128)
    requires
        on_calendar(deep(v@)),
        time::valid(a),
        time::valid(b),
    ensures
        ms == overlap_ms(deep(v@), a, b),
        0 <= ms <= i64::MAX * v@.len(),
{
    let ghost s = deep(v@);
    let mut ms: i128 = 0;
    let mut i: usize = 0;
    proof {
        assert(s.take(0) =~= seq![]);
    }
    while i < v.len()
        invariant
            i <= v.len(),
            s == deep(v@),
            on_calendar(s),
            time::valid(a),
            time::valid(b),
            ms == overlap_ms(s.take(i as int), a, b),
            0 <= ms <= i64::MAX * i,
        decreases v.len() - i,
    {
        proof {
            assert(s.take(i + 1).drop_last() =~= s.take(i as int));
            assert(s[i as int] == v@[i as int].deep_view());
            assert(i64::MAX * i + i64::MAX == i64::MAX * (i + 1)) by (nonlinear_arith);
        }
        let o = time::millis_between(
            time::earlier_of(b, v[i].end),
            time::later_of(a, v[i].start),
        );
        if o > 0 {
            ms = ms + o as i128;
        }
        i = i + 1;
    }
    proof {
        assert(s.take(s.len() as int) =~= s);
    }
    ms
}

/// Time spent on a title of an application.
#[derive(Debug)]
pub struct Use<S = String> {
    pub app: S,
    pub title: S,
    pub ms: u128,
}

impl DeepView for Use {
    type V = Use<Seq<char>>;

    open spec fn deep_view(&self) -> Use<Seq<char>> {
        Use { app: self.app@, title: self.title@, ms: self.ms }
    }
}

/// The text under a name, or "unknown" where there is none.
pub open spec fn named(d: Doc, name: Seq<char>) -> Seq<char> {
    match d.field(name).string() {
        Some(s) => if s.len() == 0 {
            "unknown"@
        } else {
            s
        },
        None => "unknown"@,
    }
}

fn name_at(data: &Json, name: &str) -> (r: String)
    ensures
        r@ == named(data.deep_view(), name@),
{
    match data.str_at(name) {
        Some(s) => if s.is_empty() {
            text::owned("unknown")
        } else {
            text::owned(s)
        },
        None => text::owned("unknown"),
    }
}

/// The time spent in each window, clipped to the stretch and without the time
/// away; windows with none left do not count.
pub open spec fn uses(
    s: Seq<AwEvent>,
    start: Stamp,
    end: Stamp,
    away: Seq<(Stamp, Stamp)>,
) -> Result<Seq<Use<Seq<char>>>, Failure>
    decreases s.len(),
{
    if s.len() == 0 {
        Ok(seq![])
    } else {
        match uses(s.drop_last(), start, end, away) {
            Err(e) => Err(e),
            Ok(list) => match clipped(s.last(), start, end) {
                Err(e) => Err(e),
                Ok(None) => Ok(list),
                Ok(Some((a, b))) => {
                    let data = s.last().data.deep_view();
                    let ms = time::apart(b, a) - overlap_ms(away, a, b);
                    if ms > 0 {
                        Ok(
                            list.push(
                                Use {
                                    app: named(data, "app"@),
                                    title: named(data, "title"@),
                                    ms: ms as u128,
                                },
                            ),
                        )
                    } else {
                        Ok(list)
                    }
                },
            },
        }
    }
}

proof fn lemma_uses_fail(
    s: Seq<AwEvent>,
    start: Stamp,
    end: Stamp,
    away: Seq<(Stamp, Stamp)>,
    k: int,
)
    requires
        0 <= k <= s.len(),
        uses(s.take(k), start, end, away) is Err,
    ensures
        uses(s, start, end, away) == uses(s.take(k), start, end, away),
    decreases s.len(),
{
    if k == s.len() {
        assert(s.take(k) =~= s);
    } else {
        assert(s.drop_last().take(k) =~= s.take(k));
        lemma_uses_fail(s.drop_last(), start, end, away, k);
    }
}

/// All the milliseconds of a list of uses.
pub open spec fn spent(s: Seq<Use<Seq<char>>>) -> nat
    decreases s.len(),
{
    if s.len() == 0 {
        0
    } else {
        spent(s.drop_last()) + s.last().ms as nat
    }
}

fn find_uses(v: &Vec<AwEvent>, start: Stamp, end: Stamp, away: &Vec<Span>) -> (r: Result<
    Vec<Use>,
    AppError,
>)
    requires
        time::valid(start),
        time::valid(end),
        on_calendar(deep(away@)),
    ensures
        match r {
            Ok(s) => uses(v@, start, end, deep(away@)) == Ok::<Seq<Use<Seq<char>>>, Failure>(
                deep(s@),
            ) && spent(deep(s@)) <= i64::MAX * v@.len(),
            Err(e) => uses(v@, start, end, deep(away@)) == Err::<Seq<Use<Seq<char>>>, Failure>(
                e@,
            ),
        },
{
    let ghost spans = deep(away@);
    let mut list: Vec<Use> = Vec::new();
    let mut i: usize = 0;
    proof {
        assert(deep(list@) =~= seq![]);
        assert(v@.take(0) =~= seq![]);
    }
    while i < v.len()
        invariant
            i <= v.len(),
            time::valid(start),
            time::valid(end),
            spans == deep(away@),
            on_calendar(spans),
            uses(v@.take(i as int), start, end, spans) == Ok::<Seq<Use<Seq<char>>>, Failure>(
                deep(list@),
            ),
            spent(deep(list@)) <= i64::MAX * i,
        decreases v.len() - i,
    {
        let ghost t = v@.take(i + 1);
        proof {
            assert(t.drop_last() =~= v@.take(i as int));
            assert(t.last() == v@[i as int]);
            assert(i64::MAX * i + i64::MAX == i64::MAX * (i + 1)) by (nonlinear_arith);
        }
        match clip(&v[i], start, end) {
            Err(e) => {
                proof {
                    lemma_uses_fail(v@, start, end, spans, i + 1);
                }
                return Err(e);
            },
            Ok(None) => {},
            Ok(Some(span)) => {
                let lost = add_overlaps(away, span.start, span.end);
                let length = time::millis_between(span.end, span.start) as i128;
                if length > lost {
                    let one = Use {
                        app: name_at(&v[i].data, "app"),
                        title: name_at(&v[i].data, "title"),
                        ms: (length - lost) as u128,
                    };
                    let ghost m = deep(list@);
                    let ghost x = one.deep_view();
                    list.push(one);
                    proof {
                        assert(deep(list@) =~= m.push(x));
                        assert(m.push(x).drop_last() =~= m);
                    }
                }
            },
        }
        i = i + 1;
    }
    proof {
        assert(v@.take(v@.len() as int) =~= v@);
    }
    Ok(list)
}

/// The time per application.
pub open spec fn by_app(s: Seq<Use<Seq<char>>>) -> Seq<Tally<Seq<char>>>
    decreases s.len(),
{
    if s.len() == 0 {
        seq![]
    } else {
        added(by_app(s.drop_last()), s.last().app, s.last().ms)
    }
}

/// The time per title of one application.
pub open spec fn by_title(s: Seq<Use<Seq<char>>>, app: Seq<char>) -> Seq<Tally<Seq<char>>>
    decreases s.len(),
{
    if s.len() == 0 {
        seq![]
    } else if s.last().app == app {
        added(by_title(s.drop_last(), app), s.last().title, s.last().ms)
    } else {
        by_title(s.drop_last(), app)
    }
}

proof fn lemma_spent_grows(s: Seq<Use<Seq<char>>>, k: int)
    requires
        0 <= k <= s.len(),
    ensures
        spent(s.take(k)) <= spent(s),
    decreases s.len(),
{
    if k == s.len() {
        assert(s.take(k) =~= s);
    } else {
        assert(s.drop_last().take(k) =~= s.take(k));
        lemma_spent_grows(s.drop_last(), k);
    }
}

fn tally_apps(v: &Vec<Use>) -> (r: Vec<Tally>)
    requires
        spent(deep(v@)) <= u128::MAX,
    ensures
        deep(r@) == by_app(deep(v@)),
        total(deep(r@)) == spent(deep(v@)),
{
    let ghost s = deep(v@);
    let mut r: Vec<Tally> = Vec::new();
    let mut i: usize = 0;
    proof {
        assert(s.take(0) =~= seq![]);
        assert(deep(r@) =~= seq![]);
    }
    while i < v.len()
        invariant
            i <= v.len(),
            s == deep(v@),
            spent(s) <= u128::MAX,
            deep(r@) == by_app(s.take(i as int)),
            total(deep(r@)) == spent(s.take(i as int)),
        decreases v.len() - i,
    {
        proof {
            assert(s.take(i + 1).drop_last() =~= s.take(i as int));
            assert(s.take(i + 1).last() == v@[i as int].deep_view());
            lemma_spent_grows(s, i + 1);
        }
        add_to(&mut r, v[i].app.as_str(), v[i].ms);
        i = i + 1;
    }
    proof {
        assert(s.take(s.len() as int) =~= s);
    }
    r
}

fn tally_titles(v: &Vec<Use>, app: &str) -> (r: Vec<Tally>)
    requires
        spent(deep(v@)) <= u128::MAX,
    ensures
        deep(r@) == by_title(deep(v@), app@),
        total(deep(r@)) <= spent(deep(v@)),
{
    let ghost s = deep(v@);
    let mut r: Vec<Tally> = Vec::new();
    let mut i: usize = 0;
    proof {
        assert(s.take(0) =~= seq![]);
        assert(deep(r@) =~= seq![]);
    }
    while i < v.len()
        invariant
            i <= v.len(),
            s == deep(v@),
            spent(s) <= u128::MAX,
            deep(r@) == by_title(s.take(i as int), app@),
            total(deep(r@)) <= spent(s.take(i as int)),
        decreases v.len() - i,
    {
        proof {
            assert(s.take(i + 1).drop_last() =~= s.take(i as int));
            assert(s.take(i + 1).last() == v@[i as int].deep_view());
            lemma_spent_grows(s, i + 1);
        }
        if text::same(v[i].app.as_str(), app) {
            add_to(&mut r, v[i].title.as_str(), v[i].ms);
        }
        i = i + 1;
    }
    proof {
        assert(s.take(s.len() as int) =~= s);
    }
    r
}

/// The titles of an application, the long tail rolled into one.
pub open spec fn titles_of(s: Seq<Use<Seq<char>>>) -> spec_fn(Tally<Seq<char>>) -> AppTitles<
    Seq<char>,
    Seq<Tally<Seq<char>>>,
> {
    |t: Tally<Seq<char>>|
        AppTitles {
            app: t.name,
            titles: capped(by_title(s, t.name), MAX_TITLES_PER_APP as int),
        }
}

/// What the uses come to.
pub open spec fn added_up(s: Seq<Use<Seq<char>>>, afk_ms: i128) -> Observed<
    Seq<Tally<Seq<char>>>,
    Seq<AppTitles<Seq<char>, Seq<Tally<Seq<char>>>>>,
> {
    Observed {
        per_app: by_app(s),
        per_title: by_app(s).map_values(titles_of(s)),
        active_ms: total(by_app(s)) as u128,
        afk_ms,
    }
}

/// Everything in `events` clipped to a stretch.
pub open spec fn summarized(events: Events, start: Seq<char>, end: Seq<char>) -> Result<
    Observed<Seq<Tally<Seq<char>>>, Seq<AppTitles<Seq<char>, Seq<Tally<Seq<char>>>>>>,
    Failure,
> {
    match (instant_of(start), instant_of(end)) {
        (None, _) => Err(Failure::BadTimestamp(start)),
        (Some(_), None) => Err(Failure::BadTimestamp(end)),
        (Some(a), Some(b)) => match away_spans(events.afk@, a, b) {
            Err(e) => Err(e),
            Ok(spans) => match uses(events.window@, a, b, union_of(spans)) {
                Err(e) => Err(e),
                Ok(list) => Ok(added_up(list, span_ms(union_of(spans)) as i128)),
            },
        },
    }
}

/// Both ends of every span are of a kind.
pub open spec fn ends(s: Seq<(Stamp, Stamp)>, kind: spec_fn(Stamp) -> bool) -> bool {
    forall|i: int| 0 <= i < s.len() ==> kind((#[trigger] s[i]).0) && kind(s[i].1)
}

proof fn lemma_joined_ends(s: Seq<(Stamp, Stamp)>, kind: spec_fn(Stamp) -> bool)
    requires
        ends(s, kind),
    ensures
        ends(joined(s), kind),
    decreases s.len(),
{
    if s.len() > 0 {
        let r = s.drop_last();
        assert(ends(r, kind)) by {
            assert forall|i: int| 0 <= i < r.len() implies kind((#[trigger] r[i]).0) && kind(
                r[i].1,
            ) by {
                assert(r[i] == s[i]);
            }
        }
        lemma_joined_ends(r, kind);
        let m = joined(r);
        let n = joined(s);
        assert(s[s.len() - 1] == s.last());
        assert forall|i: int| 0 <= i < n.len() implies kind((#[trigger] n[i]).0) && kind(n[i].1) by {
            if i < n.len() - 1 {
                assert(n[i] == m[i]);
            } else if m.len() > 0 {
                assert(m[m.len() - 1] == m.last());
            }
        }
    }
}

/// The ends of a union's spans are ends of the spans it was made of.
pub proof fn lemma_union_ends(s: Seq<(Stamp, Stamp)>, kind: spec_fn(Stamp) -> bool)
    requires
        ends(s, kind),
    ensures
        ends(union_of(s), kind),
{
    broadcast use vstd::seq_lib::group_to_multiset_ensures;

    let t = s.sort_by(span_order());
    Span::total();
    s.lemma_sort_by_ensures(span_order());
    assert forall|i: int| 0 <= i < t.len() implies kind((#[trigger] t[i]).0) && kind(t[i].1) by {
        assert(t.contains(t[i]));
        assert(t.to_multiset().count(t[i]) > 0);
        assert(s.contains(t[i]));
    }
    lemma_joined_ends(t, kind);
}

proof fn lemma_union_on_calendar(s: Seq<(Stamp, Stamp)>)
    requires
        on_calendar(s),
    ensures
        on_calendar(union_of(s)),
{
    let kind = |t: Stamp| time::valid(t);
    lemma_union_ends(s, kind);
    let u = union_of(s);
    assert forall|i: int| 0 <= i < u.len() implies time::valid((#[trigger] u[i]).0) && time::valid(
        u[i].1,
    ) by {
        assert(kind(u[i].0) && kind(u[i].1));
    }
}

/// No event that can be read begins within a leap second.
pub open spec fn outside_leaps(s: Seq<AwEvent>) -> bool {
    forall|i: int|
        0 <= i < s.len() ==> match instant_of((#[trigger] s[i]).timestamp@) {
            Some(t) => time::plain(t),
            None => true,
        }
}

/// Outside leap seconds and inside a stretch.
pub open spec fn inside(start: Stamp, end: Stamp) -> spec_fn(Stamp) -> bool {
    |t: Stamp| time::plain(t) && !earlier(t, start) && !earlier(end, t)
}

proof fn lemma_away_inside(s: Seq<AwEvent>, start: Stamp, end: Stamp)
    requires
        time::plain(start),
        time::plain(end),
        outside_leaps(s),
        away_spans(s, start, end) is Ok,
    ensures
        proper(away_spans(s, start, end)->Ok_0),
        ends(away_spans(s, start, end)->Ok_0, inside(start, end)),
    decreases s.len(),
{
    if s.len() > 0 {
        let r = s.drop_last();
        assert(outside_leaps(r)) by {
            assert forall|i: int| 0 <= i < r.len() implies match instant_of(
                (#[trigger] r[i]).timestamp@,
            ) {
                Some(t) => time::plain(t),
                None => true,
            } by {
                assert(r[i] == s[i]);
            }
        }
        lemma_away_inside(r, start, end);
        let ev = s[s.len() - 1];
        if let Some(t) = instant_of(ev.timestamp@) {
            time::shifting_adds(t, ev.duration_ms);
        }
    }
}

proof fn lemma_span_ms_bound(s: Seq<(Stamp, Stamp)>, start: Stamp, end: Stamp)
    requires
        proper(s),
        apart(s),
        ends(s, inside(start, end)),
    ensures
        0 <= span_ms(s),
        s.len() > 0 ==> span_ms(s) * 1_000_000 <= time::instant(s.last().1) - time::instant(s[0].0),
    decreases s.len(),
{
    if s.len() > 0 {
        let r = s.drop_last();
        assert forall|i: int| 0 <= i < r.len() implies r[i] == s[i] by {}
        lemma_span_ms_bound(r, start, end);
        let x = s[s.len() - 1];
        time::distance_is_the_difference(x.1, x.0);
        if r.len() > 0 {
            assert(earlier(s[r.len() - 1].1, x.0));
        }
    }
}

/// The time away in a stretch is no more than the stretch.
proof fn lemma_away_bound(s: Seq<AwEvent>, start: Stamp, end: Stamp)
    requires
        time::plain(start),
        time::plain(end),
        outside_leaps(s),
        away_spans(s, start, end) is Ok,
    ensures
        0 <= span_ms(union_of(away_spans(s, start, end)->Ok_0)) <= length_ms(start, end),
{
    let spans = away_spans(s, start, end)->Ok_0;
    lemma_away_inside(s, start, end);
    union_counts_once(spans);
    lemma_union_ends(spans, inside(start, end));
    let u = union_of(spans);
    lemma_span_ms_bound(u, start, end);
    time::distance_is_the_difference(end, start);
    if u.len() > 0 {
        assert(inside(start, end)(u[0].0));
        assert(inside(start, end)(u[u.len() - 1].1));
    }
}

pub proof fn lemma_overlap_counts(s: Seq<(Stamp, Stamp)>, a: Stamp, b: Stamp)
    ensures
        0 <= overlap_ms(s, a, b),
    decreases s.len(),
{
    if s.len() > 0 {
        lemma_overlap_counts(s.drop_last(), a, b);
    }
}

/// Some time went into every use.
pub open spec fn all_used(s: Seq<Use<Seq<char>>>) -> bool {
    forall|i: int| 0 <= i < s.len() ==> (#[trigger] s[i]).ms > 0
}

pub proof fn lemma_uses(s: Seq<AwEvent>, start: Stamp, end: Stamp, away: Seq<(Stamp, Stamp)>)
    requires
        uses(s, start, end, away) is Ok,
    ensures
        all_used(uses(s, start, end, away)->Ok_0),
        spent(uses(s, start, end, away)->Ok_0) <= i64::MAX * s.len(),
    decreases s.len(),
{
    if s.len() > 0 {
        let r = s.drop_last();
        lemma_uses(r, start, end, away);
        let n = r.len();
        assert(i64::MAX * n + i64::MAX == i64::MAX * (n + 1)) by (nonlinear_arith);
        let list = uses(r, start, end, away)->Ok_0;
        if let Ok(Some((a, b))) = clipped(s.last(), start, end) {
            lemma_overlap_counts(away, a, b);
            let all = uses(s, start, end, away)->Ok_0;
            if all.len() > list.len() {
                assert(all.drop_last() =~= list);
            }
        }
    }
}

proof fn lemma_added_counts(s: Seq<Tally<Seq<char>>>, name: Seq<char>, ms: u128)
    requires
        total(s) + ms <= u128::MAX,
        ms > 0,
        forall|i: int| 0 <= i < s.len() ==> (#[trigger] s[i]).ms > 0,
    ensures
        forall|i: int|
            0 <= i < added(s, name, ms).len() ==> (#[trigger] added(s, name, ms)[i]).ms > 0,
    decreases s.len(),
{
    if s.len() > 0 {
        let d = s.drop_first();
        assert(s =~= seq![s[0]] + d);
        lemma_total_front(s[0], d);
        assert forall|i: int| 0 <= i < d.len() implies (#[trigger] d[i]).ms > 0 by {
            assert(d[i] == s[i + 1]);
        }
        lemma_added_counts(d, name, ms);
        lemma_entry_below_total(s, 0);
        let t = added(s, name, ms);
        assert forall|i: int| 0 <= i < t.len() implies (#[trigger] t[i]).ms > 0 by {
            if s[0].name == name {
                assert(i > 0 ==> t[i] == s[i]);
            } else if text::before(name, s[0].name) {
                assert(i > 0 ==> t[i] == s[i - 1]);
            } else {
                assert(i > 0 ==> t[i] == added(d, name, ms)[i - 1]);
            }
        }
    }
}

proof fn lemma_apps_count(s: Seq<Use<Seq<char>>>)
    requires
        all_used(s),
        spent(s) <= u128::MAX,
    ensures
        forall|i: int| 0 <= i < by_app(s).len() ==> (#[trigger] by_app(s)[i]).ms > 0,
    decreases s.len(),
{
    if s.len() > 0 {
        let r = s.drop_last();
        assert forall|i: int| 0 <= i < r.len() implies (#[trigger] r[i]).ms > 0 by {
            assert(r[i] == s[i]);
        }
        lemma_apps_count(r);
        lemma_by_app(r, s.last().app);
        assert(s[s.len() - 1].ms > 0);
        lemma_added_counts(by_app(r), s.last().app, s.last().ms);
    }
}

proof fn lemma_added_len(s: Seq<Tally<Seq<char>>>, name: Seq<char>, ms: u128)
    ensures
        added(s, name, ms).len() <= s.len() + 1,
    decreases s.len(),
{
    if s.len() > 0 {
        lemma_added_len(s.drop_first(), name, ms);
    }
}

proof fn lemma_added_all_len(s: Seq<Tally<Seq<char>>>, t: Seq<Tally<Seq<char>>>)
    ensures
        added_all(s, t).len() <= s.len() + t.len(),
    decreases t.len(),
{
    if t.len() > 0 {
        lemma_added_all_len(s, t.drop_last());
        lemma_added_len(added_all(s, t.drop_last()), t.last().name, t.last().ms);
    }
}

/// However many titles an application had, at most so many are kept, and one
/// more for the rest.
pub proof fn capped_titles_are_few(s: Seq<Tally<Seq<char>>>, keep: int)
    requires
        0 <= keep,
    ensures
        capped(s, keep).len() <= keep + 1,
{
    if s.len() > keep {
        let r = s.sort_by(longest_first());
        Tally::total();
        s.lemma_sort_by_ensures(longest_first());
        lemma_total_permuted(s, r);
        let t = added_all(seq![], r.take(keep));
        lemma_added_all_len(seq![], r.take(keep));
        lemma_added_len(t, OTHER@, total(r.skip(keep)) as u128);
    }
}

/// The milliseconds of a stretch, none where it ends before it starts.
pub open spec fn length_ms(start: Stamp, end: Stamp) -> int {
    let ms = time::apart(end, start);
    if ms > 0 {
        ms as int
    } else {
        0
    }
}

/// The active time is that of the applications, every application has some, and
/// its titles, the rest of them rolled into one, come to it.
pub open spec fn adds_up(
    o: Observed<Seq<Tally<Seq<char>>>, Seq<AppTitles<Seq<char>, Seq<Tally<Seq<char>>>>>>,
) -> bool {
    &&& o.active_ms == total(o.per_app)
    &&& names_ascend(o.per_app)
    &&& o.per_title.len() == o.per_app.len()
    &&& forall|i: int|
        0 <= i < o.per_app.len() ==> {
            &&& (#[trigger] o.per_app[i]).ms > 0
            &&& o.per_title[i].app == o.per_app[i].name
            &&& o.per_title[i].titles.len() <= MAX_TITLES_PER_APP + 1
            &&& total(o.per_title[i].titles) == o.per_app[i].ms
        }
}

/// Whatever was fetched and whatever part of it is asked for, a summary adds
/// up, and the time away is no more than the stretch.
pub proof fn every_summary_adds_up(events: Events, start: Seq<char>, end: Seq<char>)
    requires
        summarized(events, start, end) is Ok,
    ensures
        adds_up(summarized(events, start, end)->Ok_0),
        time::plain(instant_of(start)->0) && time::plain(instant_of(end)->0) && outside_leaps(
            events.afk@,
        ) ==> 0 <= summarized(events, start, end)->Ok_0.afk_ms <= length_ms(
            instant_of(start)->0,
            instant_of(end)->0,
        ),
{
    let (a, b) = (instant_of(start)->0, instant_of(end)->0);
    let spans = away_spans(events.afk@, a, b)->Ok_0;
    let list = uses(events.window@, a, b, union_of(spans))->Ok_0;
    lemma_uses(events.window@, a, b, union_of(spans));
    let n = events.window.len();
    assert(i64::MAX * n <= u128::MAX) by (nonlinear_arith)
        requires
            n <= u64::MAX,
    ;
    lemma_by_app(list, seq![]);
    lemma_apps_count(list);
    let o = added_up(list, span_ms(union_of(spans)) as i128);
    assert forall|i: int| 0 <= i < o.per_app.len() implies {
        &&& (#[trigger] o.per_app[i]).ms > 0
        &&& o.per_title[i].app == o.per_app[i].name
        &&& o.per_title[i].titles.len() <= MAX_TITLES_PER_APP + 1
        &&& total(o.per_title[i].titles) == o.per_app[i].ms
    } by {
        titles_sum_to_their_app(list, o.afk_ms, i);
        capped_titles_are_few(by_title(list, o.per_app[i].name), MAX_TITLES_PER_APP as int);
    }
    if time::plain(a) && time::plain(b) && outside_leaps(events.afk@) {
        lemma_away_bound(events.afk@, a, b);
    }
}

/// Everything in `events` clipped to a stretch, which may be any part of what
/// was fetched.
pub fn summarize(events: &Events, start_iso: &str, end_iso: &str) -> (r: Result<
    Observed,
    AppError,
>)
    ensures
        match r {
            Ok(o) => {
                &&& summarized(*events, start_iso@, end_iso@) == Ok::<
                    Observed<
                        Seq<Tally<Seq<char>>>,
                        Seq<AppTitles<Seq<char>, Seq<Tally<Seq<char>>>>>,
                    >,
                    Failure,
                >(o.deep_view())
                &&& adds_up(o.deep_view())
                &&& time::plain(instant_of(start_iso@)->0) && time::plain(instant_of(end_iso@)->0)
                    && outside_leaps(events.afk@) ==> 0 <= o.afk_ms <= length_ms(
                    instant_of(start_iso@)->0,
                    instant_of(end_iso@)->0,
                )
            },
            Err(e) => summarized(*events, start_iso@, end_iso@) == Err::<
                Observed<Seq<Tally<Seq<char>>>, Seq<AppTitles<Seq<char>, Seq<Tally<Seq<char>>>>>>,
                Failure,
            >(e@),
        },
{
    let start = match parse_ts(start_iso) {
        Ok(t) => t,
        Err(e) => {
            return Err(e);
        },
    };
    let end = match parse_ts(end_iso) {
        Ok(t) => t,
        Err(e) => {
            return Err(e);
        },
    };
    let away = match find_away(&events.afk, start, end) {
        Ok(s) => s,
        Err(e) => {
            return Err(e);
        },
    };
    proof {
        lemma_union_on_calendar(deep(away@));
    }
    let away = merge_spans(away);
    let afk_ms = add_spans(&away);
    let list = match find_uses(&events.window, start, end, &away) {
        Ok(s) => s,
        Err(e) => {
            return Err(e);
        },
    };
    let ghost s = deep(list@);
    let n: usize = events.window.len();
    proof {
        assert(i64::MAX * n <= u128::MAX) by (nonlinear_arith)
            requires
                n <= u64::MAX,
        ;
    }
    let per_app = tally_apps(&list);
    let mut per_title: Vec<AppTitles> = Vec::new();
    let mut active_ms: u128 = 0;
    let mut i: usize = 0;
    let ghost apps = deep(per_app@);
    proof {
        assert(apps.take(0) =~= seq![]);
        assert(deep(per_title@) =~= apps.take(0).map_values(titles_of(s)));
    }
    while i < per_app.len()
        invariant
            i <= per_app.len(),
            s == deep(list@),
            apps == deep(per_app@),
            spent(s) <= u128::MAX,
            total(apps) == spent(s),
            deep(per_title@) == apps.take(i as int).map_values(titles_of(s)),
            active_ms == total(apps.take(i as int)),
        decreases per_app.len() - i,
    {
        let ghost t = apps.take(i + 1);
        proof {
            assert(t.drop_last() =~= apps.take(i as int));
            assert(t.last() == per_app@[i as int].deep_view());
            assert(apps =~= t + apps.skip(i + 1));
            lemma_total_concat(t, apps.skip(i + 1));
        }
        let name = per_app[i].name.as_str();
        let titles = cap_titles(tally_titles(&list, name), MAX_TITLES_PER_APP);
        let entry = AppTitles { app: text::owned(name), titles };
        let ghost m = deep(per_title@);
        let ghost x = entry.deep_view();
        active_ms = active_ms + per_app[i].ms;
        per_title.push(entry);
        proof {
            assert(deep(per_title@) =~= m.push(x));
            assert(m.push(x) =~= t.map_values(titles_of(s)));
        }
        i = i + 1;
    }
    proof {
        assert(apps.take(apps.len() as int) =~= apps);
    }
    let o = Observed { per_app, per_title, active_ms, afk_ms };
    proof {
        every_summary_adds_up(*events, start_iso@, end_iso@);
    }
    Ok(o)
}

// --------------------------------------------------------------------- the laws

/// What a list holds of a name.
pub open spec fn held(s: Seq<Tally<Seq<char>>>, name: Seq<char>) -> nat
    decreases s.len(),
{
    if s.len() == 0 {
        0
    } else if s[0].name == name {
        s[0].ms as nat
    } else {
        held(s.drop_first(), name)
    }
}

proof fn lemma_tail_ascends(s: Seq<Tally<Seq<char>>>)
    requires
        names_ascend(s),
        s.len() > 0,
    ensures
        names_ascend(s.drop_first()),
{
    let d = s.drop_first();
    assert forall|i: int, j: int| 0 <= i < j < d.len() implies text::before(
        (#[trigger] d[i]).name,
        (#[trigger] d[j]).name,
    ) by {
        assert(d[i] == s[i + 1] && d[j] == s[j + 1]);
    }
}

proof fn lemma_not_held(s: Seq<Tally<Seq<char>>>, name: Seq<char>)
    requires
        forall|i: int| 0 <= i < s.len() ==> (#[trigger] s[i]).name != name,
    ensures
        held(s, name) == 0,
    decreases s.len(),
{
    if s.len() > 0 {
        let d = s.drop_first();
        assert forall|i: int| 0 <= i < d.len() implies (#[trigger] d[i]).name != name by {
            assert(d[i] == s[i + 1]);
        }
        lemma_not_held(d, name);
    }
}

pub proof fn lemma_held_at(s: Seq<Tally<Seq<char>>>, i: int)
    requires
        names_ascend(s),
        0 <= i < s.len(),
    ensures
        held(s, s[i].name) == s[i].ms,
    decreases s.len(),
{
    if i > 0 {
        assert(text::before(s[0].name, s[i].name));
        text::lemma_before_irreflexive(s[0].name);
        lemma_tail_ascends(s);
        assert(s.drop_first()[i - 1] == s[i]);
        lemma_held_at(s.drop_first(), i - 1);
    }
}

pub proof fn lemma_added_held(s: Seq<Tally<Seq<char>>>, name: Seq<char>, ms: u128, other: Seq<char>)
    requires
        names_ascend(s),
        total(s) + ms <= u128::MAX,
    ensures
        held(added(s, name, ms), other) == held(s, other) + (if other == name {
            ms as nat
        } else {
            0
        }),
    decreases s.len(),
{
    if s.len() == 0 {
        assert(seq![Tally { name, ms }].drop_first() =~= s);
    } else {
        let d = s.drop_first();
        lemma_tail_ascends(s);
        assert(s =~= seq![s[0]] + d);
        lemma_total_front(s[0], d);
        if s[0].name == name {
            let x = Tally { name, ms: (s[0].ms + ms) as u128 };
            assert(s.update(0, x).drop_first() =~= d);
        } else if text::before(name, s[0].name) {
            assert((seq![Tally { name, ms }] + s).drop_first() =~= s);
            assert forall|i: int| 0 <= i < s.len() implies (#[trigger] s[i]).name != name by {
                text::lemma_before_irreflexive(name);
                if i > 0 {
                    assert(text::before(s[0].name, s[i].name));
                    text::lemma_before_transitive(name, s[0].name, s[i].name);
                }
            }
            lemma_not_held(s, name);
        } else {
            lemma_added_held(d, name, ms, other);
            let u = added(d, name, ms);
            assert((seq![s[0]] + u).drop_first() =~= u);
        }
    }
}

pub proof fn lemma_by_app(s: Seq<Use<Seq<char>>>, app: Seq<char>)
    requires
        spent(s) <= u128::MAX,
    ensures
        names_ascend(by_app(s)),
        names_ascend(by_title(s, app)),
        total(by_app(s)) == spent(s),
        total(by_title(s, app)) == held(by_app(s), app),
        total(by_title(s, app)) <= spent(s),
    decreases s.len(),
{
    if s.len() > 0 {
        let r = s.drop_last();
        lemma_by_app(r, app);
        lemma_added_ascends(by_app(r), s.last().app, s.last().ms);
        lemma_added_total(by_app(r), s.last().app, s.last().ms);
        lemma_added_held(by_app(r), s.last().app, s.last().ms, app);
        if s.last().app == app {
            lemma_added_ascends(by_title(r, app), s.last().title, s.last().ms);
            lemma_added_total(by_title(r, app), s.last().title, s.last().ms);
        }
    }
}

proof fn lemma_added_all_ascends(s: Seq<Tally<Seq<char>>>, t: Seq<Tally<Seq<char>>>)
    requires
        names_ascend(s),
    ensures
        names_ascend(added_all(s, t)),
    decreases t.len(),
{
    if t.len() > 0 {
        lemma_added_all_ascends(s, t.drop_last());
        lemma_added_ascends(added_all(s, t.drop_last()), t.last().name, t.last().ms);
    }
}

/// Every list of a summary is in the order of its names, with no name in it
/// twice.
pub proof fn summaries_are_in_order(s: Seq<Use<Seq<char>>>, i: int)
    requires
        spent(s) <= u128::MAX,
        0 <= i < by_app(s).len(),
    ensures
        names_ascend(by_app(s)),
        names_ascend(titles_of(s)(by_app(s)[i]).titles),
{
    let app = by_app(s)[i].name;
    lemma_by_app(s, app);
    let t = by_title(s, app);
    let keep = MAX_TITLES_PER_APP as int;
    if t.len() > keep {
        let r = t.sort_by(longest_first());
        lemma_added_all_ascends(seq![], r.take(keep));
        lemma_added_ascends(
            added_all(seq![], r.take(keep)),
            OTHER@,
            total(r.skip(keep)) as u128,
        );
    }
}

/// The titles of an application sum to its total, and the applications to the
/// active time.
pub proof fn titles_sum_to_their_app(s: Seq<Use<Seq<char>>>, afk_ms: i128, i: int)
    requires
        spent(s) <= u128::MAX,
        0 <= i < by_app(s).len(),
    ensures
        added_up(s, afk_ms).per_title[i].app == added_up(s, afk_ms).per_app[i].name,
        total(added_up(s, afk_ms).per_title[i].titles) == added_up(s, afk_ms).per_app[i].ms,
        total(added_up(s, afk_ms).per_app) == added_up(s, afk_ms).active_ms,
        added_up(s, afk_ms).active_ms == spent(s),
{
    let t = by_app(s)[i];
    lemma_by_app(s, t.name);
    lemma_held_at(by_app(s), i);
    capped_titles_still_sum(by_title(s, t.name), MAX_TITLES_PER_APP as int);
}

/// Whatever part of what was fetched is asked for, nothing outside of it
/// counts: what is left of an event lies inside the stretch.
pub proof fn what_counts_lies_in_the_stretch(
    ev: AwEvent,
    start: Stamp,
    end: Stamp,
    a: Stamp,
    b: Stamp,
)
    requires
        clipped(ev, start, end) == Ok::<Option<(Stamp, Stamp)>, Failure>(Some((a, b))),
    ensures
        !earlier(a, start),
        !earlier(end, b),
        earlier(a, b),
{
}

} // verus!
