//! What a summary promises: every name in it is that of a window, in full, and
//! every millisecond of it one that was spent there.

use vstd::prelude::*;

use crate::aw::AwEvent;
use crate::error::Failure;
use crate::json::Doc;
use crate::observed::added;
use crate::observed::added_all;
use crate::observed::away_spans;
use crate::observed::by_app;
use crate::observed::by_title;
use crate::observed::capped;
use crate::observed::clipped;
use crate::observed::end_of;
use crate::observed::held;
use crate::observed::lemma_added_held;
use crate::observed::lemma_by_app;
use crate::observed::lemma_held_at;
use crate::observed::lemma_uses;
use crate::observed::longest_first;
use crate::observed::named;
use crate::observed::names_ascend;
use crate::observed::says_away;
use crate::observed::spent;
use crate::observed::summarized;
use crate::observed::titles_of;
use crate::observed::total;
use crate::observed::union_of;
use crate::observed::uses;
use crate::observed::Events;
use crate::observed::Tally;
use crate::observed::Use;
use crate::sort::Ranked;
use crate::stretches::any_app;
use crate::stretches::app_of;
use crate::stretches::away_at;
use crate::stretches::count;
use crate::stretches::lasts;
use crate::stretches::lemma_count_same;
use crate::stretches::lemma_last_use;
use crate::stretches::lemma_merged;
use crate::stretches::lemma_steady;
use crate::stretches::lemma_summary_is_counted;
use crate::stretches::lemma_use_is_count;
use crate::stretches::on_grid;
use crate::stretches::one_app;
use crate::stretches::steady;
use crate::stretches::tick;
use crate::stretches::worked;
use crate::stretches::worked_at;
use crate::text;
use crate::time;
use crate::time::instant_of;
use crate::time::Stamp;

verus! {

broadcast use vstd::seq_lib::group_seq_properties;

// ------------------------------------------------------------------- the names

/// The event goes by a name under a key: by the whole string that is there,
/// and by "unknown" where there is none or an empty one.
pub open spec fn goes_by(ev: AwEvent, key: Seq<char>, name: Seq<char>) -> bool {
    match ev.data.deep_view().field(key) {
        Doc::Str(s) => if s.len() > 0 {
            name == s
        } else {
            name == "unknown"@
        },
        _ => name == "unknown"@,
    }
}

proof fn lemma_named(ev: AwEvent, key: Seq<char>, name: Seq<char>)
    ensures
        named(ev.data.deep_view(), key) == name <==> goes_by(ev, key, name),
{
}

/// A use is that of an event, under the names that the event goes by.
pub open spec fn used_by(u: Use<Seq<char>>, ev: AwEvent) -> bool {
    goes_by(ev, "app"@, u.app) && goes_by(ev, "title"@, u.title)
}

/// Each event that counts is counted once, under the application and the title
/// that it goes by.
pub proof fn an_event_is_counted_under_its_names(
    s: Seq<AwEvent>,
    ev: AwEvent,
    start: Stamp,
    end: Stamp,
    away: Seq<(Stamp, Stamp)>,
)
    requires
        uses(s.push(ev), start, end, away) is Ok,
    ensures
        ({
            let (before, after) = (
                uses(s, start, end, away)->Ok_0,
                uses(s.push(ev), start, end, away)->Ok_0,
            );
            &&& uses(s, start, end, away) is Ok
            &&& after == before || (after.len() == before.len() + 1 && after.drop_last() == before
                && used_by(after.last(), ev))
        }),
{
    assert(s.push(ev).drop_last() =~= s);
    lemma_last_use(s.push(ev), start, end, away);
}

proof fn lemma_used(s: Seq<AwEvent>, start: Stamp, end: Stamp, away: Seq<(Stamp, Stamp)>, i: int)
    requires
        uses(s, start, end, away) is Ok,
        0 <= i < uses(s, start, end, away)->Ok_0.len(),
    ensures
        exists|k: int|
            0 <= k < s.len() && used_by(uses(s, start, end, away)->Ok_0[i], #[trigger] s[k]),
    decreases s.len(),
{
    if s.len() > 0 {
        let (r, ev) = (s.drop_last(), s[s.len() - 1]);
        assert(r.push(ev) =~= s);
        an_event_is_counted_under_its_names(r, ev, start, end, away);
        let list = uses(s, start, end, away)->Ok_0;
        let before = uses(r, start, end, away)->Ok_0;
        if i < before.len() {
            lemma_used(r, start, end, away, i);
            assert(list[i] == before[i]);
            let k = choose|k: int| 0 <= k < r.len() && used_by(before[i], #[trigger] r[k]);
            assert(s[k] == r[k]);
        } else {
            assert(used_by(list[i], s[s.len() - 1]));
        }
    }
}

/// Some entry of a list has the name.
pub open spec fn lists(s: Seq<Tally<Seq<char>>>, name: Seq<char>) -> bool {
    exists|i: int| 0 <= i < s.len() && (#[trigger] s[i]).name == name
}

proof fn lemma_added_lists(s: Seq<Tally<Seq<char>>>, name: Seq<char>, ms: u128, other: Seq<char>)
    ensures
        lists(added(s, name, ms), other) <==> lists(s, other) || other == name,
    decreases s.len(),
{
    let t = added(s, name, ms);
    if s.len() == 0 {
        assert(t[0].name == name);
    } else if s[0].name == name {
        assert(t[0].name == name);
        if lists(s, other) {
            let i = choose|i: int| 0 <= i < s.len() && (#[trigger] s[i]).name == other;
            assert(t[i].name == other);
        }
        if lists(t, other) {
            let i = choose|i: int| 0 <= i < t.len() && (#[trigger] t[i]).name == other;
            assert(s[i].name == other);
        }
    } else if text::before(name, s[0].name) {
        assert(t[0].name == name);
        if lists(s, other) {
            let i = choose|i: int| 0 <= i < s.len() && (#[trigger] s[i]).name == other;
            assert(t[i + 1].name == other);
        }
        if lists(t, other) {
            let i = choose|i: int| 0 <= i < t.len() && (#[trigger] t[i]).name == other;
            if i > 0 {
                assert(s[i - 1].name == other);
            }
        }
    } else {
        let d = s.drop_first();
        let u = added(d, name, ms);
        lemma_added_lists(d, name, ms, other);
        assert(t[0] == s[0]);
        if lists(s, other) {
            let i = choose|i: int| 0 <= i < s.len() && (#[trigger] s[i]).name == other;
            if i > 0 {
                assert(d[i - 1].name == other);
                assert(lists(d, other));
            } else {
                assert(t[0].name == other);
            }
        }
        if lists(u, other) {
            let i = choose|i: int| 0 <= i < u.len() && (#[trigger] u[i]).name == other;
            assert(t[i + 1].name == other);
        }
        if lists(t, other) {
            let i = choose|i: int| 0 <= i < t.len() && (#[trigger] t[i]).name == other;
            if i > 0 {
                assert(u[i - 1].name == other);
                assert(lists(u, other));
                if other != name {
                    let k = choose|k: int| 0 <= k < d.len() && (#[trigger] d[k]).name == other;
                    assert(s[k + 1].name == other);
                }
            } else {
                assert(s[0].name == other);
            }
        }
    }
}

/// An application is listed where some use is of it, and a title of it where
/// some use of it is of that title.
proof fn lemma_listed(s: Seq<Use<Seq<char>>>, app: Seq<char>, title: Seq<char>)
    ensures
        lists(by_app(s), app) <==> exists|i: int| 0 <= i < s.len() && (#[trigger] s[i]).app == app,
        lists(by_title(s, app), title) <==> exists|i: int|
            0 <= i < s.len() && (#[trigger] s[i]).app == app && s[i].title == title,
    decreases s.len(),
{
    if s.len() > 0 {
        let (r, u) = (s.drop_last(), s[s.len() - 1]);
        lemma_listed(r, app, title);
        lemma_added_lists(by_app(r), u.app, u.ms, app);
        lemma_added_lists(by_title(r, app), u.title, u.ms, title);
        assert forall|i: int| 0 <= i < r.len() implies r[i] == s[i] by {}
        if exists|i: int| 0 <= i < r.len() && (#[trigger] r[i]).app == app {
            let i = choose|i: int| 0 <= i < r.len() && (#[trigger] r[i]).app == app;
            assert(s[i].app == app);
        }
        if exists|i: int| 0 <= i < r.len() && (#[trigger] r[i]).app == app && r[i].title == title {
            let i = choose|i: int|
                0 <= i < r.len() && (#[trigger] r[i]).app == app && r[i].title == title;
            assert(s[i].app == app && s[i].title == title);
        }
        if exists|i: int| 0 <= i < s.len() && (#[trigger] s[i]).app == app {
            let i = choose|i: int| 0 <= i < s.len() && (#[trigger] s[i]).app == app;
            if i < r.len() {
                assert(r[i].app == app);
            }
        }
        if exists|i: int| 0 <= i < s.len() && (#[trigger] s[i]).app == app && s[i].title == title {
            let i = choose|i: int|
                0 <= i < s.len() && (#[trigger] s[i]).app == app && s[i].title == title;
            if i < r.len() {
                assert(r[i].app == app && r[i].title == title);
            }
        }
    }
}

// ------------------------------------------------------------- the titles kept

/// No two entries have the same name.
pub open spec fn names_differ(s: Seq<Tally<Seq<char>>>) -> bool {
    forall|i: int, j: int|
        0 <= i < s.len() && 0 <= j < s.len() && i != j ==> (#[trigger] s[i]).name != (
        #[trigger] s[j]).name
}

proof fn lemma_names_differ(s: Seq<Tally<Seq<char>>>)
    requires
        names_ascend(s),
    ensures
        names_differ(s),
{
    assert forall|i: int, j: int| 0 <= i < s.len() && 0 <= j < s.len() && i != j implies (
    #[trigger] s[i]).name != (#[trigger] s[j]).name by {
        text::lemma_before_irreflexive(s[i].name);
        if i < j {
            assert(text::before(s[i].name, s[j].name));
        } else {
            assert(text::before(s[j].name, s[i].name));
        }
    }
}

proof fn lemma_added_new(s: Seq<Tally<Seq<char>>>, name: Seq<char>, ms: u128)
    requires
        !lists(s, name),
    ensures
        added(s, name, ms).len() == s.len() + 1,
        forall|x: Tally<Seq<char>>| #[trigger]
            added(s, name, ms).contains(x) <==> s.contains(x) || x == (Tally { name, ms }),
    decreases s.len(),
{
    let new = Tally { name, ms };
    let t = added(s, name, ms);
    if s.len() == 0 {
        assert(t =~= seq![new]);
        assert(t[0] == new);
    } else {
        assert(s[0].name != name);
        let d = s.drop_first();
        if text::before(name, s[0].name) {
            assert forall|x: Tally<Seq<char>>| #[trigger] t.contains(x) <==> s.contains(x) || x
                == new by {
                if s.contains(x) {
                    let i = choose|i: int| 0 <= i < s.len() && s[i] == x;
                    assert(t[i + 1] == x);
                }
                assert(t[0] == new);
                if t.contains(x) {
                    let i = choose|i: int| 0 <= i < t.len() && t[i] == x;
                    if i > 0 {
                        assert(s[i - 1] == x);
                    }
                }
            }
        } else {
            assert(!lists(d, name)) by {
                if lists(d, name) {
                    let i = choose|i: int| 0 <= i < d.len() && (#[trigger] d[i]).name == name;
                    assert(s[i + 1].name == name);
                }
            }
            lemma_added_new(d, name, ms);
            let u = added(d, name, ms);
            assert forall|x: Tally<Seq<char>>| #[trigger] t.contains(x) <==> s.contains(x) || x
                == new by {
                assert(u.contains(x) <==> d.contains(x) || x == new);
                assert(t[0] == s[0]);
                if u.contains(x) {
                    let i = choose|i: int| 0 <= i < u.len() && u[i] == x;
                    assert(t[i + 1] == x);
                }
                if s.contains(x) {
                    let i = choose|i: int| 0 <= i < s.len() && s[i] == x;
                    if i > 0 {
                        assert(d[i - 1] == x);
                    }
                }
                if d.contains(x) {
                    let i = choose|i: int| 0 <= i < d.len() && d[i] == x;
                    assert(s[i + 1] == x);
                }
                if t.contains(x) {
                    let i = choose|i: int| 0 <= i < t.len() && t[i] == x;
                    if i > 0 {
                        assert(u[i - 1] == x);
                    }
                }
            }
        }
    }
}

/// Adding to a name leaves the entries of every other name.
proof fn lemma_added_rest(s: Seq<Tally<Seq<char>>>, name: Seq<char>, ms: u128)
    ensures
        added(s, name, ms).len() >= s.len(),
        forall|x: Tally<Seq<char>>|
            x.name != name ==> (#[trigger] added(s, name, ms).contains(x) <==> s.contains(x)),
    decreases s.len(),
{
    let t = added(s, name, ms);
    if s.len() == 0 {
    } else if s[0].name == name {
        assert forall|x: Tally<Seq<char>>| x.name != name implies (#[trigger] t.contains(x)
            <==> s.contains(x)) by {
            if s.contains(x) {
                let i = choose|i: int| 0 <= i < s.len() && s[i] == x;
                assert(t[i] == x);
            }
            if t.contains(x) {
                let i = choose|i: int| 0 <= i < t.len() && t[i] == x;
                assert(s[i] == x);
            }
        }
    } else if text::before(name, s[0].name) {
        assert forall|x: Tally<Seq<char>>| x.name != name implies (#[trigger] t.contains(x)
            <==> s.contains(x)) by {
            if s.contains(x) {
                let i = choose|i: int| 0 <= i < s.len() && s[i] == x;
                assert(t[i + 1] == x);
            }
            if t.contains(x) {
                let i = choose|i: int| 0 <= i < t.len() && t[i] == x;
                assert(s[i - 1] == x);
            }
        }
    } else {
        let d = s.drop_first();
        let u = added(d, name, ms);
        lemma_added_rest(d, name, ms);
        assert forall|x: Tally<Seq<char>>| x.name != name implies (#[trigger] t.contains(x)
            <==> s.contains(x)) by {
            assert(u.contains(x) <==> d.contains(x));
            assert(t[0] == s[0]);
            if u.contains(x) {
                let i = choose|i: int| 0 <= i < u.len() && u[i] == x;
                assert(t[i + 1] == x);
            }
            if s.contains(x) {
                let i = choose|i: int| 0 <= i < s.len() && s[i] == x;
                if i > 0 {
                    assert(d[i - 1] == x);
                }
            }
            if d.contains(x) {
                let i = choose|i: int| 0 <= i < d.len() && d[i] == x;
                assert(s[i + 1] == x);
            }
            if t.contains(x) {
                let i = choose|i: int| 0 <= i < t.len() && t[i] == x;
                if i > 0 {
                    assert(u[i - 1] == x);
                }
            }
        }
    }
}

proof fn lemma_added_all(t: Seq<Tally<Seq<char>>>)
    requires
        names_differ(t),
    ensures
        added_all(seq![], t).len() == t.len(),
        forall|x: Tally<Seq<char>>| #[trigger]
            added_all(seq![], t).contains(x) <==> t.contains(x),
    decreases t.len(),
{
    if t.len() > 0 {
        let (r, l) = (t.drop_last(), t[t.len() - 1]);
        assert(names_differ(r)) by {
            assert forall|i: int, j: int|
                0 <= i < r.len() && 0 <= j < r.len() && i != j implies (#[trigger] r[i]).name != (
            #[trigger] r[j]).name by {
                assert(r[i] == t[i] && r[j] == t[j]);
            }
        }
        lemma_added_all(r);
        let a = added_all(seq![], r);
        assert(!lists(a, l.name)) by {
            if lists(a, l.name) {
                let i = choose|i: int| 0 <= i < a.len() && (#[trigger] a[i]).name == l.name;
                assert(a.contains(a[i]));
                let k = choose|k: int| 0 <= k < r.len() && r[k] == a[i];
                assert(t[k].name == t[t.len() - 1].name);
            }
        }
        lemma_added_new(a, l.name, l.ms);
        assert forall|x: Tally<Seq<char>>| #[trigger] added_all(seq![], t).contains(x)
            <==> t.contains(x) by {
            assert(a.contains(x) <==> r.contains(x));
            assert(r.push(l) =~= t);
            if t.contains(x) {
                let i = choose|i: int| 0 <= i < t.len() && t[i] == x;
                if i < r.len() {
                    assert(r[i] == x);
                }
            }
            if r.contains(x) {
                let i = choose|i: int| 0 <= i < r.len() && r[i] == x;
                assert(t[i] == x);
            }
            assert(t.contains(l));
        }
    } else {
        assert(added_all(seq![], t) =~= seq![]);
    }
}

/// Of the titles of an application the longest-running are kept with all of
/// their time, as many as may be, and no title that was rolled up ran longer
/// than one that was kept; of two that ran equally long, the first by name is
/// kept. Where there are no more than may be kept, all are.
pub proof fn the_longest_titles_are_kept(s: Seq<Tally<Seq<char>>>, keep: int)
    requires
        names_differ(s),
        0 <= keep,
    ensures
        s.len() <= keep ==> capped(s, keep) == s,
        s.len() > keep ==> capped(s, keep).len() >= keep && lists(capped(s, keep), "(other)"@),
        forall|x: Tally<Seq<char>>| #[trigger]
            capped(s, keep).contains(x) && x.name != "(other)"@ ==> s.contains(x),
        forall|x: Tally<Seq<char>>, y: Tally<Seq<char>>|
            x.name != "(other)"@ && y.name != "(other)"@ && #[trigger] capped(s, keep).contains(x)
                && #[trigger] s.contains(y) && !capped(s, keep).contains(y) ==> x.ms > y.ms || (x.ms
                == y.ms && !text::before(y.name, x.name)),
{
    if s.len() > keep {
        broadcast use vstd::seq_lib::group_to_multiset_ensures;

        let r = s.sort_by(longest_first());
        Tally::total();
        s.lemma_sort_by_ensures(longest_first());
        assert(r.to_multiset().len() == r.len());
        assert(s.to_multiset().len() == s.len());
        assert forall|x: Tally<Seq<char>>| r.contains(x) <==> s.contains(x) by {
            assert(s.to_multiset().count(x) == r.to_multiset().count(x));
        }
        lemma_names_differ_sorted(s, r);
        let kept = r.take(keep);
        assert(names_differ(kept)) by {
            assert forall|i: int, j: int|
                0 <= i < kept.len() && 0 <= j < kept.len() && i != j implies (
            #[trigger] kept[i]).name != (#[trigger] kept[j]).name by {
                assert(kept[i] == r[i] && kept[j] == r[j]);
            }
        }
        lemma_added_all(kept);
        let a = added_all(seq![], kept);
        let ms = total(r.skip(keep)) as u128;
        lemma_added_rest(a, "(other)"@, ms);
        lemma_added_lists(a, "(other)"@, ms, "(other)"@);
        let c = capped(s, keep);
        assert forall|x: Tally<Seq<char>>| #[trigger] c.contains(x) && x.name
            != "(other)"@ implies s.contains(x) by {
            assert(kept.contains(x));
            let i = choose|i: int| 0 <= i < kept.len() && kept[i] == x;
            assert(r[i] == x);
            assert(r.contains(x));
        }
        assert forall|x: Tally<Seq<char>>, y: Tally<Seq<char>>|
            x.name != "(other)"@ && y.name != "(other)"@ && #[trigger] c.contains(x)
                && #[trigger] s.contains(y) && !c.contains(y) implies x.ms > y.ms || (x.ms == y.ms
            && !text::before(y.name, x.name)) by {
            assert(kept.contains(x));
            let i = choose|i: int| 0 <= i < kept.len() && kept[i] == x;
            assert(r.contains(y));
            let j = choose|j: int| 0 <= j < r.len() && r[j] == y;
            if j < keep {
                assert(kept[j] == y);
                assert(kept.contains(y));
                assert(a.contains(y));
                assert(c.contains(y));
            }
            assert(r[i] == x);
            assert(longest_first()(r[i], r[j]));
        }
    }
}

proof fn lemma_names_differ_sorted(s: Seq<Tally<Seq<char>>>, r: Seq<Tally<Seq<char>>>)
    requires
        names_differ(s),
        s.to_multiset() == r.to_multiset(),
    ensures
        names_differ(r),
{
    broadcast use vstd::seq_lib::group_to_multiset_ensures;

    assert(s.no_duplicates()) by {
        assert forall|i: int, j: int| 0 <= i < s.len() && 0 <= j < s.len() && i != j implies s[i]
            != s[j] by {
            assert(s[i].name != s[j].name);
        }
    }
    s.lemma_multiset_has_no_duplicates();
    r.lemma_multiset_has_no_duplicates_conv();
    assert forall|i: int, j: int| 0 <= i < r.len() && 0 <= j < r.len() && i != j implies (
    #[trigger] r[i]).name != (#[trigger] r[j]).name by {
        assert(r.contains(r[i]) && r.contains(r[j]));
        assert(r.to_multiset().count(r[i]) > 0);
        assert(r.to_multiset().count(r[j]) > 0);
        assert(s.contains(r[i]) && s.contains(r[j]));
        let (x, y) = (
            choose|x: int| 0 <= x < s.len() && s[x] == r[i],
            choose|y: int| 0 <= y < s.len() && s[y] == r[j],
        );
        if r[i].name == r[j].name {
            assert(x == y);
        }
    }
}

// ----------------------------------------------------------------- the summary

/// Some window goes by the name under a key.
pub open spec fn some_window(s: Seq<AwEvent>, app: Seq<char>) -> bool {
    exists|k: int| 0 <= k < s.len() && goes_by(#[trigger] s[k], "app"@, app)
}

/// Some window goes by an application and a title.
pub open spec fn some_titled_window(s: Seq<AwEvent>, app: Seq<char>, title: Seq<char>) -> bool {
    exists|k: int|
        0 <= k < s.len() && goes_by(#[trigger] s[k], "app"@, app) && goes_by(
            s[k],
            "title"@,
            title,
        )
}

/// Every application in a summary is that of a window, in full, or "unknown"
/// for a window that has none; and every title of it is that of a window of
/// that application, in full, or stands for the rest.
pub proof fn every_name_is_that_of_a_window(events: Events, start: Seq<char>, end: Seq<char>)
    requires
        summarized(events, start, end) is Ok,
    ensures
        ({
            let o = summarized(events, start, end)->Ok_0;
            &&& o.per_title.len() == o.per_app.len()
            &&& forall|i: int|
                0 <= i < o.per_app.len() ==> some_window(
                    events.window@,
                    (#[trigger] o.per_app[i]).name,
                ) && o.per_title[i].app == o.per_app[i].name
            &&& forall|i: int, j: int|
                0 <= i < o.per_title.len() && 0 <= j < o.per_title[i].titles.len() && (
                #[trigger] o.per_title[i].titles[j]).name != "(other)"@ ==> some_titled_window(
                    events.window@,
                    o.per_title[i].app,
                    o.per_title[i].titles[j].name,
                )
        }),
{
    let (a, b) = (instant_of(start)->0, instant_of(end)->0);
    let spans = away_spans(events.afk@, a, b)->Ok_0;
    let away = union_of(spans);
    let list = uses(events.window@, a, b, away)->Ok_0;
    let o = summarized(events, start, end)->Ok_0;
    assert(events.window@.len() == events.window.len());
    lemma_few(events.window@, a, b, away);
    assert forall|i: int| 0 <= i < o.per_app.len() implies some_window(
        events.window@,
        (#[trigger] o.per_app[i]).name,
    ) && o.per_title[i].app == o.per_app[i].name by {
        let app = o.per_app[i].name;
        lemma_listed(list, app, app);
        assert(lists(by_app(list), app));
        let k = choose|k: int| 0 <= k < list.len() && (#[trigger] list[k]).app == app;
        lemma_used(events.window@, a, b, away, k);
    }
    assert forall|i: int, j: int|
        0 <= i < o.per_title.len() && 0 <= j < o.per_title[i].titles.len() && (
        #[trigger] o.per_title[i].titles[j]).name != "(other)"@ implies some_titled_window(
        events.window@,
        o.per_title[i].app,
        o.per_title[i].titles[j].name,
    ) by {
        let app = by_app(list)[i].name;
        let titles = by_title(list, app);
        assert(o.per_title[i] == titles_of(list)(by_app(list)[i]));
        let x = o.per_title[i].titles[j];
        lemma_by_app(list, app);
        lemma_names_differ(titles);
        the_longest_titles_are_kept(titles, 15);
        assert(capped(titles, 15).contains(x));
        assert(titles.contains(x));
        let n = choose|n: int| 0 <= n < titles.len() && titles[n] == x;
        assert(titles[n].name == x.name);
        lemma_listed(list, app, x.name);
        let k = choose|k: int|
            0 <= k < list.len() && (#[trigger] list[k]).app == app && list[k].title == x.name;
        lemma_used(events.window@, a, b, away, k);
    }
}

proof fn lemma_few(s: Seq<AwEvent>, a: Stamp, b: Stamp, away: Seq<(Stamp, Stamp)>)
    requires
        uses(s, a, b, away) is Ok,
        s.len() <= u64::MAX,
    ensures
        spent(uses(s, a, b, away)->Ok_0) <= u128::MAX,
{
    lemma_uses(s, a, b, away);
    assert(i64::MAX * s.len() <= u128::MAX) by (nonlinear_arith)
        requires
            s.len() <= u64::MAX,
    ;
}

// ------------------------------------------------------------ the milliseconds

/// The event goes on at that millisecond: it began there or before, and not so
/// long before that it is over.
pub open spec fn goes_on(ev: AwEvent, n: int) -> bool {
    match instant_of(ev.timestamp@) {
        Some(t) => tick(t) <= n < tick(t) + ev.duration_ms,
        None => false,
    }
}

/// At that millisecond some event has the status `afk`.
pub open spec fn is_away(afk: Seq<AwEvent>) -> spec_fn(int) -> bool {
    |n: int|
        exists|i: int|
            0 <= i < afk.len() && (#[trigger] afk[i]).data.deep_view().field("status"@) == Doc::Str(
                "afk"@,
            ) && goes_on(afk[i], n)
}

/// The event goes on and nobody is away.
pub open spec fn at_work(ev: AwEvent, afk: Seq<AwEvent>) -> spec_fn(int) -> bool {
    |n: int| goes_on(ev, n) && !is_away(afk)(n)
}

/// The milliseconds at work in all windows, one after the other.
pub open spec fn time_at_work(s: Seq<AwEvent>, afk: Seq<AwEvent>, lo: int, hi: int) -> nat
    decreases s.len(),
{
    if s.len() == 0 {
        0
    } else {
        time_at_work(s.drop_last(), afk, lo, hi) + count(at_work(s.last(), afk), lo, hi)
    }
}

/// The milliseconds at work in the windows of an application.
pub open spec fn time_in(
    s: Seq<AwEvent>,
    afk: Seq<AwEvent>,
    app: Seq<char>,
    lo: int,
    hi: int,
) -> nat
    decreases s.len(),
{
    if s.len() == 0 {
        0
    } else if goes_by(s.last(), "app"@, app) {
        time_in(s.drop_last(), afk, app, lo, hi) + count(at_work(s.last(), afk), lo, hi)
    } else {
        time_in(s.drop_last(), afk, app, lo, hi)
    }
}

/// The milliseconds at work in the windows of an application with a title.
pub open spec fn time_on(
    s: Seq<AwEvent>,
    afk: Seq<AwEvent>,
    app: Seq<char>,
    title: Seq<char>,
    lo: int,
    hi: int,
) -> nat
    decreases s.len(),
{
    if s.len() == 0 {
        0
    } else if goes_by(s.last(), "app"@, app) && goes_by(s.last(), "title"@, title) {
        time_on(s.drop_last(), afk, app, title, lo, hi) + count(at_work(s.last(), afk), lo, hi)
    } else {
        time_on(s.drop_last(), afk, app, title, lo, hi)
    }
}

proof fn lemma_goes_on(ev: AwEvent, start: Stamp, end: Stamp, n: int)
    requires
        clipped(ev, start, end) is Ok,
        match instant_of(ev.timestamp@) {
            Some(t) => on_grid(t),
            None => true,
        },
    ensures
        lasts(ev, n) <==> goes_on(ev, n),
{
    let t = instant_of(ev.timestamp@)->0;
    time::shifting_adds(t, ev.duration_ms);
}

proof fn lemma_away_read(s: Seq<AwEvent>, start: Stamp, end: Stamp, i: int)
    requires
        away_spans(s, start, end) is Ok,
        0 <= i < s.len(),
        says_away(s[i]),
    ensures
        clipped(s[i], start, end) is Ok,
    decreases s.len(),
{
    if i < s.len() - 1 {
        assert(s.drop_last()[i] == s[i]);
        lemma_away_read(s.drop_last(), start, end, i);
    }
}

proof fn lemma_away_same(s: Seq<AwEvent>, start: Stamp, end: Stamp, n: int)
    requires
        steady(s),
        away_spans(s, start, end) is Ok,
    ensures
        away_at(s)(n) == is_away(s)(n),
{
    if away_at(s)(n) {
        let i = choose|i: int| 0 <= i < s.len() && says_away(#[trigger] s[i]) && lasts(s[i], n);
        lemma_away_read(s, start, end, i);
        lemma_goes_on(s[i], start, end, n);
        assert(s[i].data.deep_view().field("status"@) == Doc::Str("afk"@));
    }
    if is_away(s)(n) {
        let i = choose|i: int|
            0 <= i < s.len() && (#[trigger] s[i]).data.deep_view().field("status"@) == Doc::Str(
                "afk"@,
            ) && goes_on(s[i], n);
        assert(says_away(s[i]));
        lemma_away_read(s, start, end, i);
        lemma_goes_on(s[i], start, end, n);
    }
}

proof fn lemma_worked_same(
    s: Seq<AwEvent>,
    afk: Seq<AwEvent>,
    start: Stamp,
    end: Stamp,
    away: Seq<(Stamp, Stamp)>,
    app: Seq<char>,
    lo: int,
    hi: int,
)
    requires
        steady(s),
        steady(afk),
        away_spans(afk, start, end) is Ok,
        uses(s, start, end, away) is Ok,
    ensures
        worked(s, away_at(afk), one_app(app), lo, hi) == time_in(s, afk, app, lo, hi),
        worked(s, away_at(afk), any_app(), lo, hi) == time_at_work(s, afk, lo, hi),
    decreases s.len(),
{
    if s.len() > 0 {
        let (r, ev) = (s.drop_last(), s[s.len() - 1]);
        lemma_steady(s);
        lemma_last_use(s, start, end, away);
        lemma_worked_same(r, afk, start, end, away, app, lo, hi);
        lemma_count_of(ev, afk, start, end, lo, hi);
        lemma_named(ev, "app"@, app);
        assert(any_app()(app_of(ev)));
        assert(one_app(app)(app_of(ev)) == (app_of(ev) == app));
    }
}

proof fn lemma_count_of(
    ev: AwEvent,
    afk: Seq<AwEvent>,
    start: Stamp,
    end: Stamp,
    lo: int,
    hi: int,
)
    requires
        match instant_of(ev.timestamp@) {
            Some(t) => on_grid(t),
            None => true,
        },
        clipped(ev, start, end) is Ok,
        steady(afk),
        away_spans(afk, start, end) is Ok,
    ensures
        count(worked_at(ev, away_at(afk)), lo, hi) == count(at_work(ev, afk), lo, hi),
{
    let (p, q) = (worked_at(ev, away_at(afk)), at_work(ev, afk));
    assert forall|n: int| lo <= n < hi implies #[trigger] p(n) == q(n) by {
        lemma_goes_on(ev, start, end, n);
        lemma_away_same(afk, start, end, n);
    }
    lemma_count_same(p, q, lo, hi);
}

proof fn lemma_titles_are_counted(
    s: Seq<AwEvent>,
    afk: Seq<AwEvent>,
    start: Stamp,
    end: Stamp,
    app: Seq<char>,
    title: Seq<char>,
)
    requires
        s.len() <= u64::MAX,
        on_grid(start),
        on_grid(end),
        steady(s),
        steady(afk),
        away_spans(afk, start, end) is Ok,
        uses(s, start, end, union_of(away_spans(afk, start, end)->Ok_0)) is Ok,
    ensures
        held(
            by_title(uses(s, start, end, union_of(away_spans(afk, start, end)->Ok_0))->Ok_0, app),
            title,
        ) == time_on(s, afk, app, title, tick(start), tick(end)),
    decreases s.len(),
{
    let away = union_of(away_spans(afk, start, end)->Ok_0);
    let list = uses(s, start, end, away)->Ok_0;
    lemma_merged(afk, start, end);
    lemma_few(s, start, end, away);
    if s.len() > 0 {
        let (r, ev) = (s.drop_last(), s[s.len() - 1]);
        lemma_steady(s);
        lemma_last_use(s, start, end, away);
        lemma_titles_are_counted(r, afk, start, end, app, title);
        lemma_use_is_count(ev, start, end, away, away_at(afk));
        lemma_count_of(ev, afk, start, end, tick(start), tick(end));
        lemma_named(ev, "app"@, app);
        lemma_named(ev, "title"@, title);
        let before = uses(r, start, end, away)->Ok_0;
        let n = count(at_work(ev, afk), tick(start), tick(end));
        lemma_few(r, start, end, away);
        lemma_by_app(before, app);
        if n > 0 {
            assert(list.drop_last() == before);
            assert(list.last().ms == n);
            if list.last().app == app {
                lemma_added_held(by_title(before, app), list.last().title, list.last().ms, title);
            }
        } else {
            assert(list == before);
        }
    }
}

/// Every millisecond of a summary is one that was spent as it says: the time
/// away is the number of milliseconds of the stretch at which some event says
/// so; the time in an application is the number of those at which one of its
/// windows was in front and nobody was away, window by window; that on a title
/// is the number of those with a window of that title; and the active time is
/// the number in all of them.
pub proof fn a_summary_counts_every_millisecond(events: Events, start: Seq<char>, end: Seq<char>)
    requires
        steady(events.afk@),
        steady(events.window@),
        on_grid(instant_of(start)->0),
        on_grid(instant_of(end)->0),
        summarized(events, start, end) is Ok,
    ensures
        ({
            let o = summarized(events, start, end)->Ok_0;
            let (lo, hi) = (tick(instant_of(start)->0), tick(instant_of(end)->0));
            let (s, afk) = (events.window@, events.afk@);
            &&& o.afk_ms == count(is_away(afk), lo, hi)
            &&& o.active_ms == time_at_work(s, afk, lo, hi)
            &&& forall|app: Seq<char>| #[trigger]
                held(o.per_app, app) == time_in(s, afk, app, lo, hi)
            &&& forall|i: int|
                0 <= i < o.per_app.len() ==> (#[trigger] o.per_app[i]).ms == time_in(
                    s,
                    afk,
                    o.per_app[i].name,
                    lo,
                    hi,
                )
            &&& forall|i: int, j: int|
                0 <= i < o.per_title.len() && 0 <= j < o.per_title[i].titles.len() && (
                #[trigger] o.per_title[i].titles[j]).name != "(other)"@
                    ==> o.per_title[i].titles[j].ms == time_on(
                    s,
                    afk,
                    o.per_title[i].app,
                    o.per_title[i].titles[j].name,
                    lo,
                    hi,
                )
        }),
{
    let (a, b) = (instant_of(start)->0, instant_of(end)->0);
    let (lo, hi) = (tick(a), tick(b));
    let (s, afk) = (events.window@, events.afk@);
    let spans = away_spans(afk, a, b)->Ok_0;
    let away = union_of(spans);
    let list = uses(s, a, b, away)->Ok_0;
    let o = summarized(events, start, end)->Ok_0;
    lemma_summary_is_counted(events, start, end);
    let (p, q) = (away_at(afk), is_away(afk));
    assert forall|n: int| lo <= n < hi implies #[trigger] p(n) == q(n) by {
        lemma_away_same(afk, a, b, n);
    }
    lemma_count_same(p, q, lo, hi);
    lemma_worked_same(s, afk, a, b, away, seq![], lo, hi);
    assert forall|app: Seq<char>| #[trigger] held(o.per_app, app) == time_in(
        s,
        afk,
        app,
        lo,
        hi,
    ) by {
        lemma_worked_same(s, afk, a, b, away, app, lo, hi);
    }
    assert(s.len() == events.window.len());
    lemma_few(s, a, b, away);
    lemma_by_app(list, seq![]);
    assert forall|i: int| 0 <= i < o.per_app.len() implies (#[trigger] o.per_app[i]).ms == time_in(
        s,
        afk,
        o.per_app[i].name,
        lo,
        hi,
    ) by {
        lemma_held_at(o.per_app, i);
    }
    assert forall|i: int, j: int|
        0 <= i < o.per_title.len() && 0 <= j < o.per_title[i].titles.len() && (
        #[trigger] o.per_title[i].titles[j]).name != "(other)"@ implies o.per_title[i].titles[j].ms
        == time_on(s, afk, o.per_title[i].app, o.per_title[i].titles[j].name, lo, hi) by {
        let app = by_app(list)[i].name;
        let titles = by_title(list, app);
        assert(o.per_title[i] == titles_of(list)(by_app(list)[i]));
        let x = o.per_title[i].titles[j];
        lemma_by_app(list, app);
        lemma_names_differ(titles);
        the_longest_titles_are_kept(titles, 15);
        assert(capped(titles, 15).contains(x));
        assert(titles.contains(x));
        let n = choose|n: int| 0 <= n < titles.len() && titles[n] == x;
        lemma_held_at(titles, n);
        lemma_titles_are_counted(s, afk, a, b, app, x.name);
    }
}

/// Up to fifteen titles of an application are all there; of more, the fifteen
/// that ran longest, and the rest in one.
pub proof fn fifteen_titles_are_kept(s: Seq<Use<Seq<char>>>, t: Tally<Seq<char>>)
    ensures
        titles_of(s)(t).app == t.name,
        titles_of(s)(t).titles == capped(by_title(s, t.name), 15),
{
}

// -------------------------------------------------------------- unreadable times

/// An event whose time cannot be read, or whose end is off the calendar, is an
/// error that tells the time. One that can be read is none.
pub proof fn an_unreadable_event_is_told(ev: AwEvent, a: Stamp, b: Stamp)
    ensures
        instant_of(ev.timestamp@) is None ==> clipped(ev, a, b) == Err::<Option<(Stamp, Stamp)>, _>(
            Failure::BadTimestamp(ev.timestamp@),
        ),
        match instant_of(ev.timestamp@) {
            Some(t) => match end_of(t, ev.duration_ms) {
                Some(_) => clipped(ev, a, b) is Ok,
                None => clipped(ev, a, b) == Err::<Option<(Stamp, Stamp)>, _>(
                    Failure::BadTimestamp(ev.timestamp@),
                ),
            },
            None => true,
        },
{
}

/// The first window event that is an error is the error of them all; of the
/// events that tell who was there, only those with the status `afk` are read.
pub proof fn the_first_unreadable_event_counts(
    s: Seq<AwEvent>,
    ev: AwEvent,
    a: Stamp,
    b: Stamp,
    away: Seq<(Stamp, Stamp)>,
)
    ensures
        uses(s, a, b, away) is Err ==> uses(s.push(ev), a, b, away) == uses(s, a, b, away),
        uses(s, a, b, away) is Ok && clipped(ev, a, b) is Err ==> uses(s.push(ev), a, b, away)
            == Err::<Seq<Use<Seq<char>>>, _>(clipped(ev, a, b)->Err_0),
        uses(s, a, b, away) is Ok && clipped(ev, a, b) is Ok ==> uses(s.push(ev), a, b, away) is Ok,
        ev.data.deep_view().field("status"@) != Doc::Str("afk"@) ==> away_spans(s.push(ev), a, b)
            == away_spans(s, a, b),
        away_spans(s, a, b) is Err ==> away_spans(s.push(ev), a, b) == away_spans(s, a, b),
        ev.data.deep_view().field("status"@) == Doc::Str("afk"@) && away_spans(s, a, b) is Ok
            && clipped(ev, a, b) is Err ==> away_spans(s.push(ev), a, b) == Err::<
            Seq<(Stamp, Stamp)>,
            _,
        >(clipped(ev, a, b)->Err_0),
{
    assert(s.push(ev).drop_last() =~= s);
}

/// A summary fails at the first time that cannot be read: its start, its end,
/// the times of absence, and the times of the windows.
pub proof fn a_summary_tells_what_it_cannot_read(
    events: Events,
    start: Seq<char>,
    end: Seq<char>,
    a: Stamp,
    b: Stamp,
)
    ensures
        instant_of(start) is None ==> summarized(events, start, end) is Err && summarized(
            events,
            start,
            end,
        )->Err_0 == Failure::BadTimestamp(start),
        instant_of(start) is Some && instant_of(end) is None ==> summarized(events, start, end)
            is Err && summarized(events, start, end)->Err_0 == Failure::BadTimestamp(end),
        instant_of(start) == Some(a) && instant_of(end) == Some(b) ==> match away_spans(
            events.afk@,
            a,
            b,
        ) {
            Err(e) => summarized(events, start, end) is Err && summarized(events, start, end)->Err_0
                == e,
            Ok(spans) => match uses(events.window@, a, b, union_of(spans)) {
                Err(e) => summarized(events, start, end) is Err && summarized(events, start, end)->Err_0
                == e,
                Ok(_) => summarized(events, start, end) is Ok,
            },
        },
{
}

} // verus!
