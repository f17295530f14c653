//! Tables: rows in the order of their ids, and the questions asked of them.

use vstd::prelude::*;

use crate::sort;
use crate::sort::deep;
use crate::sort::Ranked;
use crate::text;

verus! {

broadcast use vstd::seq_lib::group_seq_properties;

/// Rows that have an id.
pub trait Keyed: DeepView + Sized {
    spec fn key(v: Self::V) -> i64;

    fn id(&self) -> (r: i64)
        ensures
            r == Self::key(self.deep_view()),
    ;
}

/// Rows that stand at a position in some home: a card in a session or in the
/// backlog, a segment in a meeting.
pub trait Placed: Keyed {
    spec fn home(v: Self::V) -> Option<i64>;

    spec fn position(v: Self::V) -> i64;

    fn home_id(&self) -> (r: Option<i64>)
        ensures
            r == Self::home(self.deep_view()),
    ;

    fn place(&self) -> (r: i64)
        ensures
            r == Self::position(self.deep_view()),
    ;
}

/// What is handed out of a row.
pub trait Shown<R: Keyed>: DeepView + Sized {
    spec fn shown(v: R::V) -> Self::V;

    fn show(row: &R) -> (r: Self)
        ensures
            r.deep_view() == Self::shown(row.deep_view()),
    ;
}

/// The ids of a table go up from row to row.
pub open spec fn ascending<R: Keyed>(s: Seq<R::V>) -> bool {
    forall|i: int, j: int| 0 <= i < j < s.len() ==> R::key(#[trigger] s[i]) < R::key(#[trigger] s[j])
}

/// The row with an id.
pub open spec fn row_at<R: Keyed>(s: Seq<R::V>, id: i64) -> Option<R::V>
    decreases s.len(),
{
    if s.len() == 0 {
        None
    } else if R::key(s.last()) == id {
        Some(s.last())
    } else {
        row_at::<R>(s.drop_last(), id)
    }
}

/// The table with `v` in place of the row with that id.
pub open spec fn put<R: Keyed>(s: Seq<R::V>, id: i64, v: R::V) -> Seq<R::V> {
    Seq::new(
        s.len(),
        |i: int|
            if R::key(s[i]) == id {
                v
            } else {
                s[i]
            },
    )
}

pub open spec fn not_key<R: Keyed>(id: i64) -> spec_fn(R::V) -> bool {
    |v: R::V| R::key(v) != id
}

/// The table without the row with that id.
pub open spec fn without<R: Keyed>(s: Seq<R::V>, id: i64) -> Seq<R::V> {
    s.filter(not_key::<R>(id))
}

/// The id the next row gets.
pub open spec fn fresh<R: Keyed>(s: Seq<R::V>) -> int {
    if s.len() == 0 {
        1
    } else {
        R::key(s.last()) + 1
    }
}

pub proof fn lemma_row_at<R: Keyed>(s: Seq<R::V>, i: int)
    requires
        ascending::<R>(s),
        0 <= i < s.len(),
    ensures
        row_at::<R>(s, R::key(s[i])) == Some(s[i]),
    decreases s.len(),
{
    if i < s.len() - 1 {
        assert(s.drop_last()[i] == s[i]);
        assert(R::key(s[i]) < R::key(s[s.len() - 1]));
        lemma_ascending_drop::<R>(s);
        lemma_row_at::<R>(s.drop_last(), i);
    }
}

pub proof fn lemma_ascending_drop<R: Keyed>(s: Seq<R::V>)
    requires
        ascending::<R>(s),
        s.len() > 0,
    ensures
        ascending::<R>(s.drop_last()),
{
    let t = s.drop_last();
    assert forall|i: int, j: int| 0 <= i < j < t.len() implies R::key(#[trigger] t[i]) < R::key(
        #[trigger] t[j],
    ) by {
        assert(R::key(s[i]) < R::key(s[j]));
    }
}

/// A row found by its id stands somewhere in the table and has that id.
pub proof fn lemma_row_found<R: Keyed>(s: Seq<R::V>, id: i64) -> (i: int)
    requires
        row_at::<R>(s, id) is Some,
    ensures
        0 <= i < s.len(),
        s[i] == row_at::<R>(s, id)->0,
        R::key(s[i]) == id,
    decreases s.len(),
{
    if R::key(s.last()) == id {
        s.len() - 1
    } else {
        lemma_row_found::<R>(s.drop_last(), id)
    }
}

pub proof fn lemma_row_missing<R: Keyed>(s: Seq<R::V>, id: i64)
    requires
        forall|i: int| 0 <= i < s.len() ==> R::key(#[trigger] s[i]) != id,
    ensures
        row_at::<R>(s, id) is None,
    decreases s.len(),
{
    if s.len() > 0 {
        assert(R::key(s[s.len() - 1]) != id);
        assert forall|i: int| 0 <= i < s.drop_last().len() implies R::key(
            #[trigger] s.drop_last()[i],
        ) != id by {
            assert(s.drop_last()[i] == s[i]);
        }
        lemma_row_missing::<R>(s.drop_last(), id);
    }
}

/// What is read of a row after it was put, and of the others.
pub proof fn lemma_put_reads<R: Keyed>(s: Seq<R::V>, id: i64, v: R::V, other: i64)
    requires
        R::key(v) == id,
    ensures
        row_at::<R>(put::<R>(s, id, v), other) == (if other == id && row_at::<R>(s, id) is Some {
            Some(v)
        } else {
            row_at::<R>(s, other)
        }),
    decreases s.len(),
{
    if s.len() > 0 {
        let t = put::<R>(s, id, v);
        assert(t.drop_last() =~= put::<R>(s.drop_last(), id, v));
        assert(t.last() == (if R::key(s.last()) == id {
            v
        } else {
            s.last()
        }));
        lemma_put_reads::<R>(s.drop_last(), id, v, other);
    }
}

pub proof fn lemma_put_ascending<R: Keyed>(s: Seq<R::V>, id: i64, v: R::V)
    requires
        ascending::<R>(s),
        R::key(v) == id,
    ensures
        ascending::<R>(put::<R>(s, id, v)),
{
    let t = put::<R>(s, id, v);
    assert forall|i: int, j: int| 0 <= i < j < t.len() implies R::key(#[trigger] t[i]) < R::key(
        #[trigger] t[j],
    ) by {
        assert(R::key(s[i]) < R::key(s[j]));
        assert(R::key(t[i]) == R::key(s[i]));
        assert(R::key(t[j]) == R::key(s[j]));
    }
}

/// What is read after a row was added under a fresh id.
pub proof fn lemma_push_reads<R: Keyed>(s: Seq<R::V>, v: R::V, other: i64)
    requires
        ascending::<R>(s),
        R::key(v) == fresh::<R>(s),
    ensures
        row_at::<R>(s.push(v), other) == (if other == R::key(v) {
            Some(v)
        } else {
            row_at::<R>(s, other)
        }),
        row_at::<R>(s, R::key(v)) is None,
        ascending::<R>(s.push(v)),
{
    let t = s.push(v);
    assert(t.drop_last() =~= s);
    assert(t.last() == v);
    assert forall|i: int| 0 <= i < s.len() implies R::key(#[trigger] s[i]) < R::key(v) by {
        if i < s.len() - 1 {
            assert(R::key(s[i]) < R::key(s[s.len() - 1]));
        }
    }
    lemma_row_missing::<R>(s, R::key(v));
    assert forall|i: int, j: int| 0 <= i < j < t.len() implies R::key(#[trigger] t[i]) < R::key(
        #[trigger] t[j],
    ) by {
        if j < s.len() {
            assert(R::key(s[i]) < R::key(s[j]));
        } else {
            assert(R::key(s[i]) < R::key(v));
        }
    }
}

/// Leaving rows out keeps the rest in order.
pub proof fn lemma_filter_ascending<R: Keyed>(s: Seq<R::V>, keep: spec_fn(R::V) -> bool)
    requires
        ascending::<R>(s),
    ensures
        ascending::<R>(s.filter(keep)),
    decreases s.len(),
{
    reveal(Seq::filter);
    if s.len() > 0 {
        lemma_ascending_drop::<R>(s);
        lemma_filter_ascending::<R>(s.drop_last(), keep);
        let f = s.drop_last().filter(keep);
        if keep(s.last()) {
            let t = s.filter(keep);
            assert(t =~= f.push(s.last()));
            assert forall|i: int| 0 <= i < f.len() implies R::key(#[trigger] f[i]) < R::key(
                s.last(),
            ) by {
                s.drop_last().lemma_filter_contains_rev(keep, f[i]);
                let k = choose|k: int| 0 <= k < s.drop_last().len() && s.drop_last()[k] == f[i];
                assert(s[k] == f[i]);
                assert(R::key(s[k]) < R::key(s[s.len() - 1]));
            }
            assert forall|i: int, j: int| 0 <= i < j < t.len() implies R::key(#[trigger] t[i])
                < R::key(#[trigger] t[j]) by {
                if j < f.len() {
                    assert(R::key(f[i]) < R::key(f[j]));
                } else {
                    assert(t[i] == f[i]);
                }
            }
        }
    }
}

/// What is read of a table after rows were left out.
pub proof fn lemma_filter_reads<R: Keyed>(s: Seq<R::V>, keep: spec_fn(R::V) -> bool, id: i64)
    requires
        ascending::<R>(s),
    ensures
        row_at::<R>(s.filter(keep), id) == (match row_at::<R>(s, id) {
            Some(v) => if keep(v) {
                Some(v)
            } else {
                None
            },
            None => None,
        }),
    decreases s.len(),
{
    reveal(Seq::filter);
    if s.len() > 0 {
        lemma_ascending_drop::<R>(s);
        lemma_filter_reads::<R>(s.drop_last(), keep, id);
        let f = s.drop_last().filter(keep);
        if keep(s.last()) {
            assert(s.filter(keep) =~= f.push(s.last()));
            assert(f.push(s.last()).drop_last() =~= f);
        } else if R::key(s.last()) == id {
            assert forall|i: int| 0 <= i < s.drop_last().len() implies R::key(
                #[trigger] s.drop_last()[i],
            ) != id by {
                assert(R::key(s[i]) < R::key(s[s.len() - 1]));
            }
            lemma_row_missing::<R>(s.drop_last(), id);
        }
    }
}

// ------------------------------------------------------------------- reading

/// Where the row with an id stands.
pub fn find<R: Keyed>(rows: &Vec<R>, id: i64) -> (r: Option<usize>)
    requires
        ascending::<R>(deep(rows@)),
    ensures
        match r {
            Some(i) => i < rows.len() && R::key(deep(rows@)[i as int]) == id && row_at::<R>(
                deep(rows@),
                id,
            ) == Some(rows@[i as int].deep_view()),
            None => row_at::<R>(deep(rows@), id) is None,
        },
{
    let mut i: usize = 0;
    while i < rows.len()
        invariant
            i <= rows.len(),
            ascending::<R>(deep(rows@)),
            forall|j: int| 0 <= j < i ==> R::key(#[trigger] deep(rows@)[j]) != id,
        decreases rows.len() - i,
    {
        proof {
            assert(deep(rows@)[i as int] == rows@[i as int].deep_view());
        }
        if rows[i].id() == id {
            proof {
                lemma_row_at::<R>(deep(rows@), i as int);
            }
            return Some(i);
        }
        i = i + 1;
    }
    proof {
        lemma_row_missing::<R>(deep(rows@), id);
    }
    None
}

/// The id the next row gets; `None` once there is none left.
pub fn next_id<R: Keyed>(rows: &Vec<R>) -> (r: Option<i64>)
    ensures
        match r {
            Some(id) => id == fresh::<R>(deep(rows@)),
            None => fresh::<R>(deep(rows@)) > i64::MAX,
        },
{
    if rows.len() == 0 {
        return Some(1);
    }
    proof {
        assert(deep(rows@).last() == rows@[rows@.len() - 1].deep_view());
    }
    let last = rows[rows.len() - 1].id();
    if last == i64::MAX {
        None
    } else {
        Some(last + 1)
    }
}

/// Puts a row in place of the one at `i`, which has the same id.
pub fn set_row<R: Keyed>(rows: &mut Vec<R>, i: usize, row: R)
    requires
        i < old(rows).len(),
        ascending::<R>(deep(old(rows)@)),
        R::key(row.deep_view()) == R::key(deep(old(rows)@)[i as int]),
    ensures
        deep(final(rows)@) == put::<R>(
            deep(old(rows)@),
            R::key(row.deep_view()),
            row.deep_view(),
        ),
        ascending::<R>(deep(final(rows)@)),
{
    let ghost s = deep(rows@);
    let ghost v = row.deep_view();
    rows.set(i, row);
    proof {
        assert(deep(rows@) =~= put::<R>(s, R::key(v), v)) by {
            assert forall|j: int| 0 <= j < s.len() implies #[trigger] deep(rows@)[j] == put::<R>(
                s,
                R::key(v),
                v,
            )[j] by {
                if j < i {
                    assert(R::key(s[j]) < R::key(s[i as int]));
                } else if j > i {
                    assert(R::key(s[i as int]) < R::key(s[j]));
                }
            }
        }
        lemma_put_ascending::<R>(s, R::key(v), v);
    }
}

/// Adds a row under a fresh id.
pub fn add_row<R: Keyed>(rows: &mut Vec<R>, row: R)
    requires
        ascending::<R>(deep(old(rows)@)),
        R::key(row.deep_view()) == fresh::<R>(deep(old(rows)@)),
    ensures
        deep(final(rows)@) == deep(old(rows)@).push(row.deep_view()),
        ascending::<R>(deep(final(rows)@)),
{
    let ghost s = deep(rows@);
    let ghost v = row.deep_view();
    rows.push(row);
    proof {
        assert(deep(rows@) =~= s.push(v));
        lemma_push_reads::<R>(s, v, 0);
    }
}

/// Takes out the row at `i`.
pub fn remove_row<R: Keyed>(rows: &mut Vec<R>, i: usize)
    requires
        i < old(rows).len(),
        ascending::<R>(deep(old(rows)@)),
    ensures
        deep(final(rows)@) == without::<R>(
            deep(old(rows)@),
            R::key(deep(old(rows)@)[i as int]),
        ),
        ascending::<R>(deep(final(rows)@)),
{
    let ghost s = deep(rows@);
    rows.remove(i);
    proof {
        assert(deep(rows@) =~= s.remove(i as int));
        lemma_without_is_remove::<R>(s, i as int);
        lemma_filter_ascending::<R>(s, not_key::<R>(R::key(s[i as int])));
    }
}

proof fn lemma_without_is_remove<R: Keyed>(s: Seq<R::V>, i: int)
    requires
        ascending::<R>(s),
        0 <= i < s.len(),
    ensures
        without::<R>(s, R::key(s[i])) == s.remove(i),
    decreases s.len(),
{
    reveal(Seq::filter);
    let id = R::key(s[i]);
    let keep = not_key::<R>(id);
    let t = s.drop_last();
    lemma_ascending_drop::<R>(s);
    if i < s.len() - 1 {
        assert(R::key(s[i]) < R::key(s[s.len() - 1]));
        assert(t[i] == s[i]);
        lemma_without_is_remove::<R>(t, i);
        assert(s.remove(i) =~= t.remove(i).push(s.last()));
    } else {
        lemma_filter_all::<R>(t, keep);
        assert(s.remove(i) =~= t);
    }
}

/// Taking a row out again that was added under a fresh id.
pub proof fn lemma_push_undone<R: Keyed>(s: Seq<R::V>, v: R::V)
    requires
        ascending::<R>(s),
        R::key(v) == fresh::<R>(s),
    ensures
        without::<R>(s.push(v), R::key(v)) == s,
{
    lemma_push_reads::<R>(s, v, R::key(v));
    let t = s.push(v);
    assert(t[s.len() as int] == v);
    lemma_without_is_remove::<R>(t, s.len() as int);
    assert(t.remove(s.len() as int) =~= s);
}

proof fn lemma_filter_all<R: Keyed>(s: Seq<R::V>, keep: spec_fn(R::V) -> bool)
    requires
        forall|i: int| 0 <= i < s.len() ==> keep(#[trigger] s[i]),
    ensures
        s.filter(keep) == s,
    decreases s.len(),
{
    reveal(Seq::filter);
    if s.len() > 0 {
        assert forall|i: int| 0 <= i < s.drop_last().len() implies keep(
            #[trigger] s.drop_last()[i],
        ) by {
            assert(s.drop_last()[i] == s[i]);
        }
        lemma_filter_all::<R>(s.drop_last(), keep);
        assert(keep(s[s.len() - 1]));
        assert(s.drop_last().push(s.last()) =~= s);
    }
}

// -------------------------------------------------------------------- places

pub open spec fn is_home<R: Placed>(home: Option<i64>) -> spec_fn(R::V) -> bool {
    |v: R::V| R::home(v) == home
}

pub open spec fn not_home<R: Placed>(home: Option<i64>) -> spec_fn(R::V) -> bool {
    |v: R::V| R::home(v) != home
}

/// The rows of one home.
pub open spec fn at_home<R: Placed>(s: Seq<R::V>, home: Option<i64>) -> Seq<R::V> {
    s.filter(is_home::<R>(home))
}

/// The rows of every other home.
pub open spec fn elsewhere<R: Placed>(s: Seq<R::V>, home: Option<i64>) -> Seq<R::V> {
    s.filter(not_home::<R>(home))
}

/// The highest position in a home.
pub open spec fn top<R: Placed>(s: Seq<R::V>, home: Option<i64>) -> Option<i64>
    decreases s.len(),
{
    if s.len() == 0 {
        None
    } else {
        let t = top::<R>(s.drop_last(), home);
        let v = s.last();
        if R::home(v) != home {
            t
        } else {
            match t {
                None => Some(R::position(v)),
                Some(p) => if p < R::position(v) {
                    Some(R::position(v))
                } else {
                    Some(p)
                },
            }
        }
    }
}

/// The position after the last one in a home; `start` where there is none.
pub open spec fn after_top<R: Placed>(s: Seq<R::V>, home: Option<i64>, start: int) -> int {
    match top::<R>(s, home) {
        None => start,
        Some(p) => p + 1,
    }
}

/// A position and the id that stands at it.
pub struct Slot {
    pub position: i64,
    pub id: i64,
}

impl DeepView for Slot {
    type V = (i64, i64);

    open spec fn deep_view(&self) -> (i64, i64) {
        (self.position, self.id)
    }
}

/// By position, and by id where two rows stand at the same one.
pub open spec fn slot_leq(a: (i64, i64), b: (i64, i64)) -> bool {
    a.0 < b.0 || (a.0 == b.0 && a.1 <= b.1)
}

pub open spec fn slot_order() -> spec_fn((i64, i64), (i64, i64)) -> bool {
    |a: (i64, i64), b: (i64, i64)| slot_leq(a, b)
}

/// Where a row stands.
pub open spec fn slot_of<R: Placed>() -> spec_fn(R::V) -> (i64, i64) {
    |v: R::V| (R::position(v), R::key(v))
}

/// The row with an id that a slot holds.
pub open spec fn row_of<R: Placed>(s: Seq<R::V>) -> spec_fn((i64, i64)) -> R::V {
    |k: (i64, i64)| row_at::<R>(s, k.1)->0
}

impl Ranked for Slot {
    open spec fn leq() -> spec_fn((i64, i64), (i64, i64)) -> bool {
        slot_order()
    }

    proof fn total() {
    }

    fn ranks(&self, other: &Self) -> (r: bool) {
        self.position < other.position || (self.position == other.position && self.id <= other.id)
    }
}

/// A text to sort by, and the id of the row it belongs to.
pub struct TextSlot {
    pub text: String,
    pub id: i64,
}

impl DeepView for TextSlot {
    type V = (Seq<char>, i64);

    open spec fn deep_view(&self) -> (Seq<char>, i64) {
        (self.text@, self.id)
    }
}

/// By text, and by id where two rows have the same one.
pub open spec fn text_leq(a: (Seq<char>, i64), b: (Seq<char>, i64)) -> bool {
    text::before(a.0, b.0) || (a.0 == b.0 && a.1 <= b.1)
}

pub open spec fn text_order() -> spec_fn((Seq<char>, i64), (Seq<char>, i64)) -> bool {
    |a: (Seq<char>, i64), b: (Seq<char>, i64)| text_leq(a, b)
}

impl Ranked for TextSlot {
    open spec fn leq() -> spec_fn((Seq<char>, i64), (Seq<char>, i64)) -> bool {
        text_order()
    }

    proof fn total() {
        let leq = Self::leq();
        assert forall|a: (Seq<char>, i64), b: (Seq<char>, i64)| #[trigger] leq(a, b)
            && #[trigger] leq(b, a) implies a == b by {
            if text::before(a.0, b.0) && text::before(b.0, a.0) {
                text::lemma_before_transitive(a.0, b.0, a.0);
            }
            text::lemma_before_irreflexive(a.0);
        }
        assert forall|a: (Seq<char>, i64), b: (Seq<char>, i64), c: (Seq<char>, i64)| #[trigger]
            leq(a, b) && #[trigger] leq(b, c) implies leq(a, c) by {
            if text::before(a.0, b.0) && text::before(b.0, c.0) {
                text::lemma_before_transitive(a.0, b.0, c.0);
            }
        }
        assert forall|a: (Seq<char>, i64), b: (Seq<char>, i64)| #[trigger] leq(a, b)
            || #[trigger] leq(b, a) by {
            text::lemma_before_total(a.0, b.0);
        }
    }

    fn ranks(&self, other: &Self) -> (r: bool) {
        text::is_before(self.text.as_str(), other.text.as_str()) || (text::same(
            self.text.as_str(),
            other.text.as_str(),
        ) && self.id <= other.id)
    }
}

/// The positions and ids of a home's rows, in order.
pub open spec fn slots<R: Placed>(s: Seq<R::V>, home: Option<i64>) -> Seq<(i64, i64)> {
    at_home::<R>(s, home).map_values(slot_of::<R>()).sort_by(slot_order())
}

/// A home's rows, by position.
pub open spec fn in_order<R: Placed>(s: Seq<R::V>, home: Option<i64>) -> Seq<R::V> {
    slots::<R>(s, home).map_values(row_of::<R>(s))
}

proof fn lemma_below_top<R: Placed>(s: Seq<R::V>, home: Option<i64>, i: int)
    requires
        0 <= i < s.len(),
        R::home(s[i]) == home,
    ensures
        top::<R>(s, home) is Some && R::position(s[i]) <= top::<R>(s, home)->0,
    decreases s.len(),
{
    if i < s.len() - 1 {
        assert(s.drop_last()[i] == s[i]);
        lemma_below_top::<R>(s.drop_last(), home, i);
    }
}

/// What a slot of a home holds: a row of it, by its position and its id.
proof fn lemma_slot<R: Placed>(s: Seq<R::V>, home: Option<i64>, k: int) -> (i: int)
    requires
        0 <= k < slots::<R>(s, home).len(),
    ensures
        0 <= i < s.len(),
        R::home(s[i]) == home,
        slots::<R>(s, home)[k] == (R::position(s[i]), R::key(s[i])),
{
    broadcast use {vstd::seq_lib::group_to_multiset_ensures, vstd::seq_lib::group_filter_ensures};

    let h = at_home::<R>(s, home);
    let m = h.map_values(slot_of::<R>());
    let t = m.sort_by(slot_order());
    m.lemma_sort_by_ensures(slot_order());
    assert(t.contains(t[k]));
    assert(t.to_multiset().count(t[k]) > 0);
    assert(m.contains(t[k]));
    let j = choose|j: int| 0 <= j < m.len() && m[j] == t[k];
    assert(is_home::<R>(home)(h[j]));
    assert(h.contains(h[j]));
    s.lemma_filter_contains_rev(is_home::<R>(home), h[j]);
    choose|i: int| 0 <= i < s.len() && s[i] == h[j]
}

/// A row that is added behind the highest position of its home is the last of
/// it, and the rest keep their order.
pub proof fn a_row_behind_the_top_is_last<R: Placed>(s: Seq<R::V>, v: R::V)
    requires
        ascending::<R>(s),
        R::key(v) == fresh::<R>(s),
        match top::<R>(s, R::home(v)) {
            Some(p) => p < R::position(v),
            None => true,
        },
    ensures
        in_order::<R>(s.push(v), R::home(v)) == in_order::<R>(s, R::home(v)).push(v),
{
    broadcast use vstd::seq_lib::group_to_multiset_ensures;

    let home = R::home(v);
    let (old_slots, new_slots) = (slots::<R>(s, home), slots::<R>(s.push(v), home));
    let x = (R::position(v), R::key(v));
    let m = at_home::<R>(s, home).map_values(slot_of::<R>());
    assert(at_home::<R>(s.push(v), home) == at_home::<R>(s, home).push(v)) by {
        reveal(Seq::filter);
        assert(s.push(v).drop_last() =~= s);
    }
    let n = at_home::<R>(s.push(v), home).map_values(slot_of::<R>());
    assert(n =~= m.push(x));
    Slot::total();
    m.lemma_sort_by_ensures(slot_order());
    n.lemma_sort_by_ensures(slot_order());
    let u = old_slots.push(x);
    assert(u.to_multiset() =~= new_slots.to_multiset());
    assert(vstd::relations::sorted_by(u, slot_order())) by {
        assert forall|i: int, j: int| 0 <= i < j < u.len() implies #[trigger] slot_order()(
            u[i],
            u[j],
        ) by {
            if j == old_slots.len() {
                let k = lemma_slot::<R>(s, home, i);
                lemma_below_top::<R>(s, home, k);
            } else {
                assert(slot_order()(old_slots[i], old_slots[j]));
            }
        }
    }
    vstd::seq_lib::lemma_sorted_unique(u, new_slots, slot_order());
    assert forall|k: int| 0 <= k < u.len() implies #[trigger] row_of::<R>(s.push(v))(u[k]) == (
    if k < old_slots.len() {
        row_of::<R>(s)(old_slots[k])
    } else {
        v
    }) by {
        lemma_push_reads::<R>(s, v, u[k].1);
        if k < old_slots.len() {
            let i = lemma_slot::<R>(s, home, k);
            lemma_row_at::<R>(s, i);
        }
    }
    assert(in_order::<R>(s.push(v), home) =~= in_order::<R>(s, home).push(v));
}

/// A home is listed whole: every row of it once and no other, the one at the
/// lower position first, and by id where two stand at the same one.
pub proof fn a_home_is_listed_by_position<R: Placed>(s: Seq<R::V>, home: Option<i64>)
    requires
        ascending::<R>(s),
    ensures
        forall|i: int, j: int|
            0 <= i < j < in_order::<R>(s, home).len() ==> {
                let (a, b) = (
                    #[trigger] in_order::<R>(s, home)[i],
                    #[trigger] in_order::<R>(s, home)[j],
                );
                R::position(a) < R::position(b) || (R::position(a) == R::position(b) && R::key(a)
                    < R::key(b))
            },
        forall|k: int|
            0 <= k < in_order::<R>(s, home).len() ==> {
                let a = #[trigger] in_order::<R>(s, home)[k];
                s.contains(a) && R::home(a) == home
            },
        forall|i: int|
            0 <= i < s.len() && R::home(#[trigger] s[i]) == home ==> in_order::<R>(
                s,
                home,
            ).contains(s[i]),
{
    broadcast use vstd::seq_lib::group_to_multiset_ensures;

    let h = at_home::<R>(s, home);
    let m = h.map_values(slot_of::<R>());
    let t = slots::<R>(s, home);
    let o = in_order::<R>(s, home);
    Slot::total();
    m.lemma_sort_by_ensures(slot_order());
    assert forall|k: int| 0 <= k < o.len() implies s.contains(#[trigger] o[k]) && R::home(o[k])
        == home && t[k] == (R::position(o[k]), R::key(o[k])) by {
        let i = lemma_slot::<R>(s, home, k);
        lemma_row_at::<R>(s, i);
        assert(o[k] == s[i]);
    }
    lemma_filter_ascending::<R>(s, is_home::<R>(home));
    assert(m.no_duplicates()) by {
        assert forall|i: int, j: int| 0 <= i < m.len() && 0 <= j < m.len() && i != j implies m[i]
            != m[j] by {
            if i < j {
                assert(R::key(h[i]) < R::key(h[j]));
            } else {
                assert(R::key(h[j]) < R::key(h[i]));
            }
        }
    }
    m.lemma_multiset_has_no_duplicates();
    assert(t.no_duplicates()) by {
        assert(m.to_multiset() == t.to_multiset());
        t.lemma_multiset_has_no_duplicates_conv();
    }
    assert forall|i: int, j: int| 0 <= i < j < o.len() implies {
        let (a, b) = (#[trigger] o[i], #[trigger] o[j]);
        R::position(a) < R::position(b) || (R::position(a) == R::position(b) && R::key(a) < R::key(
            b,
        ))
    } by {
        assert(slot_order()(t[i], t[j]));
        assert(t[i] != t[j]);
    }
    assert forall|i: int| 0 <= i < s.len() && R::home(#[trigger] s[i]) == home implies o.contains(
        s[i],
    ) by {
        s.lemma_filter_contains(is_home::<R>(home), i);
        let j = choose|j: int| 0 <= j < h.len() && h[j] == s[i];
        assert(m[j] == (R::position(s[i]), R::key(s[i])));
        assert(m.contains(m[j]));
        assert(m.to_multiset().count(m[j]) > 0);
        assert(t.contains(m[j]));
        let k = choose|k: int| 0 <= k < t.len() && t[k] == m[j];
        lemma_row_at::<R>(s, i);
        assert(o[k] == s[i]);
    }
}

/// Whether two homes are the same.
pub fn same_home(a: Option<i64>, b: Option<i64>) -> (r: bool)
    ensures
        r == (a == b),
{
    match (a, b) {
        (Some(x), Some(y)) => x == y,
        (None, None) => true,
        _ => false,
    }
}

/// The highest position in a home.
pub fn find_top<R: Placed>(rows: &Vec<R>, home: Option<i64>) -> (r: Option<i64>)
    ensures
        r == top::<R>(deep(rows@), home),
{
    let mut best: Option<i64> = None;
    let mut i: usize = 0;
    proof {
        assert(deep(rows@).take(0) =~= seq![]);
    }
    while i < rows.len()
        invariant
            i <= rows.len(),
            best == top::<R>(deep(rows@).take(i as int), home),
        decreases rows.len() - i,
    {
        proof {
            assert(deep(rows@).take(i + 1).drop_last() =~= deep(rows@).take(i as int));
            assert(deep(rows@).take(i + 1).last() == rows@[i as int].deep_view());
        }
        if same_home(rows[i].home_id(), home) {
            let p = rows[i].place();
            best = match best {
                None => Some(p),
                Some(q) => if q < p {
                    Some(p)
                } else {
                    Some(q)
                },
            };
        }
        i = i + 1;
    }
    proof {
        assert(deep(rows@).take(rows@.len() as int) =~= deep(rows@));
    }
    best
}

/// The position after the last one in a home; `None` where there is none left.
pub fn next_position<R: Placed>(rows: &Vec<R>, home: Option<i64>, start: i64) -> (r: Option<i64>)
    ensures
        match r {
            Some(p) => p == after_top::<R>(deep(rows@), home, start as int),
            None => after_top::<R>(deep(rows@), home, start as int) > i64::MAX,
        },
{
    match find_top(rows, home) {
        None => Some(start),
        Some(p) => if p == i64::MAX {
            None
        } else {
            Some(p + 1)
        },
    }
}

/// How many rows a home has.
pub fn count_home<R: Placed>(rows: &Vec<R>, home: Option<i64>) -> (n: usize)
    ensures
        n == at_home::<R>(deep(rows@), home).len(),
{
    let mut n: usize = 0;
    let mut i: usize = 0;
    let ghost keep = is_home::<R>(home);
    proof {
        reveal(Seq::filter);
        assert(deep(rows@).take(0) =~= seq![]);
    }
    while i < rows.len()
        invariant
            i <= rows.len(),
            n <= i,
            keep == is_home::<R>(home),
            n == deep(rows@).take(i as int).filter(keep).len(),
        decreases rows.len() - i,
    {
        proof {
            reveal(Seq::filter);
            assert(deep(rows@).take(i + 1).drop_last() =~= deep(rows@).take(i as int));
            assert(deep(rows@).take(i + 1).last() == rows@[i as int].deep_view());
        }
        if same_home(rows[i].home_id(), home) {
            n = n + 1;
        }
        i = i + 1;
    }
    proof {
        assert(deep(rows@).take(rows@.len() as int) =~= deep(rows@));
    }
    n
}

/// Takes out a home's rows.
pub fn clear_home<R: Placed>(rows: &mut Vec<R>, home: Option<i64>)
    requires
        ascending::<R>(deep(old(rows)@)),
    ensures
        deep(final(rows)@) == elsewhere::<R>(deep(old(rows)@), home),
        ascending::<R>(deep(final(rows)@)),
{
    let ghost s = deep(rows@);
    let ghost keep = not_home::<R>(home);
    let mut i: usize = rows.len();
    proof {
        reveal(Seq::filter);
        assert(s.skip(i as int) =~= seq![]);
        assert(s.take(i as int) =~= s);
        assert(s.skip(i as int).filter(keep) =~= seq![]);
        assert(deep(rows@) =~= s.take(i as int) + s.skip(i as int).filter(keep));
    }
    while i > 0
        invariant
            i <= s.len(),
            i <= rows.len(),
            keep == not_home::<R>(home),
            deep(rows@) == s.take(i as int) + s.skip(i as int).filter(keep),
        decreases i,
    {
        i = i - 1;
        let ghost tail = s.skip(i + 1);
        proof {
            let whole = deep(rows@);
            assert(whole[i as int] == s[i as int]);
            assert(s.skip(i as int) =~= seq![s[i as int]] + tail);
            lemma_filter_concat::<R::V>(seq![s[i as int]], tail, keep);
            lemma_filter_one(s[i as int], keep);
        }
        if same_home(rows[i].home_id(), home) {
            let ghost whole = deep(rows@);
            rows.remove(i);
            proof {
                assert(deep(rows@) =~= whole.remove(i as int));
                assert(deep(rows@) =~= s.take(i as int) + s.skip(i as int).filter(keep));
            }
        } else {
            proof {
                assert(deep(rows@) =~= s.take(i as int) + s.skip(i as int).filter(keep));
            }
        }
    }
    proof {
        assert(s.skip(0) =~= s);
        assert(s.take(0) =~= seq![]);
        assert(deep(rows@) =~= s.filter(keep));
        lemma_filter_ascending::<R>(s, keep);
    }
}

/// Filtering a single item.
pub proof fn lemma_filter_one<V>(x: V, keep: spec_fn(V) -> bool)
    ensures
        seq![x].filter(keep) == (if keep(x) {
            seq![x]
        } else {
            seq![]
        }),
{
    reveal_with_fuel(Seq::filter, 2);
    assert(seq![x].drop_last() =~= seq![]);
    assert(seq![x].last() == x);
    assert(Seq::<V>::empty().push(x) =~= seq![x]);
}

/// Filtering two stretches one after the other.
pub proof fn lemma_filter_concat<V>(a: Seq<V>, b: Seq<V>, keep: spec_fn(V) -> bool)
    ensures
        (a + b).filter(keep) == a.filter(keep) + b.filter(keep),
    decreases b.len(),
{
    reveal(Seq::filter);
    if b.len() == 0 {
        assert(a + b =~= a);
        assert(a.filter(keep) + b.filter(keep) =~= a.filter(keep));
    } else {
        assert((a + b).drop_last() =~= a + b.drop_last());
        assert((a + b).last() == b.last());
        lemma_filter_concat(a, b.drop_last(), keep);
        if keep(b.last()) {
            assert(a.filter(keep) + b.drop_last().filter(keep).push(b.last()) =~= (a.filter(keep)
                + b.drop_last().filter(keep)).push(b.last()));
        }
    }
}

/// Where a home's rows stand in the table, by position.
pub fn ordered<R: Placed>(rows: &Vec<R>, home: Option<i64>) -> (r: Vec<usize>)
    requires
        ascending::<R>(deep(rows@)),
    ensures
        r.len() == in_order::<R>(deep(rows@), home).len(),
        forall|k: int|
            0 <= k < r.len() ==> #[trigger] r@[k] < rows.len() && deep(rows@)[r@[k] as int]
                == in_order::<R>(deep(rows@), home)[k],
{
    let ghost s = deep(rows@);
    let ghost keep = is_home::<R>(home);
    let ghost pick = slot_of::<R>();
    let mut found: Vec<Slot> = Vec::new();
    let mut i: usize = 0;
    proof {
        reveal(Seq::filter);
        assert(s.take(0) =~= seq![]);
        assert(deep(found@) =~= s.take(0).filter(keep).map_values(pick));
    }
    while i < rows.len()
        invariant
            i <= rows.len(),
            s == deep(rows@),
            keep == is_home::<R>(home),
            pick == slot_of::<R>(),
            deep(found@) == s.take(i as int).filter(keep).map_values(pick),
        decreases rows.len() - i,
    {
        proof {
            reveal(Seq::filter);
            assert(s.take(i + 1).drop_last() =~= s.take(i as int));
            assert(s.take(i + 1).last() == rows@[i as int].deep_view());
        }
        if same_home(rows[i].home_id(), home) {
            let ghost before = deep(found@);
            let slot = Slot { position: rows[i].place(), id: rows[i].id() };
            proof {
                assert(slot.deep_view() == pick(s[i as int]));
            }
            found.push(slot);
            proof {
                assert(deep(found@) =~= before.push(pick(s[i as int])));
                let f = s.take(i as int).filter(keep);
                assert(s.take(i + 1).filter(keep) =~= f.push(s[i as int]));
                assert(f.push(s[i as int]).map_values(pick) =~= f.map_values(pick).push(
                    pick(s[i as int]),
                ));
            }
        }
        i = i + 1;
    }
    proof {
        assert(s.take(rows@.len() as int) =~= s);
    }
    let ghost all = deep(found@);
    let sorted = sort::sort(found);
    proof {
        assert(deep(sorted@) == slots::<R>(s, home));
        Slot::total();
        all.lemma_sort_by_ensures(Slot::leq());
    }
    let mut out: Vec<usize> = Vec::new();
    let mut k: usize = 0;
    while k < sorted.len()
        invariant
            k <= sorted.len(),
            out.len() == k,
            s == deep(rows@),
            ascending::<R>(s),
            deep(sorted@) == slots::<R>(s, home),
            all == at_home::<R>(s, home).map_values(pick),
            keep == is_home::<R>(home),
            pick == slot_of::<R>(),
            forall|x: (i64, i64)| !all.contains(x) ==> !(#[trigger] deep(sorted@).contains(x)),
            forall|j: int|
                0 <= j < k ==> #[trigger] out@[j] < rows.len() && s[out@[j] as int] == in_order::<
                    R,
                >(s, home)[j],
        decreases sorted.len() - k,
    {
        proof {
            let slot = deep(sorted@)[k as int];
            assert(slot == sorted@[k as int].deep_view());
            assert(deep(sorted@).contains(slot));
            assert(all.contains(slot));
            let m = choose|m: int| 0 <= m < all.len() && all[m] == slot;
            let v = at_home::<R>(s, home)[m];
            assert(slot == pick(v));
            s.lemma_filter_contains_rev(keep, v);
            let n = choose|n: int| 0 <= n < s.len() && s[n] == v;
            assert(s[n] == rows@[n].deep_view());
            lemma_row_at::<R>(s, n);
        }
        match find(rows, sorted[k].id) {
            Some(at) => {
                out.push(at);
            },
            None => {
                proof {
                    assert(false);
                }
            },
        }
        k = k + 1;
    }
    out
}

/// What is handed out of each row.
pub open spec fn show_each<R: Keyed, T: Shown<R>>() -> spec_fn(R::V) -> T::V {
    |v: R::V| T::shown(v)
}

/// A home's rows as they are handed out, by position.
pub fn list<R: Placed, T: Shown<R>>(rows: &Vec<R>, home: Option<i64>) -> (out: Vec<T>)
    requires
        ascending::<R>(deep(rows@)),
    ensures
        deep(out@) == in_order::<R>(deep(rows@), home).map_values(show_each::<R, T>()),
{
    let ghost all = in_order::<R>(deep(rows@), home);
    let order = ordered(rows, home);
    let mut out: Vec<T> = Vec::new();
    let mut k: usize = 0;
    while k < order.len()
        invariant
            k <= order.len(),
            out.len() == k,
            order.len() == all.len(),
            forall|j: int|
                0 <= j < order.len() ==> #[trigger] order@[j] < rows.len() && deep(
                    rows@,
                )[order@[j] as int] == all[j],
            forall|j: int| 0 <= j < k ==> (#[trigger] out@[j]).deep_view() == T::shown(all[j]),
        decreases order.len() - k,
    {
        proof {
            assert(order@[k as int] < rows.len());
        }
        out.push(T::show(&rows[order[k]]));
        k = k + 1;
    }
    proof {
        assert(deep(out@) =~= all.map_values(show_each::<R, T>()));
    }
    out
}

} // verus!
