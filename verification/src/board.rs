//! The board: cards in a session or in the backlog, and the labels they wear.

use vstd::prelude::*;

use crate::db::count;
use crate::db::counted;
use crate::db::ensure_open;
use crate::db::full;
use crate::db::no_room;
use crate::db::open_in;
use crate::error::other;
use crate::error::AppError;
use crate::error::Failure;
use crate::models::Arrangement;
use crate::models::Label;
use crate::models::LabelSummary;
use crate::models::Task;
use crate::rows::LabelRow;
use crate::rows::Store;
use crate::rows::Tables;
use crate::rows::TaskRow;
use crate::sort;
use crate::sort::deep;
use crate::sort::Ranked;
use crate::table;
use crate::table::after_top;
use crate::table::fresh;
use crate::table::in_order;
use crate::table::put;
use crate::table::row_at;
use crate::table::text_order;
use crate::table::without;
use crate::table::TextSlot;
use crate::text;
use crate::text::folded;
use crate::time;

verus! {

broadcast use vstd::seq_lib::group_seq_properties;

// --------------------------------------------------------------------- labels

/// The colours a new label can be given, in turn.
pub open spec fn color_of(n: int) -> Seq<char> {
    let k = n % 8;
    if k == 0 {
        "#7aa2f7"@
    } else if k == 1 {
        "#9ece6a"@
    } else if k == 2 {
        "#e0af68"@
    } else if k == 3 {
        "#f7768e"@
    } else if k == 4 {
        "#bb9af7"@
    } else if k == 5 {
        "#2ac3de"@
    } else if k == 6 {
        "#ff9e64"@
    } else {
        "#41a6b5"@
    }
}

fn pick_color(n: usize) -> (r: &'static str)
    ensures
        r@ == color_of(n as int),
{
    let k = n % 8;
    if k == 0 {
        "#7aa2f7"
    } else if k == 1 {
        "#9ece6a"
    } else if k == 2 {
        "#e0af68"
    } else if k == 3 {
        "#f7768e"
    } else if k == 4 {
        "#bb9af7"
    } else if k == 5 {
        "#2ac3de"
    } else if k == 6 {
        "#ff9e64"
    } else {
        "#41a6b5"
    }
}

/// The pairs of a task and a label that speak of a label.
pub open spec fn is_label(label: i64) -> spec_fn((i64, i64)) -> bool {
    |p: (i64, i64)| p.1 == label
}

pub open spec fn not_label(label: i64) -> spec_fn((i64, i64)) -> bool {
    |p: (i64, i64)| p.1 != label
}

pub open spec fn not_task(task: i64) -> spec_fn((i64, i64)) -> bool {
    |p: (i64, i64)| p.0 != task
}

/// A label is worn by a task.
pub open spec fn worn(v: Tables, task: i64, label: i64) -> bool {
    v.task_labels.contains((task, label))
}

/// The label of that name, capitals aside.
pub open spec fn label_named(s: Seq<LabelRow<Seq<char>>>, name: Seq<char>) -> Option<
    LabelRow<Seq<char>>,
>
    decreases s.len(),
{
    if s.len() == 0 {
        None
    } else if folded(s[0].name) == folded(name) {
        Some(s[0])
    } else {
        label_named(s.drop_first(), name)
    }
}

/// No two labels have the same name, capitals aside.
pub open spec fn names_differ(s: Seq<LabelRow<Seq<char>>>) -> bool {
    forall|i: int, j: int|
        0 <= i < j < s.len() ==> folded((#[trigger] s[i]).name) != folded((#[trigger] s[j]).name)
}

/// The store with a label of that name in it, made where there was none.
pub open spec fn with_label(v: Tables, name: Seq<char>) -> Tables {
    match label_named(v.labels, name) {
        Some(_) => v,
        None => Tables {
            labels: v.labels.push(
                LabelRow {
                    id: fresh::<LabelRow>(v.labels) as i64,
                    name,
                    color: color_of(v.labels.len() as int),
                },
            ),
            ..v
        },
    }
}

/// The id of the label of that name once it is there.
pub open spec fn label_id(v: Tables, name: Seq<char>) -> i64 {
    match label_named(v.labels, name) {
        Some(l) => l.id,
        None => fresh::<LabelRow>(v.labels) as i64,
    }
}

/// One of the names is that name, capitals aside.
pub open spec fn has_name(s: Seq<Seq<char>>, name: Seq<char>) -> bool {
    exists|i: int| 0 <= i < s.len() && folded(#[trigger] s[i]) == folded(name)
}

/// The names that no label has yet, trimmed, and each of them once; blank ones
/// are nothing.
pub open spec fn new_names(labels: Seq<LabelRow<Seq<char>>>, names: Seq<Seq<char>>) -> Seq<Seq<char>>
    decreases names.len(),
{
    if names.len() == 0 {
        seq![]
    } else {
        let rest = new_names(labels, names.drop_last());
        let name = text::trimmed(names.last());
        if name.len() == 0 || label_named(labels, name) is Some || has_name(rest, name) {
            rest
        } else {
            rest.push(name)
        }
    }
}

/// There are ids left for the labels that are new.
pub open spec fn label_room(v: Tables, names: Seq<Seq<char>>) -> bool {
    let n = new_names(v.labels, names).len();
    n == 0 || fresh::<LabelRow>(v.labels) + n <= i64::MAX + 1
}

/// The label of a name is there, or there is an id left for it.
pub open spec fn label_fits(v: Tables, name: Seq<char>) -> bool {
    label_named(v.labels, name) is Some || fresh::<LabelRow>(v.labels) <= i64::MAX
}

pub proof fn lemma_named_push(s: Seq<LabelRow<Seq<char>>>, l: LabelRow<Seq<char>>, name: Seq<char>)
    ensures
        label_named(s.push(l), name) == (match label_named(s, name) {
            Some(x) => Some(x),
            None => if folded(l.name) == folded(name) {
                Some(l)
            } else {
                None
            },
        }),
    decreases s.len(),
{
    if s.len() == 0 {
        assert(s.push(l)[0] == l);
        assert(s.push(l).drop_first() =~= seq![]);
    } else {
        assert(s.push(l).drop_first() =~= s.drop_first().push(l));
        lemma_named_push(s.drop_first(), l, name);
    }
}

proof fn lemma_has_name_push(s: Seq<Seq<char>>, x: Seq<char>, name: Seq<char>)
    ensures
        has_name(s.push(x), name) <==> has_name(s, name) || folded(x) == folded(name),
{
    let t = s.push(x);
    if has_name(s, name) {
        let i = choose|i: int| 0 <= i < s.len() && folded(#[trigger] s[i]) == folded(name);
        assert(t[i] == s[i]);
    }
    if folded(x) == folded(name) {
        assert(t[s.len() as int] == x);
    }
    if has_name(t, name) {
        let i = choose|i: int| 0 <= i < t.len() && folded(#[trigger] t[i]) == folded(name);
        if i < s.len() {
            assert(s[i] == t[i]);
        }
    }
}

proof fn lemma_new_names_grow(
    labels: Seq<LabelRow<Seq<char>>>,
    names: Seq<Seq<char>>,
    k: int,
)
    requires
        0 <= k <= names.len(),
    ensures
        new_names(labels, names.take(k)).len() <= new_names(labels, names).len(),
    decreases names.len(),
{
    if k == names.len() {
        assert(names.take(k) =~= names);
    } else {
        assert(names.drop_last().take(k) =~= names.take(k));
        lemma_new_names_grow(labels, names.drop_last(), k);
    }
}

/// Room for some names is room for those that come first.
pub proof fn lemma_room_for_fewer(v: Tables, names: Seq<Seq<char>>, k: int)
    requires
        label_room(v, names),
        0 <= k <= names.len(),
    ensures
        label_room(v, names.take(k)),
{
    lemma_new_names_grow(v.labels, names, k);
}

/// What tagging a card does to the labels: those that are new are made, one id
/// for each.
pub proof fn lemma_tagged_names(v: Tables, id: i64, names: Seq<Seq<char>>, name: Seq<char>)
    requires
        label_room(v, names),
    ensures
        label_named(tagged(v, id, names).labels, name) is Some <==> label_named(
            v.labels,
            name,
        ) is Some || has_name(new_names(v.labels, names), name),
        fresh::<LabelRow>(tagged(v, id, names).labels) == fresh::<LabelRow>(v.labels) + new_names(
            v.labels,
            names,
        ).len(),
    decreases names.len(),
{
    if names.len() > 0 {
        let rest = names.drop_last();
        assert(names.take(names.len() - 1) =~= rest);
        lemma_room_for_fewer(v, names, names.len() - 1);
        lemma_tagged_names(v, id, rest, name);
        let w = tagged(v, id, rest);
        let one = text::trimmed(names.last());
        if one.len() > 0 {
            lemma_tagged_names(v, id, rest, one);
            if label_named(w.labels, one) is None {
                let l = LabelRow {
                    id: fresh::<LabelRow>(w.labels) as i64,
                    name: one,
                    color: color_of(w.labels.len() as int),
                };
                lemma_named_push(w.labels, l, name);
                lemma_has_name_push(new_names(v.labels, rest), one, name);
            }
        }
    }
}

/// Every name fits where there is room for all of them.
pub proof fn lemma_next_name_fits(v: Tables, id: i64, names: Seq<Seq<char>>)
    requires
        names.len() > 0,
        label_room(v, names),
        text::trimmed(names.last()).len() > 0,
    ensures
        label_fits(tagged(v, id, names.drop_last()), text::trimmed(names.last())),
{
    assert(names.take(names.len() - 1) =~= names.drop_last());
    lemma_room_for_fewer(v, names, names.len() - 1);
    lemma_tagged_names(v, id, names.drop_last(), text::trimmed(names.last()));
}

fn find_label(labels: &Vec<LabelRow>, name: &str) -> (r: Option<usize>)
    ensures
        match r {
            Some(i) => i < labels.len() && label_named(deep(labels@), name@) == Some(
                labels@[i as int].deep_view(),
            ),
            None => label_named(deep(labels@), name@) is None,
        },
{
    let f = text::fold(name);
    let ghost s = deep(labels@);
    let mut i: usize = 0;
    proof {
        assert(s.skip(0) =~= s);
    }
    while i < labels.len()
        invariant
            i <= labels.len(),
            s == deep(labels@),
            f@ == folded(name@),
            label_named(s, name@) == label_named(s.skip(i as int), name@),
        decreases labels.len() - i,
    {
        proof {
            assert(s.skip(i as int)[0] == labels@[i as int].deep_view());
            assert(s.skip(i as int).drop_first() =~= s.skip(i + 1));
        }
        if text::same(text::fold(labels[i].name.as_str()).as_str(), f.as_str()) {
            return Some(i);
        }
        i = i + 1;
    }
    None
}

/// Makes a label, or finds the one there is, which keeps its colour.
fn ensure_label(store: &mut Store, name: &str) -> (id: i64)
    requires
        old(store)@.wf(),
        label_fits(old(store)@, name@),
    ensures
        final(store)@.wf(),
        final(store)@ == with_label(old(store)@, name@),
        id == label_id(old(store)@, name@),
{
    match find_label(&store.labels, name) {
        Some(i) => store.labels[i].id,
        None => {
            let id = match table::next_id(&store.labels) {
                Some(id) => id,
                None => 0,
            };
            let n = store.labels.len();
            let row = LabelRow { id, name: text::owned(name), color: text::owned(pick_color(n)) };
            table::add_row(&mut store.labels, row);
            id
        },
    }
}

fn among(names: &Vec<String>, name: &str) -> (r: bool)
    ensures
        r == has_name(text::views(names@), name@),
{
    let f = text::fold(name);
    let ghost s = text::views(names@);
    let mut i: usize = 0;
    while i < names.len()
        invariant
            i <= names.len(),
            s == text::views(names@),
            f@ == folded(name@),
            forall|j: int| 0 <= j < i ==> folded(#[trigger] s[j]) != folded(name@),
        decreases names.len() - i,
    {
        if text::same(text::fold(names[i].as_str()).as_str(), f.as_str()) {
            proof {
                assert(folded(s[i as int]) == folded(name@));
            }
            return true;
        }
        i = i + 1;
    }
    false
}

/// Whether there are ids left for the labels that are new.
fn has_label_room(store: &Store, names: &Vec<String>) -> (r: bool)
    ensures
        r == label_room(store@, text::views(names@)),
{
    let ghost all = text::views(names@);
    let ghost labels = store@.labels;
    let mut found: Vec<String> = Vec::new();
    let mut i: usize = 0;
    proof {
        assert(all.take(0) =~= seq![]);
        assert(text::views(found@) =~= seq![]);
    }
    while i < names.len()
        invariant
            i <= names.len(),
            all == text::views(names@),
            labels == store@.labels,
            text::views(found@) == new_names(labels, all.take(i as int)),
        decreases names.len() - i,
    {
        proof {
            assert(all.take(i + 1).drop_last() =~= all.take(i as int));
            assert(all.take(i + 1).last() == names@[i as int]@);
        }
        let name = text::trim(names[i].as_str());
        if !name.as_str().is_empty() && find_label(&store.labels, name.as_str()).is_none()
            && !among(&found, name.as_str()) {
            let ghost before = text::views(found@);
            let ghost x = name@;
            found.push(name);
            proof {
                assert(text::views(found@) =~= before.push(x));
            }
        }
        i = i + 1;
    }
    proof {
        assert(all.take(all.len() as int) =~= all);
    }
    if found.len() == 0 {
        return true;
    }
    match table::next_id(&store.labels) {
        None => false,
        Some(next) => next as i128 + found.len() as i128 <= 0x8000_0000_0000_0000,
    }
}

/// All labels, or those a task wears.
pub open spec fn chosen(v: Tables, task: Option<i64>) -> spec_fn(LabelRow<Seq<char>>) -> bool {
    |l: LabelRow<Seq<char>>| task is None || worn(v, task->0, l.id)
}

pub open spec fn name_slot() -> spec_fn(LabelRow<Seq<char>>) -> (Seq<char>, i64) {
    |l: LabelRow<Seq<char>>| (folded(l.name), l.id)
}

/// Labels by name, capitals aside.
pub open spec fn by_name(v: Tables, task: Option<i64>) -> Seq<LabelRow<Seq<char>>> {
    v.labels.filter(chosen(v, task)).map_values(name_slot()).sort_by(text_order()).map_values(
        |k: (Seq<char>, i64)| row_at::<LabelRow>(v.labels, k.1)->0,
    )
}

fn wears(store: &Store, task: i64, label: i64) -> (r: bool)
    ensures
        r == worn(store@, task, label),
{
    let mut i: usize = 0;
    while i < store.task_labels.len()
        invariant
            i <= store.task_labels.len(),
            forall|j: int| 0 <= j < i ==> store.task_labels@[j] != (task, label),
        decreases store.task_labels.len() - i,
    {
        let (t, l) = store.task_labels[i];
        if t == task && l == label {
            proof {
                assert(store.task_labels@[i as int] == (task, label));
            }
            return true;
        }
        i = i + 1;
    }
    false
}

/// Where the labels stand in their table, by name.
fn label_order(store: &Store, task: Option<i64>) -> (r: Vec<usize>)
    requires
        store@.wf(),
    ensures
        r.len() == by_name(store@, task).len(),
        forall|k: int|
            0 <= k < r.len() ==> #[trigger] r@[k] < store.labels.len()
                && store@.labels[r@[k] as int] == by_name(store@, task)[k],
{
    let ghost v = store@;
    let ghost s = v.labels;
    let ghost keep = chosen(v, task);
    let ghost pick = name_slot();
    let mut found: Vec<TextSlot> = Vec::new();
    let mut i: usize = 0;
    proof {
        reveal(Seq::filter);
        assert(s.take(0) =~= seq![]);
        assert(deep(found@) =~= s.take(0).filter(keep).map_values(pick));
    }
    while i < store.labels.len()
        invariant
            i <= store.labels.len(),
            v == store@,
            s == v.labels,
            keep == chosen(v, task),
            pick == name_slot(),
            deep(found@) == s.take(i as int).filter(keep).map_values(pick),
        decreases store.labels.len() - i,
    {
        let row = &store.labels[i];
        proof {
            reveal(Seq::filter);
            assert(s.take(i + 1).drop_last() =~= s.take(i as int));
            assert(s.take(i + 1).last() == row.deep_view());
        }
        let yes = match task {
            None => true,
            Some(t) => wears(store, t, row.id),
        };
        if yes {
            let ghost before = deep(found@);
            found.push(TextSlot { text: text::fold(row.name.as_str()), id: row.id });
            proof {
                assert(deep(found@) =~= before.push(pick(s[i as int])));
                let f = s.take(i as int).filter(keep);
                assert(s.take(i + 1).filter(keep) =~= f.push(s[i as int]));
                assert(f.push(s[i as int]).map_values(pick) =~= f.map_values(pick).push(
                    pick(s[i as int]),
                ));
            }
        }
        i = i + 1;
    }
    proof {
        assert(s.take(s.len() as int) =~= s);
    }
    let ghost all = deep(found@);
    let sorted = sort::sort(found);
    proof {
        TextSlot::total();
        all.lemma_sort_by_ensures(TextSlot::leq());
    }
    let mut out: Vec<usize> = Vec::new();
    let mut k: usize = 0;
    while k < sorted.len()
        invariant
            k <= sorted.len(),
            out.len() == k,
            v == store@,
            v.wf(),
            s == v.labels,
            keep == chosen(v, task),
            pick == name_slot(),
            all == s.filter(keep).map_values(pick),
            deep(sorted@) == all.sort_by(text_order()),
            forall|x: (Seq<char>, i64)| !all.contains(x) ==> !(#[trigger] deep(sorted@).contains(x)),
            forall|j: int|
                0 <= j < k ==> #[trigger] out@[j] < store.labels.len() && s[out@[j] as int]
                    == by_name(v, task)[j],
        decreases sorted.len() - k,
    {
        proof {
            let slot = deep(sorted@)[k as int];
            assert(slot == sorted@[k as int].deep_view());
            assert(deep(sorted@).contains(slot));
            assert(all.contains(slot));
            let m = choose|m: int| 0 <= m < all.len() && all[m] == slot;
            let l = s.filter(keep)[m];
            assert(slot == pick(l));
            s.lemma_filter_contains_rev(keep, l);
            let n = choose|n: int| 0 <= n < s.len() && s[n] == l;
            table::lemma_row_at::<LabelRow>(s, n);
        }
        match table::find(&store.labels, sorted[k].id) {
            Some(at) => {
                out.push(at);
            },
            None => {
                proof {
                    assert(false);
                }
            },
        }
        k = k + 1;
    }
    out
}

/// How many tasks wear a label.
pub open spec fn uses(v: Tables, label: i64) -> nat {
    v.task_labels.filter(is_label(label)).len()
}

fn count_uses(store: &Store, label: i64) -> (n: usize)
    ensures
        n == uses(store@, label),
{
    let ghost s = store.task_labels@;
    let ghost keep = is_label(label);
    let mut n: usize = 0;
    let mut i: usize = 0;
    proof {
        reveal(Seq::filter);
        assert(s.take(0) =~= seq![]);
    }
    while i < store.task_labels.len()
        invariant
            i <= store.task_labels.len(),
            n <= i,
            s == store.task_labels@,
            keep == is_label(label),
            n == s.take(i as int).filter(keep).len(),
        decreases store.task_labels.len() - i,
    {
        proof {
            reveal(Seq::filter);
            assert(s.take(i + 1).drop_last() =~= s.take(i as int));
            assert(s.take(i + 1).last() == s[i as int]);
        }
        let (_, l) = store.task_labels[i];
        if l == label {
            n = n + 1;
        }
        i = i + 1;
    }
    proof {
        assert(s.take(s.len() as int) =~= s);
    }
    n
}

/// Every label there is, worn or not, with how many tasks wear it.
pub open spec fn label_list(v: Tables) -> Seq<LabelSummary<Seq<char>>> {
    by_name(v, None).map_values(
        |l: LabelRow<Seq<char>>|
            LabelSummary { name: l.name, color: l.color, uses: counted(uses(v, l.id)) },
    )
}

pub fn list_labels(store: &Store) -> (r: Vec<LabelSummary>)
    requires
        store@.wf(),
    ensures
        deep(r@) == label_list(store@),
{
    let order = label_order(store, None);
    let mut out: Vec<LabelSummary> = Vec::new();
    let mut k: usize = 0;
    while k < order.len()
        invariant
            k <= order.len(),
            out.len() == k,
            order.len() == by_name(store@, None).len(),
            forall|j: int|
                0 <= j < order.len() ==> #[trigger] order@[j] < store.labels.len()
                    && store@.labels[order@[j] as int] == by_name(store@, None)[j],
            forall|j: int| 0 <= j < k ==> #[trigger] deep(out@)[j] == label_list(store@)[j],
        decreases order.len() - k,
    {
        let ghost before = out@;
        proof {
            assert(order@[k as int] < store.labels.len());
        }
        let row = &store.labels[order[k]];
        out.push(
            LabelSummary {
                name: row.name.clone(),
                color: row.color.clone(),
                uses: count(count_uses(store, row.id)),
            },
        );
        proof {
            assert forall|j: int| 0 <= j < k + 1 implies #[trigger] deep(out@)[j] == label_list(
                store@,
            )[j] by {
                if j < k {
                    assert(deep(before)[j] == label_list(store@)[j]);
                }
            }
        }
        k = k + 1;
    }
    proof {
        assert(deep(out@) =~= label_list(store@));
    }
    out
}

/// A preset: a label made before anything wears it.
pub fn create_label(store: &mut Store, name: &str) -> (r: Result<(), AppError>)
    requires
        old(store)@.wf(),
    ensures
        final(store)@.wf(),
        match r {
            Ok(_) => !text::blank(name@) && label_fits(old(store)@, text::trimmed(name@))
                && final(store)@ == with_label(old(store)@, text::trimmed(name@)),
            Err(e) => final(store)@ == old(store)@ && (if text::blank(name@) {
                e@ == Failure::Other("a label needs a name"@)
            } else {
                !label_fits(old(store)@, text::trimmed(name@)) && e@ == full()
            }),
        },
{
    let name = text::trim(name);
    if name.as_str().is_empty() {
        return Err(other("a label needs a name"));
    }
    if find_label(&store.labels, name.as_str()).is_none() && table::next_id(
        &store.labels,
    ).is_none() {
        return Err(no_room());
    }
    ensure_label(store, name.as_str());
    Ok(())
}

/// The store without a label and without what wore it.
pub open spec fn without_label(v: Tables, id: i64) -> Tables {
    Tables {
        labels: without::<LabelRow>(v.labels, id),
        task_labels: v.task_labels.filter(not_label(id)),
        ..v
    }
}

fn strip_label(pairs: &mut Vec<(i64, i64)>, label: i64)
    ensures
        final(pairs)@ == old(pairs)@.filter(not_label(label)),
{
    let ghost s = pairs@;
    let ghost keep = not_label(label);
    let mut out: Vec<(i64, i64)> = Vec::new();
    let mut i: usize = 0;
    proof {
        reveal(Seq::filter);
        assert(s.take(0) =~= seq![]);
        assert(out@ =~= s.take(0).filter(keep));
    }
    while i < pairs.len()
        invariant
            i <= pairs.len(),
            s == pairs@,
            keep == not_label(label),
            out@ == s.take(i as int).filter(keep),
        decreases pairs.len() - i,
    {
        proof {
            reveal(Seq::filter);
            assert(s.take(i + 1).drop_last() =~= s.take(i as int));
            assert(s.take(i + 1).last() == s[i as int]);
        }
        let (t, l) = pairs[i];
        if l != label {
            out.push((t, l));
        }
        i = i + 1;
    }
    proof {
        assert(s.take(s.len() as int) =~= s);
    }
    *pairs = out;
}

fn strip_task(pairs: &mut Vec<(i64, i64)>, task: i64)
    ensures
        final(pairs)@ == old(pairs)@.filter(not_task(task)),
{
    let ghost s = pairs@;
    let ghost keep = not_task(task);
    let mut out: Vec<(i64, i64)> = Vec::new();
    let mut i: usize = 0;
    proof {
        reveal(Seq::filter);
        assert(s.take(0) =~= seq![]);
        assert(out@ =~= s.take(0).filter(keep));
    }
    while i < pairs.len()
        invariant
            i <= pairs.len(),
            s == pairs@,
            keep == not_task(task),
            out@ == s.take(i as int).filter(keep),
        decreases pairs.len() - i,
    {
        proof {
            reveal(Seq::filter);
            assert(s.take(i + 1).drop_last() =~= s.take(i as int));
            assert(s.take(i + 1).last() == s[i as int]);
        }
        let (t, l) = pairs[i];
        if t != task {
            out.push((t, l));
        }
        i = i + 1;
    }
    proof {
        assert(s.take(s.len() as int) =~= s);
    }
    *pairs = out;
}

/// Deletes a label everywhere: every card that wore it lets it go.
pub fn delete_label(store: &mut Store, name: &str) -> (r: Result<(), AppError>)
    requires
        old(store)@.wf(),
    ensures
        final(store)@.wf(),
        match r {
            Ok(_) => label_named(old(store)@.labels, text::trimmed(name@)) is Some && final(store)@
                == without_label(
                old(store)@,
                label_named(old(store)@.labels, text::trimmed(name@))->0.id,
            ),
            Err(e) => label_named(old(store)@.labels, text::trimmed(name@)) is None
                && final(store)@ == old(store)@
                && e@ == Failure::Other("no label "@ + text::quoted(name@)),
        },
{
    let trimmed = text::trim(name);
    match find_label(&store.labels, trimmed.as_str()) {
        Some(i) => {
            let id = store.labels[i].id;
            table::remove_row(&mut store.labels, i);
            strip_label(&mut store.task_labels, id);
            Ok(())
        },
        None => Err(
            AppError::Other(text::cat2("no label ", text::quote(name).as_str())),
        ),
    }
}

// ---------------------------------------------------------------------- cards

/// How often a task was carried over: the length of the chain behind it.
pub open spec fn carries(s: Seq<TaskRow<Seq<char>>>, id: i64, fuel: nat) -> nat
    decreases fuel,
{
    match row_at::<TaskRow>(s, id) {
        Some(t) => if t.carried_from is Some && fuel > 0 {
            1 + carries(s, t.carried_from->0, (fuel - 1) as nat)
        } else {
            0
        },
        None => 0,
    }
}

fn count_carries(store: &Store, id: i64) -> (n: usize)
    requires
        store@.wf(),
    ensures
        n == carries(store@.tasks, id, store@.tasks.len()),
{
    let mut n: usize = 0;
    let mut at: i64 = id;
    let total = store.tasks.len();
    loop
        invariant_except_break
            n + carries(store@.tasks, at, (total - n) as nat) == carries(
                store@.tasks,
                id,
                store@.tasks.len(),
            ),
        invariant
            n <= total == store.tasks.len(),
            store@.wf(),
        ensures
            n == carries(store@.tasks, id, store@.tasks.len()),
        decreases total - n,
    {
        if n == total {
            break;
        }
        match table::find(&store.tasks, at) {
            None => {
                break;
            },
            Some(i) => match store.tasks[i].carried_from {
                None => {
                    break;
                },
                Some(from) => {
                    n = n + 1;
                    at = from;
                },
            },
        }
    }
    n
}

/// The labels a card wears, by name.
pub open spec fn card_labels(v: Tables, task: i64) -> Seq<Label<Seq<char>>> {
    by_name(v, Some(task)).map_values(
        |l: LabelRow<Seq<char>>| Label { name: l.name, color: l.color },
    )
}

/// A card as the screen is given it.
pub open spec fn card(v: Tables, t: TaskRow<Seq<char>>) -> Task<
    Seq<char>,
    Seq<Label<Seq<char>>>,
> {
    Task {
        id: t.id,
        session_id: t.session_id,
        title: t.title,
        position: t.position,
        status: t.status,
        carry_count: counted(carries(v.tasks, t.id, v.tasks.len())),
        notes: t.notes,
        due_date: t.due_date,
        labels: card_labels(v, t.id),
    }
}

/// The labels of one card.
fn attach_labels(store: &Store, task: i64) -> (r: Vec<Label>)
    requires
        store@.wf(),
    ensures
        deep(r@) == card_labels(store@, task),
{
    let order = label_order(store, Some(task));
    let mut out: Vec<Label> = Vec::new();
    let mut k: usize = 0;
    while k < order.len()
        invariant
            k <= order.len(),
            out.len() == k,
            order.len() == by_name(store@, Some(task)).len(),
            forall|j: int|
                0 <= j < order.len() ==> #[trigger] order@[j] < store.labels.len()
                    && store@.labels[order@[j] as int] == by_name(store@, Some(task))[j],
            forall|j: int| 0 <= j < k ==> #[trigger] deep(out@)[j] == card_labels(store@, task)[j],
        decreases order.len() - k,
    {
        let ghost before = out@;
        proof {
            assert(order@[k as int] < store.labels.len());
        }
        let row = &store.labels[order[k]];
        out.push(Label { name: row.name.clone(), color: row.color.clone() });
        proof {
            assert forall|j: int| 0 <= j < k + 1 implies #[trigger] deep(out@)[j] == card_labels(
                store@,
                task,
            )[j] by {
                if j < k {
                    assert(deep(before)[j] == card_labels(store@, task)[j]);
                }
            }
        }
        k = k + 1;
    }
    proof {
        assert(deep(out@) =~= card_labels(store@, task));
    }
    out
}

fn show_card(store: &Store, t: &TaskRow) -> (r: Task)
    requires
        store@.wf(),
    ensures
        r.deep_view() == card(store@, t.deep_view()),
{
    Task {
        id: t.id,
        session_id: t.session_id,
        title: t.title.clone(),
        position: t.position,
        status: t.status.clone(),
        carry_count: count(count_carries(store, t.id)),
        notes: t.notes.clone(),
        due_date: text::owned_opt(&t.due_date),
        labels: attach_labels(store, t.id),
    }
}

/// The cards of a session, or of the backlog, in order.
pub open spec fn cards(v: Tables, home: Option<i64>) -> Seq<
    Task<Seq<char>, Seq<Label<Seq<char>>>>,
> {
    in_order::<TaskRow>(v.tasks, home).map_values(|t: TaskRow<Seq<char>>| card(v, t))
}

fn cards_of(store: &Store, home: Option<i64>) -> (r: Vec<Task>)
    requires
        store@.wf(),
    ensures
        deep(r@) == cards(store@, home),
{
    let order = table::ordered(&store.tasks, home);
    let mut out: Vec<Task> = Vec::new();
    let mut k: usize = 0;
    while k < order.len()
        invariant
            k <= order.len(),
            out.len() == k,
            store@.wf(),
            order.len() == in_order::<TaskRow>(store@.tasks, home).len(),
            forall|j: int|
                0 <= j < order.len() ==> #[trigger] order@[j] < store.tasks.len()
                    && store@.tasks[order@[j] as int] == in_order::<TaskRow>(
                    store@.tasks,
                    home,
                )[j],
            forall|j: int| 0 <= j < k ==> #[trigger] deep(out@)[j] == cards(store@, home)[j],
        decreases order.len() - k,
    {
        let ghost before = out@;
        proof {
            assert(order@[k as int] < store.tasks.len());
        }
        out.push(show_card(store, &store.tasks[order[k]]));
        proof {
            assert forall|j: int| 0 <= j < k + 1 implies #[trigger] deep(out@)[j] == cards(
                store@,
                home,
            )[j] by {
                if j < k {
                    assert(deep(before)[j] == cards(store@, home)[j]);
                }
            }
        }
        k = k + 1;
    }
    proof {
        assert(deep(out@) =~= cards(store@, home));
    }
    out
}

pub fn session_tasks(store: &Store, session_id: i64) -> (r: Vec<Task>)
    requires
        store@.wf(),
    ensures
        deep(r@) == cards(store@, Some(session_id)),
{
    cards_of(store, Some(session_id))
}

pub fn backlog(store: &Store) -> (r: Vec<Task>)
    requires
        store@.wf(),
    ensures
        deep(r@) == cards(store@, None),
{
    cards_of(store, None)
}

fn copy_task(t: &TaskRow) -> (r: TaskRow)
    ensures
        r.deep_view() == t.deep_view(),
{
    TaskRow {
        id: t.id,
        session_id: t.session_id,
        title: t.title.clone(),
        position: t.position,
        status: t.status.clone(),
        notes: t.notes.clone(),
        due_date: text::owned_opt(&t.due_date),
        carried_from: t.carried_from,
        started_at: text::owned_opt(&t.started_at),
        resolved_at: text::owned_opt(&t.resolved_at),
        source: t.source.clone(),
        created_at: t.created_at.clone(),
    }
}

// ------------------------------------------------------------------ the board

/// A card after it was put in a column: when it first got going, and when it
/// was settled. A card that is open again was not settled.
pub open spec fn moved_card(
    t: TaskRow<Seq<char>>,
    status: Seq<char>,
    position: i64,
    now: Seq<char>,
) -> TaskRow<Seq<char>> {
    TaskRow {
        status,
        position,
        started_at: if (status == "doing"@ || status == "done"@) && t.started_at is None {
            Some(now)
        } else {
            t.started_at
        },
        resolved_at: if status == "done"@ || status == "dropped"@ {
            if t.resolved_at is None {
                Some(now)
            } else {
                t.resolved_at
            }
        } else {
            None
        },
        ..t
    }
}

/// The cards after the first `n` of a column were put in place.
pub open spec fn column_moved(
    s: Seq<TaskRow<Seq<char>>>,
    status: Seq<char>,
    ids: Seq<i64>,
    now: Seq<char>,
) -> Seq<TaskRow<Seq<char>>>
    decreases ids.len(),
{
    if ids.len() == 0 {
        s
    } else {
        let t = column_moved(s, status, ids.drop_last(), now);
        match row_at::<TaskRow>(t, ids.last()) {
            Some(row) => put::<TaskRow>(
                t,
                ids.last(),
                moved_card(row, status, ids.len() as i64, now),
            ),
            None => t,
        }
    }
}

/// The cards after the whole board was put in place.
pub open spec fn board_moved(
    s: Seq<TaskRow<Seq<char>>>,
    arr: Arrangement,
    now: Seq<char>,
) -> Seq<TaskRow<Seq<char>>> {
    let a = column_moved(s, "planned"@, arr.todo@, now);
    let b = column_moved(a, "doing"@, arr.doing@, now);
    let c = column_moved(b, "done"@, arr.done@, now);
    column_moved(c, "dropped"@, arr.dropped@, now)
}

/// A card is on a session's board.
pub open spec fn on_board(v: Tables, session_id: i64, id: i64) -> bool {
    match row_at::<TaskRow>(v.tasks, id) {
        Some(t) => t.session_id == Some(session_id),
        None => false,
    }
}

/// The first card of a column that is not on the board.
pub open spec fn stray(v: Tables, session_id: i64, ids: Seq<i64>) -> Option<i64>
    decreases ids.len(),
{
    if ids.len() == 0 {
        None
    } else if !on_board(v, session_id, ids[0]) {
        Some(ids[0])
    } else {
        stray(v, session_id, ids.drop_first())
    }
}

/// The first card of an arrangement that is not on the board.
pub open spec fn first_stray(v: Tables, session_id: i64, arr: Arrangement) -> Option<i64> {
    match stray(v, session_id, arr.todo@) {
        Some(id) => Some(id),
        None => match stray(v, session_id, arr.doing@) {
            Some(id) => Some(id),
            None => match stray(v, session_id, arr.done@) {
                Some(id) => Some(id),
                None => stray(v, session_id, arr.dropped@),
            },
        },
    }
}

fn find_stray(store: &Store, session_id: i64, ids: &Vec<i64>) -> (r: Option<i64>)
    requires
        store@.wf(),
    ensures
        r == stray(store@, session_id, ids@),
{
    let mut i: usize = 0;
    proof {
        assert(ids@.skip(0) =~= ids@);
    }
    while i < ids.len()
        invariant
            i <= ids.len(),
            store@.wf(),
            stray(store@, session_id, ids@) == stray(store@, session_id, ids@.skip(i as int)),
        decreases ids.len() - i,
    {
        proof {
            assert(ids@.skip(i as int)[0] == ids@[i as int]);
            assert(ids@.skip(i as int).drop_first() =~= ids@.skip(i + 1));
        }
        let ok = match table::find(&store.tasks, ids[i]) {
            Some(k) => table::same_home(store.tasks[k].session_id, Some(session_id)),
            None => false,
        };
        if !ok {
            return Some(ids[i]);
        }
        i = i + 1;
    }
    None
}

fn move_column(store: &mut Store, status: &str, ids: &Vec<i64>, now: &str)
    requires
        old(store)@.wf(),
        ids.len() < i64::MAX,
    ensures
        final(store)@.wf(),
        final(store)@ == (Tables {
            tasks: column_moved(old(store)@.tasks, status@, ids@, now@),
            ..old(store)@
        }),
{
    let going = text::same(status, "doing") || text::same(status, "done");
    let settled = text::same(status, "done") || text::same(status, "dropped");
    let mut i: usize = 0;
    proof {
        assert(ids@.take(0) =~= seq![]);
    }
    while i < ids.len()
        invariant
            i <= ids.len() < i64::MAX,
            store@.wf(),
            going == (status@ == "doing"@ || status@ == "done"@),
            settled == (status@ == "done"@ || status@ == "dropped"@),
            store@ == (Tables {
                tasks: column_moved(old(store)@.tasks, status@, ids@.take(i as int), now@),
                ..old(store)@
            }),
        decreases ids.len() - i,
    {
        proof {
            assert(ids@.take(i + 1).drop_last() =~= ids@.take(i as int));
            assert(ids@.take(i + 1).last() == ids@[i as int]);
        }
        match table::find(&store.tasks, ids[i]) {
            Some(k) => {
                let mut row = copy_task(&store.tasks[k]);
                row.status = text::owned(status);
                row.position = (i + 1) as i64;
                if going && row.started_at.is_none() {
                    row.started_at = Some(text::owned(now));
                }
                if settled {
                    if row.resolved_at.is_none() {
                        row.resolved_at = Some(text::owned(now));
                    }
                } else {
                    row.resolved_at = None;
                }
                table::set_row(&mut store.tasks, k, row);
            },
            None => {},
        }
        i = i + 1;
    }
    proof {
        assert(ids@.take(ids@.len() as int) =~= ids@);
    }
}

/// Writes the whole board at once, or nothing of it: a card that is not on the
/// board, or a session that was closed meanwhile, refuses it.
pub fn apply_board(store: &mut Store, session_id: i64, arr: &Arrangement, now: &str) -> (r: Result<
    (),
    AppError,
>)
    requires
        old(store)@.wf(),
        arr.todo.len() < i64::MAX,
        arr.doing.len() < i64::MAX,
        arr.done.len() < i64::MAX,
        arr.dropped.len() < i64::MAX,
    ensures
        final(store)@.wf(),
        match r {
            Ok(_) => {
                &&& open_in(old(store)@, session_id)
                &&& first_stray(old(store)@, session_id, *arr) is None
                &&& final(store)@ == (Tables {
                    tasks: board_moved(old(store)@.tasks, *arr, now@),
                    ..old(store)@
                })
            },
            Err(e) => {
                &&& final(store)@ == old(store)@
                &&& if !open_in(old(store)@, session_id) {
                    e@ == Failure::SessionClosed(session_id)
                } else {
                    &&& first_stray(old(store)@, session_id, *arr) is Some
                    &&& e@ == Failure::Other(
                        "task "@ + text::decimal(
                            first_stray(old(store)@, session_id, *arr)->0 as int,
                        ) + " is not on this board"@,
                    )
                }
            },
        },
{
    match ensure_open(store, session_id) {
        Ok(_) => {},
        Err(e) => return Err(e),
    }
    let found = match find_stray(store, session_id, &arr.todo) {
        Some(id) => Some(id),
        None => match find_stray(store, session_id, &arr.doing) {
            Some(id) => Some(id),
            None => match find_stray(store, session_id, &arr.done) {
                Some(id) => Some(id),
                None => find_stray(store, session_id, &arr.dropped),
            },
        },
    };
    if let Some(id) = found {
        return Err(
            AppError::Other(
                text::cat3("task ", text::of_i64(id).as_str(), " is not on this board"),
            ),
        );
    }
    move_column(store, "planned", &arr.todo, now);
    move_column(store, "doing", &arr.doing, now);
    move_column(store, "done", &arr.done, now);
    move_column(store, "dropped", &arr.dropped, now);
    Ok(())
}

// -------------------------------------------------------------- adding a card

/// A new card.
pub open spec fn new_card(
    v: Tables,
    session_id: Option<i64>,
    title: Seq<char>,
    source: Seq<char>,
    now: Seq<char>,
) -> TaskRow<Seq<char>> {
    TaskRow {
        id: fresh::<TaskRow>(v.tasks) as i64,
        session_id,
        title,
        position: after_top::<TaskRow>(v.tasks, session_id, 1) as i64,
        status: "planned"@,
        notes: ""@,
        due_date: None,
        carried_from: None,
        started_at: None,
        resolved_at: None,
        source,
        created_at: now,
    }
}

/// There is an id and a position left for one more card.
pub open spec fn card_room(v: Tables, session_id: Option<i64>) -> bool {
    fresh::<TaskRow>(v.tasks) <= i64::MAX && after_top::<TaskRow>(v.tasks, session_id, 1)
        <= i64::MAX
}

/// The store with one more card, after the last one where it lands.
pub open spec fn with_card(
    v: Tables,
    session_id: Option<i64>,
    title: Seq<char>,
    source: Seq<char>,
    now: Seq<char>,
) -> Tables {
    Tables { tasks: v.tasks.push(new_card(v, session_id, title, source, now)), ..v }
}

/// Numbered after the last card where it lands.
pub fn insert_task(
    store: &mut Store,
    session_id: Option<i64>,
    title: &str,
    source: &str,
    now: &str,
) -> (r: Result<i64, AppError>)
    requires
        old(store)@.wf(),
    ensures
        final(store)@.wf(),
        match r {
            Ok(id) => card_room(old(store)@, session_id) && id == fresh::<TaskRow>(
                old(store)@.tasks,
            ) && final(store)@ == with_card(old(store)@, session_id, title@, source@, now@),
            Err(e) => !card_room(old(store)@, session_id) && final(store)@ == old(store)@ && e@
                == full(),
        },
{
    let position = match table::next_position(&store.tasks, session_id, 1) {
        Some(p) => p,
        None => return Err(no_room()),
    };
    let id = match table::next_id(&store.tasks) {
        Some(id) => id,
        None => return Err(no_room()),
    };
    let row = TaskRow {
        id,
        session_id,
        title: text::owned(title),
        position,
        status: text::owned("planned"),
        notes: text::owned(""),
        due_date: None,
        carried_from: None,
        started_at: None,
        resolved_at: None,
        source: text::owned(source),
        created_at: text::owned(now),
    };
    table::add_row(&mut store.tasks, row);
    Ok(id)
}

/// A session that is closed takes no card; the backlog always does.
pub open spec fn closed_to(v: Tables, session_id: Option<i64>) -> bool {
    session_id is Some && !open_in(v, session_id->0)
}

pub fn add_task(store: &mut Store, session_id: Option<i64>, title: &str, now: &str) -> (r: Result<
    i64,
    AppError,
>)
    requires
        old(store)@.wf(),
    ensures
        final(store)@.wf(),
        match r {
            Ok(id) => !closed_to(old(store)@, session_id) && card_room(old(store)@, session_id)
                && id == fresh::<TaskRow>(old(store)@.tasks) && final(store)@ == with_card(
                old(store)@,
                session_id,
                title@,
                "mid-session"@,
                now@,
            ),
            Err(e) => final(store)@ == old(store)@ && (if closed_to(old(store)@, session_id) {
                e@ == Failure::SessionClosed(session_id->0)
            } else {
                !card_room(old(store)@, session_id) && e@ == full()
            }),
        },
{
    if let Some(sid) = session_id {
        match ensure_open(store, sid) {
            Ok(_) => {},
            Err(e) => return Err(e),
        }
    }
    insert_task(store, session_id, title, "mid-session", now)
}

// ------------------------------------------------------------- editing a card

/// The labels given to a card, one after the other; blank names are nothing.
pub open spec fn tagged(v: Tables, id: i64, names: Seq<Seq<char>>) -> Tables
    decreases names.len(),
{
    if names.len() == 0 {
        v
    } else {
        let w = tagged(v, id, names.drop_last());
        let name = text::trimmed(names.last());
        if name.len() == 0 {
            w
        } else {
            let l = label_id(w, name);
            let u = with_label(w, name);
            if worn(u, id, l) {
                u
            } else {
                Tables { task_labels: u.task_labels.push((id, l)), ..u }
            }
        }
    }
}

/// A card with the text it holds, wearing exactly the labels given.
pub open spec fn detailed(
    v: Tables,
    id: i64,
    title: Seq<char>,
    notes: Seq<char>,
    due_date: Option<Seq<char>>,
    names: Seq<Seq<char>>,
) -> Tables {
    let row = row_at::<TaskRow>(v.tasks, id)->0;
    let bare = Tables {
        tasks: put::<TaskRow>(v.tasks, id, TaskRow { title, notes, due_date, ..row }),
        task_labels: v.task_labels.filter(not_task(id)),
        ..v
    };
    tagged(bare, id, names)
}

fn tag(store: &mut Store, id: i64, names: &Vec<String>)
    requires
        old(store)@.wf(),
        label_room(old(store)@, text::views(names@)),
    ensures
        final(store)@.wf(),
        final(store)@ == tagged(old(store)@, id, text::views(names@)),
{
    let ghost all = text::views(names@);
    let mut i: usize = 0;
    proof {
        assert(all.take(0) =~= seq![]);
    }
    while i < names.len()
        invariant
            i <= names.len(),
            all == text::views(names@),
            label_room(old(store)@, all),
            store@.wf(),
            store@ == tagged(old(store)@, id, all.take(i as int)),
        decreases names.len() - i,
    {
        proof {
            assert(all.take(i + 1).drop_last() =~= all.take(i as int));
            assert(all.take(i + 1).last() == names@[i as int]@);
        }
        let name = text::trim(names[i].as_str());
        if !name.as_str().is_empty() {
            proof {
                lemma_room_for_fewer(old(store)@, all, i + 1);
                lemma_next_name_fits(old(store)@, id, all.take(i + 1));
            }
            let l = ensure_label(store, name.as_str());
            if !wears(store, id, l) {
                store.task_labels.push((id, l));
            }
        }
        i = i + 1;
    }
    proof {
        assert(all.take(all.len() as int) =~= all);
    }
}

/// The refusal of a due date.
pub open spec fn bad_due(s: Seq<char>) -> Failure {
    Failure::Other("due date must be YYYY-MM-DD, not "@ + text::quoted(s))
}

pub open spec fn due_refused(due_date: Option<Seq<char>>) -> bool {
    due_date is Some && !time::due_ok(due_date->0)
}

pub open spec fn str_view(s: Option<&str>) -> Option<Seq<char>> {
    match s {
        Some(x) => Some(x@),
        None => None,
    }
}

/// Canonical form only: a fixed-width day is what makes string order date
/// order.
pub fn check_due(due_date: Option<&str>) -> (r: Result<(), AppError>)
    ensures
        match r {
            Ok(_) => !due_refused(str_view(due_date)),
            Err(e) => due_refused(str_view(due_date)) && e@ == bad_due(str_view(due_date)->0),
        },
{
    if let Some(d) = due_date {
        if !time::check_day(d) {
            return Err(
                AppError::Other(
                    text::cat2("due date must be YYYY-MM-DD, not ", text::quote(d).as_str()),
                ),
            );
        }
    }
    Ok(())
}

/// Everything but position and status, for a card that exists. No label is
/// deleted: one its last card lets go of stays, as a preset.
fn write_details(
    store: &mut Store,
    id: i64,
    title: &str,
    notes: &str,
    due_date: Option<&str>,
    labels: &Vec<String>,
) -> (r: Result<(), AppError>)
    requires
        old(store)@.wf(),
    ensures
        final(store)@.wf(),
        match r {
            Ok(_) => row_at::<TaskRow>(old(store)@.tasks, id) is Some && label_room(
                old(store)@,
                text::views(labels@),
            ) && final(store)@ == detailed(
                old(store)@,
                id,
                title@,
                notes@,
                str_view(due_date),
                text::views(labels@),
            ),
            Err(e) => final(store)@ == old(store)@ && (if row_at::<TaskRow>(
                old(store)@.tasks,
                id,
            ) is None {
                e@ == Failure::Other("no task "@ + text::decimal(id as int))
            } else {
                !label_room(old(store)@, text::views(labels@)) && e@ == full()
            }),
        },
{
    let i = match table::find(&store.tasks, id) {
        Some(i) => i,
        None => return Err(
            AppError::Other(text::cat2("no task ", text::of_i64(id).as_str())),
        ),
    };
    if !has_label_room(store, labels) {
        return Err(no_room());
    }
    let mut row = copy_task(&store.tasks[i]);
    row.title = text::owned(title);
    row.notes = text::owned(notes);
    row.due_date = match due_date {
        Some(d) => Some(text::owned(d)),
        None => None,
    };
    table::set_row(&mut store.tasks, i, row);
    strip_task(&mut store.task_labels, id);
    tag(store, id, labels);
    Ok(())
}

/// What comes of editing a card: the end state, not a difference, so an editor
/// that is out of date cannot half-apply, and no due date clears it.
pub open spec fn updated(
    v: Tables,
    id: i64,
    title: Seq<char>,
    notes: Seq<char>,
    due_date: Option<Seq<char>>,
    names: Seq<Seq<char>>,
) -> Result<Tables, Failure> {
    if due_refused(due_date) {
        Err(bad_due(due_date->0))
    } else if row_at::<TaskRow>(v.tasks, id) is None {
        Err(Failure::Other("no task "@ + text::decimal(id as int)))
    } else if !label_room(v, names) {
        Err(full())
    } else {
        Ok(detailed(v, id, title, notes, due_date, names))
    }
}

/// Writes the whole card at once, or nothing of it.
pub fn update_task(
    store: &mut Store,
    id: i64,
    title: &str,
    notes: &str,
    due_date: Option<&str>,
    labels: &Vec<String>,
) -> (r: Result<(), AppError>)
    requires
        old(store)@.wf(),
    ensures
        final(store)@.wf(),
        match r {
            Ok(_) => updated(
                old(store)@,
                id,
                title@,
                notes@,
                str_view(due_date),
                text::views(labels@),
            ) == Ok::<Tables, Failure>(final(store)@),
            Err(e) => final(store)@ == old(store)@ && updated(
                old(store)@,
                id,
                title@,
                notes@,
                str_view(due_date),
                text::views(labels@),
            ) == Err::<Tables, Failure>(e@),
        },
{
    match check_due(due_date) {
        Ok(_) => {},
        Err(e) => return Err(e),
    }
    write_details(store, id, title, notes, due_date, labels)
}

/// What comes of making a card with everything the editor holds.
pub open spec fn created(
    v: Tables,
    session_id: Option<i64>,
    title: Seq<char>,
    notes: Seq<char>,
    due_date: Option<Seq<char>>,
    names: Seq<Seq<char>>,
    now: Seq<char>,
) -> Result<Tables, Failure> {
    if due_refused(due_date) {
        Err(bad_due(due_date->0))
    } else if closed_to(v, session_id) {
        Err(Failure::SessionClosed(session_id->0))
    } else if !card_room(v, session_id) || !label_room(v, names) {
        Err(full())
    } else {
        Ok(
            detailed(
                with_card(v, session_id, title, "mid-session"@, now),
                fresh::<TaskRow>(v.tasks) as i64,
                title,
                notes,
                due_date,
                names,
            ),
        )
    }
}

/// A new card with everything the editor holds: the card and its details land
/// together or not at all.
pub fn create_task(
    store: &mut Store,
    session_id: Option<i64>,
    title: &str,
    notes: &str,
    due_date: Option<&str>,
    labels: &Vec<String>,
    now: &str,
) -> (r: Result<i64, AppError>)
    requires
        old(store)@.wf(),
    ensures
        final(store)@.wf(),
        match r {
            Ok(id) => id == fresh::<TaskRow>(old(store)@.tasks) && created(
                old(store)@,
                session_id,
                title@,
                notes@,
                str_view(due_date),
                text::views(labels@),
                now@,
            ) == Ok::<Tables, Failure>(final(store)@),
            Err(e) => final(store)@ == old(store)@ && created(
                old(store)@,
                session_id,
                title@,
                notes@,
                str_view(due_date),
                text::views(labels@),
                now@,
            ) == Err::<Tables, Failure>(e@),
        },
{
    match check_due(due_date) {
        Ok(_) => {},
        Err(e) => return Err(e),
    }
    if let Some(sid) = session_id {
        match ensure_open(store, sid) {
            Ok(_) => {},
            Err(e) => return Err(e),
        }
    }
    if !has_label_room(store, labels) {
        return Err(no_room());
    }
    let id = match insert_task(store, session_id, title, "mid-session", now) {
        Ok(id) => id,
        Err(e) => return Err(e),
    };
    proof {
        table::lemma_push_reads::<TaskRow>(
            old(store)@.tasks,
            new_card(old(store)@, session_id, title@, "mid-session"@, now@),
            id,
        );
    }
    match write_details(store, id, title, notes, due_date, labels) {
        Ok(_) => Ok(id),
        Err(e) => {
            proof {
                assert(false);
            }
            Err(e)
        },
    }
}

// ---------------------------------------------------------------- the backlog

/// A card is in the backlog.
pub open spec fn in_backlog(v: Tables, id: i64) -> bool {
    match row_at::<TaskRow>(v.tasks, id) {
        Some(t) => t.session_id is None,
        None => false,
    }
}

/// Deletion is for the backlog only: a session's cards are history and are
/// dropped, never deleted.
pub fn delete_backlog_task(store: &mut Store, id: i64) -> (r: Result<(), AppError>)
    requires
        old(store)@.wf(),
    ensures
        final(store)@.wf(),
        match r {
            Ok(_) => in_backlog(old(store)@, id) && final(store)@ == (Tables {
                tasks: without::<TaskRow>(old(store)@.tasks, id),
                task_labels: old(store)@.task_labels.filter(not_task(id)),
                ..old(store)@
            }),
            Err(e) => !in_backlog(old(store)@, id) && final(store)@ == old(store)@ && e@
                == Failure::Other("only backlog items can be deleted"@),
        },
{
    match table::find(&store.tasks, id) {
        Some(i) => if store.tasks[i].session_id.is_none() {
            table::remove_row(&mut store.tasks, i);
            strip_task(&mut store.task_labels, id);
            Ok(())
        } else {
            Err(other("only backlog items can be deleted"))
        },
        None => Err(other("only backlog items can be deleted")),
    }
}

/// The store after a card was taken from the backlog into a session, behind
/// the last card there.
pub open spec fn pulled(v: Tables, session_id: i64, id: i64) -> Tables {
    let row = row_at::<TaskRow>(v.tasks, id)->0;
    Tables {
        tasks: put::<TaskRow>(
            v.tasks,
            id,
            TaskRow {
                session_id: Some(session_id),
                position: after_top::<TaskRow>(v.tasks, Some(session_id), 1) as i64,
                source: "mid-session"@,
                ..row
            },
        ),
        ..v
    }
}

/// Backlog to session. Another session's card is never moved.
pub fn pull_task(store: &mut Store, session_id: i64, id: i64) -> (r: Result<(), AppError>)
    requires
        old(store)@.wf(),
    ensures
        final(store)@.wf(),
        match r {
            Ok(_) => open_in(old(store)@, session_id) && after_top::<TaskRow>(
                old(store)@.tasks,
                Some(session_id),
                1,
            ) <= i64::MAX && in_backlog(old(store)@, id) && final(store)@ == pulled(
                old(store)@,
                session_id,
                id,
            ),
            Err(e) => final(store)@ == old(store)@ && (if !open_in(old(store)@, session_id) {
                e@ == Failure::SessionClosed(session_id)
            } else if after_top::<TaskRow>(old(store)@.tasks, Some(session_id), 1) > i64::MAX {
                e@ == full()
            } else {
                !in_backlog(old(store)@, id) && e@ == Failure::Other("not a backlog item"@)
            }),
        },
{
    match ensure_open(store, session_id) {
        Ok(_) => {},
        Err(e) => return Err(e),
    }
    let position = match table::next_position(&store.tasks, Some(session_id), 1) {
        Some(p) => p,
        None => return Err(no_room()),
    };
    match table::find(&store.tasks, id) {
        Some(i) => if store.tasks[i].session_id.is_none() {
            let mut row = copy_task(&store.tasks[i]);
            row.session_id = Some(session_id);
            row.position = position;
            row.source = text::owned("mid-session");
            table::set_row(&mut store.tasks, i, row);
            Ok(())
        } else {
            Err(other("not a backlog item"))
        },
        None => Err(other("not a backlog item")),
    }
}

} // verus!
