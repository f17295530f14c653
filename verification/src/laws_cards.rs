//! What is promised of a card: how it is made, moved and read, what it wears,
//! and what is attached to a meeting.

use vstd::prelude::*;

use crate::attach::kind_name;
use crate::attach::Kind;
use crate::attach::Staged;
use crate::board::by_name;
use crate::board::card;
use crate::board::card_labels;
use crate::board::card_room;
use crate::board::carries;
use crate::board::chosen;
use crate::board::closed_to;
use crate::board::color_of;
use crate::board::created;
use crate::board::detailed;
use crate::board::due_refused;
use crate::board::first_stray;
use crate::board::in_backlog;
use crate::board::is_label;
use crate::board::label_id;
use crate::board::label_list;
use crate::board::label_named;
use crate::board::label_room;
use crate::board::name_slot;
use crate::board::new_card;
use crate::board::new_names;
use crate::board::pulled;
use crate::board::stray;
use crate::board::updated;
use crate::board::with_card;
use crate::board::with_label;
use crate::board::without_label;
use crate::board::worn;
use crate::commands::attempted;
use crate::commands::attempted_all;
use crate::commands::between;
use crate::commands::fate_of;
use crate::commands::full_card;
use crate::commands::given;
use crate::commands::home;
use crate::commands::lines_of;
use crate::commands::placed;
use crate::commands::quick_card;
use crate::commands::rejected_line;
use crate::commands::staged_refusal;
use crate::commands::staged_row;
use crate::commands::with_staged;
use crate::commands::Attempt;
use crate::commands::Fate;
use crate::db::full;
use crate::db::open_in;
use crate::error::Failure;
use crate::meetings::attached;
use crate::meetings::file_refusal;
use crate::models::Arrangement;
use crate::rows::LabelRow;
use crate::rows::StoredFile;
use crate::rows::Tables;
use crate::rows::TaskRow;
use crate::sort::Ranked;
use crate::table;
use crate::table::after_top;
use crate::table::ascending;
use crate::table::fresh;
use crate::table::row_at;
use crate::table::text_order;
use crate::table::TextSlot;
use crate::text;
use crate::text::folded;
use crate::text::opt_view;
use crate::time::due_ok;

verus! {

broadcast use vstd::seq_lib::group_seq_properties;

// ------------------------------------------------------------------- the labels

/// The colours are given in turn.
pub proof fn colours_are_given_in_turn(n: int)
    requires
        n >= 0,
    ensures
        color_of(n) == seq![
            "#7aa2f7"@,
            "#9ece6a"@,
            "#e0af68"@,
            "#f7768e"@,
            "#bb9af7"@,
            "#2ac3de"@,
            "#ff9e64"@,
            "#41a6b5"@,
        ][n % 8],
{
}

/// The label of a name is the first one that has it, capitals aside.
pub proof fn a_label_is_found_by_its_name(
    s: Seq<LabelRow<Seq<char>>>,
    name: Seq<char>,
    k: int,
)
    requires
        0 <= k <= s.len(),
        forall|i: int| 0 <= i < k ==> folded((#[trigger] s[i]).name) != folded(name),
    ensures
        k == s.len() ==> label_named(s, name) is None,
        k < s.len() && folded(s[k].name) == folded(name) ==> label_named(s, name) == Some(s[k]),
    decreases k,
{
    if k > 0 {
        let rest = s.drop_first();
        assert(folded(s[0].name) != folded(name));
        assert forall|i: int| 0 <= i < k - 1 implies folded((#[trigger] rest[i]).name) != folded(
            name,
        ) by {
            assert(rest[i] == s[i + 1]);
        }
        a_label_is_found_by_its_name(rest, name, k - 1);
    }
}

/// A label that is asked for is there: the one that has the name, or a new one
/// under that name, in the colour whose turn it is. No other changes.
pub proof fn a_label_asked_for_is_there(v: Tables, name: Seq<char>)
    requires
        fresh::<LabelRow>(v.labels) <= i64::MAX,
    ensures
        label_named(v.labels, name) is Some ==> with_label(v, name) == v && label_id(v, name)
            == label_named(v.labels, name)->0.id,
        label_named(v.labels, name) is None ==> ({
            let u = with_label(v, name);
            &&& u == (Tables { labels: u.labels, ..v })
            &&& u.labels.len() == v.labels.len() + 1
            &&& u.labels.drop_last() == v.labels
            &&& u.labels.last().name == name
            &&& u.labels.last().color == color_of(v.labels.len() as int)
            &&& u.labels.last().id == label_id(v, name)
        }),
{
    if label_named(v.labels, name) is None {
        assert(with_label(v, name).labels.drop_last() =~= v.labels);
    }
}

/// A label in a list of rows.
pub open spec fn in_list(s: Seq<LabelRow<Seq<char>>>, l: LabelRow<Seq<char>>) -> bool {
    exists|k: int| 0 <= k < s.len() && #[trigger] s[k] == l
}

/// Labels are listed by name, capitals aside: all of them, or all that a card
/// wears, each of them once.
pub proof fn labels_are_listed_by_name(v: Tables, task: Option<i64>)
    requires
        ascending::<LabelRow>(v.labels),
    ensures
        forall|i: int, j: int|
            0 <= i < j < by_name(v, task).len() ==> {
                let (a, b) = (#[trigger] by_name(v, task)[i], #[trigger] by_name(v, task)[j]);
                text::before(folded(a.name), folded(b.name)) || (folded(a.name) == folded(b.name)
                    && a.id < b.id)
            },
        forall|k: int|
            0 <= k < by_name(v, task).len() ==> in_list(v.labels, #[trigger] by_name(v, task)[k])
                && (task is None || v.task_labels.contains((task->0, by_name(v, task)[k].id))),
        forall|i: int|
            0 <= i < v.labels.len() && (task is None || v.task_labels.contains(
                (task->0, (#[trigger] v.labels[i]).id),
            )) ==> in_list(by_name(v, task), v.labels[i]),
{
    broadcast use vstd::seq_lib::group_to_multiset_ensures;

    let pick = chosen(v, task);
    let h = v.labels.filter(pick);
    let m = h.map_values(name_slot());
    let t = m.sort_by(text_order());
    let o = by_name(v, task);
    TextSlot::total();
    m.lemma_sort_by_ensures(text_order());
    assert(m.to_multiset() == t.to_multiset());
    assert(t.to_multiset().len() == m.to_multiset().len());
    table::lemma_filter_ascending::<LabelRow>(v.labels, pick);
    assert forall|k: int| 0 <= k < t.len() implies slotted(v, task, #[trigger] t[k]) by {
        assert(t.contains(t[k]));
        assert(t.to_multiset().count(t[k]) > 0);
        assert(m.contains(t[k]));
        let j = choose|j: int| 0 <= j < m.len() && m[j] == t[k];
        assert(h.contains(h[j]));
        lemma_kept(v.labels, pick, j);
        let i = choose|i: int| 0 <= i < v.labels.len() && v.labels[i] == h[j];
        assert(pick(v.labels[i]));
    }
    assert forall|k: int| 0 <= k < o.len() implies in_list(v.labels, #[trigger] o[k]) && t[k] == (
        folded(o[k].name),
        o[k].id,
    ) && pick(o[k]) by {
        assert(slotted(v, task, t[k]));
        let i = choose|i: int|
            0 <= i < v.labels.len() && pick(#[trigger] v.labels[i]) && t[k] == (
                folded(v.labels[i].name),
                v.labels[i].id,
            );
        table::lemma_row_at::<LabelRow>(v.labels, i);
        assert(o[k] == v.labels[i]);
    }
    assert(m.no_duplicates()) by {
        assert forall|i: int, j: int| 0 <= i < m.len() && 0 <= j < m.len() && i != j implies m[i]
            != m[j] by {
            if i < j {
                assert(h[i].id < h[j].id);
            } else {
                assert(h[j].id < h[i].id);
            }
        }
    }
    m.lemma_multiset_has_no_duplicates();
    t.lemma_multiset_has_no_duplicates_conv();
    assert forall|i: int, j: int| 0 <= i < j < o.len() implies {
        let (a, b) = (#[trigger] o[i], #[trigger] o[j]);
        text::before(folded(a.name), folded(b.name)) || (folded(a.name) == folded(b.name) && a.id
            < b.id)
    } by {
        assert(text_order()(t[i], t[j]));
        assert(t[i] != t[j]);
        text::lemma_before_total(t[i].0, t[j].0);
    }
    assert forall|i: int|
        0 <= i < v.labels.len() && (task is None || v.task_labels.contains(
            (task->0, (#[trigger] v.labels[i]).id),
        )) implies in_list(o, v.labels[i]) by {
        assert(pick(v.labels[i]));
        v.labels.lemma_filter_contains(pick, i);
        let j = choose|j: int| 0 <= j < h.len() && h[j] == v.labels[i];
        assert(m[j] == (folded(v.labels[i].name), v.labels[i].id));
        assert(m.contains(m[j]));
        assert(m.to_multiset().count(m[j]) > 0);
        assert(t.contains(m[j]));
        let k = choose|k: int| 0 <= k < t.len() && t[k] == m[j];
        table::lemma_row_at::<LabelRow>(v.labels, i);
        assert(o[k] == v.labels[i]);
    }
}

spec fn slotted(v: Tables, task: Option<i64>, k: (Seq<char>, i64)) -> bool {
    exists|i: int|
        0 <= i < v.labels.len() && chosen(v, task)(#[trigger] v.labels[i]) && k == (
            folded(v.labels[i].name),
            v.labels[i].id,
        )
}

proof fn lemma_kept(s: Seq<LabelRow<Seq<char>>>, keep: spec_fn(LabelRow<Seq<char>>) -> bool, j: int)
    requires
        0 <= j < s.filter(keep).len(),
    ensures
        exists|i: int| 0 <= i < s.len() && s[i] == s.filter(keep)[j],
        keep(s.filter(keep)[j]),
    decreases s.len(),
{
    reveal(Seq::filter);
    if s.len() > 0 {
        let f = s.drop_last().filter(keep);
        if j < f.len() {
            lemma_kept(s.drop_last(), keep, j);
            let i = choose|i: int| 0 <= i < s.drop_last().len() && s.drop_last()[i] == f[j];
            assert(s[i] == f[j]);
        } else {
            assert(s[s.len() - 1] == s.filter(keep)[j]);
        }
    }
}

/// A label is shown under its name, in its colour, and with the number of
/// cards that wear it.
pub proof fn a_label_is_shown_with_its_uses(v: Tables, task: i64, k: int)
    requires
        v.task_labels.len() <= i64::MAX,
    ensures
        label_list(v).len() == by_name(v, None).len(),
        0 <= k < label_list(v).len() ==> ({
            let (x, l) = (label_list(v)[k], by_name(v, None)[k]);
            &&& x.name == l.name
            &&& x.color == l.color
            &&& x.uses == v.task_labels.filter(|p: (i64, i64)| p.1 == l.id).len()
        }),
        card_labels(v, task).len() == by_name(v, Some(task)).len(),
        0 <= k < card_labels(v, task).len() ==> card_labels(v, task)[k].name == by_name(
            v,
            Some(task),
        )[k].name && card_labels(v, task)[k].color == by_name(v, Some(task))[k].color,
{
    if 0 <= k < label_list(v).len() {
        let l = by_name(v, None)[k];
        let p = |p: (i64, i64)| p.1 == l.id;
        assert(is_label(l.id) =~= p);
        lemma_pairs(v.task_labels, p);
    }
}

proof fn lemma_pairs(s: Seq<(i64, i64)>, keep: spec_fn((i64, i64)) -> bool)
    ensures
        s.filter(keep).len() <= s.len(),
    decreases s.len(),
{
    reveal(Seq::filter);
    if s.len() > 0 {
        lemma_pairs(s.drop_last(), keep);
    }
}

/// A deleted label is gone, and only it.
pub proof fn a_deleted_label_is_gone(v: Tables, id: i64, other: i64)
    requires
        v.wf(),
    ensures
        row_at::<LabelRow>(without_label(v, id).labels, other) == if other == id {
            None
        } else {
            row_at::<LabelRow>(v.labels, other)
        },
        without_label(v, id).tasks == v.tasks,
        without_label(v, id).sessions == v.sessions,
{
    let keep = table::not_key::<LabelRow>(id);
    table::lemma_filter_reads::<LabelRow>(v.labels, keep, other);
    if let Some(l) = row_at::<LabelRow>(v.labels, other) {
        let i = table::lemma_row_found::<LabelRow>(v.labels, other);
    }
}

/// Names that no label has count once each, whatever their case; blank ones
/// count for nothing.
pub proof fn new_names_count_once(
    labels: Seq<LabelRow<Seq<char>>>,
    names: Seq<Seq<char>>,
    name: Seq<char>,
)
    ensures
        new_names(labels, Seq::empty()) == Seq::<Seq<char>>::empty(),
        text::trimmed(name).len() == 0 ==> new_names(labels, names.push(name)) == new_names(
            labels,
            names,
        ),
        label_named(labels, text::trimmed(name)) is Some ==> new_names(labels, names.push(name))
            == new_names(labels, names),
        text::trimmed(name).len() > 0 && label_named(labels, text::trimmed(name)) is None && (
        forall|i: int|
            0 <= i < new_names(labels, names).len() ==> folded(
                #[trigger] new_names(labels, names)[i],
            ) != folded(text::trimmed(name))) ==> new_names(labels, names.push(name)) == new_names(
            labels,
            names,
        ).push(text::trimmed(name)),
{
    assert(names.push(name).drop_last() =~= names);
}

// -------------------------------------------------------------------- the cards

/// A card tells how often it was carried over: not at all where it was not,
/// and once more than the card it came from where it was.
pub proof fn carries_are_counted_along_the_chain(
    v: Tables,
    t: TaskRow<Seq<char>>,
    s: Seq<TaskRow<Seq<char>>>,
    id: i64,
    fuel: nat,
)
    ensures
        v.tasks.len() <= i64::MAX ==> card(v, t).carry_count == carries(
            v.tasks,
            t.id,
            v.tasks.len(),
        ),
        row_at::<TaskRow>(s, id) is None ==> carries(s, id, fuel) == 0,
        row_at::<TaskRow>(s, id) matches Some(r) ==> (match r.carried_from {
            None => carries(s, id, fuel + 1) == 0,
            Some(from) => carries(s, id, fuel + 1) == 1 + carries(s, from, fuel),
        }),
        card(v, t).labels == card_labels(v, t.id),
{
    lemma_carries(v.tasks, t.id, v.tasks.len());
}

proof fn lemma_carries(s: Seq<TaskRow<Seq<char>>>, id: i64, fuel: nat)
    ensures
        carries(s, id, fuel) <= fuel,
    decreases fuel,
{
    if let Some(t) = row_at::<TaskRow>(s, id) {
        if t.carried_from is Some && fuel > 0 {
            lemma_carries(s, t.carried_from->0, (fuel - 1) as nat);
        }
    }
}

/// A new card is planned, in its home, with nothing but its title.
pub proof fn a_new_card_is_planned(
    v: Tables,
    session_id: Option<i64>,
    title: Seq<char>,
    source: Seq<char>,
    now: Seq<char>,
)
    requires
        card_room(v, session_id),
        after_top::<TaskRow>(v.tasks, session_id, 1) >= i64::MIN,
    ensures
        ({
            let t = new_card(v, session_id, title, source, now);
            let u = with_card(v, session_id, title, source, now);
            &&& t.session_id == session_id
            &&& t.title == title
            &&& t.status == "planned"@
            &&& t.notes.len() == 0
            &&& t.due_date is None
            &&& t.carried_from is None
            &&& t.started_at is None
            &&& t.resolved_at is None
            &&& t.source == source
            &&& t.created_at == now
            &&& forall|i: int|
                0 <= i < v.tasks.len() && (#[trigger] v.tasks[i]).session_id == session_id
                    ==> v.tasks[i].position < t.position
            &&& u == (Tables { tasks: v.tasks.push(t), ..v })
        }),
{
    reveal_strlit("");
    crate::laws::next_place_is_free::<TaskRow>(v.tasks, session_id, 1);
    let t = new_card(v, session_id, title, source, now);
    assert forall|i: int|
        0 <= i < v.tasks.len() && (#[trigger] v.tasks[i]).session_id
            == session_id implies v.tasks[i].position < t.position by {
        assert(<TaskRow as table::Placed>::home(v.tasks[i]) == session_id);
    }
}

/// An arrangement is refused for its first card that is not on the board of
/// the session; where every card is on it, it is not.
pub proof fn a_stray_card_refuses_the_board(v: Tables, session_id: i64, ids: Seq<i64>, k: int)
    requires
        0 <= k <= ids.len(),
        forall|i: int|
            0 <= i < k ==> (row_at::<TaskRow>(v.tasks, #[trigger] ids[i]) matches Some(t)
                && t.session_id == Some(session_id)),
    ensures
        k == ids.len() ==> stray(v, session_id, ids) is None,
        k < ids.len() && !(row_at::<TaskRow>(v.tasks, ids[k]) matches Some(t) && t.session_id
            == Some(session_id)) ==> stray(v, session_id, ids) == Some(ids[k]),
    decreases k,
{
    if k > 0 {
        let rest = ids.drop_first();
        assert(row_at::<TaskRow>(v.tasks, ids[0]) is Some);
        assert forall|i: int| 0 <= i < k - 1 implies (row_at::<TaskRow>(
            v.tasks,
            #[trigger] rest[i],
        ) matches Some(t) && t.session_id == Some(session_id)) by {
            assert(rest[i] == ids[i + 1]);
        }
        a_stray_card_refuses_the_board(v, session_id, rest, k - 1);
    }
}

proof fn lemma_stray_concat(v: Tables, session_id: i64, a: Seq<i64>, b: Seq<i64>)
    ensures
        stray(v, session_id, a + b) == match stray(v, session_id, a) {
            Some(id) => Some(id),
            None => stray(v, session_id, b),
        },
    decreases a.len(),
{
    if a.len() == 0 {
        assert(a + b =~= b);
    } else {
        assert((a + b).drop_first() =~= a.drop_first() + b);
        lemma_stray_concat(v, session_id, a.drop_first(), b);
    }
}

/// The stray card that is told is the first of them, as the board is read from
/// the first column to the last.
pub proof fn the_first_stray_card_is_told(v: Tables, session_id: i64, arr: Arrangement)
    ensures
        first_stray(v, session_id, arr) == stray(
            v,
            session_id,
            arr.todo@ + arr.doing@ + arr.done@ + arr.dropped@,
        ),
{
    lemma_stray_concat(v, session_id, arr.todo@, arr.doing@);
    lemma_stray_concat(v, session_id, arr.todo@ + arr.doing@, arr.done@);
    lemma_stray_concat(v, session_id, arr.todo@ + arr.doing@ + arr.done@, arr.dropped@);
}

/// The columns are looked through in their order.
pub proof fn every_column_is_looked_through(v: Tables, session_id: i64, arr: Arrangement)
    ensures
        first_stray(v, session_id, arr) is None <==> stray(v, session_id, arr.todo@) is None
            && stray(v, session_id, arr.doing@) is None && stray(v, session_id, arr.done@) is None
            && stray(v, session_id, arr.dropped@) is None,
        stray(v, session_id, arr.todo@) is Some ==> first_stray(v, session_id, arr) == stray(
            v,
            session_id,
            arr.todo@,
        ),
{
}

/// A card can be changed where it is there, its due date is one, and there is
/// room for its labels; each refusal says what is wrong.
pub proof fn a_change_of_a_card_is_refused_in_words(
    v: Tables,
    id: i64,
    title: Seq<char>,
    notes: Seq<char>,
    due: Option<Seq<char>>,
    names: Seq<Seq<char>>,
)
    ensures
        ({
            let r = updated(v, id, title, notes, due, names);
            let bad = due is Some && !due_ok(due->0);
            let known = row_at::<TaskRow>(v.tasks, id) is Some;
            &&& bad ==> r == Err::<Tables, Failure>(
                Failure::Other("due date must be YYYY-MM-DD, not "@ + text::quoted(due->0)),
            )
            &&& !bad && !known ==> r == Err::<Tables, Failure>(
                Failure::Other("no task "@ + text::decimal(id as int)),
            )
            &&& !bad && known && label_room(v, names) ==> r == Ok::<Tables, Failure>(
                detailed(v, id, title, notes, due, names),
            )
            &&& !bad && known && !label_room(v, names) ==> r == Err::<Tables, Failure>(
                Failure::Db("database or disk is full"@),
            )
            &&& due_refused(due) == bad
        }),
{
}

/// A card is made where its due date is one, its session is open or it goes to
/// the backlog, and there is room; it is then changed to hold what it was
/// given.
pub proof fn a_card_is_made_or_refused_in_words(
    v: Tables,
    session_id: Option<i64>,
    title: Seq<char>,
    notes: Seq<char>,
    due: Option<Seq<char>>,
    names: Seq<Seq<char>>,
    now: Seq<char>,
)
    ensures
        ({
            let r = created(v, session_id, title, notes, due, names, now);
            let bad = due is Some && !due_ok(due->0);
            let shut = session_id is Some && !open_in(v, session_id->0);
            &&& bad ==> r == Err::<Tables, Failure>(
                Failure::Other("due date must be YYYY-MM-DD, not "@ + text::quoted(due->0)),
            )
            &&& !bad && shut ==> r == Err::<Tables, Failure>(
                Failure::SessionClosed(session_id->0),
            )
            &&& !bad && !shut && card_room(v, session_id) && label_room(v, names) ==> r == Ok::<
                Tables,
                Failure,
            >(
                detailed(
                    with_card(v, session_id, title, "mid-session"@, now),
                    fresh::<TaskRow>(v.tasks) as i64,
                    title,
                    notes,
                    due,
                    names,
                ),
            )
            &&& !bad && !shut && !(card_room(v, session_id) && label_room(v, names)) ==> r == Err::<
                Tables,
                Failure,
            >(full())
            &&& closed_to(v, session_id) == shut
        }),
{
}

/// A card that was made from the editor is in its home, planned, with all that
/// it was given.
pub proof fn a_card_from_the_editor_holds_what_it_was_given(
    v: Tables,
    session_id: Option<i64>,
    title: Seq<char>,
    notes: Seq<char>,
    due: Option<Seq<char>>,
    names: Seq<Seq<char>>,
    now: Seq<char>,
)
    requires
        v.wf(),
        crate::board::names_differ(v.labels),
        created(v, session_id, title, notes, due, names, now) is Ok,
    ensures
        ({
            let u = created(v, session_id, title, notes, due, names, now)->Ok_0;
            let t = row_at::<TaskRow>(u.tasks, fresh::<TaskRow>(v.tasks) as i64);
            &&& t is Some
            &&& t->0.title == title
            &&& t->0.notes == notes
            &&& t->0.due_date == due
            &&& t->0.status == "planned"@
        }),
{
    let w = with_card(v, session_id, title, "mid-session"@, now);
    let t = new_card(v, session_id, title, "mid-session"@, now);
    table::lemma_push_reads::<TaskRow>(v.tasks, t, t.id);
    crate::laws::a_card_wears_what_it_was_given(w, t.id, title, notes, due, names);
}

/// A card taken from the backlog is in the session, behind every card there,
/// and is otherwise what it was; no other card is touched.
pub proof fn a_card_is_pulled_behind_the_others(v: Tables, session_id: i64, id: i64, other: i64)
    requires
        v.wf(),
        row_at::<TaskRow>(v.tasks, id) is Some,
        i64::MIN <= after_top::<TaskRow>(v.tasks, Some(session_id), 1) <= i64::MAX,
    ensures
        ({
            let u = pulled(v, session_id, id);
            let (was, is) = (
                row_at::<TaskRow>(v.tasks, id)->0,
                row_at::<TaskRow>(u.tasks, id),
            );
            &&& u == (Tables { tasks: u.tasks, ..v })
            &&& is == Some(
                TaskRow {
                    session_id: Some(session_id),
                    source: "mid-session"@,
                    position: is->0.position,
                    ..was
                },
            )
            &&& forall|i: int|
                0 <= i < v.tasks.len() && (#[trigger] v.tasks[i]).session_id == Some(session_id)
                    ==> v.tasks[i].position < is->0.position
            &&& other != id ==> row_at::<TaskRow>(u.tasks, other) == row_at::<TaskRow>(
                v.tasks,
                other,
            )
        }),
{
    let row = row_at::<TaskRow>(v.tasks, id)->0;
    let k = table::lemma_row_found::<TaskRow>(v.tasks, id);
    let new = TaskRow {
        session_id: Some(session_id),
        position: after_top::<TaskRow>(v.tasks, Some(session_id), 1) as i64,
        source: "mid-session"@,
        ..row
    };
    table::lemma_put_reads::<TaskRow>(v.tasks, id, new, id);
    table::lemma_put_reads::<TaskRow>(v.tasks, id, new, other);
    crate::laws::next_place_is_free::<TaskRow>(v.tasks, Some(session_id), 1);
    assert forall|i: int|
        0 <= i < v.tasks.len() && (#[trigger] v.tasks[i]).session_id == Some(
            session_id,
        ) implies v.tasks[i].position < new.position by {
        assert(<TaskRow as table::Placed>::home(v.tasks[i]) == Some(session_id));
    }
}

/// A card is in the backlog where it is in no session.
pub proof fn the_backlog_is_outside_every_session(v: Tables, i: int)
    requires
        v.wf(),
        0 <= i < v.tasks.len(),
    ensures
        in_backlog(v, v.tasks[i].id) <==> v.tasks[i].session_id is None,
{
    table::lemma_row_at::<TaskRow>(v.tasks, i);
}

// ----------------------------------------------------------------- the commands

/// A card with a title alone goes into the session that is held, or into the
/// backlog where that was asked for, under its title without the whitespace
/// round it; each refusal says what is wrong.
pub proof fn a_quick_card_needs_a_title_and_a_home(
    v: Tables,
    session_id: i64,
    title: Seq<char>,
    now: Seq<char>,
)
    ensures
        text::trimmed(title).len() == 0 ==> quick_card(v, Some(session_id), title, false, now)
            == Err::<Tables, Failure>(Failure::Other("empty title"@)),
        text::trimmed(title).len() > 0 ==> quick_card(v, None, title, false, now) == Err::<
            Tables,
            Failure,
        >(Failure::Other("no open session"@)),
        text::trimmed(title).len() > 0 && !open_in(v, session_id) ==> quick_card(
            v,
            Some(session_id),
            title,
            false,
            now,
        ) == Err::<Tables, Failure>(Failure::SessionClosed(session_id)),
        text::trimmed(title).len() > 0 && open_in(v, session_id) && card_room(v, Some(session_id))
            ==> quick_card(v, Some(session_id), title, false, now) == Ok::<Tables, Failure>(
            with_card(v, Some(session_id), text::trimmed(title), "mid-session"@, now),
        ),
        text::trimmed(title).len() > 0 && card_room(v, None) ==> quick_card(
            v,
            Some(session_id),
            title,
            true,
            now,
        ) == Ok::<Tables, Failure>(with_card(v, None, text::trimmed(title), "mid-session"@, now)),
        home(Some(session_id), true) is None,
        home(Some(session_id), false) == Some(session_id),
{
}

/// A card from the editor is made of what was typed, without the whitespace
/// round it, in the session that is held or in the backlog.
pub proof fn a_full_card_is_what_was_typed(
    v: Tables,
    session_id: i64,
    title: Seq<char>,
    notes: Seq<char>,
    due: Option<Seq<char>>,
    labels: Seq<Seq<char>>,
    now: Seq<char>,
    d: Seq<char>,
)
    ensures
        text::trimmed(title).len() == 0 ==> full_card(
            v,
            Some(session_id),
            title,
            notes,
            due,
            labels,
            false,
            now,
        ) == Err::<Tables, Failure>(Failure::Other("empty title"@)),
        text::trimmed(title).len() > 0 ==> full_card(
            v,
            None,
            title,
            notes,
            due,
            labels,
            false,
            now,
        ) == Err::<Tables, Failure>(Failure::Other("no open session"@)),
        text::trimmed(title).len() > 0 ==> full_card(
            v,
            Some(session_id),
            title,
            notes,
            due,
            labels,
            false,
            now,
        ) == created(
            v,
            Some(session_id),
            text::trimmed(title),
            text::trimmed(notes),
            given(due),
            labels,
            now,
        ),
        text::trimmed(title).len() > 0 ==> full_card(
            v,
            Some(session_id),
            title,
            notes,
            due,
            labels,
            true,
            now,
        ) == created(
            v,
            None,
            text::trimmed(title),
            text::trimmed(notes),
            given(due),
            labels,
            now,
        ),
        given(None) is None,
        text::trimmed(d).len() == 0 ==> given(Some(d)) is None,
        text::trimmed(d).len() > 0 ==> given(Some(d)) == Some(text::trimmed(d)),
{
}

/// A number out of a range is brought to its nearer end; one in it stays.
pub proof fn a_number_is_brought_into_its_range(n: i64, low: i64, high: i64)
    requires
        low <= high,
    ensures
        low <= n <= high ==> between(n, low, high) == n,
        n < low ==> between(n, low, high) == low,
        n > high ==> between(n, low, high) == high,
{
}

// ---------------------------------------------------------------- the attachments

/// A staged file is stored as what it is, behind the meeting's other files.
pub proof fn a_staged_file_is_stored_as_what_it_is(
    v: Tables,
    id: i64,
    meeting_id: i64,
    f: Staged,
    now: Seq<char>,
)
    requires
        f.bytes <= i64::MAX,
        i64::MIN <= after_top::<StoredFile>(v.files, Some(meeting_id), 0) <= i64::MAX,
    ensures
        ({
            let r = staged_row(v, id, meeting_id, f, now);
            &&& r.id == id
            &&& r.meeting_id == meeting_id
            &&& r.name == f.name@
            &&& r.path == f.final_path@
            &&& r.bytes == f.bytes
            &&& r.extracted == opt_view(f.extracted)
            &&& r.added_at == now
            &&& match f.kind {
                Kind::Text => r.kind == "text"@,
                Kind::Pdf => r.kind == "pdf"@,
                Kind::Image => r.kind == "image"@,
                Kind::Office => r.kind == "office"@,
            }
            &&& forall|i: int|
                0 <= i < v.files.len() && (#[trigger] v.files[i]).meeting_id == meeting_id
                    ==> v.files[i].position < r.position
            &&& (forall|i: int|
                0 <= i < v.files.len() ==> (#[trigger] v.files[i]).meeting_id != meeting_id)
                ==> r.position == 0
            &&& kind_name(f.kind) == r.kind
            &&& with_staged(v, meeting_id, f, now) == (Tables {
                files: v.files.push(
                    staged_row(v, fresh::<StoredFile>(v.files) as i64, meeting_id, f, now),
                ),
                ..v
            })
        }),
{
    crate::laws::next_place_is_free::<StoredFile>(v.files, Some(meeting_id), 0);
    let r = staged_row(v, id, meeting_id, f, now);
    assert forall|i: int|
        0 <= i < v.files.len() && (#[trigger] v.files[i]).meeting_id
            == meeting_id implies v.files[i].position < r.position by {
        assert(<StoredFile as table::Placed>::home(v.files[i]) == Some(meeting_id));
    }
    crate::laws_rows::the_next_place_is_one_behind_the_last::<StoredFile>(
        v.files,
        Some(meeting_id),
        0,
    );
}

/// A meeting takes eight files, 50 MB and 200 000 characters of text.
pub proof fn what_a_meeting_takes(v: Tables, meeting_id: i64, f: Staged)
    ensures
        staged_refusal(v, meeting_id, f) == file_refusal(
            v,
            meeting_id,
            f.bytes as i64,
            opt_view(f.extracted),
            8,
            52_428_800,
            200_000,
        ),
{
}

/// A row whose copy could not be put in place goes; any other row stays.
pub proof fn a_row_without_its_copy_goes(v: Tables, meeting_id: i64, file_id: i64, other: i64)
    requires
        v.wf(),
        attached(v, meeting_id, file_id),
    ensures
        placed(v, meeting_id, file_id, true) == v,
        row_at::<StoredFile>(placed(v, meeting_id, file_id, false).files, file_id) is None,
        other != file_id ==> row_at::<StoredFile>(
            placed(v, meeting_id, file_id, false).files,
            other,
        ) == row_at::<StoredFile>(v.files, other),
{
    let keep = table::not_key::<StoredFile>(file_id);
    table::lemma_filter_reads::<StoredFile>(v.files, keep, file_id);
    table::lemma_filter_reads::<StoredFile>(v.files, keep, other);
    let i = table::lemma_row_found::<StoredFile>(v.files, file_id);
    if let Some(f) = row_at::<StoredFile>(v.files, other) {
        let j = table::lemma_row_found::<StoredFile>(v.files, other);
    }
}

/// What became of a picked file is told where it was not attached: its name,
/// and why.
pub proof fn a_refused_file_is_told_with_its_reason(
    name: Seq<char>,
    why: Seq<char>,
    f: Failure,
    n: Option<Seq<char>>,
)
    ensures
        rejected_line(Some(name), why) == name + ": "@ + why,
        rejected_line(None, why) == "that file"@ + ": "@ + why,
        lines_of(Fate::NoPath) == seq!["that file could not be read"@],
        lines_of(Fate::Refused(Some(name), why)) == seq![name + ": "@ + why],
        lines_of(Fate::Attached) == Seq::<Seq<char>>::empty(),
        fate_of(n, Some(f), None) == Fate::Refused(n, f.message()),
        fate_of(n, None, Some(why)) == Fate::Refused(n, why),
        fate_of(n, None, None) == Fate::Attached,
{
}

/// Picked files are taken one after the other: one without a path or that
/// could not be staged leaves the store as it was.
pub proof fn picks_are_taken_one_after_the_other(
    v: Tables,
    meeting_id: i64,
    a: Attempt,
    picks: Seq<Attempt>,
    why: Seq<char>,
    f: Staged,
)
    ensures
        a.staged is None ==> attempted(v, meeting_id, a) == (v, Fate::NoPath),
        a.staged == Some(Err::<Staged, Seq<char>>(why)) ==> attempted(v, meeting_id, a) == (
            v,
            Fate::Refused(a.name, why),
        ),
        a.staged == Some(Ok::<Staged, Seq<char>>(f)) && staged_refusal(v, meeting_id, f) is Some
            ==> attempted(v, meeting_id, a).0 == v && attempted(v, meeting_id, a).1
            == Fate::Refused(a.name, staged_refusal(v, meeting_id, f)->0.message()),
        a.staged == Some(Ok::<Staged, Seq<char>>(f)) && staged_refusal(v, meeting_id, f) is None
            && a.unplaced is None ==> attempted(v, meeting_id, a) == (
            with_staged(v, meeting_id, f, a.now),
            Fate::Attached,
        ),
        attempted_all(v, meeting_id, Seq::empty()) == (v, Seq::<Seq<char>>::empty()),
        attempted_all(v, meeting_id, picks.push(a)).0 == attempted(
            attempted_all(v, meeting_id, picks).0,
            meeting_id,
            a,
        ).0,
        attempted_all(v, meeting_id, picks.push(a)).1 == attempted_all(v, meeting_id, picks).1
            + lines_of(attempted(attempted_all(v, meeting_id, picks).0, meeting_id, a).1),
{
    assert(picks.push(a).drop_last() =~= picks);
}

/// What an error says.
pub proof fn what_an_error_says(s: Seq<char>, id: i64)
    ensures
        Failure::Db(s).message() == "store: "@ + s,
        Failure::AwUnavailable(s).message() == "ActivityWatch not reachable: "@ + s,
        Failure::BadTimestamp(s).message() == "bad timestamp: "@ + s,
        Failure::Other(s).message() == s,
        Failure::Refused(s).message() == "the model declined this request"@ + s,
        Failure::SessionClosed(id).message() == "session "@ + text::decimal(id as int)
            + " was closed at the "@ + "gate"@ + " — showing the current board"@,
        full() == Failure::Db("database or disk is full"@),
{
}

/// A label is worn by a card where the two are a pair.
pub proof fn a_label_is_worn_by_a_pair(v: Tables, task: i64, label: i64)
    ensures
        worn(v, task, label) <==> v.task_labels.contains((task, label)),
{
}

} // verus!
