//! What the board promises: a card stays where it was put.

use vstd::prelude::*;

use crate::board::board_moved;
use crate::board::card;
use crate::board::cards;
use crate::board::column_moved;
use crate::board::first_stray;
use crate::board::moved_card;
use crate::board::stray;
use crate::models::Arrangement;
use crate::rows::Tables;
use crate::rows::TaskRow;
use crate::table;
use crate::table::ascending;
use crate::table::in_order;
use crate::table::lemma_put_ascending;
use crate::table::lemma_put_reads;
use crate::table::row_at;

verus! {

broadcast use vstd::seq_lib::group_seq_properties;

/// The cards of a session, or of the backlog, are the rows that belong to it,
/// each of them once and with what it holds, the lower position first.
pub proof fn cards_are_read_by_position(v: Tables, home: Option<i64>)
    requires
        ascending::<TaskRow>(v.tasks),
    ensures
        forall|i: int, j: int|
            0 <= i < j < cards(v, home).len() ==> (#[trigger] cards(v, home)[i]).position < (
            #[trigger] cards(v, home)[j]).position || (cards(v, home)[i].position == cards(
                v,
                home,
            )[j].position && cards(v, home)[i].id < cards(v, home)[j].id),
        forall|k: int|
            0 <= k < cards(v, home).len() ==> stored(v.tasks, home, #[trigger] cards(v, home)[k]),
        forall|i: int|
            0 <= i < v.tasks.len() && (#[trigger] v.tasks[i]).session_id == home ==> found(
                v.tasks[i],
                cards(v, home),
            ),
{
    table::a_home_is_listed_by_position::<TaskRow>(v.tasks, home);
    let o = in_order::<TaskRow>(v.tasks, home);
    let c = cards(v, home);
    assert forall|k: int| 0 <= k < c.len() implies c[k] == card(v, o[k]) by {}
    assert forall|k: int| 0 <= k < c.len() implies stored(v.tasks, home, #[trigger] c[k]) by {
        assert(v.tasks.contains(o[k]));
        let i = choose|i: int| 0 <= i < v.tasks.len() && v.tasks[i] == o[k];
        assert(shows(v.tasks[i], c[k]));
    }
    assert forall|i: int| 0 <= i < v.tasks.len() && (#[trigger] v.tasks[i]).session_id
        == home implies found(v.tasks[i], c) by {
        assert(<TaskRow as table::Placed>::home(v.tasks[i]) == home);
        assert(o.contains(v.tasks[i]));
        let k = choose|k: int| 0 <= k < o.len() && o[k] == v.tasks[i];
        assert(shows(v.tasks[i], c[k]));
    }
    assert forall|i: int, j: int| 0 <= i < j < c.len() implies (#[trigger] c[i]).position < (
    #[trigger] c[j]).position || (c[i].position == c[j].position && c[i].id < c[j].id) by {
        assert(c[i] == card(v, o[i]) && c[j] == card(v, o[j]));
        assert(o[i].position < o[j].position || (o[i].position == o[j].position && o[i].id
            < o[j].id));
    }
}

/// A card shows a row.
pub open spec fn shows(
    t: TaskRow<Seq<char>>,
    c: crate::models::Task<Seq<char>, Seq<crate::models::Label<Seq<char>>>>,
) -> bool {
    &&& c.id == t.id
    &&& c.session_id == t.session_id
    &&& c.title == t.title
    &&& c.position == t.position
    &&& c.status == t.status
    &&& c.notes == t.notes
    &&& c.due_date == t.due_date
}

/// A card is one of the rows of a session, or of the backlog.
pub open spec fn stored(
    s: Seq<TaskRow<Seq<char>>>,
    home: Option<i64>,
    c: crate::models::Task<Seq<char>, Seq<crate::models::Label<Seq<char>>>>,
) -> bool {
    exists|i: int| 0 <= i < s.len() && (#[trigger] s[i]).session_id == home && shows(s[i], c)
}

/// A row is among the cards.
pub open spec fn found(
    t: TaskRow<Seq<char>>,
    c: Seq<crate::models::Task<Seq<char>, Seq<crate::models::Label<Seq<char>>>>>,
) -> bool {
    exists|k: int| 0 <= k < c.len() && shows(t, #[trigger] c[k])
}

/// A card was put into a column, at a place in it, and is what it was but for
/// its stamps.
pub open spec fn put_there(
    before: Option<TaskRow<Seq<char>>>,
    after: Option<TaskRow<Seq<char>>>,
    status: Seq<char>,
    place: int,
) -> bool {
    &&& before is Some
    &&& after is Some
    &&& after->0.status == status
    &&& after->0.position == place
    &&& after->0.id == before->0.id
    &&& after->0.session_id == before->0.session_id
    &&& after->0.title == before->0.title
    &&& after->0.notes == before->0.notes
    &&& after->0.due_date == before->0.due_date
    &&& after->0.carried_from == before->0.carried_from
    &&& after->0.source == before->0.source
    &&& after->0.created_at == before->0.created_at
}

/// A stamp stays where there is one, and is that of the change where there was
/// none.
pub open spec fn stamped_once(
    before: Option<Seq<char>>,
    after: Option<Seq<char>>,
    now: Seq<char>,
) -> bool {
    match before {
        Some(at) => after == Some(at),
        None => after == Some(now),
    }
}

proof fn lemma_column(
    s: Seq<TaskRow<Seq<char>>>,
    status: Seq<char>,
    ids: Seq<i64>,
    now: Seq<char>,
    id: i64,
)
    requires
        ascending::<TaskRow>(s),
        ids.no_duplicates(),
    ensures
        ascending::<TaskRow>(column_moved(s, status, ids, now)),
        column_moved(s, status, ids, now).len() == s.len(),
        !ids.contains(id) ==> row_at::<TaskRow>(column_moved(s, status, ids, now), id) == row_at::<
            TaskRow,
        >(s, id),
        forall|k: int|
            0 <= k < ids.len() && #[trigger] ids[k] == id && row_at::<TaskRow>(s, id) is Some
                ==> row_at::<TaskRow>(column_moved(s, status, ids, now), id) == Some(
                moved_card(row_at::<TaskRow>(s, id)->0, status, (k + 1) as i64, now),
            ),
    decreases ids.len(),
{
    if ids.len() > 0 {
        let rest = ids.drop_last();
        let last = ids.last();
        let t = column_moved(s, status, rest, now);
        lemma_column(s, status, rest, now, id);
        lemma_column(s, status, rest, now, last);
        assert(!rest.contains(last)) by {
            if rest.contains(last) {
                let k = choose|k: int| 0 <= k < rest.len() && rest[k] == last;
                assert(ids[k] == ids[ids.len() - 1]);
            }
        }
        if rest.contains(id) {
            let k = choose|k: int| 0 <= k < rest.len() && rest[k] == id;
            assert(ids[k] == id);
        }
        if let Some(row) = row_at::<TaskRow>(t, last) {
            let i = table::lemma_row_found::<TaskRow>(t, last);
            let new = moved_card(row, status, ids.len() as i64, now);
            lemma_put_ascending::<TaskRow>(t, last, new);
            lemma_put_reads::<TaskRow>(t, last, new, id);
        }
        assert forall|k: int|
            0 <= k < ids.len() && #[trigger] ids[k] == id && row_at::<TaskRow>(
                s,
                id,
            ) is Some implies row_at::<TaskRow>(column_moved(s, status, ids, now), id) == Some(
            moved_card(row_at::<TaskRow>(s, id)->0, status, (k + 1) as i64, now),
        ) by {
            if k < rest.len() {
                assert(rest[k] == id);
                assert(rest.contains(id));
            }
        }
        assert(ids.contains(last));
    }
}

proof fn lemma_no_stray(v: Tables, session_id: i64, ids: Seq<i64>, k: int)
    requires
        stray(v, session_id, ids) is None,
        0 <= k < ids.len(),
    ensures
        row_at::<TaskRow>(v.tasks, ids[k]) is Some,
        row_at::<TaskRow>(v.tasks, ids[k])->0.session_id == Some(session_id),
    decreases ids.len(),
{
    if k > 0 {
        assert(ids.drop_first()[k - 1] == ids[k]);
        lemma_no_stray(v, session_id, ids.drop_first(), k - 1);
    }
}

/// No card stands in two places of an arrangement.
pub open spec fn named_once(arr: Arrangement) -> bool {
    (arr.todo@ + arr.doing@ + arr.done@ + arr.dropped@).no_duplicates()
}

proof fn lemma_named_once(arr: Arrangement)
    requires
        named_once(arr),
    ensures
        arr.todo@.no_duplicates(),
        arr.doing@.no_duplicates(),
        arr.done@.no_duplicates(),
        arr.dropped@.no_duplicates(),
        forall|id: i64| #[trigger]
            arr.todo@.contains(id) ==> !arr.doing@.contains(id) && !arr.done@.contains(id)
                && !arr.dropped@.contains(id),
        forall|id: i64| #[trigger]
            arr.doing@.contains(id) ==> !arr.done@.contains(id) && !arr.dropped@.contains(id),
        forall|id: i64| #[trigger] arr.done@.contains(id) ==> !arr.dropped@.contains(id),
{
    let (a, b, c, d) = (arr.todo@, arr.doing@, arr.done@, arr.dropped@);
    let all = a + b + c + d;
    let (n, m, l) = (a.len() as int, (a.len() + b.len()) as int, (a.len() + b.len() + c.len()) as int);
    assert forall|i: int, j: int| 0 <= i < a.len() && 0 <= j < a.len() && i != j implies a[i]
        != a[j] by {
        assert(all[i] == a[i] && all[j] == a[j]);
    }
    assert forall|i: int, j: int| 0 <= i < b.len() && 0 <= j < b.len() && i != j implies b[i]
        != b[j] by {
        assert(all[n + i] == b[i] && all[n + j] == b[j]);
    }
    assert forall|i: int, j: int| 0 <= i < c.len() && 0 <= j < c.len() && i != j implies c[i]
        != c[j] by {
        assert(all[m + i] == c[i] && all[m + j] == c[j]);
    }
    assert forall|i: int, j: int| 0 <= i < d.len() && 0 <= j < d.len() && i != j implies d[i]
        != d[j] by {
        assert(all[l + i] == d[i] && all[l + j] == d[j]);
    }
    assert forall|i: int, j: int| 0 <= i < a.len() && 0 <= j < b.len() implies a[i] != b[j] by {
        assert(all[i] == a[i] && all[n + j] == b[j]);
    }
    assert forall|i: int, j: int| 0 <= i < a.len() && 0 <= j < c.len() implies a[i] != c[j] by {
        assert(all[i] == a[i] && all[m + j] == c[j]);
    }
    assert forall|i: int, j: int| 0 <= i < a.len() && 0 <= j < d.len() implies a[i] != d[j] by {
        assert(all[i] == a[i] && all[l + j] == d[j]);
    }
    assert forall|i: int, j: int| 0 <= i < b.len() && 0 <= j < c.len() implies b[i] != c[j] by {
        assert(all[n + i] == b[i] && all[m + j] == c[j]);
    }
    assert forall|i: int, j: int| 0 <= i < b.len() && 0 <= j < d.len() implies b[i] != d[j] by {
        assert(all[n + i] == b[i] && all[l + j] == d[j]);
    }
    assert forall|i: int, j: int| 0 <= i < c.len() && 0 <= j < d.len() implies c[i] != d[j] by {
        assert(all[m + i] == c[i] && all[l + j] == d[j]);
    }
}

proof fn lemma_status_names()
    ensures
        "planned"@ != "doing"@,
        "planned"@ != "done"@,
        "planned"@ != "dropped"@,
        "doing"@ != "done"@,
        "doing"@ != "dropped"@,
        "done"@ != "dropped"@,
{
    reveal_strlit("planned");
    reveal_strlit("dropped");
    reveal_strlit("doing");
    reveal_strlit("done");
    assert("planned"@.len() == 7 && "dropped"@.len() == 7 && "doing"@.len() == 5 && "done"@.len()
        == 4);
    assert("planned"@[0] == 'p' && "dropped"@[0] == 'd');
}

/// What each card of an arrangement is afterwards.
proof fn lemma_arranged(v: Tables, session_id: i64, arr: Arrangement, now: Seq<char>, id: i64)
    requires
        v.wf(),
        first_stray(v, session_id, arr) is None,
        named_once(arr),
    ensures
        ({
            let u = board_moved(v.tasks, arr, now);
            let (before, after) = (row_at::<TaskRow>(v.tasks, id), row_at::<TaskRow>(u, id));
            &&& ascending::<TaskRow>(u)
            &&& u.len() == v.tasks.len()
            &&& forall|k: int|
                0 <= k < arr.todo@.len() && #[trigger] arr.todo@[k] == id ==> before is Some
                    && after == Some(moved_card(before->0, "planned"@, (k + 1) as i64, now))
            &&& forall|k: int|
                0 <= k < arr.doing@.len() && #[trigger] arr.doing@[k] == id ==> before is Some
                    && after == Some(moved_card(before->0, "doing"@, (k + 1) as i64, now))
            &&& forall|k: int|
                0 <= k < arr.done@.len() && #[trigger] arr.done@[k] == id ==> before is Some
                    && after == Some(moved_card(before->0, "done"@, (k + 1) as i64, now))
            &&& forall|k: int|
                0 <= k < arr.dropped@.len() && #[trigger] arr.dropped@[k] == id ==> before is Some
                    && after == Some(moved_card(before->0, "dropped"@, (k + 1) as i64, now))
            &&& !arr.todo@.contains(id) && !arr.doing@.contains(id) && !arr.done@.contains(id)
                && !arr.dropped@.contains(id) ==> after == before
        }),
{
    lemma_named_once(arr);
    let a = column_moved(v.tasks, "planned"@, arr.todo@, now);
    let b = column_moved(a, "doing"@, arr.doing@, now);
    let c = column_moved(b, "done"@, arr.done@, now);
    lemma_column(v.tasks, "planned"@, arr.todo@, now, id);
    lemma_column(a, "doing"@, arr.doing@, now, id);
    lemma_column(b, "done"@, arr.done@, now, id);
    lemma_column(c, "dropped"@, arr.dropped@, now, id);
    assert forall|k: int| 0 <= k < arr.todo@.len() && #[trigger] arr.todo@[k] == id implies row_at::<
        TaskRow,
    >(v.tasks, id) is Some by {
        lemma_no_stray(v, session_id, arr.todo@, k);
        assert(arr.todo@.contains(id));
    }
    assert forall|k: int| 0 <= k < arr.doing@.len() && #[trigger] arr.doing@[k]
        == id implies row_at::<TaskRow>(v.tasks, id) is Some by {
        lemma_no_stray(v, session_id, arr.doing@, k);
        assert(arr.doing@.contains(id));
    }
    assert forall|k: int| 0 <= k < arr.done@.len() && #[trigger] arr.done@[k] == id implies row_at::<
        TaskRow,
    >(v.tasks, id) is Some by {
        lemma_no_stray(v, session_id, arr.done@, k);
        assert(arr.done@.contains(id));
    }
    assert forall|k: int| 0 <= k < arr.dropped@.len() && #[trigger] arr.dropped@[k]
        == id implies row_at::<TaskRow>(v.tasks, id) is Some by {
        lemma_no_stray(v, session_id, arr.dropped@, k);
        assert(arr.dropped@.contains(id));
    }
    if arr.todo@.contains(id) {
        assert(!arr.doing@.contains(id));
    }
    if arr.doing@.contains(id) {
        assert(!arr.todo@.contains(id)) by {
            if arr.todo@.contains(id) {
                assert(!arr.doing@.contains(id));
            }
        }
    }
    if arr.done@.contains(id) {
        assert(!arr.todo@.contains(id) && !arr.doing@.contains(id)) by {
            if arr.todo@.contains(id) {
                assert(!arr.done@.contains(id));
            }
            if arr.doing@.contains(id) {
                assert(!arr.done@.contains(id));
            }
        }
    }
    if arr.dropped@.contains(id) {
        assert(!arr.todo@.contains(id) && !arr.doing@.contains(id) && !arr.done@.contains(id)) by {
            if arr.todo@.contains(id) {
                assert(!arr.dropped@.contains(id));
            }
            if arr.doing@.contains(id) {
                assert(!arr.dropped@.contains(id));
            }
            if arr.done@.contains(id) {
                assert(!arr.dropped@.contains(id));
            }
        }
    }
}

/// The board as it was arranged is the board as it is stored: the k-th card of
/// each column has that column's status and the k-th position, a card that got
/// going or was settled has its stamp, one that is open again was not settled,
/// and a card that was not named is as it was.
pub proof fn the_board_is_stored_as_arranged(
    v: Tables,
    session_id: i64,
    arr: Arrangement,
    now: Seq<char>,
)
    requires
        v.wf(),
        first_stray(v, session_id, arr) is None,
        named_once(arr),
        arr.todo@.len() < i64::MAX,
        arr.doing@.len() < i64::MAX,
        arr.done@.len() < i64::MAX,
        arr.dropped@.len() < i64::MAX,
    ensures
        ({
            let u = board_moved(v.tasks, arr, now);
            let was = |id: i64| row_at::<TaskRow>(v.tasks, id);
            let is = |id: i64| row_at::<TaskRow>(u, id);
            &&& u.len() == v.tasks.len()
            &&& forall|k: int|
                0 <= k < arr.todo@.len() ==> {
                    let id = #[trigger] arr.todo@[k];
                    &&& put_there(was(id), is(id), "planned"@, k + 1)
                    &&& is(id)->0.started_at == was(id)->0.started_at
                    &&& is(id)->0.resolved_at is None
                }
            &&& forall|k: int|
                0 <= k < arr.doing@.len() ==> {
                    let id = #[trigger] arr.doing@[k];
                    &&& put_there(was(id), is(id), "doing"@, k + 1)
                    &&& stamped_once(was(id)->0.started_at, is(id)->0.started_at, now)
                    &&& is(id)->0.resolved_at is None
                }
            &&& forall|k: int|
                0 <= k < arr.done@.len() ==> {
                    let id = #[trigger] arr.done@[k];
                    &&& put_there(was(id), is(id), "done"@, k + 1)
                    &&& stamped_once(was(id)->0.started_at, is(id)->0.started_at, now)
                    &&& stamped_once(was(id)->0.resolved_at, is(id)->0.resolved_at, now)
                }
            &&& forall|k: int|
                0 <= k < arr.dropped@.len() ==> {
                    let id = #[trigger] arr.dropped@[k];
                    &&& put_there(was(id), is(id), "dropped"@, k + 1)
                    &&& is(id)->0.started_at == was(id)->0.started_at
                    &&& stamped_once(was(id)->0.resolved_at, is(id)->0.resolved_at, now)
                }
            &&& forall|id: i64|
                !arr.todo@.contains(id) && !arr.doing@.contains(id) && !arr.done@.contains(id)
                    && !arr.dropped@.contains(id) ==> #[trigger] row_at::<TaskRow>(u, id)
                    == row_at::<TaskRow>(v.tasks, id)
        }),
{
    let u = board_moved(v.tasks, arr, now);
    lemma_status_names();
    lemma_arranged(v, session_id, arr, now, 0);
    assert forall|k: int| 0 <= k < arr.todo@.len() implies {
        let id = #[trigger] arr.todo@[k];
        let (was, is) = (row_at::<TaskRow>(v.tasks, id), row_at::<TaskRow>(u, id));
        put_there(was, is, "planned"@, k + 1) && is->0.started_at == was->0.started_at
            && is->0.resolved_at is None
    } by {
        lemma_arranged(v, session_id, arr, now, arr.todo@[k]);
    }
    assert forall|k: int| 0 <= k < arr.doing@.len() implies {
        let id = #[trigger] arr.doing@[k];
        let (was, is) = (row_at::<TaskRow>(v.tasks, id), row_at::<TaskRow>(u, id));
        put_there(was, is, "doing"@, k + 1) && stamped_once(
            was->0.started_at,
            is->0.started_at,
            now,
        ) && is->0.resolved_at is None
    } by {
        lemma_arranged(v, session_id, arr, now, arr.doing@[k]);
    }
    assert forall|k: int| 0 <= k < arr.done@.len() implies {
        let id = #[trigger] arr.done@[k];
        let (was, is) = (row_at::<TaskRow>(v.tasks, id), row_at::<TaskRow>(u, id));
        put_there(was, is, "done"@, k + 1) && stamped_once(
            was->0.started_at,
            is->0.started_at,
            now,
        ) && stamped_once(was->0.resolved_at, is->0.resolved_at, now)
    } by {
        lemma_arranged(v, session_id, arr, now, arr.done@[k]);
    }
    assert forall|k: int| 0 <= k < arr.dropped@.len() implies {
        let id = #[trigger] arr.dropped@[k];
        let (was, is) = (row_at::<TaskRow>(v.tasks, id), row_at::<TaskRow>(u, id));
        put_there(was, is, "dropped"@, k + 1) && is->0.started_at == was->0.started_at
            && stamped_once(was->0.resolved_at, is->0.resolved_at, now)
    } by {
        lemma_arranged(v, session_id, arr, now, arr.dropped@[k]);
    }
    assert forall|id: i64|
        !arr.todo@.contains(id) && !arr.doing@.contains(id) && !arr.done@.contains(id)
            && !arr.dropped@.contains(id) implies #[trigger] row_at::<TaskRow>(u, id) == row_at::<
        TaskRow,
    >(v.tasks, id) by {
        lemma_arranged(v, session_id, arr, now, id);
    }
}

/// A card is in a list, in a column.
pub open spec fn listed_under(
    c: Seq<crate::models::Task<Seq<char>, Seq<crate::models::Label<Seq<char>>>>>,
    id: i64,
    status: Seq<char>,
) -> bool {
    exists|p: int| 0 <= p < c.len() && (#[trigger] c[p]).id == id && c[p].status == status
}

/// Every card of a column is read back, and of two the one that was put first
/// is read first.
pub open spec fn read_in_order(w: Tables, session_id: i64, ids: Seq<i64>, status: Seq<char>) -> bool {
    let c = cards(w, Some(session_id));
    &&& forall|i: int|
        0 <= i < ids.len() ==> #[trigger] listed_under(c, ids[i], status)
    &&& forall|i: int, j: int, p: int, q: int|
        0 <= i < j < ids.len() && 0 <= p < c.len() && 0 <= q < c.len() && (#[trigger] c[p]).id
            == #[trigger] ids[i] && (#[trigger] c[q]).id == #[trigger] ids[j] ==> p < q
}

/// The cards of a column are read back in the order in which they were put.
pub proof fn the_board_is_read_back_in_order(
    v: Tables,
    session_id: i64,
    arr: Arrangement,
    now: Seq<char>,
)
    requires
        v.wf(),
        first_stray(v, session_id, arr) is None,
        named_once(arr),
        arr.todo@.len() < i64::MAX,
        arr.doing@.len() < i64::MAX,
        arr.done@.len() < i64::MAX,
        arr.dropped@.len() < i64::MAX,
    ensures
        ({
            let w = Tables { tasks: board_moved(v.tasks, arr, now), ..v };
            &&& read_in_order(w, session_id, arr.todo@, "planned"@)
            &&& read_in_order(w, session_id, arr.doing@, "doing"@)
            &&& read_in_order(w, session_id, arr.done@, "done"@)
            &&& read_in_order(w, session_id, arr.dropped@, "dropped"@)
        }),
{
    let w = Tables { tasks: board_moved(v.tasks, arr, now), ..v };
    lemma_arranged(v, session_id, arr, now, 0);
    the_board_is_stored_as_arranged(v, session_id, arr, now);
    assert forall|k: int| 0 <= k < arr.todo@.len() implies {
        let t = row_at::<TaskRow>(w.tasks, #[trigger] arr.todo@[k]);
        t is Some && t->0.session_id == Some(session_id) && t->0.status == "planned"@
            && t->0.position == k + 1
    } by {
        lemma_no_stray(v, session_id, arr.todo@, k);
    }
    lemma_read_in_order(w, session_id, arr.todo@, "planned"@);
    assert forall|k: int| 0 <= k < arr.doing@.len() implies {
        let t = row_at::<TaskRow>(w.tasks, #[trigger] arr.doing@[k]);
        t is Some && t->0.session_id == Some(session_id) && t->0.status == "doing"@
            && t->0.position == k + 1
    } by {
        lemma_no_stray(v, session_id, arr.doing@, k);
    }
    lemma_read_in_order(w, session_id, arr.doing@, "doing"@);
    assert forall|k: int| 0 <= k < arr.done@.len() implies {
        let t = row_at::<TaskRow>(w.tasks, #[trigger] arr.done@[k]);
        t is Some && t->0.session_id == Some(session_id) && t->0.status == "done"@
            && t->0.position == k + 1
    } by {
        lemma_no_stray(v, session_id, arr.done@, k);
    }
    lemma_read_in_order(w, session_id, arr.done@, "done"@);
    assert forall|k: int| 0 <= k < arr.dropped@.len() implies {
        let t = row_at::<TaskRow>(w.tasks, #[trigger] arr.dropped@[k]);
        t is Some && t->0.session_id == Some(session_id) && t->0.status == "dropped"@
            && t->0.position == k + 1
    } by {
        lemma_no_stray(v, session_id, arr.dropped@, k);
    }
    lemma_read_in_order(w, session_id, arr.dropped@, "dropped"@);
}

proof fn lemma_read_in_order(w: Tables, session_id: i64, ids: Seq<i64>, status: Seq<char>)
    requires
        ascending::<TaskRow>(w.tasks),
        forall|k: int|
            0 <= k < ids.len() ==> {
                let t = row_at::<TaskRow>(w.tasks, #[trigger] ids[k]);
                t is Some && t->0.session_id == Some(session_id) && t->0.status == status
                    && t->0.position == k + 1
            },
    ensures
        read_in_order(w, session_id, ids, status),
{
    let c = cards(w, Some(session_id));
    cards_are_read_by_position(w, Some(session_id));
    assert forall|p: int, i: int|
        0 <= p < c.len() && 0 <= i < ids.len() && (#[trigger] c[p]).id == #[trigger] ids[i] implies c[p].position
        == i + 1 by {
        assert(stored(w.tasks, Some(session_id), c[p]));
        let x = choose|x: int|
            0 <= x < w.tasks.len() && (#[trigger] w.tasks[x]).session_id == Some(session_id)
                && shows(w.tasks[x], c[p]);
        table::lemma_row_at::<TaskRow>(w.tasks, x);
        assert(<TaskRow as table::Keyed>::key(w.tasks[x]) == ids[i]);
    }
    assert forall|i: int| 0 <= i < ids.len() implies #[trigger] listed_under(c, ids[i], status) by {
        let x = table::lemma_row_found::<TaskRow>(w.tasks, ids[i]);
        assert(w.tasks[x].session_id == Some(session_id));
        assert(found(w.tasks[x], c));
        let p = choose|p: int| 0 <= p < c.len() && shows(w.tasks[x], #[trigger] c[p]);
        assert(c[p].id == ids[i]);
    }
    assert forall|i: int, j: int, p: int, q: int|
        0 <= i < j < ids.len() && 0 <= p < c.len() && 0 <= q < c.len() && (#[trigger] c[p]).id
            == #[trigger] ids[i] && (#[trigger] c[q]).id == #[trigger] ids[j] implies p < q by {
        assert(c[p].position == i + 1 && c[q].position == j + 1);
        if q < p {
            assert(c[q].position < c[p].position || c[q].position == c[p].position);
        }
    }
}

} // verus!
