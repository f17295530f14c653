//! The catalog of things to do when the time is up.
//!
//! The model picks an `id` from this list rather than writing advice of its
//! own: the same situation gets the same recommendation, and every claim is in
//! one place. Only the id is stored, so rewording an entry applies to every
//! checkpoint already recorded.

use vstd::prelude::*;

use crate::sort::deep;
use crate::text;
use crate::text::without;

verus! {

#[derive(Clone, Copy, Debug)]
pub struct Recommendation<S = &'static str> {
    pub id: S,
    /// What to do, in the imperative.
    pub advice: S,
    /// Why it is worth doing.
    pub why: S,
    /// Roughly how long it takes. 0 = not timed.
    pub minutes: u32,
    /// Citation. `None` means that there is no evidence behind this yet.
    pub source: Option<S>,
}

impl DeepView for Recommendation {
    type V = Recommendation<Seq<char>>;

    open spec fn deep_view(&self) -> Recommendation<Seq<char>> {
        Recommendation {
            id: self.id@,
            advice: self.advice@,
            why: self.why@,
            minutes: self.minutes,
            source: match self.source {
                Some(s) => Some(s@),
                None => None,
            },
        }
    }
}

pub const RESET_BREAK_ID: &'static str = "reset_break";

pub const RESET_BREAK_ADVICE: &'static str = "Step away for five minutes with no screen, then start one card.";

pub const RESET_BREAK_WHY: &'static str = "A short break away from the machine breaks the pull of whatever caught \
    your attention, and coming back to a named card removes the choice that \
    usually restarts the drift.";

pub const PICK_ONE_ID: &'static str = "pick_one";

pub const PICK_ONE_ADVICE: &'static str = "Close everything but one card and work only that for 25 minutes.";

pub const PICK_ONE_WHY: &'static str = "The cost here is switching, not effort — a single card and a short fixed \
    run makes switching the thing you have to opt into.";

pub const SHRINK_SCOPE_ID: &'static str = "shrink_scope";

pub const SHRINK_SCOPE_ADVICE: &'static str = "Pick the smallest card on the board and do only that.";

pub const SHRINK_SCOPE_WHY: &'static str = "Nothing has started, which usually means the first step is too big to \
    begin rather than too hard to finish.";

pub const WRAP_UP_ID: &'static str = "wrap_up";

pub const WRAP_UP_ADVICE: &'static str = "Resolve the board — move what is done to Done — and stop here.";

pub const WRAP_UP_WHY: &'static str = "You said this was the stopping point and the work went where you meant it \
    to. Closing the board now is what makes the next session's backlog true.";

pub const KEEP_GOING_ID: &'static str = "keep_going";

pub const KEEP_GOING_ADVICE: &'static str = "Take five minutes back, then continue on the same card.";

pub const KEEP_GOING_WHY: &'static str = "The work is going where you intended and the thread is still warm; a short \
    pause costs less than reloading it later.";

pub const STOP_FOR_TODAY_ID: &'static str = "stop_for_today";

pub const STOP_FOR_TODAY_ADVICE: &'static str = "Stop now rather than pushing on.";

pub const STOP_FOR_TODAY_WHY: &'static str = "This has run long and the last stretch was worse than the ones before it — \
    continuing tends to spend tomorrow rather than buy anything today.";

pub const QUIET_WINDOW_ID: &'static str = "quiet_window";

pub const QUIET_WINDOW_ADVICE: &'static str = "Decide for yourself whether to stop or keep going.";

pub const QUIET_WINDOW_WHY: &'static str = "There was too little tracked activity to say anything useful about the \
    last stretch, so this is the clock talking, not an assessment.";

/// An entry with its id, what it says, and how long it takes.
pub open spec fn entry(id: Seq<char>, advice: Seq<char>, why: Seq<char>, minutes: u32) -> (
    Recommendation<Seq<char>>) {
    Recommendation { id, advice, why, minutes, source: None }
}

pub open spec fn pick_one_entry() -> Recommendation<Seq<char>> {
    entry(
        PICK_ONE_ID@,
        PICK_ONE_ADVICE@,
        PICK_ONE_WHY@,
        25,
    )
}

/// What is shown when there was nothing to judge. Never offered to the model.
pub open spec fn quiet_entry() -> Recommendation<Seq<char>> {
    entry(
        QUIET_WINDOW_ID@,
        QUIET_WINDOW_ADVICE@,
        QUIET_WINDOW_WHY@,
        0,
    )
}

/// What is offered to the model, in this order.
pub open spec fn offered() -> Seq<Recommendation<Seq<char>>> {
    seq![
        entry(
            RESET_BREAK_ID@,
            RESET_BREAK_ADVICE@,
            RESET_BREAK_WHY@,
            5,
        ),
        pick_one_entry(),
        entry(
            SHRINK_SCOPE_ID@,
            SHRINK_SCOPE_ADVICE@,
            SHRINK_SCOPE_WHY@,
            15,
        ),
        entry(
            WRAP_UP_ID@,
            WRAP_UP_ADVICE@,
            WRAP_UP_WHY@,
            5,
        ),
        entry(
            KEEP_GOING_ID@,
            KEEP_GOING_ADVICE@,
            KEEP_GOING_WHY@,
            5,
        ),
        entry(
            STOP_FOR_TODAY_ID@,
            STOP_FOR_TODAY_ADVICE@,
            STOP_FOR_TODAY_WHY@,
            0,
        ),
    ]
}

fn new_entry(id: &'static str, advice: &'static str, why: &'static str, minutes: u32) -> (r:
    Recommendation)
    ensures
        r.deep_view() == entry(id@, advice@, why@, minutes),
{
    Recommendation { id, advice, why, minutes, source: None }
}

/// Where an unrecognized id lands.
pub fn fallback() -> (r: Recommendation)
    ensures
        r.deep_view() == pick_one_entry(),
{
    new_entry(
        PICK_ONE_ID,
        PICK_ONE_ADVICE,
        PICK_ONE_WHY,
        25,
    )
}

/// What is shown when there was nothing to judge: letting the model choose it
/// would give it an escape hatch from every hard call.
pub fn quiet_window() -> (r: Recommendation)
    ensures
        r.deep_view() == quiet_entry(),
{
    new_entry(
        QUIET_WINDOW_ID,
        QUIET_WINDOW_ADVICE,
        QUIET_WINDOW_WHY,
        0,
    )
}

/// What is offered to the model, in this order.
pub fn catalog() -> (r: Vec<Recommendation>)
    ensures
        deep(r@) == offered(),
{
    let mut v: Vec<Recommendation> = Vec::new();
    v.push(
        new_entry(
            RESET_BREAK_ID,
            RESET_BREAK_ADVICE,
            RESET_BREAK_WHY,
            5,
        ),
    );
    v.push(fallback());
    v.push(
        new_entry(
            SHRINK_SCOPE_ID,
            SHRINK_SCOPE_ADVICE,
            SHRINK_SCOPE_WHY,
            15,
        ),
    );
    v.push(
        new_entry(
            WRAP_UP_ID,
            WRAP_UP_ADVICE,
            WRAP_UP_WHY,
            5,
        ),
    );
    v.push(
        new_entry(
            KEEP_GOING_ID,
            KEEP_GOING_ADVICE,
            KEEP_GOING_WHY,
            5,
        ),
    );
    v.push(
        new_entry(
            STOP_FOR_TODAY_ID,
            STOP_FOR_TODAY_ADVICE,
            STOP_FOR_TODAY_WHY,
            0,
        ),
    );
    proof {
        assert(deep(v@) =~= offered());
    }
    v
}

/// The first entry with an id.
pub open spec fn lookup(s: Seq<Recommendation<Seq<char>>>, id: Seq<char>) -> Option<
    Recommendation<Seq<char>>,
>
    decreases s.len(),
{
    if s.len() == 0 {
        None
    } else if s[0].id == id {
        Some(s[0])
    } else {
        lookup(s.drop_first(), id)
    }
}

/// What a stored id stands for.
pub open spec fn known(id: Seq<char>) -> Option<Recommendation<Seq<char>>> {
    if id == QUIET_WINDOW_ID@ {
        Some(quiet_entry())
    } else {
        lookup(offered(), id)
    }
}

/// What an id from the model stands for.
pub open spec fn resolved(id: Seq<char>) -> Recommendation<Seq<char>> {
    match lookup(offered(), id) {
        Some(r) => r,
        None => pick_one_entry(),
    }
}

fn find(id: &str) -> (r: Option<Recommendation>)
    ensures
        r.deep_view() == lookup(offered(), id@),
{
    let all = catalog();
    let mut i: usize = 0;
    proof {
        assert(offered().skip(0) =~= offered());
    }
    while i < all.len()
        invariant
            i <= all.len(),
            deep(all@) == offered(),
            lookup(offered(), id@) == lookup(offered().skip(i as int), id@),
        decreases all.len() - i,
    {
        proof {
            assert(offered().skip(i as int)[0] == deep(all@)[i as int]);
            assert(offered().skip(i as int).drop_first() =~= offered().skip(i + 1));
        }
        if text::same(all[i].id, id) {
            return Some(all[i]);
        }
        i = i + 1;
    }
    None
}

/// What a stored id stands for; `None` for one the catalog no longer knows.
pub fn get(id: &str) -> (r: Option<Recommendation>)
    ensures
        r.deep_view() == known(id@),
{
    if text::same(id, QUIET_WINDOW_ID) {
        return Some(quiet_window());
    }
    find(id)
}

/// What the model returned, falling back rather than failing.
pub fn resolve(id: &str) -> (r: Recommendation)
    ensures
        r.deep_view() == resolved(id@),
{
    match find(id) {
        Some(r) => r,
        None => fallback(),
    }
}

/// One line of the menu.
pub open spec fn menu_line(r: Recommendation<Seq<char>>) -> Seq<char> {
    "- "@ + r.id + ": "@ + r.advice
}

/// The menu, as the model sees it.
pub open spec fn menu_text() -> Seq<char> {
    text::joined(
        offered().map_values(|r: Recommendation<Seq<char>>| menu_line(r)),
        "\n"@,
    )
}

pub fn menu() -> (r: String)
    ensures
        r@ == menu_text(),
{
    let all = catalog();
    let mut lines: Vec<String> = Vec::new();
    let mut i: usize = 0;
    while i < all.len()
        invariant
            i <= all.len(),
            deep(all@) == offered(),
            lines.len() == i,
            forall|j: int| 0 <= j < i ==> #[trigger] lines@[j]@ == menu_line(offered()[j]),
        decreases all.len() - i,
    {
        proof {
            assert(deep(all@)[i as int] == all@[i as int].deep_view());
        }
        let mut line = text::cat3("- ", all[i].id, ": ");
        line.append(all[i].advice);
        lines.push(line);
        i = i + 1;
    }
    proof {
        assert(text::views(lines@) =~= offered().map_values(
            |r: Recommendation<Seq<char>>| menu_line(r),
        ));
    }
    text::join(&lines, "\n")
}

/// Whatever the model returns, what comes of it is in the catalog and is never
/// the entry kept for a window with nothing in it.
pub proof fn resolving_stays_in_the_catalog(id: Seq<char>)
    ensures
        offered().contains(resolved(id)),
        resolved(id).id != QUIET_WINDOW_ID@,
{
    lemma_lookup(offered(), id);
    assert(offered()[1] == pick_one_entry());
    reveal_strlit("reset_break");
    reveal_strlit("pick_one");
    reveal_strlit("shrink_scope");
    reveal_strlit("wrap_up");
    reveal_strlit("keep_going");
    reveal_strlit("stop_for_today");
    reveal_strlit("quiet_window");
    assert(RESET_BREAK_ID@.len() == 11 && PICK_ONE_ID@.len() == 8 && WRAP_UP_ID@.len() == 7
        && KEEP_GOING_ID@.len() == 10 && STOP_FOR_TODAY_ID@.len() == 14 && QUIET_WINDOW_ID@.len() == 12);
    assert(SHRINK_SCOPE_ID@[0] == 's' && QUIET_WINDOW_ID@[0] == 'q');
    assert forall|i: int| 0 <= i < offered().len() implies (#[trigger] offered()[i]).id
        != QUIET_WINDOW_ID@ by {
        assert(offered().len() == 6);
    }
}

proof fn lemma_lookup_finds(s: Seq<Recommendation<Seq<char>>>, k: int)
    requires
        0 <= k < s.len(),
    ensures
        lookup(s, s[k].id) is Some,
    decreases s.len(),
{
    if k > 0 && s[0].id != s[k].id {
        assert(s.drop_first()[k - 1] == s[k]);
        lemma_lookup_finds(s.drop_first(), k - 1);
    }
}

proof fn lemma_menu_line(k: int, c: char)
    requires
        0 <= k < offered().len(),
        without(offered()[k].id, c),
        without(offered()[k].advice, c),
        c == '\n' || c == 'q',
    ensures
        without(menu_line(offered()[k]), c),
{
    reveal_strlit("- ");
    reveal_strlit(": ");
    let (a, b) = (offered()[k].id, offered()[k].advice);
    let s = menu_line(offered()[k]);
    assert forall|i: int| 0 <= i < s.len() implies #[trigger] s[i] != c by {
        if i < 2 {
            assert(s[i] == "- "@[i]);
        } else if i < 2 + a.len() {
            assert(s[i] == a[i - 2]);
        } else if i < 4 + a.len() {
            assert(s[i] == ": "@[i - 2 - a.len()]);
        } else {
            assert(s[i] == b[i - 4 - a.len()]);
        }
    }
}

/// The menu has a line for every entry of the catalog, in its order, and no
/// other; each id on it stands for its own entry, and the entry kept for a
/// window with nothing in it is not mentioned.
pub proof fn the_menu_is_the_catalog(k: int)
    requires
        0 <= k < offered().len(),
    ensures
        offered().len() == 6,
        text::pieces(menu_text(), '\n').len() == offered().len(),
        text::pieces(menu_text(), '\n')[k] == menu_line(offered()[k]),
        resolved(offered()[k].id) == offered()[k],
        known(offered()[k].id) == Some(offered()[k]),
        !text::occurs(menu_text(), QUIET_WINDOW_ID@),
{
    let lines = offered().map_values(|r: Recommendation<Seq<char>>| menu_line(r));
    lemma_ids();
    lemma_advice();
    assert forall|i: int| 0 <= i < lines.len() implies without(#[trigger] lines[i], '\n')
        && without(lines[i], 'q') by {
        assert(without(offered()[i].id, '\n') && without(offered()[i].advice, '\n'));
        lemma_menu_line(i, '\n');
        lemma_menu_line(i, 'q');
    }
    reveal_strlit("\n");
    assert("\n"@ =~= seq!['\n']);
    text::lemma_pieces_joined(lines, '\n');
    text::lemma_joined_without(lines, "\n"@, 'q');
    reveal_strlit("quiet_window");
    if text::occurs(menu_text(), QUIET_WINDOW_ID@) {
        let i = choose|i: int| #[trigger] text::occurs_at(menu_text(), QUIET_WINDOW_ID@, i);
        assert(menu_text()[i] == QUIET_WINDOW_ID@[0]);
    }
    let id = offered()[k].id;
    lemma_lookup_finds(offered(), k);
    lemma_lookup(offered(), id);
    let r = lookup(offered(), id)->0;
    let j = choose|j: int| 0 <= j < offered().len() && offered()[j] == r;
    assert(offered()[j].id == offered()[k].id);
    if id == QUIET_WINDOW_ID@ {
        assert(id[0] == 'q');
    }
}

proof fn lemma_ids()
    ensures
        forall|i: int, j: int|
            0 <= i < j < offered().len() ==> (#[trigger] offered()[i]).id != (
            #[trigger] offered()[j]).id,
        forall|i: int|
            0 <= i < offered().len() ==> without((#[trigger] offered()[i]).id, '\n') && without(
                offered()[i].id,
                'q',
            ),
{
    reveal_strlit("reset_break");
    reveal_strlit("pick_one");
    reveal_strlit("shrink_scope");
    reveal_strlit("wrap_up");
    reveal_strlit("keep_going");
    reveal_strlit("stop_for_today");
    assert(RESET_BREAK_ID@.len() == 11 && PICK_ONE_ID@.len() == 8 && SHRINK_SCOPE_ID@.len() == 12
        && WRAP_UP_ID@.len() == 7 && KEEP_GOING_ID@.len() == 10 && STOP_FOR_TODAY_ID@.len() == 14);
    assert(without(RESET_BREAK_ID@, '\n') && without(RESET_BREAK_ID@, 'q'));
    assert(without(PICK_ONE_ID@, '\n') && without(PICK_ONE_ID@, 'q'));
    assert(without(SHRINK_SCOPE_ID@, '\n') && without(SHRINK_SCOPE_ID@, 'q'));
    assert(without(WRAP_UP_ID@, '\n') && without(WRAP_UP_ID@, 'q'));
    assert(without(KEEP_GOING_ID@, '\n') && without(KEEP_GOING_ID@, 'q'));
    assert(without(STOP_FOR_TODAY_ID@, '\n') && without(STOP_FOR_TODAY_ID@, 'q'));
}

proof fn lemma_advice()
    ensures
        forall|i: int|
            0 <= i < offered().len() ==> without((#[trigger] offered()[i]).advice, '\n') && without(
                offered()[i].advice,
                'q',
            ),
{
    assert(without(RESET_BREAK_ADVICE@, '\n') && without(RESET_BREAK_ADVICE@, 'q')) by {
        reveal_strlit("Step away for five minutes with no screen, then start one card.");
    }
    assert(without(PICK_ONE_ADVICE@, '\n') && without(PICK_ONE_ADVICE@, 'q')) by {
        reveal_strlit("Close everything but one card and work only that for 25 minutes.");
    }
    assert(without(SHRINK_SCOPE_ADVICE@, '\n') && without(SHRINK_SCOPE_ADVICE@, 'q')) by {
        reveal_strlit("Pick the smallest card on the board and do only that.");
    }
    assert(without(WRAP_UP_ADVICE@, '\n') && without(WRAP_UP_ADVICE@, 'q')) by {
        reveal_strlit("Resolve the board — move what is done to Done — and stop here.");
    }
    assert(without(KEEP_GOING_ADVICE@, '\n') && without(KEEP_GOING_ADVICE@, 'q')) by {
        reveal_strlit("Take five minutes back, then continue on the same card.");
    }
    assert(without(STOP_FOR_TODAY_ADVICE@, '\n') && without(STOP_FOR_TODAY_ADVICE@, 'q')) by {
        reveal_strlit("Stop now rather than pushing on.");
    }
}

proof fn lemma_lookup(s: Seq<Recommendation<Seq<char>>>, id: Seq<char>)
    ensures
        match lookup(s, id) {
            Some(r) => s.contains(r) && r.id == id,
            None => true,
        },
    decreases s.len(),
{
    if s.len() > 0 {
        if s[0].id == id {
            assert(s.contains(s[0]));
        } else {
            lemma_lookup(s.drop_first(), id);
            if lookup(s.drop_first(), id) is Some {
                let r = lookup(s.drop_first(), id)->0;
                let k = choose|k: int|
                    0 <= k < s.drop_first().len() && s.drop_first()[k] == r;
                assert(s[k + 1] == r);
            }
        }
    }
}

} // verus!
