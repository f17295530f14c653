//! What the model is told of the board and of the time: each card on the line
//! of its column.

use vstd::prelude::*;

use crate::analysis::board_text;
use crate::analysis::titles_in;
use crate::models::Label;
use crate::models::Task;
use crate::observed::longest_first;
use crate::observed::total;
use crate::observed::AppTitles;
use crate::observed::Observed;
use crate::observed::Tally;
use crate::prompt::activity;
use crate::prompt::app_blocks;
use crate::prompt::duration;
use crate::prompt::is_other;
use crate::prompt::is_title;
use crate::prompt::minutes;
use crate::prompt::observed_block;
use crate::prompt::one_line;
use crate::prompt::prompt_text;
use crate::prompt::rest_line;
use crate::prompt::sanitized;
use crate::prompt::tamed;
use crate::prompt::title_lines;
use crate::prompt::titles_block;
use crate::prompt::titles_under;
use crate::prompt::Context;
use crate::round::half_even;
use crate::sort::Ranked;
use crate::text;
use crate::text::joined;
use crate::text::pieces;
use crate::text::without;

verus! {

broadcast use vstd::seq_lib::group_seq_properties;

/// The titles of the cards for which something holds, in the order of the
/// cards.
pub open spec fn titles_where(
    s: Seq<Task<Seq<char>, Seq<Label<Seq<char>>>>>,
    holds: spec_fn(Task<Seq<char>, Seq<Label<Seq<char>>>>) -> bool,
) -> Seq<Seq<char>> {
    s.filter(holds).map_values(|t: Task<Seq<char>, Seq<Label<Seq<char>>>>| t.title)
}

/// The titles with a bar between each two, or a dash where there are none.
pub open spec fn titles_or_dash(titles: Seq<Seq<char>>) -> Seq<char> {
    if titles.len() == 0 {
        "-"@
    } else {
        joined(titles, " | "@)
    }
}

pub open spec fn is_in(status: Seq<char>) -> spec_fn(
    Task<Seq<char>, Seq<Label<Seq<char>>>>,
) -> bool {
    |t: Task<Seq<char>, Seq<Label<Seq<char>>>>| t.status == status
}

pub open spec fn is_nowhere_else() -> spec_fn(Task<Seq<char>, Seq<Label<Seq<char>>>>) -> bool {
    |t: Task<Seq<char>, Seq<Label<Seq<char>>>>|
        t.status != "planned"@ && t.status != "doing"@ && t.status != "done"@
}

proof fn lemma_lane_names()
    ensures
        "planned"@ != "doing"@,
        "planned"@ != "done"@,
        "doing"@ != "done"@,
{
    reveal_strlit("planned");
    reveal_strlit("doing");
    reveal_strlit("done");
    assert("planned"@.len() == 7 && "doing"@.len() == 5 && "done"@.len() == 4);
}

proof fn lemma_titles(s: Seq<Task<Seq<char>, Seq<Label<Seq<char>>>>>)
    ensures
        titles_in(s, 0) == titles_where(s, is_in("planned"@)),
        titles_in(s, 1) == titles_where(s, is_in("doing"@)),
        titles_in(s, 2) == titles_where(s, is_in("done"@)),
        titles_in(s, 3) == titles_where(s, is_nowhere_else()),
    decreases s.len(),
{
    reveal(Seq::filter);
    lemma_lane_names();
    if s.len() > 0 {
        let rest = s.drop_last();
        lemma_titles(rest);
        lemma_titles_push(rest, s.last(), is_in("planned"@));
        lemma_titles_push(rest, s.last(), is_in("doing"@));
        lemma_titles_push(rest, s.last(), is_in("done"@));
        lemma_titles_push(rest, s.last(), is_nowhere_else());
        assert(rest.push(s.last()) =~= s);
    } else {
        assert(titles_where(s, is_in("planned"@)) =~= seq![]);
        assert(titles_where(s, is_in("doing"@)) =~= seq![]);
        assert(titles_where(s, is_in("done"@)) =~= seq![]);
        assert(titles_where(s, is_nowhere_else()) =~= seq![]);
    }
}

proof fn lemma_titles_push(
    s: Seq<Task<Seq<char>, Seq<Label<Seq<char>>>>>,
    t: Task<Seq<char>, Seq<Label<Seq<char>>>>,
    holds: spec_fn(Task<Seq<char>, Seq<Label<Seq<char>>>>) -> bool,
)
    ensures
        titles_where(s.push(t), holds) == if holds(t) {
            titles_where(s, holds).push(t.title)
        } else {
            titles_where(s, holds)
        },
{
    reveal(Seq::filter);
    assert(s.push(t).drop_last() =~= s);
    if holds(t) {
        assert(s.push(t).filter(holds) =~= s.filter(holds).push(t));
        assert(titles_where(s.push(t), holds) =~= titles_where(s, holds).push(t.title));
    }
}

/// The board is told a line for each column, and the line of a column holds
/// the titles of the cards that are in it, in the order of the cards: those
/// that are planned behind `todo:`, those in hand behind `doing:`, those that
/// are done behind `done:`, and the rest behind `dropped:`.
pub proof fn each_card_is_told_in_its_column(s: Seq<Task<Seq<char>, Seq<Label<Seq<char>>>>>)
    ensures
        board_text(s) == "todo"@ + ": "@ + titles_or_dash(titles_where(s, is_in("planned"@)))
            + "\n"@ + ("doing"@ + ": "@ + titles_or_dash(titles_where(s, is_in("doing"@)))) + "\n"@
            + ("done"@ + ": "@ + titles_or_dash(titles_where(s, is_in("done"@)))) + "\n"@ + (
        "dropped"@ + ": "@ + titles_or_dash(titles_where(s, is_nowhere_else()))),
{
    lemma_titles(s);
}

/// Where no title breaks a line, the board is told in exactly four lines.
pub proof fn the_board_is_told_in_four_lines(s: Seq<Task<Seq<char>, Seq<Label<Seq<char>>>>>)
    requires
        forall|i: int| 0 <= i < s.len() ==> without((#[trigger] s[i]).title, '\n'),
    ensures
        pieces(board_text(s), '\n') == seq![
            "todo"@ + ": "@ + titles_or_dash(titles_where(s, is_in("planned"@))),
            "doing"@ + ": "@ + titles_or_dash(titles_where(s, is_in("doing"@))),
            "done"@ + ": "@ + titles_or_dash(titles_where(s, is_in("done"@))),
            "dropped"@ + ": "@ + titles_or_dash(titles_where(s, is_nowhere_else())),
        ],
{
    each_card_is_told_in_its_column(s);
    reveal_strlit("todo");
    reveal_strlit("doing");
    reveal_strlit("done");
    reveal_strlit("dropped");
    reveal_strlit(": ");
    reveal_strlit("\n");
    let a = "todo"@ + ": "@ + titles_or_dash(titles_where(s, is_in("planned"@)));
    let b = "doing"@ + ": "@ + titles_or_dash(titles_where(s, is_in("doing"@)));
    let c = "done"@ + ": "@ + titles_or_dash(titles_where(s, is_in("done"@)));
    let d = "dropped"@ + ": "@ + titles_or_dash(titles_where(s, is_nowhere_else()));
    lemma_line("todo"@, s, is_in("planned"@));
    lemma_line("doing"@, s, is_in("doing"@));
    lemma_line("done"@, s, is_in("done"@));
    lemma_line("dropped"@, s, is_nowhere_else());
    let lines = seq![a, b, c, d];
    assert forall|i: int| 0 <= i < lines.len() implies without(#[trigger] lines[i], '\n') by {}
    text::lemma_pieces_joined(lines, '\n');
    reveal_with_fuel(joined, 5);
    assert("\n"@ =~= seq!['\n']);
    assert(lines.drop_last() =~= seq![a, b, c]);
    assert(seq![a, b, c].drop_last() =~= seq![a, b]);
    assert(seq![a, b].drop_last() =~= seq![a]);
    assert(joined(lines, seq!['\n']) =~= a + "\n"@ + b + "\n"@ + c + "\n"@ + d);
}

proof fn lemma_line(
    name: Seq<char>,
    s: Seq<Task<Seq<char>, Seq<Label<Seq<char>>>>>,
    holds: spec_fn(Task<Seq<char>, Seq<Label<Seq<char>>>>) -> bool,
)
    requires
        without(name, '\n'),
        forall|i: int| 0 <= i < s.len() ==> without((#[trigger] s[i]).title, '\n'),
    ensures
        without(name + ": "@ + titles_or_dash(titles_where(s, holds)), '\n'),
{
    let titles = titles_where(s, holds);
    reveal_strlit(": ");
    reveal_strlit(" | ");
    reveal_strlit("-");
    assert forall|i: int| 0 <= i < titles.len() implies without(#[trigger] titles[i], '\n') by {
        let kept = s.filter(holds);
        assert(kept.contains(kept[i]));
        s.lemma_filter_contains_rev(holds, kept[i]);
        let k = choose|k: int| 0 <= k < s.len() && s[k] == kept[i];
        assert(without(s[k].title, '\n'));
    }
    text::lemma_joined_without(titles, " | "@, '\n');
    let told = titles_or_dash(titles);
    assert(without(told, '\n'));
    let line = name + ": "@ + told;
    assert forall|i: int| 0 <= i < line.len() implies #[trigger] line[i] != '\n' by {
        if i < name.len() {
            assert(line[i] == name[i]);
        } else if i < name.len() + ": "@.len() {
            assert(line[i] == ": "@[i - name.len()]);
        } else {
            assert(line[i] == told[i - name.len() - ": "@.len()]);
        }
    }
}

// --------------------------------------------------------------- the time spent

/// A quotient is rounded to the nearest whole number, and from the middle
/// between two to the even one.
pub proof fn rounding_goes_to_the_nearest(n: nat, d: nat, q: nat)
    requires
        d > 0,
    ensures
        2 * q * d < 2 * n + d && 2 * n < 2 * q * d + d ==> half_even(n, d) == q,
        2 * n == 2 * q * d + d ==> half_even(n, d) == if q % 2 == 0 {
            q
        } else {
            q + 1
        },
{
    assert(2 * q * d == 2 * (q * d)) by (nonlinear_arith);
    if 2 * q * d < 2 * n + d && 2 * n < 2 * q * d + d {
        if n >= q * d {
            lemma_quotient(n, d, q, (n - q * d) as nat);
        } else {
            assert(q > 0) by (nonlinear_arith)
                requires
                    n < q * d,
            ;
            let p = (q - 1) as nat;
            assert(q * d == p * d + d) by (nonlinear_arith)
                requires
                    q == p + 1,
            ;
            lemma_quotient(n, d, p, (n - p * d) as nat);
        }
    }
    if 2 * n == 2 * q * d + d {
        lemma_quotient(n, d, q, (n - q * d) as nat);
    }
}

proof fn lemma_quotient(n: nat, d: nat, q: nat, r: nat)
    requires
        n == q * d + r,
        r < d,
    ensures
        n / d == q,
        n % d == r,
{
    vstd::arithmetic::div_mod::lemma_fundamental_div_mod_converse(
        n as int,
        d as int,
        q as int,
        r as int,
    );
}

/// Less than a minute is told in seconds, the rest in minutes.
pub proof fn a_duration_is_told_in_seconds_or_minutes(ms: nat, away: int)
    ensures
        ms < 60_000 ==> duration(ms) == text::digits(half_even(ms, 1_000)) + "s"@,
        ms >= 60_000 ==> duration(ms) == text::digits(half_even(ms, 60_000)) + "m"@,
        away >= 0 ==> minutes(away) == text::digits(half_even(away as nat, 60_000)),
        away < 0 ==> minutes(away) == seq!['-'] + text::digits(half_even((-away) as nat, 60_000)),
{
}

// -------------------------------------------------------------------- the titles

/// Every character of a title is told as it is, but for a double quote, which
/// becomes a single one, and what is whitespace or a control character, which
/// becomes a space.
pub proof fn a_title_is_told_character_by_character(a: Seq<char>, c: char, b: Seq<char>)
    ensures
        tamed(a + b) == tamed(a) + tamed(b),
        c == '"' ==> tamed(seq![c]) == seq!['\''],
        text::white(c) || text::control(c) ==> tamed(seq![c]) == seq![' '],
        c != '"' && !text::white(c) && !text::control(c) ==> tamed(seq![c]) == seq![c],
{
    assert(tamed(a + b) =~= tamed(a) + tamed(b));
    assert(tamed(seq![c]) =~= seq![tamed(seq![c])[0]]);
}

/// A title of up to 120 characters is told whole, in quotes; of a longer one
/// the beginning is told, with dots behind it; an empty one is called untitled.
pub proof fn a_title_is_told_in_quotes(title: Seq<char>)
    ensures
        sanitized(title) == seq!['"'] + one_line(title) + seq!['"'],
        ({
            let flat = joined(text::words(tamed(title)), seq![' ']);
            &&& 0 < flat.len() <= 120 ==> one_line(title) == flat
            &&& flat.len() == 0 ==> one_line(title) == "(untitled)"@
            &&& flat.len() > 120 ==> one_line(title) == text::trimmed_end(flat.take(120)) + seq![
                '…',
            ]
        }),
{
    let flat = joined(text::words(tamed(title)), seq![' ']);
    if flat.len() > 120 {
        assert(text::trimmed_end(flat.take(120)).push('…') =~= text::trimmed_end(flat.take(120))
            + seq!['…']);
    }
}

/// The line of a title.
pub open spec fn title_line(t: Tally<Seq<char>>) -> Seq<char> {
    "    "@ + sanitized(t.name) + " "@ + duration(t.ms as nat) + "\n"@
}

/// Each title has its line, one after the other.
pub proof fn titles_are_told_line_by_line(a: Seq<Tally<Seq<char>>>, t: Tally<Seq<char>>)
    ensures
        title_lines(Seq::empty()) == Seq::<char>::empty(),
        title_lines(a.push(t)) == title_lines(a) + title_line(t),
{
    assert(a.push(t).drop_last() =~= a);
    assert(title_lines(a.push(t)) =~= title_lines(a) + title_line(t));
}

/// What is not shown is told in one line: how many titles, where that is known,
/// a plus where there were more before, and the time they took together.
pub proof fn the_rest_is_told_in_one_line(n: nat, rolled: nat, rest: nat)
    ensures
        rest == 0 ==> rest_line(n, rolled, rest) == Seq::<char>::empty(),
        rest > 0 && n == 0 ==> rest_line(n, rolled, rest) == "    ("@ + "more titles"@ + ") "@
            + duration(rest) + "\n"@,
        rest > 0 && n > 0 && rolled == 0 ==> rest_line(n, rolled, rest) == "    ("@ + (text::digits(
            n,
        ) + " more titles"@) + ") "@ + duration(rest) + "\n"@,
        rest > 0 && n > 0 && rolled > 0 ==> rest_line(n, rolled, rest) == "    ("@ + (text::digits(
            n,
        ) + "+ more titles"@) + ") "@ + duration(rest) + "\n"@,
{
}

/// The one comes no later than the other: it lasted longer, or as long and its
/// name is no later.
pub open spec fn comes_first(a: Tally<Seq<char>>, b: Tally<Seq<char>>) -> bool {
    b.ms < a.ms || (b.ms == a.ms && !text::before(b.name, a.name))
}

/// A list in the order of the time spent, the longest first, and where that is
/// equal in the order of the names.
pub open spec fn longest_come_first(s: Seq<Tally<Seq<char>>>) -> bool {
    forall|i: int, j: int|
        0 <= i < j < s.len() ==> comes_first(#[trigger] s[i], #[trigger] s[j])
}

proof fn lemma_ranked(s: Seq<Tally<Seq<char>>>)
    ensures
        longest_come_first(s.sort_by(longest_first())),
        s.sort_by(longest_first()).to_multiset() == s.to_multiset(),
        s.sort_by(longest_first()).len() == s.len(),
        vstd::relations::sorted_by(s.sort_by(longest_first()), longest_first()),
{
    broadcast use vstd::seq_lib::group_to_multiset_ensures;

    let r = s.sort_by(longest_first());
    Tally::total();
    s.lemma_sort_by_ensures(longest_first());
    assert(r.to_multiset().len() == s.to_multiset().len());
    assert forall|i: int, j: int| 0 <= i < j < r.len() implies comes_first(
        #[trigger] r[i],
        #[trigger] r[j],
    ) by {
        assert(longest_first()(r[i], r[j]));
    }
}

proof fn lemma_filter_ranked(s: Seq<Tally<Seq<char>>>, keep: spec_fn(Tally<Seq<char>>) -> bool)
    requires
        longest_come_first(s),
    ensures
        longest_come_first(s.filter(keep)),
    decreases s.len(),
{
    reveal(Seq::filter);
    if s.len() > 0 {
        let r = s.drop_last();
        assert forall|i: int, j: int| 0 <= i < j < r.len() implies comes_first(
            #[trigger] r[i],
            #[trigger] r[j],
        ) by {
            assert(r[i] == s[i] && r[j] == s[j]);
        }
        lemma_filter_ranked(r, keep);
        let f = r.filter(keep);
        let t = s.filter(keep);
        assert forall|i: int, j: int| 0 <= i < j < t.len() implies comes_first(
            #[trigger] t[i],
            #[trigger] t[j],
        ) by {
            assert(t[i] == f[i]);
            if j < f.len() {
                assert(t[j] == f[j]);
            } else {
                assert(f.contains(f[i]));
                r.lemma_filter_contains_rev(keep, f[i]);
                let k = choose|k: int| 0 <= k < r.len() && r[k] == f[i];
                assert(comes_first(s[k], s[s.len() - 1]));
            }
        }
    }
}

proof fn lemma_filter_multiset(
    s: Seq<Tally<Seq<char>>>,
    t: Seq<Tally<Seq<char>>>,
    keep: spec_fn(Tally<Seq<char>>) -> bool,
)
    requires
        s.to_multiset() == t.to_multiset(),
    ensures
        s.filter(keep).to_multiset() == t.filter(keep).to_multiset(),
{
    lemma_filter_counts(s, keep);
    lemma_filter_counts(t, keep);
    assert(s.filter(keep).to_multiset() =~= t.filter(keep).to_multiset()) by {
        assert forall|x: Tally<Seq<char>>| s.filter(keep).to_multiset().count(x) == t.filter(
            keep,
        ).to_multiset().count(x) by {
            assert(s.to_multiset().count(x) == t.to_multiset().count(x));
        }
    }
}

proof fn lemma_filter_counts(s: Seq<Tally<Seq<char>>>, keep: spec_fn(Tally<Seq<char>>) -> bool)
    ensures
        forall|x: Tally<Seq<char>>| #[trigger]
            s.filter(keep).to_multiset().count(x) == if keep(x) {
                s.to_multiset().count(x)
            } else {
                0
            },
    decreases s.len(),
{
    broadcast use vstd::seq_lib::group_to_multiset_ensures;

    reveal(Seq::filter);
    if s.len() > 0 {
        let (r, l) = (s.drop_last(), s.last());
        lemma_filter_counts(r, keep);
        let f = r.filter(keep);
        assert(s =~= r.push(l));
        assert forall|x: Tally<Seq<char>>| #[trigger] s.filter(keep).to_multiset().count(x)
            == if keep(x) {
            s.to_multiset().count(x)
        } else {
            0
        } by {
            assert(f.to_multiset().count(x) == if keep(x) {
                r.to_multiset().count(x)
            } else {
                0
            });
            assert(r.push(l).to_multiset() =~= r.to_multiset().insert(l));
            if keep(l) {
                assert(s.filter(keep) =~= f.push(l));
                assert(f.push(l).to_multiset() =~= f.to_multiset().insert(l));
            }
        }
    }
}

/// The titles that have a name of their own.
pub open spec fn has_a_name() -> spec_fn(Tally<Seq<char>>) -> bool {
    |t: Tally<Seq<char>>| t.name != "(other)"@
}

/// The entries that stand for titles rolled up before.
pub open spec fn stands_for_more() -> spec_fn(Tally<Seq<char>>) -> bool {
    |t: Tally<Seq<char>>| t.name == "(other)"@
}

/// Of an application the five titles that ran longest are told, a line each,
/// the longest first, and what is left of its time in one more line.
pub proof fn the_five_longest_titles_are_told(titles: Seq<Tally<Seq<char>>>) -> (own: Seq<
    Tally<Seq<char>>,
>)
    ensures
        longest_come_first(own),
        own.to_multiset() == titles.filter(has_a_name()).to_multiset(),
        own.len() <= 5 ==> titles_block(titles) == title_lines(own) + rest_line(
            0,
            total(titles.filter(stands_for_more())),
            total(titles.filter(stands_for_more())),
        ),
        own.len() > 5 ==> titles_block(titles) == title_lines(own.take(5)) + rest_line(
            (own.len() - 5) as nat,
            total(titles.filter(stands_for_more())),
            total(own.skip(5)) + total(titles.filter(stands_for_more())),
        ),
{
    let ranked = titles.sort_by(longest_first());
    let own = ranked.filter(is_title());
    lemma_ranked(titles);
    lemma_filter_ranked(ranked, is_title());
    assert(is_title() =~= has_a_name());
    assert(is_other() =~= stands_for_more());
    lemma_filter_multiset(ranked, titles, has_a_name());
    lemma_filter_multiset(ranked, titles, stands_for_more());
    crate::observed::lemma_total_permuted(
        titles.filter(stands_for_more()),
        ranked.filter(stands_for_more()),
    );
    if own.len() <= 5 {
        assert(own.take(own.len() as int) =~= own);
        assert(own.skip(own.len() as int) =~= seq![]);
        assert(total(seq![]) == 0);
    }
    own
}

/// The titles told under an application are those of its first entry.
pub proof fn titles_are_told_under_their_application(
    s: Seq<AppTitles<Seq<char>, Seq<Tally<Seq<char>>>>>,
    app: Seq<char>,
    k: int,
)
    requires
        0 <= k <= s.len(),
        forall|i: int| 0 <= i < k ==> (#[trigger] s[i]).app != app,
    ensures
        k == s.len() ==> titles_under(s, app) == Seq::<Tally<Seq<char>>>::empty(),
        k < s.len() && s[k].app == app ==> titles_under(s, app) == s[k].titles,
    decreases k,
{
    if k > 0 {
        let rest = s.drop_first();
        assert(s[0].app != app);
        assert forall|i: int| 0 <= i < k - 1 implies (#[trigger] rest[i]).app != app by {
            assert(rest[i] == s[i + 1]);
        }
        titles_are_told_under_their_application(rest, app, k - 1);
    }
}

/// The applications are told one after the other, each with its time and its
/// titles.
pub proof fn applications_are_told_one_after_the_other(
    a: Seq<Tally<Seq<char>>>,
    t: Tally<Seq<char>>,
    titles: Seq<AppTitles<Seq<char>, Seq<Tally<Seq<char>>>>>,
)
    ensures
        app_blocks(Seq::empty(), titles) == Seq::<char>::empty(),
        app_blocks(a.push(t), titles) == app_blocks(a, titles) + ("- "@ + t.name + " "@ + duration(
            t.ms as nat,
        ) + "\n"@ + titles_block(titles_under(titles, t.name))),
{
    assert(a.push(t).drop_last() =~= a);
}

/// The eight applications that ran longest are told, the longest first; where
/// nothing was recorded, that is told.
pub proof fn the_eight_busiest_applications_are_told(
    o: Observed<Seq<Tally<Seq<char>>>, Seq<AppTitles<Seq<char>, Seq<Tally<Seq<char>>>>>>,
) -> (apps: Seq<Tally<Seq<char>>>)
    ensures
        longest_come_first(apps),
        apps.to_multiset() == o.per_app.to_multiset(),
        apps.len() == o.per_app.len(),
        apps.len() == 0 ==> observed_block(o) == "(nothing recorded)"@,
        0 < apps.len() <= 8 ==> observed_block(o) == text::trimmed_end(
            app_blocks(apps, o.per_title),
        ),
        apps.len() > 8 ==> observed_block(o) == text::trimmed_end(
            app_blocks(apps.take(8), o.per_title),
        ),
{
    let ranked = o.per_app.sort_by(longest_first());
    lemma_ranked(o.per_app);
    if ranked.len() == 8 {
        assert(ranked.take(8) =~= ranked);
    }
    ranked
}

// -------------------------------------------------------------------- the prompt

/// The model is told what the session is for, unless nothing was said; how
/// long it has been and was meant to be; the board; what was observed of the
/// stretch; the session so far and the check before, where there are any.
pub proof fn what_the_model_is_told(ctx: Context)
    ensures
        activity(ctx.window.active_ms, ctx.window.afk_ms) == "active "@ + minutes(
            ctx.window.active_ms as int,
        ) + "m, away "@ + minutes(ctx.window.afk_ms as int) + "m"@,
        prompt_text(ctx) == (if text::trimmed(ctx.statement@).len() == 0 {
            seq![]
        } else {
            "Intent: "@ + ctx.statement@ + "\n"@
        }) + "Session length so far: "@ + text::decimal(ctx.elapsed_minutes as int) + " min"@ + (
        match ctx.intended_minutes {
            Some(n) => " (intended "@ + text::decimal(n as int) + ")"@,
            None => seq![],
        }) + "\n\nBoard:\n"@ + ctx.board_lines@ + "\n\nObserved in the last "@ + text::decimal(
            ctx.window_minutes as int,
        ) + " min ("@ + ("active "@ + minutes(ctx.window.active_ms as int) + "m, away "@ + minutes(
            ctx.window.afk_ms as int,
        ) + "m"@) + "):\n"@ + observed_block(ctx.window.deep_view()) + "\n"@ + (
        match ctx.session_total {
            Some(t) => "\nWhole session so far: "@ + ("active "@ + minutes(t.active_ms as int)
                + "m, away "@ + minutes(t.afk_ms as int) + "m"@) + ".\n"@,
            None => seq![],
        }) + (match ctx.previous {
            Some((headline, alignment)) => "\nPrevious check: \""@ + headline@ + "\""@ + (
            match alignment {
                Some(n) => " (alignment "@ + text::decimal(n as int) + ")"@,
                None => seq![],
            }) + "\n"@,
            None => seq![],
        }),
{
}

} // verus!
