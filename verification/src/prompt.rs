//! What the model is told of a stretch of work: the intent, the board, and the
//! applications and window titles that were seen.
//!
//! Titles are arbitrary text written by web pages and documents. Each is kept
//! on its own line and inside its own quotes, so that none can forge a row of
//! the block.

use vstd::prelude::*;

use crate::observed;
use crate::observed::longest_first;
use crate::observed::total;
use crate::observed::AppTitles;
use crate::observed::Observed;
use crate::observed::Tally;
use crate::observed::OTHER;
use crate::round::half_even;
use crate::round::round_half_even;
use crate::sort;
use crate::sort::deep;
use crate::sort::Ranked;
use crate::text;
use crate::text::control;
use crate::text::decimal;
use crate::text::digits;
use crate::text::white;

verus! {

broadcast use vstd::seq_lib::group_seq_properties;

pub const TOP_APPS: usize = 8;

pub const TOP_TITLES_PER_APP: usize = 5;

pub const MAX_TITLE_CHARS: usize = 120;

// -------------------------------------------------------------------- durations

/// Seconds under a minute, minutes from there on: a title is often under a
/// minute, and "0m" would mislead.
pub open spec fn duration(ms: nat) -> Seq<char> {
    if ms < 60_000 {
        digits(half_even(ms, 1000)) + "s"@
    } else {
        digits(half_even(ms, 60_000)) + "m"@
    }
}

pub fn fmt_dur(ms: u128) -> (r: String)
    ensures
        r@ == duration(ms as nat),
{
    if ms < 60_000 {
        text::cat2(text::of_u128(round_half_even(ms, 1000)).as_str(), "s")
    } else {
        text::cat2(text::of_u128(round_half_even(ms, 60_000)).as_str(), "m")
    }
}

/// Whole minutes.
pub open spec fn minutes(ms: int) -> Seq<char> {
    if ms < 0 {
        seq!['-'] + digits(half_even((-ms) as nat, 60_000))
    } else {
        digits(half_even(ms as nat, 60_000))
    }
}

fn fmt_minutes(ms: u128) -> (r: String)
    ensures
        r@ == minutes(ms as int),
{
    text::of_u128(round_half_even(ms, 60_000))
}

fn fmt_away(ms: i128) -> (r: String)
    ensures
        r@ == minutes(ms as int),
{
    if ms < 0 {
        let size: u128 = if ms == i128::MIN {
            0x8000_0000_0000_0000_0000_0000_0000_0000
        } else {
            (-ms) as u128
        };
        let mut r = String::new();
        r.push('-');
        r.append(text::of_u128(round_half_even(size, 60_000)).as_str());
        r
    } else {
        fmt_minutes(ms as u128)
    }
}

// ----------------------------------------------------------------------- titles

/// A character as it stands between quotes on one line.
pub open spec fn tame(c: char) -> char {
    if c == '"' {
        '\''
    } else if control(c) || white(c) {
        ' '
    } else {
        c
    }
}

pub open spec fn tamed(s: Seq<char>) -> Seq<char> {
    Seq::new(s.len(), |i: int| tame(s[i]))
}

/// A title's words on one line, cut at a length and never empty.
pub open spec fn one_line(title: Seq<char>) -> Seq<char> {
    let flat = text::flattened(tamed(title));
    if flat.len() > MAX_TITLE_CHARS {
        text::trimmed_end(flat.take(MAX_TITLE_CHARS as int)).push('…')
    } else if flat.len() == 0 {
        "(untitled)"@
    } else {
        flat
    }
}

pub open spec fn sanitized(title: Seq<char>) -> Seq<char> {
    seq!['"'] + one_line(title) + seq!['"']
}

fn tame_all(s: &str) -> (r: Vec<char>)
    ensures
        r@ == tamed(s@),
{
    let v = text::chars_of(s);
    let mut r: Vec<char> = Vec::new();
    let mut i: usize = 0;
    while i < v.len()
        invariant
            i <= v.len(),
            v@ == s@,
            r.len() == i,
            forall|j: int| 0 <= j < i ==> #[trigger] r@[j] == tame(v@[j]),
        decreases v.len() - i,
    {
        let c = v[i];
        if c == '"' {
            r.push('\'');
        } else if text::is_control(c) || text::is_white(c) {
            r.push(' ');
        } else {
            r.push(c);
        }
        i = i + 1;
    }
    proof {
        assert(r@ =~= tamed(s@));
    }
    r
}

/// A title as it is shown: flattened, its quotes turned, cut, and quoted.
pub fn sanitize_title(title: &str) -> (r: String)
    ensures
        r@ == sanitized(title@),
{
    let flat = text::flatten(&tame_all(title));
    let n = text::count(flat.as_str());
    let clean = if n > MAX_TITLE_CHARS {
        let mut cut = text::trim_end(text::take(flat.as_str(), MAX_TITLE_CHARS).as_str());
        cut.push('…');
        cut
    } else if n == 0 {
        text::owned("(untitled)")
    } else {
        flat
    };
    let mut r = String::new();
    r.push('"');
    r.append(clean.as_str());
    r.push('"');
    proof {
        assert(r@ =~= sanitized(title@));
    }
    r
}

/// A shown title is one line between two quotes: no other quote is in it, no
/// control character, and no whitespace but spaces.
pub proof fn a_title_keeps_to_its_line_and_quotes(title: Seq<char>, i: int)
    requires
        0 <= i < sanitized(title).len(),
    ensures
        sanitized(title)[i] == '"' <==> (i == 0 || i == sanitized(title).len() - 1),
        !control(sanitized(title)[i]),
        white(sanitized(title)[i]) ==> sanitized(title)[i] == ' ',
        2 < sanitized(title).len() <= MAX_TITLE_CHARS + 3,
{
    let flat = text::flattened(tamed(title));
    let mid = one_line(title);
    assert forall|k: int| 0 <= k < flat.len() implies #[trigger] flat[k] == ' ' || (flat[k] != '"'
        && !control(flat[k]) && !white(flat[k])) by {
        text::lemma_flattened_chars(tamed(title), k);
    }
    if flat.len() > MAX_TITLE_CHARS {
        let head = flat.take(MAX_TITLE_CHARS as int);
        text::lemma_trimmed_end(head);
        let cut = text::trimmed_end(head);
        assert forall|k: int| 0 <= k < cut.len() implies #[trigger] cut[k] == flat[k] by {
            assert(cut[k] == head[k]);
        }
    } else if flat.len() == 0 {
        reveal_strlit("(untitled)");
    }
    assert(mid.len() > 0);
    if 0 < i < sanitized(title).len() - 1 {
        assert(sanitized(title)[i] == mid[i - 1]);
    }
}

/// The words of each of some texts once it is tamed, one after the other.
spec fn tamed_words(s: Seq<Seq<char>>) -> Seq<Seq<char>>
    decreases s.len(),
{
    if s.len() == 0 {
        seq![]
    } else {
        text::words(tamed(s[0])) + tamed_words(s.drop_first())
    }
}

proof fn lemma_tamed_words(s: Seq<char>)
    ensures
        text::words(tamed(s)) == tamed_words(text::words(s)),
    decreases s.len(),
{
    if s.len() == 0 {
        assert(tamed(s) =~= s);
    } else {
        text::lemma_words_step(s);
        if white(s[0]) {
            let d = s.drop_first();
            assert(tamed(s)[0] == ' ');
            text::lemma_words_step(tamed(s));
            assert(tamed(s).drop_first() =~= tamed(d));
            lemma_tamed_words(d);
        } else {
            let n = text::word_len(s) as int;
            let (w, d) = (s.take(n), s.skip(n));
            text::lemma_word_len(s);
            lemma_tamed_words(d);
            assert(tamed(s) =~= tamed(w) + tamed(d));
            if d.len() > 0 {
                assert(d[0] == s[n] && tamed(d)[0] == ' ');
            }
            text::lemma_words_concat(tamed(w), tamed(d));
            let all = seq![w] + text::words(d);
            assert(all.drop_first() =~= text::words(d));
        }
    }
}

/// Only the words of a title count, never the line breaks, tabs or runs of
/// spaces between or around them; one without any words is untitled.
pub proof fn only_the_words_of_a_title_count(a: Seq<char>, b: Seq<char>)
    requires
        text::words(a) == text::words(b),
    ensures
        sanitized(a) == sanitized(b),
        text::words(a).len() == 0 ==> sanitized(a) == "\"(untitled)\""@,
{
    lemma_tamed_words(a);
    lemma_tamed_words(b);
    if text::words(a).len() == 0 {
        assert(text::flattened(tamed(a)).len() == 0);
        reveal_strlit("(untitled)");
        reveal_strlit("\"(untitled)\"");
        assert(sanitized(a) =~= "\"(untitled)\""@);
    }
}

// ----------------------------------------------------------- the observed block

pub open spec fn is_other() -> spec_fn(Tally<Seq<char>>) -> bool {
    |t: Tally<Seq<char>>| t.name == OTHER@
}

pub open spec fn is_title() -> spec_fn(Tally<Seq<char>>) -> bool {
    |t: Tally<Seq<char>>| t.name != OTHER@
}

/// A line for each title.
pub open spec fn title_lines(s: Seq<Tally<Seq<char>>>) -> Seq<char>
    decreases s.len(),
{
    if s.len() == 0 {
        seq![]
    } else {
        title_lines(s.drop_last()) + "    "@ + sanitized(s.last().name) + " "@ + duration(
            s.last().ms as nat,
        ) + "\n"@
    }
}

/// How the titles that are not shown are named. Those rolled up before count
/// as an unknown number of them, hence the plus.
pub open spec fn rest_label(n: nat, rolled: nat) -> Seq<char> {
    if n == 0 {
        "more titles"@
    } else if rolled > 0 {
        digits(n) + "+ more titles"@
    } else {
        digits(n) + " more titles"@
    }
}

/// The line for the titles that are not shown, where they took any time.
pub open spec fn rest_line(n: nat, rolled: nat, rest: nat) -> Seq<char> {
    if rest == 0 {
        seq![]
    } else {
        "    ("@ + rest_label(n, rolled) + ") "@ + duration(rest) + "\n"@
    }
}

/// An application's titles: the longest-running ones by name, then the rest in
/// one line.
pub open spec fn titles_block(titles: Seq<Tally<Seq<char>>>) -> Seq<char> {
    let ranked = titles.sort_by(longest_first());
    let rolled = total(ranked.filter(is_other()));
    let own = ranked.filter(is_title());
    let shown = if own.len() < TOP_TITLES_PER_APP {
        own.len() as int
    } else {
        TOP_TITLES_PER_APP as int
    };
    title_lines(own.take(shown)) + rest_line(
        (own.len() - shown) as nat,
        rolled,
        total(own.skip(shown)) + rolled,
    )
}

proof fn lemma_parted_total(s: Seq<Tally<Seq<char>>>)
    ensures
        total(s.filter(is_title())) + total(s.filter(is_other())) == total(s),
    decreases s.len(),
{
    reveal(Seq::filter);
    if s.len() > 0 {
        let r = s.drop_last();
        let x = s.last();
        lemma_parted_total(r);
        let (a, b) = (r.filter(is_title()), r.filter(is_other()));
        assert(a.push(x).drop_last() =~= a);
        assert(b.push(x).drop_last() =~= b);
        if x.name == OTHER@ {
            assert(s.filter(is_title()) == a && s.filter(is_other()) == b.push(x));
        } else {
            assert(s.filter(is_title()) == a.push(x) && s.filter(is_other()) == b);
        }
    }
}

/// Nothing is dropped from an application's titles: the first ones of the
/// ranking and the remainder, with what was rolled up before, sum to its total.
pub proof fn shown_titles_and_the_rest_sum(titles: Seq<Tally<Seq<char>>>, shown: int)
    requires
        0 <= shown <= titles.sort_by(longest_first()).filter(is_title()).len(),
    ensures
        ({
            let ranked = titles.sort_by(longest_first());
            let own = ranked.filter(is_title());
            total(own.take(shown)) + total(own.skip(shown)) + total(ranked.filter(is_other()))
                == total(titles)
        }),
{
    let ranked = titles.sort_by(longest_first());
    let own = ranked.filter(is_title());
    Tally::total();
    titles.lemma_sort_by_ensures(longest_first());
    observed::lemma_total_permuted(titles, ranked);
    lemma_parted_total(ranked);
    assert(own =~= own.take(shown) + own.skip(shown));
    observed::lemma_total_concat(own.take(shown), own.skip(shown));
}

/// The titles under an application; none where it has no entry.
pub open spec fn titles_under(
    s: Seq<AppTitles<Seq<char>, Seq<Tally<Seq<char>>>>>,
    app: Seq<char>,
) -> Seq<Tally<Seq<char>>>
    decreases s.len(),
{
    if s.len() == 0 {
        seq![]
    } else if s[0].app == app {
        s[0].titles
    } else {
        titles_under(s.drop_first(), app)
    }
}

/// A block for each application.
pub open spec fn app_blocks(
    apps: Seq<Tally<Seq<char>>>,
    titles: Seq<AppTitles<Seq<char>, Seq<Tally<Seq<char>>>>>,
) -> Seq<char>
    decreases apps.len(),
{
    if apps.len() == 0 {
        seq![]
    } else {
        app_blocks(apps.drop_last(), titles) + ("- "@ + apps.last().name + " "@ + duration(
            apps.last().ms as nat,
        ) + "\n"@ + titles_block(titles_under(titles, apps.last().name)))
    }
}

/// The busiest applications, each with the titles that made up its time.
pub open spec fn observed_block(
    o: Observed<Seq<Tally<Seq<char>>>, Seq<AppTitles<Seq<char>, Seq<Tally<Seq<char>>>>>>,
) -> Seq<char> {
    let ranked = o.per_app.sort_by(longest_first());
    let apps = if ranked.len() < TOP_APPS {
        ranked
    } else {
        ranked.take(TOP_APPS as int)
    };
    if apps.len() == 0 {
        "(nothing recorded)"@
    } else {
        text::trimmed_end(app_blocks(apps, o.per_title))
    }
}

/// The time of each application's titles can be added up.
pub open spec fn addable(o: Observed) -> bool {
    forall|i: int|
        0 <= i < o.per_title@.len() ==> total(deep((#[trigger] o.per_title@[i]).titles@))
            <= u128::MAX
}

fn copy_tallies(v: &Vec<Tally>) -> (r: Vec<Tally>)
    ensures
        deep(r@) == deep(v@),
{
    let mut r: Vec<Tally> = Vec::new();
    let mut i: usize = 0;
    while i < v.len()
        invariant
            i <= v.len(),
            r.len() == i,
            forall|j: int| 0 <= j < i ==> #[trigger] deep(r@)[j] == deep(v@)[j],
        decreases v.len() - i,
    {
        let ghost before = r@;
        r.push(Tally { name: text::owned(v[i].name.as_str()), ms: v[i].ms });
        proof {
            assert forall|j: int| 0 <= j < i + 1 implies #[trigger] deep(r@)[j] == deep(v@)[j] by {
                if j < i {
                    assert(deep(before)[j] == deep(v@)[j]);
                }
            }
        }
        i = i + 1;
    }
    proof {
        assert(deep(r@) =~= deep(v@));
    }
    r
}

/// Writes a line for each of the first titles.
fn write_titles(v: &Vec<Tally>, shown: usize) -> (r: String)
    requires
        shown <= v@.len(),
    ensures
        r@ == title_lines(deep(v@).take(shown as int)),
{
    let ghost s = deep(v@);
    let mut r = String::new();
    let mut i: usize = 0;
    proof {
        assert(s.take(0) =~= seq![]);
    }
    while i < shown
        invariant
            i <= shown <= v.len(),
            s == deep(v@),
            r@ == title_lines(s.take(i as int)),
        decreases shown - i,
    {
        proof {
            assert(s.take(i + 1).drop_last() =~= s.take(i as int));
            assert(s.take(i + 1).last() == v@[i as int].deep_view());
        }
        r.append("    ");
        r.append(sanitize_title(v[i].name.as_str()).as_str());
        r.append(" ");
        r.append(fmt_dur(v[i].ms).as_str());
        r.append("\n");
        i = i + 1;
    }
    r
}

fn write_rest(n: usize, rolled: u128, rest: u128) -> (r: String)
    ensures
        r@ == rest_line(n as nat, rolled as nat, rest as nat),
{
    if rest == 0 {
        String::new()
    } else {
        let label = if n == 0 {
            text::owned("more titles")
        } else if rolled > 0 {
            text::cat2(text::of_usize(n).as_str(), "+ more titles")
        } else {
            text::cat2(text::of_usize(n).as_str(), " more titles")
        };
        text::cat5("    (", label.as_str(), ") ", fmt_dur(rest).as_str(), "\n")
    }
}

/// The titles of a ranking and the time of those rolled up before.
fn part_titles(ranked: &Vec<Tally>) -> (r: (Vec<Tally>, u128))
    requires
        total(deep(ranked@)) <= u128::MAX,
    ensures
        deep(r.0@) == deep(ranked@).filter(is_title()),
        r.1 == total(deep(ranked@).filter(is_other())),
        r.1 + total(deep(r.0@)) == total(deep(ranked@)),
{
    let ghost r = deep(ranked@);
    let mut own: Vec<Tally> = Vec::new();
    let mut rolled: u128 = 0;
    let mut i: usize = 0;
    proof {
        reveal(Seq::filter);
        assert(r.take(0) =~= seq![]);
        assert(deep(own@) =~= r.take(0).filter(is_title()));
        assert(r.take(0).filter(is_other()) =~= seq![]);
    }
    while i < ranked.len()
        invariant
            i <= ranked.len(),
            r == deep(ranked@),
            total(r) <= u128::MAX,
            deep(own@) == r.take(i as int).filter(is_title()),
            rolled == total(r.take(i as int).filter(is_other())),
            rolled + total(deep(own@)) == total(r.take(i as int)),
        decreases ranked.len() - i,
    {
        let ghost t = r.take(i + 1);
        let ghost x = ranked@[i as int].deep_view();
        proof {
            reveal(Seq::filter);
            assert(t.drop_last() =~= r.take(i as int));
            assert(t.last() == x);
            assert(r =~= t + r.skip(i + 1));
            observed::lemma_total_concat(t, r.skip(i + 1));
        }
        if text::same(ranked[i].name.as_str(), OTHER) {
            proof {
                let f = r.take(i as int).filter(is_other());
                assert(t.filter(is_other()) == f.push(x));
                assert(f.push(x).drop_last() =~= f);
            }
            rolled = rolled + ranked[i].ms;
        } else {
            let ghost m = deep(own@);
            own.push(Tally { name: text::owned(ranked[i].name.as_str()), ms: ranked[i].ms });
            proof {
                assert(deep(own@) =~= m.push(x));
                assert(m.push(x).drop_last() =~= m);
            }
        }
        i = i + 1;
    }
    proof {
        assert(r.take(r.len() as int) =~= r);
    }
    (own, rolled)
}

/// The time of the titles from one on, added to a time.
fn add_rest(v: &Vec<Tally>, from: usize, start: u128) -> (r: u128)
    requires
        from <= v@.len(),
        total(deep(v@)) + start <= u128::MAX,
    ensures
        r == total(deep(v@).skip(from as int)) + start,
{
    let ghost s = deep(v@);
    let mut rest: u128 = start;
    let mut k: usize = from;
    proof {
        assert(s =~= s.take(from as int) + s.skip(from as int));
        observed::lemma_total_concat(s.take(from as int), s.skip(from as int));
        assert(s.subrange(from as int, from as int) =~= seq![]);
    }
    while k < v.len()
        invariant
            from <= k <= v.len(),
            s == deep(v@),
            total(s.skip(from as int)) + start <= u128::MAX,
            rest == total(s.subrange(from as int, k as int)) + start,
        decreases v.len() - k,
    {
        proof {
            let p = s.subrange(from as int, k + 1);
            assert(p.drop_last() =~= s.subrange(from as int, k as int));
            assert(p.last() == v@[k as int].deep_view());
            assert(s.skip(from as int) =~= p + s.skip(k + 1));
            observed::lemma_total_concat(p, s.skip(k + 1));
        }
        rest = rest + v[k].ms;
        k = k + 1;
    }
    proof {
        assert(s.subrange(from as int, s.len() as int) =~= s.skip(from as int));
    }
    rest
}

/// Writes an application's titles.
fn write_titles_block(titles: &Vec<Tally>) -> (r: String)
    requires
        total(deep(titles@)) <= u128::MAX,
    ensures
        r@ == titles_block(deep(titles@)),
{
    let ranked = sort::sort(copy_tallies(titles));
    proof {
        Tally::total();
        deep(titles@).lemma_sort_by_ensures(longest_first());
        observed::lemma_total_permuted(deep(titles@), deep(ranked@));
    }
    let (own, rolled) = part_titles(&ranked);
    let n = own.len();
    let shown: usize = if n < TOP_TITLES_PER_APP {
        n
    } else {
        TOP_TITLES_PER_APP
    };
    let rest = add_rest(&own, shown, rolled);
    text::cat2(
        write_titles(&own, shown).as_str(),
        write_rest(n - shown, rolled, rest).as_str(),
    )
}

/// Writes the titles under an application.
fn write_titles_under(titles: &Vec<AppTitles>, app: &str) -> (r: String)
    requires
        forall|i: int|
            0 <= i < titles@.len() ==> total(deep((#[trigger] titles@[i]).titles@)) <= u128::MAX,
    ensures
        r@ == titles_block(titles_under(deep(titles@), app@)),
{
    let ghost s = deep(titles@);
    let mut i: usize = 0;
    proof {
        assert(s.skip(0) =~= s);
    }
    while i < titles.len()
        invariant
            i <= titles.len(),
            s == deep(titles@),
            forall|i: int|
                0 <= i < titles@.len() ==> total(deep((#[trigger] titles@[i]).titles@))
                    <= u128::MAX,
            titles_under(s, app@) == titles_under(s.skip(i as int), app@),
        decreases titles.len() - i,
    {
        proof {
            assert(s.skip(i as int)[0] == titles@[i as int].deep_view());
            assert(s.skip(i as int).drop_first() =~= s.skip(i + 1));
        }
        if text::same(titles[i].app.as_str(), app) {
            return write_titles_block(&titles[i].titles);
        }
        i = i + 1;
    }
    let none: Vec<Tally> = Vec::new();
    proof {
        assert(deep(none@) =~= seq![]);
    }
    write_titles_block(&none)
}

/// The observed block: the titles are the point, because an application's name
/// alone cannot tell research from drift.
pub fn fmt_observed(obs: &Observed) -> (r: String)
    requires
        addable(*obs),
    ensures
        r@ == observed_block(obs.deep_view()),
{
    let apps = sort::sort(copy_tallies(&obs.per_app));
    let ghost s = deep(apps@);
    let ghost titles = deep(obs.per_title@);
    let n: usize = if apps.len() < TOP_APPS {
        apps.len()
    } else {
        TOP_APPS
    };
    if n == 0 {
        return text::owned("(nothing recorded)");
    }
    let mut out = String::new();
    let mut i: usize = 0;
    proof {
        assert(s.take(0) =~= seq![]);
    }
    while i < n
        invariant
            i <= n <= apps.len(),
            s == deep(apps@),
            titles == deep(obs.per_title@),
            addable(*obs),
            out@ == app_blocks(s.take(i as int), titles),
        decreases n - i,
    {
        proof {
            assert(s.take(i + 1).drop_last() =~= s.take(i as int));
            assert(s.take(i + 1).last() == apps@[i as int].deep_view());
        }
        let line = text::cat5(
            "- ",
            apps[i].name.as_str(),
            " ",
            fmt_dur(apps[i].ms).as_str(),
            "\n",
        );
        let block = write_titles_under(&obs.per_title, apps[i].name.as_str());
        out.append(text::cat2(line.as_str(), block.as_str()).as_str());
        i = i + 1;
    }
    proof {
        if apps.len() < TOP_APPS {
            assert(s.take(n as int) =~= s);
        }
    }
    text::trim_end(out.as_str())
}

// ------------------------------------------------------------------- the prompt

/// What a check is told.
pub struct Context<'a> {
    pub statement: &'a str,
    pub intended_minutes: Option<i64>,
    pub elapsed_minutes: i64,
    /// The board, a line for each column.
    pub board_lines: String,
    pub window: &'a Observed,
    pub session_total: Option<&'a Observed>,
    pub window_minutes: i64,
    /// The headline and the alignment of the check before.
    pub previous: Option<(String, Option<i64>)>,
}

/// The first line: nothing where no statement was made, because a bare label
/// would read as a question that was not answered.
pub open spec fn intent_line(statement: Seq<char>) -> Seq<char> {
    if text::blank(statement) {
        seq![]
    } else {
        "Intent: "@ + statement + "\n"@
    }
}

/// A number behind a label, in brackets; nothing where there is none.
pub open spec fn noted(label: Seq<char>, n: Option<i64>) -> Seq<char> {
    match n {
        Some(n) => label + decimal(n as int) + ")"@,
        None => seq![],
    }
}

/// How long the user was there and how long they were away.
pub open spec fn activity(active_ms: u128, afk_ms: i128) -> Seq<char> {
    "active "@ + minutes(active_ms as int) + "m, away "@ + minutes(afk_ms as int) + "m"@
}

pub open spec fn total_line(total: Option<&Observed>) -> Seq<char> {
    match total {
        Some(t) => "\nWhole session so far: "@ + activity(t.active_ms, t.afk_ms) + ".\n"@,
        None => seq![],
    }
}

pub open spec fn previous_line(previous: Option<(String, Option<i64>)>) -> Seq<char> {
    match previous {
        Some((headline, alignment)) => "\nPrevious check: \""@ + headline@ + "\""@ + noted(
            " (alignment "@,
            alignment,
        ) + "\n"@,
        None => seq![],
    }
}

/// What the model is told of a stretch.
pub open spec fn prompt_text(ctx: Context) -> Seq<char> {
    intent_line(ctx.statement@) + "Session length so far: "@ + decimal(ctx.elapsed_minutes as int)
        + " min"@ + noted(" (intended "@, ctx.intended_minutes) + "\n\nBoard:\n"@
        + ctx.board_lines@ + "\n\nObserved in the last "@ + decimal(ctx.window_minutes as int)
        + " min ("@ + activity(ctx.window.active_ms, ctx.window.afk_ms) + "):\n"@ + observed_block(
        ctx.window.deep_view(),
    ) + "\n"@ + total_line(ctx.session_total) + previous_line(ctx.previous)
}

fn note(label: &str, n: Option<i64>) -> (r: String)
    ensures
        r@ == noted(label@, n),
{
    match n {
        Some(n) => text::cat3(label, text::of_i64(n).as_str(), ")"),
        None => String::new(),
    }
}

fn fmt_activity(active_ms: u128, afk_ms: i128) -> (r: String)
    ensures
        r@ == activity(active_ms, afk_ms),
{
    text::cat5(
        "active ",
        fmt_minutes(active_ms).as_str(),
        "m, away ",
        fmt_away(afk_ms).as_str(),
        "m",
    )
}

/// The prompt of a check.
pub fn build_prompt(ctx: &Context) -> (r: String)
    requires
        addable(*ctx.window),
    ensures
        r@ == prompt_text(*ctx),
{
    let mut p = if text::is_blank(ctx.statement) {
        String::new()
    } else {
        text::cat3("Intent: ", ctx.statement, "\n")
    };
    p.append("Session length so far: ");
    p.append(text::of_i64(ctx.elapsed_minutes).as_str());
    p.append(" min");
    p.append(note(" (intended ", ctx.intended_minutes).as_str());
    p.append("\n\nBoard:\n");
    p.append(ctx.board_lines.as_str());
    p.append("\n\nObserved in the last ");
    p.append(text::of_i64(ctx.window_minutes).as_str());
    p.append(" min (");
    p.append(fmt_activity(ctx.window.active_ms, ctx.window.afk_ms).as_str());
    p.append("):\n");
    p.append(fmt_observed(ctx.window).as_str());
    p.append("\n");
    let total = match ctx.session_total {
        Some(t) => text::cat3(
            "\nWhole session so far: ",
            fmt_activity(t.active_ms, t.afk_ms).as_str(),
            ".\n",
        ),
        None => String::new(),
    };
    p.append(total.as_str());
    let previous = match &ctx.previous {
        Some((headline, alignment)) => text::cat5(
            "\nPrevious check: \"",
            headline.as_str(),
            "\"",
            note(" (alignment ", *alignment).as_str(),
            "\n",
        ),
        None => String::new(),
    };
    p.append(previous.as_str());
    p
}

} // verus!
