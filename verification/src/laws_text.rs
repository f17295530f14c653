//! What is promised of texts: trimming, joining, cutting, replacing, ordering
//! and numbers.

use vstd::prelude::*;

use crate::json::member_of;
use crate::json::Doc;
use crate::text;
use crate::text::before;
use crate::text::begins;
use crate::text::blank;
use crate::text::control;
use crate::text::decimal;
use crate::text::digits;
use crate::text::finishes;
use crate::text::flattened;
use crate::text::folded;
use crate::text::integer;
use crate::text::joined;
use crate::text::occurs;
use crate::text::occurs_at;
use crate::text::prefix;
use crate::text::replaced;
use crate::text::trimmed;
use crate::text::trimmed_end;
use crate::text::trimmed_start;
use crate::text::white;
use crate::text::words;

verus! {

broadcast use vstd::seq_lib::group_seq_properties;

/// Nothing in a text but whitespace.
pub open spec fn all_white(s: Seq<char>) -> bool {
    forall|i: int| 0 <= i < s.len() ==> white(#[trigger] s[i])
}

/// A text that neither begins nor ends with whitespace.
pub open spec fn clean(s: Seq<char>) -> bool {
    s.len() > 0 ==> !white(s[0]) && !white(s.last())
}

/// Trimming takes the whitespace round a text away, all of it and nothing
/// else.
pub proof fn trimming_takes_the_whitespace_round_a_text(
    lead: Seq<char>,
    s: Seq<char>,
    trail: Seq<char>,
)
    requires
        all_white(lead),
        all_white(trail),
        clean(s),
    ensures
        trimmed(lead + s + trail) == s,
        blank(lead + s + trail) <==> s.len() == 0,
        s.len() > 0 ==> trimmed_start(lead + s + trail) == s + trail,
        s.len() > 0 ==> trimmed_end(lead + s + trail) == lead + s,
{
    lemma_lead(lead, s + trail);
    assert(lead + s + trail =~= lead + (s + trail));
    lemma_trail(lead + s, trail);
    if s.len() == 0 {
        assert(s + trail =~= trail);
        assert(s =~= seq![]);
        lemma_lead(trail, seq![]);
        assert(trail + seq![] =~= trail);
    } else {
        assert((s + trail)[0] == s[0]);
        lemma_trail(s, trail);
        assert((lead + s).last() == s.last());
    }
}

proof fn lemma_lead(lead: Seq<char>, s: Seq<char>)
    requires
        all_white(lead),
    ensures
        trimmed_start(lead + s) == trimmed_start(s),
    decreases lead.len(),
{
    if lead.len() == 0 {
        assert(lead + s =~= s);
    } else {
        assert(white(lead[0]));
        assert((lead + s).drop_first() =~= lead.drop_first() + s);
        assert forall|i: int| 0 <= i < lead.drop_first().len() implies white(
            #[trigger] lead.drop_first()[i],
        ) by {
            assert(lead.drop_first()[i] == lead[i + 1]);
        }
        lemma_lead(lead.drop_first(), s);
    }
}

proof fn lemma_trail(s: Seq<char>, trail: Seq<char>)
    requires
        all_white(trail),
    ensures
        trimmed_end(s + trail) == trimmed_end(s),
    decreases trail.len(),
{
    if trail.len() == 0 {
        assert(s + trail =~= s);
    } else {
        assert(white(trail[trail.len() - 1]));
        assert((s + trail).drop_last() =~= s + trail.drop_last());
        assert forall|i: int| 0 <= i < trail.drop_last().len() implies white(
            #[trigger] trail.drop_last()[i],
        ) by {
            assert(trail.drop_last()[i] == trail[i]);
        }
        lemma_trail(s, trail.drop_last());
    }
}

/// What counts as whitespace, and as a control character.
pub proof fn what_counts_as_whitespace(c: char)
    ensures
        white(c) <==> c == ' ' || c == '\t' || c == '\n' || c == '\u{b}' || c == '\u{c}' || c
            == '\r' || c == '\u{85}' || c == '\u{a0}' || c == '\u{1680}' || '\u{2000}' as int
            <= c as int <= '\u{200a}' as int || c == '\u{2028}' || c == '\u{2029}' || c
            == '\u{202f}' || c == '\u{205f}' || c == '\u{3000}',
        control(c) <==> (c as int) < 32 || 127 <= c as int <= 159,
{
}

/// Joining puts the separator between the parts, and only there.
pub proof fn joining_puts_the_separator_between(
    a: Seq<Seq<char>>,
    b: Seq<Seq<char>>,
    x: Seq<char>,
    sep: Seq<char>,
)
    ensures
        joined(Seq::empty(), sep) == Seq::<char>::empty(),
        joined(seq![x], sep) == x,
        a.len() > 0 && b.len() > 0 ==> joined(a + b, sep) == joined(a, sep) + sep + joined(b, sep),
    decreases b.len(),
{
    if a.len() > 0 && b.len() > 0 {
        assert((a + b).drop_last() =~= a + b.drop_last());
        assert((a + b).last() == b.last());
        if b.len() == 1 {
            assert(a + b.drop_last() =~= a);
            assert(b[0] == b.last());
        } else {
            joining_puts_the_separator_between(a, b.drop_last(), x, sep);
            assert(joined(a + b, sep) =~= joined(a, sep) + sep + joined(b, sep));
        }
    }
}

/// A word is what stands between two runs of whitespace.
pub proof fn words_stand_between_whitespace(
    a: Seq<char>,
    gap: char,
    b: Seq<char>,
    w: Seq<char>,
    space: Seq<char>,
)
    ensures
        white(gap) ==> words(a + seq![gap] + b) == words(a) + words(b),
        w.len() > 0 && (forall|i: int| 0 <= i < w.len() ==> !white(#[trigger] w[i])) ==> words(w)
            == seq![w],
        all_white(space) ==> words(space) == Seq::<Seq<char>>::empty(),
{
    if white(gap) {
        let t = seq![gap] + b;
        assert(a + seq![gap] + b =~= a + t);
        assert(t.drop_first() =~= b);
        text::lemma_words_concat(a, t);
        lemma_lead(seq![gap], b);
        assert(words(t) == words(b)) by {
            text::lemma_trimmed_start(b);
            text::lemma_trimmed_start(t);
        }
    }
    if w.len() > 0 && (forall|i: int| 0 <= i < w.len() ==> !white(#[trigger] w[i])) {
        assert(!white(w[0]));
        lemma_word(w);
        assert(w.take(w.len() as int) =~= w);
        assert(w.skip(w.len() as int) =~= seq![]);
        assert(words(seq![]) =~= seq![]);
        assert(words(w) =~= seq![w]);
    }
    if all_white(space) {
        lemma_lead(space, seq![]);
        assert(space + seq![] =~= space);
    }
}

proof fn lemma_word(w: Seq<char>)
    requires
        forall|i: int| 0 <= i < w.len() ==> !white(#[trigger] w[i]),
    ensures
        text::word_len(w) == w.len(),
    decreases w.len(),
{
    if w.len() > 0 {
        let rest = w.drop_first();
        assert(!white(w[0]));
        assert forall|i: int| 0 <= i < rest.len() implies !white(#[trigger] rest[i]) by {
            assert(rest[i] == w[i + 1]);
        }
        lemma_word(rest);
    }
}

/// A text on one line is its words with a space between each two.
pub proof fn one_line_is_the_words_and_single_spaces(s: Seq<char>)
    ensures
        flattened(s) == joined(words(s), seq![' ']),
{
    reveal_strlit(" ");
    assert(" "@ =~= seq![' ']);
}

/// The first characters of a text are kept, as many as may be, and a short
/// text is kept whole.
pub proof fn a_cut_text_is_its_beginning(s: Seq<char>, n: int)
    requires
        n >= 0,
    ensures
        prefix(s, n).is_prefix_of(s),
        prefix(s, n).len() == if s.len() < n {
            s.len() as int
        } else {
            n
        },
{
    if s.len() > n {
        assert(s.take(n) =~= s.subrange(0, n));
    } else {
        assert(s =~= s.subrange(0, s.len() as int));
    }
}

/// A text holds, begins with or ends with another where it is that one with
/// something before, behind or on both sides of it.
pub proof fn a_text_holds_what_it_is_made_of(a: Seq<char>, pat: Seq<char>, b: Seq<char>)
    ensures
        occurs(a + pat + b, pat),
        begins(pat + b, pat),
        finishes(a + pat, pat),
{
    let s = a + pat + b;
    assert(s.subrange(a.len() as int, (a.len() + pat.len()) as int) =~= pat);
    assert(occurs_at(s, pat, a.len() as int));
    assert((pat + b).subrange(0, pat.len() as int) =~= pat);
    assert((a + pat).subrange(a.len() as int, (a + pat).len() as int) =~= pat);
}

/// And only there.
pub proof fn a_text_is_made_of_what_it_holds(s: Seq<char>, pat: Seq<char>) -> (r: (
    Seq<char>,
    Seq<char>,
))
    ensures
        occurs(s, pat) ==> s == r.0 + pat + r.1,
        begins(s, pat) ==> s == pat + s.skip(pat.len() as int),
        finishes(s, pat) ==> s == s.take(s.len() - pat.len()) + pat,
{
    if begins(s, pat) {
        assert(s =~= s.subrange(0, pat.len() as int) + s.skip(pat.len() as int));
    }
    if finishes(s, pat) {
        assert(s =~= s.take(s.len() - pat.len()) + s.subrange(
            s.len() - pat.len(),
            s.len() as int,
        ));
    }
    if occurs(s, pat) {
        let i = choose|i: int| #[trigger] occurs_at(s, pat, i);
        let r = (s.take(i), s.skip(i + pat.len()));
        assert(s =~= r.0 + s.subrange(i, i + pat.len()) + r.1);
        r
    } else {
        (seq![], seq![])
    }
}

/// No occurrence of `pat` lies across the end of `a`.
pub open spec fn parted(a: Seq<char>, b: Seq<char>, pat: Seq<char>) -> bool {
    forall|i: int| #[trigger]
        occurs_at(a + b, pat, i) ==> i + pat.len() <= a.len() || i >= a.len()
}

/// Replacing is done piece by piece: each occurrence becomes what it is to be
/// replaced by, and a text in which there is none stays as it is.
pub proof fn replacing_is_done_piece_by_piece(
    a: Seq<char>,
    b: Seq<char>,
    pat: Seq<char>,
    by: Seq<char>,
)
    requires
        pat.len() > 0,
    ensures
        parted(a, b, pat) ==> replaced(a + b, pat, by) == replaced(a, pat, by) + replaced(
            b,
            pat,
            by,
        ),
        replaced(pat, pat, by) == by,
        !occurs(a, pat) ==> replaced(a, pat, by) == a,
{
    if parted(a, b, pat) {
        lemma_replaced_parts(a, b, pat, by);
    }
    assert(pat.subrange(0, pat.len() as int) =~= pat);
    assert(pat.skip(pat.len() as int) =~= seq![]);
    assert(by + seq![] =~= by);
    assert(replaced(pat, pat, by) == by + replaced(seq![], pat, by));
    if !occurs(a, pat) {
        lemma_replaced_none(a, pat, by);
    }
}

proof fn lemma_replaced_none(a: Seq<char>, pat: Seq<char>, by: Seq<char>)
    requires
        pat.len() > 0,
        !occurs(a, pat),
    ensures
        replaced(a, pat, by) == a,
    decreases a.len(),
{
    if a.len() > 0 {
        assert(!occurs_at(a, pat, 0));
        let rest = a.drop_first();
        assert(!occurs(rest, pat)) by {
            if occurs(rest, pat) {
                let i = choose|i: int| #[trigger] occurs_at(rest, pat, i);
                assert(a.subrange(i + 1, i + 1 + pat.len()) =~= rest.subrange(i, i + pat.len()));
                assert(occurs_at(a, pat, i + 1));
            }
        }
        lemma_replaced_none(rest, pat, by);
        assert(seq![a[0]] + rest =~= a);
    }
}

proof fn lemma_replaced_parts(a: Seq<char>, b: Seq<char>, pat: Seq<char>, by: Seq<char>)
    requires
        pat.len() > 0,
        parted(a, b, pat),
    ensures
        replaced(a + b, pat, by) == replaced(a, pat, by) + replaced(b, pat, by),
    decreases a.len(),
{
    let s = a + b;
    if a.len() == 0 {
        assert(s =~= b);
        assert(replaced(a, pat, by) + replaced(b, pat, by) =~= replaced(b, pat, by));
    } else {
        let n = if occurs_at(s, pat, 0) {
            pat.len() as int
        } else {
            1
        };
        if occurs_at(s, pat, 0) {
            assert(s.subrange(0, n) =~= a.subrange(0, n));
        } else if occurs_at(a, pat, 0) {
            assert(s.subrange(0, pat.len() as int) =~= a.subrange(0, pat.len() as int));
        }
        let rest = a.skip(n);
        assert(s.skip(n) =~= rest + b);
        assert(a.drop_first() =~= a.skip(1));
        assert(s.drop_first() =~= s.skip(1));
        assert forall|i: int| #[trigger] occurs_at(rest + b, pat, i) implies i + pat.len()
            <= rest.len() || i >= rest.len() by {
            assert(s.subrange(i + n, i + n + pat.len()) =~= (rest + b).subrange(i, i + pat.len()));
            assert(occurs_at(s, pat, i + n));
        }
        lemma_replaced_parts(rest, b, pat, by);
        if occurs_at(s, pat, 0) {
            assert(replaced(s, pat, by) =~= replaced(a, pat, by) + replaced(b, pat, by));
        } else {
            assert(s[0] == a[0]);
            assert(replaced(s, pat, by) =~= replaced(a, pat, by) + replaced(b, pat, by));
        }
    }
}

/// Of two texts the one that goes on is the later, and where they differ first
/// the one with the higher character.
pub proof fn texts_are_ordered_by_their_first_difference(
    p: Seq<char>,
    x: char,
    y: char,
    a: Seq<char>,
    b: Seq<char>,
)
    ensures
        before(p, p + seq![x] + a),
        !before(p + seq![x] + a, p),
        !before(p, p),
        x != y ==> (before(p + seq![x] + a, p + seq![y] + b) <==> (x as int) < (y as int)),
    decreases p.len(),
{
    let (s, t) = (p + seq![x] + a, p + seq![y] + b);
    if p.len() > 0 {
        let q = p.drop_first();
        texts_are_ordered_by_their_first_difference(q, x, y, a, b);
        assert(s.drop_first() =~= q + seq![x] + a);
        assert(t.drop_first() =~= q + seq![y] + b);
        assert(s[0] == p[0] && t[0] == p[0]);
    } else {
        assert(s[0] == x && t[0] == y);
    }
}

/// A number is written digit by digit, the last one last, and read back as
/// what it is.
pub proof fn a_number_is_written_in_its_digits(n: nat, d: nat)
    requires
        d < 10,
    ensures
        digits(d) == seq![(48 + d) as char],
        n > 0 ==> digits(n * 10 + d) == digits(n).push((48 + d) as char),
        decimal(n as int) == digits(n),
        n > 0 ==> decimal(-(n as int)) == seq!['-'] + digits(n),
{
    if n > 0 {
        assert((n * 10 + d) / 10 == n);
        assert((n * 10 + d) % 10 == d);
    }
}

/// A whole number is read back from its digits, with or without a sign; a text
/// with anything else in it is no number.
pub proof fn a_number_is_read_back(n: nat, s: Seq<char>, i: int)
    ensures
        integer(digits(n)) == Some(n as int),
        integer(seq!['+'] + digits(n)) == Some(n as int),
        integer(seq!['-'] + digits(n)) == Some(-(n as int)),
        integer(seq![]) is None,
        integer(seq!['+']) is None,
        integer(seq!['-']) is None,
        0 < i < s.len() && !(48 <= s[i] as int <= 57) ==> integer(s) is None,
        s.len() > 0 && !(48 <= s[0] as int <= 57) && s[0] != '+' && s[0] != '-' ==> integer(s)
            is None,
{
    text::lemma_digits(n);
    let d = digits(n);
    assert(text::is_digit(d[0]));
    assert((seq!['+'] + d).skip(1) =~= d);
    assert((seq!['-'] + d).skip(1) =~= d);
    if 0 < i < s.len() && !(48 <= s[i] as int <= 57) {
        assert(!text::is_digit(s[i]));
        assert(s.skip(1)[i - 1] == s[i]);
    }
    if s.len() > 0 && !(48 <= s[0] as int <= 57) && s[0] != '+' && s[0] != '-' {
        assert(!text::is_digit(s[0]));
    }
}

/// Folding makes the capitals from A to Z small and leaves the rest.
pub proof fn folding_makes_capitals_small(s: Seq<char>, i: int)
    requires
        0 <= i < s.len(),
    ensures
        folded(s).len() == s.len(),
        'A' as int <= s[i] as int <= 'Z' as int ==> folded(s)[i] as int == s[i] as int - 'A' as int
            + 'a' as int,
        !('A' as int <= s[i] as int <= 'Z' as int) ==> folded(s)[i] == s[i],
{
}

/// The value of a name is that of the first member with it; a name that no
/// member has is null.
pub proof fn the_first_member_of_a_name_counts(
    v: Seq<(Seq<char>, Doc)>,
    name: Seq<char>,
    k: int,
)
    requires
        0 <= k <= v.len(),
        forall|i: int| 0 <= i < k ==> (#[trigger] v[i]).0 != name,
    ensures
        k == v.len() ==> Doc::Object(v).field(name) == Doc::Null,
        k < v.len() && v[k].0 == name ==> Doc::Object(v).field(name) == v[k].1,
    decreases k,
{
    if k > 0 {
        let rest = v.drop_first();
        assert(v[0].0 != name);
        assert forall|i: int| 0 <= i < k - 1 implies (#[trigger] rest[i]).0 != name by {
            assert(rest[i] == v[i + 1]);
        }
        the_first_member_of_a_name_counts(rest, name, k - 1);
        assert(Doc::Object(rest).field(name) == member_of(rest, name));
    }
}

} // verus!
