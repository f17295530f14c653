//! Text as sequences of characters: classification, trimming, splitting,
//! searching, replacing, comparing, and decimal numbers.

use vstd::prelude::*;

verus! {

broadcast use vstd::seq_lib::group_seq_properties;

/// `String::push` puts one character at the end.
pub assume_specification[ String::push ](s: &mut String, ch: char)
    ensures
        final(s)@ == old(s)@.push(ch),
;

/// Unicode's `White_Space` property.
pub open spec fn white(c: char) -> bool {
    let n = c as u32;
    ||| 0x9 <= n <= 0xd
    ||| n == 0x20
    ||| n == 0x85
    ||| n == 0xa0
    ||| n == 0x1680
    ||| 0x2000 <= n <= 0x200a
    ||| n == 0x2028
    ||| n == 0x2029
    ||| n == 0x202f
    ||| n == 0x205f
    ||| n == 0x3000
}

/// Unicode's `Cc` category.
pub open spec fn control(c: char) -> bool {
    let n = c as u32;
    n <= 0x1f || 0x7f <= n <= 0x9f
}

pub fn is_white(c: char) -> (r: bool)
    ensures
        r == white(c),
{
    let n: u32 = c as u32;
    (0x9 <= n && n <= 0xd) || n == 0x20 || n == 0x85 || n == 0xa0 || n == 0x1680 || (0x2000 <= n
        && n <= 0x200a) || n == 0x2028 || n == 0x2029 || n == 0x202f || n == 0x205f || n == 0x3000
}

pub fn is_control(c: char) -> (r: bool)
    ensures
        r == control(c),
{
    let n: u32 = c as u32;
    n <= 0x1f || (0x7f <= n && n <= 0x9f)
}

/// The scalar value of a character.
pub fn code(c: char) -> (n: u32)
    ensures
        n as int == c as int,
{
    c as u32
}

/// The characters of a string.
pub fn chars_of(s: &str) -> (v: Vec<char>)
    ensures
        v@ == s@,
{
    let mut v: Vec<char> = Vec::new();
    for c in iter: s.chars()
        invariant
            v@ == s@.take(iter.index()),
            iter.seq() == s@,
    {
        proof {
            assert(s@.take(iter.index() + 1) =~= s@.take(iter.index()).push(c));
        }
        v.push(c);
    }
    proof {
        assert(s@.take(s@.len() as int) =~= s@);
    }
    v
}

/// The string of the characters of `v` from `from` to `to`.
pub fn string_of(v: &Vec<char>, from: usize, to: usize) -> (s: String)
    requires
        from <= to <= v.len(),
    ensures
        s@ == v@.subrange(from as int, to as int),
{
    let mut s = String::new();
    let mut i: usize = from;
    while i < to
        invariant
            from <= i <= to <= v.len(),
            s@ == v@.subrange(from as int, i as int),
        decreases to - i,
    {
        proof {
            assert(v@.subrange(from as int, i + 1) =~= v@.subrange(from as int, i as int).push(
                v@[i as int],
            ));
        }
        s.push(v[i]);
        i = i + 1;
    }
    s
}

/// The string of all of `v`.
pub fn to_string(v: &Vec<char>) -> (s: String)
    ensures
        s@ == v@,
{
    let s = string_of(v, 0, v.len());
    proof {
        assert(v@.subrange(0, v@.len() as int) =~= v@);
    }
    s
}

/// Whether two strings hold the same characters.
pub fn same(a: &str, b: &str) -> (r: bool)
    ensures
        r == (a@ == b@),
{
    a.to_owned() == b.to_owned()
}

/// An owned copy.
pub fn owned(s: &str) -> (r: String)
    ensures
        r@ == s@,
{
    s.to_owned()
}

/// A copy of an optional string.
pub fn owned_opt(s: &Option<String>) -> (r: Option<String>)
    ensures
        r == *s,
{
    match s {
        Some(x) => Some(x.clone()),
        None => None,
    }
}

/// The view of an optional string.
pub open spec fn opt_view(s: Option<String>) -> Option<Seq<char>> {
    match s {
        Some(x) => Some(x@),
        None => None,
    }
}

/// Two pieces put together.
pub fn cat2(a: &str, b: &str) -> (r: String)
    ensures
        r@ == a@ + b@,
{
    let mut s = owned(a);
    s.append(b);
    s
}

/// Three pieces put together.
pub fn cat3(a: &str, b: &str, c: &str) -> (r: String)
    ensures
        r@ == a@ + b@ + c@,
{
    let mut s = cat2(a, b);
    s.append(c);
    s
}

/// Five pieces put together.
pub fn cat5(a: &str, b: &str, c: &str, d: &str, e: &str) -> (r: String)
    ensures
        r@ == a@ + b@ + c@ + d@ + e@,
{
    let mut s = cat3(a, b, c);
    s.append(d);
    s.append(e);
    s
}

/// How many characters there are.
pub fn count(s: &str) -> (n: usize)
    ensures
        n == s@.len(),
{
    s.unicode_len()
}

/// At most the first `n` characters.
pub open spec fn prefix(s: Seq<char>, n: int) -> Seq<char> {
    if s.len() <= n {
        s
    } else {
        s.take(n)
    }
}

/// At most the first `n` characters.
pub fn take(s: &str, n: usize) -> (r: String)
    ensures
        r@ == prefix(s@, n as int),
{
    let v = chars_of(s);
    if v.len() <= n {
        return owned(s);
    }
    proof {
        assert(s@.take(n as int) =~= s@.subrange(0, n as int));
    }
    string_of(&v, 0, n)
}

// ---------------------------------------------------------------- trimming

pub open spec fn trimmed_start(s: Seq<char>) -> Seq<char>
    decreases s.len(),
{
    if s.len() > 0 && white(s[0]) {
        trimmed_start(s.drop_first())
    } else {
        s
    }
}

pub open spec fn trimmed_end(s: Seq<char>) -> Seq<char>
    decreases s.len(),
{
    if s.len() > 0 && white(s.last()) {
        trimmed_end(s.drop_last())
    } else {
        s
    }
}

/// `s` without the whitespace at either end.
pub open spec fn trimmed(s: Seq<char>) -> Seq<char> {
    trimmed_end(trimmed_start(s))
}

/// Nothing but whitespace.
pub open spec fn blank(s: Seq<char>) -> bool {
    trimmed(s).len() == 0
}

/// Index of the first character at or after `from` that is no whitespace.
fn skip_white(v: &Vec<char>, from: usize) -> (i: usize)
    requires
        from <= v.len(),
    ensures
        from <= i <= v.len(),
        trimmed_start(v@.skip(from as int)) == v@.skip(i as int),
        i < v.len() ==> !white(v@[i as int]),
        forall|k: int| from <= k < i ==> white(#[trigger] v@[k]),
{
    let mut i: usize = from;
    while i < v.len() && is_white(v[i])
        invariant
            from <= i <= v.len(),
            trimmed_start(v@.skip(from as int)) == trimmed_start(v@.skip(i as int)),
            forall|k: int| from <= k < i ==> white(#[trigger] v@[k]),
        decreases v.len() - i,
    {
        proof {
            assert(v@.skip(i as int)[0] == v@[i as int]);
            assert(v@.skip(i as int).drop_first() =~= v@.skip(i + 1));
        }
        i = i + 1;
    }
    i
}

/// Index just past the last character of `v[from..to]` that is no whitespace.
fn back_white(v: &Vec<char>, from: usize, to: usize) -> (j: usize)
    requires
        from <= to <= v.len(),
    ensures
        from <= j <= to,
        trimmed_end(v@.subrange(from as int, to as int)) == v@.subrange(from as int, j as int),
{
    let mut j: usize = to;
    while j > from && is_white(v[j - 1])
        invariant
            from <= j <= to <= v.len(),
            trimmed_end(v@.subrange(from as int, to as int)) == trimmed_end(
                v@.subrange(from as int, j as int),
            ),
        decreases j,
    {
        proof {
            assert(v@.subrange(from as int, j as int).last() == v@[j - 1]);
            assert(v@.subrange(from as int, j as int).drop_last() =~= v@.subrange(
                from as int,
                j - 1,
            ));
        }
        j = j - 1;
    }
    j
}

/// Whitespace at both ends removed.
pub fn trim(s: &str) -> (r: String)
    ensures
        r@ == trimmed(s@),
{
    let v = chars_of(s);
    let i = skip_white(&v, 0);
    let j = back_white(&v, i, v.len());
    proof {
        assert(v@.skip(0) =~= v@);
        assert(v@.skip(i as int) =~= v@.subrange(i as int, v@.len() as int));
    }
    string_of(&v, i, j)
}

/// The text without whitespace at its start.
pub fn trim_start(s: &str) -> (r: String)
    ensures
        r@ == trimmed_start(s@),
{
    let v = chars_of(s);
    let i = skip_white(&v, 0);
    proof {
        assert(s@.skip(0) =~= s@);
        assert(s@.subrange(i as int, s@.len() as int) =~= s@.skip(i as int));
    }
    string_of(&v, i, v.len())
}

/// Whitespace at the end removed.
pub fn trim_end(s: &str) -> (r: String)
    ensures
        r@ == trimmed_end(s@),
{
    let v = chars_of(s);
    let j = back_white(&v, 0, v.len());
    proof {
        assert(v@ =~= v@.subrange(0, v@.len() as int));
    }
    string_of(&v, 0, j)
}

/// Whether there is nothing but whitespace.
pub fn is_blank(s: &str) -> (r: bool)
    ensures
        r == blank(s@),
{
    let t = trim(s);
    t.as_str().is_empty()
}

pub proof fn lemma_trimmed_start(s: Seq<char>)
    ensures
        trimmed_start(s).len() <= s.len(),
        trimmed_start(s).len() > 0 ==> !white(trimmed_start(s)[0]),
        trimmed_start(s) == s.skip(s.len() - trimmed_start(s).len()),
    decreases s.len(),
{
    if s.len() > 0 && white(s[0]) {
        lemma_trimmed_start(s.drop_first());
        let t = trimmed_start(s);
        assert(s.drop_first().skip(s.len() - 1 - t.len()) =~= s.skip(s.len() - t.len()));
    } else {
        assert(s.skip(0) =~= s);
    }
}

pub proof fn lemma_trimmed_end(s: Seq<char>)
    ensures
        trimmed_end(s).len() <= s.len(),
        trimmed_end(s).len() > 0 ==> !white(trimmed_end(s).last()),
        trimmed_end(s) == s.take(trimmed_end(s).len() as int),
    decreases s.len(),
{
    if s.len() > 0 && white(s.last()) {
        lemma_trimmed_end(s.drop_last());
        let t = trimmed_end(s);
        assert(s.drop_last().take(t.len() as int) =~= s.take(t.len() as int));
    } else {
        assert(s.take(s.len() as int) =~= s);
    }
}

/// What is left after trimming neither begins nor ends with whitespace.
pub proof fn lemma_trimmed_ends(s: Seq<char>)
    ensures
        trimmed(s).len() <= s.len(),
        trimmed(s).len() > 0 ==> !white(trimmed(s)[0]) && !white(trimmed(s).last()),
{
    lemma_trimmed_start(s);
    lemma_trimmed_end(trimmed_start(s));
}

/// Whitespace that is dropped at the start may be cut off before.
pub proof fn lemma_trim_after_cut(s: Seq<char>, j: int)
    requires
        0 <= j <= s.len() - trimmed_start(s).len(),
    ensures
        trimmed_start(s.skip(j)) == trimmed_start(s),
    decreases j,
{
    lemma_trimmed_start(s);
    if j == 0 {
        assert(s.skip(0) =~= s);
    } else {
        lemma_trim_after_cut(s.drop_first(), j - 1);
        assert(s.drop_first().skip(j - 1) =~= s.skip(j));
    }
}

/// What has no whitespace at its ends is left as it is.
pub proof fn lemma_trimmed_already(s: Seq<char>)
    requires
        s.len() > 0 ==> !white(s[0]) && !white(s.last()),
    ensures
        trimmed(s) == s,
{
}

/// Which end is trimmed first does not matter.
pub proof fn lemma_trim_either_way(s: Seq<char>)
    ensures
        trimmed(s) == trimmed_start(trimmed_end(s)),
    decreases s.len(),
{
    if s.len() > 0 {
        if white(s[0]) {
            let d = s.drop_first();
            lemma_trim_either_way(d);
            lemma_trim_end_behind(s.take(1), d);
            assert(s.take(1) + d =~= s);
            if trimmed_end(d).len() == 0 {
                let none = s.take(1).drop_last();
                assert(s.take(1).last() == s[0]);
                assert(none.len() == 0 && trimmed_end(none) == none);
                assert(trimmed_end(s.take(1)) == trimmed_end(none));
                assert(trimmed_end(s) =~= trimmed_end(d));
            } else {
                assert((s.take(1) + trimmed_end(d)).drop_first() =~= trimmed_end(d));
            }
        } else {
            lemma_trimmed_end(s);
            lemma_trim_end_keeps(s);
        }
    }
}

proof fn lemma_trim_end_keeps(s: Seq<char>)
    requires
        s.len() > 0,
        !white(s[0]),
    ensures
        trimmed_end(s).len() > 0,
        trimmed_end(s)[0] == s[0],
    decreases s.len(),
{
    if white(s.last()) {
        assert(s.drop_last().len() > 0 && s.drop_last()[0] == s[0]);
        lemma_trim_end_keeps(s.drop_last());
    }
}

/// Trimming the end of two texts in a row is trimming that of the second,
/// unless nothing is left of it.
pub proof fn lemma_trim_end_behind(p: Seq<char>, s: Seq<char>)
    ensures
        trimmed_end(p + s) == if trimmed_end(s).len() > 0 {
            p + trimmed_end(s)
        } else {
            trimmed_end(p)
        },
    decreases s.len(),
{
    if s.len() == 0 {
        assert(p + s =~= p);
    } else if white(s.last()) {
        assert((p + s).drop_last() =~= p + s.drop_last());
        lemma_trim_end_behind(p, s.drop_last());
    }
}

// ------------------------------------------------------------------- words

/// How many characters stand before the first whitespace.
pub open spec fn word_len(s: Seq<char>) -> nat
    decreases s.len(),
{
    if s.len() > 0 && !white(s[0]) {
        1 + word_len(s.drop_first())
    } else {
        0
    }
}

pub proof fn lemma_word_len(s: Seq<char>)
    ensures
        word_len(s) <= s.len(),
        word_len(s) < s.len() ==> white(s[word_len(s) as int]),
        forall|k: int| 0 <= k < word_len(s) ==> !white(#[trigger] s[k]),
    decreases s.len(),
{
    if s.len() > 0 && !white(s[0]) {
        lemma_word_len(s.drop_first());
        assert forall|k: int| 0 <= k < word_len(s) implies !white(#[trigger] s[k]) by {
            if k > 0 {
                assert(s[k] == s.drop_first()[k - 1]);
            }
        }
    }
}

/// The pieces between runs of whitespace, none of them empty.
pub open spec fn words(s: Seq<char>) -> Seq<Seq<char>>
    decreases s.len(),
{
    let t = trimmed_start(s);
    let n = word_len(t) as int;
    if t.len() == 0 || t.len() > s.len() || n <= 0 || n > t.len() {
        seq![]
    } else {
        seq![t.take(n)] + words(t.skip(n))
    }
}

/// `parts` with `sep` between neighbours.
pub open spec fn joined(parts: Seq<Seq<char>>, sep: Seq<char>) -> Seq<char>
    decreases parts.len(),
{
    if parts.len() == 0 {
        seq![]
    } else if parts.len() == 1 {
        parts[0]
    } else {
        joined(parts.drop_last(), sep) + sep + parts.last()
    }
}

pub proof fn lemma_words_step(s: Seq<char>)
    requires
        s.len() > 0,
    ensures
        white(s[0]) ==> words(s) == words(s.drop_first()),
        !white(s[0]) ==> 0 < word_len(s) <= s.len() && words(s) == seq![
            s.take(word_len(s) as int),
        ] + words(s.skip(word_len(s) as int)),
{
    lemma_word_len(s);
    lemma_trimmed_start(s);
    lemma_trimmed_start(s.drop_first());
    lemma_word_len(trimmed_start(s));
}

/// Where whitespace divides two texts, or one of them is empty, their words
/// stand side by side.
pub proof fn lemma_words_concat(a: Seq<char>, b: Seq<char>)
    requires
        b.len() > 0 ==> white(b[0]),
    ensures
        words(a + b) == words(a) + words(b),
    decreases a.len(),
{
    if a.len() == 0 {
        assert(a + b =~= b);
        assert(words(a) + words(b) =~= words(b));
    } else if white(a[0]) {
        lemma_words_step(a);
        lemma_words_step(a + b);
        assert((a + b).drop_first() =~= a.drop_first() + b);
        lemma_words_concat(a.drop_first(), b);
    } else {
        let n = word_len(a) as int;
        lemma_words_step(a);
        lemma_words_step(a + b);
        lemma_word_len(a);
        lemma_word_len_concat(a, b);
        assert((a + b).take(n) =~= a.take(n));
        assert((a + b).skip(n) =~= a.skip(n) + b);
        lemma_words_concat(a.skip(n), b);
        assert(seq![a.take(n)] + (words(a.skip(n)) + words(b)) =~= seq![a.take(n)] + words(
            a.skip(n),
        ) + words(b));
    }
}

proof fn lemma_word_len_concat(a: Seq<char>, b: Seq<char>)
    requires
        b.len() > 0 ==> white(b[0]),
    ensures
        word_len(a + b) == word_len(a),
    decreases a.len(),
{
    if a.len() == 0 {
        assert(a + b =~= b);
    } else {
        assert((a + b).drop_first() =~= a.drop_first() + b);
        lemma_word_len_concat(a.drop_first(), b);
    }
}

/// Runs of whitespace made single spaces, those at the ends removed.
pub open spec fn flattened(s: Seq<char>) -> Seq<char> {
    joined(words(s), seq![' '])
}

/// What stands between the occurrences of a character, the empty pieces too.
pub open spec fn pieces(s: Seq<char>, c: char) -> Seq<Seq<char>>
    decreases s.len(),
{
    if s.len() == 0 {
        seq![seq![]]
    } else {
        let before = pieces(s.drop_last(), c);
        if s.last() == c {
            before.push(seq![])
        } else {
            before.drop_last().push(before.last().push(s.last()))
        }
    }
}

/// The character stands nowhere in the text.
pub open spec fn without(s: Seq<char>, c: char) -> bool {
    forall|i: int| 0 <= i < s.len() ==> #[trigger] s[i] != c
}

proof fn lemma_pieces_step(a: Seq<char>, b: Seq<char>, c: char)
    requires
        without(b, c),
    ensures
        pieces(b, c) == seq![b],
        pieces(a + seq![c] + b, c) == pieces(a, c).push(b),
    decreases b.len(),
{
    let s = a + seq![c] + b;
    if b.len() == 0 {
        assert(s.drop_last() =~= a);
        assert(s.last() == c);
        assert(b =~= seq![]);
    } else {
        let d = b.drop_last();
        assert(b[b.len() - 1] != c);
        assert(without(d, c)) by {
            assert forall|i: int| 0 <= i < d.len() implies #[trigger] d[i] != c by {
                assert(d[i] == b[i]);
            }
        }
        lemma_pieces_step(a, d, c);
        assert(s.drop_last() =~= a + seq![c] + d);
        assert(d.push(b.last()) =~= b);
        assert(pieces(a, c).push(d).drop_last() =~= pieces(a, c));
        assert(seq![d].drop_last().push(b) =~= seq![b]);
    }
}

/// What was joined with a character falls into the same pieces at it.
pub proof fn lemma_pieces_joined(parts: Seq<Seq<char>>, c: char)
    requires
        parts.len() > 0,
        forall|i: int| 0 <= i < parts.len() ==> without(#[trigger] parts[i], c),
    ensures
        pieces(joined(parts, seq![c]), c) == parts,
    decreases parts.len(),
{
    let last = parts[parts.len() - 1];
    if parts.len() == 1 {
        lemma_pieces_step(seq![], last, c);
        assert(parts =~= seq![last]);
    } else {
        let rest = parts.drop_last();
        assert forall|i: int| 0 <= i < rest.len() implies without(#[trigger] rest[i], c) by {
            assert(rest[i] == parts[i]);
        }
        lemma_pieces_joined(rest, c);
        lemma_pieces_step(joined(rest, seq![c]), last, c);
        assert(rest.push(last) =~= parts);
    }
}

/// A character that is in no part and not in what divides them is not in the
/// whole.
pub proof fn lemma_joined_without(parts: Seq<Seq<char>>, sep: Seq<char>, c: char)
    requires
        without(sep, c),
        forall|i: int| 0 <= i < parts.len() ==> without(#[trigger] parts[i], c),
    ensures
        without(joined(parts, sep), c),
    decreases parts.len(),
{
    if parts.len() > 1 {
        let rest = parts.drop_last();
        assert forall|i: int| 0 <= i < rest.len() implies without(#[trigger] rest[i], c) by {
            assert(rest[i] == parts[i]);
        }
        lemma_joined_without(rest, sep, c);
        let (a, b) = (joined(rest, sep), parts[parts.len() - 1]);
        let s = a + sep + b;
        assert forall|i: int| 0 <= i < s.len() implies #[trigger] s[i] != c by {
            if i < a.len() {
                assert(s[i] == a[i]);
            } else if i < a.len() + sep.len() {
                assert(s[i] == sep[i - a.len()]);
            } else {
                assert(s[i] == b[i - a.len() - sep.len()]);
            }
        }
    } else if parts.len() == 1 {
        assert(without(parts[0], c));
    }
}

proof fn lemma_joined_chars(parts: Seq<Seq<char>>, sep: Seq<char>, k: int)
    requires
        0 <= k < joined(parts, sep).len(),
    ensures
        sep.contains(joined(parts, sep)[k]) || exists|i: int|
            0 <= i < parts.len() && (#[trigger] parts[i]).contains(joined(parts, sep)[k]),
    decreases parts.len(),
{
    let c = joined(parts, sep)[k];
    if parts.len() == 1 {
        assert(parts[0].contains(c));
    } else if parts.len() > 1 {
        let head = parts.drop_last();
        let h = joined(head, sep);
        if k < h.len() {
            lemma_joined_chars(head, sep, k);
            assert(h[k] == c);
            if !sep.contains(c) {
                let i = choose|i: int| 0 <= i < head.len() && (#[trigger] head[i]).contains(c);
                assert(parts[i] == head[i]);
            }
        } else if k < h.len() + sep.len() {
            assert(sep[k - h.len()] == c);
        } else {
            assert(parts.last()[k - h.len() - sep.len()] == c);
            assert(parts[parts.len() - 1].contains(c));
        }
    }
}

proof fn lemma_words_chars(s: Seq<char>, i: int, c: char)
    requires
        0 <= i < words(s).len(),
        words(s)[i].contains(c),
    ensures
        s.contains(c),
        !white(c),
    decreases s.len(),
{
    let t = trimmed_start(s);
    let n = word_len(t) as int;
    lemma_trimmed_start(s);
    lemma_word_len(t);
    let w = t.take(n);
    let rest = t.skip(n);
    assert(words(s) =~= seq![w] + words(rest));
    if i == 0 {
        let k = choose|k: int| 0 <= k < w.len() && w[k] == c;
        assert(t[k] == c);
        assert(t.contains(c));
    } else {
        assert(words(rest)[i - 1] == words(s)[i]);
        lemma_words_chars(rest, i - 1, c);
        let k = choose|k: int| 0 <= k < rest.len() && rest[k] == c;
        assert(t[k + n] == c);
        assert(t.contains(c));
    }
    let k = choose|k: int| 0 <= k < t.len() && t[k] == c;
    assert(s[k + (s.len() - t.len())] == c);
}

/// Every character of a flattened text is a space or one of the text's own
/// that is no whitespace.
pub proof fn lemma_flattened_chars(s: Seq<char>, k: int)
    requires
        0 <= k < flattened(s).len(),
    ensures
        flattened(s)[k] == ' ' || (s.contains(flattened(s)[k]) && !white(flattened(s)[k])),
{
    let c = flattened(s)[k];
    lemma_joined_chars(words(s), seq![' '], k);
    if !seq![' '].contains(c) {
        let i = choose|i: int| 0 <= i < words(s).len() && (#[trigger] words(s)[i]).contains(c);
        lemma_words_chars(s, i, c);
    }
}

/// The views of a list of strings.
pub open spec fn views(v: Seq<String>) -> Seq<Seq<char>> {
    Seq::new(v.len(), |i: int| v[i]@)
}

/// Where the word that begins at `b` ends.
fn word_end(v: &Vec<char>, b: usize) -> (e: usize)
    requires
        b < v.len(),
        !white(v@[b as int]),
    ensures
        b < e <= v.len(),
        word_len(v@.skip(b as int)) == e - b,
{
    let mut e: usize = b;
    while e < v.len() && !is_white(v[e])
        invariant
            b <= e <= v.len(),
            b < v.len(),
            !white(v@[b as int]),
            word_len(v@.skip(b as int)) == (e - b) + word_len(v@.skip(e as int)),
        decreases v.len() - e,
    {
        proof {
            assert(v@.skip(e as int)[0] == v@[e as int]);
            assert(v@.skip(e as int).drop_first() =~= v@.skip(e + 1));
        }
        e = e + 1;
    }
    proof {
        if e < v.len() {
            assert(v@.skip(e as int)[0] == v@[e as int]);
        }
    }
    e
}

/// One word of a text that begins with it, and the words of the rest.
proof fn lemma_first_word(s: Seq<char>, t: Seq<char>, n: int)
    requires
        t == trimmed_start(s),
        t.len() > 0,
        n == word_len(t),
        n > 0,
    ensures
        words(s) == seq![t.take(n)] + words(t.skip(n)),
{
    lemma_trimmed_start(s);
    lemma_word_len(t);
}

/// The first word at or behind `i`, and where it ends.
fn next_word(v: &Vec<char>, i: usize) -> (r: Option<(String, usize)>)
    requires
        i <= v.len(),
    ensures
        match r {
            Some((w, e)) => i < e <= v.len() && words(v@.skip(i as int)) == seq![w@] + words(
                v@.skip(e as int),
            ),
            None => words(v@.skip(i as int)) == Seq::<Seq<char>>::empty(),
        },
{
    let b = skip_white(v, i);
    let ghost s = v@.skip(i as int);
    let ghost t = v@.skip(b as int);
    if b >= v.len() {
        proof {
            assert(t.len() == 0);
        }
        return None;
    }
    proof {
        assert(t[0] == v@[b as int]);
    }
    let e = word_end(v, b);
    proof {
        lemma_first_word(s, t, e - b);
        assert(t.take(e - b) =~= v@.subrange(b as int, e as int));
        assert(t.skip(e - b) =~= v@.skip(e as int));
    }
    Some((string_of(v, b, e), e))
}

/// One more string at the end of a list.
proof fn lemma_views_push(before: Seq<String>, x: String, rest: Seq<Seq<char>>)
    ensures
        views(before.push(x)) + rest == views(before) + (seq![x@] + rest),
{
    assert(views(before.push(x)) =~= views(before).push(x@));
    assert(views(before).push(x@) + rest =~= views(before) + (seq![x@] + rest));
}

/// The pieces between runs of whitespace.
pub fn split_words(v: &Vec<char>) -> (r: Vec<String>)
    ensures
        views(r@) == words(v@),
{
    let mut out: Vec<String> = Vec::new();
    let mut i: usize = 0;
    let ghost all = words(v@);
    proof {
        assert(v@.skip(0) =~= v@);
        assert(views(out@) + all =~= all);
    }
    loop
        invariant
            i <= v.len(),
            views(out@) + words(v@.skip(i as int)) == all,
        ensures
            views(out@) == all,
        decreases v.len() - i,
    {
        match next_word(v, i) {
            None => {
                proof {
                    assert(views(out@) + Seq::<Seq<char>>::empty() =~= views(out@));
                }
                break;
            },
            Some((w, e)) => {
                proof {
                    lemma_views_push(out@, w, words(v@.skip(e as int)));
                }
                out.push(w);
                i = e;
            },
        }
    }
    out
}

/// The parts with a separator between neighbours.
pub fn join(parts: &Vec<String>, sep: &str) -> (r: String)
    ensures
        r@ == joined(views(parts@), sep@),
{
    let mut out = String::new();
    let mut i: usize = 0;
    while i < parts.len()
        invariant
            i <= parts.len(),
            out@ == joined(views(parts@).take(i as int), sep@),
        decreases parts.len() - i,
    {
        if i > 0 {
            out.append(sep);
        }
        out.append(parts[i].as_str());
        proof {
            let p = views(parts@);
            assert(p.take(i + 1).drop_last() =~= p.take(i as int));
            assert(p.take(i + 1).last() == parts@[i as int]@);
            if i == 0 {
                assert(out@ =~= parts@[0]@);
            }
        }
        i = i + 1;
    }
    proof {
        assert(views(parts@).take(parts@.len() as int) =~= views(parts@));
    }
    out
}

/// Runs of whitespace made single spaces.
pub fn flatten(v: &Vec<char>) -> (r: String)
    ensures
        r@ == flattened(v@),
{
    let parts = split_words(v);
    proof {
        reveal_strlit(" ");
        assert(" "@ =~= seq![' ']);
    }
    join(&parts, " ")
}

// --------------------------------------------------------------- searching

pub open spec fn occurs_at(s: Seq<char>, pat: Seq<char>, i: int) -> bool {
    0 <= i && i + pat.len() <= s.len() && s.subrange(i, i + pat.len()) == pat
}

/// `pat` stands somewhere in `s`.
pub open spec fn occurs(s: Seq<char>, pat: Seq<char>) -> bool {
    exists|i: int| #[trigger] occurs_at(s, pat, i)
}

fn matches_at(s: &Vec<char>, pat: &Vec<char>, at: usize) -> (r: bool)
    requires
        at <= s.len(),
    ensures
        r == occurs_at(s@, pat@, at as int),
{
    if s.len() - at < pat.len() {
        return false;
    }
    let mut k: usize = 0;
    while k < pat.len()
        invariant
            at + pat.len() <= s.len(),
            k <= pat.len(),
            forall|j: int| 0 <= j < k ==> s@[at + j] == pat@[j],
        decreases pat.len() - k,
    {
        if s[at + k] != pat[k] {
            proof {
                assert(s@.subrange(at as int, at + pat@.len())[k as int] == s@[at + k]);
            }
            return false;
        }
        k = k + 1;
    }
    proof {
        assert(s@.subrange(at as int, at + pat@.len()) =~= pat@);
    }
    true
}

/// Whether `pat` stands somewhere in `s`.
pub fn contains(s: &str, pat: &str) -> (r: bool)
    ensures
        r == occurs(s@, pat@),
{
    let sv = chars_of(s);
    let pv = chars_of(pat);
    let mut i: usize = 0;
    while i < sv.len()
        invariant
            i <= sv.len(),
            sv@ == s@,
            pv@ == pat@,
            forall|j: int| 0 <= j < i ==> !occurs_at(s@, pat@, j),
        decreases sv.len() - i,
    {
        if matches_at(&sv, &pv, i) {
            return true;
        }
        i = i + 1;
    }
    matches_at(&sv, &pv, i)
}

/// Whether `c` stands somewhere in `s`.
pub fn has_char(s: &str, c: char) -> (r: bool)
    ensures
        r == s@.contains(c),
{
    let v = chars_of(s);
    let mut i: usize = 0;
    while i < v.len()
        invariant
            i <= v.len(),
            v@ == s@,
            forall|j: int| 0 <= j < i ==> v@[j] != c,
        decreases v.len() - i,
    {
        if v[i] == c {
            return true;
        }
        i = i + 1;
    }
    false
}

pub open spec fn begins(s: Seq<char>, pre: Seq<char>) -> bool {
    occurs_at(s, pre, 0)
}

pub open spec fn finishes(s: Seq<char>, post: Seq<char>) -> bool {
    occurs_at(s, post, s.len() - post.len())
}

pub fn starts_with(s: &str, pre: &str) -> (r: bool)
    ensures
        r == begins(s@, pre@),
{
    matches_at(&chars_of(s), &chars_of(pre), 0)
}

pub fn ends_with(s: &str, post: &str) -> (r: bool)
    ensures
        r == finishes(s@, post@),
{
    let sv = chars_of(s);
    let pv = chars_of(post);
    if sv.len() < pv.len() {
        return false;
    }
    matches_at(&sv, &pv, sv.len() - pv.len())
}

/// Every occurrence of `pat`, found from the left and not overlapping,
/// replaced by `by`.
pub open spec fn replaced(s: Seq<char>, pat: Seq<char>, by: Seq<char>) -> Seq<char>
    decreases s.len(),
{
    if pat.len() == 0 || s.len() == 0 {
        s
    } else if occurs_at(s, pat, 0) {
        by + replaced(s.skip(pat.len() as int), pat, by)
    } else {
        seq![s[0]] + replaced(s.drop_first(), pat, by)
    }
}

/// Every occurrence of a non-empty pattern replaced.
pub fn replace(s: &str, pat: &str, by: &str) -> (r: String)
    requires
        pat@.len() > 0,
    ensures
        r@ == replaced(s@, pat@, by@),
{
    let sv = chars_of(s);
    let pv = chars_of(pat);
    let mut out = String::new();
    let mut i: usize = 0;
    proof {
        assert(sv@.skip(0) =~= sv@);
        assert(seq![] + replaced(s@, pat@, by@) =~= replaced(s@, pat@, by@));
    }
    while i < sv.len()
        invariant
            i <= sv.len(),
            sv@ == s@,
            pv@ == pat@,
            pat@.len() > 0,
            out@ + replaced(s@.skip(i as int), pat@, by@) == replaced(s@, pat@, by@),
        decreases sv.len() - i,
    {
        let ghost before = out@;
        let ghost rest = s@.skip(i as int);
        if matches_at(&sv, &pv, i) {
            proof {
                assert(rest.subrange(0, pat@.len() as int) =~= s@.subrange(
                    i as int,
                    i + pat@.len(),
                ));
                assert(occurs_at(rest, pat@, 0));
                assert(rest.skip(pat@.len() as int) =~= s@.skip(i + pat@.len()));
            }
            out.append(by);
            i = i + pv.len();
            proof {
                assert(before + (by@ + replaced(s@.skip(i as int), pat@, by@)) =~= out@ + replaced(
                    s@.skip(i as int),
                    pat@,
                    by@,
                ));
            }
        } else {
            proof {
                if occurs_at(rest, pat@, 0) {
                    assert(rest.subrange(0, pat@.len() as int) =~= s@.subrange(
                        i as int,
                        i + pat@.len(),
                    ));
                }
                assert(rest.drop_first() =~= s@.skip(i + 1));
                assert(rest[0] == s@[i as int]);
            }
            out.push(sv[i]);
            i = i + 1;
            proof {
                assert(before + (seq![rest[0]] + replaced(s@.skip(i as int), pat@, by@)) =~= out@
                    + replaced(s@.skip(i as int), pat@, by@));
            }
        }
    }
    proof {
        assert(s@.skip(s@.len() as int) =~= seq![]);
        assert(out@ + seq![] =~= out@);
    }
    out
}

// --------------------------------------------------------------- comparing

/// Lexicographic order of characters, which is also the order of the UTF-8
/// bytes.
pub open spec fn before(a: Seq<char>, b: Seq<char>) -> bool
    decreases a.len(),
{
    if b.len() == 0 {
        false
    } else if a.len() == 0 {
        true
    } else if a[0] != b[0] {
        (a[0] as int) < (b[0] as int)
    } else {
        before(a.drop_first(), b.drop_first())
    }
}

/// Whether `a` comes strictly before `b`.
pub fn is_before(a: &str, b: &str) -> (r: bool)
    ensures
        r == before(a@, b@),
{
    let av = chars_of(a);
    let bv = chars_of(b);
    let mut i: usize = 0;
    proof {
        assert(av@.skip(0) =~= av@);
        assert(bv@.skip(0) =~= bv@);
    }
    while i < av.len() && i < bv.len()
        invariant
            i <= av.len(),
            i <= bv.len(),
            before(a@, b@) == before(av@.skip(i as int), bv@.skip(i as int)),
        decreases av.len() - i,
    {
        proof {
            assert(av@.skip(i as int)[0] == av@[i as int]);
            assert(bv@.skip(i as int)[0] == bv@[i as int]);
            assert(av@.skip(i as int).drop_first() =~= av@.skip(i + 1));
            assert(bv@.skip(i as int).drop_first() =~= bv@.skip(i + 1));
        }
        if av[i] != bv[i] {
            return code(av[i]) < code(bv[i]);
        }
        i = i + 1;
    }
    i < bv.len()
}

pub proof fn lemma_before_irreflexive(a: Seq<char>)
    ensures
        !before(a, a),
    decreases a.len(),
{
    if a.len() > 0 {
        lemma_before_irreflexive(a.drop_first());
    }
}

pub proof fn lemma_before_transitive(a: Seq<char>, b: Seq<char>, c: Seq<char>)
    requires
        before(a, b),
        before(b, c),
    ensures
        before(a, c),
    decreases a.len(),
{
    if a.len() > 0 && b.len() > 0 && c.len() > 0 && a[0] == b[0] && b[0] == c[0] {
        lemma_before_transitive(a.drop_first(), b.drop_first(), c.drop_first());
    }
}

pub proof fn lemma_before_total(a: Seq<char>, b: Seq<char>)
    ensures
        before(a, b) || before(b, a) || a == b,
    decreases a.len(),
{
    if a.len() > 0 && b.len() > 0 && a[0] == b[0] {
        lemma_before_total(a.drop_first(), b.drop_first());
        if a.drop_first() == b.drop_first() {
            assert(a =~= seq![a[0]] + a.drop_first());
            assert(b =~= seq![b[0]] + b.drop_first());
        }
    } else if a.len() == 0 && b.len() == 0 {
        assert(a =~= b);
    } else if a.len() > 0 && b.len() > 0 {
        assert(a[0] as int != b[0] as int);
        assert(before(a, b) || before(b, a));
    }
}

// ----------------------------------------------------------------- numbers

pub open spec fn digit(n: int) -> char {
    (0x30 + n) as char
}

/// `n` in decimal, without leading zeros.
pub open spec fn digits(n: nat) -> Seq<char>
    decreases n,
{
    if n < 10 {
        seq![digit(n as int)]
    } else {
        digits(n / 10).push(digit((n % 10) as int))
    }
}

/// `n` in decimal, with a minus sign where it is negative.
pub open spec fn decimal(n: int) -> Seq<char> {
    if n < 0 {
        seq!['-'] + digits((-n) as nat)
    } else {
        digits(n as nat)
    }
}

fn digit_char(d: u8) -> (c: char)
    requires
        d < 10,
    ensures
        c == digit(d as int),
{
    (0x30 + d) as char
}

/// A natural number in decimal.
pub fn of_u128(n: u128) -> (r: String)
    ensures
        r@ == digits(n as nat),
    decreases n,
{
    let d: u8 = (n % 10) as u8;
    if n < 10 {
        let mut s = String::new();
        s.push(digit_char(d));
        proof {
            assert(s@ =~= digits(n as nat));
        }
        s
    } else {
        let mut s = of_u128(n / 10);
        s.push(digit_char(d));
        s
    }
}

pub fn of_u64(n: u64) -> (r: String)
    ensures
        r@ == decimal(n as int),
{
    of_u128(n as u128)
}

pub fn of_usize(n: usize) -> (r: String)
    ensures
        r@ == decimal(n as int),
{
    of_u128(n as u128)
}

/// An integer in decimal.
pub fn of_i64(n: i64) -> (r: String)
    ensures
        r@ == decimal(n as int),
{
    if n < 0 {
        let m: u128 = (-(n as i128)) as u128;
        let d = of_u128(m);
        proof {
            reveal_strlit("-");
            assert("-"@ =~= seq!['-']);
        }
        let mut s = owned("-");
        s.append(d.as_str());
        s
    } else {
        of_u128(n as u128)
    }
}

pub open spec fn is_digit(c: char) -> bool {
    0x30 <= c as int <= 0x39
}

/// The number a run of decimal digits spells.
pub open spec fn number(s: Seq<char>) -> nat
    decreases s.len(),
{
    if s.len() == 0 {
        0
    } else {
        number(s.drop_last()) * 10 + ((s.last() as int - 0x30) as nat)
    }
}

pub open spec fn all_digits(s: Seq<char>) -> bool {
    forall|i: int| 0 <= i < s.len() ==> is_digit(#[trigger] s[i])
}

/// The digits of a number spell it.
pub proof fn lemma_digits(n: nat)
    ensures
        digits(n).len() > 0,
        all_digits(digits(n)),
        number(digits(n)) == n,
    decreases n,
{
    if n < 10 {
        let d = digits(n);
        assert(d.drop_last() =~= seq![]);
        assert(number(d.drop_last()) == 0);
        assert(d.last() as int == 0x30 + n);
    } else {
        lemma_digits(n / 10);
        let d = digits(n);
        let h = digits(n / 10);
        assert(d.drop_last() =~= h);
        assert(d.last() as int == 0x30 + n % 10);
        assert forall|i: int| 0 <= i < d.len() implies is_digit(#[trigger] d[i]) by {
            if i < h.len() {
                assert(d[i] == h[i]);
            }
        }
    }
}

/// Two numbers with the same decimals are the same.
pub proof fn lemma_decimal(a: int, b: int)
    ensures
        decimal(a) == decimal(b) <==> a == b,
        decimal(a).len() > 0,
        forall|i: int|
            0 <= i < decimal(a).len() ==> is_digit(#[trigger] decimal(a)[i]) || decimal(a)[i]
                == '-',
        decimal(a).len() == 1 ==> is_digit(decimal(a)[0]),
{
    let (x, y) = (if a < 0 {
        (-a) as nat
    } else {
        a as nat
    }, if b < 0 {
        (-b) as nat
    } else {
        b as nat
    });
    lemma_digits(x);
    lemma_digits(y);
    assert(is_digit(digits(x)[0]) && is_digit(digits(y)[0]));
    if decimal(a) == decimal(b) {
        if a < 0 {
            assert(decimal(a)[0] == '-');
            assert(decimal(a).skip(1) =~= digits(x));
            if b < 0 {
                assert(decimal(b).skip(1) =~= digits(y));
            }
        } else if b < 0 {
            assert(decimal(b)[0] == '-');
        }
    }
    assert forall|i: int| 0 <= i < decimal(a).len() implies is_digit(#[trigger] decimal(a)[i])
        || decimal(a)[i] == '-' by {
        if a < 0 && i > 0 {
            assert(decimal(a)[i] == digits(x)[i - 1]);
        } else if a >= 0 {
            assert(decimal(a)[i] == digits(x)[i]);
        }
    }
}

/// Reading a run of digits, stopping once it exceeds `limit`.
fn read_number(v: &Vec<char>, from: usize, limit: u128) -> (r: Option<u128>)
    requires
        from <= v.len(),
        limit < 0x1_0000_0000_0000_0000_0000,
    ensures
        match r {
            Some(n) => all_digits(v@.skip(from as int)) && n == number(v@.skip(from as int)) && n
                <= limit,
            None => !all_digits(v@.skip(from as int)) || number(v@.skip(from as int)) > limit,
        },
{
    let mut n: u128 = 0;
    let mut i: usize = from;
    proof {
        assert(v@.subrange(from as int, from as int) =~= seq![]);
    }
    while i < v.len()
        invariant
            from <= i <= v.len(),
            limit < 0x1_0000_0000_0000_0000_0000,
            n <= limit,
            all_digits(v@.subrange(from as int, i as int)),
            n == number(v@.subrange(from as int, i as int)),
        decreases v.len() - i,
    {
        let c = v[i];
        let ghost rest = v@.skip(from as int);
        proof {
            assert(rest[i - from] == v@[i as int]);
        }
        let k = code(c);
        if k < 0x30 || k > 0x39 {
            return None;
        }
        proof {
            let s = v@.subrange(from as int, i + 1);
            assert(s.drop_last() =~= v@.subrange(from as int, i as int));
            assert(s.last() == c);
            assert(all_digits(s)) by {
                assert forall|j: int| 0 <= j < s.len() implies is_digit(#[trigger] s[j]) by {
                    if j < i - from {
                        assert(s[j] == v@.subrange(from as int, i as int)[j]);
                    }
                }
            }
        }
        n = n * 10 + (k - 0x30) as u128;
        i = i + 1;
        if n > limit {
            proof {
                lemma_number_grows(rest, i - from);
                assert(rest.take(i - from) =~= v@.subrange(from as int, i as int));
            }
            return None;
        }
    }
    proof {
        assert(v@.subrange(from as int, v@.len() as int) =~= v@.skip(from as int));
    }
    Some(n)
}

/// A run of digits never spells less than its beginning does.
proof fn lemma_number_grows(s: Seq<char>, k: int)
    requires
        0 <= k <= s.len(),
    ensures
        all_digits(s) ==> number(s) >= number(s.take(k)),
    decreases s.len(),
{
    if k == s.len() {
        assert(s.take(k) =~= s);
    } else {
        lemma_number_grows(s.drop_last(), k);
        assert(s.drop_last().take(k) =~= s.take(k));
        if all_digits(s) {
            assert(all_digits(s.drop_last())) by {
                assert forall|i: int| 0 <= i < s.len() - 1 implies is_digit(
                    #[trigger] s.drop_last()[i],
                ) by {
                    assert(s.drop_last()[i] == s[i]);
                }
            }
            assert(number(s) >= number(s.drop_last()) * 10);
        }
    }
}

/// What `s` spells as an integer: an optional sign, then digits and nothing
/// else.
pub open spec fn integer(s: Seq<char>) -> Option<int> {
    let signed = s.len() > 0 && (s[0] == '+' || s[0] == '-');
    let body = if signed {
        s.skip(1)
    } else {
        s
    };
    if body.len() == 0 || !all_digits(body) {
        None
    } else if signed && s[0] == '-' {
        Some(-(number(body) as int))
    } else {
        Some(number(body) as int)
    }
}

/// Reads an `i64`, as `str::parse` does.
pub fn parse_i64(s: &str) -> (r: Option<i64>)
    ensures
        r == (match integer(s@) {
            Some(n) => if i64::MIN <= n <= i64::MAX {
                Some(n as i64)
            } else {
                None
            },
            None => None,
        }),
{
    let v = chars_of(s);
    let signed = v.len() > 0 && (v[0] == '+' || v[0] == '-');
    let minus = signed && v[0] == '-';
    let from: usize = if signed {
        1
    } else {
        0
    };
    proof {
        assert(v@.skip(0) =~= v@);
    }
    if v.len() == from {
        return None;
    }
    let limit: u128 = if minus {
        0x8000_0000_0000_0000
    } else {
        0x7fff_ffff_ffff_ffff
    };
    match read_number(&v, from, limit) {
        None => None,
        Some(n) => if minus {
            Some((-(n as i128)) as i64)
        } else {
            Some(n as i64)
        },
    }
}

/// Reads a `u64`, as `str::parse` does: no minus sign.
pub fn parse_u64(s: &str) -> (r: Option<u64>)
    ensures
        r == (match integer(s@) {
            Some(n) => if s@[0] != '-' && n <= u64::MAX {
                Some(n as u64)
            } else {
                None
            },
            None => None,
        }),
{
    let v = chars_of(s);
    if v.len() == 0 {
        return None;
    }
    let from: usize = if v[0] == '+' {
        1
    } else {
        0
    };
    proof {
        assert(v@.skip(0) =~= v@);
        if v@[0] == '-' {
            assert(v@.skip(0)[0] == '-');
        }
    }
    if v.len() == from {
        return None;
    }
    match read_number(&v, from, 0xffff_ffff_ffff_ffff) {
        None => None,
        Some(n) => Some(n as u64),
    }
}

/// What `{:?}` makes of a string: in quotes, with what cannot be shown escaped.
pub uninterp spec fn quoted(s: Seq<char>) -> Seq<char>;

/// `format!` with `{:?}` on a string.
#[verifier::external_body]
pub(crate) fn quote(s: &str) -> (r: String)
    ensures
        r@ == quoted(s@),
{
    format!("{:?}", s)
}

/// An ASCII capital made small; every other character as it is.
pub open spec fn small(c: char) -> char {
    if 0x41 <= c as int <= 0x5a {
        (c as int + 0x20) as char
    } else {
        c
    }
}

/// ASCII capitals made small.
pub open spec fn folded(s: Seq<char>) -> Seq<char> {
    s.map_values(|c: char| small(c))
}

/// ASCII capitals made small.
pub fn fold(s: &str) -> (r: String)
    ensures
        r@ == folded(s@),
{
    let v = chars_of(s);
    let mut out = String::new();
    let mut i: usize = 0;
    while i < v.len()
        invariant
            i <= v.len(),
            v@ == s@,
            out@ == folded(s@).take(i as int),
        decreases v.len() - i,
    {
        let c = v[i];
        let n = code(c);
        if 0x41 <= n && n <= 0x5a {
            out.push((n as u8 + 0x20) as char);
        } else {
            out.push(c);
        }
        proof {
            assert(out@ =~= folded(s@).take(i + 1));
        }
        i = i + 1;
    }
    proof {
        assert(folded(s@).take(s@.len() as int) =~= folded(s@));
    }
    out
}

} // verus!
