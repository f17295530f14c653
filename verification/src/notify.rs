//! What a notification shows.

use vstd::prelude::*;
use vstd::utf8::encode_utf8;

use crate::text;

verus! {

broadcast use vstd::seq_lib::group_seq_properties;

/// How many characters of a body are shown.
pub const BODY_CHARS: usize = 160;

/// Where the last space stands.
pub open spec fn last_space(s: Seq<char>) -> Option<int>
    decreases s.len(),
{
    if s.len() == 0 {
        None
    } else if s.last() == ' ' {
        Some(s.len() - 1)
    } else {
        last_space(s.drop_last())
    }
}

/// A text cut at a length, at a word where one ends in the second half of its
/// bytes.
pub open spec fn clipped(s: Seq<char>, max: nat) -> Seq<char> {
    let t = text::trimmed(s);
    if t.len() <= max {
        t
    } else {
        let cut = t.take(max as int);
        match last_space(cut) {
            Some(k) => if encode_utf8(cut.take(k)).len() > max / 2 {
                cut.take(k).push('…')
            } else {
                cut.push('…')
            },
            None => cut.push('…'),
        }
    }
}

proof fn lemma_last_space(s: Seq<char>)
    ensures
        match last_space(s) {
            Some(k) => 0 <= k < s.len() && s[k] == ' ',
            None => true,
        },
    decreases s.len(),
{
    if s.len() > 0 && s.last() != ' ' {
        lemma_last_space(s.drop_last());
    }
}

fn find_last_space(v: &Vec<char>, n: usize) -> (r: Option<usize>)
    requires
        n <= v@.len(),
    ensures
        match r {
            Some(k) => last_space(v@.take(n as int)) == Some(k as int) && k < n,
            None => last_space(v@.take(n as int)) is None,
        },
{
    let mut i: usize = n;
    while i > 0
        invariant
            i <= n <= v.len(),
            last_space(v@.take(n as int)) == last_space(v@.take(i as int)),
        decreases i,
    {
        proof {
            assert(v@.take(i as int).drop_last() =~= v@.take(i - 1));
            assert(v@.take(i as int).last() == v@[i - 1]);
        }
        if v[i - 1] == ' ' {
            return Some(i - 1);
        }
        i = i - 1;
    }
    proof {
        assert(v@.take(0) =~= seq![]);
    }
    None
}

/// A body with a ceiling: it comes from a model. Cutting at a word keeps the
/// first sentence readable.
pub fn clip(s: &str, max: usize) -> (r: String)
    ensures
        r@ == clipped(s@, max as nat),
{
    let t = text::trim(s);
    let v = text::chars_of(t.as_str());
    if v.len() <= max {
        return t;
    }
    let ghost cut = t@.take(max as int);
    let mut end: usize = max;
    if let Some(k) = find_last_space(&v, max) {
        let head = text::string_of(&v, 0, k);
        proof {
            assert(head@ =~= cut.take(k as int));
        }
        if head.as_str().as_bytes().len() > max / 2 {
            end = k;
        }
    }
    let mut r = text::string_of(&v, 0, end);
    proof {
        assert(r@ =~= t@.take(end as int));
        assert(cut.take(end as int) =~= t@.take(end as int));
    }
    r.push('…');
    r
}

/// A text that is cut is what the text begins with, and no longer than the
/// ceiling, before the mark that it was cut.
pub proof fn a_clipped_text_is_the_beginning(s: Seq<char>, max: nat)
    ensures
        text::trimmed(s).len() <= max ==> clipped(s, max) == text::trimmed(s),
        text::trimmed(s).len() > max ==> ({
            let c = clipped(s, max);
            &&& 0 < c.len() <= max + 1
            &&& c.last() == '…'
            &&& c.drop_last() == text::trimmed(s).take(c.len() - 1)
        }),
{
    let t = text::trimmed(s);
    if t.len() > max {
        let cut = t.take(max as int);
        lemma_last_space(cut);
        let c = clipped(s, max);
        assert(c.drop_last() =~= t.take(c.len() - 1));
    }
}

/// Clipping what was clipped changes nothing more.
pub proof fn clipping_twice_is_clipping_once(s: Seq<char>, max: nat)
    ensures
        clipped(clipped(s, max), max) == clipped(s, max),
{
    let t = text::trimmed(s);
    let c = clipped(s, max);
    text::lemma_trimmed_ends(s);
    if t.len() <= max {
        text::lemma_trimmed_already(t);
    } else {
        let cut = t.take(max as int);
        lemma_last_space(cut);
        if last_space(cut) is Some && last_space(cut)->0 == 0 {
            assert(cut.take(0) =~= seq![]);
            assert(encode_utf8(cut.take(0)).len() == 0);
        }
        assert(c[0] == t[0] || c[0] == '…');
        text::lemma_trimmed_already(c);
        if c.len() > max {
            assert(c.take(max as int) =~= cut);
        }
    }
}

} // verus!
