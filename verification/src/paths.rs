//! Unix paths as strings: the last name, the directory above, one path under
//! another.

use vstd::prelude::*;

use crate::text;

verus! {

/// A path without the slashes and the lone dots at its end.
pub open spec fn trimmed(p: Seq<char>) -> Seq<char>
    decreases p.len(),
{
    if p.len() >= 2 && p.last() == '/' {
        trimmed(p.drop_last())
    } else if p.len() >= 2 && p.last() == '.' && p[p.len() - 2] == '/' {
        trimmed(p.drop_last())
    } else {
        p
    }
}

/// Just past the last slash of `p`, or 0.
pub open spec fn after_slash(p: Seq<char>) -> int
    decreases p.len(),
{
    if p.len() == 0 {
        0
    } else if p.last() == '/' {
        p.len() as int
    } else {
        after_slash(p.drop_last())
    }
}

/// The last name on a path, unless that is the root, `.` or `..`.
pub open spec fn name_of(p: Seq<char>) -> Option<Seq<char>> {
    let t = trimmed(p);
    let n = t.skip(after_slash(t));
    if n.len() == 0 || n == seq!['.'] || n == seq!['.', '.'] {
        None
    } else {
        Some(n)
    }
}

/// The path above: `None` for the root and for the empty path.
pub open spec fn above(p: Seq<char>) -> Option<Seq<char>> {
    let t = trimmed(p);
    let k = after_slash(t);
    if t.len() == 0 || k == t.len() {
        None
    } else if k == 0 {
        Some(seq![])
    } else {
        Some(trimmed(t.take(k)))
    }
}

/// `part` under `base`; an absolute `part` stands alone.
pub open spec fn under(base: Seq<char>, part: Seq<char>) -> Seq<char> {
    if part.len() > 0 && part[0] == '/' {
        part
    } else if base.len() == 0 || base.last() == '/' {
        base + part
    } else {
        base + seq!['/'] + part
    }
}

fn trim_end(v: &Vec<char>, to: usize) -> (n: usize)
    requires
        to <= v.len(),
    ensures
        n <= to,
        v@.take(n as int) == trimmed(v@.take(to as int)),
{
    let mut n: usize = to;
    while n >= 2 && (v[n - 1] == '/' || (v[n - 1] == '.' && v[n - 2] == '/'))
        invariant
            n <= to <= v.len(),
            trimmed(v@.take(n as int)) == trimmed(v@.take(to as int)),
        decreases n,
    {
        proof {
            assert(v@.take(n as int).drop_last() =~= v@.take(n - 1));
        }
        n = n - 1;
    }
    n
}

fn last_slash(v: &Vec<char>, to: usize) -> (k: usize)
    requires
        to <= v.len(),
    ensures
        k <= to,
        k == after_slash(v@.take(to as int)),
{
    let mut k: usize = to;
    while k > 0 && v[k - 1] != '/'
        invariant
            k <= to <= v.len(),
            after_slash(v@.take(k as int)) == after_slash(v@.take(to as int)),
        decreases k,
    {
        proof {
            assert(v@.take(k as int).drop_last() =~= v@.take(k - 1));
        }
        k = k - 1;
    }
    k
}

/// The last name on a path.
pub fn file_name(p: &str) -> (r: Option<String>)
    ensures
        text::opt_view(r) == name_of(p@),
{
    let v = text::chars_of(p);
    let n = trim_end(&v, v.len());
    let k = last_slash(&v, n);
    let name = text::string_of(&v, k, n);
    proof {
        assert(v@.take(v@.len() as int) =~= v@);
        assert(name@ =~= trimmed(p@).skip(k as int));
        reveal_strlit(".");
        reveal_strlit("..");
        assert("."@ =~= seq!['.']);
        assert(".."@ =~= seq!['.', '.']);
    }
    if n == k || text::same(name.as_str(), ".") || text::same(name.as_str(), "..") {
        None
    } else {
        Some(name)
    }
}

/// The path above.
pub fn parent(p: &str) -> (r: Option<String>)
    ensures
        text::opt_view(r) == above(p@),
{
    let v = text::chars_of(p);
    let n = trim_end(&v, v.len());
    let k = last_slash(&v, n);
    proof {
        assert(v@.take(v@.len() as int) =~= v@);
    }
    if n == k {
        return None;
    }
    if k == 0 {
        return Some(String::new());
    }
    let m = trim_end(&v, k);
    proof {
        assert(v@.take(n as int).take(k as int) =~= v@.take(k as int));
        assert(v@.subrange(0, m as int) =~= v@.take(m as int));
    }
    Some(text::string_of(&v, 0, m))
}

/// One path under another.
pub fn join(base: &str, part: &str) -> (r: String)
    ensures
        r@ == under(base@, part@),
{
    let bv = text::chars_of(base);
    let pv = text::chars_of(part);
    if pv.len() > 0 && pv[0] == '/' {
        text::owned(part)
    } else if bv.len() == 0 || bv[bv.len() - 1] == '/' {
        text::cat2(base, part)
    } else {
        proof {
            reveal_strlit("/");
            assert("/"@ =~= seq!['/']);
        }
        text::cat3(base, "/", part)
    }
}

/// A name without a slash, put under a directory, is that path's last name.
pub proof fn lemma_name_under(base: Seq<char>, part: Seq<char>)
    requires
        part.len() > 0,
        !part.contains('/'),
        part != seq!['.'],
        part != seq!['.', '.'],
    ensures
        name_of(under(base, part)) == Some(part),
{
    let p = under(base, part);
    let pre = p.take(p.len() - part.len());
    assert(part[0] != '/');
    assert(p =~= pre + part);
    assert(part.last() != '/');
    if p.len() >= 2 && p.last() == '.' && p[p.len() - 2] == '/' {
        if part.len() >= 2 {
            assert(p[p.len() - 2] == part[part.len() - 2]);
        } else {
            assert(part =~= seq!['.']);
        }
    }
    assert(trimmed(p) == p);
    assert(pre.len() == 0 || pre.last() == '/');
    lemma_after_slash_tail(pre, part);
    assert(p.skip(pre.len() as int) =~= part);
}

/// A name without a slash, put under a directory that does not end in one or in
/// a dot, has that directory above it.
pub proof fn lemma_above_under(base: Seq<char>, part: Seq<char>)
    requires
        base.len() > 0,
        base.last() != '/',
        base.last() != '.',
        part.len() > 0,
        !part.contains('/'),
        part[0] != '.',
    ensures
        above(under(base, part)) == Some(base),
{
    let p = under(base, part);
    let pre = base + seq!['/'];
    assert(part.contains(part[0]));
    assert(part.contains(part.last()));
    assert(p =~= pre + part);
    if p.last() == '.' && p[p.len() - 2] == '/' {
        if part.len() >= 2 {
            assert(p[p.len() - 2] == part[part.len() - 2]);
            assert(part.contains(part[part.len() - 2]));
        }
    }
    assert(trimmed(p) == p);
    lemma_after_slash_tail(pre, part);
    assert(p.take(pre.len() as int) =~= pre);
    assert(pre.drop_last() =~= base);
    assert(trimmed(pre) == trimmed(base));
}

pub proof fn lemma_after_slash_tail(pre: Seq<char>, part: Seq<char>)
    requires
        pre.len() == 0 || pre.last() == '/',
        !part.contains('/'),
    ensures
        after_slash(pre + part) == pre.len(),
    decreases part.len(),
{
    if part.len() == 0 {
        assert(pre + part =~= pre);
    } else {
        assert(part.contains(part.last()));
        assert((pre + part).drop_last() =~= pre + part.drop_last());
        assert(!part.drop_last().contains('/')) by {
            if part.drop_last().contains('/') {
                let i = choose|i: int| 0 <= i < part.len() - 1 && part.drop_last()[i] == '/';
                assert(part[i] == '/');
            }
        }
        lemma_after_slash_tail(pre, part.drop_last());
    }
}

} // verus!
