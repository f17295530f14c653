//! Which microphones can be recorded from, out of what PipeWire lists.
//!
//! Whatever cannot be read is no source: a machine without PipeWire can still
//! record from the system's default.

use vstd::prelude::*;

use crate::json;
use crate::json::docs;
use crate::json::Doc;
use crate::json::Json;
use crate::models::AudioSource;
use crate::sort;
use crate::sort::deep;
use crate::sort::Ranked;
use crate::text;

verus! {

broadcast use vstd::seq_lib::group_seq_properties;

/// The text under a name, where it is not empty.
pub open spec fn filled(props: Doc, name: Seq<char>) -> Option<Seq<char>> {
    match props.field(name).string() {
        Some(s) => if s.len() == 0 {
            None
        } else {
            Some(s)
        },
        None => None,
    }
}

/// What a person reads: the description, else the nick, else the node's name.
pub open spec fn label_in(props: Doc, name: Seq<char>) -> Seq<char> {
    match (filled(props, "node.description"@), filled(props, "node.nick"@)) {
        (Some(d), _) => d,
        (None, Some(n)) => n,
        (None, None) => name,
    }
}

/// The source that an object is, where it is a capture node with a name.
pub open spec fn source_in(object: Doc) -> Option<AudioSource<Seq<char>>> {
    let props = object.field("info"@).field("props"@);
    if props.field("media.class"@).string() != Some("Audio/Source"@) {
        None
    } else {
        match filled(props, "node.name"@) {
            Some(name) => Some(AudioSource { target: name, label: label_in(props, name) }),
            None => None,
        }
    }
}

/// The sources among objects.
pub open spec fn sources_among(objects: Seq<Doc>) -> Seq<AudioSource<Seq<char>>>
    decreases objects.len(),
{
    if objects.len() == 0 {
        seq![]
    } else {
        match source_in(objects.last()) {
            Some(s) => sources_among(objects.drop_last()).push(s),
            None => sources_among(objects.drop_last()),
        }
    }
}

/// By label, and by node where two have the same one.
pub open spec fn label_leq(a: AudioSource<Seq<char>>, b: AudioSource<Seq<char>>) -> bool {
    text::before(a.label, b.label) || (a.label == b.label && !text::before(b.target, a.target))
}

pub open spec fn label_order() -> spec_fn(AudioSource<Seq<char>>, AudioSource<Seq<char>>) -> bool {
    |a: AudioSource<Seq<char>>, b: AudioSource<Seq<char>>| label_leq(a, b)
}

impl Ranked for AudioSource {
    open spec fn leq() -> spec_fn(AudioSource<Seq<char>>, AudioSource<Seq<char>>) -> bool {
        label_order()
    }

    proof fn total() {
        let leq = Self::leq();
        assert forall|a: AudioSource<Seq<char>>| #[trigger] leq(a, a) by {
            text::lemma_before_irreflexive(a.target);
        }
        assert forall|a: AudioSource<Seq<char>>, b: AudioSource<Seq<char>>| #[trigger] leq(a, b)
            && #[trigger] leq(b, a) implies a == b by {
            if text::before(a.label, b.label) && text::before(b.label, a.label) {
                text::lemma_before_transitive(a.label, b.label, a.label);
            }
            text::lemma_before_irreflexive(a.label);
            text::lemma_before_total(a.target, b.target);
        }
        assert forall|
            a: AudioSource<Seq<char>>,
            b: AudioSource<Seq<char>>,
            c: AudioSource<Seq<char>>,
        | #[trigger] leq(a, b) && #[trigger] leq(b, c) implies leq(a, c) by {
            if text::before(a.label, b.label) && text::before(b.label, c.label) {
                text::lemma_before_transitive(a.label, b.label, c.label);
            }
            text::lemma_before_irreflexive(a.label);
            if a.label == b.label && b.label == c.label && text::before(c.target, a.target) {
                text::lemma_before_total(a.target, b.target);
                text::lemma_before_total(b.target, c.target);
                if a.target != b.target && b.target != c.target {
                    text::lemma_before_transitive(a.target, b.target, c.target);
                    text::lemma_before_transitive(a.target, c.target, a.target);
                    text::lemma_before_irreflexive(a.target);
                }
            }
        }
        assert forall|a: AudioSource<Seq<char>>, b: AudioSource<Seq<char>>| #[trigger] leq(a, b)
            || #[trigger] leq(b, a) by {
            text::lemma_before_total(a.label, b.label);
            if text::before(a.target, b.target) && text::before(b.target, a.target) {
                text::lemma_before_transitive(a.target, b.target, a.target);
                text::lemma_before_irreflexive(a.target);
            }
        }
    }

    fn ranks(&self, other: &Self) -> (r: bool) {
        text::is_before(self.label.as_str(), other.label.as_str()) || (text::same(
            self.label.as_str(),
            other.label.as_str(),
        ) && !text::is_before(other.target.as_str(), self.target.as_str()))
    }
}

/// The node is in the list.
pub open spec fn lists(s: Seq<AudioSource<Seq<char>>>, target: Seq<char>) -> bool {
    exists|i: int| 0 <= i < s.len() && (#[trigger] s[i]).target == target
}

/// The first entry of each node.
pub open spec fn firsts(s: Seq<AudioSource<Seq<char>>>) -> Seq<AudioSource<Seq<char>>>
    decreases s.len(),
{
    if s.len() == 0 {
        seq![]
    } else {
        let f = firsts(s.drop_last());
        if lists(f, s.last().target) {
            f
        } else {
            f.push(s.last())
        }
    }
}

/// What is offered: sorted, so that the list does not reshuffle, and each node
/// once.
pub open spec fn offered(s: Seq<AudioSource<Seq<char>>>) -> Seq<AudioSource<Seq<char>>> {
    firsts(s.sort_by(label_order()))
}

/// What a listing offers; nothing where it is no list.
pub open spec fn sources_in(listing: Doc) -> Seq<AudioSource<Seq<char>>> {
    match listing.array() {
        Some(objects) => offered(sources_among(objects)),
        None => seq![],
    }
}

fn at<'a>(props: &'a Json, name: &str) -> (r: Option<&'a str>)
    ensures
        match r {
            Some(s) => filled(props.deep_view(), name@) == Some(s@),
            None => filled(props.deep_view(), name@) is None,
        },
{
    match props.str_at(name) {
        Some(s) => if s.is_empty() {
            None
        } else {
            Some(s)
        },
        None => None,
    }
}

fn read_source(object: &Json) -> (r: Option<AudioSource>)
    ensures
        match r {
            Some(s) => source_in(object.deep_view()) == Some(s.deep_view()),
            None => source_in(object.deep_view()) is None,
        },
{
    let info = match object.get("info") {
        Some(i) => i,
        None => {
            return None;
        },
    };
    let props = match info.get("props") {
        Some(p) => p,
        None => {
            return None;
        },
    };
    let capture = match props.str_at("media.class") {
        Some(c) => text::same(c, "Audio/Source"),
        None => false,
    };
    if !capture {
        return None;
    }
    let name = match at(props, "node.name") {
        Some(n) => n,
        None => {
            return None;
        },
    };
    let label = match at(props, "node.description") {
        Some(d) => d,
        None => match at(props, "node.nick") {
            Some(n) => n,
            None => name,
        },
    };
    Some(AudioSource { target: text::owned(name), label: text::owned(label) })
}

fn has_target(v: &Vec<AudioSource>, target: &str) -> (r: bool)
    ensures
        r == lists(deep(v@), target@),
{
    let ghost s = deep(v@);
    let mut i: usize = 0;
    while i < v.len()
        invariant
            i <= v.len(),
            s == deep(v@),
            forall|j: int| 0 <= j < i ==> (#[trigger] s[j]).target != target@,
        decreases v.len() - i,
    {
        if text::same(v[i].target.as_str(), target) {
            proof {
                assert(s[i as int].target == target@);
            }
            return true;
        }
        i = i + 1;
    }
    false
}

/// The sources that a listing offers.
pub fn list_sources(listing: &Json) -> (r: Vec<AudioSource>)
    ensures
        deep(r@) == sources_in(listing.deep_view()),
{
    let mut found: Vec<AudioSource> = Vec::new();
    let objects = match listing.as_array() {
        Some(v) => v,
        None => {
            proof {
                assert(deep(found@) =~= seq![]);
            }
            return found;
        },
    };
    let ghost all = docs(objects@);
    let mut i: usize = 0;
    proof {
        assert(deep(found@) =~= seq![]);
        assert(all.take(0) =~= seq![]);
    }
    while i < objects.len()
        invariant
            i <= objects.len(),
            all == docs(objects@),
            deep(found@) == sources_among(all.take(i as int)),
        decreases objects.len() - i,
    {
        proof {
            assert(all.take(i + 1).drop_last() =~= all.take(i as int));
            assert(all.take(i + 1).last() == objects@[i as int].deep_view());
        }
        if let Some(source) = read_source(&objects[i]) {
            let ghost before = deep(found@);
            let ghost x = source.deep_view();
            found.push(source);
            proof {
                assert(deep(found@) =~= before.push(x));
            }
        }
        i = i + 1;
    }
    proof {
        assert(all.take(all.len() as int) =~= all);
    }
    let sorted = sort::sort(found);
    let ghost s = deep(sorted@);
    let mut out: Vec<AudioSource> = Vec::new();
    let mut k: usize = 0;
    proof {
        assert(deep(out@) =~= seq![]);
        assert(s.take(0) =~= seq![]);
    }
    while k < sorted.len()
        invariant
            k <= sorted.len(),
            s == deep(sorted@),
            deep(out@) == firsts(s.take(k as int)),
        decreases sorted.len() - k,
    {
        proof {
            assert(s.take(k + 1).drop_last() =~= s.take(k as int));
            assert(s.take(k + 1).last() == sorted@[k as int].deep_view());
        }
        if !has_target(&out, sorted[k].target.as_str()) {
            let ghost before = deep(out@);
            let source = AudioSource {
                target: text::owned(sorted[k].target.as_str()),
                label: text::owned(sorted[k].label.as_str()),
            };
            let ghost x = source.deep_view();
            out.push(source);
            proof {
                assert(deep(out@) =~= before.push(x));
            }
        }
        k = k + 1;
    }
    proof {
        assert(s.take(s.len() as int) =~= s);
    }
    out
}

/// The sources in what `pw-dump` printed.
pub fn parse(listing: &str) -> (r: Vec<AudioSource>)
    ensures
        deep(r@) == (match json::document(listing@) {
            Some(d) => sources_in(d),
            None => seq![],
        }),
{
    match json::parse(listing) {
        Some(j) => list_sources(&j),
        None => {
            let none: Vec<AudioSource> = Vec::new();
            proof {
                assert(deep(none@) =~= seq![]);
            }
            none
        },
    }
}

proof fn lemma_firsts(s: Seq<AudioSource<Seq<char>>>)
    ensures
        forall|i: int, j: int|
            0 <= i < j < firsts(s).len() ==> (#[trigger] firsts(s)[i]).target != (
            #[trigger] firsts(s)[j]).target,
        forall|i: int| 0 <= i < s.len() ==> lists(firsts(s), (#[trigger] s[i]).target),
    decreases s.len(),
{
    if s.len() > 0 {
        let r = s.drop_last();
        lemma_firsts(r);
        let f = firsts(r);
        let g = firsts(s);
        assert forall|i: int| 0 <= i < s.len() implies lists(g, (#[trigger] s[i]).target) by {
            if i < r.len() {
                assert(r[i] == s[i]);
                let k = choose|k: int| 0 <= k < f.len() && (#[trigger] f[k]).target == s[i].target;
                assert(g[k] == f[k]);
            } else if !lists(f, s.last().target) {
                assert(g[f.len() as int].target == s.last().target);
            }
        }
        assert forall|i: int, j: int| 0 <= i < j < g.len() implies (#[trigger] g[i]).target != (
        #[trigger] g[j]).target by {
            assert(g[i] == f[i]);
            if j < f.len() {
                assert(g[j] == f[j]);
            }
        }
    }
}

/// No node is offered twice, and every capture node that is listed is offered.
pub proof fn each_node_is_offered_once(s: Seq<AudioSource<Seq<char>>>)
    ensures
        forall|i: int, j: int|
            0 <= i < j < offered(s).len() ==> (#[trigger] offered(s)[i]).target != (
            #[trigger] offered(s)[j]).target,
        forall|i: int| 0 <= i < s.len() ==> lists(offered(s), (#[trigger] s[i]).target),
{
    broadcast use vstd::seq_lib::group_to_multiset_ensures;

    let t = s.sort_by(label_order());
    AudioSource::total();
    s.lemma_sort_by_ensures(label_order());
    lemma_firsts(t);
    assert forall|i: int| 0 <= i < s.len() implies lists(offered(s), (#[trigger] s[i]).target) by {
        assert(s.contains(s[i]));
        assert(s.to_multiset().count(s[i]) > 0);
        assert(t.contains(s[i]));
        let k = choose|k: int| 0 <= k < t.len() && t[k] == s[i];
        assert(lists(firsts(t), t[k].target));
    }
}

} // verus!
