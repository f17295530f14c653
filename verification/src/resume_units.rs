//! Is the resume gate installed? Its system units are installed by hand, and
//! nothing else on screen would say that they are missing.

use vstd::prelude::*;

use crate::text;

verus! {

pub const ETC: &'static str = "/etc/systemd/system";

pub const RESUME_UNIT: &'static str = "intentionality-resume.service";

pub const GATE_UNIT: &'static str = "intentionality-resume-gate.service";

/// What enabling the unit creates.
pub const WANTS: &'static str = "suspend.target.wants/intentionality-resume.service";

/// One unit as it is installed and as it stands with the sources; `None` where
/// it cannot be read.
pub struct Unit {
    pub installed: Option<Vec<u8>>,
    pub source: Option<Vec<u8>>,
}

/// What was found on disk.
pub struct Layout {
    /// The sources' units are there to compare with.
    pub sources: bool,
    /// The unit is enabled, be it by a link that leads nowhere.
    pub enabled: bool,
    pub units: Vec<Unit>,
}

pub open spec fn contents(f: Option<Vec<u8>>) -> Option<Seq<u8>> {
    match f {
        Some(v) => Some(v@),
        None => None,
    }
}

pub open spec fn differs(u: Unit) -> bool {
    contents(u.installed) != contents(u.source)
}

/// What there is to say: nothing where there are no sources to compare with,
/// and nothing where all is well.
pub open spec fn advice(l: Layout) -> Option<Seq<char>> {
    if !l.sources {
        None
    } else if !l.enabled {
        Some("resume gate not installed — sudo steps in README \"Waking from sleep\""@)
    } else if exists|i: int| 0 <= i < l.units@.len() && differs(#[trigger] l.units@[i]) {
        Some("resume units in /etc differ from systemd/ — re-copy them"@)
    } else {
        None
    }
}

fn same_bytes(a: &Vec<u8>, b: &Vec<u8>) -> (r: bool)
    ensures
        r == (a@ == b@),
{
    if a.len() != b.len() {
        return false;
    }
    let mut i: usize = 0;
    while i < a.len()
        invariant
            i <= a.len(),
            a.len() == b.len(),
            forall|j: int| 0 <= j < i ==> a@[j] == b@[j],
        decreases a.len() - i,
    {
        if a[i] != b[i] {
            return false;
        }
        i = i + 1;
    }
    proof {
        assert(a@ =~= b@);
    }
    true
}

fn is_different(u: &Unit) -> (r: bool)
    ensures
        r == differs(*u),
{
    match (&u.installed, &u.source) {
        (Some(a), Some(b)) => !same_bytes(a, b),
        (None, None) => false,
        _ => true,
    }
}

/// The warning that the app shows, if any.
pub fn warning(l: &Layout) -> (r: Option<String>)
    ensures
        text::opt_view(r) == advice(*l),
{
    if !l.sources {
        return None;
    }
    if !l.enabled {
        return Some(
            text::owned("resume gate not installed — sudo steps in README \"Waking from sleep\""),
        );
    }
    let mut i: usize = 0;
    while i < l.units.len()
        invariant
            i <= l.units.len(),
            l.sources,
            l.enabled,
            forall|j: int| 0 <= j < i ==> !differs(#[trigger] l.units@[j]),
        decreases l.units.len() - i,
    {
        if is_different(&l.units[i]) {
            return Some(text::owned("resume units in /etc differ from systemd/ — re-copy them"));
        }
        i = i + 1;
    }
    None
}

} // verus!
