//! Which build is running, and has it fallen behind its sources?
//!
//! The comparison is one of file times: a build that is started by itself
//! looks like a fresh one until a feature is found missing.

use vstd::prelude::*;

use crate::text;
use crate::text::opt_view;

verus! {

broadcast use vstd::seq_lib::group_seq_properties;

#[derive(Debug)]
pub struct BuildInfo {
    pub version: String,
    /// When the running binary was built. `None` only if that cannot be read.
    pub built_at: Option<String>,
    /// The newest source, where it is newer than the binary: the sign that it
    /// has to be built again.
    pub stale_since: Option<String>,
}

/// The newest of file times; those that cannot be read do not count.
pub open spec fn newest_of(times: Seq<Option<i128>>) -> Option<i128>
    decreases times.len(),
{
    if times.len() == 0 {
        None
    } else {
        match (newest_of(times.drop_last()), times.last()) {
            (None, t) => t,
            (Some(f), None) => Some(f),
            (Some(f), Some(t)) => Some(
                if t > f {
                    t
                } else {
                    f
                },
            ),
        }
    }
}

/// The newest of file times.
pub fn newest(times: &Vec<Option<i128>>) -> (r: Option<i128>)
    ensures
        r == newest_of(times@),
{
    let mut found: Option<i128> = None;
    let mut i: usize = 0;
    proof {
        assert(times@.take(0) =~= seq![]);
    }
    while i < times.len()
        invariant
            i <= times.len(),
            found == newest_of(times@.take(i as int)),
        decreases times.len() - i,
    {
        proof {
            assert(times@.take(i + 1).drop_last() =~= times@.take(i as int));
            assert(times@.take(i + 1).last() == times@[i as int]);
        }
        found = match (found, times[i]) {
            (None, t) => t,
            (Some(f), None) => Some(f),
            (Some(f), Some(t)) => Some(
                if t > f {
                    t
                } else {
                    f
                },
            ),
        };
        i = i + 1;
    }
    proof {
        assert(times@.take(times@.len() as int) =~= times@);
    }
    found
}

/// The time of the newest source, where the build is older than it. A build
/// whose own time cannot be read, or whose sources are gone, is not judged.
pub open spec fn stale(built: Option<i128>, sources: Seq<Option<i128>>) -> Option<i128> {
    match (built, newest_of(sources)) {
        (Some(b), Some(n)) => if n > b {
            Some(n)
        } else {
            None
        },
        _ => None,
    }
}

pub fn stale_since(built: Option<i128>, sources: &Vec<Option<i128>>) -> (r: Option<i128>)
    ensures
        r == stale(built, sources@),
{
    match (built, newest(sources)) {
        (Some(b), Some(n)) => if n > b {
            Some(n)
        } else {
            None
        },
        _ => None,
    }
}

/// The line that the journal gets at the start.
pub open spec fn banner_of(version: Seq<char>, built: Option<Seq<char>>, stale: Option<Seq<char>>) -> (
    Seq<char>) {
    "intentionality v"@ + version + " built "@ + (match built {
        Some(b) => b,
        None => "unknown"@,
    }) + (match stale {
        Some(at) => " — STALE, source changed "@ + at,
        None => seq![],
    })
}

pub fn banner(build: &BuildInfo) -> (r: String)
    ensures
        r@ == banner_of(build.version@, opt_view(build.built_at), opt_view(build.stale_since)),
{
    let mut line = text::cat3("intentionality v", build.version.as_str(), " built ");
    match &build.built_at {
        Some(b) => line.append(b.as_str()),
        None => line.append("unknown"),
    }
    match &build.stale_since {
        Some(at) => line.append(text::cat2(" — STALE, source changed ", at.as_str()).as_str()),
        None => {},
    }
    proof {
        assert(line@ =~= banner_of(
            build.version@,
            opt_view(build.built_at),
            opt_view(build.stale_since),
        ));
    }
    line
}

} // verus!
