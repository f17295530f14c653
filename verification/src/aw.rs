//! ActivityWatch: where it is asked, and which of its buckets matter. That it
//! is down is a normal condition.

use vstd::prelude::*;

use crate::board::str_view;
use crate::error::AppError;
use crate::error::Failure;
use crate::json::Json;
use crate::text;
use crate::text::opt_view;

verus! {

/// One event of a watcher.
#[derive(Debug)]
pub struct AwEvent {
    pub timestamp: String,
    /// How long it lasted, in whole milliseconds; 0 where it does not say.
    pub duration_ms: i64,
    pub data: Json,
}

/// A bucket of events.
#[derive(Debug)]
pub struct Bucket {
    pub id: String,
    pub kind: String,
}

/// Where ActivityWatch listens.
pub fn base_url(redirect: Option<&str>) -> (r: String)
    ensures
        r@ == (match str_view(redirect) {
            Some(u) => u,
            None => "http://localhost:5600"@,
        }),
{
    match redirect {
        Some(u) => text::owned(u),
        None => text::owned("http://localhost:5600"),
    }
}

pub fn buckets_url(base: &str) -> (r: String)
    ensures
        r@ == base@ + "/api/0/buckets/"@,
{
    text::cat2(base, "/api/0/buckets/")
}

pub fn events_url(base: &str, bucket_id: &str) -> (r: String)
    ensures
        r@ == base@ + "/api/0/buckets/"@ + bucket_id@ + "/events"@,
{
    let mut u = text::cat3(base, "/api/0/buckets/", bucket_id);
    u.append("/events");
    u
}

/// The last bucket of a kind, in the order they are listed.
pub open spec fn bucket_of(s: Seq<Bucket>, kind: Seq<char>) -> Option<Seq<char>>
    decreases s.len(),
{
    if s.len() == 0 {
        None
    } else if s.last().kind@ == kind {
        Some(s.last().id@)
    } else {
        bucket_of(s.drop_last(), kind)
    }
}

/// The window watcher's bucket and the AFK watcher's; either may be missing.
pub fn find_buckets(buckets: &Vec<Bucket>) -> (r: (Option<String>, Option<String>))
    ensures
        opt_view(r.0) == bucket_of(buckets@, "currentwindow"@),
        opt_view(r.1) == bucket_of(buckets@, "afkstatus"@),
{
    let mut window: Option<String> = None;
    let mut afk: Option<String> = None;
    let mut i: usize = 0;
    proof {
        assert(buckets@.take(0) =~= seq![]);
        reveal_strlit("currentwindow");
        reveal_strlit("afkstatus");
        assert("currentwindow"@.len() == 13 && "afkstatus"@.len() == 9);
    }
    while i < buckets.len()
        invariant
            i <= buckets.len(),
            "currentwindow"@ != "afkstatus"@,
            opt_view(window) == bucket_of(buckets@.take(i as int), "currentwindow"@),
            opt_view(afk) == bucket_of(buckets@.take(i as int), "afkstatus"@),
        decreases buckets.len() - i,
    {
        proof {
            assert(buckets@.take(i + 1).drop_last() =~= buckets@.take(i as int));
            assert(buckets@.take(i + 1).last() == buckets@[i as int]);
        }
        if text::same(buckets[i].kind.as_str(), "currentwindow") {
            window = Some(buckets[i].id.clone());
        } else if text::same(buckets[i].kind.as_str(), "afkstatus") {
            afk = Some(buckets[i].id.clone());
        }
        i = i + 1;
    }
    proof {
        assert(buckets@.take(buckets@.len() as int) =~= buckets@);
    }
    (window, afk)
}

/// Without a window watcher there is nothing to observe.
pub fn need_window(bucket: Option<String>) -> (r: Result<String, AppError>)
    ensures
        match r {
            Ok(id) => bucket == Some(id),
            Err(e) => bucket is None && e@ == Failure::AwUnavailable("no window-watcher bucket"@),
        },
{
    match bucket {
        Some(id) => Ok(id),
        None => Err(AppError::AwUnavailable(text::owned("no window-watcher bucket"))),
    }
}

} // verus!
