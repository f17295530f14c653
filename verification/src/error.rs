//! Everything that can go wrong, worded for the user.

use vstd::prelude::*;

use crate::text;

verus! {

/// What the screen that asks for an intention is called: it closes the session
/// that was open before.
pub const WAKE_SCREEN: &'static str = "gate";

#[derive(Debug)]
pub enum AppError {
    /// The store refused; carries its own message.
    Db(String),
    AwUnavailable(String),
    BadTimestamp(String),
    Other(String),
    /// The API answered and the model declined on content. Carries a
    /// ready-made suffix: " (category: …) (request …)".
    Refused(String),
    /// A write aimed at a session that has since been closed.
    SessionClosed(i64),
}

/// What an error says, as characters.
pub enum Failure {
    Db(Seq<char>),
    AwUnavailable(Seq<char>),
    BadTimestamp(Seq<char>),
    Other(Seq<char>),
    Refused(Seq<char>),
    SessionClosed(i64),
}

impl View for AppError {
    type V = Failure;

    open spec fn view(&self) -> Failure {
        match *self {
            AppError::Db(s) => Failure::Db(s@),
            AppError::AwUnavailable(s) => Failure::AwUnavailable(s@),
            AppError::BadTimestamp(s) => Failure::BadTimestamp(s@),
            AppError::Other(s) => Failure::Other(s@),
            AppError::Refused(s) => Failure::Refused(s@),
            AppError::SessionClosed(id) => Failure::SessionClosed(id),
        }
    }
}

impl Failure {
    /// The sentence the user reads.
    pub open spec fn message(self) -> Seq<char> {
        match self {
            Failure::Db(s) => "store: "@ + s,
            Failure::AwUnavailable(s) => "ActivityWatch not reachable: "@ + s,
            Failure::BadTimestamp(s) => "bad timestamp: "@ + s,
            Failure::Other(s) => s,
            Failure::Refused(s) => "the model declined this request"@ + s,
            Failure::SessionClosed(id) => "session "@ + text::decimal(id as int)
                + " was closed at the "@ + WAKE_SCREEN@ + " — showing the current board"@,
        }
    }
}

impl AppError {
    /// The sentence the user reads.
    pub fn message(&self) -> (r: String)
        ensures
            r@ == self@.message(),
    {
        let mut out = String::new();
        match self {
            AppError::Db(s) => {
                out.append("store: ");
                out.append(s.as_str());
            },
            AppError::AwUnavailable(s) => {
                out.append("ActivityWatch not reachable: ");
                out.append(s.as_str());
            },
            AppError::BadTimestamp(s) => {
                out.append("bad timestamp: ");
                out.append(s.as_str());
            },
            AppError::Other(s) => {
                out.append(s.as_str());
            },
            AppError::Refused(s) => {
                out.append("the model declined this request");
                out.append(s.as_str());
            },
            AppError::SessionClosed(id) => {
                out.append("session ");
                out.append(text::of_i64(*id).as_str());
                out.append(" was closed at the ");
                out.append(WAKE_SCREEN);
                out.append(" — showing the current board");
            },
        }
        proof {
            assert(Seq::<char>::empty() + "store: "@ =~= "store: "@);
            assert(Seq::<char>::empty() + "ActivityWatch not reachable: "@
                =~= "ActivityWatch not reachable: "@);
            assert(Seq::<char>::empty() + "bad timestamp: "@ =~= "bad timestamp: "@);
            assert(Seq::<char>::empty() + "the model declined this request"@
                =~= "the model declined this request"@);
            assert(Seq::<char>::empty() + "session "@ =~= "session "@);
        }
        out
    }
}

/// An error with a fixed sentence.
pub fn other(message: &str) -> (e: AppError)
    ensures
        e@ == Failure::Other(message@),
{
    AppError::Other(text::owned(message))
}

} // verus!
