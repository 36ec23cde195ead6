//! The error with which a relay process ends when it cannot start.

use tokio::sync::mpsc::error::TryRecvError;
use vstd::prelude::*;
use vstd::string::to_string_from_display_ensures;

use crate::text::push_text;

verus! {

/// `std::io::Error`, an error of the operating system. It is carried as it
/// came; nothing is known of what is inside.
#[verifier::external_type_specification]
#[verifier::external_body]
pub struct ExIoError(std::io::Error);

/// `tokio::sync::mpsc::error::TryRecvError`: the receiving end of a channel
/// had nothing to hand out. Nothing is known of what is inside.
#[verifier::external_type_specification]
#[verifier::external_body]
pub struct ExTryRecvError(tokio::sync::mpsc::error::TryRecvError);

/// Why a relay process gave up. It holds the text of the failure, so that it
/// can travel back to the process that spawned the relay.
#[derive(Debug)]
pub struct CommunicatorProcessError(pub String);

impl View for CommunicatorProcessError {
    type V = Seq<char>;

    open spec fn view(&self) -> Seq<char> {
        self.0@
    }
}

impl CommunicatorProcessError {
    pub fn new(message: String) -> (error: Self)
        ensures
            error@ == message@,
    {
        CommunicatorProcessError(message)
    }

    /// The text of the failure.
    pub fn message(&self) -> (message: &String)
        ensures
            message@ == self@,
    {
        &self.0
    }

    /// The error as it is shown: its name, a colon, and the text of the failure.
    pub fn to_string(&self) -> (shown: String)
        ensures
            shown@ == "CommunicatorProcessError: "@ + self@,
    {
        let mut shown = "CommunicatorProcessError: ".to_owned();
        push_text(&mut shown, self.0.as_str());
        shown
    }
}

impl From<std::io::Error> for CommunicatorProcessError {
    /// Keeps the text by which the operating system's error displays itself.
    fn from(value: std::io::Error) -> (error: Self)
        ensures
            to_string_from_display_ensures::<std::io::Error>(&value, error.0),
    {
        CommunicatorProcessError(value.to_string())
    }
}

/// How an error of the operating system words itself is the platform's
/// business, so the conversion is given by the contract of `from` and not as
/// a function of the error.
impl vstd::std_specs::convert::FromSpecImpl<std::io::Error> for CommunicatorProcessError {
    open spec fn obeys_from_spec() -> bool {
        false
    }

    open spec fn from_spec(value: std::io::Error) -> Self {
        arbitrary()
    }
}

impl From<TryRecvError> for CommunicatorProcessError {
    /// Keeps the text by which the channel's error displays itself.
    fn from(value: TryRecvError) -> (error: Self)
        ensures
            to_string_from_display_ensures::<TryRecvError>(&value, error.0),
    {
        CommunicatorProcessError(value.to_string())
    }
}

/// The wording is the channel's, so here too the conversion is given by the
/// contract of `from` alone.
impl vstd::std_specs::convert::FromSpecImpl<TryRecvError> for CommunicatorProcessError {
    open spec fn obeys_from_spec() -> bool {
        false
    }

    open spec fn from_spec(value: TryRecvError) -> Self {
        arbitrary()
    }
}

} // verus!
