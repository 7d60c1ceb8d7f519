//! One request through the blocking client: call, then drain the response body.
use vstd::prelude::*;

verus! {

/// How far a blocking request has come.
pub enum BlockingRequest {
    /// The call is to be made.
    Calling,
    /// The response has arrived; its body is to be drained.
    Draining,
    /// The request is over, with the error that ended it where one did.
    Finished(Result<(), String>),
}

impl BlockingRequest {
    /// The request that the outcome of the step at hand leads to: the first error
    /// ends it, and a drained body ends it well.
    pub open spec fn after(self, outcome: Result<(), String>) -> BlockingRequest {
        match (self, outcome) {
            (BlockingRequest::Calling, Ok(_)) => BlockingRequest::Draining,
            _ => BlockingRequest::Finished(outcome),
        }
    }

    /// A request that has not begun.
    pub fn new() -> (request: Self)
        ensures
            request == BlockingRequest::Calling,
    {
        BlockingRequest::Calling
    }

    /// Takes in what came of the step at hand.
    pub fn advance(self, outcome: Result<(), String>) -> (next: Self)
        requires
            !(self is Finished),
        ensures
            next == self.after(outcome),
            self is Calling && outcome is Ok ==> next is Draining,
            self is Calling && outcome is Err ==> next == BlockingRequest::Finished(outcome),
            self is Draining ==> next == BlockingRequest::Finished(outcome),
    {
        match self {
            BlockingRequest::Calling => match outcome {
                Ok(()) => BlockingRequest::Draining,
                Err(error) => BlockingRequest::Finished(Err(error)),
            },
            _ => BlockingRequest::Finished(outcome),
        }
    }
}

/// A good call leads to draining the body, and the request is over after that: it is
/// good exactly if the call and the draining both were; otherwise its error is the
/// first one, unchanged.
pub proof fn law_first_error_ends_a_blocking_request(
    call: Result<(), String>,
    drain: Result<(), String>,
)
    ensures
        call is Err ==> BlockingRequest::Calling.after(call) == BlockingRequest::Finished(call),
        call is Ok ==> BlockingRequest::Calling.after(call) is Draining,
        BlockingRequest::Draining.after(drain) == BlockingRequest::Finished(drain),
        call is Ok ==> BlockingRequest::Calling.after(call).after(drain)
            == BlockingRequest::Finished(drain),
{
}

} // verus!
