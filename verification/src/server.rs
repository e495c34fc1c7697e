//! The decisions of the acquisition server: how each received message is answered, and
//! when an acquisition run yields a point.
use vstd::prelude::*;
use crate::acquisition::{AdcEvent, events_to_point, flags_fit, events_storable, point_of_events};
use crate::numass::{ErrorType, ReplyStatus};
use crate::point::Point;

verus! {

/// What the server received.
#[derive(Debug, Clone, Copy, PartialEq, Eq, Structural)]
pub enum Request {
    /// The command to initialise the board.
    Init,
    /// The command to acquire a point.
    AcquirePoint,
    /// Any message that is not a command.
    Other,
}

/// The kind of a reply the server sends, with its codes.
#[derive(Debug, Clone, Copy, PartialEq, Eq, Structural)]
pub enum Reply {
    /// The board is ready; it was not reset.
    Init { status: ReplyStatus, reseted: bool },
    /// The acquired point, which comes as the message data.
    AcquirePoint { status: ReplyStatus },
    /// A refused request or a failed acquisition.
    Error { error_code: ErrorType },
}

/// What the server does with a received message.
#[derive(Debug, Clone, Copy, PartialEq, Eq, Structural)]
pub enum ServerAction {
    /// Sends this reply at once.
    Answer(Reply),
    /// Runs an acquisition and answers with its outcome.
    Acquire,
}

/// The server answers `Init` as successful, acquires on `AcquirePoint`, and refuses
/// anything else as an unknown message.
pub open spec fn spec_server_action(request: Request) -> ServerAction {
    match request {
        Request::Init => ServerAction::Answer(Reply::Init { status: ReplyStatus::Success, reseted: false }),
        Request::AcquirePoint => ServerAction::Acquire,
        Request::Other => ServerAction::Answer(Reply::Error { error_code: ErrorType::UnknownMessageError }),
    }
}

/// Decides how the server answers a received message.
pub fn server_action(request: Request) -> (r: ServerAction)
    ensures
        r == spec_server_action(request),
{
    match request {
        Request::Init => ServerAction::Answer(Reply::Init { status: ReplyStatus::Success, reseted: false }),
        Request::AcquirePoint => ServerAction::Acquire,
        Request::Other => ServerAction::Answer(Reply::Error { error_code: ErrorType::UnknownMessageError }),
    }
}

/// The reply to an acquisition: the point with a success status, or an algorithm
/// error when it failed.
pub fn acquisition_reply(acquired: bool) -> (r: Reply)
    ensures
        r == (if acquired {
            Reply::AcquirePoint { status: ReplyStatus::Success }
        } else {
            Reply::Error { error_code: ErrorType::AlgoritmError }
        }),
{
    if acquired {
        Reply::AcquirePoint { status: ReplyStatus::Success }
    } else {
        Reply::Error { error_code: ErrorType::AlgoritmError }
    }
}

/// Why an acquisition run yields no point.
#[derive(Debug, Clone, Copy, PartialEq, Eq, Structural)]
pub enum AcquisitionError {
    /// The board sent no event during the run.
    NoFrames,
}

/// The point of an acquisition run: an error when the board sent no event, otherwise
/// the point built from the events (`keep` giving the zero-suppression verdicts).
pub fn acquisition_point(events: &[AdcEvent], keep: &[Vec<bool>]) -> (r: Result<Point, AcquisitionError>)
    requires
        flags_fit(events@, keep@),
        events_storable(events@, keep@),
    ensures
        events@.len() == 0 <==> r == Err::<Point, AcquisitionError>(AcquisitionError::NoFrames),
        r matches Ok(p) ==> point_of_events(p.channels@, events@, keep@),
{
    if events.len() == 0 {
        return Err(AcquisitionError::NoFrames);
    }
    Ok(events_to_point(events, keep))
}

} // verus!
