//! The plain parts of the numass control protocol: error codes, reply status and the
//! zero-suppression parameters, and the frame messages of the web viewer.
use vstd::prelude::*;

verus! {

/// An error reported by the acquisition server, sent as its numeric code.
#[derive(Debug, Clone, Copy, PartialEq, Eq, Structural)]
pub enum ErrorType {
    ClientNoError,
    UnknownError,
    ServerInitError,
    ClientDisconnect,
    ParseMessageError,
    TimeoutError,
    AlgoritmError,
    UnknownMessageError,
    ServerBusyError,
    IncorrectMessageParams,
    MultipleConnection,
    ComPortError,
    ComPortClose,
    Agilent34401aError,
}

/// The wire code of an error.
pub open spec fn error_code(e: ErrorType) -> u32 {
    match e {
        ErrorType::ClientNoError => 0,
        ErrorType::UnknownError => 1,
        ErrorType::ServerInitError => 2,
        ErrorType::ClientDisconnect => 3,
        ErrorType::ParseMessageError => 4,
        ErrorType::TimeoutError => 5,
        ErrorType::AlgoritmError => 6,
        ErrorType::UnknownMessageError => 7,
        ErrorType::ServerBusyError => 8,
        ErrorType::IncorrectMessageParams => 9,
        ErrorType::MultipleConnection => 10,
        ErrorType::ComPortError => 11,
        ErrorType::ComPortClose => 12,
        ErrorType::Agilent34401aError => 13,
    }
}

/// The error a wire code stands for, if any.
pub open spec fn error_of_code(code: u32) -> Option<ErrorType> {
    if code == 0 {
        Some(ErrorType::ClientNoError)
    } else if code == 1 {
        Some(ErrorType::UnknownError)
    } else if code == 2 {
        Some(ErrorType::ServerInitError)
    } else if code == 3 {
        Some(ErrorType::ClientDisconnect)
    } else if code == 4 {
        Some(ErrorType::ParseMessageError)
    } else if code == 5 {
        Some(ErrorType::TimeoutError)
    } else if code == 6 {
        Some(ErrorType::AlgoritmError)
    } else if code == 7 {
        Some(ErrorType::UnknownMessageError)
    } else if code == 8 {
        Some(ErrorType::ServerBusyError)
    } else if code == 9 {
        Some(ErrorType::IncorrectMessageParams)
    } else if code == 10 {
        Some(ErrorType::MultipleConnection)
    } else if code == 11 {
        Some(ErrorType::ComPortError)
    } else if code == 12 {
        Some(ErrorType::ComPortClose)
    } else if code == 13 {
        Some(ErrorType::Agilent34401aError)
    } else {
        None
    }
}

impl ErrorType {
    /// The wire code of this error.
    pub fn code(&self) -> (r: u32)
        ensures
            r == error_code(*self),
    {
        match self {
            ErrorType::ClientNoError => 0,
            ErrorType::UnknownError => 1,
            ErrorType::ServerInitError => 2,
            ErrorType::ClientDisconnect => 3,
            ErrorType::ParseMessageError => 4,
            ErrorType::TimeoutError => 5,
            ErrorType::AlgoritmError => 6,
            ErrorType::UnknownMessageError => 7,
            ErrorType::ServerBusyError => 8,
            ErrorType::IncorrectMessageParams => 9,
            ErrorType::MultipleConnection => 10,
            ErrorType::ComPortError => 11,
            ErrorType::ComPortClose => 12,
            ErrorType::Agilent34401aError => 13,
        }
    }

    /// The error of a wire code; `None` for a code outside `0..=13`.
    pub fn from_code(code: u32) -> (r: Option<ErrorType>)
        ensures
            r == error_of_code(code),
    {
        if code == 0 {
            Some(ErrorType::ClientNoError)
        } else if code == 1 {
            Some(ErrorType::UnknownError)
        } else if code == 2 {
            Some(ErrorType::ServerInitError)
        } else if code == 3 {
            Some(ErrorType::ClientDisconnect)
        } else if code == 4 {
            Some(ErrorType::ParseMessageError)
        } else if code == 5 {
            Some(ErrorType::TimeoutError)
        } else if code == 6 {
            Some(ErrorType::AlgoritmError)
        } else if code == 7 {
            Some(ErrorType::UnknownMessageError)
        } else if code == 8 {
            Some(ErrorType::ServerBusyError)
        } else if code == 9 {
            Some(ErrorType::IncorrectMessageParams)
        } else if code == 10 {
            Some(ErrorType::MultipleConnection)
        } else if code == 11 {
            Some(ErrorType::ComPortError)
        } else if code == 12 {
            Some(ErrorType::ComPortClose)
        } else if code == 13 {
            Some(ErrorType::Agilent34401aError)
        } else {
            None
        }
    }
}

/// Every error survives its wire code, and every code that decodes is the code of
/// what it decodes to.
pub proof fn lemma_error_code_roundtrip(e: ErrorType, code: u32)
    ensures
        error_of_code(error_code(e)) == Some(e),
        error_of_code(code) matches Some(d) ==> error_code(d) == code,
        error_of_code(code) is Some <==> code <= 13,
{
}

/// The status of a successful reply (sent as `"ok"`).
#[derive(Debug, Clone, Copy, PartialEq, Eq, Structural)]
pub enum ReplyStatus {
    Success,
}

/// Zero-suppression settings of an acquisition: how many leading samples form the
/// baseline, and the threshold.
#[derive(Debug, Clone, Copy, PartialEq, Eq, Structural)]
pub struct ZeroSuppressionParams {
    pub baseline: usize,
    pub threshold: i16,
}

/// The samples of one channel of a frame, as sent to the web viewer.
pub struct FrameChannel {
    pub id: u16,
    pub bins: Vec<i16>,
}

/// A message of the viewer's websocket.
pub enum WS {
    GraphFrame(Vec<FrameChannel>),
}

/// A copy of a list of frame channels.
pub fn copy_frame_channels(channels: &[FrameChannel]) -> (r: Vec<FrameChannel>)
    ensures
        r@.len() == channels@.len(),
        forall|i: int|
            0 <= i < r@.len() ==> (#[trigger] r@[i]).id == channels@[i].id && r@[i].bins@
                == channels@[i].bins@,
{
    let mut out: Vec<FrameChannel> = Vec::new();
    let mut i: usize = 0;
    while i < channels.len()
        invariant
            i <= channels@.len(),
            out@.len() == i,
            forall|j: int|
                0 <= j < i ==> (#[trigger] out@[j]).id == channels@[j].id && out@[j].bins@
                    == channels@[j].bins@,
        decreases channels@.len() - i,
    {
        let ch = &channels[i];
        out.push(FrameChannel { id: ch.id, bins: ch.bins.clone() });
        i += 1;
    }
    out
}

/// The frame channels a websocket message carries to each subscriber.
pub fn frames_for_subscriber(msg: &WS) -> (r: Vec<FrameChannel>)
    ensures
        match msg {
            WS::GraphFrame(channels) => {
                &&& r@.len() == channels@.len()
                &&& forall|i: int|
                    0 <= i < r@.len() ==> (#[trigger] r@[i]).id == channels@[i].id && r@[i].bins@
                        == channels@[i].bins@
            },
        },
{
    match msg {
        WS::GraphFrame(channels) => copy_frame_channels(channels.as_slice()),
    }
}

} // verus!
