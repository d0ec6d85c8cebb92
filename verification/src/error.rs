//! What can go wrong on a link.

use vstd::prelude::*;

verus! {

/// A failure of the link, or of the layer below it.
#[derive(Clone, Copy, PartialEq, Eq, Debug)]
pub enum ArqError<E = ()> {
    /// The lower layer failed.
    Io(E),
    /// A length field that no frame can have.
    Framing,
    /// A payload was sent as often as allowed and never acknowledged.
    Timeout,
    /// The lower layer is at its end.
    Closed,
}

/// The kinds under which input and output libraries report a link failure.
#[derive(Clone, Copy, PartialEq, Eq, Debug, Structural)]
pub enum FaultKind {
    InvalidData,
    TimedOut,
    UnexpectedEof,
    BrokenPipe,
}

impl<E> ArqError<E> {
    /// The error's text. For `Io` it is the text that stands before that of
    /// the lower layer's own error.
    pub fn message(&self) -> (text: &'static str)
        ensures
            text@ == match *self {
                ArqError::Io(_) => "io error: "@,
                ArqError::Framing => "arq framing error"@,
                ArqError::Timeout => "arq ack timeout"@,
                ArqError::Closed => "arq link closed"@,
            },
    {
        match self {
            ArqError::Io(_) => "io error: ",
            ArqError::Framing => "arq framing error",
            ArqError::Timeout => "arq ack timeout",
            ArqError::Closed => "arq link closed",
        }
    }

    /// The kind for `std::io`; an `Io` error keeps its own.
    pub fn std_kind(&self) -> (kind: Option<FaultKind>)
        ensures
            kind == match *self {
                ArqError::Io(_) => None,
                ArqError::Framing => Some(FaultKind::InvalidData),
                ArqError::Timeout => Some(FaultKind::TimedOut),
                ArqError::Closed => Some(FaultKind::UnexpectedEof),
            },
    {
        match self {
            ArqError::Io(_) => None,
            ArqError::Framing => Some(FaultKind::InvalidData),
            ArqError::Timeout => Some(FaultKind::TimedOut),
            ArqError::Closed => Some(FaultKind::UnexpectedEof),
        }
    }

    /// The kind for embedded drivers; an `Io` error keeps its own.
    pub fn embedded_kind(&self) -> (kind: Option<FaultKind>)
        ensures
            kind == match *self {
                ArqError::Io(_) => None,
                ArqError::Framing => Some(FaultKind::InvalidData),
                ArqError::Timeout => Some(FaultKind::TimedOut),
                ArqError::Closed => Some(FaultKind::BrokenPipe),
            },
    {
        match self {
            ArqError::Io(_) => None,
            ArqError::Framing => Some(FaultKind::InvalidData),
            ArqError::Timeout => Some(FaultKind::TimedOut),
            ArqError::Closed => Some(FaultKind::BrokenPipe),
        }
    }
}

} // verus!
