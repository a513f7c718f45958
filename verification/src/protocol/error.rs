use vstd::prelude::*;

verus! {

/// Why a primitive field could not be read from a packet.
#[derive(Debug, Clone)]
pub enum ProtocolError {
    /// The input ended before the field did; the text says what was being
    /// read, how many bytes it needed and how many were left.
    NotEnoughBytes(String),
    /// A vector announced a negative number of elements.
    NegativeVectorLength(),
    /// The bytes of a string were not valid UTF-8.
    InvalidUtf8,
}

/// The mathematical content of a [`ProtocolError`].
pub enum ProtocolErrorView {
    NotEnoughBytes(Seq<char>),
    NegativeVectorLength,
    InvalidUtf8,
}

impl View for ProtocolError {
    type V = ProtocolErrorView;

    open spec fn view(&self) -> ProtocolErrorView {
        match self {
            ProtocolError::NotEnoughBytes(m) => ProtocolErrorView::NotEnoughBytes(m@),
            ProtocolError::NegativeVectorLength() => ProtocolErrorView::NegativeVectorLength,
            ProtocolError::InvalidUtf8 => ProtocolErrorView::InvalidUtf8,
        }
    }
}

} // verus!
