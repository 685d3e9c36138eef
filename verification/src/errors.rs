use vstd::prelude::*;

verus! {

/// Errors raised by the padding state machine of [`crate::blob::Blob`].
#[derive(Clone, Debug, PartialEq, Eq)]
pub enum BlobError {
    /// `pad_data` was called on a blob that is already padded.
    AlreadyPaddedError,
    /// `remove_padding` or `to_polynomial` was called on an unpadded blob.
    NotPaddedError,
    /// A failure reported by a component the blob delegates to.
    GenericError(String),
}

/// Errors raised when constructing a [`crate::polynomial::Polynomial`].
#[derive(Clone, Debug, PartialEq, Eq)]
pub enum PolynomialError {
    /// The element count exceeds the largest supported evaluation domain,
    /// or the declared logical length is inconsistent with it.
    InvalidInputLengthError,
}

impl PolynomialError {
    /// A human-readable description of the error, for callers that wrap it.
    pub fn message(&self) -> (r: String)
        ensures
            r@ == "invalid input length for polynomial"@,
    {
        "invalid input length for polynomial".to_string()
    }
}

/// Errors raised by the byte/field-element codec in [`crate::helpers`].
#[derive(Clone, Debug, PartialEq, Eq)]
pub enum CodecError {
    /// The requested output length exceeds what the elements can decode to.
    DecodeError,
    /// A byte string offered as a field element is not in the canonical
    /// 32-byte, zero-headed shape.
    InvalidFieldElementError,
}

} // verus!
