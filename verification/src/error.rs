//! The ways in which decoding a document can fail.

use vstd::prelude::*;

verus! {

/// Why a node could not be decoded.
#[derive(Debug, PartialEq, Eq)]
pub enum DecodeError {
    /// A record lacks the required key named here.
    MissingField(String),
    /// A node has another shape than the one `expected`; `field` says where.
    TypeMismatch { expected: String, field: String },
    /// A classifier string `value` is none of the `allowed` ones.
    UnknownVariant { value: String, allowed: Vec<String> },
    /// A string of the right shape whose content is not accepted.
    InvalidValue(String),
}

/// The mathematical value of a [`DecodeError`].
pub enum DecodeErrorView {
    MissingField(Seq<char>),
    TypeMismatch { expected: Seq<char>, field: Seq<char> },
    UnknownVariant { value: Seq<char>, allowed: Seq<Seq<char>> },
    InvalidValue(Seq<char>),
}

impl View for DecodeError {
    type V = DecodeErrorView;

    open spec fn view(&self) -> DecodeErrorView {
        match self {
            DecodeError::MissingField(field) => DecodeErrorView::MissingField(field@),
            DecodeError::TypeMismatch { expected, field } => DecodeErrorView::TypeMismatch {
                expected: expected@,
                field: field@,
            },
            DecodeError::UnknownVariant { value, allowed } => DecodeErrorView::UnknownVariant {
                value: value@,
                allowed: Seq::new(allowed@.len(), |i: int| allowed@[i]@),
            },
            DecodeError::InvalidValue(value) => DecodeErrorView::InvalidValue(value@),
        }
    }
}

/// The outcome of a decoding step as a mathematical value.
pub open spec fn viewed<T: View>(r: Result<T, DecodeError>) -> Result<T::V, DecodeErrorView> {
    match r {
        Ok(value) => Ok(value@),
        Err(error) => Err(error@),
    }
}

impl DecodeError {
    /// The failure for a record that lacks `field`.
    pub fn missing(field: &str) -> (e: DecodeError)
        ensures
            e@ == DecodeErrorView::MissingField(field@),
    {
        DecodeError::MissingField(field.to_owned())
    }

    /// The failure for a node at `field` that does not have the `expected` shape.
    pub fn mismatch(expected: &str, field: &str) -> (e: DecodeError)
        ensures
            e@ == (DecodeErrorView::TypeMismatch { expected: expected@, field: field@ }),
    {
        DecodeError::TypeMismatch { expected: expected.to_owned(), field: field.to_owned() }
    }
}

} // verus!
