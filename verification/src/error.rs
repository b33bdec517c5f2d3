//! The error type that the node's components share.

use vstd::prelude::*;

verus! {

/// An error of one of the node's components, with its explanation.
#[derive(Debug)]
pub enum QuilError {
    InvalidArgument(String),
    Internal(String),
    Crypto(String),
    NotFound(String),
    P2p(String),
}

/// The mathematical value of a [`QuilError`].
pub enum ErrorView {
    InvalidArgument(Seq<char>),
    Internal(Seq<char>),
    Crypto(Seq<char>),
    NotFound(Seq<char>),
    P2p(Seq<char>),
}

impl View for QuilError {
    type V = ErrorView;

    open spec fn view(&self) -> ErrorView {
        match self {
            QuilError::InvalidArgument(m) => ErrorView::InvalidArgument(m@),
            QuilError::Internal(m) => ErrorView::Internal(m@),
            QuilError::Crypto(m) => ErrorView::Crypto(m@),
            QuilError::NotFound(m) => ErrorView::NotFound(m@),
            QuilError::P2p(m) => ErrorView::P2p(m@),
        }
    }
}

/// A result with its error taken by its view.
pub open spec fn outcome<T>(r: Result<T, QuilError>) -> Result<T, ErrorView> {
    match r {
        Ok(v) => Ok(v),
        Err(e) => Err(e@),
    }
}

impl QuilError {
    /// The explanation that the error carries.
    pub fn text(&self) -> (r: &str)
        ensures
            r@ == match *self {
                QuilError::InvalidArgument(m) => m@,
                QuilError::Internal(m) => m@,
                QuilError::Crypto(m) => m@,
                QuilError::NotFound(m) => m@,
                QuilError::P2p(m) => m@,
            },
    {
        match self {
            QuilError::InvalidArgument(m) => m.as_str(),
            QuilError::Internal(m) => m.as_str(),
            QuilError::Crypto(m) => m.as_str(),
            QuilError::NotFound(m) => m.as_str(),
            QuilError::P2p(m) => m.as_str(),
        }
    }

    /// An equal error.
    pub fn duplicate(&self) -> (r: QuilError)
        ensures
            r@ == self@,
    {
        match self {
            QuilError::InvalidArgument(m) => QuilError::InvalidArgument(m.clone()),
            QuilError::Internal(m) => QuilError::Internal(m.clone()),
            QuilError::Crypto(m) => QuilError::Crypto(m.clone()),
            QuilError::NotFound(m) => QuilError::NotFound(m.clone()),
            QuilError::P2p(m) => QuilError::P2p(m.clone()),
        }
    }
}

/// An argument error with the given explanation.
pub fn invalid_argument(m: &str) -> (r: QuilError)
    ensures
        r@ == ErrorView::InvalidArgument(m@),
{
    QuilError::InvalidArgument(m.to_owned())
}

/// An internal error with the given explanation.
pub fn internal(m: &str) -> (r: QuilError)
    ensures
        r@ == ErrorView::Internal(m@),
{
    QuilError::Internal(m.to_owned())
}

/// A cryptographic error with the given explanation.
pub fn crypto(m: &str) -> (r: QuilError)
    ensures
        r@ == ErrorView::Crypto(m@),
{
    QuilError::Crypto(m.to_owned())
}

} // verus!
