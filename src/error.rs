//! The two ways in which a compilation fails.
use vstd::prelude::*;

verus! {

/// Why a compilation was abandoned.
#[derive(Debug, PartialEq, Eq, Clone)]
pub enum Error {
    /// The input holds a character that no token starts with.
    InvalidToken(char),
    /// An identifier names no known primitive.
    UnknownPrimitive(String),
}

/// The mathematical value of an [`Error`].
pub enum ErrorView {
    InvalidToken(char),
    UnknownPrimitive(Seq<char>),
}

impl View for Error {
    type V = ErrorView;

    open spec fn view(&self) -> ErrorView {
        match self {
            Error::InvalidToken(c) => ErrorView::InvalidToken(*c),
            Error::UnknownPrimitive(name) => ErrorView::UnknownPrimitive(name@),
        }
    }
}

/// `r` with `p` put in front of its value, or `r`'s error unchanged.
pub open spec fn prepend_ok<T>(p: Seq<T>, r: Result<Seq<T>, ErrorView>) -> Result<Seq<T>, ErrorView> {
    match r {
        Ok(x) => Ok(p + x),
        Err(e) => Err(e),
    }
}

pub proof fn lemma_prepend_ok_twice<T>(a: Seq<T>, b: Seq<T>, r: Result<Seq<T>, ErrorView>)
    ensures
        prepend_ok(a, prepend_ok(b, r)) == prepend_ok(a + b, r),
{
    if let Ok(x) = r {
        assert(a + (b + x) =~= (a + b) + x);
    }
}

} // verus!
