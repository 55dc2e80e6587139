use vstd::prelude::*;

verus! {

/// The errors that travel through the pipeline.
#[derive(Debug, Clone, PartialEq, Eq)]
pub enum Error {
    /// The hub has used up its message budget.
    QuotaExceeded,
    /// An error raised by the wrapped handler, passed through untouched.
    Handler(String),
}

impl Error {
    /// An equal copy of the error.
    pub fn duplicate(&self) -> (r: Error)
        ensures
            r == *self,
    {
        match self {
            Error::QuotaExceeded => Error::QuotaExceeded,
            Error::Handler(m) => Error::Handler(m.clone()),
        }
    }

    /// A human-readable description of the error.
    pub fn message(&self) -> (r: String)
        ensures
            self is QuotaExceeded ==> r@ == quota_exceeded_text(),
            self matches Error::Handler(m) ==> r@ == m@,
    {
        match self {
            Error::QuotaExceeded => {
                proof {
                    reveal_strlit("Message quota exceeded");
                }
                let r = String::from_str("Message quota exceeded");
                assert(r@ =~= quota_exceeded_text());
                r
            },
            Error::Handler(m) => m.clone(),
        }
    }
}

/// The text that describes a refused call.
pub open spec fn quota_exceeded_text() -> Seq<char> {
    seq!['M', 'e', 's', 's', 'a', 'g', 'e', ' ', 'q', 'u', 'o', 't', 'a', ' ', 'e', 'x', 'c', 'e', 'e', 'd', 'e', 'd']
}

} // verus!
