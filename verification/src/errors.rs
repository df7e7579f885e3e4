use vstd::prelude::*;

verus! {

/// The error kinds every store and query operation can surface.
#[derive(Debug)]
pub enum Error {
    /// Unexpected error from the underlying system: database, file system, etc.
    UnderlyingError(String),
    /// Usually caused by corrupted underlying storage, which should not
    /// happen if all operations are performed via this library.
    ImpossibleState(String),
    /// User input is invalid.
    InvalidInput(String),
    /// An unfinished entry exists when trying to start a new one;
    /// carries the blocking entry's title.
    UnfinishedExists(String),
    /// An entry with the same title and exact start time already exists.
    DuplicateEntry,
}

impl Error {
    /// The human-readable line for the error, as a caller would print
    /// it.
    pub fn message(&self) -> (r: String)
        ensures
            match self {
                Error::UnderlyingError(e) => r@ == "Something wrong with underlying implementation: "@
                    + e@ + seq!['\n'],
                Error::ImpossibleState(e) => r@ == "While, this should never happen: "@ + e@
                    + seq!['\n'],
                Error::InvalidInput(e) => r@ == "Input invalid: "@ + e@ + seq!['\n'],
                Error::UnfinishedExists(t) => r@
                    == "Starting new entry is not allowed when there is unfinished entry: "@ + t@
                    + seq!['\n'],
                Error::DuplicateEntry => r@
                    == "An entry with the same title and start already exists.\n"@,
            },
    {
        proof {
            reveal_strlit("\n");
        }
        match self {
            Error::UnderlyingError(e) => {
                let mut m = "Something wrong with underlying implementation: ".to_owned();
                m.append(e.as_str());
                m.append("\n");
                proof {
                    assert(m@ =~= "Something wrong with underlying implementation: "@ + e@ + seq![
                        '\n',
                    ]);
                }
                m
            },
            Error::ImpossibleState(e) => {
                let mut m = "While, this should never happen: ".to_owned();
                m.append(e.as_str());
                m.append("\n");
                proof {
                    assert(m@ =~= "While, this should never happen: "@ + e@ + seq!['\n']);
                }
                m
            },
            Error::InvalidInput(e) => {
                let mut m = "Input invalid: ".to_owned();
                m.append(e.as_str());
                m.append("\n");
                proof {
                    assert(m@ =~= "Input invalid: "@ + e@ + seq!['\n']);
                }
                m
            },
            Error::UnfinishedExists(t) => {
                let mut m =
                    "Starting new entry is not allowed when there is unfinished entry: ".to_owned();
                m.append(t.as_str());
                m.append("\n");
                proof {
                    assert(m@
                        =~= "Starting new entry is not allowed when there is unfinished entry: "@
                        + t@ + seq!['\n']);
                }
                m
            },
            Error::DuplicateEntry => {
                "An entry with the same title and start already exists.\n".to_owned()
            },
        }
    }
}

impl PartialEq for Error {
    fn eq(&self, other: &Error) -> (r: bool) {
        match (self, other) {
            (Error::UnderlyingError(a), Error::UnderlyingError(b)) => *a == *b,
            (Error::ImpossibleState(a), Error::ImpossibleState(b)) => *a == *b,
            (Error::InvalidInput(a), Error::InvalidInput(b)) => *a == *b,
            (Error::UnfinishedExists(a), Error::UnfinishedExists(b)) => *a == *b,
            (Error::DuplicateEntry, Error::DuplicateEntry) => true,
            _ => false,
        }
    }
}

impl vstd::std_specs::cmp::PartialEqSpecImpl for Error {
    open spec fn obeys_eq_spec() -> bool {
        true
    }

    open spec fn eq_spec(&self, other: &Error) -> bool {
        match (self, other) {
            (Error::UnderlyingError(a), Error::UnderlyingError(b)) => a@ == b@,
            (Error::ImpossibleState(a), Error::ImpossibleState(b)) => a@ == b@,
            (Error::InvalidInput(a), Error::InvalidInput(b)) => a@ == b@,
            (Error::UnfinishedExists(a), Error::UnfinishedExists(b)) => a@ == b@,
            (Error::DuplicateEntry, Error::DuplicateEntry) => true,
            _ => false,
        }
    }
}

} // verus!
