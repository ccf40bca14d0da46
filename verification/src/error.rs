use vstd::prelude::*;

verus! {

/// Error type for the store, the codec and the network front end.
#[derive(Debug, Clone, PartialEq, Eq)]
pub enum KvsError {
    /// A filesystem or socket failure, reported by the caller that
    /// performed the I/O and carried here as a message.
    Io(String),
    /// A malformed on-disk record or wire value.
    Serde(String),
    /// `remove` was called on a key that is not present.
    KeyNotFound,
    /// The index pointed at a record that is not a `Set` record;
    /// this indicates a corrupted log or a program bug.
    UnexpectedCommandType,
    /// The writer state was poisoned by a panic in a prior writer.
    PoisonError(String),
    /// A stored value is not valid UTF-8.
    FromUtf8Error(String),
    /// An error reported by the remote side, carried as a message.
    StringError(String),
}

impl KvsError {
    /// The human-readable message for this error, as it is sent over
    /// the wire and printed by the command-line front ends.
    pub fn message(&self) -> (r: String)
        ensures
            r@ == self.spec_message(),
    {
        match self {
            KvsError::Io(m) => m.clone(),
            KvsError::Serde(m) => m.clone(),
            KvsError::KeyNotFound => "Key not found".to_owned(),
            KvsError::UnexpectedCommandType => "Unexpected command type".to_owned(),
            KvsError::PoisonError(m) => m.clone(),
            KvsError::FromUtf8Error(m) => m.clone(),
            KvsError::StringError(m) => m.clone(),
        }
    }

    /// What `message` returns, as a sequence of characters.
    pub open spec fn spec_message(&self) -> Seq<char> {
        match self {
            KvsError::Io(m) => m@,
            KvsError::Serde(m) => m@,
            KvsError::KeyNotFound => "Key not found"@,
            KvsError::UnexpectedCommandType => "Unexpected command type"@,
            KvsError::PoisonError(m) => m@,
            KvsError::FromUtf8Error(m) => m@,
            KvsError::StringError(m) => m@,
        }
    }
}

} // verus!
