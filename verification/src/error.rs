use vstd::prelude::*;

verus! {

/// The engine's error kinds. Outside error values are carried as their
/// rendered messages.
#[derive(Clone, Debug)]
pub enum BlockDBError {
    IoError(String),
    SerializationError(String),
    InvalidData(String),
    BlockchainError(String),
    StorageError(String),
    ApiError(String),
    DuplicateKey(String),
}

impl BlockDBError {
    /// A short description of the error kind and its message.
    pub fn describe(&self) -> (r: &String) {
        match self {
            BlockDBError::IoError(m) => m,
            BlockDBError::SerializationError(m) => m,
            BlockDBError::InvalidData(m) => m,
            BlockDBError::BlockchainError(m) => m,
            BlockDBError::StorageError(m) => m,
            BlockDBError::ApiError(m) => m,
            BlockDBError::DuplicateKey(m) => m,
        }
    }
}

} // verus!
