use vstd::prelude::*;

verus! {

/// The failure categories of the storage engine.
#[derive(Clone, Copy, Debug, PartialEq, Eq, Structural)]
pub enum Error {
    /// A command was issued before a store was opened.
    StoreUnavailable,
    /// The command needs the master key and the session has none.
    Locked,
    /// `unlock` was issued on a session that already holds a master key.
    AlreadyUnlocked,
    /// Any key-derivation, authentication or parse failure on an envelope.
    CryptoFailure,
    /// The size sidecar or a chunk length does not match the stored blob.
    CorruptAttachment,
    /// The attachment would not fit under the blob size cap.
    FileTooLarge,
    /// The underlying database failed or handed back impossible rows.
    StoreError,
    /// No node with the given id.
    NotFound,
}

impl Error {
    /// Whether the session can go on after this error without reopening.
    pub open spec fn spec_is_recoverable(self) -> bool {
        self == Error::Locked || self == Error::AlreadyUnlocked || self == Error::NotFound
            || self == Error::FileTooLarge
    }

    #[verifier::when_used_as_spec(spec_is_recoverable)]
    pub fn is_recoverable(self) -> (r: bool)
        ensures
            r == self.spec_is_recoverable(),
    {
        match self {
            Error::Locked | Error::AlreadyUnlocked | Error::NotFound | Error::FileTooLarge => true,
            _ => false,
        }
    }

    /// The text shown to the user. It names no cause beyond the category.
    pub fn message(self) -> (r: &'static str)
        ensures
            r@ == match self {
                Error::StoreUnavailable => "No connection"@,
                Error::Locked => "No password"@,
                Error::AlreadyUnlocked => "Password has already been set"@,
                Error::CryptoFailure => "Decryption failed"@,
                Error::CorruptAttachment => "Attachment is corrupt"@,
                Error::FileTooLarge => "File is too large to store into Cipherpad."@,
                Error::StoreError => "Database error"@,
                Error::NotFound => "No pad with that id"@,
            },
    {
        match self {
            Error::StoreUnavailable => "No connection",
            Error::Locked => "No password",
            Error::AlreadyUnlocked => "Password has already been set",
            Error::CryptoFailure => "Decryption failed",
            Error::CorruptAttachment => "Attachment is corrupt",
            Error::FileTooLarge => "File is too large to store into Cipherpad.",
            Error::StoreError => "Database error",
            Error::NotFound => "No pad with that id",
        }
    }
}

} // verus!
