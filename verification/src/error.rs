use vstd::prelude::*;

verus! {

/// Every way an operation of this library can fail.
#[derive(Clone, Copy, Debug, PartialEq, Eq, Structural)]
pub enum encryp_error {
    /// Source and destination name the same file.
    InvalidArguments,
    /// The destination exists and may not be overwritten.
    DestinationExists,
    /// The source cannot be opened.
    SourceUnavailable,
    /// The destination cannot be created or truncated.
    DestinationUnavailable,
    /// The magic header, the framing or the one-record-per-tag rule is broken.
    MalformedContainer,
    /// A salt, the password hash or the plaintext digest is absent.
    MissingField,
    /// The ciphertext record is absent or not in deferred form.
    MissingCiphertext,
    /// The password does not reproduce the stored password hash.
    WrongPassword,
    /// The decrypted bytes do not reproduce the stored plaintext digest.
    IntegrityFailure,
    /// A keystream was applied to a buffer whose length is no multiple of 8.
    AlignmentError,
    /// A word buffer does not have the announced number of slots.
    LengthMismatch,
}

impl encryp_error {
    /// Whether an error belongs to the checks that come before anything is
    /// read or written: the two names, and the opening of the two files.
    pub open spec fn spec_is_preflight(self) -> bool {
        self == encryp_error::InvalidArguments || self == encryp_error::DestinationExists || self
            == encryp_error::SourceUnavailable || self == encryp_error::DestinationUnavailable
    }

    /// Whether an error belongs to the checks that come before anything is
    /// read or written. After such an error no destination was written to.
    #[verifier::when_used_as_spec(spec_is_preflight)]
    pub fn is_preflight(self) -> (ret: bool)
        ensures
            ret == self.spec_is_preflight(),
    {
        match self {
            encryp_error::InvalidArguments => true,
            encryp_error::DestinationExists => true,
            encryp_error::SourceUnavailable => true,
            encryp_error::DestinationUnavailable => true,
            _ => false,
        }
    }
}

} // verus!
