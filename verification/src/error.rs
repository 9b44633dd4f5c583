//! The error kinds of the pipeline. `DomainNotConfigured` is recoverable
//! (the caller skips that domain); `StructuralEdit` is fatal to the current
//! mutation and leaves the document untouched, since edits are computed
//! before any write; `BuilderFailure` means the external builder returned
//! non-zero, and for declarative domains the helper has already restored
//! the old document; `PruneFailure` is surfaced after an otherwise
//! successful apply; `EscalationFailure` means privilege elevation itself
//! could not run, so no write was attempted.

use vstd::prelude::*;

verus! {

#[derive(Clone, Copy, Debug, PartialEq, Eq, Structural)]
pub enum SnowError {
    DomainNotConfigured,
    StructuralEdit,
    BuilderFailure,
    PruneFailure,
    EscalationFailure,
    PackageNotFound,
}

/// The words each error kind is reported with.
pub open spec fn spec_describe(e: SnowError) -> Seq<char> {
    match e {
        SnowError::DomainNotConfigured => "this domain is not configured"@,
        SnowError::StructuralEdit => "the attribute is not an array of packages; nothing was changed"@,
        SnowError::BuilderFailure => "the builder failed; the previous document was restored"@,
        SnowError::PruneFailure => "pruning old generations failed"@,
        SnowError::EscalationFailure => "privilege elevation could not run; nothing was written"@,
        SnowError::PackageNotFound => "no such package"@,
    }
}

impl SnowError {
    /// How the error reads to the user.
    pub fn describe(&self) -> (r: String)
        ensures
            r@ == spec_describe(*self),
    {
        match self {
            SnowError::DomainNotConfigured => "this domain is not configured".to_owned(),
            SnowError::StructuralEdit => {
                "the attribute is not an array of packages; nothing was changed".to_owned()
            },
            SnowError::BuilderFailure => {
                "the builder failed; the previous document was restored".to_owned()
            },
            SnowError::PruneFailure => "pruning old generations failed".to_owned(),
            SnowError::EscalationFailure => {
                "privilege elevation could not run; nothing was written".to_owned()
            },
            SnowError::PackageNotFound => "no such package".to_owned(),
        }
    }
}

} // verus!
