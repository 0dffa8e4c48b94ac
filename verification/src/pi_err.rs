//! The errors of the syncer.

use vstd::prelude::*;

verus! {

/// What can go wrong while a path is mapped or materialised.
#[derive(Debug, Clone, Copy, PartialEq, Eq, Structural)]
pub enum SyncerErrors {
    /// The path lies outside the sync root.
    NotUnderRoot,
    /// The path has no parent: it is the sync root itself, or has no segment
    /// to drop.
    InvalidPathError,
    /// A value that was needed is missing.
    SyncerNoneError,
    /// No credentials for the storage provider.
    NoAppSecret,
    /// A call to the storage provider failed.
    ProviderError,
}

pub type PiSyncResult<T> = Result<T, SyncerErrors>;

impl SyncerErrors {
    /// The text shown for this error.
    pub open spec fn message_text(self) -> Seq<char> {
        match self {
            SyncerErrors::NotUnderRoot => "Path is outside the sync root"@,
            SyncerErrors::InvalidPathError => "Cannot process this path"@,
            SyncerErrors::SyncerNoneError => "Missing a value/response/input somwehere"@,
            SyncerErrors::NoAppSecret => "Missing Auth Secret/Creds"@,
            SyncerErrors::ProviderError => "Issue with call to Storgare Provider"@,
        }
    }

    /// Renders the error as text.
    pub fn message(&self) -> (r: String)
        ensures
            r@ == self.message_text(),
    {
        match self {
            SyncerErrors::NotUnderRoot => "Path is outside the sync root".to_owned(),
            SyncerErrors::InvalidPathError => "Cannot process this path".to_owned(),
            SyncerErrors::SyncerNoneError => "Missing a value/response/input somwehere".to_owned(),
            SyncerErrors::NoAppSecret => "Missing Auth Secret/Creds".to_owned(),
            SyncerErrors::ProviderError => "Issue with call to Storgare Provider".to_owned(),
        }
    }
}

} // verus!
