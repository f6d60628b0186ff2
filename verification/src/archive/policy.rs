use vstd::prelude::*;

verus! {

/// How versioned structs handle stored fields absent from the current schema.
/// Fields introduced after the current schema version are silently skipped.
#[derive(Debug, Clone, Copy, PartialEq, Eq, Structural)]
pub enum DeletedFieldPolicy {
    /// Record a warning and discard the field (the default).
    Warn,
    /// Return `ArchiveError::InvalidData` instead of decoding the value.
    Error,
    /// Panic immediately. Only use when schema mismatches should panic.
    Panic,
}

impl Default for DeletedFieldPolicy {
    fn default() -> (p: Self)
        ensures
            p == DeletedFieldPolicy::Warn,
    {
        DeletedFieldPolicy::Warn
    }
}

/// Settings that nested readers inherit from the reader that created them.
#[derive(Debug, Clone, Copy, PartialEq, Eq, Structural)]
pub struct DecodeOptions {
    pub deleted_fields: DeletedFieldPolicy,
}

impl Default for DecodeOptions {
    fn default() -> (o: Self)
        ensures
            o.deleted_fields == DeletedFieldPolicy::Warn,
    {
        DecodeOptions { deleted_fields: DeletedFieldPolicy::Warn }
    }
}

} // verus!
