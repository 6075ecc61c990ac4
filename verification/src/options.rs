//! The configuration that one archiving run applies to every entry.

use vstd::prelude::*;

verus! {

/// How the bytes of an entry are kept in the archive.
#[derive(Clone, Copy, Debug, PartialEq, Eq, Structural)]
pub enum CompressionMethod {
    /// The bytes are kept as they are.
    Stored,
    /// The bytes are compressed with Deflate.
    Deflated,
}

/// The configuration of one archiving run. It is fixed when the run starts
/// and holds for every entry: there is no override for a single entry.
#[derive(Clone, Copy, Debug, PartialEq, Eq, Structural)]
pub struct Options {
    pub compression_method: CompressionMethod,
}

impl Options {
    /// The configuration used when the caller names none: entries are stored
    /// without compression.
    pub open spec fn stored_spec() -> Options {
        Options { compression_method: CompressionMethod::Stored }
    }

    /// Entries are stored without compression.
    pub fn stored() -> (options: Options)
        ensures
            options == Options::stored_spec(),
    {
        Options { compression_method: CompressionMethod::Stored }
    }

    /// Entries are kept with the given method.
    pub fn with_compression_method(method: CompressionMethod) -> (options: Options)
        ensures
            options == (Options { compression_method: method }),
    {
        Options { compression_method: method }
    }
}

impl Default for Options {
    /// The default is the stored configuration.
    fn default() -> (options: Options)
        ensures
            options == Options::stored_spec(),
    {
        Options::stored()
    }
}

} // verus!
