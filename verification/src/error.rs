//! What can go wrong while a frame is resolved.

use vstd::prelude::*;

verus! {

/// Failures of symbol lookup in one file. Each carries the file's path.
#[derive(Clone, Debug, PartialEq, Eq)]
pub enum SymbolizerError {
    /// The store holds no metadata for the file.
    FetchElfFailed(String),
    /// The file's bytes are not a well-formed ELF image.
    ElfParse(String),
    /// No symbol lies at or below the virtual offset (second field).
    SymbolNotFound(String, u64),
    /// The file offset (second field) lies in no loadable segment, or in
    /// several.
    OffsetOutsideLoadableSegments(String, u64),
}

/// Failures of translation.
#[derive(Clone, Debug, PartialEq, Eq)]
pub enum TranslateError {
    /// No mapping of the process holds the address.
    NotFound,
    /// The mapping that holds the address is not backed by a file.
    NoBackingFile,
    /// The process could not be inspected.
    ProcessGone,
    /// The line with this index (from zero) of the kernel symbol file is
    /// malformed.
    InvalidKernelSymbol(usize),
    /// The kernel symbol table has not been loaded.
    KernelSymbolLoad,
    /// An option or argument is not usable; the field says which.
    InvalidInput(String),
    /// A value left the range that the machine can hold.
    Internal,
    /// Symbol lookup failed.
    Symbolize(SymbolizerError),
}

impl TranslateError {
    /// Wraps a failure of symbol lookup.
    pub fn from(err: SymbolizerError) -> (res: TranslateError)
        ensures
            res == TranslateError::Symbolize(err),
    {
        TranslateError::Symbolize(err)
    }
}

} // verus!
