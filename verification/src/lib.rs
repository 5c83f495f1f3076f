//! Translation of POSIX-emulation-shell paths into native Windows paths,
//! and resolution of a multi-source copy request into concrete
//! (destination, source) pairs.

pub mod canon;
pub mod cli;
pub mod rewrite;
pub mod translate;
pub mod text;

use vstd::prelude::*;

verus! {

/// The errors a translation or a copy-pair resolution can surface.
#[derive(Clone, Copy, Debug, PartialEq, Eq, Structural)]
pub enum CpError {
    /// A path starts with `~` but no home directory value is available.
    EnvironmentVariableMissing,
    /// The path is too long for the bounded canonicalization buffer.
    PathNormalizationFailure,
    /// A source argument does not name an existing regular file.
    SourceNotFound,
    /// Several sources were given, but the destination names a file.
    InvalidDestination,
}

} // verus!
