//! The configurations that a chunker refuses.

use vstd::prelude::*;

verus! {

/// Why a configuration was refused.
#[derive(Debug, Clone, Copy, PartialEq, Eq, Structural)]
pub enum InvalidConfig {
    /// The target size is zero: no chunk could hold a byte.
    ZeroTargetSize,
    /// The pattern is empty: it would match everywhere.
    EmptyPattern,
}

} // verus!
