use vstd::prelude::*;

verus! {

/// What a refused operation reports.
#[derive(Clone, Copy, Debug, PartialEq, Eq, Structural)]
pub enum Error {
    /// A stored or received value breaks the format, a signature does not
    /// hold, or the operation is not allowed in the present state.
    Integrity,
    /// A path, unit, record, fragment or version does not exist.
    NotFound,
    /// The system gave no random bytes.
    Entropy,
    /// A cipher suite is unknown or a sealed value does not open.
    Crypto,
}

} // verus!
