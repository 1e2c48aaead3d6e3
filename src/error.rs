use vstd::prelude::*;

verus! {

/// Why a register buffer or a single register value was refused.
#[derive(Debug, Clone, Copy, PartialEq, Eq, Structural)]
pub enum RegError {
    /// The buffer is shorter than the canonical layout of the register set.
    TooShort,
    /// The value handed for one register does not have that register's width.
    WidthMismatch,
    /// The register id is outside the architecture's range.
    UnknownRegister,
}

} // verus!
