//! Register-state codec for GDB remote debugging stubs.
//!
//! A register set is exchanged with the debugger as one flat byte buffer: the
//! little-endian bytes of every register, in the architecture's canonical order.
//! Single registers are addressed by a numeric id that follows the same order.

mod arm64_core;
mod error;

pub use arm64_core::{Aarch64CoreRegs, CORE_REGS_LEN, NUM_GPRS, NUM_REG_IDS};
pub use error::RegError;
