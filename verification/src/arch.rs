//! Architecture-facing constants and hooks.  The register-level boot and
//! exception plumbing stays with the unverified runtime; what the kernel's
//! portable code consults lives here.

use vstd::prelude::*;

verus! {

/// Size in bytes of one page frame.
pub const PAGE_SIZE: u32 = 4096;

/// Base-two logarithm of `PAGE_SIZE`.
pub const PAGE_SIZE_SHIFT: u32 = 12;

/// Early architecture setup hook; called once from the kernel's entry,
/// before memory management.  Nothing to do on the machines served so far.
pub fn arch_early_init() {
}

} // verus!
