//! The ways in which an instruction is refused with an error.
use vstd::prelude::*;

verus! {

/// Why an instruction was refused; each variant stands for the program
/// error of the same name that the runtime reports.
#[derive(Debug, Clone, Copy, PartialEq, Eq, Structural)]
pub enum VaultError {
    /// The vault account's data does not have the length of a packed store.
    InvalidAccountData,
    /// The unpacked store is not marked initialized.
    UninitializedAccount,
    /// Fewer accounts were passed than the instruction reads.
    NotEnoughAccountKeys,
    /// A seed for address derivation is longer than 32 bytes.
    MaxSeedLengthExceeded,
    /// The seeds do not give a valid address.
    InvalidSeeds,
    /// The owner of a derived address may not be a program-derived address.
    IllegalOwner,
}

} // verus!
