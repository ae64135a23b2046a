//! The ways in which an instruction fails.
use solana_program::program_error::ProgramError;
use vstd::prelude::*;

verus! {

/// `solana_program::program_error::ProgramError`, the failure that the host's transfer reports.
/// Nothing is read from it: it is handed on as it came.
#[verifier::external_type_specification]
#[verifier::external_body]
pub struct ExProgramError(ProgramError);

/// Why an instruction was not carried out. Whatever the reason, no account was changed.
#[derive(Debug, PartialEq, Eq)]
pub enum GsnError {
    /// The ledger account is already in use.
    AlreadyInUse,
    /// The ledger is in a state in which the instruction cannot run.
    InvalidState,
    /// The instruction bytes are too short or start with an unknown opcode.
    MalformedInstruction,
    /// Fewer accounts were handed over than the instruction needs.
    MissingAccount,
    /// The ledger account does not hold a ledger.
    CorruptState,
    /// The ledger does not fit in its account.
    StorageTooSmall,
    /// The sender of a relayed transfer has no balance entry.
    Unauthorized,
    /// The sender's balance does not cover the relay fee.
    InsufficientFunds,
    /// An amount would exceed the largest amount that an entry can hold.
    BalanceOverflow,
    /// The host did not carry out the transfer; its failure is handed on unchanged.
    TransferFailed(ProgramError),
}

impl GsnError {
    /// The number that stands for each kind of failure.
    pub open spec fn spec_code(self) -> u32 {
        match self {
            GsnError::AlreadyInUse => 0,
            GsnError::InvalidState => 1,
            GsnError::MalformedInstruction => 2,
            GsnError::MissingAccount => 3,
            GsnError::CorruptState => 4,
            GsnError::StorageTooSmall => 5,
            GsnError::Unauthorized => 6,
            GsnError::InsufficientFunds => 7,
            GsnError::BalanceOverflow => 8,
            GsnError::TransferFailed(_) => 9,
        }
    }

    /// The line that describes each kind of failure.
    pub open spec fn spec_message(self) -> Seq<char> {
        match self {
            GsnError::AlreadyInUse => "Error: GSN account already in use"@,
            GsnError::InvalidState => "Error: GSN state is not valid"@,
            GsnError::MalformedInstruction => "Error: GSN instruction is malformed"@,
            GsnError::MissingAccount => "Error: GSN instruction lacks an account"@,
            GsnError::CorruptState => "Error: GSN ledger cannot be read"@,
            GsnError::StorageTooSmall => "Error: GSN ledger does not fit its account"@,
            GsnError::Unauthorized => "Error: GSN sender has no balance"@,
            GsnError::InsufficientFunds => "Error: GSN balance does not cover the fee"@,
            GsnError::BalanceOverflow => "Error: GSN amount is out of range"@,
            GsnError::TransferFailed(_) => "Error: GSN transfer failed"@,
        }
    }

    /// The number under which the failure is reported as a custom program error.
    pub fn code(&self) -> (code: u32)
        ensures
            code == self.spec_code(),
    {
        match self {
            GsnError::AlreadyInUse => 0,
            GsnError::InvalidState => 1,
            GsnError::MalformedInstruction => 2,
            GsnError::MissingAccount => 3,
            GsnError::CorruptState => 4,
            GsnError::StorageTooSmall => 5,
            GsnError::Unauthorized => 6,
            GsnError::InsufficientFunds => 7,
            GsnError::BalanceOverflow => 8,
            GsnError::TransferFailed(_) => 9,
        }
    }

    /// The line to log for the failure.
    pub fn message(&self) -> (text: &'static str)
        ensures
            text@ == self.spec_message(),
    {
        match self {
            GsnError::AlreadyInUse => "Error: GSN account already in use",
            GsnError::InvalidState => "Error: GSN state is not valid",
            GsnError::MalformedInstruction => "Error: GSN instruction is malformed",
            GsnError::MissingAccount => "Error: GSN instruction lacks an account",
            GsnError::CorruptState => "Error: GSN ledger cannot be read",
            GsnError::StorageTooSmall => "Error: GSN ledger does not fit its account",
            GsnError::Unauthorized => "Error: GSN sender has no balance",
            GsnError::InsufficientFunds => "Error: GSN balance does not cover the fee",
            GsnError::BalanceOverflow => "Error: GSN amount is out of range",
            GsnError::TransferFailed(_) => "Error: GSN transfer failed",
        }
    }

    /// The name of this family of failures.
    pub fn type_of() -> (name: &'static str)
        ensures
            name@ == "SolGSN Error"@,
    {
        "SolGSN Error"
    }
}

} // verus!
