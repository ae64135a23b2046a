//! The instructions of the ledger program and how they are read from bytes.
//!
//! An instruction is one opcode byte and, for the opcodes that move an amount, the amount in
//! eight little-endian bytes. Bytes behind what an opcode needs are ignored.
use crate::bytes::{get_u64, le_value, lemma_le_value_bound, lemma_radix_pow_values};
use crate::error::GsnError;
use vstd::prelude::*;

verus! {

/// What a top-up carries.
#[derive(Clone, Copy, Debug, PartialEq, Eq, Structural)]
pub struct TopupAgrs {
    /// The amount to add to the consumer's balance.
    pub amount: u64,
}

/// What a relayed transfer carries.
#[derive(Clone, Copy, Debug, PartialEq, Eq, Structural)]
pub struct SubmitArgs {
    /// The amount to move from the sender to the receiver.
    pub amount: u64,
}

/// The instructions that the program carries out.
#[derive(Clone, Copy, Debug, PartialEq, Eq, Structural)]
pub enum GsnInstruction {
    /// Set up an empty ledger.
    Initialize,
    /// Add an amount to a consumer's balance.
    Topup(TopupAgrs),
    /// Relay a transfer and book its fee.
    SubmitTransaction(SubmitArgs),
}

/// The amount behind the opcode byte, where eight bytes stand there.
pub open spec fn decode_amount(input: Seq<u8>) -> Option<u64> {
    if input.len() >= 9 {
        Some(le_value(input.subrange(1, 9)) as u64)
    } else {
        None
    }
}

/// The instruction that `input` spells, if any.
pub open spec fn decode_instruction(input: Seq<u8>) -> Option<GsnInstruction> {
    if input.len() == 0 {
        None
    } else if input[0] == 0 {
        Some(GsnInstruction::Initialize)
    } else if input[0] == 1 {
        match decode_amount(input) {
            Some(amount) => Some(GsnInstruction::Topup(TopupAgrs { amount })),
            None => None,
        }
    } else if input[0] == 2 {
        match decode_amount(input) {
            Some(amount) => Some(GsnInstruction::SubmitTransaction(SubmitArgs { amount })),
            None => None,
        }
    } else {
        None
    }
}

/// No bytes spell no instruction, and neither do bytes that start with an opcode above 2.
pub proof fn lemma_no_instruction(input: Seq<u8>)
    requires
        input.len() == 0 || input[0] > 2,
    ensures
        decode_instruction(input) is None,
{
}

/// Reads the amount that follows the opcode byte.
pub fn unpack(input: &[u8]) -> (amount: Result<u64, GsnError>)
    ensures
        amount == match decode_amount(input@) {
            Some(a) => Ok::<u64, GsnError>(a),
            None => Err(GsnError::MalformedInstruction),
        },
{
    if input.len() < 9 {
        return Err(GsnError::MalformedInstruction);
    }
    proof {
        lemma_le_value_bound(input@.subrange(1, 9));
        lemma_radix_pow_values();
    }
    Ok(get_u64(input, 1))
}

impl GsnInstruction {
    /// Reads an instruction.
    pub fn deserialize(input: &[u8]) -> (instruction: Result<GsnInstruction, GsnError>)
        ensures
            instruction == match decode_instruction(input@) {
                Some(i) => Ok::<GsnInstruction, GsnError>(i),
                None => Err(GsnError::MalformedInstruction),
            },
    {
        if input.len() < 1 {
            return Err(GsnError::MalformedInstruction);
        }
        let opcode: u8 = input[0];
        if opcode == 0 {
            Ok(GsnInstruction::Initialize)
        } else if opcode == 1 {
            match unpack(input) {
                Ok(amount) => Ok(GsnInstruction::Topup(TopupAgrs { amount })),
                Err(e) => Err(e),
            }
        } else if opcode == 2 {
            match unpack(input) {
                Ok(amount) => Ok(GsnInstruction::SubmitTransaction(SubmitArgs { amount })),
                Err(e) => Err(e),
            }
        } else {
            Err(GsnError::MalformedInstruction)
        }
    }
}

} // verus!
