use solgsn::error::GsnError;
use solgsn::instruction::{unpack, GsnInstruction, SubmitArgs, TopupAgrs};

#[test]
fn no_bytes_are_malformed() {
    assert_eq!(GsnInstruction::deserialize(&[]), Err(GsnError::MalformedInstruction));
}

#[test]
fn opcode_three_is_malformed() {
    assert_eq!(GsnInstruction::deserialize(&[3]), Err(GsnError::MalformedInstruction));
    assert_eq!(
        GsnInstruction::deserialize(&[3, 1, 0, 0, 0, 0, 0, 0, 0]),
        Err(GsnError::MalformedInstruction)
    );
    assert_eq!(GsnInstruction::deserialize(&[255]), Err(GsnError::MalformedInstruction));
}

#[test]
fn opcode_zero_is_initialize() {
    assert_eq!(GsnInstruction::deserialize(&[0]), Ok(GsnInstruction::Initialize));
    assert_eq!(GsnInstruction::deserialize(&[0, 9, 9]), Ok(GsnInstruction::Initialize));
}

#[test]
fn opcode_one_is_topup() {
    assert_eq!(
        GsnInstruction::deserialize(&[1, 100, 0, 0, 0, 0, 0, 0, 0]),
        Ok(GsnInstruction::Topup(TopupAgrs { amount: 100 }))
    );
    assert_eq!(
        GsnInstruction::deserialize(&[1, 1, 2, 3, 4, 5, 6, 7, 8]),
        Ok(GsnInstruction::Topup(TopupAgrs { amount: 0x0807060504030201 }))
    );
}

#[test]
fn opcode_two_is_submit() {
    assert_eq!(
        GsnInstruction::deserialize(&[2, 0xff, 0xff, 0xff, 0xff, 0xff, 0xff, 0xff, 0xff, 7]),
        Ok(GsnInstruction::SubmitTransaction(SubmitArgs { amount: u64::MAX }))
    );
}

#[test]
fn short_amount_is_malformed() {
    assert_eq!(GsnInstruction::deserialize(&[1]), Err(GsnError::MalformedInstruction));
    assert_eq!(
        GsnInstruction::deserialize(&[1, 0, 0, 0, 0, 0, 0, 0]),
        Err(GsnError::MalformedInstruction)
    );
    assert_eq!(
        GsnInstruction::deserialize(&[2, 0, 0, 0, 0, 0, 0, 0]),
        Err(GsnError::MalformedInstruction)
    );
}

#[test]
fn unpack_reads_the_amount_behind_the_opcode() {
    assert_eq!(unpack(&[9, 0x10, 0x27, 0, 0, 0, 0, 0, 0]), Ok(10000));
    assert_eq!(unpack(&[9, 0, 0, 0, 0, 0, 0, 0, 1, 5, 5]), Ok(1 << 56));
    assert_eq!(unpack(&[9, 0, 0, 0, 0, 0, 0, 0]), Err(GsnError::MalformedInstruction));
    assert_eq!(unpack(&[]), Err(GsnError::MalformedInstruction));
}

#[test]
fn amounts_are_read_as_the_machine_lays_them_out() {
    for amount in [0u64, 1, 255, 256, 50000, 1 << 32, u64::MAX - 1] {
        let mut input = vec![1u8];
        input.extend_from_slice(&amount.to_le_bytes());
        assert_eq!(
            GsnInstruction::deserialize(&input),
            Ok(GsnInstruction::Topup(TopupAgrs { amount }))
        );
    }
}
