use solana_program::program_error::ProgramError;
use solgsn::error::GsnError;

#[test]
fn codes_are_distinct_and_start_at_zero() {
    let all = [
        GsnError::AlreadyInUse,
        GsnError::InvalidState,
        GsnError::MalformedInstruction,
        GsnError::MissingAccount,
        GsnError::CorruptState,
        GsnError::StorageTooSmall,
        GsnError::Unauthorized,
        GsnError::InsufficientFunds,
        GsnError::BalanceOverflow,
        GsnError::TransferFailed(ProgramError::InvalidArgument),
    ];
    for (i, e) in all.iter().enumerate() {
        assert_eq!(e.code(), i as u32);
    }
}

#[test]
fn messages_name_the_failure() {
    assert_eq!(GsnError::AlreadyInUse.message(), "Error: GSN account already in use");
    assert_eq!(GsnError::InvalidState.message(), "Error: GSN state is not valid");
    assert_eq!(GsnError::Unauthorized.message(), "Error: GSN sender has no balance");
    assert_eq!(
        GsnError::TransferFailed(ProgramError::Custom(3)).message(),
        "Error: GSN transfer failed"
    );
}

#[test]
fn family_name() {
    assert_eq!(GsnError::type_of(), "SolGSN Error");
}
