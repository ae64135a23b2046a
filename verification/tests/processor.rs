use solana_program::program_error::ProgramError;
use solana_program::pubkey::Pubkey;
use solgsn::error::GsnError;
use solgsn::processor::{Account, Processor, Transfer, RELAY_FEE};
use solgsn::state::GsnInfo;

const LEDGER: [u8; 32] = [9; 32];
const A: [u8; 32] = [1; 32];
const B: [u8; 32] = [2; 32];
const E: [u8; 32] = [3; 32];
const TARGET: [u8; 32] = [0; 32];

fn text(key: [u8; 32]) -> String {
    Pubkey::new_from_array(key).to_string()
}

fn account(key: [u8; 32], size: usize) -> Account {
    Account { key, data: vec![0u8; size] }
}

fn ledger_with(size: usize) -> Account {
    let mut accounts = vec![Account { key: LEDGER, data: vec![0xcd; size] }];
    assert_eq!(Processor::process_initialize(&mut accounts), Ok(()));
    accounts.pop().unwrap()
}

fn topup_accounts(size: usize, consumer: [u8; 32]) -> Vec<Account> {
    vec![ledger_with(size), account(consumer, 0)]
}

fn submit_accounts(ledger: Account) -> Vec<Account> {
    vec![account(TARGET, 0), account(A, 0), account(B, 0), account(E, 0), ledger]
}

fn funded(balance: u64) -> Account {
    let mut accounts = topup_accounts(256, A);
    assert_eq!(Processor::process_topup(balance, &mut accounts), Ok(()));
    accounts.swap_remove(0)
}

fn read(account: &Account) -> GsnInfo {
    GsnInfo::deserialize(&account.data).unwrap()
}

#[test]
fn initialize_overwrites_whatever_was_stored() {
    for fill in [0u8, 1, 2, 0xff] {
        let mut accounts = vec![Account { key: LEDGER, data: vec![fill; 40] }];
        assert_eq!(Processor::process_initialize(&mut accounts), Ok(()));
        assert_eq!(&accounts[0].data[..9], &[1, 0, 0, 0, 0, 0, 0, 0, 0]);
        assert_eq!(&accounts[0].data[9..], &vec![fill; 31][..]);
        assert_eq!(accounts[0].key, LEDGER);
        let info = read(&accounts[0]);
        assert!(info.is_initialized);
        assert_eq!(info.consumer.len(), 0);
        assert_eq!(info.executor.len(), 0);
    }
}

#[test]
fn initialize_twice_gives_the_same_ledger() {
    let mut accounts = vec![Account { key: LEDGER, data: vec![7; 16] }];
    assert_eq!(Processor::process_initialize(&mut accounts), Ok(()));
    let once = accounts.clone();
    assert_eq!(Processor::process_initialize(&mut accounts), Ok(()));
    assert_eq!(accounts, once);
}

#[test]
fn initialize_needs_nine_bytes() {
    let mut accounts = vec![Account { key: LEDGER, data: vec![7; 8] }];
    assert_eq!(Processor::process_initialize(&mut accounts), Err(GsnError::StorageTooSmall));
    assert_eq!(accounts, vec![Account { key: LEDGER, data: vec![7; 8] }]);
    let mut accounts = vec![Account { key: LEDGER, data: vec![7; 9] }];
    assert_eq!(Processor::process_initialize(&mut accounts), Ok(()));
}

#[test]
fn initialize_needs_an_account() {
    let mut accounts: Vec<Account> = vec![];
    assert_eq!(Processor::process_initialize(&mut accounts), Err(GsnError::MissingAccount));
}

#[test]
fn topup_creates_an_entry_on_first_use() {
    let mut accounts = topup_accounts(128, B);
    assert_eq!(Processor::process_topup(10, &mut accounts), Ok(()));
    let info = read(&accounts[0]);
    assert_eq!(info.consumer.get(&text(B)), Some(10));
    assert_eq!(info.consumer.len(), 1);
    assert_eq!(info.executor.len(), 0);
    assert!(info.is_initialized);
}

#[test]
fn topup_accumulates() {
    let mut accounts = topup_accounts(128, A);
    assert_eq!(Processor::process_topup(100, &mut accounts), Ok(()));
    assert_eq!(Processor::process_topup(50, &mut accounts), Ok(()));
    let info = read(&accounts[0]);
    assert_eq!(info.consumer.get(&text(A)), Some(150));
    assert_eq!(info.consumer.len(), 1);
}

#[test]
fn topup_keeps_other_consumers() {
    let mut accounts = topup_accounts(256, A);
    assert_eq!(Processor::process_topup(100, &mut accounts), Ok(()));
    accounts[1] = account(B, 0);
    assert_eq!(Processor::process_topup(7, &mut accounts), Ok(()));
    let info = read(&accounts[0]);
    assert_eq!(info.consumer.get(&text(A)), Some(100));
    assert_eq!(info.consumer.get(&text(B)), Some(7));
}

#[test]
fn the_key_of_an_entry_is_the_text_of_the_account_key() {
    let mut accounts = topup_accounts(128, [0; 32]);
    assert_eq!(Processor::process_topup(1, &mut accounts), Ok(()));
    let info = read(&accounts[0]);
    assert_eq!(info.consumer.entry(0), ("11111111111111111111111111111111", 1));
}

#[test]
fn topup_works_on_a_ledger_that_was_not_set_up() {
    let mut accounts = vec![account(LEDGER, 64), account(A, 0)];
    assert_eq!(Processor::process_topup(5, &mut accounts), Ok(()));
    let info = read(&accounts[0]);
    assert!(!info.is_initialized);
    assert_eq!(info.consumer.get(&text(A)), Some(5));
}

#[test]
fn topup_beyond_the_largest_amount_fails() {
    let mut accounts = topup_accounts(128, A);
    assert_eq!(Processor::process_topup(u64::MAX, &mut accounts), Ok(()));
    let before = accounts.clone();
    assert_eq!(Processor::process_topup(1, &mut accounts), Err(GsnError::BalanceOverflow));
    assert_eq!(accounts, before);
    assert_eq!(Processor::process_topup(0, &mut accounts), Ok(()));
    assert_eq!(read(&accounts[0]).consumer.get(&text(A)), Some(u64::MAX));
}

#[test]
fn topup_needs_two_accounts() {
    let mut accounts = vec![ledger_with(64)];
    let before = accounts.clone();
    assert_eq!(Processor::process_topup(1, &mut accounts), Err(GsnError::MissingAccount));
    assert_eq!(accounts, before);
}

#[test]
fn topup_on_a_corrupt_ledger_fails() {
    let mut accounts = vec![Account { key: LEDGER, data: vec![0xff; 64] }, account(A, 0)];
    let before = accounts.clone();
    assert_eq!(Processor::process_topup(1, &mut accounts), Err(GsnError::CorruptState));
    assert_eq!(accounts, before);
}

#[test]
fn topup_that_does_not_fit_changes_nothing() {
    let mut accounts = topup_accounts(9 + 4 + text(A).len() + 8 - 1, A);
    let before = accounts.clone();
    assert_eq!(Processor::process_topup(1, &mut accounts), Err(GsnError::StorageTooSmall));
    assert_eq!(accounts, before);
    let mut accounts = topup_accounts(9 + 4 + text(A).len() + 8, A);
    assert_eq!(Processor::process_topup(1, &mut accounts), Ok(()));
}

#[test]
fn submit_without_a_balance_entry_is_unauthorized() {
    let accounts = submit_accounts(ledger_with(256));
    let before = accounts.clone();
    assert_eq!(Processor::process_submit_tx(5, &accounts), Err(GsnError::Unauthorized));
    assert_eq!(accounts, before);
    let mut accounts = accounts;
    assert_eq!(Processor::settle_submit_tx(&mut accounts, Ok(())), Err(GsnError::Unauthorized));
    assert_eq!(accounts, before);
}

#[test]
fn submit_names_the_transfer() {
    let accounts = submit_accounts(funded(100000));
    assert_eq!(
        Processor::process_submit_tx(77, &accounts),
        Ok(Transfer { from: A, to: B, amount: 77 })
    );
}

#[test]
fn fee_is_booked_after_a_transfer() {
    let mut accounts = submit_accounts(funded(100000));
    assert_eq!(Processor::settle_submit_tx(&mut accounts, Ok(())), Ok(()));
    let info = read(&accounts[4]);
    assert_eq!(RELAY_FEE, 50000);
    assert_eq!(info.executor.get(&text(E)), Some(50000));
    assert_eq!(info.consumer.get(&text(A)), Some(50000));
    assert_eq!(info.consumer.len(), 1);
    assert_eq!(info.executor.len(), 1);
}

#[test]
fn fees_add_up_for_an_executor() {
    let mut accounts = submit_accounts(funded(120000));
    assert_eq!(Processor::settle_submit_tx(&mut accounts, Ok(())), Ok(()));
    assert_eq!(Processor::settle_submit_tx(&mut accounts, Ok(())), Ok(()));
    let info = read(&accounts[4]);
    assert_eq!(info.executor.get(&text(E)), Some(100000));
    assert_eq!(info.consumer.get(&text(A)), Some(20000));
    let before = accounts.clone();
    assert_eq!(Processor::process_submit_tx(1, &accounts), Err(GsnError::InsufficientFunds));
    assert_eq!(
        Processor::settle_submit_tx(&mut accounts, Ok(())),
        Err(GsnError::InsufficientFunds)
    );
    assert_eq!(accounts, before);
}

#[test]
fn balance_equal_to_the_fee_is_spent_to_zero() {
    let mut accounts = submit_accounts(funded(RELAY_FEE));
    assert!(Processor::process_submit_tx(1, &accounts).is_ok());
    assert_eq!(Processor::settle_submit_tx(&mut accounts, Ok(())), Ok(()));
    assert_eq!(read(&accounts[4]).consumer.get(&text(A)), Some(0));
}

#[test]
fn balance_below_the_fee_is_refused() {
    let mut accounts = submit_accounts(funded(1000));
    let before = accounts.clone();
    assert_eq!(Processor::process_submit_tx(1, &accounts), Err(GsnError::InsufficientFunds));
    assert_eq!(
        Processor::settle_submit_tx(&mut accounts, Ok(())),
        Err(GsnError::InsufficientFunds)
    );
    assert_eq!(accounts, before);
}

#[test]
fn failed_transfer_is_handed_on_and_changes_nothing() {
    for failure in [ProgramError::InsufficientFunds, ProgramError::Custom(42)] {
        let mut accounts = submit_accounts(funded(100000));
        let before = accounts.clone();
        assert_eq!(
            Processor::settle_submit_tx(&mut accounts, Err(failure.clone())),
            Err(GsnError::TransferFailed(failure))
        );
        assert_eq!(accounts, before);
    }
}

#[test]
fn failed_transfer_is_reported_whatever_the_accounts() {
    let mut accounts: Vec<Account> = vec![];
    assert_eq!(
        Processor::settle_submit_tx(&mut accounts, Err(ProgramError::InvalidArgument)),
        Err(GsnError::TransferFailed(ProgramError::InvalidArgument))
    );
}

#[test]
fn earnings_beyond_the_largest_amount_are_refused() {
    let mut info = GsnInfo::new();
    info.add_consumer(text(A), 100000);
    info.add_executor(text(E), u64::MAX - RELAY_FEE + 1);
    let ledger = Account { key: LEDGER, data: info.encode().unwrap() };
    let mut accounts = submit_accounts(ledger);
    let before = accounts.clone();
    assert_eq!(Processor::process_submit_tx(1, &accounts), Err(GsnError::BalanceOverflow));
    assert_eq!(Processor::settle_submit_tx(&mut accounts, Ok(())), Err(GsnError::BalanceOverflow));
    assert_eq!(accounts, before);
}

#[test]
fn earnings_up_to_the_largest_amount_are_booked() {
    let mut info = GsnInfo::new();
    info.add_consumer(text(A), 100000);
    info.add_executor(text(E), u64::MAX - RELAY_FEE);
    let ledger = Account { key: LEDGER, data: info.encode().unwrap() };
    let mut accounts = submit_accounts(ledger);
    assert_eq!(Processor::settle_submit_tx(&mut accounts, Ok(())), Ok(()));
    assert_eq!(read(&accounts[4]).executor.get(&text(E)), Some(u64::MAX));
}

#[test]
fn fee_that_does_not_fit_is_refused_before_the_transfer() {
    let mut info = GsnInfo::new();
    info.add_consumer(text(A), 100000);
    let ledger = Account { key: LEDGER, data: info.encode().unwrap() };
    let mut accounts = submit_accounts(ledger);
    let before = accounts.clone();
    assert_eq!(Processor::process_submit_tx(1, &accounts), Err(GsnError::StorageTooSmall));
    assert_eq!(Processor::settle_submit_tx(&mut accounts, Ok(())), Err(GsnError::StorageTooSmall));
    assert_eq!(accounts, before);
}

#[test]
fn submit_needs_five_accounts() {
    let mut accounts = submit_accounts(funded(100000));
    accounts.remove(0);
    let before = accounts.clone();
    assert_eq!(Processor::process_submit_tx(1, &accounts), Err(GsnError::MissingAccount));
    assert_eq!(Processor::settle_submit_tx(&mut accounts, Ok(())), Err(GsnError::MissingAccount));
    assert_eq!(accounts, before);
}

#[test]
fn submit_on_a_corrupt_ledger_fails() {
    let mut accounts = submit_accounts(Account { key: LEDGER, data: vec![3; 50] });
    let before = accounts.clone();
    assert_eq!(Processor::process_submit_tx(1, &accounts), Err(GsnError::CorruptState));
    assert_eq!(Processor::settle_submit_tx(&mut accounts, Ok(())), Err(GsnError::CorruptState));
    assert_eq!(accounts, before);
}

#[test]
fn sender_and_executor_may_be_one_account() {
    let mut accounts = submit_accounts(funded(100000));
    accounts[3] = account(A, 0);
    assert_eq!(Processor::settle_submit_tx(&mut accounts, Ok(())), Ok(()));
    let info = read(&accounts[4]);
    assert_eq!(info.consumer.get(&text(A)), Some(50000));
    assert_eq!(info.executor.get(&text(A)), Some(50000));
}

#[test]
fn malformed_instructions_touch_nothing() {
    for input in [&[][..], &[3][..], &[3, 0, 0, 0, 0, 0, 0, 0, 0][..], &[1, 5][..]] {
        let mut accounts = submit_accounts(funded(100000));
        let before = accounts.clone();
        assert_eq!(Processor::process(&mut accounts, input), Err(GsnError::MalformedInstruction));
        assert_eq!(accounts, before);
    }
}

#[test]
fn process_dispatches_initialize() {
    let mut accounts = vec![Account { key: LEDGER, data: vec![0xee; 20] }];
    assert_eq!(Processor::process(&mut accounts, &[0]), Ok(None));
    assert_eq!(&accounts[0].data[..9], &[1, 0, 0, 0, 0, 0, 0, 0, 0]);
}

#[test]
fn process_dispatches_topup() {
    let mut accounts = topup_accounts(128, A);
    let mut input = vec![1u8];
    input.extend_from_slice(&300u64.to_le_bytes());
    assert_eq!(Processor::process(&mut accounts, &input), Ok(None));
    assert_eq!(read(&accounts[0]).consumer.get(&text(A)), Some(300));
}

#[test]
fn process_dispatches_submit() {
    let mut accounts = submit_accounts(funded(100000));
    let before = accounts.clone();
    let mut input = vec![2u8];
    input.extend_from_slice(&12345u64.to_le_bytes());
    assert_eq!(
        Processor::process(&mut accounts, &input),
        Ok(Some(Transfer { from: A, to: B, amount: 12345 }))
    );
    assert_eq!(accounts, before);
}

#[test]
fn process_reports_missing_accounts() {
    let mut accounts: Vec<Account> = vec![];
    assert_eq!(Processor::process(&mut accounts, &[0]), Err(GsnError::MissingAccount));
    let mut input = vec![2u8];
    input.extend_from_slice(&1u64.to_le_bytes());
    assert_eq!(Processor::process(&mut accounts, &input), Err(GsnError::MissingAccount));
}
