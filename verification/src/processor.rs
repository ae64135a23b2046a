//! The transitions of the ledger, one per instruction.
//!
//! An instruction reads the ledger from the data of its account, changes it and writes it back.
//! When it fails, every account is as it was. A relayed transfer takes two steps, because the
//! host moves the amount: the first step checks that the fee can be booked and names the
//! transfer to ask for, the second books the fee once the host reports that the amount has
//! moved.
//!
//! Amounts are exact. A sender whose balance does not cover the fee is refused, and so is an
//! amount that would exceed the largest that an entry can hold: no balance wraps around or
//! stops at a bound.
use crate::balances::{entries_insert, lemma_insert_canonical, lemma_insert_lookup, lookup};
use crate::error::GsnError;
use crate::instruction::{decode_instruction, GsnInstruction};
use crate::state::GsnInfo;
use crate::wire::{
    decode_ledger, lemma_normalize_canonical, lemma_wire_of_empty, parse_ledger, stored, Ledger,
};
use solana_program::program_error::ProgramError;
use solana_program::pubkey::Pubkey;
use vstd::prelude::*;

verus! {

/// What one relayed transfer costs its sender and earns its executor.
pub const RELAY_FEE: u64 = 50000;

/// An account as the host hands it to an instruction: its key and its data.
#[derive(Clone, Debug, PartialEq, Eq)]
pub struct Account {
    /// The key that names the account.
    pub key: [u8; 32],
    /// The bytes that the account stores.
    pub data: Vec<u8>,
}

/// A transfer that the host is asked to carry out.
#[derive(Clone, Copy, Debug, PartialEq, Eq)]
pub struct Transfer {
    /// The key of the account that pays.
    pub from: [u8; 32],
    /// The key of the account that is paid.
    pub to: [u8; 32],
    /// The amount to move.
    pub amount: u64,
}

/// The text under which the ledger holds the account with the given key: what
/// `solana_program::pubkey::Pubkey` displays for it.
pub uninterp spec fn address_of(key: Seq<u8>) -> Seq<char>;

/// `Pubkey::new_from_array` and the `to_string` of the key's `Display`: the text that the host
/// shows for a key, which depends on the 32 bytes of the key and on nothing else.
#[verifier::external_body]
fn address_text(key: &[u8; 32]) -> (text: String)
    ensures
        text@ == address_of(key@),
{
    Pubkey::new_from_array(*key).to_string()
}

/// The ledger after `amount` has been added to what `consumer` has paid in; nothing where the
/// balance would exceed the largest amount.
pub open spec fn topped_up(ledger: Ledger, consumer: Seq<char>, amount: u64) -> Option<Ledger> {
    let balance = match lookup(ledger.consumer, consumer) {
        Some(held) => held + amount,
        None => amount as int,
    };
    if balance > u64::MAX {
        None
    } else {
        Some(Ledger { consumer: entries_insert(ledger.consumer, consumer, balance as u64), ..ledger })
    }
}

/// The ledger after the fee of one relayed transfer has moved from the balance of `sender` to
/// the earnings of `executor`, or why it cannot move.
pub open spec fn fee_booked(ledger: Ledger, sender: Seq<char>, executor: Seq<char>) -> Result<
    Ledger,
    GsnError,
> {
    match lookup(ledger.consumer, sender) {
        None => Err(GsnError::Unauthorized),
        Some(balance) => if balance < RELAY_FEE {
            Err(GsnError::InsufficientFunds)
        } else {
            let earned = match lookup(ledger.executor, executor) {
                Some(held) => held + RELAY_FEE,
                None => RELAY_FEE as int,
            };
            if earned > u64::MAX {
                Err(GsnError::BalanceOverflow)
            } else {
                Ok(
                    Ledger {
                        initialized: ledger.initialized,
                        consumer: entries_insert(
                            ledger.consumer,
                            sender,
                            (balance - RELAY_FEE) as u64,
                        ),
                        executor: entries_insert(ledger.executor, executor, earned as u64),
                    },
                )
            }
        },
    }
}

/// The data of an account once `ledger` is written to its start, or the failure where the
/// ledger does not fit.
pub open spec fn written(data: Seq<u8>, ledger: Ledger) -> Result<Seq<u8>, GsnError> {
    if ledger.fits(data.len()) {
        Ok(stored(data, ledger.wire()))
    } else {
        Err(GsnError::StorageTooSmall)
    }
}

/// What setting up the ledger does to the data of the ledger account, the first account.
pub open spec fn initialize_outcome(accounts: Seq<Account>) -> Result<Seq<u8>, GsnError> {
    if accounts.len() < 1 {
        Err(GsnError::MissingAccount)
    } else {
        written(accounts[0].data@, Ledger::fresh())
    }
}

/// What a top-up does to the data of the ledger account, the first account. The second
/// account is the consumer.
pub open spec fn topup_outcome(accounts: Seq<Account>, amount: u64) -> Result<Seq<u8>, GsnError> {
    if accounts.len() < 2 {
        Err(GsnError::MissingAccount)
    } else {
        match decode_ledger(accounts[0].data@) {
            None => Err(GsnError::CorruptState),
            Some(ledger) => match topped_up(ledger, address_of(accounts[1].key@), amount) {
                None => Err(GsnError::BalanceOverflow),
                Some(next) => written(accounts[0].data@, next),
            },
        }
    }
}

/// What booking the fee of a relayed transfer does to the data of the ledger account, the
/// fifth account. The second account is the sender and the fourth the executor.
pub open spec fn submit_outcome(accounts: Seq<Account>) -> Result<Seq<u8>, GsnError> {
    if accounts.len() < 5 {
        Err(GsnError::MissingAccount)
    } else {
        match decode_ledger(accounts[4].data@) {
            None => Err(GsnError::CorruptState),
            Some(ledger) => match fee_booked(
                ledger,
                address_of(accounts[1].key@),
                address_of(accounts[3].key@),
            ) {
                Err(e) => Err(e),
                Ok(next) => written(accounts[4].data@, next),
            },
        }
    }
}

/// The transfer to ask the host for, from the second account to the third, or why none is
/// asked for: the failure for which the fee could not be booked afterwards.
pub open spec fn submit_request(accounts: Seq<Account>, amount: u64) -> Result<
    Transfer,
    GsnError,
> {
    match submit_outcome(accounts) {
        Err(e) => Err(e),
        Ok(_) => Ok(Transfer { from: accounts[1].key, to: accounts[2].key, amount }),
    }
}

/// `after` is `before` with the data of the account at `index` replaced by `data`.
pub open spec fn replaced(before: Seq<Account>, after: Seq<Account>, index: int, data: Seq<u8>)
    -> bool {
    &&& after.len() == before.len()
    &&& 0 <= index < before.len()
    &&& after[index].key == before[index].key
    &&& after[index].data@ == data
    &&& forall|i: int| 0 <= i < before.len() && i != index ==> after[i] == before[i]
}

/// The failure in a result, if it is one.
pub open spec fn failure_of<T>(result: Result<T, GsnError>) -> Option<GsnError> {
    match result {
        Ok(_) => None,
        Err(e) => Some(e),
    }
}

/// An instruction took effect as `outcome` says: it put the new data into the account at
/// `index` and reported no failure, or it reported the failure and changed no account.
pub open spec fn effect(
    before: Seq<Account>,
    after: Seq<Account>,
    index: int,
    outcome: Result<Seq<u8>, GsnError>,
    failure: Option<GsnError>,
) -> bool {
    match outcome {
        Ok(data) => failure is None && replaced(before, after, index, data),
        Err(e) => failure == Some(e) && after == before,
    }
}

/// An empty ledger fits exactly the regions of nine bytes or more.
pub proof fn lemma_fresh_fits(capacity: nat)
    ensures
        Ledger::fresh().wf(),
        Ledger::fresh().fits(capacity) <==> capacity >= 9,
{
    lemma_wire_of_empty(true);
}

/// What a decoded ledger becomes by a top-up is well formed.
pub proof fn lemma_topped_up_wf(ledger: Ledger, consumer: Seq<char>, amount: u64)
    requires
        ledger.wf(),
    ensures
        topped_up(ledger, consumer, amount) matches Some(next) ==> next.wf(),
{
    if let Some(next) = topped_up(ledger, consumer, amount) {
        let balance = match lookup(ledger.consumer, consumer) {
            Some(held) => held + amount,
            None => amount as int,
        };
        lemma_insert_canonical(ledger.consumer, consumer, balance as u64);
    }
}

/// What a ledger becomes by booking a fee is well formed.
pub proof fn lemma_fee_booked_wf(ledger: Ledger, sender: Seq<char>, executor: Seq<char>)
    requires
        ledger.wf(),
    ensures
        fee_booked(ledger, sender, executor) matches Ok(next) ==> next.wf(),
{
    if let Ok(next) = fee_booked(ledger, sender, executor) {
        let balance = lookup(ledger.consumer, sender).unwrap();
        let earned = match lookup(ledger.executor, executor) {
            Some(held) => held + RELAY_FEE,
            None => RELAY_FEE as int,
        };
        lemma_insert_canonical(ledger.consumer, sender, (balance - RELAY_FEE) as u64);
        lemma_insert_canonical(ledger.executor, executor, earned as u64);
    }
}

/// What bytes decode to is well formed.
pub proof fn lemma_decoded_wf(bytes: Seq<u8>)
    ensures
        decode_ledger(bytes) matches Some(ledger) ==> ledger.wf(),
{
    if let Some(ledger) = parse_ledger(bytes) {
        lemma_normalize_canonical(ledger.consumer);
        lemma_normalize_canonical(ledger.executor);
    }
}

/// A top-up adds its amount to what the consumer had paid in, to nothing where the consumer
/// had no entry, and leaves every other entry as it was.
pub proof fn lemma_topped_up(ledger: Ledger, consumer: Seq<char>, amount: u64, other: Seq<char>)
    requires
        ledger.wf(),
        topped_up(ledger, consumer, amount) is Some,
    ensures
        ({
            let next = topped_up(ledger, consumer, amount).unwrap();
            let held = match lookup(ledger.consumer, consumer) {
                Some(held) => held as int,
                None => 0,
            };
            &&& held + amount <= u64::MAX
            &&& lookup(next.consumer, consumer) == Some((held + amount) as u64)
            &&& other != consumer ==> lookup(next.consumer, other) == lookup(
                ledger.consumer,
                other,
            )
            &&& next.executor == ledger.executor
            &&& next.initialized == ledger.initialized
        }),
{
    let balance = match lookup(ledger.consumer, consumer) {
        Some(held) => held + amount,
        None => amount as int,
    };
    lemma_insert_lookup(ledger.consumer, consumer, balance as u64, consumer);
    lemma_insert_lookup(ledger.consumer, consumer, balance as u64, other);
}

/// Two top-ups of one consumer add up.
pub proof fn lemma_topup_accumulates(
    ledger: Ledger,
    consumer: Seq<char>,
    first: u64,
    second: u64,
)
    requires
        ledger.wf(),
        topped_up(ledger, consumer, first) is Some,
        topped_up(topped_up(ledger, consumer, first).unwrap(), consumer, second) is Some,
    ensures
        ({
            let once = topped_up(ledger, consumer, first).unwrap();
            let twice = topped_up(once, consumer, second).unwrap();
            let held = match lookup(ledger.consumer, consumer) {
                Some(held) => held as int,
                None => 0,
            };
            lookup(twice.consumer, consumer) == Some((held + first + second) as u64)
        }),
{
    let once = topped_up(ledger, consumer, first).unwrap();
    lemma_topped_up(ledger, consumer, first, consumer);
    lemma_topped_up_wf(ledger, consumer, first);
    lemma_topped_up(once, consumer, second, consumer);
}

/// Booking a fee takes the fee from the sender's balance and adds it to what the executor had
/// earned, to nothing where the executor had no entry. Every other entry stays as it was, and
/// no earnings decrease.
pub proof fn lemma_fee_booked(
    ledger: Ledger,
    sender: Seq<char>,
    executor: Seq<char>,
    other: Seq<char>,
)
    requires
        ledger.wf(),
        fee_booked(ledger, sender, executor) is Ok,
    ensures
        ({
            let next = fee_booked(ledger, sender, executor).unwrap();
            let earned = match lookup(ledger.executor, executor) {
                Some(held) => held as int,
                None => 0,
            };
            &&& lookup(ledger.consumer, sender) matches Some(balance) && balance >= RELAY_FEE
                && lookup(next.consumer, sender) == Some((balance - RELAY_FEE) as u64)
            &&& earned + RELAY_FEE <= u64::MAX
            &&& lookup(next.executor, executor) == Some((earned + RELAY_FEE) as u64)
            &&& other != sender ==> lookup(next.consumer, other) == lookup(
                ledger.consumer,
                other,
            )
            &&& other != executor ==> lookup(next.executor, other) == lookup(
                ledger.executor,
                other,
            )
            &&& lookup(ledger.executor, other) matches Some(before) ==> lookup(
                next.executor,
                other,
            ) matches Some(after) && after >= before
            &&& next.initialized == ledger.initialized
        }),
{
    let balance = lookup(ledger.consumer, sender).unwrap();
    let earned = match lookup(ledger.executor, executor) {
        Some(held) => held + RELAY_FEE,
        None => RELAY_FEE as int,
    };
    lemma_insert_lookup(ledger.consumer, sender, (balance - RELAY_FEE) as u64, sender);
    lemma_insert_lookup(ledger.consumer, sender, (balance - RELAY_FEE) as u64, other);
    lemma_insert_lookup(ledger.executor, executor, earned as u64, executor);
    lemma_insert_lookup(ledger.executor, executor, earned as u64, other);
}

/// A relayed transfer whose sender has no balance entry is refused as unauthorized, in both
/// steps.
pub proof fn lemma_unauthorized(accounts: Seq<Account>, amount: u64)
    requires
        accounts.len() >= 5,
        decode_ledger(accounts[4].data@) matches Some(ledger) && lookup(
            ledger.consumer,
            address_of(accounts[1].key@),
        ) is None,
    ensures
        submit_request(accounts, amount) == Err::<Transfer, GsnError>(GsnError::Unauthorized),
        submit_outcome(accounts) == Err::<Seq<u8>, GsnError>(GsnError::Unauthorized),
{
}

/// The program: one function per instruction.
pub struct Processor {}

/// Writes `info` to the start of the data of the account at `index`.
fn store_ledger(accounts: &mut Vec<Account>, index: usize, info: &GsnInfo) -> (result: Result<
    (),
    GsnError,
>)
    requires
        index < old(accounts)@.len(),
        info.wf(),
    ensures
        effect(
            old(accounts)@,
            final(accounts)@,
            index as int,
            written(old(accounts)@[index as int].data@, info@),
            failure_of(result),
        ),
        result is Ok ==> decode_ledger(final(accounts)@[index as int].data@) == Some(info@),
{
    let result = info.serialize(&mut accounts[index].data);
    proof {
        if result is Err {
            assert(accounts@ =~= old(accounts)@);
        }
    }
    result
}

impl Processor {
    /// Carries out the instruction that `input` spells. For a relayed transfer this is its
    /// first step, and the result names the transfer to ask the host for.
    pub fn process(accounts: &mut Vec<Account>, input: &[u8]) -> (result: Result<
        Option<Transfer>,
        GsnError,
    >)
        ensures
            match decode_instruction(input@) {
                None => {
                    &&& result == Err::<Option<Transfer>, GsnError>(GsnError::MalformedInstruction)
                    &&& final(accounts)@ == old(accounts)@
                },
                Some(GsnInstruction::Initialize) => {
                    &&& result matches Ok(request) ==> request is None
                    &&& effect(
                        old(accounts)@,
                        final(accounts)@,
                        0,
                        initialize_outcome(old(accounts)@),
                        failure_of(result),
                    )
                },
                Some(GsnInstruction::Topup(args)) => {
                    &&& result matches Ok(request) ==> request is None
                    &&& effect(
                        old(accounts)@,
                        final(accounts)@,
                        0,
                        topup_outcome(old(accounts)@, args.amount),
                        failure_of(result),
                    )
                },
                Some(GsnInstruction::SubmitTransaction(args)) => {
                    &&& final(accounts)@ == old(accounts)@
                    &&& result == match submit_request(old(accounts)@, args.amount) {
                        Ok(transfer) => Ok::<Option<Transfer>, GsnError>(Some(transfer)),
                        Err(e) => Err(e),
                    }
                },
            },
    {
        let instruction = match GsnInstruction::deserialize(input) {
            Ok(instruction) => instruction,
            Err(e) => {
                return Err(e);
            },
        };
        match instruction {
            GsnInstruction::Initialize => match Self::process_initialize(accounts) {
                Ok(()) => Ok(None),
                Err(e) => Err(e),
            },
            GsnInstruction::Topup(args) => match Self::process_topup(args.amount, accounts) {
                Ok(()) => Ok(None),
                Err(e) => Err(e),
            },
            GsnInstruction::SubmitTransaction(args) => match Self::process_submit_tx(
                args.amount,
                accounts,
            ) {
                Ok(transfer) => Ok(Some(transfer)),
                Err(e) => Err(e),
            },
        }
    }

    /// Writes an empty ledger to the first account, whatever the account held.
    pub fn process_initialize(accounts: &mut Vec<Account>) -> (result: Result<(), GsnError>)
        ensures
            effect(
                old(accounts)@,
                final(accounts)@,
                0,
                initialize_outcome(old(accounts)@),
                failure_of(result),
            ),
            result is Ok <==> old(accounts)@.len() >= 1 && old(accounts)@[0].data@.len() >= 9,
            result is Ok ==> decode_ledger(final(accounts)@[0].data@) == Some(Ledger::fresh()),
    {
        if accounts.len() < 1 {
            return Err(GsnError::MissingAccount);
        }
        proof {
            lemma_fresh_fits(accounts@[0].data@.len());
        }
        let info = GsnInfo::new();
        store_ledger(accounts, 0, &info)
    }

    /// Adds `amount` to what the consumer, the second account, has paid in, in the ledger of
    /// the first account. A consumer without an entry gets one.
    pub fn process_topup(amount: u64, accounts: &mut Vec<Account>) -> (result: Result<
        (),
        GsnError,
    >)
        ensures
            effect(
                old(accounts)@,
                final(accounts)@,
                0,
                topup_outcome(old(accounts)@, amount),
                failure_of(result),
            ),
            result is Ok ==> decode_ledger(final(accounts)@[0].data@) == topped_up(
                decode_ledger(old(accounts)@[0].data@).unwrap(),
                address_of(old(accounts)@[1].key@),
                amount,
            ),
    {
        if accounts.len() < 2 {
            return Err(GsnError::MissingAccount);
        }
        let mut info = match GsnInfo::deserialize(accounts[0].data.as_slice()) {
            Ok(info) => info,
            Err(e) => {
                return Err(e);
            },
        };
        let address = address_text(&accounts[1].key);
        let ghost ledger = info@;
        let balance: u64 = match info.consumer.get(address.as_str()) {
            Some(held) => match held.checked_add(amount) {
                Some(sum) => sum,
                None => {
                    return Err(GsnError::BalanceOverflow);
                },
            },
            None => amount,
        };
        info.add_consumer(address, balance);
        assert(Some(info@) == topped_up(ledger, address_of(accounts@[1].key@), amount));
        store_ledger(accounts, 0, &info)
    }

    /// Books the fee of a relayed transfer on a copy of the ledger of the fifth account: takes
    /// it from the balance of the sender, the second account, and adds it to the earnings of
    /// the executor, the fourth account.
    fn book_fee(accounts: &Vec<Account>) -> (booked: Result<GsnInfo, GsnError>)
        ensures
            accounts@.len() < 5 ==> booked == Err::<GsnInfo, GsnError>(GsnError::MissingAccount),
            accounts@.len() >= 5 ==> match decode_ledger(accounts@[4].data@) {
                None => booked == Err::<GsnInfo, GsnError>(GsnError::CorruptState),
                Some(ledger) => match fee_booked(
                    ledger,
                    address_of(accounts@[1].key@),
                    address_of(accounts@[3].key@),
                ) {
                    Err(e) => booked == Err::<GsnInfo, GsnError>(e),
                    Ok(next) => booked matches Ok(info) && info.wf() && info@ == next,
                },
            },
    {
        if accounts.len() < 5 {
            return Err(GsnError::MissingAccount);
        }
        let mut info = match GsnInfo::deserialize(accounts[4].data.as_slice()) {
            Ok(info) => info,
            Err(e) => {
                return Err(e);
            },
        };
        let sender = address_text(&accounts[1].key);
        let executor = address_text(&accounts[3].key);
        let balance: u64 = match info.consumer.get(sender.as_str()) {
            Some(held) => held,
            None => {
                return Err(GsnError::Unauthorized);
            },
        };
        if balance < RELAY_FEE {
            return Err(GsnError::InsufficientFunds);
        }
        let earned: u64 = match info.executor.get(executor.as_str()) {
            Some(held) => match held.checked_add(RELAY_FEE) {
                Some(sum) => sum,
                None => {
                    return Err(GsnError::BalanceOverflow);
                },
            },
            None => RELAY_FEE,
        };
        info.add_executor(executor, earned);
        info.add_consumer(sender, balance - RELAY_FEE);
        Ok(info)
    }

    /// The first step of a relayed transfer of `amount` from the sender, the second account,
    /// to the receiver, the third: names the transfer to ask the host for, unless the fee
    /// could not be booked afterwards. No account is changed.
    pub fn process_submit_tx(amount: u64, accounts: &Vec<Account>) -> (result: Result<
        Transfer,
        GsnError,
    >)
        ensures
            result == submit_request(accounts@, amount),
    {
        let info = match Self::book_fee(accounts) {
            Ok(info) => info,
            Err(e) => {
                return Err(e);
            },
        };
        match info.encode() {
            Some(bytes) => {
                if bytes.len() > accounts[4].data.len() {
                    return Err(GsnError::StorageTooSmall);
                }
            },
            None => {
                return Err(GsnError::StorageTooSmall);
            },
        }
        Ok(Transfer { from: accounts[1].key, to: accounts[2].key, amount })
    }

    /// The second step of a relayed transfer, once the host has said how the transfer went.
    /// After a transfer that failed, the failure is handed on and no account is changed.
    /// After one that succeeded, the fee is booked in the ledger of the fifth account.
    pub fn settle_submit_tx(accounts: &mut Vec<Account>, transfer: Result<(), ProgramError>) -> (
        result: Result<(), GsnError>)
        ensures
            match transfer {
                Err(e) => {
                    &&& result == Err::<(), GsnError>(GsnError::TransferFailed(e))
                    &&& final(accounts)@ == old(accounts)@
                },
                Ok(_) => effect(
                    old(accounts)@,
                    final(accounts)@,
                    4,
                    submit_outcome(old(accounts)@),
                    failure_of(result),
                ),
            },
            result is Ok ==> decode_ledger(final(accounts)@[4].data@) == Some(
                fee_booked(
                    decode_ledger(old(accounts)@[4].data@).unwrap(),
                    address_of(old(accounts)@[1].key@),
                    address_of(old(accounts)@[3].key@),
                ).unwrap(),
            ),
    {
        match transfer {
            Err(e) => {
                return Err(GsnError::TransferFailed(e));
            },
            Ok(_) => {},
        }
        let info = match Self::book_fee(accounts) {
            Ok(info) => info,
            Err(e) => {
                return Err(e);
            },
        };
        store_ledger(accounts, 4, &info)
    }
}

} // verus!
