//! The byte layout of a ledger.
//!
//! A ledger is one flag byte, then the consumer balances, then the executor earnings. A list
//! of balances is the number of its entries in four bytes, then the entries. An entry is the
//! length of its key's UTF-8 bytes in four bytes, those bytes, and the amount in eight bytes.
//! Every number is little-endian. Bytes that follow a ledger are not part of it.
use crate::balances::{canonical, entries_insert, lemma_insert_canonical, lemma_insert_last, Entry};
use crate::keys::key_lt;
use crate::bytes::{
    le_bytes, le_value, lemma_le_bytes_len, lemma_le_bytes_of_value, lemma_le_value_bound,
    lemma_le_value_of_bytes, lemma_radix_pow_values,
};
use vstd::prelude::*;
use vstd::utf8::{
    decode_utf8, decode_utf8_encode_utf8, encode_utf8, encode_utf8_decode_utf8,
    encode_utf8_valid_utf8, valid_utf8,
};

verus! {

/// What a ledger records.
pub struct Ledger {
    /// Whether the ledger has been set up.
    pub initialized: bool,
    /// What each consumer has paid in and not yet spent on fees.
    pub consumer: Seq<Entry>,
    /// What each executor has earned in fees.
    pub executor: Seq<Entry>,
}

/// The length of the key's bytes fits the four bytes that hold it.
pub open spec fn entry_encodable(entry: Entry) -> bool {
    encode_utf8(entry.0).len() <= u32::MAX
}

/// The number of entries and the length of every key fit the four bytes that hold them.
pub open spec fn entries_encodable(s: Seq<Entry>) -> bool {
    &&& s.len() <= u32::MAX
    &&& forall|i: int| 0 <= i < s.len() ==> entry_encodable(#[trigger] s[i])
}

/// The bytes of one entry.
pub open spec fn encode_entry(entry: Entry) -> Seq<u8> {
    le_bytes(encode_utf8(entry.0).len(), 4) + encode_utf8(entry.0) + le_bytes(entry.1 as nat, 8)
}

/// The bytes of the entries of a list, one after the other.
pub open spec fn encode_body(s: Seq<Entry>) -> Seq<u8>
    decreases s.len(),
{
    if s.len() == 0 {
        Seq::empty()
    } else {
        encode_body(s.drop_last()) + encode_entry(s.last())
    }
}

/// The bytes of a list of balances.
pub open spec fn encode_entries(s: Seq<Entry>) -> Seq<u8> {
    le_bytes(s.len(), 4) + encode_body(s)
}

/// One entry read from the start of `bytes`, and the bytes that follow it.
pub open spec fn parse_entry(bytes: Seq<u8>) -> Option<(Entry, Seq<u8>)> {
    if bytes.len() < 4 {
        None
    } else {
        let n = le_value(bytes.take(4));
        let after_len = bytes.skip(4);
        if after_len.len() < n {
            None
        } else {
            let text = after_len.take(n as int);
            let after_text = after_len.skip(n as int);
            if !valid_utf8(text) || after_text.len() < 8 {
                None
            } else {
                Some(
                    (
                        (decode_utf8(text), le_value(after_text.take(8)) as u64),
                        after_text.skip(8),
                    ),
                )
            }
        }
    }
}

/// `count` entries read from the start of `bytes`, and the bytes that follow them.
pub open spec fn parse_body(bytes: Seq<u8>, count: nat) -> Option<(Seq<Entry>, Seq<u8>)>
    decreases count,
{
    if count == 0 {
        Some((Seq::empty(), bytes))
    } else {
        match parse_entry(bytes) {
            None => None,
            Some((entry, rest)) => match parse_body(rest, (count - 1) as nat) {
                None => None,
                Some((entries, rest)) => Some((seq![entry] + entries, rest)),
            },
        }
    }
}

/// A list of balances read from the start of `bytes`, in the order in which its entries
/// stand there, and the bytes that follow it.
pub open spec fn parse_entries(bytes: Seq<u8>) -> Option<(Seq<Entry>, Seq<u8>)> {
    if bytes.len() < 4 {
        None
    } else {
        parse_body(bytes.skip(4), le_value(bytes.take(4)))
    }
}

/// The canonical entries that result from setting the entries of `s` one after the other:
/// of two entries with one key the later one counts.
pub open spec fn normalize(s: Seq<Entry>) -> Seq<Entry>
    decreases s.len(),
{
    if s.len() == 0 {
        Seq::empty()
    } else {
        entries_insert(normalize(s.drop_last()), s.last().0, s.last().1)
    }
}

impl Ledger {
    /// A ledger that has been set up and holds no entry.
    pub open spec fn fresh() -> Ledger {
        Ledger { initialized: true, consumer: Seq::empty(), executor: Seq::empty() }
    }

    /// Both lists are canonical.
    pub open spec fn wf(self) -> bool {
        canonical(self.consumer) && canonical(self.executor)
    }

    /// Both lists can be written.
    pub open spec fn encodable(self) -> bool {
        entries_encodable(self.consumer) && entries_encodable(self.executor)
    }

    /// The bytes of the ledger.
    pub open spec fn wire(self) -> Seq<u8> {
        seq![if self.initialized { 1u8 } else { 0u8 }] + encode_entries(self.consumer)
            + encode_entries(self.executor)
    }

    /// Whether the ledger can be written to a region of `capacity` bytes.
    pub open spec fn fits(self, capacity: nat) -> bool {
        self.encodable() && self.wire().len() <= capacity
    }
}

/// The ledger at the start of `bytes`, its lists in the order in which their entries stand
/// there.
pub open spec fn parse_ledger(bytes: Seq<u8>) -> Option<Ledger> {
    if bytes.len() < 1 || bytes[0] > 1 {
        None
    } else {
        match parse_entries(bytes.skip(1)) {
            None => None,
            Some((consumer, rest)) => match parse_entries(rest) {
                None => None,
                Some((executor, _)) => Some(
                    Ledger { initialized: bytes[0] == 1, consumer, executor },
                ),
            },
        }
    }
}

/// The ledger that `bytes` hold: the one at their start, each list made canonical.
pub open spec fn decode_ledger(bytes: Seq<u8>) -> Option<Ledger> {
    match parse_ledger(bytes) {
        None => None,
        Some(ledger) => Some(
            Ledger {
                initialized: ledger.initialized,
                consumer: normalize(ledger.consumer),
                executor: normalize(ledger.executor),
            },
        ),
    }
}

/// A region after a ledger has been written to its start: the bytes behind the ledger stay.
pub open spec fn stored(region: Seq<u8>, wire: Seq<u8>) -> Seq<u8> {
    wire + region.skip(wire.len() as int)
}

/// An entry is read back from its bytes, whatever follows them.
pub proof fn lemma_parse_entry_encoded(entry: Entry, rest: Seq<u8>)
    requires
        entry_encodable(entry),
    ensures
        parse_entry(encode_entry(entry) + rest) == Some((entry, rest)),
{
    let text = encode_utf8(entry.0);
    let n = text.len();
    let head = le_bytes(n, 4);
    let amount = le_bytes(entry.1 as nat, 8);
    let bytes = encode_entry(entry) + rest;
    lemma_le_bytes_len(n, 4);
    lemma_le_bytes_len(entry.1 as nat, 8);
    lemma_radix_pow_values();
    lemma_le_value_of_bytes(n, 4);
    lemma_le_value_of_bytes(entry.1 as nat, 8);
    encode_utf8_valid_utf8(entry.0);
    encode_utf8_decode_utf8(entry.0);
    assert(bytes.take(4) =~= head);
    let after_len = bytes.skip(4);
    assert(after_len =~= text + amount + rest);
    assert(after_len.take(n as int) =~= text);
    let after_text = after_len.skip(n as int);
    assert(after_text =~= amount + rest);
    assert(after_text.take(8) =~= amount);
    assert(after_text.skip(8) =~= rest);
}

/// The bytes of a list's entries start with the bytes of its first entry.
pub proof fn lemma_encode_body_front(entry: Entry, s: Seq<Entry>)
    ensures
        encode_body(seq![entry] + s) == encode_entry(entry) + encode_body(s),
    decreases s.len(),
{
    let all = seq![entry] + s;
    if s.len() == 0 {
        assert(all.drop_last() =~= Seq::<Entry>::empty());
        assert(encode_body(all.drop_last()) =~= Seq::<u8>::empty());
        assert(encode_body(all) =~= encode_entry(entry) + encode_body(s));
    } else {
        assert(all.drop_last() =~= seq![entry] + s.drop_last());
        assert(all.last() == s.last());
        lemma_encode_body_front(entry, s.drop_last());
        assert(encode_body(all) =~= encode_entry(entry) + encode_body(s));
    }
}

/// The entries of a list are read back from their bytes, whatever follows them.
pub proof fn lemma_parse_body_encoded(s: Seq<Entry>, rest: Seq<u8>)
    requires
        forall|i: int| 0 <= i < s.len() ==> entry_encodable(#[trigger] s[i]),
    ensures
        parse_body(encode_body(s) + rest, s.len()) == Some((s, rest)),
    decreases s.len(),
{
    if s.len() > 0 {
        let first = s[0];
        let tail = s.skip(1);
        assert(s =~= seq![first] + tail);
        lemma_encode_body_front(first, tail);
        let after = encode_body(tail) + rest;
        assert(encode_body(s) + rest =~= encode_entry(first) + after);
        lemma_parse_entry_encoded(first, after);
        assert forall|i: int| 0 <= i < tail.len() implies entry_encodable(#[trigger] tail[i]) by {
            assert(tail[i] == s[i + 1]);
        }
        lemma_parse_body_encoded(tail, rest);
    } else {
        assert(encode_body(s) + rest =~= rest);
    }
}

/// A list of balances is read back from its bytes, whatever follows them.
pub proof fn lemma_parse_entries_encoded(s: Seq<Entry>, rest: Seq<u8>)
    requires
        entries_encodable(s),
    ensures
        parse_entries(encode_entries(s) + rest) == Some((s, rest)),
{
    let bytes = encode_entries(s) + rest;
    lemma_le_bytes_len(s.len(), 4);
    lemma_radix_pow_values();
    lemma_le_value_of_bytes(s.len(), 4);
    assert(bytes.take(4) =~= le_bytes(s.len(), 4));
    assert(bytes.skip(4) =~= encode_body(s) + rest);
    lemma_parse_body_encoded(s, rest);
}

/// Making a list canonical gives canonical entries.
pub proof fn lemma_normalize_canonical(s: Seq<Entry>)
    ensures
        canonical(normalize(s)),
    decreases s.len(),
{
    if s.len() > 0 {
        lemma_normalize_canonical(s.drop_last());
        lemma_insert_canonical(normalize(s.drop_last()), s.last().0, s.last().1);
    }
}

/// Canonical entries are left as they are.
pub proof fn lemma_normalize_fixed(s: Seq<Entry>)
    requires
        canonical(s),
    ensures
        normalize(s) == s,
    decreases s.len(),
{
    if s.len() > 0 {
        let front = s.drop_last();
        assert forall|i: int, j: int| 0 <= i < j < front.len() implies key_lt(
            front[i].0,
            front[j].0,
        ) by {
            assert(front[i] == s[i] && front[j] == s[j]);
        }
        lemma_normalize_fixed(front);
        assert forall|j: int| 0 <= j < front.len() implies key_lt(
            #[trigger] front[j].0,
            s.last().0,
        ) by {
            assert(front[j] == s[j]);
            assert(key_lt(s[j].0, s[s.len() - 1].0));
        }
        lemma_insert_last(front, s.last().0, s.last().1);
        assert(front.push(s.last()) =~= s);
    }
}

/// The lists of a ledger are read back from its bytes as they stand, whatever follows the
/// bytes.
pub proof fn lemma_parse_wire(ledger: Ledger, rest: Seq<u8>)
    requires
        ledger.encodable(),
    ensures
        parse_ledger(ledger.wire() + rest) == Some(ledger),
{
    let bytes = ledger.wire() + rest;
    let after_consumer = encode_entries(ledger.executor) + rest;
    assert(bytes.skip(1) =~= encode_entries(ledger.consumer) + after_consumer);
    lemma_parse_entries_encoded(ledger.consumer, after_consumer);
    lemma_parse_entries_encoded(ledger.executor, rest);
}

/// A ledger is decoded from its bytes, whatever follows them.
pub proof fn lemma_decode_wire(ledger: Ledger, rest: Seq<u8>)
    requires
        ledger.wf(),
        ledger.encodable(),
    ensures
        decode_ledger(ledger.wire() + rest) == Some(ledger),
{
    lemma_parse_wire(ledger, rest);
    lemma_normalize_fixed(ledger.consumer);
    lemma_normalize_fixed(ledger.executor);
}

/// The bytes from which an entry is read are the bytes of that entry and what follows them.
pub proof fn lemma_parse_entry_consumes(bytes: Seq<u8>)
    requires
        parse_entry(bytes) is Some,
    ensures
        entry_encodable(parse_entry(bytes).unwrap().0),
        bytes == encode_entry(parse_entry(bytes).unwrap().0) + parse_entry(bytes).unwrap().1,
{
    let (entry, rest) = parse_entry(bytes).unwrap();
    let head = bytes.take(4);
    let n = le_value(head);
    let text = bytes.skip(4).take(n as int);
    let after_text = bytes.skip(4).skip(n as int);
    let amount = after_text.take(8);
    lemma_radix_pow_values();
    lemma_le_value_bound(head);
    lemma_le_value_bound(amount);
    lemma_le_bytes_of_value(head);
    lemma_le_bytes_of_value(amount);
    decode_utf8_encode_utf8(text);
    assert(encode_utf8(entry.0) == text);
    assert(entry.1 as nat == le_value(amount));
    assert(bytes =~= head + text + amount + rest);
}

/// The bytes from which entries are read are the bytes of those entries and what follows
/// them.
pub proof fn lemma_parse_body_consumes(bytes: Seq<u8>, count: nat)
    requires
        parse_body(bytes, count) is Some,
    ensures
        ({
            let (entries, rest) = parse_body(bytes, count).unwrap();
            &&& entries.len() == count
            &&& forall|i: int| 0 <= i < entries.len() ==> entry_encodable(#[trigger] entries[i])
            &&& bytes == encode_body(entries) + rest
        }),
    decreases count,
{
    let (entries, rest) = parse_body(bytes, count).unwrap();
    if count == 0 {
        assert(encode_body(entries) + rest =~= bytes);
    } else {
        let (first, after) = parse_entry(bytes).unwrap();
        let (tail, _) = parse_body(after, (count - 1) as nat).unwrap();
        lemma_parse_entry_consumes(bytes);
        lemma_parse_body_consumes(after, (count - 1) as nat);
        lemma_encode_body_front(first, tail);
        assert(entries == seq![first] + tail);
        assert forall|i: int| 0 <= i < entries.len() implies entry_encodable(
            #[trigger] entries[i],
        ) by {
            if i > 0 {
                assert(entries[i] == tail[i - 1]);
            }
        }
        assert(bytes =~= encode_body(entries) + rest);
    }
}

/// An entry that is read from bytes is read from them whatever is put behind them.
pub proof fn lemma_parse_entry_extends(bytes: Seq<u8>, more: Seq<u8>)
    requires
        parse_entry(bytes) is Some,
    ensures
        parse_entry(bytes + more) == Some(
            (parse_entry(bytes).unwrap().0, parse_entry(bytes).unwrap().1 + more),
        ),
{
    let longer = bytes + more;
    let n = le_value(bytes.take(4));
    assert(longer.take(4) =~= bytes.take(4));
    assert(longer.skip(4) =~= bytes.skip(4) + more);
    assert(longer.skip(4).take(n as int) =~= bytes.skip(4).take(n as int));
    assert(longer.skip(4).skip(n as int) =~= bytes.skip(4).skip(n as int) + more);
    let after_text = bytes.skip(4).skip(n as int);
    assert((after_text + more).take(8) =~= after_text.take(8));
    assert((after_text + more).skip(8) =~= after_text.skip(8) + more);
}

/// Entries that are read from bytes are read from them whatever is put behind them.
pub proof fn lemma_parse_body_extends(bytes: Seq<u8>, count: nat, more: Seq<u8>)
    requires
        parse_body(bytes, count) is Some,
    ensures
        parse_body(bytes + more, count) == Some(
            (parse_body(bytes, count).unwrap().0, parse_body(bytes, count).unwrap().1 + more),
        ),
    decreases count,
{
    if count > 0 {
        let (_, after) = parse_entry(bytes).unwrap();
        lemma_parse_entry_extends(bytes, more);
        lemma_parse_body_extends(after, (count - 1) as nat, more);
    }
}

/// The bytes from which a list is read are the bytes of that list and what follows them.
pub proof fn lemma_parse_entries_consumes(bytes: Seq<u8>)
    requires
        parse_entries(bytes) is Some,
    ensures
        entries_encodable(parse_entries(bytes).unwrap().0),
        bytes == encode_entries(parse_entries(bytes).unwrap().0) + parse_entries(
            bytes,
        ).unwrap().1,
{
    let (entries, rest) = parse_entries(bytes).unwrap();
    let head = bytes.take(4);
    lemma_radix_pow_values();
    lemma_le_value_bound(head);
    lemma_le_bytes_of_value(head);
    lemma_parse_body_consumes(bytes.skip(4), le_value(head));
    assert(bytes =~= head + bytes.skip(4));
    assert(bytes =~= encode_entries(entries) + rest);
}

/// A list that is read from bytes is read from them whatever is put behind them.
pub proof fn lemma_parse_entries_extends(bytes: Seq<u8>, more: Seq<u8>)
    requires
        parse_entries(bytes) is Some,
    ensures
        parse_entries(bytes + more) == Some(
            (parse_entries(bytes).unwrap().0, parse_entries(bytes).unwrap().1 + more),
        ),
{
    let longer = bytes + more;
    assert(longer.take(4) =~= bytes.take(4));
    assert(longer.skip(4) =~= bytes.skip(4) + more);
    lemma_parse_body_extends(bytes.skip(4), le_value(bytes.take(4)), more);
}

/// Bytes from which a ledger is read start with the bytes of that ledger: no other bytes
/// hold it.
pub proof fn lemma_parse_ledger_consumes(bytes: Seq<u8>)
    requires
        parse_ledger(bytes) is Some,
    ensures
        parse_ledger(bytes).unwrap().encodable(),
        parse_ledger(bytes).unwrap().wire().len() <= bytes.len(),
        bytes.take(parse_ledger(bytes).unwrap().wire().len() as int) == parse_ledger(
            bytes,
        ).unwrap().wire(),
{
    let ledger = parse_ledger(bytes).unwrap();
    let (consumer, after) = parse_entries(bytes.skip(1)).unwrap();
    let (executor, rest) = parse_entries(after).unwrap();
    lemma_parse_entries_consumes(bytes.skip(1));
    lemma_parse_entries_consumes(after);
    let flag = seq![if ledger.initialized { 1u8 } else { 0u8 }];
    assert(bytes =~= flag + bytes.skip(1));
    assert(bytes.skip(1) == encode_entries(consumer) + after);
    assert(after == encode_entries(executor) + rest);
    assert(ledger.wire() == flag + encode_entries(consumer) + encode_entries(executor));
    assert(bytes =~= ledger.wire() + rest);
    assert(bytes.take(ledger.wire().len() as int) =~= ledger.wire());
}

/// A ledger that is read from bytes is read from them whatever is put behind them.
pub proof fn lemma_parse_ledger_extends(bytes: Seq<u8>, more: Seq<u8>)
    requires
        parse_ledger(bytes) is Some,
    ensures
        parse_ledger(bytes + more) == parse_ledger(bytes),
        decode_ledger(bytes + more) == decode_ledger(bytes),
{
    let longer = bytes + more;
    let (consumer, after) = parse_entries(bytes.skip(1)).unwrap();
    assert(longer.skip(1) =~= bytes.skip(1) + more);
    lemma_parse_entries_extends(bytes.skip(1), more);
    lemma_parse_entries_extends(after, more);
}

/// No ledger is read from the bytes of a ledger cut short.
pub proof fn lemma_decode_truncated(ledger: Ledger, length: int)
    requires
        ledger.encodable(),
        0 <= length < ledger.wire().len(),
    ensures
        decode_ledger(ledger.wire().take(length)) is None,
{
    let wire = ledger.wire();
    let cut = wire.take(length);
    if parse_ledger(cut) is Some {
        let read = parse_ledger(cut).unwrap();
        lemma_parse_ledger_consumes(cut);
        lemma_parse_ledger_extends(cut, wire.skip(length));
        assert(cut + wire.skip(length) =~= wire);
        lemma_parse_wire(ledger, Seq::empty());
        assert(wire + Seq::<u8>::empty() =~= wire);
        assert(read == ledger);
    }
}

/// A ledger is decoded from a region to whose start it has been written.
pub proof fn lemma_decode_stored(ledger: Ledger, region: Seq<u8>)
    requires
        ledger.wf(),
        ledger.encodable(),
    ensures
        decode_ledger(stored(region, ledger.wire())) == Some(ledger),
{
    lemma_decode_wire(ledger, region.skip(ledger.wire().len() as int));
}

/// The bytes of a ledger are nine or more.
pub proof fn lemma_wire_len(ledger: Ledger)
    ensures
        ledger.wire().len() >= 9,
{
    lemma_le_bytes_len(ledger.consumer.len(), 4);
    lemma_le_bytes_len(ledger.executor.len(), 4);
}

/// Fewer than nine bytes hold no ledger.
pub proof fn lemma_decode_short(bytes: Seq<u8>)
    requires
        bytes.len() < 9,
    ensures
        decode_ledger(bytes) is None,
{
    if parse_ledger(bytes) is Some {
        lemma_parse_ledger_consumes(bytes);
        lemma_wire_len(parse_ledger(bytes).unwrap());
    }
}

/// The bytes of a ledger that holds no entry.
pub proof fn lemma_wire_of_empty(initialized: bool)
    ensures
        (Ledger { initialized, consumer: Seq::empty(), executor: Seq::empty() }).wire() == seq![
            if initialized { 1u8 } else { 0u8 },
            0u8, 0u8, 0u8, 0u8, 0u8, 0u8, 0u8, 0u8,
        ],
{
    reveal_with_fuel(le_bytes, 5);
    let ledger = Ledger { initialized, consumer: Seq::empty(), executor: Seq::empty() };
    assert(le_bytes(0, 4) =~= seq![0u8, 0u8, 0u8, 0u8]);
    assert(encode_body(Seq::<Entry>::empty()) =~= Seq::<u8>::empty());
    assert(ledger.wire() =~= seq![
        if initialized { 1u8 } else { 0u8 },
        0u8, 0u8, 0u8, 0u8, 0u8, 0u8, 0u8, 0u8,
    ]);
}

} // verus!
