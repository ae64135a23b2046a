//! The ledger record, and how it is read from and written to the data of its account.
use crate::balances::{entries_insert, Balances, Entry};
use crate::bytes::{
    get_u32, get_u64, le_bytes, lemma_le_value_bound, lemma_radix_pow_values, put_u32, put_u64,
};
use crate::error::GsnError;
use crate::wire::{
    decode_ledger, encode_body, encode_entries, encode_entry, entries_encodable, entry_encodable,
    lemma_decode_stored, lemma_decode_wire, normalize, parse_body, parse_entries, parse_entry,
    stored, Ledger,
};
use vstd::prelude::*;
use vstd::slice::{slice_subrange, slice_to_vec};
use vstd::utf8::{decode_utf8, valid_utf8};

verus! {

/// The ledger record: the balances that consumers have paid in, and what executors have
/// earned by relaying.
pub struct GsnInfo {
    /// Set once the ledger has been set up.
    pub is_initialized: bool,
    /// What each consumer has paid in and not yet spent on fees.
    pub consumer: Balances,
    /// What each executor has earned in fees.
    pub executor: Balances,
}

impl View for GsnInfo {
    type V = Ledger;

    open spec fn view(&self) -> Ledger {
        Ledger {
            initialized: self.is_initialized,
            consumer: self.consumer.entries(),
            executor: self.executor.entries(),
        }
    }
}

/// `String::from_utf8`: the text that `bytes` encode, where they are valid UTF-8, and nothing
/// where they are not.
#[verifier::external_body]
fn text_from_utf8(bytes: Vec<u8>) -> (text: Option<String>)
    ensures
        text is Some <==> valid_utf8(bytes@),
        text matches Some(s) ==> s@ == decode_utf8(bytes@),
{
    match String::from_utf8(bytes) {
        Ok(text) => Some(text),
        Err(_) => None,
    }
}

/// Appends `bytes` to `out`.
fn append(out: &mut Vec<u8>, bytes: &[u8])
    ensures
        final(out)@ == old(out)@ + bytes@,
{
    let mut i: usize = 0;
    while i < bytes.len()
        invariant
            i <= bytes@.len(),
            out@ == old(out)@ + bytes@.take(i as int),
        decreases bytes@.len() - i,
    {
        out.push(bytes[i]);
        assert(bytes@.take(i + 1) =~= bytes@.take(i as int).push(bytes@[i as int]));
        i = i + 1;
    }
    assert(bytes@.take(i as int) =~= bytes@);
}

/// Appends the bytes of a list of balances to `out`, unless a length in it is too large to be
/// written.
fn write_entries(balances: &Balances, out: &mut Vec<u8>) -> (written: bool)
    ensures
        written == entries_encodable(balances.entries()),
        written ==> final(out)@ == old(out)@ + encode_entries(balances.entries()),
{
    let ghost s = balances.entries();
    let n: usize = balances.len();
    if n > u32::MAX as usize {
        return false;
    }
    put_u32(out, n as u32);
    let mut i: usize = 0;
    while i < n
        invariant
            i <= n,
            n == s.len(),
            n <= u32::MAX,
            s == balances.entries(),
            forall|j: int| 0 <= j < i ==> entry_encodable(#[trigger] s[j]),
            out@ == old(out)@ + le_bytes(n as nat, 4) + encode_body(s.take(i as int)),
        decreases n - i,
    {
        let (key, amount) = balances.entry(i);
        let text = key.as_bytes();
        if text.len() > u32::MAX as usize {
            assert(!entry_encodable(s[i as int]));
            return false;
        }
        put_u32(out, text.len() as u32);
        append(out, text);
        put_u64(out, amount);
        proof {
            let done = s.take(i + 1);
            assert(done.drop_last() =~= s.take(i as int));
            assert(done.last() == s[i as int]);
            assert(encode_body(done) == encode_body(s.take(i as int)) + encode_entry(s[i as int]));
            assert(out@ =~= old(out)@ + le_bytes(n as nat, 4) + encode_body(done));
        }
        i = i + 1;
    }
    assert(s.take(i as int) =~= s);
    true
}

/// Reads the entry that starts at `at`: its key, its amount, and where the next one starts.
fn read_entry(data: &[u8], at: usize) -> (read: Option<(String, u64, usize)>)
    requires
        at <= data@.len(),
    ensures
        match parse_entry(data@.skip(at as int)) {
            Some((entry, rest)) => {
                &&& read matches Some((key, amount, next))
                &&& key@ == entry.0
                &&& amount == entry.1
                &&& at <= next <= data@.len()
                &&& rest == data@.skip(next as int)
            },
            None => read is None,
        },
{
    let total: usize = data.len();
    let ghost bytes = data@.skip(at as int);
    if total - at < 4 {
        return None;
    }
    let n: usize = get_u32(data, at) as usize;
    let p: usize = at + 4;
    assert(bytes.take(4) =~= data@.subrange(at as int, at + 4));
    assert(bytes.skip(4) =~= data@.skip(p as int));
    if total - p < n {
        return None;
    }
    let q: usize = p + n;
    let text: Vec<u8> = slice_to_vec(slice_subrange(data, p, q));
    assert(bytes.skip(4).take(n as int) =~= text@);
    assert(bytes.skip(4).skip(n as int) =~= data@.skip(q as int));
    let key = match text_from_utf8(text) {
        Some(key) => key,
        None => {
            return None;
        },
    };
    if total - q < 8 {
        return None;
    }
    let amount: u64 = get_u64(data, q);
    proof {
        let after_text = data@.skip(q as int);
        assert(after_text.take(8) =~= data@.subrange(q as int, q + 8));
        assert(after_text.skip(8) =~= data@.skip(q + 8));
        lemma_le_value_bound(after_text.take(8));
        lemma_radix_pow_values();
    }
    Some((key, amount, q + 8))
}

/// What `count` entries read after `parsed` add up to.
spec fn after_parsed(parsed: Seq<Entry>, more: Option<(Seq<Entry>, Seq<u8>)>) -> Option<
    (Seq<Entry>, Seq<u8>),
> {
    match more {
        None => None,
        Some((entries, rest)) => Some((parsed + entries, rest)),
    }
}

/// Reads the list of balances that starts at `at`, and where what follows it starts.
fn read_entries(data: &[u8], at: usize) -> (read: Option<(Balances, usize)>)
    requires
        at <= data@.len(),
    ensures
        match parse_entries(data@.skip(at as int)) {
            Some((entries, rest)) => {
                &&& read matches Some((balances, next))
                &&& balances.wf()
                &&& balances.entries() == normalize(entries)
                &&& at <= next <= data@.len()
                &&& rest == data@.skip(next as int)
            },
            None => read is None,
        },
{
    let total: usize = data.len();
    let ghost bytes = data@.skip(at as int);
    if total - at < 4 {
        return None;
    }
    let count: u32 = get_u32(data, at);
    let mut p: usize = at + 4;
    assert(bytes.take(4) =~= data@.subrange(at as int, at + 4));
    assert(bytes.skip(4) =~= data@.skip(p as int));
    let ghost start = data@.skip(p as int);
    let ghost mut parsed: Seq<Entry> = Seq::empty();
    let mut balances = Balances::new();
    let mut k: u32 = 0;
    assert(after_parsed(parsed, parse_body(start, count as nat)) == parse_body(
        start,
        count as nat,
    )) by {
        if let Some((entries, rest)) = parse_body(start, count as nat) {
            assert(parsed + entries =~= entries);
        }
    }
    while k < count
        invariant
            at <= p <= data@.len(),
            k <= count,
            balances.wf(),
            balances.entries() == normalize(parsed),
            parse_entries(data@.skip(at as int)) == parse_body(start, count as nat),
            parse_body(start, count as nat) == after_parsed(
                parsed,
                parse_body(data@.skip(p as int), (count - k) as nat),
            ),
        decreases count - k,
    {
        match read_entry(data, p) {
            None => {
                return None;
            },
            Some((key, amount, next)) => {
                proof {
                    let entry = (key@, amount);
                    let more = parse_body(data@.skip(next as int), (count - k - 1) as nat);
                    let longer = parsed.push(entry);
                    if let Some((entries, rest)) = more {
                        assert(parsed + (seq![entry] + entries) =~= longer + entries);
                    }
                    assert(after_parsed(
                        parsed,
                        parse_body(data@.skip(p as int), (count - k) as nat),
                    ) == after_parsed(longer, more));
                    assert(longer.drop_last() =~= parsed);
                    assert(normalize(longer) == entries_insert(
                        normalize(parsed),
                        key@,
                        amount,
                    ));
                    parsed = longer;
                }
                balances.insert(key, amount);
                p = next;
                k = k + 1;
            },
        }
    }
    assert(parsed + Seq::<Entry>::empty() =~= parsed);
    Some((balances, p))
}

impl GsnInfo {
    /// Both lists of balances are well formed.
    pub open spec fn wf(&self) -> bool {
        self.consumer.wf() && self.executor.wf()
    }

    /// A ledger that has been set up and holds no entry.
    pub fn new() -> (info: GsnInfo)
        ensures
            info.wf(),
            info@ == Ledger::fresh(),
    {
        GsnInfo { is_initialized: true, consumer: Balances::new(), executor: Balances::new() }
    }

    /// Sets what `address` has paid in to `amount`.
    pub fn add_consumer(&mut self, address: String, amount: u64) -> (done: bool)
        requires
            old(self).wf(),
        ensures
            done,
            final(self).wf(),
            final(self)@ == (Ledger {
                consumer: entries_insert(old(self)@.consumer, address@, amount),
                ..old(self)@
            }),
            final(self).consumer@ == old(self).consumer@.insert(address@, amount),
    {
        self.consumer.insert(address, amount);
        true
    }

    /// Sets what `address` has earned to `amount`.
    pub fn add_executor(&mut self, address: String, amount: u64) -> (done: bool)
        requires
            old(self).wf(),
        ensures
            done,
            final(self).wf(),
            final(self)@ == (Ledger {
                executor: entries_insert(old(self)@.executor, address@, amount),
                ..old(self)@
            }),
            final(self).executor@ == old(self).executor@.insert(address@, amount),
    {
        self.executor.insert(address, amount);
        true
    }

    /// The bytes of the ledger, unless a length in it is too large to be written.
    pub fn encode(&self) -> (bytes: Option<Vec<u8>>)
        ensures
            bytes is Some <==> self@.encodable(),
            bytes matches Some(b) ==> b@ == self@.wire(),
            bytes matches Some(b) ==> self.wf() ==> decode_ledger(b@) == Some(self@),
    {
        proof {
            if self.wf() && self@.encodable() {
                lemma_decode_wire(self@, Seq::empty());
                assert(self@.wire() + Seq::<u8>::empty() =~= self@.wire());
            }
        }
        let mut out: Vec<u8> = Vec::new();
        out.push(if self.is_initialized { 1u8 } else { 0u8 });
        if !write_entries(&self.consumer, &mut out) {
            return None;
        }
        if !write_entries(&self.executor, &mut out) {
            return None;
        }
        assert(out@ =~= self@.wire());
        Some(out)
    }

    /// Writes the ledger to the start of `data` and leaves the bytes behind it as they are.
    /// Where the ledger does not fit, nothing is written.
    pub fn serialize(&self, data: &mut Vec<u8>) -> (written: Result<(), GsnError>)
        ensures
            match written {
                Ok(()) => {
                    &&& self@.fits(old(data)@.len())
                    &&& final(data)@ == stored(old(data)@, self@.wire())
                    &&& self.wf() ==> decode_ledger(final(data)@) == Some(self@)
                },
                Err(e) => {
                    &&& e == GsnError::StorageTooSmall
                    &&& !self@.fits(old(data)@.len())
                    &&& *final(data) == *old(data)
                },
            },
    {
        proof {
            if self.wf() && self@.encodable() {
                lemma_decode_stored(self@, data@);
            }
        }
        let bytes = match self.encode() {
            Some(bytes) => bytes,
            None => {
                return Err(GsnError::StorageTooSmall);
            },
        };
        if bytes.len() > data.len() {
            return Err(GsnError::StorageTooSmall);
        }
        let mut i: usize = 0;
        while i < bytes.len()
            invariant
                i <= bytes@.len() <= data@.len(),
                data@.len() == old(data)@.len(),
                data@ == bytes@.take(i as int) + old(data)@.skip(i as int),
            decreases bytes@.len() - i,
        {
            data[i] = bytes[i];
            assert(data@ =~= bytes@.take(i + 1) + old(data)@.skip(i + 1));
            i = i + 1;
        }
        assert(bytes@.take(i as int) =~= bytes@);
        Ok(())
    }

    /// Reads the ledger at the start of `data`. Entries may stand there in any order; of two
    /// with one key the later one counts.
    pub fn deserialize(data: &[u8]) -> (read: Result<GsnInfo, GsnError>)
        ensures
            match decode_ledger(data@) {
                Some(ledger) => read matches Ok(info) && info.wf() && info@ == ledger,
                None => read matches Err(e) && e == GsnError::CorruptState,
            },
    {
        if data.len() < 1 {
            return Err(GsnError::CorruptState);
        }
        let flag: u8 = data[0];
        if flag > 1 {
            return Err(GsnError::CorruptState);
        }
        let (consumer, next) = match read_entries(data, 1) {
            Some(read) => read,
            None => {
                return Err(GsnError::CorruptState);
            },
        };
        let (executor, _) = match read_entries(data, next) {
            Some(read) => read,
            None => {
                return Err(GsnError::CorruptState);
            },
        };
        Ok(GsnInfo { is_initialized: flag == 1, consumer, executor })
    }
}

impl Default for GsnInfo {
    /// A ledger that has not been set up and holds no entry.
    fn default() -> (info: GsnInfo)
        ensures
            info.wf(),
            info@ == (Ledger { initialized: false, consumer: Seq::empty(), executor: Seq::empty() }),
    {
        GsnInfo { is_initialized: false, consumer: Balances::new(), executor: Balances::new() }
    }
}

} // verus!
