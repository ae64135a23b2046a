//! The order of ledger keys: text compared by its UTF-8 bytes.
use vstd::prelude::*;
use vstd::utf8::*;

verus! {

/// Lexicographic order of byte sequences: the first byte that differs decides, and a proper
/// prefix comes first.
pub open spec fn bytes_lt(a: Seq<u8>, b: Seq<u8>) -> bool
    decreases a.len(),
{
    if b.len() == 0 {
        false
    } else if a.len() == 0 {
        true
    } else if a[0] != b[0] {
        a[0] < b[0]
    } else {
        bytes_lt(a.skip(1), b.skip(1))
    }
}

/// The order of keys: that of their UTF-8 bytes.
pub open spec fn key_lt(a: Seq<char>, b: Seq<char>) -> bool {
    bytes_lt(encode_utf8(a), encode_utf8(b))
}

pub proof fn lemma_bytes_lt_irreflexive(a: Seq<u8>)
    ensures
        !bytes_lt(a, a),
    decreases a.len(),
{
    if a.len() > 0 {
        lemma_bytes_lt_irreflexive(a.skip(1));
    }
}

pub proof fn lemma_bytes_lt_transitive(a: Seq<u8>, b: Seq<u8>, c: Seq<u8>)
    requires
        bytes_lt(a, b),
        bytes_lt(b, c),
    ensures
        bytes_lt(a, c),
    decreases a.len(),
{
    if a.len() > 0 && a[0] == b[0] && b[0] == c[0] {
        lemma_bytes_lt_transitive(a.skip(1), b.skip(1), c.skip(1));
    }
}

pub proof fn lemma_bytes_lt_total(a: Seq<u8>, b: Seq<u8>)
    requires
        a != b,
    ensures
        bytes_lt(a, b) || bytes_lt(b, a),
    decreases a.len(),
{
    if a.len() > 0 && b.len() > 0 && a[0] == b[0] {
        if a.skip(1) == b.skip(1) {
            assert(a =~= seq![a[0]] + a.skip(1));
            assert(b =~= seq![b[0]] + b.skip(1));
        }
        lemma_bytes_lt_total(a.skip(1), b.skip(1));
    } else if a.len() == 0 && b.len() == 0 {
        assert(a =~= b);
    }
}

/// Sequences that agree on their first `n` bytes are ordered as what follows those bytes.
pub proof fn lemma_bytes_lt_after_prefix(a: Seq<u8>, b: Seq<u8>, n: int)
    requires
        0 <= n <= a.len(),
        n <= b.len(),
        a.take(n) == b.take(n),
    ensures
        bytes_lt(a, b) == bytes_lt(a.skip(n), b.skip(n)),
    decreases n,
{
    if n == 0 {
        assert(a.skip(0) =~= a);
        assert(b.skip(0) =~= b);
    } else {
        assert(a[0] == a.take(n)[0]);
        assert(b[0] == b.take(n)[0]);
        assert(a.skip(1).take(n - 1) =~= a.take(n).skip(1));
        assert(b.skip(1).take(n - 1) =~= b.take(n).skip(1));
        lemma_bytes_lt_after_prefix(a.skip(1), b.skip(1), n - 1);
        assert(a.skip(1).skip(n - 1) =~= a.skip(n));
        assert(b.skip(1).skip(n - 1) =~= b.skip(n));
    }
}

/// Different texts have different UTF-8 bytes.
pub proof fn lemma_utf8_injective(a: Seq<char>, b: Seq<char>)
    requires
        encode_utf8(a) == encode_utf8(b),
    ensures
        a == b,
{
    encode_utf8_decode_utf8(a);
    encode_utf8_decode_utf8(b);
}

/// No key comes before itself.
pub proof fn lemma_key_lt_irreflexive(a: Seq<char>)
    ensures
        !key_lt(a, a),
{
    lemma_bytes_lt_irreflexive(encode_utf8(a));
}

pub proof fn lemma_key_lt_transitive(a: Seq<char>, b: Seq<char>, c: Seq<char>)
    requires
        key_lt(a, b),
        key_lt(b, c),
    ensures
        key_lt(a, c),
{
    lemma_bytes_lt_transitive(encode_utf8(a), encode_utf8(b), encode_utf8(c));
}

/// Of two different keys one comes before the other.
pub proof fn lemma_key_lt_total(a: Seq<char>, b: Seq<char>)
    requires
        a != b,
    ensures
        key_lt(a, b) || key_lt(b, a),
{
    if encode_utf8(a) == encode_utf8(b) {
        lemma_utf8_injective(a, b);
    }
    lemma_bytes_lt_total(encode_utf8(a), encode_utf8(b));
}

/// Where one key stands relative to another.
#[derive(Clone, Copy, Debug, PartialEq, Eq, Structural)]
pub enum Side {
    Before,
    Same,
    After,
}

/// Places `a` relative to `b` in the order of keys.
pub fn key_side(a: &str, b: &str) -> (side: Side)
    ensures
        side == Side::Before <==> key_lt(a@, b@),
        side == Side::Same <==> a@ == b@,
        side == Side::After <==> key_lt(b@, a@),
{
    let x = a.as_bytes();
    let y = b.as_bytes();
    let mut i: usize = 0;
    while i < x.len() && i < y.len()
        invariant
            i <= x@.len(),
            i <= y@.len(),
            x@ == encode_utf8(a@),
            y@ == encode_utf8(b@),
            x@.take(i as int) == y@.take(i as int),
        decreases x@.len() - i,
    {
        if x[i] != y[i] {
            proof {
                lemma_bytes_lt_after_prefix(x@, y@, i as int);
                lemma_bytes_lt_after_prefix(y@, x@, i as int);
                assert(x@.skip(i as int)[0] == x@[i as int]);
                assert(y@.skip(i as int)[0] == y@[i as int]);
                lemma_bytes_lt_irreflexive(x@);
            }
            if x[i] < y[i] {
                return Side::Before;
            } else {
                return Side::After;
            }
        }
        assert(x@.take(i + 1) =~= x@.take(i as int).push(x@[i as int]));
        assert(y@.take(i + 1) =~= y@.take(i as int).push(y@[i as int]));
        i = i + 1;
    }
    proof {
        lemma_bytes_lt_after_prefix(x@, y@, i as int);
        lemma_bytes_lt_after_prefix(y@, x@, i as int);
        lemma_bytes_lt_irreflexive(x@);
        if x@.len() == y@.len() {
            assert(x@ =~= x@.take(i as int));
            assert(y@ =~= y@.take(i as int));
            lemma_utf8_injective(a@, b@);
        }
    }
    if x.len() == y.len() {
        Side::Same
    } else if x.len() < y.len() {
        Side::Before
    } else {
        Side::After
    }
}

} // verus!
