use vstd::arithmetic::div_mod::{lemma_fundamental_div_mod, lemma_mod_breakdown, lemma_small_mod};
use vstd::prelude::*;

verus! {

/// Width in bytes of the length header that starts every frame. It is fixed,
/// not the host's word size, so that hosts of different word sizes agree.
pub const HEADER_LEN: usize = 8;

/// `256` raised to the power `k`.
pub open spec fn pow256(k: nat) -> nat
    decreases k,
{
    if k == 0 {
        1
    } else {
        256 * pow256((k - 1) as nat)
    }
}

/// The unsigned integer that the bytes `s` encode, most significant byte first.
pub open spec fn be_value(s: Seq<u8>) -> nat
    decreases s.len(),
{
    if s.len() == 0 {
        0
    } else {
        be_value(s.drop_last()) * 256 + s.last() as nat
    }
}

/// The `k` low-order bytes of `n`, most significant byte first.
pub open spec fn be_bytes(k: nat, n: nat) -> Seq<u8>
    decreases k,
{
    if k == 0 {
        Seq::empty()
    } else {
        be_bytes((k - 1) as nat, n / 256).push((n % 256) as u8)
    }
}

/// The length header for a payload of `n` bytes.
pub open spec fn header_bytes(n: nat) -> Seq<u8> {
    be_bytes(HEADER_LEN as nat, n)
}

fn encode_be(k: usize, n: u64) -> (r: Vec<u8>)
    ensures
        r@ == be_bytes(k as nat, n as nat),
    decreases k,
{
    if k == 0 {
        Vec::new()
    } else {
        let mut r = encode_be(k - 1, n / 256);
        r.push((n % 256) as u8);
        r
    }
}

/// Encodes `n` as a length header.
pub fn encode_len(n: u64) -> (r: Vec<u8>)
    ensures
        r@ == header_bytes(n as nat),
{
    encode_be(HEADER_LEN, n)
}

proof fn lemma_pow256_positive(k: nat)
    ensures
        pow256(k) > 0,
    decreases k,
{
    if k > 0 {
        lemma_pow256_positive((k - 1) as nat);
    }
}

proof fn lemma_pow256_bounds(k: nat)
    requires
        k <= 8,
    ensures
        0 < pow256(k) <= pow256(8),
        pow256(8) == 0x1_0000_0000_0000_0000,
    decreases 8 - k,
{
    reveal_with_fuel(pow256, 9);
    lemma_pow256_positive(k);
    if k < 8 {
        lemma_pow256_bounds(k + 1);
    }
}

proof fn lemma_be_value_bound(s: Seq<u8>)
    ensures
        be_value(s) < pow256(s.len()),
    decreases s.len(),
{
    if s.len() > 0 {
        lemma_be_value_bound(s.drop_last());
    }
}

/// Reading back `k` encoded bytes of `n` gives `n` modulo `256^k`.
proof fn lemma_be_bytes_value(k: nat, n: nat)
    ensures
        be_bytes(k, n).len() == k,
        be_value(be_bytes(k, n)) == n % pow256(k),
    decreases k,
{
    if k > 0 {
        let p = pow256((k - 1) as nat);
        lemma_be_bytes_value((k - 1) as nat, n / 256);
        lemma_pow256_positive((k - 1) as nat);
        assert(be_bytes(k, n).drop_last() == be_bytes((k - 1) as nat, n / 256));
        lemma_mod_breakdown(n as int, 256, p as int);
        assert(n % (256 * p) == 256 * ((n / 256) % p) + n % 256);
    } else {
        assert(n % 1 == 0) by {
            lemma_fundamental_div_mod(n as int, 1);
        }
    }
}

/// A length header decodes to the length it was made from.
pub proof fn lemma_header_round_trip(n: u64)
    ensures
        header_bytes(n as nat).len() == HEADER_LEN,
        be_value(header_bytes(n as nat)) == n,
{
    lemma_be_bytes_value(HEADER_LEN as nat, n as nat);
    lemma_pow256_bounds(8);
    lemma_small_mod(n as nat, pow256(8));
}

/// Decodes up to eight bytes, most significant first.
fn decode_be(s: &[u8]) -> (r: u64)
    requires
        s@.len() <= 8,
    ensures
        r == be_value(s@),
{
    let mut acc: u64 = 0;
    let mut i: usize = 0;
    while i < s.len()
        invariant
            s@.len() <= 8,
            i <= s@.len(),
            acc == be_value(s@.take(i as int)),
        decreases s@.len() - i,
    {
        proof {
            lemma_be_value_bound(s@.take(i as int + 1));
            lemma_pow256_bounds(i as nat + 1);
            assert(s@.take(i as int + 1).drop_last() == s@.take(i as int));
        }
        acc = acc * 256 + s[i] as u64;
        i = i + 1;
    }
    assert(s@.take(i as int) == s@);
    acc
}

/// Decodes a length header.
pub fn decode_len(header: &[u8]) -> (r: u64)
    requires
        header@.len() == HEADER_LEN,
    ensures
        r == be_value(header@),
{
    decode_be(header)
}

} // verus!
