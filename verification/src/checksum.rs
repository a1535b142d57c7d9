//! The weak rolling checksum and the strong content digest.

use sha2::Digest;
use sha2::Sha256;
use vstd::arithmetic::div_mod::lemma_mul_mod_noop_left;
use vstd::prelude::*;

verus! {

/// Modulus of each of the two accumulators of the weak checksum.
pub const ACCUMULATOR_MODULUS: u32 = 65536;

/// Sum of all bytes of `data`.
pub open spec fn byte_sum(data: Seq<u8>) -> int
    decreases data.len(),
{
    if data.len() == 0 {
        0
    } else {
        byte_sum(data.drop_last()) + data.last() as int
    }
}

/// Sum of the byte sums of all non-empty prefixes of `data`; byte `i` of an
/// input of length `n` is counted `n - i` times.
pub open spec fn prefix_sum(data: Seq<u8>) -> int
    decreases data.len(),
{
    if data.len() == 0 {
        0
    } else {
        prefix_sum(data.drop_last()) + byte_sum(data)
    }
}

/// Packs two 16-bit accumulators into one 32-bit value, `a` in the low half.
pub open spec fn pack(a: int, b: int) -> u32 {
    (a + 65536 * b) as u32
}

/// The weak checksum of `data`: both sums reduced modulo 2^16 and packed.
pub open spec fn weak_checksum(data: Seq<u8>) -> u32 {
    pack(byte_sum(data) % 65536, prefix_sum(data) % 65536)
}

/// The weak checksum after a window of `len` bytes with checksum `old_sum`
/// loses `old_byte` at its front and gains `new_byte` at its end.
pub open spec fn rolled_checksum(old_sum: u32, old_byte: u8, new_byte: u8, len: nat) -> u32 {
    let a = (old_sum % 65536 - old_byte + new_byte) % 65536;
    let b = (old_sum / 65536 - len * old_byte + a) % 65536;
    pack(a, b)
}

/// Packing puts `a` into the low and `b` into the high sixteen bits.
pub proof fn lemma_pack_bits(a: u32, b: u32)
    requires
        a < 65536,
        b < 65536,
    ensures
        pack(a as int, b as int) == (a & 0xffff) | ((b & 0xffff) << 16),
{
    assert(a + 65536 * b == (a & 0xffff) | ((b & 0xffff) << 16)) by (bit_vector)
        requires
            a < 65536,
            b < 65536,
    ;
}

/// Appending a byte adds it to the byte sum.
pub proof fn lemma_byte_sum_push(data: Seq<u8>, byte: u8)
    ensures
        byte_sum(data.push(byte)) == byte_sum(data) + byte,
        prefix_sum(data.push(byte)) == prefix_sum(data) + byte_sum(data) + byte,
{
    assert(data.push(byte).drop_last() =~= data);
}

/// Removing the first byte of a non-empty input takes it out of every prefix.
pub proof fn lemma_sums_drop_first(data: Seq<u8>)
    requires
        data.len() > 0,
    ensures
        byte_sum(data) == data[0] + byte_sum(data.drop_first()),
        prefix_sum(data) == data.len() * data[0] + prefix_sum(data.drop_first()),
    decreases data.len(),
{
    if data.len() == 1 {
        assert(data.drop_last() =~= Seq::<u8>::empty());
        assert(data.drop_first() =~= Seq::<u8>::empty());
        assert(byte_sum(data.drop_last()) == 0);
        assert(prefix_sum(data.drop_last()) == 0);
    } else {
        let front = data.drop_last();
        lemma_sums_drop_first(front);
        assert(front.drop_first() =~= data.drop_first().drop_last());
        assert(front[0] == data[0]);
        assert(data.drop_first().last() == data.last());
        assert(data.len() * data[0] == front.len() * data[0] + data[0]) by (nonlinear_arith)
            requires
                data.len() == front.len() + 1,
        ;
    }
}

/// Sliding a window of `n >= 1` bytes one position to the right and applying
/// the rolling update gives the checksum of the new window computed from
/// scratch.
pub proof fn lemma_rolling_update(data: Seq<u8>, k: int, n: int)
    requires
        0 <= k,
        1 <= n,
        k + n < data.len(),
    ensures
        rolled_checksum(
            weak_checksum(data.subrange(k, k + n)),
            data[k],
            data[k + n],
            n as nat,
        ) == weak_checksum(data.subrange(k + 1, k + n + 1)),
{
    let before = data.subrange(k, k + n);
    let after = data.subrange(k + 1, k + n + 1);
    let middle = before.drop_first();
    lemma_sums_drop_first(before);
    assert(after =~= middle.push(data[k + n]));
    lemma_byte_sum_push(middle, data[k + n]);
    assert(before[0] == data[k]);
    let a0 = byte_sum(before);
    let b0 = prefix_sum(before);
    let t = n * (data[k] as int);
    assert(byte_sum(after) == a0 - data[k] + data[k + n]);
    assert(prefix_sum(after) == b0 - t + byte_sum(after));
    let sum = weak_checksum(before);
    assert(sum == (a0 % 65536) + 65536 * (b0 % 65536));
    assert(sum % 65536 == a0 % 65536);
    assert(sum / 65536 == b0 % 65536);
    let a1 = (a0 % 65536 - data[k] + data[k + n]) % 65536;
    assert(a1 == byte_sum(after) % 65536);
    assert((b0 % 65536 - t + a1) % 65536 == (b0 - t + byte_sum(after)) % 65536);
}

/// Computes the weak checksum of `data`.
pub fn weak_checksum_of(data: &[u8]) -> (sum: u32)
    ensures
        sum == weak_checksum(data@),
{
    let mut a: u32 = 0;
    let mut b: u32 = 0;
    let mut i: usize = 0;
    while i < data.len()
        invariant
            i <= data.len(),
            a == byte_sum(data@.take(i as int)) % 65536,
            b == prefix_sum(data@.take(i as int)) % 65536,
        decreases data.len() - i,
    {
        proof {
            assert(data@.take(i + 1) =~= data@.take(i as int).push(data@[i as int]));
            lemma_byte_sum_push(data@.take(i as int), data@[i as int]);
        }
        a = (a + data[i] as u32) % ACCUMULATOR_MODULUS;
        b = (b + a) % ACCUMULATOR_MODULUS;
        i += 1;
    }
    assert(data@.take(i as int) =~= data@);
    a + ACCUMULATOR_MODULUS * b
}

/// Rolls the checksum `old_sum` of a window of `len` bytes one position on.
pub fn roll_checksum(old_sum: u32, old_byte: u8, new_byte: u8, len: usize) -> (sum: u32)
    ensures
        sum == rolled_checksum(old_sum, old_byte, new_byte, len as nat),
{
    let a_old: u32 = old_sum % ACCUMULATOR_MODULUS;
    let b_old: u32 = old_sum / ACCUMULATOR_MODULUS;
    let a_new: u32 = (a_old + ACCUMULATOR_MODULUS - old_byte as u32 + new_byte as u32)
        % ACCUMULATOR_MODULUS;
    let width: u32 = (len % 65536) as u32;
    assert(width * old_byte <= 65535 * 255) by (nonlinear_arith)
        requires
            width <= 65535,
            old_byte <= 255,
    ;
    let leaving: u32 = (width * old_byte as u32) % ACCUMULATOR_MODULUS;
    let b_new: u32 = (b_old + ACCUMULATOR_MODULUS - leaving + a_new) % ACCUMULATOR_MODULUS;
    proof {
        let t = len * old_byte;
        assert(leaving == t % 65536) by {
            lemma_mul_mod_noop_left(len as int, old_byte as int, 65536);
        }
        assert(a_new == (old_sum % 65536 - old_byte + new_byte) % 65536);
        assert(b_new == (old_sum / 65536 - t + a_new) % 65536);
    }
    a_new + ACCUMULATOR_MODULUS * b_new
}

/// The SHA-256 digest of a byte sequence, as the `sha2` crate computes it.
pub uninterp spec fn sha256(data: Seq<u8>) -> Seq<u8>;

/// Calls `sha2::Sha256::digest` on `data`. The contract names the 32 bytes
/// that come back: they are the SHA-256 digest of exactly the bytes of
/// `data`.
#[verifier::external_body]
pub(crate) fn sha256_digest(data: &[u8]) -> (digest: [u8; 32])
    ensures
        digest@ == sha256(data@),
{
    Sha256::digest(data).into()
}

} // verus!
