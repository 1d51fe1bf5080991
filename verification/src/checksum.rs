//! FNV-1a, a 64-bit non-cryptographic checksum over a byte sequence.
//!
//! The checksum detects accidental corruption; it gives no protection
//! against a deliberate forgery.

use vstd::prelude::*;

verus! {

/// The value every accumulator starts from.
pub const OFFSET_BASIS: u64 = 14_695_981_039_346_656_037;

/// The multiplier applied after each byte is mixed in.
pub const FNV_PRIME: u64 = 1_099_511_628_211;

/// The accumulator after one more byte: the byte is XORed into the low bits
/// and the result multiplied by the prime, modulo 2^64.
pub open spec fn fnv_step(acc: u64, byte: u8) -> u64 {
    (acc ^ (byte as u64)).wrapping_mul(FNV_PRIME)
}

/// The accumulator after absorbing `bytes` in order, starting from `acc`.
pub open spec fn fnv_fold(acc: u64, bytes: Seq<u8>) -> u64
    decreases bytes.len(),
{
    if bytes.len() == 0 {
        acc
    } else {
        fnv_step(fnv_fold(acc, bytes.drop_last()), bytes.last())
    }
}

/// The FNV-1a checksum of `bytes`.
pub open spec fn fnv1a(bytes: Seq<u8>) -> u64 {
    fnv_fold(OFFSET_BASIS, bytes)
}

/// Absorbing `first` and then `second` is absorbing their concatenation.
pub proof fn lemma_fold_concat(acc: u64, first: Seq<u8>, second: Seq<u8>)
    ensures
        fnv_fold(acc, first + second) == fnv_fold(fnv_fold(acc, first), second),
    decreases second.len(),
{
    if second.len() > 0 {
        assert((first + second).drop_last() =~= first + second.drop_last());
        lemma_fold_concat(acc, first, second.drop_last());
    }
}

/// Absorbing a single byte is one step.
pub proof fn lemma_fold_single(acc: u64, byte: u8)
    ensures
        fnv_fold(acc, seq![byte]) == fnv_step(acc, byte),
{
    reveal_with_fuel(fnv_fold, 2);
}

/// Multiplying by the prime modulo 2^64 loses nothing: the prime is odd, so
/// there is a number that undoes it, and products that agree modulo 2^64
/// come from factors that do.
proof fn lemma_multiply_injective(left: u64, right: u64)
    requires
        left.wrapping_mul(FNV_PRIME) == right.wrapping_mul(FNV_PRIME),
    ensures
        left == right,
{
    let modulus = 0x1_0000_0000_0000_0000int;
    let prime = FNV_PRIME as int;
    let inverse = 14_886_173_955_864_302_971int;
    let carry = 887_285_111_055int;
    assert(prime * inverse == 1 + carry * modulus);
    let left_wraps = (left * prime) / modulus;
    let right_wraps = (right * prime) / modulus;
    assert((left - right) * prime == (left_wraps - right_wraps) * modulus);
    let multiple = (left_wraps - right_wraps) * inverse - (left - right) * carry;
    assert(left - right == multiple * modulus);
    assert(multiple == 0);
}

/// One step loses nothing of the accumulator: accumulators that differ
/// still differ after absorbing the same byte.
pub proof fn lemma_step_injective(left: u64, right: u64, byte: u8)
    requires
        fnv_step(left, byte) == fnv_step(right, byte),
    ensures
        left == right,
{
    let mixed = byte as u64;
    lemma_multiply_injective(left ^ mixed, right ^ mixed);
    assert(left ^ mixed == right ^ mixed ==> left == right) by (bit_vector);
}

/// One step loses nothing of the byte: an accumulator that absorbs two
/// different bytes ends in two different values.
pub proof fn lemma_step_tells_bytes_apart(acc: u64, one: u8, other: u8)
    requires
        one != other,
    ensures
        fnv_step(acc, one) != fnv_step(acc, other),
{
    let one_mixed = one as u64;
    let other_mixed = other as u64;
    if fnv_step(acc, one) == fnv_step(acc, other) {
        lemma_multiply_injective(acc ^ one_mixed, acc ^ other_mixed);
        assert(acc ^ one_mixed == acc ^ other_mixed ==> one_mixed == other_mixed) by (bit_vector);
    }
}

/// Accumulators that differ still differ after absorbing the same bytes.
pub proof fn lemma_fold_injective(left: u64, right: u64, bytes: Seq<u8>)
    requires
        left != right,
    ensures
        fnv_fold(left, bytes) != fnv_fold(right, bytes),
    decreases bytes.len(),
{
    if bytes.len() > 0 {
        lemma_fold_injective(left, right, bytes.drop_last());
        if fnv_fold(left, bytes) == fnv_fold(right, bytes) {
            lemma_step_injective(
                fnv_fold(left, bytes.drop_last()),
                fnv_fold(right, bytes.drop_last()),
                bytes.last(),
            );
        }
    }
}

/// Changing one byte always changes the checksum.
pub proof fn lemma_changed_byte_changes_checksum(acc: u64, bytes: Seq<u8>, index: int, byte: u8)
    requires
        0 <= index < bytes.len(),
        bytes[index] != byte,
    ensures
        fnv_fold(acc, bytes.update(index, byte)) != fnv_fold(acc, bytes),
{
    let before = bytes.take(index);
    let after = bytes.skip(index + 1);
    let changed = bytes.update(index, byte);
    assert(bytes =~= before + seq![bytes[index]] + after);
    assert(changed =~= before + seq![byte] + after);
    let reached = fnv_fold(acc, before);
    lemma_fold_concat(acc, before, seq![bytes[index]]);
    lemma_fold_concat(acc, before, seq![byte]);
    lemma_fold_single(reached, bytes[index]);
    lemma_fold_single(reached, byte);
    lemma_fold_concat(acc, before + seq![bytes[index]], after);
    lemma_fold_concat(acc, before + seq![byte], after);
    lemma_step_tells_bytes_apart(reached, bytes[index], byte);
    lemma_fold_injective(fnv_step(reached, bytes[index]), fnv_step(reached, byte), after);
}

/// A streaming FNV-1a accumulator. It is used once: `finish` consumes it.
#[derive(Debug)]
pub struct Fnv1A {
    hash: u64,
}

impl Fnv1A {
    /// The current accumulator value.
    pub closed spec fn value(&self) -> u64 {
        self.hash
    }

    /// A fresh accumulator, which has absorbed nothing.
    pub fn new() -> (fresh: Self)
        ensures
            fresh.value() == OFFSET_BASIS,
    {
        Self { hash: OFFSET_BASIS }
    }

    /// Absorbs one byte.
    pub fn update(&mut self, data: u8)
        ensures
            final(self).value() == fnv_step(old(self).value(), data),
    {
        self.hash = (self.hash ^ (data as u64)).wrapping_mul(FNV_PRIME);
    }

    /// Absorbs every byte of `data` in order, as repeated calls of `update`
    /// would.
    pub fn update_each(&mut self, data: &[u8])
        ensures
            final(self).value() == fnv_fold(old(self).value(), data@),
    {
        let mut i: usize = 0;
        while i < data.len()
            invariant
                i <= data@.len(),
                self.value() == fnv_fold(old(self).value(), data@.take(i as int)),
            decreases data@.len() - i,
        {
            assert(data@.take(i + 1).drop_last() =~= data@.take(i as int));
            self.update(data[i]);
            i += 1;
        }
        assert(data@.take(i as int) =~= data@);
    }

    /// The checksum of everything absorbed.
    pub fn finish(self) -> (digest: u64)
        ensures
            digest == self.value(),
    {
        self.hash
    }
}

} // verus!
