//! What the record formats share: the address with its upper byte first,
//! and the checksum that closes a record, which is the two's complement of
//! the sum of the bytes before it, taken modulo 256.

use vstd::prelude::*;

verus! {

/// The 16-bit number whose upper byte is `high` and whose lower byte is `low`.
pub open spec fn be16(high: u8, low: u8) -> u16 {
    (high * 256 + low) as u16
}

/// The sum of `bytes`.
pub open spec fn byte_sum(bytes: Seq<u8>) -> int
    decreases bytes.len(),
{
    if bytes.len() == 0 {
        0
    } else {
        byte_sum(bytes.drop_last()) + bytes.last()
    }
}

/// The two's complement, as a byte, of a sum.
pub open spec fn twos_complement(sum: int) -> u8 {
    ((256 - sum % 256) % 256) as u8
}

/// The checksum of `bytes`.
pub open spec fn checksum_of(bytes: Seq<u8>) -> u8 {
    twos_complement(byte_sum(bytes))
}

/// The checksum of the first `len` bytes of `bytes`.
pub fn checksum(bytes: &[u8], len: usize) -> (sum: u8)
    requires
        len <= bytes@.len(),
    ensures
        sum == checksum_of(bytes@.take(len as int)),
{
    let mut low: u8 = 0;
    let mut i: usize = 0;
    while i < len
        invariant
            i <= len <= bytes@.len(),
            low == byte_sum(bytes@.take(i as int)) % 256,
        decreases len - i,
    {
        assert(bytes@.take(i + 1).drop_last() =~= bytes@.take(i as int));
        low = low.wrapping_add(bytes[i]);
        i += 1;
    }
    let flipped: u8 = !low;
    assert(flipped == 255 - low) by (bit_vector)
        requires
            flipped == !low,
    ;
    flipped.wrapping_add(1)
}

/// Copies `size` bytes out of `bytes`, from `offset` on.
pub(crate) fn copy_run(bytes: &[u8], offset: usize, size: usize) -> (run: Vec<u8>)
    requires
        offset + size <= bytes@.len() <= usize::MAX,
    ensures
        run@ == bytes@.subrange(offset as int, offset + size),
{
    let mut run: Vec<u8> = Vec::with_capacity(size);
    let mut i: usize = 0;
    while i < size
        invariant
            i <= size,
            offset + size <= bytes@.len() <= usize::MAX,
            run@ == bytes@.subrange(offset as int, offset + i),
        decreases size - i,
    {
        run.push(bytes[offset + i]);
        assert(run@ =~= bytes@.subrange(offset as int, offset + i + 1));
        i += 1;
    }
    run
}

/// Replacing one byte changes the sum by the difference of the two bytes.
pub proof fn lemma_byte_sum_update(bytes: Seq<u8>, at: int, value: u8)
    requires
        0 <= at < bytes.len(),
    ensures
        byte_sum(bytes.update(at, value)) == byte_sum(bytes) - bytes[at] + value,
    decreases bytes.len(),
{
    if at == bytes.len() - 1 {
        assert(bytes.update(at, value).drop_last() =~= bytes.drop_last());
    } else {
        assert(bytes.update(at, value).drop_last() =~= bytes.drop_last().update(at, value));
        lemma_byte_sum_update(bytes.drop_last(), at, value);
    }
}

/// Two sums that differ by less than 256 have different complements.
pub proof fn lemma_twos_complement_differs(sum: int, delta: int)
    requires
        -256 < delta < 256,
        delta != 0,
    ensures
        twos_complement(sum + delta) != twos_complement(sum),
{
    let low = sum % 256;
    let moved = (sum + delta) % 256;
    assert(0 <= low < 256 && 0 <= moved < 256);
    assert(moved == low + delta || moved == low + delta - 256 || moved == low + delta + 256);
    assert(moved != low);
    assert(twos_complement(sum) == if low == 0 { 0 } else { 256 - low });
    assert(twos_complement(sum + delta) == if moved == 0 { 0 } else { 256 - moved });
}

/// Replacing one byte by another changes the checksum.
pub proof fn lemma_checksum_update(bytes: Seq<u8>, at: int, value: u8)
    requires
        0 <= at < bytes.len(),
        value != bytes[at],
    ensures
        checksum_of(bytes.update(at, value)) != checksum_of(bytes),
{
    lemma_byte_sum_update(bytes, at, value);
    lemma_twos_complement_differs(byte_sum(bytes), value - bytes[at]);
}

} // verus!
