//! CRC32C checksums.
use vstd::prelude::*;

verus! {

/// A remainder after `n` more bits: the lowest bit falls out, and takes the Castagnoli
/// polynomial, its bits reversed, off what is left.
pub open spec fn shifted(crc: u32, n: nat) -> u32
    decreases n,
{
    if n == 0 {
        crc
    } else if crc & 1 == 1 {
        shifted((crc >> 1) ^ 0x82F6_3B78, (n - 1) as nat)
    } else {
        shifted(crc >> 1, (n - 1) as nat)
    }
}

/// A remainder after some more bytes, each of them its lowest bit first.
pub open spec fn remainder(crc: u32, data: Seq<u8>) -> u32
    decreases data.len(),
{
    if data.len() == 0 {
        crc
    } else {
        remainder(shifted(crc ^ data[0] as u32, 8), data.drop_first())
    }
}

/// The CRC32C (Castagnoli) checksum of `data`.
#[verifier::opaque]
pub open spec fn crc32c_of(data: Seq<u8>) -> u32 {
    !remainder(0xFFFF_FFFF, data)
}

/// Remainders that differ still differ after some more bits: each bit can be taken back.
proof fn lemma_shifted_apart(a: u32, b: u32, n: nat)
    requires
        a != b,
    ensures
        shifted(a, n) != shifted(b, n),
    decreases n,
{
    if n > 0 {
        let x: u32 = if a & 1 == 1 {
            (a >> 1) ^ 0x82F6_3B78
        } else {
            a >> 1
        };
        let y: u32 = if b & 1 == 1 {
            (b >> 1) ^ 0x82F6_3B78
        } else {
            b >> 1
        };
        assert(a != b ==> (if a & 1 == 1 {
            (a >> 1) ^ 0x82F6_3B78
        } else {
            a >> 1
        }) != (if b & 1 == 1 {
            (b >> 1) ^ 0x82F6_3B78
        } else {
            b >> 1
        })) by (bit_vector);
        lemma_shifted_apart(x, y, (n - 1) as nat);
    }
}

/// Remainders that differ still differ after the same bytes.
proof fn lemma_remainder_apart(a: u32, b: u32, data: Seq<u8>)
    requires
        a != b,
    ensures
        remainder(a, data) != remainder(b, data),
    decreases data.len(),
{
    if data.len() > 0 {
        let d = data[0] as u32;
        assert(a != b ==> a ^ d != b ^ d) by (bit_vector);
        lemma_shifted_apart(a ^ d, b ^ d, 8);
        lemma_remainder_apart(shifted(a ^ d, 8), shifted(b ^ d, 8), data.drop_first());
    }
}

/// Bytes that differ in one place leave different remainders.
proof fn lemma_remainder_of_change(crc: u32, data: Seq<u8>, i: int, byte: u8)
    requires
        0 <= i < data.len(),
        byte != data[i],
    ensures
        remainder(crc, data.update(i, byte)) != remainder(crc, data),
    decreases data.len(),
{
    let changed = data.update(i, byte);
    if i == 0 {
        let d = data[0];
        assert(byte != d ==> crc ^ (byte as u32) != crc ^ (d as u32)) by (bit_vector);
        lemma_shifted_apart(crc ^ byte as u32, crc ^ d as u32, 8);
        assert(changed.drop_first() =~= data.drop_first());
        lemma_remainder_apart(
            shifted(crc ^ byte as u32, 8),
            shifted(crc ^ d as u32, 8),
            data.drop_first(),
        );
    } else {
        assert(changed.drop_first() =~= data.drop_first().update(i - 1, byte));
        lemma_remainder_of_change(
            shifted(crc ^ data[0] as u32, 8),
            data.drop_first(),
            i - 1,
            byte,
        );
    }
}

/// A change of one byte, whichever of its bits it flips and however long the data is,
/// changes the checksum.
pub proof fn law_one_changed_byte_changes_the_checksum(data: Seq<u8>, i: int, byte: u8)
    requires
        0 <= i < data.len(),
        byte != data[i],
    ensures
        crc32c_of(data.update(i, byte)) != crc32c_of(data),
{
    reveal(crc32c_of);
    lemma_remainder_of_change(0xFFFF_FFFF, data, i, byte);
    let (x, y) = (
        remainder(0xFFFF_FFFF, data.update(i, byte)),
        remainder(0xFFFF_FFFF, data),
    );
    assert(x != y ==> !x != !y) by (bit_vector);
}

/// Calls `crc32c::crc32c`: the CRC-32-Castagnoli checksum of the bytes. The crate's
/// hardware and software paths compute the same polynomial division, and neither panics
/// on any input.
#[verifier::external_body]
pub(crate) fn checksum(data: &[u8]) -> (crc: u32)
    ensures
        crc == crc32c_of(data@),
{
    crc32c::crc32c(data)
}

} // verus!
