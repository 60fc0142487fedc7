//! Unsigned integers stored in the byte order of the running machine.

use vstd::endian::{endianness, Endian};
use vstd::prelude::*;

verus! {

/// The number whose base-256 digits are `b`, least significant digit first.
pub open spec fn le_value(b: Seq<u8>) -> nat
    decreases b.len(),
{
    if b.len() == 0 {
        0
    } else {
        (b[0] + 256 * le_value(b.skip(1))) as nat
    }
}

/// The `len` low base-256 digits of `x`, least significant digit first.
pub open spec fn le_digits(x: nat, len: nat) -> Seq<u8>
    decreases len,
{
    if len == 0 {
        Seq::empty()
    } else {
        seq![(x % 256) as u8] + le_digits(x / 256, (len - 1) as nat)
    }
}

/// The number that the bytes `b` stand for on the running machine.
pub open spec fn ne_value(b: Seq<u8>) -> nat {
    match endianness() {
        Endian::Little => le_value(b),
        Endian::Big => le_value(b.reverse()),
    }
}

/// The `len` bytes in which the running machine stores `x`.
pub open spec fn ne_bytes(x: nat, len: nat) -> Seq<u8> {
    match endianness() {
        Endian::Little => le_digits(x, len),
        Endian::Big => le_digits(x, len).reverse(),
    }
}

/// The number stored in the `width` bytes of `s` that start at `at`.
pub open spec fn field(s: Seq<u8>, at: int, width: int) -> nat {
    ne_value(s.subrange(at, at + width))
}

/// The `u16` stored at `at`.
pub open spec fn u16_at(s: Seq<u8>, at: int) -> u16 {
    field(s, at, 2) as u16
}

/// The `u32` stored at `at`.
pub open spec fn u32_at(s: Seq<u8>, at: int) -> u32 {
    field(s, at, 4) as u32
}

/// The `u64` stored at `at`.
pub open spec fn u64_at(s: Seq<u8>, at: int) -> u64 {
    field(s, at, 8) as u64
}

/// `std`'s `u16::from_ne_bytes`: the bytes are read in the machine's own order.
#[verifier::external_body]
fn u16_from_ne_bytes(bytes: [u8; 2]) -> (r: u16)
    ensures
        r as nat == ne_value(bytes@),
{
    u16::from_ne_bytes(bytes)
}

/// `std`'s `u32::from_ne_bytes`: the bytes are read in the machine's own order.
#[verifier::external_body]
fn u32_from_ne_bytes(bytes: [u8; 4]) -> (r: u32)
    ensures
        r as nat == ne_value(bytes@),
{
    u32::from_ne_bytes(bytes)
}

/// `std`'s `u64::from_ne_bytes`: the bytes are read in the machine's own order.
#[verifier::external_body]
fn u64_from_ne_bytes(bytes: [u8; 8]) -> (r: u64)
    ensures
        r as nat == ne_value(bytes@),
{
    u64::from_ne_bytes(bytes)
}

/// The `u16` stored at `at`.
pub(crate) fn get_u16(bytes: &[u8], at: usize) -> (r: u16)
    requires
        at + 2 <= bytes@.len(),
    ensures
        r == u16_at(bytes@, at as int),
{
    let raw: [u8; 2] = [
        bytes[at],
        bytes[at + 1],
    ];
    assert(raw@ =~= bytes@.subrange(at as int, at + 2));
    u16_from_ne_bytes(raw)
}

/// The `u16` stored at `offset`, if the bytes reach that far.
pub fn read_u16(bytes: &[u8], offset: usize) -> (r: Option<u16>)
    ensures
        r == (if offset + 2 <= bytes@.len() {
            Some(u16_at(bytes@, offset as int))
        } else {
            None
        }),
{
    if bytes.len() < 2 || offset > bytes.len() - 2 {
        None
    } else {
        Some(get_u16(bytes, offset))
    }
}

/// The `u32` stored at `at`.
pub(crate) fn get_u32(bytes: &[u8], at: usize) -> (r: u32)
    requires
        at + 4 <= bytes@.len(),
    ensures
        r == u32_at(bytes@, at as int),
{
    let raw: [u8; 4] = [
        bytes[at],
        bytes[at + 1],
        bytes[at + 2],
        bytes[at + 3],
    ];
    assert(raw@ =~= bytes@.subrange(at as int, at + 4));
    u32_from_ne_bytes(raw)
}

/// The `u32` stored at `offset`, if the bytes reach that far.
pub fn read_u32(bytes: &[u8], offset: usize) -> (r: Option<u32>)
    ensures
        r == (if offset + 4 <= bytes@.len() {
            Some(u32_at(bytes@, offset as int))
        } else {
            None
        }),
{
    if bytes.len() < 4 || offset > bytes.len() - 4 {
        None
    } else {
        Some(get_u32(bytes, offset))
    }
}

/// The `u64` stored at `at`.
pub(crate) fn get_u64(bytes: &[u8], at: usize) -> (r: u64)
    requires
        at + 8 <= bytes@.len(),
    ensures
        r == u64_at(bytes@, at as int),
{
    let raw: [u8; 8] = [
        bytes[at],
        bytes[at + 1],
        bytes[at + 2],
        bytes[at + 3],
        bytes[at + 4],
        bytes[at + 5],
        bytes[at + 6],
        bytes[at + 7],
    ];
    assert(raw@ =~= bytes@.subrange(at as int, at + 8));
    u64_from_ne_bytes(raw)
}

/// The `u64` stored at `offset`, if the bytes reach that far.
pub fn read_u64(bytes: &[u8], offset: usize) -> (r: Option<u64>)
    ensures
        r == (if offset + 8 <= bytes@.len() {
            Some(u64_at(bytes@, offset as int))
        } else {
            None
        }),
{
    if bytes.len() < 8 || offset > bytes.len() - 8 {
        None
    } else {
        Some(get_u64(bytes, offset))
    }
}

/// How many numbers `len` bytes can tell apart.
pub open spec fn byte_range(len: nat) -> nat
    decreases len,
{
    if len == 0 {
        1
    } else {
        256 * byte_range((len - 1) as nat)
    }
}

proof fn lemma_digits_read_back(x: nat, len: nat)
    requires
        x < byte_range(len),
    ensures
        le_digits(x, len).len() == len,
        le_value(le_digits(x, len)) == x,
    decreases len,
{
    if len > 0 {
        lemma_digits_read_back(x / 256, (len - 1) as nat);
        assert(le_digits(x, len).skip(1) =~= le_digits(x / 256, (len - 1) as nat));
    }
}

/// A number that fits in `len` bytes is read back from the `len` bytes in which
/// the machine stores it.
pub proof fn law_number_reads_back(x: nat, len: nat)
    requires
        x < byte_range(len),
    ensures
        ne_bytes(x, len).len() == len,
        ne_value(ne_bytes(x, len)) == x,
{
    lemma_digits_read_back(x, len);
    assert(le_digits(x, len).reverse().reverse() =~= le_digits(x, len));
}

/// A `u16` stored anywhere is read back.
pub proof fn law_u16_reads_back(s: Seq<u8>, at: int, x: u16)
    requires
        s.subrange(at, at + 2) == ne_bytes(x as nat, 2),
    ensures
        u16_at(s, at) == x,
{
    reveal_with_fuel(byte_range, 3);
    law_number_reads_back(x as nat, 2);
}

/// A `u32` stored anywhere is read back.
pub proof fn law_u32_reads_back(s: Seq<u8>, at: int, x: u32)
    requires
        s.subrange(at, at + 4) == ne_bytes(x as nat, 4),
    ensures
        u32_at(s, at) == x,
{
    reveal_with_fuel(byte_range, 5);
    law_number_reads_back(x as nat, 4);
}

/// A `u64` stored anywhere is read back.
pub proof fn law_u64_reads_back(s: Seq<u8>, at: int, x: u64)
    requires
        s.subrange(at, at + 8) == ne_bytes(x as nat, 8),
    ensures
        u64_at(s, at) == x,
{
    reveal_with_fuel(byte_range, 9);
    law_number_reads_back(x as nat, 8);
}

/// The number of bytes in which a number of a Rust type is stored.
pub proof fn lemma_stored_len(x: u64, y: u32, z: u16)
    ensures
        ne_bytes(x as nat, 8).len() == 8,
        ne_bytes(y as nat, 4).len() == 4,
        ne_bytes(z as nat, 2).len() == 2,
{
    reveal_with_fuel(byte_range, 9);
    law_number_reads_back(x as nat, 8);
    law_number_reads_back(y as nat, 4);
    law_number_reads_back(z as nat, 2);
}

/// Bytes stand for the number that has them as its digits to the base 256: the
/// first is the least significant on a little-endian machine, and the last on a
/// big-endian one.
pub proof fn law_bytes_are_digits_to_the_base_256(s: Seq<u8>, at: int)
    requires
        0 <= at <= s.len() - 8,
    ensures
        match endianness() {
            Endian::Little => {
                &&& u16_at(s, at) == s[at] + 0x100 * s[at + 1]
                &&& u32_at(s, at) == s[at] + 0x100 * s[at + 1] + 0x1_0000 * s[at + 2] + 0x100_0000
                    * s[at + 3]
                &&& u64_at(s, at) == s[at] + 0x100 * s[at + 1] + 0x1_0000 * s[at + 2] + 0x100_0000
                    * s[at + 3] + 0x1_0000_0000 * s[at + 4] + 0x100_0000_0000 * s[at + 5]
                    + 0x1_0000_0000_0000 * s[at + 6] + 0x100_0000_0000_0000 * s[at + 7]
            },
            Endian::Big => {
                &&& u16_at(s, at) == s[at + 1] + 0x100 * s[at]
                &&& u32_at(s, at) == s[at + 3] + 0x100 * s[at + 2] + 0x1_0000 * s[at + 1]
                    + 0x100_0000 * s[at]
                &&& u64_at(s, at) == s[at + 7] + 0x100 * s[at + 6] + 0x1_0000 * s[at + 5]
                    + 0x100_0000 * s[at + 4] + 0x1_0000_0000 * s[at + 3] + 0x100_0000_0000 * s[at
                    + 2] + 0x1_0000_0000_0000 * s[at + 1] + 0x100_0000_0000_0000 * s[at]
            },
        },
{
    let (a, b, c) = (s.subrange(at, at + 2), s.subrange(at, at + 4), s.subrange(at, at + 8));
    match endianness() {
        Endian::Little => {
            lemma_value_of_two(a);
            lemma_value_of_four(b);
            lemma_value_of_eight(c);
        },
        Endian::Big => {
            lemma_value_of_two(a.reverse());
            lemma_value_of_four(b.reverse());
            lemma_value_of_eight(c.reverse());
        },
    }
}

proof fn lemma_value_of_two(b: Seq<u8>)
    requires
        b.len() == 2,
    ensures
        le_value(b) == b[0] + 0x100 * b[1],
{
    reveal_with_fuel(le_value, 3);
    assert(b.skip(1)[0] == b[1]);
    assert(b.skip(1).skip(1).len() == 0);
}

proof fn lemma_value_of_four(b: Seq<u8>)
    requires
        b.len() == 4,
    ensures
        le_value(b) == b[0] + 0x100 * b[1] + 0x1_0000 * b[2] + 0x100_0000 * b[3],
{
    let rest = b.skip(2);
    lemma_value_of_two(rest);
    assert(b.skip(1).skip(1) =~= rest);
    assert(rest[0] == b[2] && rest[1] == b[3]);
    assert(b.skip(1)[0] == b[1]);
    assert(le_value(b) == b[0] + 256 * le_value(b.skip(1)));
    assert(le_value(b.skip(1)) == b[1] + 256 * le_value(rest));
}

proof fn lemma_value_of_eight(b: Seq<u8>)
    requires
        b.len() == 8,
    ensures
        le_value(b) == b[0] + 0x100 * b[1] + 0x1_0000 * b[2] + 0x100_0000 * b[3] + 0x1_0000_0000
            * b[4] + 0x100_0000_0000 * b[5] + 0x1_0000_0000_0000 * b[6] + 0x100_0000_0000_0000
            * b[7],
{
    let rest = b.skip(4);
    let (b1, b2, b3) = (b.skip(1), b.skip(2), b.skip(3));
    lemma_value_of_four(rest);
    assert(b1.skip(1) =~= b2 && b2.skip(1) =~= b3 && b3.skip(1) =~= rest);
    assert(rest[0] == b[4] && rest[1] == b[5] && rest[2] == b[6] && rest[3] == b[7]);
    assert(b1[0] == b[1] && b2[0] == b[2] && b3[0] == b[3]);
    assert(le_value(b) == b[0] + 256 * le_value(b1));
    assert(le_value(b1) == b[1] + 256 * le_value(b2));
    assert(le_value(b2) == b[2] + 256 * le_value(b3));
    assert(le_value(b3) == b[3] + 256 * le_value(rest));
}

} // verus!
