//! Bitfields: one bit per piece, the first piece in the most significant bit
//! of the first byte.
//!
//! The bits are kept in a `bitvec::vec::BitVec<Msb0, u8>`. That type is opaque
//! to the verifier, so this module names what such a vector holds and states,
//! without proof, what each `BitVec` method used here does to those contents.
//! Everything else in the module is proved against those statements.
use bitvec::order::Msb0;
use bitvec::vec::BitVec;
use vstd::prelude::*;

verus! {

/// A bit vector in wire order (`Msb0` over `u8`).
///
/// The field is a `BitVec<Msb0, u8>`; the verifier does not look inside it.
#[verifier::external_body]
#[derive(Debug)]
pub struct Bitfield {
    bits: BitVec<Msb0, u8>,
}

/// The bits that a bitfield holds, bit 0 first.
pub uninterp spec fn bitfield_bits(b: Bitfield) -> Seq<bool>;

/// The bytes that back a bitfield: what `BitVec::into_vec` hands out.
pub uninterp spec fn bitfield_bytes(b: Bitfield) -> Seq<u8>;

impl View for Bitfield {
    type V = Seq<bool>;

    open spec fn view(&self) -> Seq<bool> {
        bitfield_bits(*self)
    }
}

/// Bit `k` of a byte, counted from the most significant bit.
pub open spec fn msb0_bit(byte: u8, k: int) -> bool {
    if k == 0 {
        byte >= 128
    } else if k == 1 {
        (byte as int / 64) % 2 == 1
    } else if k == 2 {
        (byte as int / 32) % 2 == 1
    } else if k == 3 {
        (byte as int / 16) % 2 == 1
    } else if k == 4 {
        (byte as int / 8) % 2 == 1
    } else if k == 5 {
        (byte as int / 4) % 2 == 1
    } else if k == 6 {
        (byte as int / 2) % 2 == 1
    } else {
        byte as int % 2 == 1
    }
}

/// The bits of a byte string in wire order: eight per byte, most significant
/// bit first.
pub open spec fn msb0_bits(bytes: Seq<u8>) -> Seq<bool> {
    Seq::new(bytes.len() * 8, |i: int| msb0_bit(bytes[i / 8], i % 8))
}

/// `bits` cut or zero-filled to exactly `n` entries.
pub open spec fn resized(bits: Seq<bool>, n: nat, value: bool) -> Seq<bool> {
    Seq::new(n, |i: int| if i < bits.len() { bits[i] } else { value })
}

/// The most bits a `BitVec` can hold: `usize::MAX >> 3`.
pub open spec fn max_bits() -> int {
    usize::MAX as int / 8
}

/// `BitVec::<Msb0, u8>::from_vec`. Claims that the vector made from `bytes`
/// holds `8 * bytes.len()` bits, bit `i` being bit `7 - i % 8` of byte
/// `i / 8`, and that it is backed by exactly those bytes. The call panics
/// when the bit count exceeds `BitSlice::MAX_BITS`; `requires` leaves that out.
#[verifier::external_body]
fn bitvec_from_vec(bytes: Vec<u8>) -> (b: Bitfield)
    requires
        bytes@.len() * 8 <= max_bits(),
    ensures
        bitfield_bits(b) == msb0_bits(bytes@),
        bitfield_bytes(b) == bytes@,
{
    Bitfield { bits: BitVec::<Msb0, u8>::from_vec(bytes) }
}

/// `BitVec::into_vec`. Claims only that the result is the backing bytes.
#[verifier::external_body]
fn bitvec_into_vec(b: Bitfield) -> (bytes: Vec<u8>)
    ensures
        bytes@ == bitfield_bytes(b),
{
    b.bits.into_vec()
}

/// `BitVec::len`. Claims that it is the number of bits held.
#[verifier::external_body]
fn bitvec_len(b: &Bitfield) -> (n: usize)
    ensures
        n == bitfield_bits(*b).len(),
{
    b.bits.len()
}

/// `Index<usize>` of `BitVec`. Claims that it reads bit `i`; it panics when
/// `i` is out of range, which `requires` leaves out.
#[verifier::external_body]
fn bitvec_index(b: &Bitfield, i: usize) -> (bit: bool)
    requires
        i < bitfield_bits(*b).len(),
    ensures
        bit == bitfield_bits(*b)[i as int],
{
    b.bits[i]
}

/// `BitSlice::set`, reached through `BitVec`. Claims that bit `i` becomes
/// `value` and no other bit changes; it panics when `i` is out of range.
#[verifier::external_body]
fn bitvec_set(b: &mut Bitfield, i: usize, value: bool)
    requires
        i < bitfield_bits(*old(b)).len(),
    ensures
        bitfield_bits(*final(b)) == bitfield_bits(*old(b)).update(i as int, value),
{
    b.bits.set(i, value)
}

/// `BitVec::resize`. Claims that the vector is truncated to `new_len` bits,
/// or extended to `new_len` bits with `value` in each new place. Growing past
/// `BitSlice::MAX_BITS` panics; `requires` leaves that out.
#[verifier::external_body]
fn bitvec_resize(b: &mut Bitfield, new_len: usize, value: bool)
    requires
        new_len <= max_bits(),
    ensures
        bitfield_bits(*final(b)) == resized(bitfield_bits(*old(b)), new_len as nat, value),
{
    b.bits.resize(new_len, value)
}

impl Bitfield {
    /// The bitfield whose bits are those of `bytes`, most significant bit of
    /// the first byte first; `None` when `bytes` holds more bits than a
    /// bit vector can.
    pub fn from_bytes(bytes: Vec<u8>) -> (r: Option<Bitfield>)
        ensures
            r is Some <==> bytes@.len() * 8 <= max_bits(),
            r is Some ==> r->0@ == msb0_bits(bytes@) && bitfield_bytes(r->0) == bytes@,
    {
        if bytes.len() <= usize::MAX / 64 {
            Some(bitvec_from_vec(bytes))
        } else {
            None
        }
    }

    /// The backing bytes.
    pub fn into_bytes(self) -> (bytes: Vec<u8>)
        ensures
            bytes@ == bitfield_bytes(self),
    {
        bitvec_into_vec(self)
    }

    /// Number of bits.
    pub fn len(&self) -> (n: usize)
        ensures
            n == self@.len(),
    {
        bitvec_len(self)
    }

    /// Whether bit `i` is there and set.
    pub fn has(&self, i: usize) -> (r: bool)
        ensures
            r == (i < self@.len() && self@[i as int]),
    {
        i < bitvec_len(self) && bitvec_index(self, i)
    }

    /// Writes bit `i`; a place past the end is left alone and reported.
    pub fn set(&mut self, i: usize, value: bool) -> (done: bool)
        ensures
            done == (i < old(self)@.len()),
            done ==> final(self)@ == old(self)@.update(i as int, value),
            !done ==> final(self)@ == old(self)@,
    {
        if i < bitvec_len(self) {
            bitvec_set(self, i, value);
            true
        } else {
            false
        }
    }

    /// Cuts the bitfield to `n` bits, or fills it up to `n` bits with zeros.
    pub fn fit_to(&mut self, n: usize)
        requires
            n <= max_bits(),
        ensures
            final(self)@ == resized(old(self)@, n as nat, false),
    {
        bitvec_resize(self, n, false);
    }
}

} // verus!
