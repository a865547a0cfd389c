//! Prefix codes as bit-vectors of the `bitvec` crate (`BitVec<u8, Msb0>`), and the
//! reading of bytes as bits, most significant bit first.
use bitvec::order::Msb0;
use bitvec::vec::BitVec;
use bitvec::view::BitView;
use vstd::prelude::*;

verus! {

/// The most bits a `BitVec` can hold: `BitVec::push` and `BitVec::resize` panic beyond it.
pub open spec fn max_code_bits() -> int {
    usize::MAX as int / 8
}

/// The bits of a byte sequence, most significant bit of each byte first.
pub open spec fn msb0_bits(bytes: Seq<u8>) -> Seq<bool> {
    Seq::new((bytes.len() * 8) as nat, |i: int| (bytes[i / 8] >> ((7 - i % 8) as u8)) & 1u8 == 1u8)
}

/// A sequence of bits kept in a `BitVec<u8, Msb0>`.
#[verifier::external_body]
#[derive(Debug, PartialEq, Eq)]
pub struct Code {
    bits: BitVec<u8, Msb0>,
}

/// The bits of a code, first to last.
pub uninterp spec fn code_bits(c: Code) -> Seq<bool>;

/// Calls `BitVec::new`: the new code holds no bits.
#[verifier::external_body]
pub(crate) fn code_new() -> (c: Code)
    ensures
        code_bits(c).len() == 0,
{
    Code { bits: BitVec::new() }
}

/// Calls `BitVec::clone`, which copies the bits.
#[verifier::external_body]
pub(crate) fn code_clone(c: &Code) -> (d: Code)
    ensures
        code_bits(d) == code_bits(*c),
{
    Code { bits: c.bits.clone() }
}

/// Calls `BitVec::push`, which appends one bit; it panics past `max_code_bits()`.
#[verifier::external_body]
pub(crate) fn code_push(c: &mut Code, bit: bool)
    requires
        code_bits(*old(c)).len() + 1 <= max_code_bits(),
    ensures
        code_bits(*final(c)) == code_bits(*old(c)).push(bit),
{
    c.bits.push(bit)
}

/// Calls `BitVec::extend_from_bitslice`, which appends the bits of `other`; it panics
/// past `max_code_bits()`.
#[verifier::external_body]
pub(crate) fn code_extend(c: &mut Code, other: &Code)
    requires
        code_bits(*old(c)).len() + code_bits(*other).len() <= max_code_bits(),
    ensures
        code_bits(*final(c)) == code_bits(*old(c)) + code_bits(*other),
{
    c.bits.extend_from_bitslice(&other.bits)
}

/// Calls `len` on the bits of a `BitVec`: the number of bits held.
#[verifier::external_body]
pub(crate) fn code_len(c: &Code) -> (n: usize)
    ensures
        n == code_bits(*c).len(),
{
    c.bits.len()
}

/// Calls `BitVec::into_vec`: the bytes that hold the bits, most significant bit first.
/// As its documentation says, the bits of the last byte past the code's end (at most
/// seven) have no specified value; nothing is said of them.
#[verifier::external_body]
pub(crate) fn code_into_bytes(c: Code) -> (bytes: Vec<u8>)
    ensures
        bytes@.len() == (code_bits(c).len() + 7) / 8,
        msb0_bits(bytes@).take(code_bits(c).len() as int) == code_bits(c),
{
    c.bits.into_vec()
}

/// Calls `BitSlice::iter` on the bits of `BitVec`, handing each bit out as a `bool`.
#[verifier::external_body]
pub(crate) fn code_to_bools(c: &Code) -> (v: Vec<bool>)
    ensures
        v@ == code_bits(*c),
{
    c.bits.iter().by_vals().collect()
}

/// Calls `BitView::view_bits::<Msb0>` on the bytes and hands each bit out as a `bool`:
/// bitvec's `Msb0` order reads each byte from its most significant bit. `view_bits`
/// panics on a slice of `BitSlice::MAX_ELTS` bytes or more, that is of more bytes than
/// `max_code_bits()` bits fill; such slices are kept out.
#[verifier::external_body]
pub(crate) fn bits_of_bytes(bytes: &[u8]) -> (v: Vec<bool>)
    requires
        bytes@.len() <= (max_code_bits() + 7) / 8,
    ensures
        v@ == msb0_bits(bytes@),
{
    bytes.view_bits::<Msb0>().iter().by_vals().collect()
}

impl Code {
    /// The code holding the given bits, in order.
    pub fn from_bools(bits: &[bool]) -> (c: Code)
        requires
            bits@.len() <= max_code_bits(),
        ensures
            code_bits(c) == bits@,
    {
        let mut c = code_new();
        let n = bits.len();
        let mut i: usize = 0;
        while i < n
            invariant
                n == bits@.len(),
                n <= max_code_bits(),
                i <= n,
                code_bits(c) == bits@.take(i as int),
            decreases n - i,
        {
            code_push(&mut c, bits[i]);
            proof {
                assert(bits@.take(i + 1) =~= bits@.take(i as int).push(bits@[i as int]));
            }
            i = i + 1;
        }
        proof {
            assert(bits@.take(n as int) =~= bits@);
        }
        c
    }

    /// The bits of the code, first to last.
    pub fn to_bools(&self) -> (v: Vec<bool>)
        ensures
            v@ == code_bits(*self),
    {
        code_to_bools(self)
    }
}

} // verus!
