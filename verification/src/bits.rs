use bitvec::vec::BitVec;
use vstd::prelude::*;

verus! {

/// An ordered sequence of bits: a message, or a trace of one.
///
/// The bits are stored in a `bitvec::vec::BitVec`. The verifier does not look
/// inside it: everything it knows about a value comes from the functions
/// `bits_new`, `bits_len`, `bits_get` and `bits_push` below, whose contracts
/// are taken on trust from the `bitvec` crate.
#[verifier::external_body]
pub struct Bits {
    inner: BitVec,
}

/// The bits that a `Bits` value holds, in order.
pub uninterp spec fn contents(bits: Bits) -> Seq<bool>;

/// The largest number of bits that a bit vector can hold: `bitvec` encodes a
/// length in a machine word of which it keeps three bits for other use.
pub open spec fn max_bits() -> int {
    usize::MAX as int / 8
}

impl View for Bits {
    type V = Seq<bool>;

    open spec fn view(&self) -> Seq<bool> {
        contents(*self)
    }
}

/// `BitVec::new`: a fresh bit vector holds no bits.
#[verifier::external_body]
fn bits_new() -> (bits: Bits)
    ensures
        contents(bits) == Seq::<bool>::empty(),
{
    Bits { inner: BitVec::new() }
}

/// `BitVec::len`: the number of bits held, which never exceeds the largest
/// length that a bit vector can encode.
#[verifier::external_body]
fn bits_len(bits: &Bits) -> (len: usize)
    ensures
        len == contents(*bits).len(),
        len <= max_bits(),
{
    bits.inner.len()
}

/// Indexing a `BitVec` with a `usize`: the bit at that place. The index must
/// be in range, as `bitvec` panics otherwise.
#[verifier::external_body]
fn bits_get(bits: &Bits, index: usize) -> (bit: bool)
    requires
        index < contents(*bits).len(),
    ensures
        bit == contents(*bits)[index as int],
{
    bits.inner[index]
}

/// `BitVec::push`: the bit is appended behind the others. The vector must
/// have room for one more bit, as `bitvec` panics otherwise.
#[verifier::external_body]
fn bits_push(bits: &mut Bits, bit: bool)
    requires
        contents(*old(bits)).len() < max_bits(),
    ensures
        contents(*final(bits)) == contents(*old(bits)).push(bit),
{
    bits.inner.push(bit)
}

impl Bits {
    /// An empty bit sequence.
    pub fn new() -> (bits: Self)
        ensures
            bits@ == Seq::<bool>::empty(),
    {
        bits_new()
    }

    /// The number of bits.
    pub fn len(&self) -> (len: usize)
        ensures
            len == self@.len(),
            len <= max_bits(),
    {
        bits_len(self)
    }

    /// The bit at `index`.
    pub fn get(&self, index: usize) -> (bit: bool)
        requires
            index < self@.len(),
        ensures
            bit == self@[index as int],
    {
        bits_get(self, index)
    }

    /// Appends one bit.
    pub fn push(&mut self, bit: bool)
        requires
            old(self)@.len() < max_bits(),
        ensures
            final(self)@ == old(self)@.push(bit),
    {
        bits_push(self, bit)
    }

    /// The bits of `values`, in the same order.
    pub fn from_bools(values: &Vec<bool>) -> (bits: Self)
        requires
            values@.len() <= max_bits(),
        ensures
            bits@ == values@,
    {
        let mut bits = Bits::new();
        let mut i: usize = 0;
        while i < values.len()
            invariant
                i <= values@.len(),
                values@.len() <= max_bits(),
                bits@ == values@.take(i as int),
            decreases values@.len() - i,
        {
            bits.push(values[i]);
            i += 1;
            assert(values@.take(i as int) == values@.take(i - 1).push(values@[i - 1]));
        }
        assert(values@.take(i as int) == values@);
        bits
    }

    /// The bits as a vector of booleans, in the same order.
    pub fn to_bools(&self) -> (values: Vec<bool>)
        ensures
            values@ == self@,
    {
        let mut values: Vec<bool> = Vec::new();
        let mut i: usize = 0;
        let len = self.len();
        while i < len
            invariant
                i <= len,
                len == self@.len(),
                values@ == self@.take(i as int),
            decreases len - i,
        {
            values.push(self.get(i));
            i += 1;
            assert(self@.take(i as int) == self@.take(i - 1).push(self@[i - 1]));
        }
        assert(self@.take(i as int) == self@);
        values
    }

    /// A copy that holds the same bits.
    pub fn duplicate(&self) -> (copy: Self)
        ensures
            copy@ == self@,
    {
        let mut copy = Bits::new();
        let mut i: usize = 0;
        let len = self.len();
        while i < len
            invariant
                i <= len,
                len == self@.len(),
                len <= max_bits(),
                copy@ == self@.take(i as int),
            decreases len - i,
        {
            copy.push(self.get(i));
            i += 1;
            assert(self@.take(i as int) == self@.take(i - 1).push(self@[i - 1]));
        }
        assert(self@.take(i as int) == self@);
        copy
    }

    /// Whether two bit sequences hold the same bits.
    pub fn same(&self, other: &Bits) -> (equal: bool)
        ensures
            equal == (self@ == other@),
    {
        let len = self.len();
        if other.len() != len {
            return false;
        }
        let mut i: usize = 0;
        while i < len
            invariant
                i <= len,
                len == self@.len(),
                len == other@.len(),
                self@.take(i as int) == other@.take(i as int),
            decreases len - i,
        {
            if self.get(i) != other.get(i) {
                return false;
            }
            i += 1;
            assert(self@.take(i as int) == self@.take(i - 1).push(self@[i - 1]));
            assert(other@.take(i as int) == other@.take(i - 1).push(other@[i - 1]));
        }
        assert(self@.take(i as int) == self@);
        assert(other@.take(i as int) == other@);
        true
    }
}

} // verus!
