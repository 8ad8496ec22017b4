//! The per-block flags of one file, kept in a bit vector of the `bitvec`
//! crate.

use vstd::prelude::*;
use bitvec::order::Msb0;
use bitvec::vec::BitVec;

verus! {

/// A sequence of flags, one per block, stored one bit each.
///
/// It wraps `bitvec::vec::BitVec<u8, Msb0>`. The verifier does not look
/// inside: what it knows of a bitmap is `bits_of`, and what the operations
/// at the end of this file are trusted to do to it.
#[verifier::external_body]
#[derive(Debug)]
pub struct Bitmap {
    bits: BitVec<u8, Msb0>,
}

/// The flags that a bitmap holds, first block first.
pub uninterp spec fn bits_of(b: Bitmap) -> Seq<bool>;

/// Most flags that a bitmap takes: the bit vector's own limit on a machine
/// with 32-bit addresses, and below it on any other.
pub const MAX_BITS: usize = 0x1fff_ffff;

impl View for Bitmap {
    type V = Seq<bool>;

    open spec fn view(&self) -> Seq<bool> {
        bits_of(*self)
    }
}

/// Whether every flag of `s` is set; true of no flags at all.
pub open spec fn all_true(s: Seq<bool>) -> bool {
    forall|i: int| 0 <= i < s.len() ==> #[trigger] s[i]
}

impl Bitmap {
    /// A bitmap without flags.
    pub fn new() -> (r: Bitmap)
        ensures
            r@ == Seq::<bool>::empty(),
    {
        bits_new()
    }

    /// The number of flags.
    pub fn len(&self) -> (n: usize)
        ensures
            n == self@.len(),
    {
        bits_len(self)
    }

    /// Flag `index`, if there is one.
    pub fn get(&self, index: usize) -> (r: Option<bool>)
        ensures
            r == (if index < self@.len() {
                Some(self@[index as int])
            } else {
                None
            }),
    {
        if index < bits_len(self) {
            Some(bits_get(self, index))
        } else {
            None
        }
    }

    /// Gives flag `index` the value `value` and says whether there is such
    /// a flag; without one, nothing changes.
    pub fn set(&mut self, index: usize, value: bool) -> (done: bool)
        ensures
            done == (index < old(self)@.len()),
            done ==> final(self)@ == old(self)@.update(index as int, value),
            !done ==> final(self)@ == old(self)@,
    {
        if index < bits_len(self) {
            bits_set(self, index, value);
            true
        } else {
            false
        }
    }

    /// Adds a flag at the end and says whether there was room for it;
    /// without room, nothing changes.
    pub fn push(&mut self, value: bool) -> (done: bool)
        ensures
            done == (old(self)@.len() < MAX_BITS),
            done ==> final(self)@ == old(self)@.push(value),
            !done ==> final(self)@ == old(self)@,
    {
        if bits_len(self) < MAX_BITS {
            bits_push(self, value);
            true
        } else {
            false
        }
    }

    /// A bitmap of `count` flags that all have the value `value`; none
    /// where `count` is over `MAX_BITS`.
    pub fn repeat(value: bool, count: usize) -> (r: Option<Bitmap>)
        ensures
            r is Some <==> count <= MAX_BITS,
            r is Some ==> r.unwrap()@ == Seq::new(count as nat, |i: int| value),
    {
        if count > MAX_BITS {
            return None;
        }
        let mut out: Bitmap = bits_new();
        let mut i: usize = 0;
        while i < count
            invariant
                i <= count <= MAX_BITS,
                out@ == Seq::new(i as nat, |k: int| value),
            decreases count - i,
        {
            bits_push(&mut out, value);
            i += 1;
            assert(out@ =~= Seq::new(i as nat, |k: int| value));
        }
        Some(out)
    }

    /// The bitmap that holds the flags of `flags`, in their order; none
    /// where there are more than `MAX_BITS` of them.
    pub fn from_flags(flags: &[bool]) -> (r: Option<Bitmap>)
        ensures
            r is Some <==> flags@.len() <= MAX_BITS,
            r is Some ==> r.unwrap()@ == flags@,
    {
        if flags.len() > MAX_BITS {
            return None;
        }
        let mut out: Bitmap = bits_new();
        let mut i: usize = 0;
        while i < flags.len()
            invariant
                i <= flags@.len() <= MAX_BITS,
                out@ == flags@.subrange(0, i as int),
            decreases flags@.len() - i,
        {
            bits_push(&mut out, flags[i]);
            i += 1;
            assert(out@ =~= flags@.subrange(0, i as int));
        }
        assert(flags@.subrange(0, flags@.len() as int) =~= flags@);
        Some(out)
    }

    /// The flags, in their order.
    pub fn to_flags(&self) -> (r: Vec<bool>)
        ensures
            r@ == self@,
    {
        let n: usize = bits_len(self);
        let mut out: Vec<bool> = Vec::new();
        let mut i: usize = 0;
        while i < n
            invariant
                i <= n,
                n == self@.len(),
                out@ == self@.subrange(0, i as int),
            decreases n - i,
        {
            out.push(bits_get(self, i));
            i += 1;
            assert(out@ =~= self@.subrange(0, i as int));
        }
        assert(self@.subrange(0, n as int) =~= self@);
        out
    }

    /// Whether every flag is set.
    pub fn all_set(&self) -> (r: bool)
        ensures
            r == all_true(self@),
    {
        let n: usize = bits_len(self);
        let mut i: usize = 0;
        while i < n
            invariant
                i <= n,
                n == self@.len(),
                forall|k: int| 0 <= k < i ==> #[trigger] self@[k],
            decreases n - i,
        {
            if !bits_get(self, i) {
                return false;
            }
            i += 1;
        }
        true
    }

}

impl Clone for Bitmap {
    /// A bitmap with the same flags.
    fn clone(&self) -> (r: Bitmap)
        ensures
            r@ == self@,
    {
        bits_clone(self)
    }
}

/// Calls `BitVec::new`: a bit vector without bits.
#[verifier::external_body]
fn bits_new() -> (r: Bitmap)
    ensures
        bits_of(r) == Seq::<bool>::empty(),
{
    Bitmap { bits: BitVec::new() }
}

/// Calls `BitVec::len`: the number of bits.
#[verifier::external_body]
fn bits_len(b: &Bitmap) -> (n: usize)
    ensures
        n == bits_of(*b).len(),
{
    b.bits.len()
}

/// Indexes the bit vector, which gives the bit at `index`. An index past
/// the end would panic, so it is left out.
#[verifier::external_body]
fn bits_get(b: &Bitmap, index: usize) -> (r: bool)
    requires
        index < bits_of(*b).len(),
    ensures
        r == bits_of(*b)[index as int],
{
    b.bits[index]
}

/// Calls `BitSlice::set`, which writes `value` into the bit at `index` and
/// leaves the others. An index past the end would panic, so it is left out.
#[verifier::external_body]
fn bits_set(b: &mut Bitmap, index: usize, value: bool)
    requires
        index < bits_of(*old(b)).len(),
    ensures
        bits_of(*final(b)) == bits_of(*old(b)).update(index as int, value),
{
    b.bits.set(index, value)
}

/// Calls `BitVec::push`, which appends one bit. It panics where the new
/// length would be over what a bit vector can address, which is never
/// less than `MAX_BITS`; longer vectors are left out.
#[verifier::external_body]
fn bits_push(b: &mut Bitmap, value: bool)
    requires
        bits_of(*old(b)).len() < MAX_BITS,
    ensures
        bits_of(*final(b)) == bits_of(*old(b)).push(value),
{
    b.bits.push(value)
}

/// Calls `BitVec::clone`, which copies the bits into a new vector.
#[verifier::external_body]
fn bits_clone(b: &Bitmap) -> (r: Bitmap)
    ensures
        bits_of(r) == bits_of(*b),
{
    Bitmap { bits: b.bits.clone() }
}

} // verus!
