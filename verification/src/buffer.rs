//! The mirrored buffer: element storage whose two halves alias the same
//! slots, so that offset `i` and offset `i + len/2` always denote the same
//! element.
//!
//! One physical slot sequence of `len/2` elements backs both halves of the
//! logical `len`-element view. A write through either offset is therefore
//! observable through the other, which is exactly the aliasing the deque
//! relies on to keep its live window contiguous. A slot holds `None` while
//! its offset carries no live element.

use vstd::prelude::*;
use vstd::arithmetic::div_mod::{lemma_div_is_ordered, lemma_fundamental_div_mod,
                                lemma_div_multiples_vanish};
use vstd::arithmetic::mul::lemma_mul_inequality;
use crate::allocator::{ALLOCATION_GRANULARITY, no_required_allocation_units, spec_required_units,
                       lemma_units_cover, lemma_units_monotonic, lemma_units_fixed_point,
                       AllocError};

verus! {

/// The layout preconditions of the storage: elements must occupy at least one
/// byte and must not be aligned more strictly than the allocation granularity.
pub open spec fn layout_ok<T>() -> bool {
    &&& vstd::layout::size_of::<T>() > 0
    &&& vstd::layout::align_of::<T>() <= ALLOCATION_GRANULARITY
}

/// Bytes acquired for a buffer of `n` elements of `sz` bytes each: whole
/// allocation units, an even number of them so the allocation splits into
/// two mirrored halves.
pub open spec fn spec_size_in_bytes(n: nat, sz: nat) -> nat {
    spec_required_units(n * sz) * (ALLOCATION_GRANULARITY as nat)
}

/// Capacity (usable element slots, one mirrored half) of the buffer
/// allocated for `n` elements of `sz` bytes.
pub open spec fn spec_capacity_for(n: nat, sz: nat) -> nat
    recommends
        sz > 0,
{
    (spec_size_in_bytes(n, sz) / sz) / 2
}

/// A request of more elements never rounds to fewer bytes or less capacity.
pub proof fn lemma_capacity_monotonic(a: nat, b: nat, sz: nat)
    requires
        sz > 0,
        a <= b,
    ensures
        spec_size_in_bytes(a, sz) <= spec_size_in_bytes(b, sz),
        spec_capacity_for(a, sz) <= spec_capacity_for(b, sz),
{
    lemma_mul_inequality(a as int, b as int, sz as int);
    lemma_units_monotonic(a * sz, b * sz);
    lemma_mul_inequality(
        spec_required_units(a * sz) as int,
        spec_required_units(b * sz) as int,
        ALLOCATION_GRANULARITY as int,
    );
    lemma_div_is_ordered(
        spec_size_in_bytes(a, sz) as int,
        spec_size_in_bytes(b, sz) as int,
        sz as int,
    );
    lemma_div_is_ordered(
        (spec_size_in_bytes(a, sz) / sz) as int,
        (spec_size_in_bytes(b, sz) / sz) as int,
        2,
    );
}

/// The capacity that the rounding yields is a fixed point of the rounding:
/// asking for exactly twice the capacity that a request got yields that same
/// capacity again, from no more bytes.
pub proof fn lemma_capacity_fixed_point(n: nat, sz: nat)
    requires
        sz > 0,
    ensures
        spec_size_in_bytes(2 * spec_capacity_for(n, sz), sz) <= spec_size_in_bytes(n, sz),
        spec_capacity_for(2 * spec_capacity_for(n, sz), sz) == spec_capacity_for(n, sz),
{
    let g = ALLOCATION_GRANULARITY as nat;
    let u = spec_required_units(n * sz);
    let alloc = u * g;
    let e = alloc / sz;
    let cap = e / 2;
    lemma_units_cover(n * sz);
    // Twice the capacity takes no more bytes than the original allocation.
    assert(2 * cap <= e) by {
        lemma_fundamental_div_mod(e as int, 2);
    }
    assert(e * sz <= alloc) by {
        lemma_fundamental_div_mod(alloc as int, sz as int);
        assert((alloc as int % sz as int) >= 0);
        assert(sz as int * (alloc as int / sz as int) == e * sz) by (nonlinear_arith)
            requires
                e == alloc / sz,
                sz > 0,
        ;
    }
    lemma_mul_inequality((2 * cap) as int, e as int, sz as int);
    assert(2 * cap * sz <= alloc);
    // So its unit count is no larger, hence its byte size is no larger.
    lemma_units_monotonic(2 * cap * sz, alloc);
    lemma_units_fixed_point(u);
    assert(spec_required_units(alloc) == u);
    let u2 = spec_required_units(2 * cap * sz);
    lemma_mul_inequality(u2 as int, u as int, g as int);
    assert(spec_size_in_bytes(2 * cap, sz) <= alloc);
    // Its capacity is no larger either,
    lemma_div_is_ordered((u2 * g) as int, alloc as int, sz as int);
    lemma_div_is_ordered(((u2 * g) / sz) as int, e as int, 2);
    assert(spec_capacity_for(2 * cap, sz) <= cap);
    // and no smaller: the units still cover the request.
    lemma_units_cover(2 * cap * sz);
    assert(u2 * g >= 2 * cap * sz);
    assert((u2 * g) / sz >= 2 * cap) by {
        lemma_div_multiples_vanish((2 * cap) as int, sz as int);
        assert(sz as int * (2 * cap) as int == (2 * cap * sz) as int) by (nonlinear_arith);
        lemma_div_is_ordered((2 * cap * sz) as int, (u2 * g) as int, sz as int);
    }
    lemma_div_is_ordered((2 * cap) as int, ((u2 * g) / sz) as int, 2);
    assert((2 * cap) as int / 2 == cap as int) by {
        lemma_div_multiples_vanish(cap as int, 2);
    }
    assert(spec_capacity_for(2 * cap, sz) >= cap);
}

/// The view of a buffer after writing `v` at offset `j`: both offsets that
/// alias `j`'s slot change together.
pub open spec fn spec_mirror_write<T>(s: Seq<Option<T>>, j: int, v: Option<T>) -> Seq<Option<T>>
    recommends
        s.len() % 2 == 0,
        0 <= j < s.len(),
{
    let h = (s.len() / 2) as int;
    let p = if j < h {
        j
    } else {
        j - h
    };
    s.update(p, v).update(p + h, v)
}

/// Writing one physical slot changes the mirrored view at exactly the two
/// offsets that alias it.
pub proof fn lemma_mirror_write_split<T>(s: Seq<Option<T>>, j: int, v: Option<T>)
    requires
        0 <= j < 2 * s.len(),
    ensures
        s.update(if j < s.len() { j } else { j - s.len() }, v) + s.update(
            if j < s.len() { j } else { j - s.len() },
            v,
        ) == spec_mirror_write(s + s, j, v),
{
    let p = if j < s.len() {
        j
    } else {
        j - s.len()
    };
    assert(s.update(p, v) + s.update(p, v) =~= spec_mirror_write(s + s, j, v));
}

/// Mirrored element storage: a buffer of `len()` elements (always even)
/// whose offsets `i` and `i + len()/2` denote the same slot.
pub struct Buffer<T> {
    /// The physical slots; both halves of the view read and write these.
    phys: Vec<Option<T>>,
}

impl<T> View for Buffer<T> {
    type V = Seq<Option<T>>;

    /// The full mirrored view: the physical slots, seen twice.
    closed spec fn view(&self) -> Seq<Option<T>> {
        self.phys@ + self.phys@
    }
}

impl<T> Buffer<T> {
    /// Usable element slots: one mirrored half.
    pub closed spec fn spec_capacity(&self) -> nat {
        self.phys@.len()
    }

    /// Structural soundness: the mirrored length fits the machine, and a
    /// non-empty buffer is consistent with its own allocation arithmetic, so
    /// that an equal or smaller buffer can always be sized.
    pub closed spec fn wf(&self) -> bool {
        let c = self.phys@.len();
        let sz = vstd::layout::size_of::<T>();
        &&& 2 * c <= usize::MAX
        &&& c > 0 ==> {
            &&& layout_ok::<T>()
            &&& spec_size_in_bytes(2 * c, sz) <= usize::MAX
            &&& spec_capacity_for(2 * c, sz) == c
        }
    }

    /// The view is the two mirrored halves.
    pub proof fn lemma_view_len(&self)
        ensures
            self@.len() == 2 * self.spec_capacity(),
            forall|j: int|
                0 <= j < self.spec_capacity() ==> #[trigger] self@[j] == self@[j
                    + self.spec_capacity()],
    {
    }

    /// What well-formedness guarantees of a non-empty buffer: its layout
    /// preconditions held, and its capacity is consistent with the
    /// allocation arithmetic.
    pub proof fn lemma_wf_allocated(&self)
        requires
            self.wf(),
            self.spec_capacity() > 0,
        ensures
            layout_ok::<T>(),
            spec_size_in_bytes(2 * self.spec_capacity(), vstd::layout::size_of::<T>())
                <= usize::MAX,
            spec_capacity_for(2 * self.spec_capacity(), vstd::layout::size_of::<T>())
                == self.spec_capacity(),
    {
    }

    /// Creates a new empty buffer: no allocation, length zero.
    pub fn new() -> (r: Self)
        ensures
            r.wf(),
            r@.len() == 0,
            r.spec_capacity() == 0,
    {
        Buffer { phys: Vec::new() }
    }

    /// Number of elements in the buffer, counting both mirrored halves.
    pub fn len(&self) -> (r: usize)
        requires
            self.wf(),
        ensures
            r == self@.len(),
            r % 2 == 0,
    {
        2 * self.phys.len()
    }

    /// Is the buffer empty?
    pub fn is_empty(&self) -> (r: bool)
        requires
            self.wf(),
        ensures
            r == (self@.len() == 0),
    {
        self.len() == 0
    }

    /// Reads the slot at offset `i` of the mirrored view.
    pub fn get(&self, i: usize) -> (r: &Option<T>)
        requires
            self.wf(),
            i < self@.len(),
        ensures
            *r == self@[i as int],
    {
        let c = self.phys.len();
        if i < c {
            &self.phys[i]
        } else {
            &self.phys[i - c]
        }
    }

    /// Writes the slot at offset `i`: the write is observable at `i` and at
    /// the offset mirroring `i` in the other half.
    pub fn set(&mut self, i: usize, v: Option<T>)
        requires
            old(self).wf(),
            i < old(self)@.len(),
        ensures
            final(self).wf(),
            final(self).spec_capacity() == old(self).spec_capacity(),
            final(self)@ == spec_mirror_write(old(self)@, i as int, v),
    {
        let c = self.phys.len();
        let p = if i < c {
            i
        } else {
            i - c
        };
        self.phys[p] = v;
        proof {
            assert(final(self)@ =~= spec_mirror_write(old(self)@, i as int, v));
        }
    }

    /// Moves the slot at offset `i` out, leaving the slot (in both halves)
    /// vacant.
    pub fn take(&mut self, i: usize) -> (r: Option<T>)
        requires
            old(self).wf(),
            i < old(self)@.len(),
        ensures
            final(self).wf(),
            final(self).spec_capacity() == old(self).spec_capacity(),
            r == old(self)@[i as int],
            final(self)@ == spec_mirror_write(old(self)@, i as int, None),
    {
        let c = self.phys.len();
        let p = if i < c {
            i
        } else {
            i - c
        };
        let slot = &mut self.phys[p];
        let r = slot.take();
        proof {
            assert(final(self)@ =~= spec_mirror_write(old(self)@, i as int, None));
        }
        r
    }

    /// Borrows the element at offset `i` mutably; the slot must hold one.
    /// A write through the borrow is observable at `i` and at the offset
    /// mirroring `i` in the other half.
    pub fn elem_mut(&mut self, i: usize) -> (r: &mut T)
        requires
            old(self).wf(),
            i < old(self)@.len(),
            old(self)@[i as int] is Some,
        ensures
            final(self).wf(),
            final(self).spec_capacity() == old(self).spec_capacity(),
            *r == old(self)@[i as int].unwrap(),
            final(self)@ == spec_mirror_write(old(self)@, i as int, Some(*final(r))),
    {
        let c = self.phys.len();
        let p = if i < c {
            i
        } else {
            i - c
        };
        let slot = &mut self.phys[p];
        let r = slot.as_mut();
        proof {
            let fr = *final(r.unwrap());
            lemma_mirror_write_split(old(self).phys@, i as int, Some(fr));
        }
        r.unwrap()
    }

    /// Total number of bytes acquired for a buffer of `len` elements
    /// (counting both mirrored halves).
    pub fn size_in_bytes(len: usize) -> (r: usize)
        requires
            layout_ok::<T>(),
            spec_size_in_bytes(len as nat, vstd::layout::size_of::<T>()) <= usize::MAX,
        ensures
            r == spec_size_in_bytes(len as nat, vstd::layout::size_of::<T>()),
    {
        let sz = core::mem::size_of::<T>();
        proof {
            lemma_units_cover((len * sz) as nat);
            lemma_mul_inequality(
                (len as nat * sz as nat) as int,
                (spec_required_units((len * sz) as nat) * ALLOCATION_GRANULARITY) as int,
                1,
            );
        }
        let bytes = len * sz;
        let units = no_required_allocation_units(bytes);
        units * ALLOCATION_GRANULARITY
    }

    /// Creates a mirrored buffer able to hold `n` elements, all slots vacant.
    /// `n` must be even so the buffer can split into two mirrored halves;
    /// `n == 0` yields the empty sentinel buffer with no allocation. The
    /// element length of the returned buffer may exceed `n`: the byte size is
    /// rounded up to an even number of allocation units. The result carries
    /// the allocation layer's error type, but in-process slot storage never
    /// refuses a request that meets the preconditions, so it is always `Ok`.
    pub fn uninitialized(n: usize) -> (r: Result<Self, AllocError>)
        requires
            layout_ok::<T>(),
            n % 2 == 0,
            spec_size_in_bytes(n as nat, vstd::layout::size_of::<T>()) <= usize::MAX,
        ensures
            r is Ok,
            r matches Ok(b) ==> {
                &&& b.wf()
                &&& b.spec_capacity() == if n == 0 {
                    0nat
                } else {
                    spec_capacity_for(n as nat, vstd::layout::size_of::<T>())
                }
                &&& b@.len() >= n
                &&& forall|j: int| 0 <= j < b@.len() ==> b@[j] is None
            },
    {
        if n == 0 {
            return Ok(Buffer { phys: Vec::new() });
        }
        let ghost szs = vstd::layout::size_of::<T>();
        let sz = core::mem::size_of::<T>();
        proof {
            lemma_units_cover((n * sz) as nat);
            lemma_mul_inequality(
                (n as nat * sz as nat) as int,
                (spec_required_units((n * sz) as nat) * ALLOCATION_GRANULARITY) as int,
                1,
            );
        }
        let bytes = n * sz;
        let units = no_required_allocation_units(bytes);
        let alloc_size = units * ALLOCATION_GRANULARITY;
        let elem_len = alloc_size / sz;
        let half = elem_len / 2;
        proof {
            // The allocation covers the request, so the element length
            // covers `n` and the capacity covers `n / 2`.
            lemma_div_is_ordered(bytes as int, alloc_size as int, sz as int);
            assert((bytes as int) / (sz as int) == n) by (nonlinear_arith)
                requires
                    sz > 0,
                    bytes == n * sz,
            ;
            assert(elem_len >= n);
            assert(2 * half >= n) by {
                assert(elem_len / 2 >= n / 2) by {
                    lemma_div_is_ordered(n as int, elem_len as int, 2);
                }
                assert(n % 2 == 0);
                lemma_fundamental_div_mod(n as int, 2);
            }
            // The chosen capacity is consistent with the rounding: asking
            // for twice this capacity yields it again, from no more bytes.
            assert(half == spec_capacity_for(n as nat, szs));
            lemma_capacity_fixed_point(n as nat, szs);
        }
        let mut phys: Vec<Option<T>> = Vec::new();
        while phys.len() < half
            invariant
                phys@.len() <= half,
                forall|j: int| 0 <= j < phys@.len() ==> phys@[j] is None,
            decreases half - phys@.len(),
        {
            phys.push(None);
        }
        Ok(Buffer { phys })
    }
}

impl<T> Default for Buffer<T> {
    /// The empty buffer.
    fn default() -> (r: Self)
        ensures
            r.wf(),
            r@.len() == 0,
            r.spec_capacity() == 0,
    {
        Self::new()
    }
}

/// The mirrored view is twice as long as the capacity, and a well-formed
/// buffer's length fits the machine.
pub broadcast proof fn lemma_buffer_len<T>(b: Buffer<T>)
    ensures
        #![trigger b.spec_capacity()]
        b@.len() == 2 * b.spec_capacity(),
        b.wf() ==> 2 * b.spec_capacity() <= usize::MAX,
{
}

/// The mirror invariant: in a well-formed buffer of length `L`, every offset
/// `i` below `L/2` and its mirror offset `i + L/2` denote the same slot, so
/// they always hold the same value.
pub proof fn lemma_mirror_invariant<T>(b: &Buffer<T>)
    requires
        b.wf(),
    ensures
        b@.len() % 2 == 0,
        forall|i: int| 0 <= i < b@.len() / 2 ==> #[trigger] b@[i] == b@[i + b@.len() / 2],
{
}

} // verus!
