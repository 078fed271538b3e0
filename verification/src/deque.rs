//! The ring deque: head/tail index management over a mirrored buffer.
//!
//! The live elements sit at buffer offsets `[head, tail)`, one contiguous
//! range that never wraps: whenever it would run off an end of the mirrored
//! view, both indices shift by the capacity, which relocates the window into
//! the other mirrored half without touching any element.

use vstd::prelude::*;
use vstd::pervasive::unreached;
use crate::allocator::{ALLOCATION_GRANULARITY, no_required_allocation_units, lemma_units_cover};
use crate::buffer::{Buffer, layout_ok, spec_capacity_for, spec_size_in_bytes, spec_mirror_write,
                    lemma_capacity_monotonic, lemma_buffer_len};

verus! {

broadcast use lemma_buffer_len;

/// The elements that a window `[head, tail)` of buffer contents `s` holds.
pub open spec fn spec_window<T>(s: Seq<Option<T>>, head: int, tail: int) -> Seq<T> {
    Seq::new((tail - head) as nat, |k: int| s[head + k].unwrap())
}

/// Capacity that a growth step aims for: a first allocation goes to four
/// slots, every later one doubles.
pub open spec fn spec_grow_target(cap: nat) -> nat {
    if cap == 0 {
        4
    } else {
        2 * cap
    }
}

/// Whether a buffer of `n` elements of `T` can be sized on this machine.
pub open spec fn spec_can_allocate<T>(n: nat) -> bool {
    &&& layout_ok::<T>()
    &&& n <= usize::MAX
    &&& spec_size_in_bytes(n, vstd::layout::size_of::<T>()) <= usize::MAX
}

/// Checks at run time whether a buffer of `n` elements of `T` can be sized
/// on this machine: whether the element layout meets the allocation
/// preconditions and the byte-size arithmetic stays within the machine word.
/// This is how a caller discharges the allocation preconditions of
/// `with_capacity`, the pushes, `insert`, `reserve`, `resize` and
/// `split_off` for an element type whose layout it does not know statically.
pub fn can_allocate<T>(n: usize) -> (r: bool)
    ensures
        r == spec_can_allocate::<T>(n as nat),
{
    if core::mem::size_of::<T>() == 0 {
        return false;
    }
    if core::mem::align_of::<T>() > ALLOCATION_GRANULARITY {
        return false;
    }
    let sz = core::mem::size_of::<T>();
    match n.checked_mul(sz) {
        None => {
            proof {
                lemma_units_cover(n as nat * vstd::layout::size_of::<T>());
            }
            false
        },
        Some(bytes) => {
            let units = no_required_allocation_units(bytes);
            units.checked_mul(ALLOCATION_GRANULARITY).is_some()
        },
    }
}

/// Writing through the window slot of index `i` changes the window at
/// exactly `i`: the window maps its indices to distinct slots, so the write
/// and its mirror touch no other live element.
proof fn lemma_window_write<T>(s: Seq<Option<T>>, head: int, tail: int, i: int, v: T)
    requires
        s.len() % 2 == 0,
        0 <= head <= tail <= s.len(),
        tail - head <= s.len() / 2,
        0 <= i < tail - head,
    ensures
        forall|j: int|
            head <= j < tail ==> (#[trigger] spec_mirror_write(s, head + i, Some(v))[j]) == (if j
                == head + i {
                Some(v)
            } else {
                s[j]
            }),
        spec_window(spec_mirror_write(s, head + i, Some(v)), head, tail) == spec_window(
            s,
            head,
            tail,
        ).update(i, v),
{
    let w = spec_mirror_write(s, head + i, Some(v));
    let c = s.len() / 2;
    assert forall|j: int| head <= j < tail implies (#[trigger] w[j]) == (if j == head + i {
        Some(v)
    } else {
        s[j]
    }) by {
        if j != head + i {
            assert(j != head + i - c && j != head + i + c);
        }
    }
    assert(spec_window(w, head, tail) =~= spec_window(s, head, tail).update(i, v));
}

/// The elements of `s` whose flag in `keep` is set, in order.
pub open spec fn spec_filter<T>(s: Seq<T>, keep: Seq<bool>) -> Seq<T>
    recommends
        s.len() == keep.len(),
    decreases s.len(),
{
    if s.len() == 0 {
        Seq::empty()
    } else {
        let prefix = spec_filter(s.drop_last(), keep.drop_last());
        if keep[s.len() - 1] {
            prefix.push(s.last())
        } else {
            prefix
        }
    }
}

/// The filtered sequence never outgrows the original.
proof fn lemma_filter_len<T>(s: Seq<T>, keep: Seq<bool>)
    ensures
        spec_filter(s, keep).len() <= s.len(),
    decreases s.len(),
{
    if s.len() > 0 {
        lemma_filter_len(s.drop_last(), keep.drop_last());
    }
}

/// The elements removed by a `drain` call, yielded one at a time under the
/// caller's control. The deque is already fixed up when the `Drain` is
/// handed out: dropping it early discards the remaining elements and nothing
/// else.
pub struct Drain<T> {
    /// The drained elements, front of the drained range first.
    elems: Vec<T>,
}

impl<T> View for Drain<T> {
    type V = Seq<T>;

    /// The elements not yet yielded, in front-to-back order.
    closed spec fn view(&self) -> Seq<T> {
        self.elems@
    }
}

impl<T> Drain<T> {
    /// Yields the next element from the front of the drained range.
    pub fn next(&mut self) -> (r: Option<T>)
        ensures
            old(self)@.len() == 0 ==> r is None && final(self)@ == old(self)@,
            old(self)@.len() > 0 ==> r == Some(old(self)@[0]) && final(self)@ == old(
                self,
            )@.subrange(1, old(self)@.len() as int),
    {
        if self.elems.len() == 0 {
            None
        } else {
            let r = self.elems.remove(0);
            proof {
                assert(self@ =~= old(self)@.subrange(1, old(self)@.len() as int));
            }
            Some(r)
        }
    }

    /// Yields the next element from the back of the drained range.
    pub fn next_back(&mut self) -> (r: Option<T>)
        ensures
            old(self)@.len() == 0 ==> r is None && final(self)@ == old(self)@,
            old(self)@.len() > 0 ==> r == Some(old(self)@[old(self)@.len() - 1]) && final(self)@
                == old(self)@.subrange(0, old(self)@.len() - 1),
    {
        let r = self.elems.pop();
        proof {
            if old(self)@.len() > 0 {
                assert(self@ =~= old(self)@.subrange(0, old(self)@.len() - 1));
            }
        }
        r
    }

    /// Number of elements not yet yielded.
    pub fn len(&self) -> (r: usize)
        ensures
            r == self@.len(),
    {
        self.elems.len()
    }

    /// Whether every element has been yielded.
    pub fn is_empty(&self) -> (r: bool)
        ensures
            r == (self@.len() == 0),
    {
        self.elems.len() == 0
    }
}

/// A double-ended queue over a mirrored buffer. The live elements always
/// form one contiguous window of the buffer.
pub struct SliceDeque<T> {
    /// Buffer offset of the first live element.
    head: usize,
    /// Buffer offset one past the last live element.
    tail: usize,
    /// The mirrored element storage.
    buf: Buffer<T>,
}

impl<T> View for SliceDeque<T> {
    type V = Seq<T>;

    /// The live elements, front to back.
    closed spec fn view(&self) -> Seq<T> {
        spec_window(self.buf@, self.head as int, self.tail as int)
    }
}

impl<T> SliceDeque<T> {
    /// Element slots available without reallocation: half the buffer length.
    pub closed spec fn spec_capacity(&self) -> nat {
        self.buf.spec_capacity()
    }

    /// Element length of the backing mirrored buffer (both halves).
    pub closed spec fn spec_buffer_len(&self) -> nat {
        self.buf@.len()
    }

    /// The size invariant: the window is well-placed inside the mirrored
    /// buffer and every slot in it holds an element.
    pub closed spec fn wf(&self) -> bool {
        &&& self.buf.wf()
        &&& self.head <= self.tail
        &&& self.tail - self.head <= self.buf.spec_capacity()
        &&& self.tail <= 2 * self.buf.spec_capacity()
        &&& forall|j: int| self.head <= j < self.tail ==> (#[trigger] self.buf@[j]) is Some
    }

    /// Whether a push can proceed: either there is room, or the grown buffer
    /// can be sized on this machine.
    pub open spec fn spec_push_ok(&self) -> bool {
        ||| self@.len() < self.spec_capacity()
        ||| spec_can_allocate::<T>(2 * spec_grow_target(self.spec_capacity()))
    }

    /// Creates a new empty deque with no allocation.
    pub fn new() -> (r: Self)
        ensures
            r.wf(),
            r@ == Seq::<T>::empty(),
            r.spec_capacity() == 0,
    {
        let r = SliceDeque { head: 0, tail: 0, buf: Buffer::new() };
        proof {
            assert(r@ =~= Seq::<T>::empty());
        }
        r
    }

    /// Creates an empty deque with capacity for at least `n` elements.
    pub fn with_capacity(n: usize) -> (r: Self)
        requires
            spec_can_allocate::<T>(2 * n as nat),
        ensures
            r.wf(),
            r@ == Seq::<T>::empty(),
            r.spec_capacity() >= n,
            r.spec_capacity() == if n == 0 {
                0nat
            } else {
                spec_capacity_for(2 * n as nat, vstd::layout::size_of::<T>())
            },
    {
        let buf = match Buffer::uninitialized(2 * n) {
            Ok(b) => b,
            Err(_) => unreached(),
        };
        proof {
            buf.lemma_view_len();
        }
        let r = SliceDeque { head: 0, tail: 0, buf };
        proof {
            assert(r@ =~= Seq::<T>::empty());
        }
        r
    }

    /// Number of elements the deque can hold without reallocating.
    pub fn capacity(&self) -> (r: usize)
        requires
            self.wf(),
        ensures
            r == self.spec_capacity(),
    {
        proof {
            self.buf.lemma_view_len();
        }
        self.buf.len() / 2
    }

    /// Number of live elements.
    pub fn len(&self) -> (r: usize)
        requires
            self.wf(),
        ensures
            r == self@.len(),
    {
        self.tail - self.head
    }

    /// Is the deque empty?
    pub fn is_empty(&self) -> (r: bool)
        requires
            self.wf(),
        ensures
            r == (self@.len() == 0),
    {
        self.len() == 0
    }

    /// Is the deque full, so that the next push must grow the buffer?
    pub fn is_full(&self) -> (r: bool)
        requires
            self.wf(),
        ensures
            r == (self@.len() == self.spec_capacity()),
    {
        self.len() == self.capacity()
    }

    /// A reference to the element at `index` (zero-based from the front), or
    /// `None` past the end.
    pub fn get(&self, index: usize) -> (r: Option<&T>)
        requires
            self.wf(),
        ensures
            index < self@.len() ==> (r matches Some(p) && *p == self@[index as int]),
            index >= self@.len() ==> r is None,
    {
        if index < self.len() {
            let j = self.head + index;
            Some(self.buf.get(j).as_ref().unwrap())
        } else {
            None
        }
    }

    /// A reference to the first element, or `None` if the deque is empty.
    pub fn front(&self) -> (r: Option<&T>)
        requires
            self.wf(),
        ensures
            self@.len() > 0 ==> (r matches Some(p) && *p == self@[0]),
            self@.len() == 0 ==> r is None,
    {
        self.get(0)
    }

    /// A reference to the last element, or `None` if the deque is empty.
    pub fn back(&self) -> (r: Option<&T>)
        requires
            self.wf(),
        ensures
            self@.len() > 0 ==> (r matches Some(p) && *p == self@[self@.len() - 1]),
            self@.len() == 0 ==> r is None,
    {
        if self.is_empty() {
            None
        } else {
            self.get(self.len() - 1)
        }
    }

    /// Moves the live elements to the start of `new_buf` and installs it as
    /// the deque's buffer; the old buffer is released.
    fn move_into(&mut self, new_buf: Buffer<T>)
        requires
            old(self).wf(),
            new_buf.wf(),
            new_buf.spec_capacity() >= old(self)@.len(),
        ensures
            final(self).wf(),
            final(self)@ == old(self)@,
            final(self).spec_capacity() == new_buf.spec_capacity(),
    {
        let ghost nb_cap = new_buf.spec_capacity();
        let mut new_buf = new_buf;
        proof {
            new_buf.lemma_view_len();
            old(self).buf.lemma_view_len();
        }
        let ghost g = *old(self);
        let len = self.len();
        let mut k: usize = 0;
        while k < len
            invariant
                g.wf(),
                len == g.tail - g.head,
                0 <= k <= len,
                self.head == g.head,
                self.tail == g.tail,
                self.buf.wf(),
                self.buf@.len() == g.buf@.len(),
                new_buf.wf(),
                new_buf.spec_capacity() >= len,
                new_buf.spec_capacity() == nb_cap,
                new_buf@.len() == 2 * new_buf.spec_capacity(),
                forall|j: int|
                    g.head + k <= j < g.tail ==> (#[trigger] self.buf@[j]) == g.buf@[j],
                forall|j: int| 0 <= j < k ==> (#[trigger] new_buf@[j]) == g.buf@[g.head + j],
            decreases len - k,
        {
            let h = self.head;
            let t = self.buf.take(h + k);
            new_buf.set(k, t);
            k += 1;
        }
        self.buf = new_buf;
        self.head = 0;
        self.tail = len;
        proof {
            assert(self@ =~= g@);
        }
    }

    /// Reserves capacity for `new_capacity` elements by the allocate, copy,
    /// swap, reset procedure; does nothing if the capacity already suffices.
    fn reserve_capacity(&mut self, new_capacity: usize)
        requires
            old(self).wf(),
            new_capacity > old(self).spec_capacity() ==> spec_can_allocate::<T>(
                2 * new_capacity as nat,
            ),
        ensures
            final(self).wf(),
            final(self)@ == old(self)@,
            final(self).spec_capacity() == if new_capacity <= old(self).spec_capacity() {
                old(self).spec_capacity()
            } else {
                spec_capacity_for(2 * new_capacity as nat, vstd::layout::size_of::<T>())
            },
            final(self).spec_capacity() >= old(self).spec_capacity(),
            final(self).spec_capacity() >= new_capacity,
    {
        if new_capacity <= self.capacity() {
            return ;
        }
        let new_buf = match Buffer::uninitialized(2 * new_capacity) {
            Ok(b) => b,
            Err(_) => unreached(),
        };
        proof {
            new_buf.lemma_view_len();
        }
        self.move_into(new_buf);
    }

    /// Shrinks the capacity as close to the length as the allocation
    /// granularity allows: a no-op on an empty deque, otherwise the buffer is
    /// replaced by one sized for exactly the live elements. The capacity
    /// never grows and the elements are untouched.
    pub fn shrink_to_fit(&mut self)
        requires
            old(self).wf(),
        ensures
            final(self).wf(),
            final(self)@ == old(self)@,
            final(self).spec_capacity() <= old(self).spec_capacity(),
            old(self)@.len() == 0 ==> *final(self) == *old(self),
            old(self)@.len() > 0 ==> final(self).spec_capacity() == spec_capacity_for(
                2 * old(self)@.len(),
                vstd::layout::size_of::<T>(),
            ),
    {
        if self.is_empty() {
            return ;
        }
        let len = self.len();
        proof {
            self.buf.lemma_view_len();
            self.buf.lemma_wf_allocated();
            lemma_capacity_monotonic(
                2 * len as nat,
                2 * self.spec_capacity(),
                vstd::layout::size_of::<T>(),
            );
        }
        let new_buf = match Buffer::uninitialized(2 * len) {
            Ok(b) => b,
            Err(_) => unreached(),
        };
        proof {
            new_buf.lemma_view_len();
        }
        self.move_into(new_buf);
    }

    /// Capacity aimed for when the deque must grow: four slots on the first
    /// growth, twice the capacity afterwards.
    fn grow_policy(&self) -> (r: usize)
        requires
            self.wf(),
            2 * spec_grow_target(self.spec_capacity()) <= usize::MAX,
        ensures
            r as nat == spec_grow_target(self.spec_capacity()),
    {
        let c = self.capacity();
        if c == 0 {
            4
        } else {
            c * 2
        }
    }

    /// Grows the deque per the growth policy.
    fn grow(&mut self)
        requires
            old(self).wf(),
            old(self)@.len() == old(self).spec_capacity(),
            spec_can_allocate::<T>(2 * spec_grow_target(old(self).spec_capacity())),
        ensures
            final(self).wf(),
            final(self)@ == old(self)@,
            final(self).spec_capacity() == spec_capacity_for(
                2 * spec_grow_target(old(self).spec_capacity()),
                vstd::layout::size_of::<T>(),
            ),
            final(self).spec_capacity() > old(self).spec_capacity(),
    {
        let target = self.grow_policy();
        self.reserve_capacity(target);
    }

    /// Moves the live window down by the capacity, into the lower mirrored
    /// half; used when advancing the tail would leave the mirrored view.
    /// No element changes: each offset and its mirror denote the same slot.
    fn move_window_down(&mut self)
        requires
            old(self).wf(),
            old(self).tail == 2 * old(self).spec_capacity(),
            old(self)@.len() < old(self).spec_capacity(),
        ensures
            final(self).wf(),
            final(self)@ == old(self)@,
            final(self).spec_capacity() == old(self).spec_capacity(),
            final(self).head == old(self).head - old(self).spec_capacity(),
            final(self).tail == old(self).tail - old(self).spec_capacity(),
    {
        let ghost g = *self;
        let c = self.capacity();
        proof {
            self.buf.lemma_view_len();
        }
        self.head = self.head - c;
        self.tail = self.tail - c;
        proof {
            assert forall|j: int| self.head <= j < self.tail implies (#[trigger] self.buf@[j])
                is Some by {
                assert(self.buf@[j] == self.buf@[j + c]);
                assert(g.buf@[j + c] is Some);
            }
            assert(self.wf());
            assert(self@ =~= g@);
        }
    }

    /// Moves the live window up by the capacity, into the upper mirrored
    /// half; used when retreating the head would leave the mirrored view.
    /// No element changes: each offset and its mirror denote the same slot.
    fn move_window_up(&mut self)
        requires
            old(self).wf(),
            old(self).head == 0,
            old(self)@.len() < old(self).spec_capacity(),
        ensures
            final(self).wf(),
            final(self)@ == old(self)@,
            final(self).spec_capacity() == old(self).spec_capacity(),
            final(self).head == old(self).spec_capacity(),
            final(self).tail == old(self).tail + old(self).spec_capacity(),
    {
        let ghost g = *self;
        let c = self.capacity();
        proof {
            self.buf.lemma_view_len();
        }
        self.head = c;
        self.tail = self.tail + c;
        proof {
            assert forall|j: int| self.head <= j < self.tail implies (#[trigger] self.buf@[j])
                is Some by {
                assert(self.buf@[j - c] == self.buf@[j]);
                assert(g.buf@[j - c] is Some);
            }
            assert(self.wf());
            assert(self@ =~= g@);
        }
    }

    /// Appends `value` at the back, growing first if the deque is full. If
    /// advancing the tail would leave the mirrored view, the window shifts
    /// down by the capacity first, into the lower mirrored half.
    #[verifier::rlimit(30)]
    pub fn push_back(&mut self, value: T)
        requires
            old(self).wf(),
            old(self).spec_push_ok(),
        ensures
            final(self).wf(),
            final(self)@ == old(self)@.push(value),
            final(self).spec_capacity() >= old(self).spec_capacity(),
            old(self)@.len() < old(self).spec_capacity() ==> final(self).spec_capacity() == old(
                self,
            ).spec_capacity(),
            old(self)@.len() == old(self).spec_capacity() ==> final(self).spec_capacity()
                == spec_capacity_for(
                2 * spec_grow_target(old(self).spec_capacity()),
                vstd::layout::size_of::<T>(),
            ),
    {
        if self.is_full() {
            self.grow();
        }
        let c = self.capacity();
        if self.tail == 2 * c {
            self.move_window_down();
        }
        let ghost g2 = *self;
        let t = self.tail;
        self.buf.set(t, Some(value));
        self.tail = t + 1;
        proof {
            assert forall|j: int| self.head <= j < self.tail implies (#[trigger] self.buf@[j])
                is Some by {
                if j != t {
                    assert(j != t - c && j != t + c);
                    assert(self.buf@[j] == g2.buf@[j]);
                }
            }
            assert(self@ =~= g2@.push(value));
            assert(self@ =~= old(self)@.push(value));
        }
    }

    /// Prepends `value` at the front, growing first if the deque is full. If
    /// retreating the head would leave the mirrored view, the window shifts
    /// up by the capacity first, into the upper mirrored half.
    pub fn push_front(&mut self, value: T)
        requires
            old(self).wf(),
            old(self).spec_push_ok(),
        ensures
            final(self).wf(),
            final(self)@ == seq![value] + old(self)@,
            final(self).spec_capacity() >= old(self).spec_capacity(),
            old(self)@.len() < old(self).spec_capacity() ==> final(self).spec_capacity() == old(
                self,
            ).spec_capacity(),
            old(self)@.len() == old(self).spec_capacity() ==> final(self).spec_capacity()
                == spec_capacity_for(
                2 * spec_grow_target(old(self).spec_capacity()),
                vstd::layout::size_of::<T>(),
            ),
    {
        if self.is_full() {
            self.grow();
        }
        if self.head == 0 {
            self.move_window_up();
        }
        let ghost g2 = *self;
        let h = self.head - 1;
        self.buf.set(h, Some(value));
        self.head = h;
        proof {
            let c = g2.buf.spec_capacity() as int;
            assert forall|j: int| self.head <= j < self.tail implies (#[trigger] self.buf@[j])
                is Some by {
                if j != h {
                    assert(j != h - c && j != h + c);
                    assert(self.buf@[j] == g2.buf@[j]);
                }
            }
            assert(self@ =~= seq![value] + g2@);
            assert(self@ =~= seq![value] + old(self)@);
        }
    }

    /// Removes and returns the first element, or `None` if the deque is
    /// empty.
    pub fn pop_front(&mut self) -> (r: Option<T>)
        requires
            old(self).wf(),
        ensures
            final(self).wf(),
            final(self).spec_capacity() == old(self).spec_capacity(),
            old(self)@.len() == 0 ==> r is None && final(self)@ == old(self)@,
            old(self)@.len() > 0 ==> r == Some(old(self)@[0]) && final(self)@ == old(
                self,
            )@.subrange(1, old(self)@.len() as int),
    {
        if self.is_empty() {
            return None;
        }
        let h = self.head;
        let r = self.buf.take(h);
        self.head = h + 1;
        proof {
            assert(self@ =~= old(self)@.subrange(1, old(self)@.len() as int));
        }
        r
    }

    /// A mutable reference to the element at `index`, or `None` past the
    /// end. A write through it is visible at `index` alone.
    pub fn get_mut(&mut self, index: usize) -> (r: Option<&mut T>)
        requires
            old(self).wf(),
        ensures
            final(self).wf(),
            final(self).spec_capacity() == old(self).spec_capacity(),
            index < old(self)@.len() ==> r is Some && *r.unwrap() == old(self)@[index as int]
                && final(self)@ == old(self)@.update(index as int, *final(r.unwrap())),
            index >= old(self)@.len() ==> r is None && final(self)@ == old(self)@,
    {
        if index < self.len() {
            let h = self.head;
            let m = self.buf.elem_mut(h + index);
            proof {
                lemma_window_write(
                    old(self).buf@,
                    old(self).head as int,
                    old(self).tail as int,
                    index as int,
                    *final(m),
                );
            }
            Some(m)
        } else {
            None
        }
    }

    /// A mutable reference to the first element, or `None` if the deque is
    /// empty.
    pub fn front_mut(&mut self) -> (r: Option<&mut T>)
        requires
            old(self).wf(),
        ensures
            final(self).wf(),
            final(self).spec_capacity() == old(self).spec_capacity(),
            old(self)@.len() > 0 ==> r is Some && *r.unwrap() == old(self)@[0] && final(self)@
                == old(self)@.update(0, *final(r.unwrap())),
            old(self)@.len() == 0 ==> r is None && final(self)@ == old(self)@,
    {
        self.get_mut(0)
    }

    /// A mutable reference to the last element, or `None` if the deque is
    /// empty.
    pub fn back_mut(&mut self) -> (r: Option<&mut T>)
        requires
            old(self).wf(),
        ensures
            final(self).wf(),
            final(self).spec_capacity() == old(self).spec_capacity(),
            old(self)@.len() > 0 ==> r is Some && *r.unwrap() == old(self)@[old(self)@.len() - 1]
                && final(self)@ == old(self)@.update(old(self)@.len() - 1, *final(r.unwrap())),
            old(self)@.len() == 0 ==> r is None && final(self)@ == old(self)@,
    {
        if self.is_empty() {
            None
        } else {
            let last = self.len() - 1;
            self.get_mut(last)
        }
    }

    /// The elements copied out into a plain vector, front to back.
    pub fn to_vec(&self) -> (r: Vec<T>) where T: Copy
        requires
            self.wf(),
        ensures
            r@ == self@,
    {
        let mut v: Vec<T> = Vec::new();
        let len = self.len();
        let mut k: usize = 0;
        while k < len
            invariant
                self.wf(),
                len == self@.len(),
                0 <= k <= len,
                v@ == self@.subrange(0, k as int),
            decreases len - k,
        {
            let x = *self.buf.get(self.head + k).as_ref().unwrap();
            v.push(x);
            proof {
                assert(v@ =~= self@.subrange(0, k + 1));
            }
            k += 1;
        }
        proof {
            assert(v@ =~= self@);
        }
        v
    }

    /// Resizes the deque to `new_len` elements: excess elements are dropped
    /// from the back, missing ones are appended as clones of `value`.
    pub fn resize(&mut self, new_len: usize, value: T) where T: Clone
        requires
            old(self).wf(),
            new_len > old(self)@.len() ==> old(self).spec_capacity() + (new_len - old(self)@.len())
                <= usize::MAX && spec_can_allocate::<T>(
                (2 * (old(self).spec_capacity() + (new_len - old(self)@.len()))) as nat,
            ),
        ensures
            final(self).wf(),
            final(self)@.len() == new_len,
            new_len <= old(self)@.len() ==> final(self)@ == old(self)@.subrange(0, new_len as int),
            new_len > old(self)@.len() ==> final(self)@.subrange(0, old(self)@.len() as int)
                == old(self)@ && (forall|i: int|
                old(self)@.len() <= i < new_len ==> vstd::pervasive::cloned::<T>(
                    value,
                    #[trigger] final(self)@[i],
                )),
    {
        let len = self.len();
        let ghost g = *old(self);
        if new_len > len {
            self.reserve(new_len - len);
            while self.len() < new_len
                invariant
                    self.wf(),
                    g@.len() <= self@.len() <= new_len,
                    self.spec_capacity() >= new_len,
                    self@.subrange(0, g@.len() as int) == g@,
                    forall|i: int|
                        g@.len() <= i < self@.len() ==> vstd::pervasive::cloned::<T>(
                            value,
                            #[trigger] self@[i],
                        ),
                decreases new_len - self@.len(),
            {
                let ghost s = *self;
                let c = value.clone();
                self.push_back(c);
                proof {
                    assert(self@.subrange(0, g@.len() as int) =~= s@.subrange(0, g@.len() as int));
                }
            }
        } else {
            self.truncate(new_len);
        }
    }

    /// Reserves room for at least `additional` more elements; reallocates
    /// only when the current capacity does not already suffice.
    pub fn reserve(&mut self, additional: usize)
        requires
            old(self).wf(),
            old(self).spec_capacity() + additional <= usize::MAX,
            additional > 0 ==> spec_can_allocate::<T>(
                (2 * (old(self).spec_capacity() + additional)) as nat,
            ),
        ensures
            final(self).wf(),
            final(self)@ == old(self)@,
            final(self).spec_capacity() >= old(self).spec_capacity() + additional,
            additional == 0 ==> final(self).spec_capacity() == old(self).spec_capacity(),
    {
        let new_cap = self.capacity() + additional;
        self.reserve_capacity(new_cap);
    }

    /// Shortens the deque to at most `len` elements by dropping elements off
    /// the back; a `len` at or above the current length changes nothing.
    pub fn truncate(&mut self, len: usize)
        requires
            old(self).wf(),
        ensures
            final(self).wf(),
            final(self).spec_capacity() == old(self).spec_capacity(),
            len >= old(self)@.len() ==> final(self)@ == old(self)@,
            len < old(self)@.len() ==> final(self)@ == old(self)@.subrange(0, len as int),
    {
        let ghost g = *old(self);
        while len < self.len()
            invariant
                self.wf(),
                self.spec_capacity() == g.spec_capacity(),
                self@.len() <= g@.len(),
                len < g@.len() ==> self@.len() >= len,
                len >= g@.len() ==> self@.len() == g@.len(),
                self@ == g@.subrange(0, self@.len() as int),
            decreases self@.len(),
        {
            let ghost s = *self;
            let t = self.tail - 1;
            self.buf.set(t, None);
            self.tail = t;
            proof {
                assert(self@ =~= s@.subrange(0, s@.len() - 1));
                assert(self@ =~= g@.subrange(0, self@.len() as int));
            }
        }
        proof {
            if len >= g@.len() {
                assert(self@ =~= g@);
            }
        }
    }

    /// Removes every element.
    pub fn clear(&mut self)
        requires
            old(self).wf(),
        ensures
            final(self).wf(),
            final(self).spec_capacity() == old(self).spec_capacity(),
            final(self)@ == Seq::<T>::empty(),
    {
        self.truncate(0);
        proof {
            assert(self@ =~= Seq::<T>::empty());
        }
    }

    /// Exchanges the elements at `i` and `j`.
    pub fn swap(&mut self, i: usize, j: usize)
        requires
            old(self).wf(),
            i < old(self)@.len(),
            j < old(self)@.len(),
        ensures
            final(self).wf(),
            final(self).spec_capacity() == old(self).spec_capacity(),
            final(self)@ == old(self)@.update(i as int, old(self)@[j as int]).update(
                j as int,
                old(self)@[i as int],
            ),
    {
        let h = self.head;
        let a = self.buf.take(h + i);
        let b = self.buf.take(h + j);
        self.buf.set(h + i, b);
        self.buf.set(h + j, a);
        proof {
            assert(self@ =~= old(self)@.update(i as int, old(self)@[j as int]).update(
                j as int,
                old(self)@[i as int],
            ));
        }
    }

    /// Removes the element at `index` in constant time by swapping the last
    /// element into its place; `None` if the deque is empty.
    pub fn swap_remove_back(&mut self, index: usize) -> (r: Option<T>)
        requires
            old(self).wf(),
            old(self)@.len() == 0 || index < old(self)@.len(),
        ensures
            final(self).wf(),
            final(self).spec_capacity() == old(self).spec_capacity(),
            old(self)@.len() == 0 ==> r is None && final(self)@ == old(self)@,
            old(self)@.len() > 0 ==> r == Some(old(self)@[index as int]) && final(self)@ == old(
                self,
            )@.update(index as int, old(self)@[old(self)@.len() - 1]).subrange(
                0,
                old(self)@.len() - 1,
            ),
    {
        if self.is_empty() {
            return None;
        }
        let len = self.len();
        self.swap(index, len - 1);
        let r = self.pop_back();
        proof {
            assert(final(self)@ =~= old(self)@.update(
                index as int,
                old(self)@[old(self)@.len() - 1],
            ).subrange(0, old(self)@.len() - 1));
        }
        r
    }

    /// Removes the element at `index` in constant time by swapping the first
    /// element into its place; `None` if the deque is empty.
    pub fn swap_remove_front(&mut self, index: usize) -> (r: Option<T>)
        requires
            old(self).wf(),
            old(self)@.len() == 0 || index < old(self)@.len(),
        ensures
            final(self).wf(),
            final(self).spec_capacity() == old(self).spec_capacity(),
            old(self)@.len() == 0 ==> r is None && final(self)@ == old(self)@,
            old(self)@.len() > 0 ==> r == Some(old(self)@[index as int]) && final(self)@ == old(
                self,
            )@.update(index as int, old(self)@[0]).subrange(1, old(self)@.len() as int),
    {
        if self.is_empty() {
            return None;
        }
        self.swap(index, 0);
        let r = self.pop_front();
        proof {
            assert(final(self)@ =~= old(self)@.update(index as int, old(self)@[0]).subrange(
                1,
                old(self)@.len() as int,
            ));
        }
        r
    }

    /// Inserts `element` at `index`, shifting the elements at and after
    /// `index` one place toward the back; grows first if the deque is full.
    #[verifier::rlimit(50)]
    pub fn insert(&mut self, index: usize, element: T)
        requires
            old(self).wf(),
            index <= old(self)@.len(),
            old(self).spec_push_ok(),
        ensures
            final(self).wf(),
            final(self)@ == old(self)@.insert(index as int, element),
            final(self).spec_capacity() >= old(self).spec_capacity(),
            old(self)@.len() < old(self).spec_capacity() ==> final(self).spec_capacity() == old(
                self,
            ).spec_capacity(),
    {
        if self.is_full() {
            self.grow();
        }
        let c = self.capacity();
        if self.tail == 2 * c {
            self.move_window_down();
        }
        let ghost g2 = *self;
        let h = self.head;
        let len = self.len();
        proof {
            assert(self.tail < 2 * self.buf.spec_capacity());
        }
        let mut k = len;
        while k > index
            invariant
                g2.wf(),
                g2@.len() < g2.spec_capacity(),
                g2.tail < 2 * g2.buf.spec_capacity(),
                index <= k <= len,
                len == g2@.len(),
                h == g2.head,
                self.head == g2.head,
                self.tail == g2.tail,
                self.buf.wf(),
                self.buf.spec_capacity() == g2.buf.spec_capacity(),
                self.buf@.len() == g2.buf@.len(),
                forall|j: int| h <= j < h + k ==> (#[trigger] self.buf@[j]) == g2.buf@[j],
                forall|j: int|
                    h + k < j <= h + len ==> (#[trigger] self.buf@[j]) == g2.buf@[j - 1],
            decreases k,
        {
            let ghost b0 = self.buf@;
            let ghost c = g2.buf.spec_capacity() as int;
            let t = self.buf.take(h + k - 1);
            self.buf.set(h + k, t);
            proof {
                assert forall|j: int|
                    h + k - 1 < j <= h + len implies (#[trigger] self.buf@[j]) == g2.buf@[j
                        - 1] by {
                    if j == h + k {
                        assert(self.buf@[j] == t);
                        assert(b0[j - 1] == g2.buf@[j - 1]);
                    } else {
                        assert(j != h + k - 1 - c && j != h + k - 1 && j != h + k - 1 + c);
                        assert(j != h + k - c && j != h + k && j != h + k + c);
                        assert(self.buf@[j] == b0[j]);
                    }
                }
                assert forall|j: int|
                    h <= j < h + k - 1 implies (#[trigger] self.buf@[j]) == g2.buf@[j] by {
                    assert(j != h + k - 1 - c && j != h + k - 1 && j != h + k - 1 + c);
                    assert(j != h + k - c && j != h + k && j != h + k + c);
                    assert(self.buf@[j] == b0[j]);
                }
            }
            k -= 1;
        }
        let ghost l = *self;
        self.buf.set(h + index, Some(element));
        self.tail = self.tail + 1;
        proof {
            let c = g2.buf.spec_capacity() as int;
            assert forall|j: int|
                h <= j <= h + len implies (#[trigger] self.buf@[j]) == (if j < h + index {
                    g2.buf@[j]
                } else if j == h + index {
                    Some(element)
                } else {
                    g2.buf@[j - 1]
                }) by {
                if j != h + index {
                    assert(j != h + index - c && j != h + index + c);
                    assert(self.buf@[j] == l.buf@[j]);
                }
            }
            assert(self.wf());
            assert(self@ =~= g2@.insert(index as int, element));
            assert(self@ =~= old(self)@.insert(index as int, element));
        }
    }

    /// Removes and returns the element at `index`, shifting the elements
    /// after it one place toward the front.
    pub fn remove(&mut self, index: usize) -> (r: T)
        requires
            old(self).wf(),
            index < old(self)@.len(),
        ensures
            final(self).wf(),
            final(self).spec_capacity() == old(self).spec_capacity(),
            r == old(self)@[index as int],
            final(self)@ == old(self)@.remove(index as int),
    {
        let ghost g = *old(self);
        let h = self.head;
        let len = self.len();
        let r = self.buf.take(h + index).unwrap();
        proof {
            let c = g.buf.spec_capacity() as int;
            assert forall|j: int|
                h <= j < h + len && j != h + index implies (#[trigger] self.buf@[j])
                    == g.buf@[j] by {
                assert(j != h + index - c && j != h + index && j != h + index + c);
            }
        }
        let mut k = index + 1;
        while k < len
            invariant
                g.wf(),
                index < k <= len,
                len == g@.len(),
                h == g.head,
                self.head == g.head,
                self.tail == g.tail,
                self.buf.wf(),
                self.buf.spec_capacity() == g.buf.spec_capacity(),
                self.buf@.len() == g.buf@.len(),
                forall|j: int| h <= j < h + index ==> (#[trigger] self.buf@[j]) == g.buf@[j],
                forall|j: int|
                    h + index <= j < h + k - 1 ==> (#[trigger] self.buf@[j]) == g.buf@[j + 1],
                forall|j: int| h + k <= j < h + len ==> (#[trigger] self.buf@[j]) == g.buf@[j],
            decreases len - k,
        {
            let ghost b0 = self.buf@;
            let ghost c = g.buf.spec_capacity() as int;
            let t = self.buf.take(h + k);
            self.buf.set(h + k - 1, t);
            proof {
                assert forall|j: int|
                    h + index <= j < h + k implies (#[trigger] self.buf@[j]) == g.buf@[j + 1] by {
                    if j == h + k - 1 {
                        assert(self.buf@[j] == t);
                        assert(b0[j + 1] == g.buf@[j + 1]);
                    } else {
                        assert(j != h + k - c && j != h + k && j != h + k + c);
                        assert(j != h + k - 1 - c && j != h + k - 1 && j != h + k - 1 + c);
                        assert(self.buf@[j] == b0[j]);
                    }
                }
                assert forall|j: int|
                    ((h <= j < h + index) || (h + k < j < h + len)) implies (
                #[trigger] self.buf@[j]) == g.buf@[j] by {
                    assert(j != h + k - c && j != h + k && j != h + k + c);
                    assert(j != h + k - 1 - c && j != h + k - 1 && j != h + k - 1 + c);
                    assert(self.buf@[j] == b0[j]);
                }
            }
            k += 1;
        }
        self.tail = self.tail - 1;
        proof {
            assert(self.wf());
            assert(self@ =~= g@.remove(index as int));
        }
        r
    }

    /// Removes the elements of `range` (indices `range.start` up to but not
    /// including `range.end`) and returns them as a draining iterator. The
    /// deque is already fixed up when this returns: whether and how far the
    /// returned value is consumed cannot change the deque further.
    pub fn drain(&mut self, range: core::ops::Range<usize>) -> (r: Drain<T>)
        requires
            old(self).wf(),
            range.start <= range.end,
            range.end <= old(self)@.len(),
        ensures
            final(self).wf(),
            final(self).spec_capacity() == old(self).spec_capacity(),
            r@ == old(self)@.subrange(range.start as int, range.end as int),
            final(self)@ == old(self)@.subrange(0, range.start as int) + old(self)@.subrange(
                range.end as int,
                old(self)@.len() as int,
            ),
    {
        let start = range.start;
        let end = range.end;
        let ghost g = *old(self);
        let h = self.head;
        let len = self.len();
        let mut elems: Vec<T> = Vec::new();
        let mut k = start;
        while k < end
            invariant
                g.wf(),
                start <= k <= end <= len,
                len == g@.len(),
                h == g.head,
                self.head == g.head,
                self.tail == g.tail,
                self.buf.wf(),
                self.buf.spec_capacity() == g.buf.spec_capacity(),
                self.buf@.len() == g.buf@.len(),
                elems@.len() == k - start,
                forall|i: int| 0 <= i < elems@.len() ==> (#[trigger] elems@[i]) == g@[start + i],
                forall|j: int| h <= j < h + start ==> (#[trigger] self.buf@[j]) == g.buf@[j],
                forall|j: int| h + k <= j < h + len ==> (#[trigger] self.buf@[j]) == g.buf@[j],
            decreases end - k,
        {
            let ghost b0 = self.buf@;
            let ghost c = g.buf.spec_capacity() as int;
            let t = self.buf.take(h + k).unwrap();
            elems.push(t);
            proof {
                assert forall|j: int|
                    (h <= j < h + start || h + k + 1 <= j < h + len) implies (
                #[trigger] self.buf@[j]) == g.buf@[j] by {
                    assert(j != h + k - c && j != h + k && j != h + k + c);
                    assert(self.buf@[j] == b0[j]);
                }
            }
            k += 1;
        }
        let gap = end - start;
        let mut m: usize = 0;
        while m < len - end
            invariant
                g.wf(),
                gap == end - start,
                start <= end <= len,
                len == g@.len(),
                0 <= m <= len - end,
                h == g.head,
                self.head == g.head,
                self.tail == g.tail,
                self.buf.wf(),
                self.buf.spec_capacity() == g.buf.spec_capacity(),
                self.buf@.len() == g.buf@.len(),
                forall|j: int| h <= j < h + start ==> (#[trigger] self.buf@[j]) == g.buf@[j],
                forall|j: int|
                    h + start <= j < h + start + m ==> (#[trigger] self.buf@[j]) == g.buf@[j
                        + gap],
                forall|j: int|
                    h + end + m <= j < h + len ==> (#[trigger] self.buf@[j]) == g.buf@[j],
            decreases len - end - m,
        {
            let ghost b0 = self.buf@;
            let ghost c = g.buf.spec_capacity() as int;
            let t = self.buf.take(h + end + m);
            self.buf.set(h + start + m, t);
            proof {
                assert forall|j: int|
                    h + start <= j <= h + start + m implies (#[trigger] self.buf@[j]) == g.buf@[j
                        + gap] by {
                    if j == h + start + m {
                        assert(self.buf@[j] == t);
                    } else {
                        assert(j != h + end + m - c && j != h + end + m && j != h + end + m + c);
                        assert(j != h + start + m - c && j != h + start + m && j != h + start + m
                            + c);
                        assert(self.buf@[j] == b0[j]);
                    }
                }
                assert forall|j: int|
                    (h <= j < h + start || h + end + m + 1 <= j < h + len) implies (
                #[trigger] self.buf@[j]) == g.buf@[j] by {
                    assert(j != h + end + m - c && j != h + end + m && j != h + end + m + c);
                    assert(j != h + start + m - c && j != h + start + m && j != h + start + m + c);
                    assert(self.buf@[j] == b0[j]);
                }
            }
            m += 1;
        }
        self.tail = self.tail - gap;
        proof {
            assert(self.wf());
            assert(elems@ =~= g@.subrange(start as int, end as int));
            assert(self@ =~= g@.subrange(0, start as int) + g@.subrange(
                end as int,
                g@.len() as int,
            ));
        }
        Drain { elems }
    }

    /// Splits the deque in two at `at`: `self` keeps the elements before
    /// `at` (its capacity unchanged), the returned deque holds the elements
    /// from `at` on.
    pub fn split_off(&mut self, at: usize) -> (r: Self)
        requires
            old(self).wf(),
            at <= old(self)@.len(),
            spec_can_allocate::<T>((2 * (old(self)@.len() - at)) as nat),
        ensures
            final(self).wf(),
            r.wf(),
            final(self).spec_capacity() == old(self).spec_capacity(),
            final(self)@ == old(self)@.subrange(0, at as int),
            r@ == old(self)@.subrange(at as int, old(self)@.len() as int),
    {
        let ghost g = *old(self);
        let len = self.len();
        let other_len = len - at;
        let mut other = Self::with_capacity(other_len);
        let h = self.head;
        let mut k: usize = 0;
        while k < other_len
            invariant
                g.wf(),
                at + other_len == len,
                len == g@.len(),
                0 <= k <= other_len,
                h == g.head,
                self.head == g.head,
                self.tail == g.tail,
                self.buf.wf(),
                self.buf.spec_capacity() == g.buf.spec_capacity(),
                self.buf@.len() == g.buf@.len(),
                other.wf(),
                other.spec_capacity() >= other_len,
                other@.len() == k,
                other@ == g@.subrange(at as int, at + k),
                forall|j: int| h <= j < h + at ==> (#[trigger] self.buf@[j]) == g.buf@[j],
                forall|j: int|
                    h + at + k <= j < h + len ==> (#[trigger] self.buf@[j]) == g.buf@[j],
            decreases other_len - k,
        {
            let ghost b0 = self.buf@;
            let ghost c = g.buf.spec_capacity() as int;
            let t = self.buf.take(h + at + k).unwrap();
            other.push_back(t);
            proof {
                assert forall|j: int|
                    (h <= j < h + at || h + at + k + 1 <= j < h + len) implies (
                #[trigger] self.buf@[j]) == g.buf@[j] by {
                    assert(j != h + at + k - c && j != h + at + k && j != h + at + k + c);
                    assert(self.buf@[j] == b0[j]);
                }
                assert(other@ =~= g@.subrange(at as int, at + k + 1));
            }
            k += 1;
        }
        self.tail = self.tail - other_len;
        proof {
            assert(self.wf());
            assert(self@ =~= g@.subrange(0, at as int));
        }
        other
    }

    /// Keeps only the elements for which `f` answers `true`, in place and in
    /// order: the result is the original sequence filtered by some flag
    /// sequence that `f` answered.
    pub fn retain<F: Fn(&T) -> bool>(&mut self, f: F)
        requires
            old(self).wf(),
            forall|t: &T| #[trigger] call_requires(f, (t,)),
        ensures
            final(self).wf(),
            final(self).spec_capacity() == old(self).spec_capacity(),
            exists|keep: Seq<bool>|
                {
                    &&& keep.len() == old(self)@.len()
                    &&& (forall|i: int|
                        0 <= i < keep.len() ==> call_ensures(
                            f,
                            (&old(self)@[i],),
                            #[trigger] keep[i],
                        ))
                    &&& final(self)@ == #[trigger] spec_filter(old(self)@, keep)
                },
    {
        let ghost g = *old(self);
        let len = self.len();
        let mut del: usize = 0;
        let mut i: usize = 0;
        let ghost mut keep = Seq::<bool>::empty();
        while i < len
            invariant
                self.wf(),
                self.spec_capacity() == g.spec_capacity(),
                forall|t: &T| #[trigger] call_requires(f, (t,)),
                0 <= del <= i <= len,
                len == g@.len(),
                self@.len() == len,
                keep.len() == i,
                i - del == spec_filter(g@.subrange(0, i as int), keep).len(),
                forall|k: int| 0 <= k < i ==> call_ensures(f, (&g@[k],), #[trigger] keep[k]),
                self@.subrange(0, i - del) == spec_filter(g@.subrange(0, i as int), keep),
                forall|k: int| i <= k < len ==> (#[trigger] self@[k]) == g@[k],
            decreases len - i,
        {
            let ghost s0 = *self;
            proof {
                lemma_filter_len(g@.subrange(0, i as int), keep);
            }
            let keep_i = f(self.get(i).unwrap());
            proof {
                let k0 = keep;
                keep = keep.push(keep_i);
                assert(keep.drop_last() =~= k0);
                assert(g@.subrange(0, i + 1).drop_last() =~= g@.subrange(0, i as int));
            }
            if keep_i {
                if del > 0 {
                    self.swap(i - del, i);
                }
                proof {
                    assert(self@.subrange(0, i + 1 - del) =~= spec_filter(
                        g@.subrange(0, i + 1),
                        keep,
                    ));
                }
            } else {
                del += 1;
                proof {
                    assert(self@.subrange(0, i + 1 - del) =~= s0@.subrange(0, i + 1 - del));
                    assert(self@.subrange(0, i + 1 - del) =~= spec_filter(
                        g@.subrange(0, i + 1),
                        keep,
                    ));
                }
            }
            i += 1;
        }
        let ghost l = *self;
        self.truncate(len - del);
        proof {
            assert(g@.subrange(0, len as int) =~= g@);
            if del == 0 {
                assert(self@ =~= l@.subrange(0, (len - del) as int));
            }
            assert(self@ == spec_filter(g@, keep));
        }
    }

    /// Removes and returns the last element, or `None` if the deque is
    /// empty.
    pub fn pop_back(&mut self) -> (r: Option<T>)
        requires
            old(self).wf(),
        ensures
            final(self).wf(),
            final(self).spec_capacity() == old(self).spec_capacity(),
            old(self)@.len() == 0 ==> r is None && final(self)@ == old(self)@,
            old(self)@.len() > 0 ==> r == Some(old(self)@[old(self)@.len() - 1]) && final(self)@
                == old(self)@.subrange(0, old(self)@.len() - 1),
    {
        if self.is_empty() {
            return None;
        }
        let t = self.tail - 1;
        let r = self.buf.take(t);
        self.tail = t;
        proof {
            assert(self@ =~= old(self)@.subrange(0, old(self)@.len() - 1));
        }
        r
    }
}

/// One structural deque operation, as the naive sequence model sees it.
pub enum DequeOp<T> {
    /// Append at the back.
    PushBack(T),
    /// Prepend at the front.
    PushFront(T),
    /// Remove at the back.
    PopBack,
    /// Remove at the front.
    PopFront,
    /// Insert at an index.
    Insert(usize, T),
    /// Remove at an index.
    Remove(usize),
}

/// What the naive sequence model (a plain growable array) answers for one
/// operation: the new contents, and the element handed back.
pub open spec fn spec_model_step<T>(s: Seq<T>, op: DequeOp<T>) -> (Seq<T>, Option<T>) {
    match op {
        DequeOp::PushBack(v) => (s.push(v), None),
        DequeOp::PushFront(v) => (seq![v] + s, None),
        DequeOp::PopBack => if s.len() == 0 {
            (s, None)
        } else {
            (s.drop_last(), Some(s.last()))
        },
        DequeOp::PopFront => if s.len() == 0 {
            (s, None)
        } else {
            (s.subrange(1, s.len() as int), Some(s[0]))
        },
        DequeOp::Insert(i, v) => (s.insert(i as int, v), None),
        DequeOp::Remove(i) => (s.remove(i as int), Some(s[i as int])),
    }
}

impl<T> SliceDeque<T> {
    /// The machine-imposed precondition of one operation: an index in range,
    /// and room (or a growable buffer) for an insertion.
    pub open spec fn spec_op_allowed(&self, op: DequeOp<T>) -> bool {
        match op {
            DequeOp::PushBack(_) => self.spec_push_ok(),
            DequeOp::PushFront(_) => self.spec_push_ok(),
            DequeOp::PopBack => true,
            DequeOp::PopFront => true,
            DequeOp::Insert(i, _) => i <= self@.len() && self.spec_push_ok(),
            DequeOp::Remove(i) => i < self@.len(),
        }
    }

    /// Model equivalence: one operation changes the deque's contents exactly
    /// as the naive sequence model prescribes and hands back the same
    /// element, so any sequence of operations leaves the deque's length,
    /// front, back and indexed contents equal to the model's.
    pub fn apply_op(&mut self, op: DequeOp<T>) -> (r: Option<T>)
        requires
            old(self).wf(),
            old(self).spec_op_allowed(op),
        ensures
            final(self).wf(),
            final(self)@ == spec_model_step(old(self)@, op).0,
            r == spec_model_step(old(self)@, op).1,
    {
        match op {
            DequeOp::PushBack(v) => {
                self.push_back(v);
                None
            },
            DequeOp::PushFront(v) => {
                self.push_front(v);
                None
            },
            DequeOp::PopBack => {
                let r = self.pop_back();
                proof {
                    if old(self)@.len() > 0 {
                        assert(final(self)@ =~= old(self)@.drop_last());
                    }
                }
                r
            },
            DequeOp::PopFront => self.pop_front(),
            DequeOp::Insert(i, v) => {
                self.insert(i, v);
                None
            },
            DequeOp::Remove(i) => { Some(self.remove(i)) },
        }
    }
}

/// The elements that repeated `pop_front` calls yield from a deque holding
/// `s`: by `pop_front`'s contract, each call hands out the front of the
/// remainder.
pub open spec fn spec_pops_front<T>(s: Seq<T>) -> Seq<T>
    decreases s.len(),
{
    if s.len() == 0 {
        Seq::empty()
    } else {
        seq![s[0]] + spec_pops_front(s.subrange(1, s.len() as int))
    }
}

/// The elements that repeated `pop_back` calls yield from a deque holding
/// `s`: by `pop_back`'s contract, each call hands out the back of the
/// remainder.
pub open spec fn spec_pops_back<T>(s: Seq<T>) -> Seq<T>
    decreases s.len(),
{
    if s.len() == 0 {
        Seq::empty()
    } else {
        seq![s.last()] + spec_pops_back(s.drop_last())
    }
}

/// Round trip: a deque holding `v1..vn` — as one holds after pushing them at
/// the back of an empty deque, by `push_back`'s contract — yields exactly
/// `v1..vn` when drained by `pop_front`, and exactly the reverse when
/// drained by `pop_back`.
pub proof fn lemma_round_trip<T>(s: Seq<T>)
    ensures
        spec_pops_front(s) == s,
        spec_pops_back(s) == s.reverse(),
    decreases s.len(),
{
    if s.len() == 0 {
        assert(spec_pops_front(s) =~= s);
        assert(spec_pops_back(s) =~= s.reverse());
    } else {
        lemma_round_trip(s.subrange(1, s.len() as int));
        lemma_round_trip(s.drop_last());
        assert(spec_pops_front(s) =~= s);
        assert(spec_pops_back(s) =~= s.reverse());
    }
}

/// The size invariant of every reachable deque: each constructor establishes
/// well-formedness and each operation preserves it, and it bounds the length
/// by the capacity, which is exactly half the mirrored buffer's length.
pub proof fn lemma_size_invariant<T>(d: &SliceDeque<T>)
    requires
        d.wf(),
    ensures
        0 <= d@.len() <= d.spec_capacity(),
        2 * d.spec_capacity() == d.spec_buffer_len(),
{
}

impl<T> Default for SliceDeque<T> {
    /// The empty deque.
    fn default() -> (r: Self)
        ensures
            r.wf(),
            r@ == Seq::<T>::empty(),
            r.spec_capacity() == 0,
    {
        Self::new()
    }
}

} // verus!
