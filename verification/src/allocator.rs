//! The allocation layer: the platform allocation granularity, the byte-size
//! arithmetic shared by every buffer, and the error taxonomy of allocation.

use vstd::prelude::*;
use vstd::arithmetic::div_mod::{lemma_div_is_ordered, lemma_div_nonincreasing,
                                lemma_fundamental_div_mod, lemma_div_multiples_vanish,
                                lemma_mod_multiples_basic};
use vstd::arithmetic::mul::lemma_mul_inequality;
use std::collections::HashMap;
use crate::bytes::Bytes;

verus! {

broadcast use vstd::std_specs::hash::group_hash_axioms;

/// Smallest allocation unit of the supported platform, in bytes: mirrored
/// mappings are made of whole 4 KiB pages.
pub const ALLOCATION_GRANULARITY: usize = 4096;

/// Smallest allocation size of the operating system.
pub fn allocation_granularity() -> (r: usize)
    ensures
        r == ALLOCATION_GRANULARITY,
{
    ALLOCATION_GRANULARITY
}

/// How an allocation request can fail.
#[derive(Clone, Copy, Debug, PartialEq, Eq, Structural)]
pub enum AllocError {
    /// The operating system declined to provide memory; recoverable, the
    /// caller decides how to react.
    AllocationFailure,
    /// The mirroring race failed to resolve within the bounded retry count;
    /// fatal, since partially mirrored state cannot be carried as a value.
    MirrorRaceExhausted,
}

/// The addresses of the records in `rs` whose size is exactly `s`, in order.
pub open spec fn spec_addrs_of(rs: Seq<Bytes>, s: usize) -> Seq<usize>
    decreases rs.len(),
{
    if rs.len() == 0 {
        Seq::empty()
    } else {
        let prefix = spec_addrs_of(rs.drop_last(), s);
        if rs.last().spec_size() == s {
            prefix.push(rs.last().spec_addr())
        } else {
            prefix
        }
    }
}

/// Appending one record extends exactly its own size's address list.
proof fn lemma_addrs_of_push(rs: Seq<Bytes>, b: Bytes, s: usize)
    ensures
        b.spec_size() == s ==> spec_addrs_of(rs.push(b), s) == spec_addrs_of(rs, s).push(
            b.spec_addr(),
        ),
        b.spec_size() != s ==> spec_addrs_of(rs.push(b), s) == spec_addrs_of(rs, s),
{
    assert(rs.push(b).drop_last() =~= rs);
    assert(rs.push(b).last() == b);
}

/// Previously released mirrored regions, pooled for reuse and keyed by their
/// exact byte size.
pub struct Cache {
    /// Regions of the smallest possible size, `2 * allocation_granularity()`
    /// bytes, kept apart from the map since they are the most common.
    smallest: Vec<usize>,
    /// Regions of every other size, keyed by exact byte size.
    other: HashMap<usize, Vec<usize>>,
    /// Every size that was ever given a bucket in `other`; `release` walks
    /// this list, since the map itself cannot be walked.
    sizes: Vec<usize>,
}

impl Cache {
    /// The cached base addresses of the regions of exactly `size` bytes,
    /// oldest first.
    pub closed spec fn spec_cached(&self, size: usize) -> Seq<usize> {
        if size == 2 * ALLOCATION_GRANULARITY {
            self.smallest@
        } else if self.other@.contains_key(size) {
            self.other@[size]@
        } else {
            Seq::empty()
        }
    }

    /// The bookkeeping invariant: the smallest size has no bucket in the
    /// map, and every bucket's size stands in the size list.
    pub closed spec fn wf(&self) -> bool {
        &&& !self.other@.contains_key((2 * ALLOCATION_GRANULARITY) as usize)
        &&& forall|s: usize| self.other@.contains_key(s) ==> #[trigger] self.sizes@.contains(s)
    }

    /// Creates a new empty cache.
    pub fn new() -> (r: Self)
        ensures
            r.wf(),
            forall|s: usize| (#[trigger] r.spec_cached(s)).len() == 0,
    {
        let r = Cache { smallest: Vec::new(), other: HashMap::new(), sizes: Vec::new() };
        proof {
            assert forall|s: usize| (#[trigger] r.spec_cached(s)).len() == 0 by {}
        }
        r
    }

    /// Removes and returns the most recently cached address of a region of
    /// exactly `size` bytes, or `None` if none is pooled.
    pub fn pop(&mut self, size: usize) -> (r: Option<usize>)
        requires
            old(self).wf(),
        ensures
            final(self).wf(),
            old(self).spec_cached(size).len() == 0 ==> r is None,
            old(self).spec_cached(size).len() > 0 ==> r == Some(old(self).spec_cached(size).last())
                && final(self).spec_cached(size) == old(self).spec_cached(size).drop_last(),
            forall|s: usize|
                s != size ==> #[trigger] final(self).spec_cached(s) == old(self).spec_cached(s),
            r is None ==> forall|s: usize|
                #[trigger] final(self).spec_cached(s) == old(self).spec_cached(s),
    {
        if size == 2 * ALLOCATION_GRANULARITY {
            let r = self.smallest.pop();
            proof {
                if old(self).spec_cached(size).len() > 0 {
                    assert(self.spec_cached(size) =~= old(self).spec_cached(
                        size,
                    ).drop_last());
                }
            }
            return r;
        }
        match self.other.remove(&size) {
            None => None,
            Some(v) => {
                let mut v = v;
                let r = v.pop();
                self.other.insert(size, v);
                proof {
                    if old(self).spec_cached(size).len() > 0 {
                        assert(self.spec_cached(size) =~= old(self).spec_cached(
                            size,
                        ).drop_last());
                    } else {
                        assert(self.spec_cached(size) =~= old(self).spec_cached(size));
                    }
                    assert forall|s: usize| s != size implies #[trigger] self.spec_cached(s)
                        == old(self).spec_cached(s) by {}
                }
                r
            },
        }
    }

    /// Pools a released region of `size` bytes at `addr` for future reuse;
    /// the cache accepts every region, so this always answers `true`.
    pub fn push(&mut self, addr: usize, size: usize) -> (r: bool)
        requires
            old(self).wf(),
        ensures
            final(self).wf(),
            r == true,
            final(self).spec_cached(size) == old(self).spec_cached(size).push(addr),
            forall|s: usize|
                s != size ==> #[trigger] final(self).spec_cached(s) == old(self).spec_cached(s),
    {
        if size == 2 * ALLOCATION_GRANULARITY {
            self.smallest.push(addr);
            return true;
        }
        let bucket = self.other.remove(&size);
        match bucket {
            None => {
                let mut v: Vec<usize> = Vec::new();
                v.push(addr);
                self.sizes.push(size);
                self.other.insert(size, v);
                proof {
                    assert(self.spec_cached(size) =~= old(self).spec_cached(size).push(addr));
                    assert forall|s: usize|
                        self.other@.contains_key(s) implies #[trigger] self.sizes@.contains(s) by {
                        if s == size {
                            assert(self.sizes@.last() == size);
                        } else {
                            assert(old(self).sizes@.contains(s));
                            let i = choose|i: int|
                                0 <= i < old(self).sizes@.len() && old(self).sizes@[i] == s;
                            assert(self.sizes@[i] == s);
                        }
                    }
                }
                true
            },
            Some(v) => {
                let mut v = v;
                v.push(addr);
                self.other.insert(size, v);
                proof {
                    assert(self.spec_cached(size) =~= old(self).spec_cached(size).push(addr));
                }
                true
            },
        }
    }
}

/// Empties the cache and hands every pooled region back to the caller, who
/// must return each one to the platform backend: nothing may leak at
/// teardown. For every size, the returned records carry exactly the
/// addresses the cache held for it.
pub fn release(cache: &mut Cache) -> (r: Vec<Bytes>)
    requires
        old(cache).wf(),
    ensures
        final(cache).wf(),
        forall|s: usize| (#[trigger] final(cache).spec_cached(s)).len() == 0,
        forall|s: usize| #[trigger] spec_addrs_of(r@, s) == old(cache).spec_cached(s),
{
    let small = 2 * ALLOCATION_GRANULARITY;
    let mut out: Vec<Bytes> = Vec::new();
    let n = cache.smallest.len();
    let mut k: usize = 0;
    while k < n
        invariant
            *cache == *old(cache),
            cache.wf(),
            small == 2 * ALLOCATION_GRANULARITY,
            n == cache.smallest@.len(),
            0 <= k <= n,
            forall|s: usize|
                #[trigger] spec_addrs_of(out@, s) == if s == small {
                    old(cache).spec_cached(small as usize).subrange(0, k as int)
                } else {
                    Seq::<usize>::empty()
                },
        decreases n - k,
    {
        let ghost b0 = out@;
        let a = cache.smallest[k];
        out.push(Bytes::new(a, small));
        proof {
            assert forall|s: usize|
                #[trigger] spec_addrs_of(out@, s) == (if s == small {
                    old(cache).spec_cached(small as usize).subrange(0, k + 1)
                } else {
                    Seq::<usize>::empty()
                }) by {
                lemma_addrs_of_push(b0, out@.last(), s);
                if s == small {
                    assert(spec_addrs_of(out@, s) =~= old(cache).spec_cached(
                        small as usize,
                    ).subrange(0, k + 1));
                }
            }
        }
        k += 1;
    }
    cache.smallest = Vec::new();
    proof {
        assert forall|s: usize|
            #[trigger] spec_addrs_of(out@, s) + cache.spec_cached(s) == old(cache).spec_cached(
            s,
        ) by {
            if s == small {
                assert(old(cache).spec_cached(s).subrange(0, n as int) =~= old(cache).spec_cached(
                    s,
                ));
                assert(spec_addrs_of(out@, s) + cache.spec_cached(s) =~= old(cache).spec_cached(s));
            } else {
                assert(spec_addrs_of(out@, s) + cache.spec_cached(s) =~= old(cache).spec_cached(s));
            }
        }
    }
    while cache.sizes.len() > 0
        invariant
            small == 2 * ALLOCATION_GRANULARITY,
            cache.smallest@.len() == 0,
            !cache.other@.contains_key(small as usize),
            forall|s: usize| cache.other@.contains_key(s) ==> #[trigger] cache.sizes@.contains(s),
            forall|s: usize|
                #[trigger] spec_addrs_of(out@, s) + cache.spec_cached(s) == old(cache).spec_cached(
                    s,
                ),
        decreases cache.sizes@.len(),
    {
        let ghost sizes0 = cache.sizes@;
        let size = match cache.sizes.pop() {
            Some(s) => s,
            None => unreached(),
        };
        let bucket = cache.other.remove(&size);
        proof {
            assert forall|s: usize|
                cache.other@.contains_key(s) implies #[trigger] cache.sizes@.contains(s) by {
                assert(sizes0.contains(s));
                let i = choose|i: int| 0 <= i < sizes0.len() && sizes0[i] == s;
                assert(i < sizes0.len() - 1);
                assert(cache.sizes@[i] == s);
            }
        }
        match bucket {
            None => {
                proof {
                    assert forall|s: usize|
                        #[trigger] spec_addrs_of(out@, s) + cache.spec_cached(s) == old(
                            cache,
                        ).spec_cached(s) by {}
                }
            },
            Some(v) => {
                let ghost out_pre = out@;
                let m = v.len();
                let mut j: usize = 0;
                while j < m
                    invariant
                        small == 2 * ALLOCATION_GRANULARITY,
                        size != small,
                        cache.smallest@.len() == 0,
                        !cache.other@.contains_key(small as usize),
                        !cache.other@.contains_key(size),
                        forall|s: usize|
                            cache.other@.contains_key(s) ==> #[trigger] cache.sizes@.contains(s),
                        0 <= j <= m,
                        m == v@.len(),
                        forall|s: usize|
                            s != size ==> #[trigger] spec_addrs_of(out@, s) + cache.spec_cached(s)
                                == old(cache).spec_cached(s),
                        spec_addrs_of(out@, size) + v@.subrange(j as int, m as int) == old(
                            cache,
                        ).spec_cached(size),
                    decreases m - j,
                {
                    let ghost b0 = out@;
                    let a = v[j];
                    out.push(Bytes::new(a, size));
                    proof {
                        assert forall|s: usize|
                            s != size implies #[trigger] spec_addrs_of(out@, s)
                            + cache.spec_cached(s) == old(cache).spec_cached(s) by {
                            lemma_addrs_of_push(b0, out@.last(), s);
                        }
                        lemma_addrs_of_push(b0, out@.last(), size);
                        assert(spec_addrs_of(out@, size) + v@.subrange(j + 1, m as int)
                            =~= spec_addrs_of(b0, size) + v@.subrange(j as int, m as int));
                    }
                    j += 1;
                }
                proof {
                    assert(v@.subrange(m as int, m as int) =~= Seq::<usize>::empty());
                    assert(spec_addrs_of(out@, size) =~= spec_addrs_of(out@, size) + v@.subrange(
                        m as int,
                        m as int,
                    ));
                    assert forall|s: usize|
                        #[trigger] spec_addrs_of(out@, s) + cache.spec_cached(s) == old(
                            cache,
                        ).spec_cached(s) by {
                        if s == size {
                            assert(cache.spec_cached(size) =~= Seq::<usize>::empty());
                            assert(spec_addrs_of(out@, size) + cache.spec_cached(size)
                                =~= spec_addrs_of(out@, size) + v@.subrange(m as int, m as int));
                        }
                    }
                }
            },
        }
    }
    proof {
        assert forall|s: usize| (#[trigger] cache.spec_cached(s)).len() == 0 by {
            if s != small && cache.other@.contains_key(s) {
                assert(cache.sizes@.contains(s));
            }
        }
        assert forall|s: usize| #[trigger] spec_addrs_of(out@, s) == old(cache).spec_cached(s) by {
            assert(spec_addrs_of(out@, s) + cache.spec_cached(s) =~= spec_addrs_of(out@, s));
        }
    }
    out
}

/// Tries to serve a mirrored region of `size` bytes from the cache: the most
/// recently released region of exactly that size, if any is pooled. `None`
/// sends the caller to the platform backend for a fresh mapping.
pub fn allocate_mirrored(cache: &mut Cache, size: usize) -> (r: Option<usize>)
    requires
        old(cache).wf(),
    ensures
        final(cache).wf(),
        old(cache).spec_cached(size).len() == 0 ==> r is None,
        old(cache).spec_cached(size).len() > 0 ==> r == Some(old(cache).spec_cached(size).last())
            && final(cache).spec_cached(size) == old(cache).spec_cached(size).drop_last(),
        forall|s: usize|
            s != size ==> #[trigger] final(cache).spec_cached(s) == old(cache).spec_cached(s),
        r is None ==> forall|s: usize|
            #[trigger] final(cache).spec_cached(s) == old(cache).spec_cached(s),
{
    cache.pop(size)
}

/// Returns a released mirrored region of `size` bytes at `addr` to the
/// cache; nothing is ever dropped on the floor.
pub fn deallocate_mirrored(cache: &mut Cache, addr: usize, size: usize)
    requires
        old(cache).wf(),
    ensures
        final(cache).wf(),
        final(cache).spec_cached(size) == old(cache).spec_cached(size).push(addr),
        forall|s: usize|
            s != size ==> #[trigger] final(cache).spec_cached(s) == old(cache).spec_cached(s),
{
    let accepted = cache.push(addr, size);
    proof {
        assert(accepted);
    }
}

/// Number of allocation units that hold `bytes`: at least enough whole units
/// to cover `bytes`, at least one, and rounded up to an even count so the
/// allocation splits into two mirrored halves.
pub open spec fn spec_required_units(bytes: nat) -> nat {
    let g = ALLOCATION_GRANULARITY as nat;
    let q = if bytes % g == 0 {
        bytes / g
    } else {
        bytes / g + 1
    };
    let q1 = if q == 0 {
        1nat
    } else {
        q
    };
    if q1 % 2 == 0 {
        q1
    } else {
        q1 + 1
    }
}

/// The units always make an even, positive count that covers the request.
pub proof fn lemma_units_cover(bytes: nat)
    ensures
        spec_required_units(bytes) % 2 == 0,
        spec_required_units(bytes) >= 2,
        spec_required_units(bytes) * ALLOCATION_GRANULARITY >= bytes,
{
    let g = ALLOCATION_GRANULARITY as int;
    let u = spec_required_units(bytes) as int;
    lemma_fundamental_div_mod(bytes as int, g);
    let q = if bytes % (g as nat) == 0 {
        bytes as int / g
    } else {
        bytes as int / g + 1
    };
    assert(q * g >= bytes) by (nonlinear_arith)
        requires
            g > 0,
            bytes as int == g * (bytes as int / g) + bytes as int % g,
            0 <= bytes as int % g < g,
            q == if bytes as int % g == 0 {
                bytes as int / g
            } else {
                bytes as int / g + 1
            },
    ;
    lemma_mul_inequality(q, u, g);
}

/// More bytes never need fewer units.
pub proof fn lemma_units_monotonic(a: nat, b: nat)
    requires
        a <= b,
    ensures
        spec_required_units(a) <= spec_required_units(b),
{
    let g = ALLOCATION_GRANULARITY as int;
    lemma_div_is_ordered(a as int, b as int, g);
    if a as int / g == b as int / g && a % (g as nat) != 0 && b % (g as nat) == 0 {
        lemma_fundamental_div_mod(a as int, g);
        lemma_fundamental_div_mod(b as int, g);
    }
}

/// A whole even number of units rounds to itself.
pub proof fn lemma_units_fixed_point(u: nat)
    requires
        u % 2 == 0,
        u >= 2,
    ensures
        spec_required_units(u * (ALLOCATION_GRANULARITY as nat)) == u,
{
    let g = ALLOCATION_GRANULARITY as int;
    lemma_div_multiples_vanish(u as int, g);
    lemma_mod_multiples_basic(u as int, g);
}

/// Number of allocation units required to hold `bytes`.
pub fn no_required_allocation_units(bytes: usize) -> (r: usize)
    ensures
        r == spec_required_units(bytes as nat),
        r % 2 == 0,
        r >= 2,
{
    proof {
        lemma_units_cover(bytes as nat);
        lemma_div_nonincreasing(bytes as int, ALLOCATION_GRANULARITY as int);
    }
    let g = ALLOCATION_GRANULARITY;
    let q = bytes / g + (if bytes % g == 0 {
        0
    } else {
        1
    });
    let q1 = if q == 0 {
        1
    } else {
        q
    };
    if q1 % 2 == 0 {
        q1
    } else {
        q1 + 1
    }
}

} // verus!
