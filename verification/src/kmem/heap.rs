//! Kernel heap: a first-fit linked-list allocator.
//!
//! The heap consists of three layers:
//!
//! ```text
//!     Kernel allocation
//!            |
//!            v
//!     Linked-list allocator
//!            |
//!            v
//!     Virtual heap pages
//!            |
//!            v
//!     Physical frames
//! ```
//!
//! Free memory is a list of free regions, each of which holds its own list
//! node. Here the list is kept as a sequence of `(start, size)` pairs in
//! list order, head first; the allocator hands out addresses and never
//! reads or writes the memory behind them.

use vstd::prelude::*;
use vstd::arithmetic::power2::{
    pow2, lemma2_to64, lemma_pow2_pos, lemma_pow2_adds, lemma_pow2_strictly_increases,
};
use vstd::arithmetic::div_mod::{lemma_fundamental_div_mod, lemma_mod_multiples_basic};
use vstd::bits::{low_bits_mask, lemma_usize_low_bits_mask_is_mod};

verus! {

/// Start address of the kernel heap.
pub const HEAP_START: u64 = 0x_4444_4444_0000;

/// Initial kernel heap size: 100 MiB.
pub const HEAP_SIZE: u64 = 104857600;

/// Size of the list node that heads every free region.
pub const LIST_NODE_SIZE: usize = 16;

/// Alignment of the list node that heads every free region.
pub const LIST_NODE_ALIGN: usize = 8;

/// Whether `a` is a power of two that a `usize` can hold.
pub open spec fn power_of_two(a: int) -> bool {
    exists|n: nat| n < usize::BITS && #[trigger] pow2(n) == a
}

/// `addr` rounded up to a multiple of `align`.
pub open spec fn round_up(addr: int, align: int) -> int {
    align * ((addr + align - 1) / align)
}

/// The larger of two sizes.
pub open spec fn max_usize(a: usize, b: usize) -> usize {
    if a >= b {
        a
    } else {
        b
    }
}

/// The layout the allocator really uses for a request of `size` bytes
/// aligned to `align`: at least a list node's size and alignment, so that
/// the block can hold a node once it is freed. `None` when the rounded-up
/// size would not fit in an `isize`, which no layout may exceed.
pub open spec fn spec_adjust_layout(size: usize, align: usize) -> Option<(usize, usize)> {
    let s = max_usize(size, LIST_NODE_SIZE);
    let a = max_usize(align, LIST_NODE_ALIGN);
    if s + a - 1 <= isize::MAX {
        Some((s, a))
    } else {
        None
    }
}

/// Where a block of `size` bytes aligned to `align` starts inside the free
/// region `region`, if it fits there without leaving a remainder too small
/// to hold a list node.
pub open spec fn fit_in_region(region: (usize, usize), size: usize, align: usize) -> Option<int> {
    let start = round_up(region.0 as int, align as int);
    let end = start + size;
    let region_end = region.0 + region.1;
    if end > usize::MAX || region_end > usize::MAX || end > region_end || (0 < region_end - end
        < LIST_NODE_SIZE) {
        None
    } else {
        Some(start)
    }
}

/// Whether region `i` is the first one in which the block fits.
pub open spec fn is_first_fit(regions: Seq<(usize, usize)>, size: usize, align: usize, i: int) -> bool {
    &&& 0 <= i < regions.len()
    &&& fit_in_region(regions[i], size, align) is Some
    &&& forall|j: int| 0 <= j < i ==> #[trigger] fit_in_region(regions[j], size, align) is None
}

/// The first region in which the block fits, if any.
pub open spec fn first_fit(regions: Seq<(usize, usize)>, size: usize, align: usize) -> Option<int> {
    if exists|i: int| #[trigger] is_first_fit(regions, size, align, i) {
        Some(choose|i: int| #[trigger] is_first_fit(regions, size, align, i))
    } else {
        None
    }
}

/// The first fitting region is unique.
proof fn lemma_first_fit_is(regions: Seq<(usize, usize)>, size: usize, align: usize, i: int)
    requires
        is_first_fit(regions, size, align, i),
    ensures
        first_fit(regions, size, align) == Some(i),
{
    let k = choose|k: int| #[trigger] is_first_fit(regions, size, align, k);
    if k < i {
        assert(fit_in_region(regions[k], size, align) is None);
    } else if k > i {
        assert(fit_in_region(regions[i], size, align) is None);
    }
}

/// The free regions after handing out a block from region `i`: what is
/// left behind the block stays a free region when it can hold a list
/// node, and is handed out with the block otherwise.
pub open spec fn after_fit(regions: Seq<(usize, usize)>, i: int, size: usize, start: int) -> Seq<
    (usize, usize),
> {
    let end = start + size;
    let excess = regions[i].0 + regions[i].1 - end;
    if excess >= LIST_NODE_SIZE {
        regions.update(i, (end as usize, excess as usize))
    } else {
        regions.remove(i)
    }
}

/// The outcome of a request of `size` bytes aligned to `align` on a heap
/// that has its memory and whose free regions are `v`: the address handed
/// out, 0 when the request cannot be represented or nothing fits, and the
/// free regions afterwards.
pub open spec fn spec_allocate(v: Seq<(usize, usize)>, size: usize, align: usize) -> (usize, Seq<
    (usize, usize),
>) {
    match spec_adjust_layout(size, align) {
        None => (0, v),
        Some((s, a)) => match first_fit(v, s, a) {
            None => (0, v),
            Some(i) => {
                let start = fit_in_region(v[i], s, a)->Some_0;
                (start as usize, after_fit(v, i, s, start))
            },
        },
    }
}

/// The free regions after returning the block at `ptr` that was requested
/// as `size` bytes aligned to `align`.
pub open spec fn spec_deallocate(v: Seq<(usize, usize)>, ptr: usize, size: usize, align: usize) -> Seq<
    (usize, usize),
> {
    if ptr == 0 {
        v
    } else {
        match spec_adjust_layout(size, align) {
            None => v,
            Some((s, a)) => seq![(ptr, s)] + v,
        }
    }
}

/// Whether the free regions are pairwise disjoint and each ends inside the
/// address space.
pub open spec fn disjoint_regions(v: Seq<(usize, usize)>) -> bool {
    &&& forall|i: int| 0 <= i < v.len() ==> #[trigger] v[i].0 + v[i].1 <= usize::MAX
    &&& forall|i: int, j: int|
        0 <= i < v.len() && 0 <= j < v.len() && i != j ==> #[trigger] v[i].0 + v[i].1 <= #[trigger] v[j].0
            || v[j].0 + v[j].1 <= v[i].0
}

/// A power of two at least as large as another is one of its multiples.
proof fn lemma_pow2_multiple(small: usize, large: usize) -> (c: int)
    requires
        power_of_two(small as int),
        power_of_two(large as int),
        small <= large,
    ensures
        c > 0,
        large == small * c,
{
    let n0 = choose|n: nat| n < usize::BITS && #[trigger] pow2(n) == small;
    let n1 = choose|n: nat| n < usize::BITS && #[trigger] pow2(n) == large;
    if n1 < n0 {
        lemma_pow2_strictly_increases(n1, n0);
    }
    let d = (n1 - n0) as nat;
    lemma_pow2_adds(n0, d);
    lemma_pow2_pos(d);
    assert(large == small * pow2(d));
    pow2(d) as int
}

/// Every address the heap hands out is aligned to the requested power of
/// two.
pub proof fn law_allocation_aligned(v: Seq<(usize, usize)>, size: usize, align: usize)
    requires
        power_of_two(align as int),
    ensures
        spec_allocate(v, size, align).0 != 0 ==> spec_allocate(v, size, align).0 % align == 0,
{
    if let Some((s, a)) = spec_adjust_layout(size, align) {
        if let Some(i) = first_fit(v, s, a) {
            assert(is_first_fit(v, s, a, i));
            lemma2_to64();
            assert(power_of_two(a as int)) by {
                if a == LIST_NODE_ALIGN {
                    assert(pow2(3) == a);
                }
            }
            let c = lemma_pow2_multiple(align, a);
            let k = (v[i].0 + a - 1) / (a as int);
            let start = fit_in_region(v[i], s, a)->Some_0;
            assert(start == a * k);
            assert(a * k == (c * k) * align) by (nonlinear_arith)
                requires
                    a == align * c,
            ;
            lemma_pow2_pos(choose|n: nat| n < usize::BITS && #[trigger] pow2(n) == align);
            lemma_mod_multiples_basic(c * k, align as int);
        }
    }
}

/// Freeing a block and then asking for the same layout again hands back
/// the same block and leaves the free regions as they were before the
/// block was freed.
pub proof fn law_freed_block_reused(v: Seq<(usize, usize)>, ptr: usize, size: usize, align: usize)
    requires
        power_of_two(align as int),
        ptr != 0,
        spec_adjust_layout(size, align) matches Some((s, a)) && ptr % a == 0 && ptr + s
            <= usize::MAX,
    ensures
        spec_allocate(spec_deallocate(v, ptr, size, align), size, align) == (ptr, v),
{
    let (s, a) = spec_adjust_layout(size, align)->Some_0;
    let w = spec_deallocate(v, ptr, size, align);
    assert(w[0] == (ptr, s));
    let q = ptr / a;
    lemma_fundamental_div_mod(ptr as int, a as int);
    assert((ptr + a - 1) / (a as int) == q) by (nonlinear_arith)
        requires
            ptr == a * q,
            a > 0,
    ;
    assert(fit_in_region(w[0], s, a) == Some(ptr as int));
    assert(is_first_fit(w, s, a, 0));
    lemma_first_fit_is(w, s, a, 0);
    assert(w.remove(0) =~= v);
}

/// The block handed out by an allocation lies inside the region it came
/// from, and the free regions afterwards stay pairwise disjoint and do not
/// overlap the block.
pub proof fn law_allocation_disjoint(v: Seq<(usize, usize)>, size: usize, align: usize)
    requires
        power_of_two(align as int),
        disjoint_regions(v),
    ensures
        ({
            let (r, w) = spec_allocate(v, size, align);
            let s = spec_adjust_layout(size, align)->Some_0.0;
            &&& disjoint_regions(w)
            &&& r != 0 ==> forall|j: int|
                0 <= j < w.len() ==> #[trigger] w[j].0 + w[j].1 <= r || r + s <= w[j].0
        }),
{
    if let Some((s, a)) = spec_adjust_layout(size, align) {
        if let Some(i) = first_fit(v, s, a) {
            assert(is_first_fit(v, s, a, i));
            let start = fit_in_region(v[i], s, a)->Some_0;
            lemma_fundamental_div_mod(v[i].0 + a - 1, a as int);
            assert(start >= v[i].0);
            let w = after_fit(v, i, s, start);
            let end = start + s;
            let excess = v[i].0 + v[i].1 - end;
            if excess >= LIST_NODE_SIZE {
                assert forall|j: int| 0 <= j < w.len() implies #[trigger] w[j].0 + w[j].1
                    <= usize::MAX by {
                    let _ = v[j];
                }
                assert forall|j: int, k: int|
                    0 <= j < w.len() && 0 <= k < w.len() && j != k implies #[trigger] w[j].0
                    + w[j].1 <= #[trigger] w[k].0 || w[k].0 + w[k].1 <= w[j].0 by {
                    let _ = v[j];
                    let _ = v[k];
                }
                assert forall|j: int| 0 <= j < w.len() implies #[trigger] w[j].0 + w[j].1
                    <= start || start + s <= w[j].0 by {
                    let _ = v[j];
                    let _ = v[i];
                }
            } else {
                assert forall|j: int| 0 <= j < w.len() implies #[trigger] w[j].0 + w[j].1
                    <= usize::MAX by {
                    if j < i {
                        let _ = v[j];
                    } else {
                        let _ = v[j + 1];
                    }
                }
                assert forall|j: int, k: int|
                    0 <= j < w.len() && 0 <= k < w.len() && j != k implies #[trigger] w[j].0
                    + w[j].1 <= #[trigger] w[k].0 || w[k].0 + w[k].1 <= w[j].0 by {
                    let jj = if j < i { j } else { j + 1 };
                    let kk = if k < i { k } else { k + 1 };
                    assert(w[j] == v[jj]);
                    assert(w[k] == v[kk]);
                    let _ = v[jj];
                    let _ = v[kk];
                }
                assert forall|j: int| 0 <= j < w.len() implies #[trigger] w[j].0 + w[j].1
                    <= start || start + s <= w[j].0 by {
                    let jj = if j < i { j } else { j + 1 };
                    assert(w[j] == v[jj]);
                    let _ = v[jj];
                    let _ = v[i];
                }
            }
        }
    }
}

/// Regions of `t` that each lie inside a region of `u`, picked by `f`,
/// are disjoint when `u`'s are, as long as two of them that lie inside the
/// same region of `u` are disjoint themselves.
proof fn lemma_disjoint_within(u: Seq<(usize, usize)>, t: Seq<(usize, usize)>, f: spec_fn(int) -> int)
    requires
        disjoint_regions(u),
        forall|j: int|
            0 <= j < t.len() ==> 0 <= #[trigger] f(j) < u.len() && u[f(j)].0 <= t[j].0 && t[j].0
                + t[j].1 <= u[f(j)].0 + u[f(j)].1,
        forall|j1: int, j2: int|
            0 <= j1 < t.len() && 0 <= j2 < t.len() && j1 != j2 && #[trigger] f(j1) == #[trigger] f(j2)
                ==> t[j1].0 + t[j1].1 <= t[j2].0 || t[j2].0 + t[j2].1 <= t[j1].0,
    ensures
        disjoint_regions(t),
{
    assert forall|j: int| 0 <= j < t.len() implies #[trigger] t[j].0 + t[j].1 <= usize::MAX by {
        let _ = f(j);
        let _ = u[f(j)];
    }
    assert forall|j1: int, j2: int|
        0 <= j1 < t.len() && 0 <= j2 < t.len() && j1 != j2 implies #[trigger] t[j1].0 + t[j1].1
        <= #[trigger] t[j2].0 || t[j2].0 + t[j2].1 <= t[j1].0 by {
        let _ = f(j1);
        let _ = f(j2);
        let _ = u[f(j1)];
        let _ = u[f(j2)];
    }
}

/// Allocation keeps the free regions and the blocks in use pairwise
/// disjoint: when the free regions `v` and the blocks `live` handed out
/// earlier are pairwise disjoint, so are the free regions afterwards, the
/// blocks handed out earlier and the new block.
pub proof fn law_live_blocks_disjoint_after_allocate(
    v: Seq<(usize, usize)>,
    live: Seq<(usize, usize)>,
    size: usize,
    align: usize,
)
    requires
        power_of_two(align as int),
        disjoint_regions(v + live),
    ensures
        ({
            let (r, w) = spec_allocate(v, size, align);
            &&& disjoint_regions(w + live)
            &&& r != 0 ==> disjoint_regions(
                w + live.push((r, spec_adjust_layout(size, align)->Some_0.0)),
            )
        }),
{
    let u = v + live;
    if let Some((s, a)) = spec_adjust_layout(size, align) {
        if let Some(i) = first_fit(v, s, a) {
            assert(is_first_fit(v, s, a, i));
            let start = fit_in_region(v[i], s, a)->Some_0;
            lemma_fundamental_div_mod(v[i].0 + a - 1, a as int);
            assert(start >= v[i].0);
            let w = after_fit(v, i, s, start);
            let end = start + s;
            let excess = v[i].0 + v[i].1 - end;
            let t = w + live.push((start as usize, s));
            assert(u[i] == v[i]);
            if excess >= LIST_NODE_SIZE {
                let f = |j: int|
                    if j < w.len() {
                        j
                    } else if j < w.len() + live.len() {
                        j
                    } else {
                        i
                    };
                assert forall|j: int| 0 <= j < t.len() implies 0 <= #[trigger] f(j) < u.len()
                    && u[f(j)].0 <= t[j].0 && t[j].0 + t[j].1 <= u[f(j)].0 + u[f(j)].1 by {
                    if j < w.len() {
                        assert(u[j] == v[j]);
                    } else if j < w.len() + live.len() {
                        assert(t[j] == live[j - w.len()]);
                        assert(u[j] == live[j - v.len()]);
                    }
                }
                assert forall|j1: int, j2: int|
                    0 <= j1 < t.len() && 0 <= j2 < t.len() && j1 != j2 && #[trigger] f(j1)
                        == #[trigger] f(j2) implies t[j1].0 + t[j1].1 <= t[j2].0 || t[j2].0
                    + t[j2].1 <= t[j1].0 by {
                    assert(t[(w.len() + live.len()) as int] == (start as usize, s));
                    assert(t[i] == w[i]);
                }
                lemma_disjoint_within(u, t, f);
                let t2 = w + live;
                assert(forall|j: int| 0 <= j < t2.len() ==> t2[j] == #[trigger] t[j]);
                lemma_disjoint_within(u, t2, f);
            } else {
                let f = |j: int|
                    if j < i {
                        j
                    } else if j < w.len() {
                        j + 1
                    } else if j < w.len() + live.len() {
                        j + 1
                    } else {
                        i
                    };
                assert forall|j: int| 0 <= j < t.len() implies 0 <= #[trigger] f(j) < u.len()
                    && u[f(j)].0 <= t[j].0 && t[j].0 + t[j].1 <= u[f(j)].0 + u[f(j)].1 by {
                    if j < i {
                        assert(u[j] == v[j]);
                    } else if j < w.len() {
                        assert(u[j + 1] == v[j + 1]);
                    } else if j < w.len() + live.len() {
                        assert(t[j] == live[j - w.len()]);
                        assert(u[j + 1] == live[j + 1 - v.len()]);
                    }
                }
                lemma_disjoint_within(u, t, f);
                let t2 = w + live;
                assert(forall|j: int| 0 <= j < t2.len() ==> t2[j] == #[trigger] t[j]);
                lemma_disjoint_within(u, t2, f);
            }
        }
    }
}

/// Freeing a block that was handed out keeps the free regions and the
/// blocks still in use pairwise disjoint: when the free regions `v` and the
/// blocks `live` in use are pairwise disjoint and block `k` of `live` is
/// the one freed, with the layout it was requested with, the free regions
/// afterwards and the other blocks are pairwise disjoint.
pub proof fn law_live_blocks_disjoint_after_deallocate(
    v: Seq<(usize, usize)>,
    live: Seq<(usize, usize)>,
    k: int,
    ptr: usize,
    size: usize,
    align: usize,
)
    requires
        disjoint_regions(v + live),
        0 <= k < live.len(),
        spec_adjust_layout(size, align) matches Some((s, a)) && live[k] == (ptr, s),
    ensures
        disjoint_regions(spec_deallocate(v, ptr, size, align) + live.remove(k)),
{
    let u = v + live;
    let rest = live.remove(k);
    if ptr == 0 {
        let t = v + rest;
        let f = |j: int|
            if j < v.len() {
                j
            } else if j < v.len() + k {
                j
            } else {
                j + 1
            };
        assert forall|j: int| 0 <= j < t.len() implies 0 <= #[trigger] f(j) < u.len() && u[f(j)].0
            <= t[j].0 && t[j].0 + t[j].1 <= u[f(j)].0 + u[f(j)].1 by {
            if j < v.len() {
                assert(u[j] == v[j]);
            } else if j < v.len() + k {
                assert(t[j] == live[j - v.len()]);
            } else {
                assert(t[j] == live[j - v.len() + 1]);
            }
        }
        lemma_disjoint_within(u, t, f);
    } else {
        let t = seq![live[k]] + v + rest;
        assert(spec_deallocate(v, ptr, size, align) + rest == t);
        let f = |j: int|
            if j == 0 {
                v.len() + k
            } else if j < v.len() + 1 {
                j - 1
            } else if j < v.len() + 1 + k {
                j - 1
            } else {
                j
            };
        assert forall|j: int| 0 <= j < t.len() implies 0 <= #[trigger] f(j) < u.len() && u[f(j)].0
            <= t[j].0 && t[j].0 + t[j].1 <= u[f(j)].0 + u[f(j)].1 by {
            if j == 0 {
                assert(u[v.len() + k] == live[k]);
            } else if j < v.len() + 1 {
                assert(t[j] == v[j - 1]);
            } else if j < v.len() + 1 + k {
                assert(t[j] == live[j - 1 - v.len()]);
            } else {
                assert(t[j] == live[j - v.len()]);
            }
        }
        lemma_disjoint_within(u, t, f);
    }
}

/// A call on the heap: a request of a size and alignment, or giving back
/// the block in use at the given position, with the layout it was
/// requested with.
pub enum HeapCall {
    Allocate(usize, usize),
    Deallocate(usize),
}

/// The block a request `(address, size, align)` occupies.
pub open spec fn block_of(request: (usize, usize, usize)) -> (usize, usize) {
    (request.0, spec_adjust_layout(request.1, request.2)->Some_0.0)
}

/// The free regions and the blocks in use, each as `(address, size,
/// align)` of its request, after `calls` made from the free regions `v`
/// with the blocks `live` in use.
pub open spec fn run_heap_calls(
    v: Seq<(usize, usize)>,
    live: Seq<(usize, usize, usize)>,
    calls: Seq<HeapCall>,
) -> (Seq<(usize, usize)>, Seq<(usize, usize, usize)>)
    decreases calls.len(),
{
    if calls.len() == 0 {
        (v, live)
    } else {
        let (w, l) = run_heap_calls(v, live, calls.drop_last());
        match calls.last() {
            HeapCall::Allocate(size, align) => {
                let (r, w2) = spec_allocate(w, size, align);
                if r != 0 {
                    (w2, l.push((r, size, align)))
                } else {
                    (w2, l)
                }
            },
            HeapCall::Deallocate(k) => if k < l.len() {
                (spec_deallocate(w, l[k as int].0, l[k as int].1, l[k as int].2), l.remove(k as int))
            } else {
                (w, l)
            },
        }
    }
}

/// Whether the free regions and the blocks in use are pairwise disjoint,
/// and every block in use was requested with a layout the heap accepts.
pub open spec fn heap_disjoint(v: Seq<(usize, usize)>, live: Seq<(usize, usize, usize)>) -> bool {
    &&& disjoint_regions(v + live.map_values(|l: (usize, usize, usize)| block_of(l)))
    &&& forall|i: int| 0 <= i < live.len() ==> #[trigger] spec_adjust_layout(live[i].1, live[i].2) is Some
}

/// Induction behind [`law_live_blocks_disjoint`].
proof fn lemma_run_heap_calls_disjoint(
    v: Seq<(usize, usize)>,
    live: Seq<(usize, usize, usize)>,
    calls: Seq<HeapCall>,
)
    requires
        heap_disjoint(v, live),
        forall|k: int| 0 <= k < calls.len() ==> (#[trigger] calls[k] matches HeapCall::Allocate(_, a)
            ==> power_of_two(a as int)),
    ensures
        heap_disjoint(run_heap_calls(v, live, calls).0, run_heap_calls(v, live, calls).1),
    decreases calls.len(),
{
    if calls.len() > 0 {
        let prefix = calls.drop_last();
        assert forall|k: int| 0 <= k < prefix.len() implies (#[trigger] prefix[k] matches HeapCall::Allocate(
            _,
            a,
        ) ==> power_of_two(a as int)) by {
            assert(prefix[k] == calls[k]);
        }
        lemma_run_heap_calls_disjoint(v, live, prefix);
        let (w, l) = run_heap_calls(v, live, prefix);
        let lb = l.map_values(|x: (usize, usize, usize)| block_of(x));
        match calls.last() {
            HeapCall::Allocate(size, align) => {
                assert(calls[calls.len() - 1] == calls.last());
                law_live_blocks_disjoint_after_allocate(w, lb, size, align);
                let (r, w2) = spec_allocate(w, size, align);
                if r != 0 {
                    let l2 = l.push((r, size, align));
                    assert(spec_adjust_layout(size, align) is Some);
                    assert(l2.map_values(|x: (usize, usize, usize)| block_of(x)) =~= lb.push(
                        (r, spec_adjust_layout(size, align)->Some_0.0),
                    ));
                    assert forall|i: int| 0 <= i < l2.len() implies #[trigger] spec_adjust_layout(
                        l2[i].1,
                        l2[i].2,
                    ) is Some by {
                        if i < l.len() {
                            assert(l2[i] == l[i]);
                        }
                    }
                }
            },
            HeapCall::Deallocate(k) => {
                if k < l.len() {
                    let (ptr, size, align) = l[k as int];
                    assert(spec_adjust_layout(size, align) is Some);
                    assert(lb[k as int] == block_of(l[k as int]));
                    law_live_blocks_disjoint_after_deallocate(w, lb, k as int, ptr, size, align);
                    let l2 = l.remove(k as int);
                    assert(l2.map_values(|x: (usize, usize, usize)| block_of(x)) =~= lb.remove(k as int));
                    assert forall|i: int| 0 <= i < l2.len() implies #[trigger] spec_adjust_layout(
                        l2[i].1,
                        l2[i].2,
                    ) is Some by {
                        if i < k {
                            assert(l2[i] == l[i]);
                        } else {
                            assert(l2[i] == l[i + 1]);
                        }
                    }
                }
            },
        }
    }
}

/// The blocks in use never overlap each other or the free regions: from a
/// heap handed the memory `start..start + size`, after any requests with
/// power-of-two alignments and any giving back of blocks in use.
pub proof fn law_live_blocks_disjoint(start: usize, size: usize, calls: Seq<HeapCall>)
    requires
        start + size <= usize::MAX,
        forall|k: int| 0 <= k < calls.len() ==> (#[trigger] calls[k] matches HeapCall::Allocate(_, a)
            ==> power_of_two(a as int)),
    ensures
        ({
            let (free, live) = run_heap_calls(seq![(start, size)], Seq::empty(), calls);
            &&& disjoint_regions(free + live.map_values(|l: (usize, usize, usize)| block_of(l)))
            &&& forall|i: int, j: int|
                0 <= i < live.len() && 0 <= j < live.len() && i != j ==> #[trigger] block_of(live[i]).0
                    + block_of(live[i]).1 <= #[trigger] block_of(live[j]).0 || block_of(live[j]).0
                    + block_of(live[j]).1 <= block_of(live[i]).0
        }),
{
    let v = seq![(start, size)];
    let live = Seq::<(usize, usize, usize)>::empty();
    assert(v + live.map_values(|l: (usize, usize, usize)| block_of(l)) =~= v);
    lemma_run_heap_calls_disjoint(v, live, calls);
    let (free, l) = run_heap_calls(v, live, calls);
    let all = free + l.map_values(|x: (usize, usize, usize)| block_of(x));
    assert forall|i: int, j: int|
        0 <= i < l.len() && 0 <= j < l.len() && i != j implies #[trigger] block_of(l[i]).0 + block_of(
            l[i],
        ).1 <= #[trigger] block_of(l[j]).0 || block_of(l[j]).0 + block_of(l[j]).1 <= block_of(l[i]).0 by {
        assert(all[free.len() + i] == block_of(l[i]));
        assert(all[free.len() + j] == block_of(l[j]));
    }
}

/// Masking off the low bits of `addr + align - 1` rounds `addr` up to a
/// multiple of the power of two `align`.
proof fn lemma_align_up(addr: usize, align: usize, n: nat)
    requires
        pow2(n) == align,
        n < usize::BITS,
        addr + align <= usize::MAX,
    ensures
        ((addr + align - 1) as usize) & !((align - 1) as usize) == round_up(addr as int, align as int),
{
    let y = (addr + align - 1) as usize;
    lemma_pow2_pos(n);
    let m = (align - 1) as usize;
    lemma_usize_low_bits_mask_is_mod(y, n);
    assert(low_bits_mask(n) == m);
    assert(y & !m == (y - (y & m)) as usize) by (bit_vector);
    lemma_fundamental_div_mod(y as int, align as int);
}

/// Round `addr` up to a multiple of the power of two `align`.
fn align_up(addr: usize, align: usize) -> (r: usize)
    requires
        power_of_two(align as int),
        addr + align <= usize::MAX,
    ensures
        r == round_up(addr as int, align as int),
{
    let ghost n = choose|n: nat| n < usize::BITS && #[trigger] pow2(n) == align;
    proof {
        lemma_pow2_pos(n);
        lemma_align_up(addr, align, n);
    }
    (addr + align - 1) & !(align - 1)
}

/// Where a bump allocation of `size` bytes aligned to `align` lands in an
/// arena of `capacity` bytes at `base` of which the first `used` are taken:
/// the block's start and the bytes taken afterwards; `None` when the arena
/// or the rounding leaves the address space, or the block does not fit.
pub open spec fn spec_bump(base: usize, used: usize, capacity: usize, size: usize, align: usize) -> Option<
    (usize, usize),
> {
    let start = round_up(base + used, align as int);
    if base + capacity > usize::MAX || used > capacity || base + used + align > usize::MAX || start
        + size > base + capacity {
        None
    } else {
        Some((start as usize, (start + size - base) as usize))
    }
}

/// Take the next `size` bytes aligned to the power of two `align` from an
/// arena that only grows: exactly [`spec_bump`].
pub fn bump(base: usize, used: usize, capacity: usize, size: usize, align: usize) -> (r: Option<
    (usize, usize),
>)
    requires
        power_of_two(align as int),
    ensures
        r == spec_bump(base, used, capacity, size, align),
{
    let end = base.checked_add(capacity)?;
    if used > capacity {
        return None;
    }
    let address = base + used;
    if address > usize::MAX - align {
        return None;
    }
    let start = align_up(address, align);
    proof {
        let n = choose|n: nat| n < usize::BITS && #[trigger] pow2(n) == align;
        lemma_pow2_pos(n);
        lemma_fundamental_div_mod(address + align - 1, align as int);
        assert(start >= address);
    }
    if size > end || start > end - size {
        return None;
    }
    Some((start, start + size - base))
}

/// Adjust a request so that the block can hold a list node once freed:
/// exactly [`spec_adjust_layout`].
pub fn adjust_layout(size: usize, align: usize) -> (r: Option<(usize, usize)>)
    requires
        power_of_two(align as int),
    ensures
        r == spec_adjust_layout(size, align),
        r matches Some((s, a)) ==> power_of_two(a as int),
{
    let s = if size >= LIST_NODE_SIZE {
        size
    } else {
        LIST_NODE_SIZE
    };
    let a = if align >= LIST_NODE_ALIGN {
        align
    } else {
        LIST_NODE_ALIGN
    };
    proof {
        lemma2_to64();
        if a == LIST_NODE_ALIGN {
            assert(pow2(3) == a);
        }
    }
    if a - 1 <= isize::MAX as usize && s <= isize::MAX as usize - (a - 1) {
        Some((s, a))
    } else {
        None
    }
}

/// A first-fit allocator over a list of free regions.
pub struct ListAllocator {
    regions: Vec<(usize, usize)>,
    initialized: bool,
}

impl View for ListAllocator {
    /// The free regions as `(start, size)` pairs, in list order.
    type V = Seq<(usize, usize)>;

    closed spec fn view(&self) -> Seq<(usize, usize)> {
        self.regions@
    }
}

impl ListAllocator {
    /// Whether the heap has been handed its memory.
    pub closed spec fn is_initialized(&self) -> bool {
        self.initialized
    }

    /// An allocator that owns no memory yet.
    pub fn new() -> (r: Self)
        ensures
            !r.is_initialized(),
            r@ == Seq::<(usize, usize)>::empty(),
    {
        Self { regions: Vec::new(), initialized: false }
    }

    /// Hand the allocator the memory `heap_start..heap_start + heap_size`.
    pub fn init(&mut self, heap_start: usize, heap_size: usize)
        requires
            heap_start % LIST_NODE_ALIGN == 0,
            heap_size >= LIST_NODE_SIZE,
        ensures
            final(self).is_initialized(),
            final(self)@ == seq![(heap_start, heap_size)] + old(self)@,
    {
        self.initialized = true;
        self.add_free_region(heap_start, heap_size);
    }

    /// Put a region at the front of the free list.
    fn add_free_region(&mut self, addr: usize, size: usize)
        requires
            addr % LIST_NODE_ALIGN == 0,
            size >= LIST_NODE_SIZE,
        ensures
            final(self).is_initialized() == old(self).is_initialized(),
            final(self)@ == seq![(addr, size)] + old(self)@,
    {
        self.regions.insert(0, (addr, size));
        proof {
            assert(self.regions@ =~= seq![(addr, size)] + old(self).regions@);
        }
    }

    /// Whether every free region's start plus `align`, or plus the list-node
    /// alignment when that is larger, stays inside the address space: what
    /// [`ListAllocator::allocate`] asks of a request.
    pub fn fits_alignment(&self, align: usize) -> (r: bool)
        ensures
            r == forall|i: int|
                0 <= i < self@.len() ==> #[trigger] self@[i].0 + max_usize(align, LIST_NODE_ALIGN)
                    <= usize::MAX,
    {
        let a = if align > LIST_NODE_ALIGN {
            align
        } else {
            LIST_NODE_ALIGN
        };
        let mut i: usize = 0;
        while i < self.regions.len()
            invariant
                a == max_usize(align, LIST_NODE_ALIGN),
                i <= self@.len(),
                forall|j: int| 0 <= j < i ==> #[trigger] self@[j].0 + a <= usize::MAX,
            decreases self.regions.len() - i,
        {
            if self.regions[i].0 > usize::MAX - a {
                return false;
            }
            i = i + 1;
        }
        true
    }

    /// Allocate `size` bytes aligned to the power of two `align` from the
    /// first free region that can hold them; 0 when the allocator has no
    /// memory yet, the request cannot be represented, or nothing fits.
    pub fn allocate(&mut self, size: usize, align: usize) -> (r: usize)
        requires
            power_of_two(align as int),
            forall|i: int|
                0 <= i < old(self)@.len() ==> #[trigger] old(self)@[i].0 + max_usize(
                    align,
                    LIST_NODE_ALIGN,
                ) <= usize::MAX,
        ensures
            final(self).is_initialized() == old(self).is_initialized(),
            if old(self).is_initialized() {
                (r, final(self)@) == spec_allocate(old(self)@, size, align)
            } else {
                r == 0 && final(self)@ == old(self)@
            },
    {
        if !self.initialized {
            return 0;
        }
        let (block_size, block_align) = match adjust_layout(size, align) {
            Some(layout) => layout,
            None => return 0,
        };
        let mut i: usize = 0;
        while i < self.regions.len()
            invariant
                self.regions@ == old(self).regions@,
                self.initialized,
                old(self).initialized,
                power_of_two(block_align as int),
                spec_adjust_layout(size, align) == Some((block_size, block_align)),
                forall|j: int|
                    0 <= j < self@.len() ==> #[trigger] self@[j].0 + block_align <= usize::MAX,
                forall|j: int| 0 <= j < i ==> #[trigger] fit_in_region(self@[j], block_size, block_align)
                    is None,
            decreases self.regions.len() - i,
        {
            let region = self.regions[i];
            assert(self@[i as int].0 + block_align <= usize::MAX);
            if let Ok(alloc_start) = Self::alloc_from_region(region, block_size, block_align) {
                proof {
                    lemma_first_fit_is(self@, block_size, block_align, i as int);
                }
                let alloc_end = match alloc_start.checked_add(block_size) {
                    Some(value) => value,
                    None => return 0,
                };
                let region_end = region.0.checked_add(region.1).unwrap();
                let excess_size = region_end - alloc_end;
                if excess_size >= LIST_NODE_SIZE {
                    self.regions.set(i, (alloc_end, excess_size));
                } else {
                    // The remaining bytes are too small to hold a list node,
                    // so the entire region is handed out.
                    self.regions.remove(i);
                }
                return alloc_start;
            }
            i = i + 1;
        }
        proof {
            if exists|k: int| #[trigger] is_first_fit(self@, block_size, block_align, k) {
                let k = choose|k: int| #[trigger] is_first_fit(self@, block_size, block_align, k);
                assert(fit_in_region(self@[k], block_size, block_align) is None);
            }
        }
        0
    }

    /// Return a block to the front of the free list; a null address, or a
    /// request that cannot be represented, is ignored.
    pub fn deallocate(&mut self, ptr: usize, size: usize, align: usize)
        requires
            power_of_two(align as int),
            ptr != 0 && spec_adjust_layout(size, align) is Some ==> ptr % LIST_NODE_ALIGN == 0,
        ensures
            final(self).is_initialized() == old(self).is_initialized(),
            final(self)@ == spec_deallocate(old(self)@, ptr, size, align),
    {
        if ptr == 0 {
            return;
        }
        let (size, _align) = match adjust_layout(size, align) {
            Some(layout) => layout,
            None => return,
        };
        self.add_free_region(ptr, size);
        // Adjacent free regions are not merged: repeated allocation and
        // deallocation can fragment the heap.
    }

    /// Where a block of `size` bytes aligned to `align` starts inside
    /// `region`: exactly [`fit_in_region`].
    fn alloc_from_region(region: (usize, usize), size: usize, align: usize) -> (r: Result<
        usize,
        (),
    >)
        requires
            power_of_two(align as int),
            region.0 + align <= usize::MAX,
        ensures
            r == match fit_in_region(region, size, align) {
                Some(start) => Ok::<usize, ()>(start as usize),
                None => Err::<usize, ()>(()),
            },
    {
        let alloc_start = align_up(region.0, align);
        let alloc_end = match alloc_start.checked_add(size) {
            Some(value) => value,
            None => return Err(()),
        };
        let region_end = match region.0.checked_add(region.1) {
            Some(value) => value,
            None => return Err(()),
        };
        if alloc_end > region_end {
            return Err(());
        }
        let excess_size = region_end - alloc_end;
        // What is left must be able to hold another list node; otherwise
        // the allocation would leave an unusable fragment.
        if excess_size > 0 && excess_size < LIST_NODE_SIZE {
            return Err(());
        }
        Ok(alloc_start)
    }
}

} // verus!
