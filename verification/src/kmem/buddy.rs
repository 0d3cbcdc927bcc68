//! A binary buddy allocator.
//!
//! Free memory is kept as power-of-two sized blocks, with one free list per
//! block size (order). A request that finds no free block of its order
//! splits the next larger one in half and keeps the unused half, its buddy,
//! on the lower list. Freeing a block merges it with its buddy while the
//! buddy is free too, one order up at a time, which keeps fragmentation
//! bounded without a separate coalescing pass.
//!
//! Each free list is kept with its head last: a block is pushed at the end
//! and taken from the end.

use vstd::prelude::*;
use vstd::arithmetic::power2::{
    pow2, lemma2_to64, lemma_pow2_adds, lemma_pow2_strictly_increases, lemma_pow2_pos,
};
use vstd::bits::lemma_usize_shl_is_mul;

verus! {

/// Smallest block order handed out: 2^6 = 64 bytes.
pub const MIN_ORDER: usize = 6;

/// Largest block order: 2^30 bytes, 1 GiB.
pub const MAX_ORDER: usize = 30;

/// Number of block sizes, one free list each.
pub const ORDER_COUNT: usize = 25;

/// Size of the free-list link stored inside a free block.
pub const FREE_NODE_SIZE: usize = 8;

/// Bytes in a block of `order`.
pub open spec fn block_bytes(order: int) -> int {
    pow2(order as nat) as int
}

/// Whether every block on every free list lies inside the heap of
/// `size` bytes at `start`: the list at index `i` holds blocks of order
/// `i + MIN_ORDER`.
pub open spec fn blocks_in_heap(lists: Seq<Seq<usize>>, start: usize, size: usize) -> bool {
    forall|i: int, j: int|
        0 <= i < lists.len() && 0 <= j < lists[i].len() ==> start <= #[trigger] lists[i][j]
            && lists[i][j] - start + block_bytes(i + MIN_ORDER) <= size
}

/// Largest order, up to `MAX_ORDER`, whose blocks fit in `size` bytes,
/// counting up from `order`.
pub open spec fn spec_largest_order_from(size: int, order: int) -> int
    decreases MAX_ORDER - order,
{
    if order < MAX_ORDER && block_bytes(order + 1) <= size {
        spec_largest_order_from(size, order + 1)
    } else {
        order
    }
}

/// Smallest order from `order` on, up to `MAX_ORDER`, whose blocks hold
/// `size` bytes; `None` when even the largest is too small.
pub open spec fn spec_order_from(size: int, order: int) -> Option<int>
    decreases MAX_ORDER - order,
{
    if block_bytes(order) >= size {
        Some(order)
    } else if order >= MAX_ORDER {
        None
    } else {
        spec_order_from(size, order + 1)
    }
}

/// Smallest order whose blocks hold `size` bytes and a free-list link.
pub open spec fn spec_order_for_size(size: int) -> Option<int> {
    spec_order_from(
        if size >= FREE_NODE_SIZE {
            size
        } else {
            FREE_NODE_SIZE as int
        },
        MIN_ORDER as int,
    )
}

/// The order of the block that seeds the heap at `addr` with `remaining`
/// bytes left: the largest from `order` down that fits and is aligned,
/// else `MIN_ORDER`.
pub open spec fn seed_order(addr: int, remaining: int, order: int) -> int
    decreases order,
{
    if order <= MIN_ORDER {
        MIN_ORDER as int
    } else if block_bytes(order) <= remaining && addr % block_bytes(order) == 0 {
        order
    } else {
        seed_order(addr, remaining, order - 1)
    }
}

/// The free lists after the heap from `addr`, with `remaining` bytes, is
/// cut greedily into the largest aligned blocks that fit, largest first.
pub open spec fn spec_seed(lists: Seq<Seq<usize>>, addr: int, remaining: int, max_order: int) -> Seq<
    Seq<usize>,
>
    decreases remaining,
{
    if remaining < block_bytes(MIN_ORDER as int) {
        lists
    } else {
        let order = seed_order(addr, remaining, max_order);
        let size = block_bytes(order);
        if size > remaining || addr % size != 0 || size <= 0 {
            lists
        } else {
            let i = order - MIN_ORDER;
            spec_seed(lists.update(i, lists[i].push(addr as usize)), addr + size, remaining - size, max_order)
        }
    }
}

/// A block of `order` taken from the lists: from its own list when that is
/// not empty, else by splitting one of the next order, whose upper half
/// goes on this order's list.
pub open spec fn spec_allocate_order(lists: Seq<Seq<usize>>, order: int, max_order: int) -> (
    Option<usize>,
    Seq<Seq<usize>>,
)
    decreases MAX_ORDER + 1 - order,
{
    if order > max_order || order > MAX_ORDER || order < MIN_ORDER {
        (None, lists)
    } else {
        let i = order - MIN_ORDER;
        if lists[i].len() > 0 {
            (Some(lists[i].last()), lists.update(i, lists[i].drop_last()))
        } else {
            let (split, after) = spec_allocate_order(lists, order + 1, max_order);
            match split {
                None => (None, after),
                Some(addr) => (
                    Some(addr),
                    after.update(i, after[i].push((addr + block_bytes(order)) as usize)),
                ),
            }
        }
    }
}

/// Position of the last occurrence of `addr` in `list`: the first met when
/// walking the list from its head.
pub open spec fn last_index_of(list: Seq<usize>, addr: usize) -> Option<int>
    decreases list.len(),
{
    if list.len() == 0 {
        None
    } else if list.last() == addr {
        Some(list.len() - 1)
    } else {
        last_index_of(list.drop_last(), addr)
    }
}

/// The buddy of the block at `addr` of `order`, in the heap at `start`:
/// the block whose offset differs from it in the order's bit alone.
pub open spec fn spec_buddy(start: usize, addr: usize, order: int) -> int {
    start + ((addr - start) as usize ^ (block_bytes(order) as usize))
}

/// The free lists after the block at `addr` of `order` is freed: while its
/// buddy is on its list, the buddy is taken off and the two merge into the
/// block of the next order at the lower address, up to `max_order`.
pub open spec fn spec_merge(
    lists: Seq<Seq<usize>>,
    start: usize,
    addr: usize,
    order: int,
    max_order: int,
) -> Seq<Seq<usize>>
    decreases MAX_ORDER - order,
{
    let i = order - MIN_ORDER;
    if order < max_order && order < MAX_ORDER {
        let buddy = spec_buddy(start, addr, order) as usize;
        match last_index_of(lists[i], buddy) {
            Some(j) => spec_merge(
                lists.update(i, lists[i].remove(j)),
                start,
                if addr <= buddy {
                    addr
                } else {
                    buddy
                },
                order + 1,
                max_order,
            ),
            None => lists.update(i, lists[i].push(addr)),
        }
    } else {
        lists.update(i, lists[i].push(addr))
    }
}

/// The block size a request of `size` bytes aligned to `align` takes.
pub open spec fn request_bytes(size: usize, align: usize) -> int {
    if size >= align {
        size as int
    } else {
        align as int
    }
}

/// The contents of each list.
pub open spec fn list_views(lists: Seq<Vec<usize>>) -> Seq<Seq<usize>> {
    Seq::new(lists.len(), |i: int| lists[i]@)
}

/// An allocation for `size` bytes aligned to `align`: the block's address
/// (0 for none) and the free lists after it.
pub open spec fn spec_allocate(
    lists: Seq<Seq<usize>>,
    initialized: bool,
    max_order: int,
    size: usize,
    align: usize,
) -> (usize, Seq<Seq<usize>>) {
    if !initialized {
        (0, lists)
    } else {
        match spec_order_for_size(request_bytes(size, align)) {
            None => (0, lists),
            Some(order) => match spec_allocate_order(lists, order, max_order) {
                (Some(addr), after) => (addr, after),
                (None, after) => (0, after),
            },
        }
    }
}

/// The free lists after the block at `ptr` that a request for `size`
/// bytes aligned to `align` took is given back.
pub open spec fn spec_deallocate(
    lists: Seq<Seq<usize>>,
    initialized: bool,
    start: usize,
    max_order: int,
    ptr: usize,
    size: usize,
    align: usize,
) -> Seq<Seq<usize>> {
    if ptr == 0 || !initialized {
        lists
    } else {
        match spec_order_for_size(request_bytes(size, align)) {
            None => lists,
            Some(order) => spec_merge(lists, start, ptr, order, max_order),
        }
    }
}

/// A binary buddy allocator over one contiguous heap.
pub struct BuddyAllocator {
    heap_start: usize,
    heap_size: usize,
    max_order: usize,
    /// Free blocks by order: the list at index `i` holds blocks of order
    /// `i + MIN_ORDER`.
    free_lists: Vec<Vec<usize>>,
    initialized: bool,
}

impl BuddyAllocator {
    /// The free lists, by order index.
    pub closed spec fn lists(&self) -> Seq<Seq<usize>> {
        list_views(self.free_lists@)
    }

    /// Start of the heap.
    pub closed spec fn start(&self) -> usize {
        self.heap_start
    }

    /// Size of the heap in bytes.
    pub closed spec fn size(&self) -> usize {
        self.heap_size
    }

    /// Largest order the heap can hold.
    pub closed spec fn spec_max_order(&self) -> int {
        self.max_order as int
    }

    /// Whether the heap has been handed to the allocator.
    pub closed spec fn is_initialized(&self) -> bool {
        self.initialized
    }

    /// Internal consistency: one list per order, and every free block
    /// inside the heap.
    pub closed spec fn wf(&self) -> bool {
        &&& self.free_lists@.len() == ORDER_COUNT
        &&& MIN_ORDER <= self.max_order <= MAX_ORDER
        &&& self.heap_start + self.heap_size <= usize::MAX
        &&& blocks_in_heap(self.lists(), self.heap_start, self.heap_size)
    }

    /// An allocator with no heap yet.
    pub fn new() -> (r: Self)
        ensures
            r.wf(),
            !r.is_initialized(),
            r.lists() == Seq::new(ORDER_COUNT as nat, |i: int| Seq::<usize>::empty()),
            r.start() == 0,
            r.size() == 0,
            r.spec_max_order() == MIN_ORDER,
    {
        let free_lists = Self::empty_lists();
        let r = Self { heap_start: 0, heap_size: 0, max_order: MIN_ORDER, free_lists, initialized: false };
        proof {
            assert(r.lists() =~= Seq::new(ORDER_COUNT as nat, |i: int| Seq::<usize>::empty()));
        }
        r
    }

    /// One empty free list per order.
    fn empty_lists() -> (r: Vec<Vec<usize>>)
        ensures
            list_views(r@) == Seq::new(
                ORDER_COUNT as nat,
                |i: int| Seq::<usize>::empty(),
            ),
    {
        let mut lists: Vec<Vec<usize>> = Vec::new();
        let mut i: usize = 0;
        while i < ORDER_COUNT
            invariant
                i <= ORDER_COUNT,
                lists@.len() == i,
                forall|k: int| 0 <= k < i ==> #[trigger] lists@[k]@ == Seq::<usize>::empty(),
            decreases ORDER_COUNT - i,
        {
            let empty: Vec<usize> = Vec::new();
            lists.push(empty);
            i = i + 1;
        }
        assert(list_views(lists@) =~= Seq::new(ORDER_COUNT as nat, |k: int| Seq::<usize>::empty()));
        lists
    }

    /// Hand the heap of `heap_size` bytes at `heap_start` to the allocator:
    /// it is cut greedily into the largest aligned blocks that fit, largest
    /// first, exactly as [`spec_seed`] has it; a remainder smaller than the
    /// smallest block is left unused.
    pub fn init(&mut self, heap_start: usize, heap_size: usize)
        requires
            old(self).wf(),
            heap_start % 64 == 0,
            heap_size >= 64,
            heap_start + heap_size <= usize::MAX,
        ensures
            final(self).wf(),
            final(self).is_initialized(),
            final(self).start() == heap_start,
            final(self).size() == heap_size,
            final(self).spec_max_order() == spec_largest_order_from(
                heap_size as int,
                MIN_ORDER as int,
            ),
            final(self).lists() == spec_seed(
                Seq::new(ORDER_COUNT as nat, |i: int| Seq::<usize>::empty()),
                heap_start as int,
                heap_size as int,
                final(self).spec_max_order(),
            ),
    {
        self.free_lists = Self::empty_lists();
        self.heap_start = heap_start;
        self.heap_size = heap_size;
        self.max_order = Self::largest_order_for(heap_size);
        let ghost empty = Seq::new(ORDER_COUNT as nat, |i: int| Seq::<usize>::empty());
        let ghost max_order = self.max_order as int;
        assert(blocks_in_heap(self.lists(), heap_start, heap_size));
        let mut addr = heap_start;
        let mut remaining = heap_size;
        while remaining >= Self::block_size(MIN_ORDER)
            invariant
                self.wf(),
                self.start() == heap_start,
                self.size() == heap_size,
                self.spec_max_order() == max_order,
                max_order == spec_largest_order_from(heap_size as int, MIN_ORDER as int),
                heap_start <= addr,
                addr - heap_start + remaining == heap_size,
                spec_seed(self.lists(), addr as int, remaining as int, max_order) == spec_seed(
                    empty,
                    heap_start as int,
                    heap_size as int,
                    max_order,
                ),
            ensures
                spec_seed(self.lists(), addr as int, remaining as int, max_order) == self.lists(),
            decreases remaining,
        {
            let order = Self::seed_block_order(addr, remaining, self.max_order);
            proof {
                lemma_pow2_pos(order as nat);
            }
            let size = Self::block_size(order);
            if size > remaining || addr % size != 0 {
                break;
            }
            self.push_free_block(addr, order);
            addr = addr + size;
            remaining = remaining - size;
        }
        assert(empty =~= Seq::new(ORDER_COUNT as nat, |i: int| Seq::<usize>::empty()));
        self.initialized = true;
    }

    /// The order of the block that seeds the heap at `addr` with
    /// `remaining` bytes left, as [`seed_order`] has it.
    fn seed_block_order(addr: usize, remaining: usize, max_order: usize) -> (r: usize)
        requires
            MIN_ORDER <= max_order <= MAX_ORDER,
        ensures
            r == seed_order(addr as int, remaining as int, max_order as int),
            MIN_ORDER <= r <= max_order,
    {
        let mut order = max_order;
        while order > MIN_ORDER
            invariant
                MIN_ORDER <= order <= max_order <= MAX_ORDER,
                seed_order(addr as int, remaining as int, order as int) == seed_order(
                    addr as int,
                    remaining as int,
                    max_order as int,
                ),
            decreases order,
        {
            let size = Self::block_size(order);
            proof {
                lemma_pow2_pos(order as nat);
            }
            if size <= remaining && addr % size == 0 {
                return order;
            }
            order = order - 1;
        }
        order
    }

    /// Allocate a block for `size` bytes aligned to `align`: the smallest
    /// order that holds the larger of the two, exactly as
    /// [`spec_allocate`] has it; 0 when the allocator has no heap yet, the
    /// request is larger than the largest block, or no block is free.
    pub fn allocate(&mut self, size: usize, align: usize) -> (r: usize)
        requires
            old(self).wf(),
        ensures
            final(self).wf(),
            final(self).start() == old(self).start(),
            final(self).size() == old(self).size(),
            final(self).spec_max_order() == old(self).spec_max_order(),
            final(self).is_initialized() == old(self).is_initialized(),
            (r, final(self).lists()) == spec_allocate(
                old(self).lists(),
                old(self).is_initialized(),
                old(self).spec_max_order(),
                size,
                align,
            ),
            // A block handed out lies inside the heap and holds the request.
            r != 0 ==> old(self).start() <= r && r - old(self).start() + request_bytes(size, align)
                <= old(self).size(),
    {
        if !self.initialized {
            return 0;
        }
        let needed = if size >= align {
            size
        } else {
            align
        };
        let order = match Self::order_for_size(needed) {
            Some(order) => order,
            None => return 0,
        };
        match self.allocate_order(order) {
            Some(addr) => {
                proof {
                    lemma_order_holds(needed as int, order as int);
                }
                addr
            },
            None => 0,
        }
    }

    /// Give back the block at `ptr` that a request for `size` bytes aligned
    /// to `align` took, merging it with its free buddies, exactly as
    /// [`spec_deallocate`] has it. A null pointer, or an allocator with no
    /// heap, is left alone.
    pub fn deallocate(&mut self, ptr: usize, size: usize, align: usize)
        requires
            old(self).wf(),
            ptr != 0 && old(self).is_initialized() ==> match spec_order_for_size(
                request_bytes(size, align),
            ) {
                Some(order) => old(self).start() <= ptr && ptr - old(self).start() + block_bytes(
                    order,
                ) <= old(self).size(),
                None => true,
            },
        ensures
            final(self).wf(),
            final(self).start() == old(self).start(),
            final(self).size() == old(self).size(),
            final(self).spec_max_order() == old(self).spec_max_order(),
            final(self).is_initialized() == old(self).is_initialized(),
            final(self).lists() == spec_deallocate(
                old(self).lists(),
                old(self).is_initialized(),
                old(self).start(),
                old(self).spec_max_order(),
                ptr,
                size,
                align,
            ),
    {
        if ptr == 0 || !self.initialized {
            return;
        }
        let needed = if size >= align {
            size
        } else {
            align
        };
        let order = match Self::order_for_size(needed) {
            Some(order) => order,
            None => return,
        };
        let mut addr = ptr;
        let mut order = order;
        let ghost target = spec_merge(old(self).lists(), self.heap_start, ptr, order as int, self.max_order as int);
        loop
            invariant
                self.wf(),
                self.start() == old(self).start(),
                self.size() == old(self).size(),
                self.spec_max_order() == old(self).spec_max_order(),
                self.is_initialized() == old(self).is_initialized(),
                MIN_ORDER <= order <= MAX_ORDER,
                self.start() <= addr,
                addr - self.start() + block_bytes(order as int) <= self.size(),
                spec_merge(self.lists(), self.heap_start, addr, order as int, self.max_order as int)
                    == target,
            ensures
                self.wf(),
                self.start() == old(self).start(),
                self.size() == old(self).size(),
                self.spec_max_order() == old(self).spec_max_order(),
                self.is_initialized() == old(self).is_initialized(),
                MIN_ORDER <= order <= MAX_ORDER,
                self.start() <= addr,
                addr - self.start() + block_bytes(order as int) <= self.size(),
                self.lists().update(
                    order - MIN_ORDER,
                    self.lists()[order - MIN_ORDER].push(addr),
                ) == target,
            decreases MAX_ORDER - order,
        {
            if order >= self.max_order {
                break;
            }
            let buddy = self.buddy_of(addr, order);
            let ghost before = self.lists();
            if self.remove_free_block(buddy, order) {
                proof {
                    let i = order - MIN_ORDER;
                    let j = last_index_of(before[i], buddy)->Some_0;
                    lemma_last_index_of(before[i], buddy);
                    lemma_pow2_double(order as nat);
                    assert(before[i][j] == buddy);
                }
                addr = if addr <= buddy {
                    addr
                } else {
                    buddy
                };
                order = order + 1;
            } else {
                break;
            }
        }
        self.push_free_block(addr, order);
    }

    /// Bytes in a block of `order`.
    fn block_size(order: usize) -> (r: usize)
        requires
            order <= MAX_ORDER,
        ensures
            r == block_bytes(order as int),
    {
        proof {
            lemma2_to64();
            lemma_pow2_strictly_increases_or_eq(order as nat, 30);
            lemma_usize_shl_is_mul(1, order);
        }
        1usize << order
    }

    /// Index of the free list for `order`.
    fn index_for(order: usize) -> (r: usize)
        requires
            MIN_ORDER <= order <= MAX_ORDER,
        ensures
            r == order - MIN_ORDER,
            r < ORDER_COUNT,
    {
        order - MIN_ORDER
    }

    /// Largest order, up to `MAX_ORDER`, whose blocks fit in `size` bytes
    /// (`MIN_ORDER` when none does).
    fn largest_order_for(size: usize) -> (r: usize)
        ensures
            r == spec_largest_order_from(size as int, MIN_ORDER as int),
            MIN_ORDER <= r <= MAX_ORDER,
    {
        let mut order: usize = MIN_ORDER;
        while order < MAX_ORDER && Self::block_size(order + 1) <= size
            invariant
                MIN_ORDER <= order <= MAX_ORDER,
                spec_largest_order_from(size as int, order as int) == spec_largest_order_from(
                    size as int,
                    MIN_ORDER as int,
                ),
            decreases MAX_ORDER - order,
        {
            order = order + 1;
        }
        order
    }

    /// Smallest order whose blocks hold `size` bytes and a free-list link;
    /// `None` when even the largest block is too small.
    fn order_for_size(size: usize) -> (r: Option<usize>)
        ensures
            match r {
                Some(order) => spec_order_for_size(size as int) == Some(order as int) && MIN_ORDER
                    <= order <= MAX_ORDER,
                None => spec_order_for_size(size as int) is None,
            },
    {
        let needed = if size >= FREE_NODE_SIZE {
            size
        } else {
            FREE_NODE_SIZE
        };
        let mut order: usize = MIN_ORDER;
        while Self::block_size(order) < needed
            invariant
                MIN_ORDER <= order <= MAX_ORDER,
                spec_order_from(needed as int, order as int) == spec_order_for_size(size as int),
            decreases MAX_ORDER - order,
        {
            if order == MAX_ORDER {
                return None;
            }
            order = order + 1;
        }
        Some(order)
    }

    /// Push a free block of `order` at `addr` on its list.
    fn push_free_block(&mut self, addr: usize, order: usize)
        requires
            old(self).wf(),
            MIN_ORDER <= order <= MAX_ORDER,
            old(self).start() <= addr,
            addr - old(self).start() + block_bytes(order as int) <= old(self).size(),
        ensures
            final(self).wf(),
            final(self).lists() == old(self).lists().update(
                order - MIN_ORDER,
                old(self).lists()[order - MIN_ORDER].push(addr),
            ),
            final(self).start() == old(self).start(),
            final(self).size() == old(self).size(),
            final(self).spec_max_order() == old(self).spec_max_order(),
            final(self).is_initialized() == old(self).is_initialized(),
    {
        let index = Self::index_for(order);
        let mut list = self.free_lists.remove(index);
        list.push(addr);
        self.free_lists.insert(index, list);
        proof {
            assert(list_views(self.free_lists@) =~= old(self).lists().update(
                order - MIN_ORDER,
                old(self).lists()[order - MIN_ORDER].push(addr),
            ));
        }
    }

    /// Take the head of the free list of `order`, if any.
    fn pop_free_block(&mut self, order: usize) -> (r: Option<usize>)
        requires
            old(self).wf(),
            MIN_ORDER <= order <= MAX_ORDER,
        ensures
            final(self).wf(),
            final(self).start() == old(self).start(),
            final(self).size() == old(self).size(),
            final(self).spec_max_order() == old(self).spec_max_order(),
            final(self).is_initialized() == old(self).is_initialized(),
            ({
                let list = old(self).lists()[order - MIN_ORDER];
                if list.len() == 0 {
                    r is None && final(self).lists() == old(self).lists()
                } else {
                    r == Some(list.last()) && final(self).lists() == old(self).lists().update(
                        order - MIN_ORDER,
                        list.drop_last(),
                    )
                }
            }),
    {
        let index = Self::index_for(order);
        if self.free_lists[index].len() == 0 {
            return None;
        }
        let mut list = self.free_lists.remove(index);
        let addr = list.pop();
        self.free_lists.insert(index, list);
        proof {
            assert(list_views(self.free_lists@) =~= old(self).lists().update(
                order - MIN_ORDER,
                old(self).lists()[order - MIN_ORDER].drop_last(),
            ));
        }
        addr
    }

    /// Take the block at `addr` off the free list of `order`, the first
    /// met from the list's head; whether it was there.
    fn remove_free_block(&mut self, addr: usize, order: usize) -> (r: bool)
        requires
            old(self).wf(),
            MIN_ORDER <= order <= MAX_ORDER,
        ensures
            final(self).wf(),
            final(self).start() == old(self).start(),
            final(self).size() == old(self).size(),
            final(self).spec_max_order() == old(self).spec_max_order(),
            final(self).is_initialized() == old(self).is_initialized(),
            ({
                let list = old(self).lists()[order - MIN_ORDER];
                match last_index_of(list, addr) {
                    Some(j) => r && final(self).lists() == old(self).lists().update(
                        order - MIN_ORDER,
                        list.remove(j),
                    ),
                    None => !r && final(self).lists() == old(self).lists(),
                }
            }),
    {
        let index = Self::index_for(order);
        let found = Self::find_in_list(&self.free_lists[index], addr);
        let ghost list = old(self).lists()[order - MIN_ORDER];
        assert(list == self.free_lists@[index as int]@);
        if found.is_none() {
            return false;
        }
        let j = found.unwrap();
        assert(last_index_of(list, addr) == Some(j as int));
        let mut taken = self.free_lists.remove(index);
        taken.remove(j);
        self.free_lists.insert(index, taken);
        proof {
            assert(list_views(self.free_lists@) =~= old(self).lists().update(
                order - MIN_ORDER,
                list.remove(j as int),
            ));
            assert forall|a: int, b: int|
                0 <= a < self.lists().len() && 0 <= b < self.lists()[a].len() implies self.start()
                <= #[trigger] self.lists()[a][b] && self.lists()[a][b] - self.start() + block_bytes(
                a + MIN_ORDER,
            ) <= self.size() by {
                if a == order - MIN_ORDER && b >= j {
                    assert(self.lists()[a][b] == old(self).lists()[a][b + 1]);
                }
            }
        }
        true
    }

    /// Position of `addr` in `list`, the last occurrence: the first met from
    /// the list's head.
    fn find_in_list(list: &Vec<usize>, addr: usize) -> (r: Option<usize>)
        ensures
            match last_index_of(list@, addr) {
                Some(j) => r matches Some(k) && k == j,
                None => r is None,
            },
            r matches Some(j) ==> j < list@.len() && list@[j as int] == addr,
    {
        proof {
            lemma_last_index_of(list@, addr);
        }
        let mut j: usize = list.len();
        proof {
            assert(list@.subrange(0, j as int) =~= list@);
        }
        while j > 0
            invariant
                j <= list@.len(),
                last_index_of(list@, addr) == last_index_of(list@.subrange(0, j as int), addr),
            decreases j,
        {
            proof {
                assert(list@.subrange(0, j as int).drop_last() =~= list@.subrange(0, j - 1));
            }
            j = j - 1;
            if list[j] == addr {
                return Some(j);
            }
        }
        None
    }

    /// The buddy of the block at `addr` of `order`.
    fn buddy_of(&self, addr: usize, order: usize) -> (r: usize)
        requires
            self.wf(),
            order <= MAX_ORDER,
            self.start() <= addr,
            addr - self.start() + block_bytes(order as int) <= self.size(),
        ensures
            r == spec_buddy(self.start(), addr, order as int),
            r == if (addr - self.start()) as usize & (block_bytes(order as int) as usize) == 0 {
                addr + block_bytes(order as int)
            } else {
                addr - block_bytes(order as int)
            },
    {
        let offset = addr - self.heap_start;
        let size = Self::block_size(order);
        proof {
            lemma_usize_shl_is_mul(1, order);
            lemma_xor_block(offset, order);
        }
        self.heap_start + (offset ^ size)
    }

    /// A block of `order`, exactly as [`spec_allocate_order`] has it.
    fn allocate_order(&mut self, order: usize) -> (r: Option<usize>)
        requires
            old(self).wf(),
            MIN_ORDER <= order,
        ensures
            final(self).wf(),
            final(self).start() == old(self).start(),
            final(self).size() == old(self).size(),
            final(self).spec_max_order() == old(self).spec_max_order(),
            final(self).is_initialized() == old(self).is_initialized(),
            (r, final(self).lists()) == spec_allocate_order(
                old(self).lists(),
                order as int,
                old(self).spec_max_order(),
            ),
            r matches Some(addr) ==> old(self).start() <= addr && addr - old(self).start()
                + block_bytes(order as int) <= old(self).size(),
        decreases MAX_ORDER + 1 - order,
    {
        if order > self.max_order {
            return None;
        }
        let ghost before = self.lists();
        if let Some(addr) = self.pop_free_block(order) {
            proof {
                let i = order - MIN_ORDER;
                assert(before[i][before[i].len() - 1] == addr);
            }
            return Some(addr);
        }
        let addr = match self.allocate_order(order + 1) {
            Some(addr) => addr,
            None => return None,
        };
        proof {
            lemma_pow2_double(order as nat);
        }
        let buddy_addr = addr + Self::block_size(order);
        self.push_free_block(buddy_addr, order);
        Some(addr)
    }
}

/// The order [`spec_order_from`] picks holds the size.
proof fn lemma_order_holds(size: int, order: int)
    requires
        spec_order_for_size(size) == Some(order),
    ensures
        block_bytes(order) >= size,
{
    lemma_order_from_holds(if size >= FREE_NODE_SIZE { size } else { FREE_NODE_SIZE as int }, MIN_ORDER as int);
}

proof fn lemma_order_from_holds(size: int, from: int)
    ensures
        spec_order_from(size, from) matches Some(order) ==> block_bytes(order) >= size,
    decreases MAX_ORDER - from,
{
    if block_bytes(from) < size && from < MAX_ORDER {
        lemma_order_from_holds(size, from + 1);
    }
}

/// The position found by [`last_index_of`] holds the address.
proof fn lemma_last_index_of(list: Seq<usize>, addr: usize)
    ensures
        last_index_of(list, addr) matches Some(j) ==> 0 <= j < list.len() && list[j] == addr,
    decreases list.len(),
{
    if list.len() > 0 && list.last() != addr {
        lemma_last_index_of(list.drop_last(), addr);
    }
}

/// Flipping bit `k` of `x` adds its weight when the bit is clear and takes
/// it away when it is set.
proof fn lemma_xor_block(x: usize, k: usize)
    by (bit_vector)
    requires
        k <= 30,
    ensures
        (x ^ (1usize << k)) == if x & (1usize << k) == 0 {
            x + (1usize << k)
        } else {
            x - (1usize << k)
        },
{
}

/// The buddy relation is symmetric: the buddy of a block's buddy is the
/// block itself, so a block and its buddy find each other when either is
/// freed.
pub proof fn law_buddy_symmetric(start: usize, addr: usize, order: usize)
    requires
        start <= addr,
        order <= MAX_ORDER,
        addr + block_bytes(order as int) <= usize::MAX,
    ensures
        spec_buddy(start, spec_buddy(start, addr, order as int) as usize, order as int) == addr,
{
    let offset = (addr - start) as usize;
    lemma_pow2_strictly_increases_or_eq(order as nat, 30);
    lemma2_to64();
    lemma_usize_shl_is_mul(1, order);
    lemma_xor_block(offset, order);
    let p = 1usize << order;
    assert((offset ^ p) ^ p == offset) by (bit_vector);
}

/// Freeing the block an allocation just took from its own free list, while
/// the block's buddy is not free, gives the allocator its free lists back.
pub proof fn law_free_undoes_allocate(
    lists: Seq<Seq<usize>>,
    start: usize,
    order: int,
    max_order: int,
)
    requires
        lists.len() == ORDER_COUNT,
        MIN_ORDER <= order <= max_order <= MAX_ORDER,
        lists[order - MIN_ORDER].len() > 0,
        order < max_order ==> last_index_of(
            lists[order - MIN_ORDER].drop_last(),
            spec_buddy(start, lists[order - MIN_ORDER].last(), order) as usize,
        ) is None,
    ensures
        ({
            let (block, after) = spec_allocate_order(lists, order, max_order);
            &&& block == Some(lists[order - MIN_ORDER].last())
            &&& spec_merge(after, start, lists[order - MIN_ORDER].last(), order, max_order)
                == lists
        }),
{
    let i = order - MIN_ORDER;
    let list = lists[i];
    let after = lists.update(i, list.drop_last());
    assert(list.drop_last().push(list.last()) =~= list);
    assert(after.update(i, after[i].push(list.last())) =~= lists);
}

/// A block of the next order is two blocks of this one.
proof fn lemma_pow2_double(k: nat)
    ensures
        pow2(k + 1) == 2 * pow2(k),
{
    lemma_pow2_adds(k, 1);
    lemma2_to64();
}

/// `pow2` grows with its exponent.
proof fn lemma_pow2_strictly_increases_or_eq(e1: nat, e2: nat)
    requires
        e1 <= e2,
    ensures
        pow2(e1) <= pow2(e2),
{
    if e1 < e2 {
        lemma_pow2_strictly_increases(e1, e2);
    }
}

} // verus!
