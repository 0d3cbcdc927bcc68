//! The kernel address space: virtual pages, the frames behind them and the
//! mappings between the two.

use vstd::prelude::*;
use crate::memory::bitmap::{
    count_free, is_lowest_free, lowest_free, lemma_lowest_free_is, lemma_lowest_free_none,
    lemma_count_free_update, lemma_count_free_le,
};
use crate::memory::frame_alloc::{BitmapFrameAllocator, FrameAllocator, PhysAddr, FRAME_SIZE};
use crate::memory::page_alloc::{
    BitmapPageAllocator, Page, PageAllocatorError, PageRange, VirtAddr, spec_reserve,
};
use crate::memory::page_table::{
    ADDRESS_MASK, Mapper, MapperError, PageTableFlags, TableMemory, keeps_present, lemma_map_new_owned,
    lemma_translate_kept, spec_first_unloaded, spec_is_canonical, spec_map_new, spec_translate, spec_unmap, table_levels,
    table_of, tables_owned,
};

verus! {

/// Errors produced by the kernel address-space manager.
#[derive(Debug, Clone, Copy, PartialEq, Eq, Structural)]
pub enum AddressSpaceError {
    PageAllocator(PageAllocatorError),
    Mapper(MapperError),
    OutOfVirtualPages,
    OutOfPhysicalFrames,
    MappingFailed,
    InvalidRange,
    NotMapped,
}

impl From<PageAllocatorError> for AddressSpaceError {
    fn from(error: PageAllocatorError) -> (r: Self) {
        AddressSpaceError::PageAllocator(error)
    }
}

impl vstd::std_specs::convert::FromSpecImpl<PageAllocatorError> for AddressSpaceError {
    open spec fn obeys_from_spec() -> bool {
        true
    }

    open spec fn from_spec(v: PageAllocatorError) -> Self {
        AddressSpaceError::PageAllocator(v)
    }
}

impl From<MapperError> for AddressSpaceError {
    fn from(error: MapperError) -> (r: Self) {
        AddressSpaceError::Mapper(error)
    }
}

impl vstd::std_specs::convert::FromSpecImpl<MapperError> for AddressSpaceError {
    open spec fn obeys_from_spec() -> bool {
        true
    }

    open spec fn from_spec(v: MapperError) -> Self {
        AddressSpaceError::Mapper(v)
    }
}

/// Mapping the `count` pages from `first` one after another, each to a new
/// frame, stopping at the first failure: the error, if any, how many pages
/// were mapped, and the tables and frames afterwards. A page whose walk
/// reads a table that is not loaded fails with `InvalidPageTable`.
pub open spec fn spec_map_pages(
    mem: TableMemory,
    frames: Seq<bool>,
    pml4: u64,
    first: u64,
    count: nat,
    flags: u64,
) -> (Option<MapperError>, nat, TableMemory, Seq<bool>)
    decreases count,
{
    if count == 0 {
        (None, 0, mem, frames)
    } else {
        let (err, mapped, m, f) = spec_map_pages(mem, frames, pml4, first, (count - 1) as nat, flags);
        if err is Some {
            (err, mapped, m, f)
        } else {
            let page = (first + (count - 1) * 4096) as u64;
            if spec_first_unloaded(m, pml4, page) is Some {
                (Some(MapperError::InvalidPageTable), mapped, m, f)
            } else {
                let (res, m2, f2) = spec_map_new(m, f, pml4, page, flags);
                match res {
                    Ok(_) => (None, count, m2, f2),
                    Err(e) => (Some(e), mapped, m2, f2),
                }
            }
        }
    }
}

/// Frames after giving back the frame at `frame`: only an allocated frame
/// inside the allocator's range is freed.
pub open spec fn spec_free_frame(frames: Seq<bool>, frame: u64) -> Seq<bool> {
    let n = frame / FRAME_SIZE;
    if n < frames.len() && frames[n as int] {
        frames.update(n as int, false)
    } else {
        frames
    }
}

/// Unmapping the `count` pages from `first` one after another and giving
/// back each frame that an unmapping returns: the tables and frames
/// afterwards. A page whose walk reads a table that is not loaded is
/// skipped.
pub open spec fn spec_unmap_pages(
    mem: TableMemory,
    frames: Seq<bool>,
    pml4: u64,
    first: u64,
    count: nat,
) -> (TableMemory, Seq<bool>)
    decreases count,
{
    if count == 0 {
        (mem, frames)
    } else {
        let (m, f) = spec_unmap_pages(mem, frames, pml4, first, (count - 1) as nat);
        let page = (first + (count - 1) * 4096) as u64;
        if spec_first_unloaded(m, pml4, page) is Some {
            (m, f)
        } else {
            match spec_unmap(m, pml4, page) {
                Err(_) => (m, f),
                Ok((frame, m2)) => (m2, spec_free_frame(f, frame)),
            }
        }
    }
}

/// Whether the `count` lowest free entries of `v` are consecutive.
pub open spec fn free_run(v: Seq<bool>, count: int) -> bool {
    lowest_free(v) matches Some(n) && n + count <= v.len() && forall|k: int|
        n <= k < n + count ==> !#[trigger] v[k]
}

/// Whether `k` is one of `idxs[lo..hi]`.
pub open spec fn taken_by(idxs: Seq<int>, lo: int, hi: int, k: int) -> bool {
    exists|l: int| lo <= l < hi && #[trigger] idxs[l] == k
}

/// Once mapping stops at a failure, mapping more pages changes nothing.
proof fn lemma_map_pages_stops(
    mem: TableMemory,
    frames: Seq<bool>,
    pml4: u64,
    first: u64,
    k: nat,
    count: nat,
    flags: u64,
)
    requires
        k <= count,
        spec_map_pages(mem, frames, pml4, first, k, flags).0 is Some,
    ensures
        spec_map_pages(mem, frames, pml4, first, count, flags) == spec_map_pages(
            mem,
            frames,
            pml4,
            first,
            k,
            flags,
        ),
    decreases count,
{
    if count > k {
        lemma_map_pages_stops(mem, frames, pml4, first, k, (count - 1) as nat, flags);
    }
}

/// Appending an entry leaves the earlier ranges as they were and adds the
/// new entry to the whole range.
proof fn lemma_taken_by_push(idxs: Seq<int>, x: int)
    ensures
        forall|lo: int, hi: int, k: int|
            0 <= lo && hi <= idxs.len() ==> #[trigger] taken_by(idxs.push(x), lo, hi, k) == taken_by(
                idxs,
                lo,
                hi,
                k,
            ),
        forall|lo: int, k: int|
            0 <= lo <= idxs.len() ==> #[trigger] taken_by(idxs.push(x), lo, idxs.len() + 1int, k) == (
            taken_by(idxs, lo, idxs.len() as int, k) || k == x),
{
    let s = idxs.push(x);
    assert forall|lo: int, hi: int, k: int| 0 <= lo && hi <= idxs.len() implies #[trigger] taken_by(
        s,
        lo,
        hi,
        k,
    ) == taken_by(idxs, lo, hi, k) by {
        if taken_by(s, lo, hi, k) {
            let l = choose|l: int| lo <= l < hi && #[trigger] s[l] == k;
            assert(idxs[l] == k);
        }
        if taken_by(idxs, lo, hi, k) {
            let l = choose|l: int| lo <= l < hi && #[trigger] idxs[l] == k;
            assert(s[l] == k);
        }
    }
    assert forall|lo: int, k: int| 0 <= lo <= idxs.len() implies #[trigger] taken_by(
        s,
        lo,
        idxs.len() + 1int,
        k,
    ) == (taken_by(idxs, lo, idxs.len() as int, k) || k == x) by {
        if taken_by(s, lo, idxs.len() + 1int, k) {
            let l = choose|l: int| lo <= l < idxs.len() + 1 && #[trigger] s[l] == k;
            if l < idxs.len() {
                assert(idxs[l] == k);
            }
        }
        if taken_by(idxs, lo, idxs.len() as int, k) {
            let l = choose|l: int| lo <= l < idxs.len() && #[trigger] idxs[l] == k;
            assert(s[l] == k);
        }
        if k == x {
            assert(s[idxs.len() as int] == k);
        }
    }
}

/// When every pick was the lowest entry still free, the picks are the
/// consecutive entries from the lowest free one exactly when those entries
/// are free.
proof fn lemma_picks_consecutive(base: Seq<bool>, idxs: Seq<int>, count: int)
    requires
        0 < count <= idxs.len(),
        is_lowest_free(base, idxs[0]),
        forall|l: int| 0 <= l < count ==> 0 <= #[trigger] idxs[l] < base.len() && !base[idxs[l]],
        forall|l1: int, l2: int| 0 <= l1 < l2 < count ==> idxs[l1] < idxs[l2],
        forall|l: int, k: int|
            0 <= l < count && 0 <= k < idxs[l] ==> base[k] || #[trigger] taken_by(idxs, 0, l, k),
        forall|k: int| idxs[0] <= k < idxs[0] + count ==> !#[trigger] base[k],
    ensures
        forall|l: int| 0 <= l < count ==> #[trigger] idxs[l] == idxs[0] + l,
    decreases count,
{
    if count > 1 {
        assert forall|k: int| idxs[0] <= k < idxs[0] + (count - 1) implies !#[trigger] base[k] by {
            assert(idxs[0] <= k < idxs[0] + count);
            let _ = base[k];
        }
        lemma_picks_consecutive(base, idxs, count - 1);
        let j = count - 1;
        let k = idxs[0] + j;
        let _ = base[k];
        if idxs[j] > k {
            assert(base[k] || taken_by(idxs, 0, j, k));
            if taken_by(idxs, 0, j, k) {
                let l = choose|l: int| 0 <= l < j && #[trigger] idxs[l] == k;
                assert(idxs[l] == idxs[0] + l);
            }
        }
        assert(idxs[j - 1] == idxs[0] + j - 1);
    }
}

/// Mapping pages one after another keeps the tables owned and every
/// present entry of them; when every page was mapped, each canonical page
/// of the run translates.
proof fn lemma_map_pages_owned(
    levels: Map<u64, int>,
    mem: TableMemory,
    frames: Seq<bool>,
    pml4: u64,
    first: u64,
    count: nat,
    flags: u64,
) -> (levels2: Map<u64, int>)
    requires
        table_levels(levels, mem, pml4, frames),
        forall|a: u64| #[trigger] mem.contains_key(a) ==> mem[a].len() == 512,
        flags & ADDRESS_MASK == 0,
        first % 4096 == 0,
        first + count * 4096 <= u64::MAX,
    ensures
        ({
            let (err, mapped, m, f) = spec_map_pages(mem, frames, pml4, first, count, flags);
            &&& table_levels(levels2, m, pml4, f)
            &&& forall|t: u64| #[trigger] levels.contains_key(t) ==> levels2.contains_key(t)
                && levels2[t] == levels[t]
            &&& keeps_present(levels, mem, m)
            &&& forall|a: u64| #[trigger] m.contains_key(a) ==> m[a].len() == 512
            &&& (err is None ==> forall|i: int|
                0 <= i < count && spec_is_canonical(#[trigger] page_in_run(first, i))
                    ==> spec_translate(m, pml4, page_in_run(first, i)) is Some)
        }),
    decreases count,
{
    if count == 0 {
        assert(keeps_present(levels, mem, mem));
        levels
    } else {
        let c1 = (count - 1) as nat;
        let l1 = lemma_map_pages_owned(levels, mem, frames, pml4, first, c1, flags);
        let (err1, mapped1, m1, f1) = spec_map_pages(mem, frames, pml4, first, c1, flags);
        if err1 is Some {
            l1
        } else {
            let page = page_in_run(first, count - 1);
            assert(page == (first + (count - 1) * 4096) as u64);
            if spec_first_unloaded(m1, pml4, page) is Some {
                return l1;
            }
            assert(page % 4096 == 0) by {
                assert((first + (count - 1) * 4096) % 4096 == first % 4096) by (nonlinear_arith)
                    requires
                        count >= 1,
                ;
            }
            let l2 = lemma_map_new_owned(l1, m1, f1, pml4, page, flags);
            let (res, m2, f2) = spec_map_new(m1, f1, pml4, page, flags);
            assert(keeps_present(levels, mem, m2)) by {
                assert forall|t: u64, i: int|
                    levels.contains_key(t) && 0 <= i < 512 && #[trigger] table_of(mem, t)[i].present()
                        implies table_of(m2, t)[i] == table_of(mem, t)[i] by {
                    assert(table_of(m1, t)[i] == table_of(mem, t)[i]);
                    assert(l1.contains_key(t));
                }
            }
            if res is Ok {
                assert forall|i: int|
                    0 <= i < count && spec_is_canonical(#[trigger] page_in_run(first, i))
                        implies spec_translate(m2, pml4, page_in_run(first, i)) is Some by {
                    if i < count - 1 {
                        lemma_translate_kept(l1, m1, m2, pml4, f1, page_in_run(first, i));
                    }
                }
            }
            l2
        }
    }
}

/// Start address of page `i` of the run that starts at `first`.
pub open spec fn page_in_run(first: u64, i: int) -> u64 {
    (first + i * 4096) as u64
}

/// The start address of a page of the page allocator is page aligned.
proof fn lemma_page_address_aligned(sp: int, n: int)
    requires
        0 <= sp,
        0 <= n,
        (sp + n) * 4096 <= u64::MAX,
    ensures
        ((sp + n) * 4096) as u64 % 4096 == 0,
        ((sp + n) * 4096) as u64 == (sp + n) * 4096,
{
    assert((sp + n) * 4096 % 4096 == 0) by (nonlinear_arith)
        requires
            0 <= sp + n,
    ;
}

/// A run of contiguous virtual pages.
#[derive(Debug, Clone, Copy)]
pub struct Allocation {
    pub start: Page,
    pub page_count: usize,
}

impl Allocation {
    /// The page `index` pages after the start; `None` past the end of the
    /// run, when the address leaves the address space, or when the start is
    /// not page aligned.
    pub fn page_at(&self, index: usize) -> (r: Option<Page>)
        requires
            index < self.page_count ==> index * 4096 <= u64::MAX,
        ensures
            r == (if index >= self.page_count || self.start.start() + index * 4096 > u64::MAX
                || self.start.start() % FRAME_SIZE != 0 {
                None
            } else {
                Some(
                    Page {
                        start_address: VirtAddr((self.start.start() + index * 4096) as u64),
                    },
                )
            }),
    {
        if index >= self.page_count {
            return None;
        }
        let index = index as u64;
        let address = self.start.start_address().as_u64().checked_add(index * 4096)?;
        Page::from_start_address(VirtAddr::new(address))
    }
}

/// Kernel virtual-memory manager.
///
/// It allocates virtual pages, allocates the physical frames behind them,
/// establishes and removes the mappings, and returns the frames. It does
/// not implement a heap: a heap can use it to obtain contiguous virtual
/// memory without knowing anything about page tables.
pub struct KernelAddressSpace {
    pub pages: BitmapPageAllocator,
    pub mapper: Mapper,
}

impl KernelAddressSpace {
    /// Both parts are consistent.
    pub open spec fn wf(&self) -> bool {
        self.pages.wf() && self.mapper.wf()
    }

    /// Start address of page `n` of the virtual-page allocator.
    pub open spec fn page_address(&self, n: int) -> u64 {
        ((self.pages.spec_start_page() + n) * FRAME_SIZE) as u64
    }

    /// The manager for the address space whose pages are handed out by
    /// `pages` and whose tables `mapper` holds.
    pub fn new(pages: BitmapPageAllocator, mapper: Mapper) -> (r: Self)
        ensures
            r.pages == pages,
            r.mapper == mapper,
    {
        Self { pages, mapper }
    }

    /// Give back the virtual pages `pages`, allocated from the state `base`
    /// at the increasing indices `idxs`.
    fn release_pages(
        &mut self,
        pages: &Vec<Page>,
        Ghost(base): Ghost<Seq<bool>>,
        Ghost(idxs): Ghost<Seq<int>>,
    )
        requires
            old(self).wf(),
            pages.len() == idxs.len(),
            base.len() == old(self).pages@.len(),
            forall|l: int|
                0 <= l < idxs.len() ==> 0 <= #[trigger] idxs[l] < base.len() && !base[idxs[l]]
                    && pages@[l].start() == (old(self).pages.spec_start_page() + idxs[l])
                    * FRAME_SIZE,
            forall|l1: int, l2: int| 0 <= l1 < l2 < idxs.len() ==> idxs[l1] < idxs[l2],
            old(self).pages@ == Seq::new(
                base.len(),
                |k: int| base[k] || taken_by(idxs, 0, idxs.len() as int, k),
            ),
        ensures
            final(self).wf(),
            final(self).pages@ == base,
            final(self).pages.spec_start_page() == old(self).pages.spec_start_page(),
            final(self).mapper == old(self).mapper,
    {
        let mut j: usize = 0;
        while j < pages.len()
            invariant
                self.wf(),
                self.mapper == old(self).mapper,
                self.pages.spec_start_page() == old(self).pages.spec_start_page(),
                0 <= j <= pages.len(),
                pages.len() == idxs.len(),
                base.len() == self.pages@.len(),
                forall|l: int|
                    0 <= l < idxs.len() ==> 0 <= #[trigger] idxs[l] < base.len() && !base[idxs[l]]
                        && pages@[l].start() == (old(self).pages.spec_start_page() + idxs[l])
                        * FRAME_SIZE,
                forall|l1: int, l2: int| 0 <= l1 < l2 < idxs.len() ==> idxs[l1] < idxs[l2],
                self.pages@ == Seq::new(
                    base.len(),
                    |k: int| base[k] || taken_by(idxs, j as int, idxs.len() as int, k),
                ),
            decreases pages.len() - j,
        {
            let page = pages[j];
            let ghost before = self.pages@;
            let ghost n = idxs[j as int];
            proof {
                assert(idxs[j as int] == n);
                assert(before[n]);
                assert(page.start() / FRAME_SIZE == self.pages.spec_start_page() + n);
            }
            let _ = self.pages.deallocate(page);
            proof {
                let len = idxs.len() as int;
                assert forall|k: int| 0 <= k < base.len() implies #[trigger] self.pages@[k] == (
                base[k] || taken_by(idxs, j + 1, len, k)) by {
                    if taken_by(idxs, j + 1, len, k) {
                        let l = choose|l: int| j + 1 <= l < len && #[trigger] idxs[l] == k;
                        assert(idxs[j as int] < idxs[l]);
                        assert(taken_by(idxs, j as int, len, k));
                    }
                    if k != n && taken_by(idxs, j as int, len, k) {
                        let l = choose|l: int| j <= l < len && #[trigger] idxs[l] == k;
                        assert(l != j);
                        assert(taken_by(idxs, j + 1, len, k));
                    }
                }
                assert(self.pages@ =~= Seq::new(
                    base.len(),
                    |k: int| base[k] || taken_by(idxs, j + 1, len, k),
                ));
            }
            j = j + 1;
        }
        proof {
            assert(self.pages@ =~= base);
        }
    }

    /// Allocate the lowest free virtual page and map it to a new frame; when
    /// the mapping fails the page is given back. A page whose walk reads a
    /// table that was not loaded into the mapper is given back with
    /// `InvalidPageTable`, before any table is touched.
    pub fn allocate_page(
        &mut self,
        frame_allocator: &mut BitmapFrameAllocator,
        flags: PageTableFlags,
    ) -> (r: Result<Page, AddressSpaceError>)
        requires
            old(self).wf(),
            old(frame_allocator).wf(),
        ensures
            final(self).wf(),
            final(frame_allocator).wf(),
            final(self).pages.spec_start_page() == old(self).pages.spec_start_page(),
            final(self).mapper.pml4_addr() == old(self).mapper.pml4_addr(),
            final(self).mapper.spec_hhdm_offset() == old(self).mapper.spec_hhdm_offset(),
            match lowest_free(old(self).pages@) {
                None => r == Err::<Page, AddressSpaceError>(AddressSpaceError::OutOfVirtualPages)
                    && final(self).pages@ == old(self).pages@ && final(self).mapper.memory()
                    == old(self).mapper.memory() && final(frame_allocator)@ == old(frame_allocator)@,
                Some(n) => {
                    let page = Page { start_address: VirtAddr(old(self).page_address(n)) };
                    if spec_first_unloaded(
                        old(self).mapper.memory(),
                        old(self).mapper.pml4_addr(),
                        page.start(),
                    ) is Some {
                        &&& r == Err::<Page, AddressSpaceError>(
                            AddressSpaceError::Mapper(MapperError::InvalidPageTable),
                        )
                        &&& final(self).pages@ == old(self).pages@
                        &&& final(self).mapper.memory() == old(self).mapper.memory()
                        &&& final(frame_allocator)@ == old(frame_allocator)@
                    } else {
                        let (res, mem, frames) = spec_map_new(
                            old(self).mapper.memory(),
                            old(frame_allocator)@,
                            old(self).mapper.pml4_addr(),
                            page.start(),
                            flags.0,
                        );
                        &&& final(self).mapper.memory() == mem
                        &&& final(frame_allocator)@ == frames
                        &&& match res {
                            Ok(_) => r == Ok::<Page, AddressSpaceError>(page) && final(self).pages@
                                == old(self).pages@.update(n, true),
                            Err(e) => r == Err::<Page, AddressSpaceError>(
                                AddressSpaceError::Mapper(e),
                            ) && final(self).pages@ == old(self).pages@,
                        }
                    }
                },
            },
            tables_owned(old(self).mapper.memory(), old(self).mapper.pml4_addr(), old(frame_allocator)@)
                ==> tables_owned(
                final(self).mapper.memory(),
                final(self).mapper.pml4_addr(),
                final(frame_allocator)@,
            ),
            tables_owned(old(self).mapper.memory(), old(self).mapper.pml4_addr(), old(frame_allocator)@)
                && flags.0 & ADDRESS_MASK == 0 && r is Ok && spec_is_canonical(r->Ok_0.start())
                ==> spec_translate(
                final(self).mapper.memory(),
                final(self).mapper.pml4_addr(),
                r->Ok_0.start(),
            ) == Some((lowest_free(old(frame_allocator)@)->Some_0 * 4096) as u64),
    {
        let ghost before = self.pages@;
        let page = match self.pages.allocate() {
            Some(page) => page,
            None => {
                proof {
                    lemma_lowest_free_none(before);
                }
                return Err(AddressSpaceError::OutOfVirtualPages);
            },
        };
        let ghost n = page.start() / FRAME_SIZE - old(self).pages.spec_start_page();
        proof {
            lemma_lowest_free_is(before, n);
            assert(page.start() == old(self).page_address(n));
            old(self).pages.lemma_wf_bounds();
            lemma_page_address_aligned(old(self).pages.spec_start_page() as int, n);
        }
        let ghost mem0 = self.mapper.memory();
        let ghost frames0 = frame_allocator@;
        let ghost pml4 = self.mapper.pml4_addr();
        if self.mapper.first_unloaded(page.start_address()).is_some() {
            let _ = self.pages.deallocate(page);
            proof {
                assert(self.pages@ =~= before);
            }
            return Err(AddressSpaceError::Mapper(MapperError::InvalidPageTable));
        }
        let mapped = self.mapper.map_new(page, flags, frame_allocator);
        proof {
            if tables_owned(mem0, pml4, frames0) {
                let levels = choose|l: Map<u64, int>| #[trigger] table_levels(l, mem0, pml4, frames0);
                old(self).mapper.lemma_full_tables();
                let l2 = lemma_map_new_owned(levels, mem0, frames0, pml4, page.start(), flags.0);
                assert(table_levels(l2, self.mapper.memory(), pml4, frame_allocator@));
            }
        }
        match mapped {
            Ok(_) => Ok(page),
            Err(error) => {
                let _ = self.pages.deallocate(page);
                proof {
                    assert(self.pages@ =~= before);
                }
                Err(AddressSpaceError::Mapper(error))
            },
        }
    }

    /// Allocate `count` contiguous virtual pages and map each to a new
    /// frame.
    ///
    /// `count` must lie in `1..=64`. The pages are the `count` lowest free
    /// ones, which must be consecutive. When a mapping fails, the pages
    /// mapped so far are unmapped and their frames given back, and every
    /// virtual page is released again. A page whose walk reads a table that
    /// was not loaded into the mapper counts as a failed mapping, with
    /// `InvalidPageTable`.
    #[verifier::loop_isolation(false)]
    #[verifier::spinoff_prover]
    #[verifier::rlimit(40)]
    pub fn allocate_pages(
        &mut self,
        count: usize,
        frame_allocator: &mut BitmapFrameAllocator,
        flags: PageTableFlags,
    ) -> (r: Result<Allocation, AddressSpaceError>)
        requires
            old(self).wf(),
            old(frame_allocator).wf(),
        ensures
            final(self).wf(),
            final(frame_allocator).wf(),
            final(self).pages.spec_start_page() == old(self).pages.spec_start_page(),
            final(self).mapper.pml4_addr() == old(self).mapper.pml4_addr(),
            final(self).mapper.spec_hhdm_offset() == old(self).mapper.spec_hhdm_offset(),
            ({
                let v = old(self).pages@;
                let mem = old(self).mapper.memory();
                let frames = old(frame_allocator)@;
                let pml4 = old(self).mapper.pml4_addr();
                if count == 0 || count > 64 || count_free(v) < count || !free_run(v, count as int) {
                    &&& r == Err::<Allocation, AddressSpaceError>(
                        if count == 0 || count > 64 || count_free(v) >= count {
                            AddressSpaceError::InvalidRange
                        } else {
                            AddressSpaceError::OutOfVirtualPages
                        },
                    )
                    &&& final(self).pages@ == v
                    &&& final(self).mapper.memory() == mem
                    &&& final(frame_allocator)@ == frames
                } else {
                    let n = lowest_free(v)->Some_0;
                    let first = old(self).page_address(n);
                    let (err, mapped, m, f) = spec_map_pages(
                        mem,
                        frames,
                        pml4,
                        first,
                        count as nat,
                        flags.0,
                    );
                    match err {
                        None => {
                            &&& r == Ok::<Allocation, AddressSpaceError>(
                                Allocation {
                                    start: Page { start_address: VirtAddr(first) },
                                    page_count: count,
                                },
                            )
                            &&& final(self).pages@ == Seq::new(
                                v.len(),
                                |k: int|
                                    if n <= k < n + count {
                                        true
                                    } else {
                                        v[k]
                                    },
                            )
                            &&& final(self).mapper.memory() == m
                            &&& final(frame_allocator)@ == f
                        },
                        Some(e) => {
                            &&& r == Err::<Allocation, AddressSpaceError>(
                                AddressSpaceError::Mapper(e),
                            )
                            &&& final(self).pages@ == v
                            &&& (final(self).mapper.memory(), final(frame_allocator)@)
                                == spec_unmap_pages(m, f, pml4, first, mapped)
                        },
                    }
                }
            }),
            tables_owned(old(self).mapper.memory(), old(self).mapper.pml4_addr(), old(frame_allocator)@)
                && flags.0 & ADDRESS_MASK == 0 && r is Ok ==> {
                &&& tables_owned(
                    final(self).mapper.memory(),
                    final(self).mapper.pml4_addr(),
                    final(frame_allocator)@,
                )
                &&& forall|i: int|
                    0 <= i < count && spec_is_canonical(#[trigger] page_in_run(r->Ok_0.start.start(), i))
                        ==> spec_translate(
                        final(self).mapper.memory(),
                        final(self).mapper.pml4_addr(),
                        page_in_run(r->Ok_0.start.start(), i),
                    ) is Some
            },
    {
        if count == 0 {
            return Err(AddressSpaceError::InvalidRange);
        }
        if count > 64 {
            return Err(AddressSpaceError::InvalidRange);
        }
        let ghost base = self.pages@;
        let ghost sp = self.pages.spec_start_page();
        proof {
            self.pages.lemma_wf_bounds();
        }
        // First obtain the virtual pages.
        let mut pages: Vec<Page> = Vec::new();
        let ghost mut idxs: Seq<int> = Seq::empty();
        proof {
            assert(self.pages@ =~= Seq::new(
                base.len(),
                |k: int| base[k] || taken_by(idxs, 0, 0, k),
            ));
        }
        let mut i: usize = 0;
        while i < count
            invariant
                self.wf(),
                self.pages.spec_start_page() == sp,
                self.mapper == old(self).mapper,
                frame_allocator == old(frame_allocator),
                i <= count,
                pages.len() == i,
                idxs.len() == i,
                base.len() == self.pages@.len(),
                forall|l: int|
                    0 <= l < i ==> 0 <= #[trigger] idxs[l] < base.len() && !base[idxs[l]]
                        && pages@[l].start() == (sp + idxs[l]) * FRAME_SIZE,
                forall|l1: int, l2: int| 0 <= l1 < l2 < i ==> idxs[l1] < idxs[l2],
                forall|l: int, k: int|
                    0 <= l < i && 0 <= k < idxs[l] ==> base[k] || #[trigger] taken_by(
                        idxs,
                        0,
                        l,
                        k,
                    ),
                self.pages@ == Seq::new(
                    base.len(),
                    |k: int| base[k] || taken_by(idxs, 0, i as int, k),
                ),
                count_free(self.pages@) + i == count_free(base),
                i > 0 ==> is_lowest_free(base, idxs[0]),
            decreases count - i,
        {
            let ghost before = self.pages@;
            match self.pages.allocate() {
                Some(page) => {
                    let ghost n = page.start() / FRAME_SIZE - sp;
                    proof {
                        lemma_count_free_update(before, n, true);
                        lemma_taken_by_push(idxs, n);
                        assert(!base[n]);
                        assert forall|l: int| 0 <= l < i implies idxs[l] < n by {
                            assert(before[idxs[l]]);
                            if n < idxs[l] {
                                assert(base[n] || taken_by(idxs, 0, l, n));
                                if taken_by(idxs, 0, l, n) {
                                    let w = choose|w: int| 0 <= w < l && #[trigger] idxs[w] == n;
                                    assert(taken_by(idxs, 0, i as int, n));
                                }
                            }
                        }
                        assert forall|k: int| 0 <= k < n implies base[k] || #[trigger] taken_by(
                            idxs.push(n),
                            0,
                            i as int,
                            k,
                        ) by {
                            assert(before[k]);
                        }
                        if i == 0 {
                            assert forall|j: int| 0 <= j < n implies #[trigger] base[j] by {
                                assert(before[j]);
                            }
                        }
                        idxs = idxs.push(n);
                        assert(self.pages@ =~= Seq::new(
                            base.len(),
                            |k: int| base[k] || taken_by(idxs, 0, i + 1, k),
                        ));
                    }
                    pages.push(page);
                },
                None => {
                    // Roll back the virtual allocations.
                    self.release_pages(&pages, Ghost(base), Ghost(idxs));
                    return Err(AddressSpaceError::OutOfVirtualPages);
                },
            }
            i = i + 1;
        }
        let ghost n0 = idxs[0];
        proof {
            lemma_lowest_free_is(base, n0);
        }
        // Ensure that the pages are contiguous.
        let first = pages[0];
        let mut index: usize = 1;
        while index < count
            invariant
                self.wf(),
                self.pages.spec_start_page() == sp,
                self.mapper == old(self).mapper,
                frame_allocator == old(frame_allocator),
                self.pages@ == Seq::new(
                    base.len(),
                    |k: int| base[k] || taken_by(idxs, 0, count as int, k),
                ),
                1 <= index <= count,
                forall|l: int| 0 <= l < index ==> #[trigger] idxs[l] == n0 + l,
            decreases count - index,
        {
            assert(idxs[index - 1] == n0 + index - 1);
            assert(idxs[index as int] < base.len());
            let expected = match first.start_address().as_u64().checked_add(index as u64 * 4096) {
                Some(expected) => expected,
                None => return Err(AddressSpaceError::InvalidRange),
            };
            if pages[index].start_address().as_u64() != expected {
                proof {
                    if free_run(base, count as int) {
                        lemma_picks_consecutive(base, idxs, count as int);
                        assert(idxs[index as int] == n0 + index);
                    }
                }
                // Roll back the virtual pages.
                self.release_pages(&pages, Ghost(base), Ghost(idxs));
                return Err(AddressSpaceError::InvalidRange);
            }
            index = index + 1;
        }
        proof {
            assert forall|k: int| n0 <= k < n0 + count implies !#[trigger] base[k] by {
                assert(idxs[k - n0] == k);
            }
            assert(idxs[count - 1] == n0 + count - 1);
            assert(free_run(base, count as int));
        }
        // Map the pages.
        let ghost first_addr = first.start();
        let ghost mem0 = self.mapper.memory();
        let ghost frames0 = frame_allocator@;
        let ghost pml4 = self.mapper.pml4_addr();
        let ghost after = self.pages;
        let mut mapped: usize = 0;
        let mut index: usize = 0;
        while index < count
            invariant
                self.mapper.wf(),
                frame_allocator.wf(),
                self.mapper.pml4_addr() == pml4,
                self.mapper.spec_hhdm_offset() == old(self).mapper.spec_hhdm_offset(),
                self.pages == after,
                mapped == index,
                index <= count,
                spec_map_pages(mem0, frames0, pml4, first_addr, index as nat, flags.0) == (
                    None::<MapperError>,
                    index as nat,
                    self.mapper.memory(),
                    frame_allocator@,
                ),
            decreases count - index,
        {
            let page = pages[index];
            assert(idxs[index as int] == n0 + index);
            assert(page.start() == first_addr + index * 4096);
            let result = if self.mapper.first_unloaded(page.start_address()).is_some() {
                Err(MapperError::InvalidPageTable)
            } else {
                self.mapper.map_new(page, flags, frame_allocator)
            };
            match result {
                Ok(_) => {
                    mapped = mapped + 1;
                },
                Err(error) => {
                    let ghost m_err = self.mapper.memory();
                    let ghost f_err = frame_allocator@;
                    proof {
                        lemma_map_pages_stops(
                            mem0,
                            frames0,
                            pml4,
                            first_addr,
                            (index + 1) as nat,
                            count as nat,
                            flags.0,
                        );
                    }
                    // Roll back all mappings that succeeded.
                    let mut rollback_index: usize = 0;
                    while rollback_index < mapped
                        invariant
                            self.mapper.wf(),
                            frame_allocator.wf(),
                            self.mapper.pml4_addr() == pml4,
                            self.mapper.spec_hhdm_offset() == old(self).mapper.spec_hhdm_offset(),
                            self.pages == after,
                            rollback_index <= mapped,
                            spec_unmap_pages(m_err, f_err, pml4, first_addr, rollback_index as nat)
                                == (self.mapper.memory(), frame_allocator@),
                        decreases mapped - rollback_index,
                    {
                        let rollback_page = pages[rollback_index];
                        assert(idxs[rollback_index as int] == n0 + rollback_index);
                        assert(rollback_page.start() == first_addr + rollback_index * 4096);
                        if self.mapper.first_unloaded(rollback_page.start_address()).is_none() {
                            if let Ok(result) = self.mapper.unmap(rollback_page) {
                                let _ = frame_allocator.deallocate(result.frame);
                            }
                        }
                        rollback_index = rollback_index + 1;
                    }
                    // Release all virtual pages.
                    self.release_pages(&pages, Ghost(base), Ghost(idxs));
                    return Err(AddressSpaceError::Mapper(error));
                },
            }
            index = index + 1;
        }
        proof {
            if tables_owned(mem0, pml4, frames0) && flags.0 & ADDRESS_MASK == 0 {
                let levels = choose|l: Map<u64, int>| #[trigger] table_levels(l, mem0, pml4, frames0);
                old(self).mapper.lemma_full_tables();
                assert(idxs[0] == n0);
                lemma_page_address_aligned(sp as int, n0);
                assert(first_addr + count * 4096 <= u64::MAX) by (nonlinear_arith)
                    requires
                        first_addr == (sp + n0) * 4096,
                        n0 + count <= base.len(),
                        (sp + base.len()) * 4096 <= u64::MAX,
                ;
                let l2 = lemma_map_pages_owned(levels, mem0, frames0, pml4, first_addr, count as nat, flags.0);
                assert(table_levels(l2, self.mapper.memory(), pml4, frame_allocator@));
            }
        }
        proof {
            assert(self.pages@ =~= Seq::new(
                base.len(),
                |k: int|
                    if n0 <= k < n0 + count {
                        true
                    } else {
                        base[k]
                    },
            )) by {
                assert forall|k: int| 0 <= k < base.len() implies #[trigger] self.pages@[k] == (
                if n0 <= k < n0 + count {
                    true
                } else {
                    base[k]
                }) by {
                    if n0 <= k < n0 + count {
                        assert(idxs[k - n0] == k);
                    }
                    if taken_by(idxs, 0, count as int, k) {
                        let l = choose|l: int| 0 <= l < count && #[trigger] idxs[l] == k;
                        assert(idxs[l] == n0 + l);
                    }
                }
            }
        }
        Ok(Allocation { start: first, page_count: count })
    }

    /// Unmap a page, return its frame to the frame allocator and release
    /// the virtual page. A step that fails leaves the later steps undone.
    pub fn deallocate_page(
        &mut self,
        page: Page,
        frame_allocator: &mut BitmapFrameAllocator,
    ) -> (r: Result<(), AddressSpaceError>)
        requires
            old(self).wf(),
            old(frame_allocator).wf(),
            spec_first_unloaded(old(self).mapper.memory(), old(self).mapper.pml4_addr(), page.start()) is None,
        ensures
            final(self).wf(),
            final(frame_allocator).wf(),
            final(self).pages.spec_start_page() == old(self).pages.spec_start_page(),
            final(self).mapper.pml4_addr() == old(self).mapper.pml4_addr(),
            final(self).mapper.spec_hhdm_offset() == old(self).mapper.spec_hhdm_offset(),
            match spec_unmap(old(self).mapper.memory(), old(self).mapper.pml4_addr(), page.start()) {
                Err(e) => r == Err::<(), AddressSpaceError>(AddressSpaceError::Mapper(e))
                    && final(self).mapper.memory() == old(self).mapper.memory() && final(frame_allocator)@ == old(frame_allocator)@ && final(self).pages@ == old(self).pages@,
                Ok((frame, mem)) => {
                    let f = frame / FRAME_SIZE;
                    &&& final(self).mapper.memory() == mem
                    &&& if f >= old(frame_allocator)@.len() || !old(frame_allocator)@[f as int] {
                        r == Err::<(), AddressSpaceError>(AddressSpaceError::OutOfPhysicalFrames)
                            && final(frame_allocator)@ == old(frame_allocator)@ && final(self).pages@ == old(self).pages@
                    } else {
                        let number = page.start() / FRAME_SIZE;
                        let n = number - old(self).pages.spec_start_page();
                        &&& final(frame_allocator)@ == old(frame_allocator)@.update(f as int, false)
                        &&& if number < old(self).pages.spec_start_page() || n >= old(self).pages@.len() {
                            r == Err::<(), AddressSpaceError>(
                                AddressSpaceError::PageAllocator(PageAllocatorError::InvalidPage),
                            ) && final(self).pages@ == old(self).pages@
                        } else if !old(self).pages@[n] {
                            r == Err::<(), AddressSpaceError>(
                                AddressSpaceError::PageAllocator(PageAllocatorError::AlreadyFree),
                            ) && final(self).pages@ == old(self).pages@
                        } else {
                            r == Ok::<(), AddressSpaceError>(()) && final(self).pages@ == old(self).pages@.update(n, false)
                        }
                    }
                },
            },
    {
        let result = match self.mapper.unmap(page) {
            Ok(result) => result,
            Err(error) => return Err(AddressSpaceError::Mapper(error)),
        };
        match frame_allocator.deallocate(result.frame) {
            Ok(()) => {},
            Err(_) => return Err(AddressSpaceError::OutOfPhysicalFrames),
        }
        match self.pages.deallocate(page) {
            Ok(()) => Ok(()),
            Err(error) => Err(AddressSpaceError::from(error)),
        }
    }

    /// Reserve a virtual range without creating mappings, for regions that
    /// the boot environment has already mapped.
    pub fn reserve(&mut self, range: PageRange) -> (r: Result<(), AddressSpaceError>)
        requires
            old(self).wf(),
        ensures
            final(self).wf(),
            final(self).pages.spec_start_page() == old(self).pages.spec_start_page(),
            final(self).mapper == old(self).mapper,
            match spec_reserve(old(self).pages@, old(self).pages.spec_start_page(), range) {
                Ok(v) => r == Ok::<(), AddressSpaceError>(()) && final(self).pages@ == v,
                Err(e) => r == Err::<(), AddressSpaceError>(AddressSpaceError::PageAllocator(e))
                    && final(self).pages@ == old(self).pages@,
            },
    {
        match self.pages.reserve(range) {
            Ok(()) => Ok(()),
            Err(error) => Err(AddressSpaceError::from(error)),
        }
    }

    /// Translate a virtual address through the page tables.
    pub fn translate(&self, address: VirtAddr) -> (r: Option<PhysAddr>)
        requires
            self.wf(),
            spec_first_unloaded(self.mapper.memory(), self.mapper.pml4_addr(), address.0) is None,
        ensures
            r == match spec_translate(self.mapper.memory(), self.mapper.pml4_addr(), address.0) {
                Some(a) => Some(PhysAddr(a)),
                None => None::<PhysAddr>,
            },
    {
        self.mapper.translate(address)
    }

    /// Whether a virtual page is allocated; `InvalidPage` outside the
    /// allocator's range.
    pub fn is_allocated(&self, page: Page) -> (r: Result<bool, AddressSpaceError>)
        requires
            self.wf(),
        ensures
            ({
                let number = page.start() / FRAME_SIZE;
                let n = number - self.pages.spec_start_page();
                if number < self.pages.spec_start_page() || n >= self.pages@.len() {
                    r == Err::<bool, AddressSpaceError>(
                        AddressSpaceError::PageAllocator(PageAllocatorError::InvalidPage),
                    )
                } else {
                    r == Ok::<bool, AddressSpaceError>(self.pages@[n])
                }
            }),
    {
        match self.pages.is_allocated(page) {
            Ok(allocated) => Ok(allocated),
            Err(error) => Err(AddressSpaceError::from(error)),
        }
    }
}

} // verus!
