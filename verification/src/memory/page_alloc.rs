//! Virtual addresses, 4 KiB virtual pages, page ranges and the bitmap
//! virtual-page allocator.

use vstd::prelude::*;
use crate::memory::bits::{bit_set, lemma_high_mask_bits, lemma_zero_word, lemma_all_bits_full};
use crate::memory::bitmap::{
    word_bit, bits_view, count_free, lemma_count_free_update, lemma_count_free_all_set,
    lemma_count_free_all_clear, lemma_count_free_le, set_bit, clear_bit, test_bit,
    lemma_view_set, lemma_view_clear, lemma_first_free_in_word, lemma_full_word_bits,
};
use crate::memory::frame_alloc::{FRAME_SIZE, lemma_align_down_mask};

verus! {

/// A virtual address.
///
/// An address in the CPU's virtual address space; it need not be mapped.
#[derive(Clone, Copy, PartialEq, Eq, Structural, PartialOrd, Ord, Hash, Debug)]
pub struct VirtAddr(pub u64);

impl VirtAddr {
    pub fn new(address: u64) -> (r: Self)
        ensures
            r.0 == address,
    {
        Self(address)
    }

    pub fn as_u64(self) -> (r: u64)
        ensures
            r == self.0,
    {
        self.0
    }

    pub fn is_aligned(self) -> (r: bool)
        ensures
            r == (self.0 % FRAME_SIZE == 0),
    {
        self.0 % FRAME_SIZE == 0
    }

    /// Round down to a page boundary.
    pub fn align_down(self) -> (r: Self)
        ensures
            r.0 == self.0 - self.0 % FRAME_SIZE,
    {
        proof {
            lemma_align_down_mask(self.0);
        }
        Self::new(self.0 & !(FRAME_SIZE - 1))
    }

    /// Round up to a page boundary; `None` when that overflows.
    pub fn align_up(self) -> (r: Option<Self>)
        ensures
            self.0 + (FRAME_SIZE - 1) > u64::MAX ==> r == None::<Self>,
            self.0 + (FRAME_SIZE - 1) <= u64::MAX ==> r == Some(
                VirtAddr((((self.0 + 4095) / 4096) * 4096) as u64),
            ),
    {
        match self.0.checked_add(FRAME_SIZE - 1) {
            Some(value) => {
                proof {
                    lemma_align_down_mask(value);
                }
                Some(Self::new(value & !(FRAME_SIZE - 1)))
            },
            None => None,
        }
    }
}

/// A single 4 KiB virtual page.
#[derive(Clone, Copy, PartialEq, Eq, Structural, PartialOrd, Ord, Hash, Debug)]
pub struct Page {
    pub start_address: VirtAddr,
}

impl Page {
    /// Start address of the page as an integer.
    pub open spec fn start(self) -> u64 {
        self.start_address.0
    }

    pub fn from_start_address(address: VirtAddr) -> (r: Option<Self>)
        ensures
            r == (if address.0 % FRAME_SIZE == 0 {
                Some(Page { start_address: address })
            } else {
                None
            }),
    {
        if address.is_aligned() {
            Some(Self { start_address: address })
        } else {
            None
        }
    }

    pub fn containing_address(address: VirtAddr) -> (r: Self)
        ensures
            r.start() == address.0 - address.0 % FRAME_SIZE,
    {
        Self { start_address: address.align_down() }
    }

    pub fn start_address(self) -> (r: VirtAddr)
        ensures
            r == self.start_address,
    {
        self.start_address
    }

    pub fn number(self) -> (r: u64)
        ensures
            r == self.start() / FRAME_SIZE,
    {
        self.start_address.as_u64() / FRAME_SIZE
    }

    /// Index into the level-4 table (address bits 39..48).
    pub fn pml4_index(self) -> (r: usize)
        ensures
            r == (self.start() >> 39u64) & 0x1ffu64,
            r < 512,
    {
        proof {
            let a = self.start();
            assert((a >> 39u64) & 0x1ffu64 < 512) by (bit_vector);
        }
        ((self.start_address.as_u64() >> 39) & 0x1ff) as usize
    }

    /// Index into the page-directory-pointer table (address bits 30..39).
    pub fn pdpt_index(self) -> (r: usize)
        ensures
            r == (self.start() >> 30u64) & 0x1ffu64,
            r < 512,
    {
        proof {
            let a = self.start();
            assert((a >> 30u64) & 0x1ffu64 < 512) by (bit_vector);
        }
        ((self.start_address.as_u64() >> 30) & 0x1ff) as usize
    }

    /// Index into the page directory (address bits 21..30).
    pub fn pd_index(self) -> (r: usize)
        ensures
            r == (self.start() >> 21u64) & 0x1ffu64,
            r < 512,
    {
        proof {
            let a = self.start();
            assert((a >> 21u64) & 0x1ffu64 < 512) by (bit_vector);
        }
        ((self.start_address.as_u64() >> 21) & 0x1ff) as usize
    }

    /// Index into the page table (address bits 12..21).
    pub fn pt_index(self) -> (r: usize)
        ensures
            r == (self.start() >> 12u64) & 0x1ffu64,
            r < 512,
    {
        proof {
            let a = self.start();
            assert((a >> 12u64) & 0x1ffu64 < 512) by (bit_vector);
        }
        ((self.start_address.as_u64() >> 12) & 0x1ff) as usize
    }
}

/// A half-open virtual address range `[start, end)`.
///
/// Ranges built by [`PageRange::new`] have page-aligned ends and are not
/// empty.
#[derive(Clone, Copy, Debug, PartialEq, Eq, Structural)]
pub struct PageRange {
    pub start: VirtAddr,
    pub end: VirtAddr,
}

impl PageRange {
    /// Both ends are page aligned and the range is not empty.
    pub open spec fn wf(self) -> bool {
        &&& self.start.0 % FRAME_SIZE == 0
        &&& self.end.0 % FRAME_SIZE == 0
        &&& self.start.0 < self.end.0
    }

    /// Number of pages in a well-formed range.
    pub open spec fn spec_page_count(self) -> int {
        (self.end.0 - self.start.0) / FRAME_SIZE as int
    }

    pub fn new(start: VirtAddr, end: VirtAddr) -> (r: Option<Self>)
        ensures
            r == (if start.0 % FRAME_SIZE == 0 && end.0 % FRAME_SIZE == 0 && start.0 < end.0 {
                Some(PageRange { start, end })
            } else {
                None
            }),
    {
        if !start.is_aligned() || !end.is_aligned() {
            return None;
        }
        if start.0 >= end.0 {
            return None;
        }
        Some(Self { start, end })
    }

    pub fn start(self) -> (r: VirtAddr)
        ensures
            r == self.start,
    {
        self.start
    }

    pub fn end(self) -> (r: VirtAddr)
        ensures
            r == self.end,
    {
        self.end
    }

    pub fn page_count(self) -> (r: u64)
        requires
            self.wf(),
        ensures
            r == self.spec_page_count(),
    {
        (self.end.as_u64() - self.start.as_u64()) / FRAME_SIZE
    }

    /// The page `index` pages into the range; `None` past its end.
    pub fn page_at(self, index: u64) -> (r: Option<Page>)
        requires
            self.wf(),
        ensures
            index >= self.spec_page_count() ==> r == None::<Page>,
            index < self.spec_page_count() ==> r == Some(
                Page { start_address: VirtAddr((self.start.0 + index * FRAME_SIZE) as u64) },
            ),
    {
        if index >= self.page_count() {
            return None;
        }
        let offset = index * FRAME_SIZE;
        let address = self.start.as_u64() + offset;
        Page::from_start_address(VirtAddr::new(address))
    }
}

/// Errors produced by the virtual-page allocator.
#[derive(Debug, Clone, Copy, PartialEq, Eq, Structural)]
pub enum PageAllocatorError {
    UnalignedRange,
    InvalidRange,
    RangeTooLarge,
    TooManyPages,
    BitmapTooLarge,
    InvalidPage,
    AlreadyAllocated,
    AlreadyFree,
    ReservationOutsideRange,
}

/// Statistics about the virtual-page allocator.
#[derive(Debug, Clone, Copy)]
pub struct PageAllocatorStats {
    pub total_pages: u64,
    pub free_pages: u64,
    pub allocated_pages: u64,
}

/// The outcome of reserving `range` in an allocator whose first page is
/// `start_page` and whose pages are in the state `v`: the range must lie
/// inside the allocator's pages, hold at least one page and be entirely
/// free; then all of it becomes allocated.
pub open spec fn spec_reserve(v: Seq<bool>, start_page: u64, range: PageRange) -> Result<
    Seq<bool>,
    PageAllocatorError,
> {
    let first = range.start.0 / FRAME_SIZE - start_page;
    let last = range.end.0 / FRAME_SIZE - start_page;
    if first < 0 || last < 0 || last > v.len() {
        Err(PageAllocatorError::ReservationOutsideRange)
    } else if first >= last {
        Err(PageAllocatorError::InvalidRange)
    } else if exists|i: int| first <= i < last && #[trigger] v[i] {
        Err(PageAllocatorError::AlreadyAllocated)
    } else {
        Ok(Seq::new(v.len(), |i: int| if first <= i < last { true } else { v[i] }))
    }
}

/// Bitmap-backed virtual-page allocator.
///
/// One bit per virtual page: 0 = free, 1 = allocated.
///
/// It only manages virtual address ownership: it does not create page
/// tables, map frames, unmap pages or flush TLB entries.
pub struct BitmapPageAllocator {
    bitmap: Vec<u64>,
    /// First virtual page represented by this allocator.
    start_page: u64,
    /// Number of virtual pages represented.
    page_count: u64,
    /// Number of currently free pages.
    free_pages: u64,
    /// Bitmap word from which allocation starts.
    next_word: usize,
}

impl View for BitmapPageAllocator {
    /// Allocation state of every page, indexed from the first page of the
    /// range.
    type V = Seq<bool>;

    closed spec fn view(&self) -> Seq<bool> {
        bits_view(self.bitmap@, self.page_count as nat)
    }
}

impl BitmapPageAllocator {
    /// Internal consistency of the allocator.
    pub closed spec fn wf(&self) -> bool {
        &&& self.page_count <= self.bitmap@.len() * 64
        &&& self.bitmap@.len() * 64 <= usize::MAX
        &&& (self.start_page + self.page_count) * FRAME_SIZE <= u64::MAX
        &&& self.free_pages == count_free(self@)
        &&& self.next_word <= self.bitmap@.len()
        &&& forall|i: int|
            self.page_count <= i < self.bitmap@.len() * 64 ==> #[trigger] word_bit(
                self.bitmap@,
                i,
            )
        &&& forall|i: int| 0 <= i < self.next_word * 64 ==> #[trigger] word_bit(self.bitmap@, i)
    }

    /// Number of the first page managed by the allocator.
    pub closed spec fn spec_start_page(&self) -> u64 {
        self.start_page
    }

    /// The pages managed by the allocator lie below the top of the address space.
    pub proof fn lemma_wf_bounds(&self)
        requires
            self.wf(),
        ensures
            (self.spec_start_page() + self@.len()) * FRAME_SIZE <= u64::MAX,
            count_free(self@) <= self@.len(),
    {
        lemma_count_free_le(self@);
    }

    /// Create a virtual page allocator for `range`, keeping its bitmap in the
    /// first `bitmap_words_for_pages(page count)` words of `bitmap_storage`.
    ///
    /// Every page of the range starts free.
    pub fn new(range: PageRange, bitmap_storage: Vec<u64>) -> (r: Result<Self, PageAllocatorError>)
        requires
            range.wf(),
        ensures
            ({
                let count = range.spec_page_count();
                let words = (count + 63) / 64;
                if words > usize::MAX / 64 {
                    r == Err::<Self, PageAllocatorError>(PageAllocatorError::TooManyPages)
                } else if bitmap_storage@.len() < words {
                    r == Err::<Self, PageAllocatorError>(PageAllocatorError::BitmapTooLarge)
                } else {
                    r matches Ok(a) && a.wf() && a@ == Seq::new(count as nat, |i: int| false)
                        && a.spec_start_page() == range.start.0 / FRAME_SIZE
                }
            }),
    {
        let page_count = range.page_count();
        if page_count == 0 {
            return Err(PageAllocatorError::InvalidRange);
        }
        let required_words = bitmap_words_for_pages(page_count)?;
        if required_words > usize::MAX / 64 {
            return Err(PageAllocatorError::TooManyPages);
        }
        if bitmap_storage.len() < required_words {
            return Err(PageAllocatorError::BitmapTooLarge);
        }
        let mut bitmap = bitmap_storage;
        bitmap.truncate(required_words);
        let mut w: usize = 0;
        while w < required_words
            invariant
                bitmap@.len() == required_words,
                0 <= w <= required_words,
                forall|j: int| 0 <= j < w ==> bitmap@[j] == 0u64,
            decreases required_words - w,
        {
            bitmap.set(w, 0);
            w = w + 1;
        }
        // Mark unused bits in the final bitmap word as allocated.
        let remaining_bits = page_count % 64;
        if remaining_bits != 0 {
            let last_word = required_words - 1;
            assert(1u64 << remaining_bits >= 1u64) by (bit_vector)
                requires
                    remaining_bits < 64,
            ;
            bitmap.set(last_word, !((1u64 << remaining_bits) - 1));
        }
        let allocator = Self {
            bitmap,
            start_page: range.start.as_u64() / FRAME_SIZE,
            page_count,
            free_pages: page_count,
            next_word: 0,
        };
        proof {
            let words = allocator.bitmap@;
            assert forall|i: int| 0 <= i < words.len() * 64 implies #[trigger] word_bit(words, i)
                == (i >= page_count) by {
                let wi = i / 64;
                let b = (i % 64) as u64;
                if remaining_bits != 0 && wi == required_words - 1 {
                    lemma_high_mask_bits(remaining_bits, b);
                    assert(page_count == (required_words - 1) * 64 + remaining_bits);
                } else {
                    lemma_zero_word(b);
                    assert(i < page_count);
                }
            }
            assert(allocator@ =~= Seq::new(page_count as nat, |i: int| false));
            lemma_count_free_all_clear(allocator@);
        }
        Ok(allocator)
    }

    pub fn total_pages(&self) -> (r: u64)
        requires
            self.wf(),
        ensures
            r == self@.len(),
    {
        self.page_count
    }

    pub fn free_pages(&self) -> (r: u64)
        requires
            self.wf(),
        ensures
            r == count_free(self@),
    {
        self.free_pages
    }

    pub fn allocated_pages(&self) -> (r: u64)
        requires
            self.wf(),
        ensures
            r == self@.len() - count_free(self@),
    {
        proof {
            lemma_count_free_le(self@);
        }
        self.page_count - self.free_pages
    }

    pub fn stats(&self) -> (r: PageAllocatorStats)
        requires
            self.wf(),
        ensures
            r.total_pages == self@.len(),
            r.free_pages == count_free(self@),
            r.allocated_pages == self@.len() - count_free(self@),
    {
        PageAllocatorStats {
            total_pages: self.page_count,
            free_pages: self.free_pages,
            allocated_pages: self.allocated_pages(),
        }
    }

    /// Take the free bit `index`, which is the lowest free one, for an allocation.
    fn take_index(&mut self, index: usize, word_index: usize) -> (r: Option<Page>)
        requires
            old(self).wf(),
            index < old(self).page_count,
            word_index == index / 64,
            !old(self)@[index as int],
            forall|j: int| 0 <= j < index ==> #[trigger] old(self)@[j],
        ensures
            final(self).wf(),
            final(self).start_page == old(self).start_page,
            r == Some(
                Page {
                    start_address: VirtAddr(
                        ((old(self).start_page + index) * FRAME_SIZE) as u64,
                    ),
                },
            ),
            final(self)@ == old(self)@.update(index as int, true),
    {
        let ghost old_words = self.bitmap@;
        let ghost old_view = self@;
        set_bit(&mut self.bitmap, index);
        proof {
            lemma_view_set(old_words, self.bitmap@, self.page_count as nat, index as int);
            lemma_count_free_update(old_view, index as int, true);
        }
        self.free_pages = self.free_pages - 1;
        self.next_word = word_index;
        proof {
            assert forall|i: int| 0 <= i < self.next_word * 64 implies #[trigger] word_bit(
                self.bitmap@,
                i,
            ) by {
                assert(old_view[i]);
            }
        }
        let page_number = self.start_page + index as u64;
        let address = page_number * FRAME_SIZE;
        Page::from_start_address(VirtAddr::new(address))
    }

    /// Allocate the lowest-numbered free page; `None` exactly when no page
    /// is free.
    pub fn allocate(&mut self) -> (r: Option<Page>)
        requires
            old(self).wf(),
        ensures
            final(self).wf(),
            final(self).spec_start_page() == old(self).spec_start_page(),
            match r {
                None => count_free(old(self)@) == 0 && final(self)@ == old(self)@,
                Some(page) => {
                    let n = page.start() / FRAME_SIZE - old(self).spec_start_page();
                    &&& page.start() % FRAME_SIZE == 0
                    &&& old(self).spec_start_page() <= page.start() / FRAME_SIZE
                    &&& n < old(self)@.len()
                    &&& !old(self)@[n as int]
                    &&& forall|j: int| 0 <= j < n ==> #[trigger] old(self)@[j]
                    &&& final(self)@ == old(self)@.update(n as int, true)
                },
            },
    {
        if self.free_pages == 0 {
            return None;
        }
        let word_count = self.bitmap.len();
        // First search from the cursor.
        let mut word_index = self.next_word;
        while word_index < word_count
            invariant
                self.wf(),
                self.bitmap@ == old(self).bitmap@,
                self.start_page == old(self).start_page,
                self.page_count == old(self).page_count,
                self.free_pages == old(self).free_pages,
                self.next_word == old(self).next_word,
                word_count == self.bitmap@.len(),
                self.next_word <= word_index <= word_count,
                self.free_pages > 0,
                forall|i: int| 0 <= i < word_index * 64 ==> #[trigger] word_bit(self.bitmap@, i),
            decreases word_count - word_index,
        {
            let word = self.bitmap[word_index];
            if word == u64::MAX {
                proof {
                    lemma_full_word_bits(self.bitmap@, word_index as int);
                }
                word_index = word_index + 1;
                continue;
            }
            proof {
                lemma_first_free_in_word(self.bitmap@, word_index as int);
            }
            let bit_index = (!word).trailing_zeros() as usize;
            let local_page_index = word_index * 64 + bit_index;
            if local_page_index as u64 >= self.page_count {
                proof {
                    assert(word_bit(self.bitmap@, local_page_index as int));
                }
                word_index = word_index + 1;
                continue;
            }
            proof {
                assert forall|j: int| 0 <= j < local_page_index implies #[trigger] self@[j] by {
                    assert(word_bit(self.bitmap@, j));
                }
            }
            return self.take_index(local_page_index, word_index);
        }
        // We may have wrapped around: search the words before the cursor.
        let mut word_index: usize = 0;
        while word_index < self.next_word
            invariant
                self.wf(),
                self.bitmap@ == old(self).bitmap@,
                self.start_page == old(self).start_page,
                self.page_count == old(self).page_count,
                self.free_pages == old(self).free_pages,
                word_count == self.bitmap@.len(),
                0 <= word_index <= self.next_word,
                self.free_pages > 0,
                forall|i: int| 0 <= i < word_count * 64 ==> #[trigger] word_bit(self.bitmap@, i),
            decreases self.next_word - word_index,
        {
            let word = self.bitmap[word_index];
            if word == u64::MAX {
                word_index = word_index + 1;
                continue;
            }
            proof {
                lemma_first_free_in_word(self.bitmap@, word_index as int);
            }
            let bit_index = (!word).trailing_zeros() as usize;
            let local_page_index = word_index * 64 + bit_index;
            if local_page_index as u64 >= self.page_count {
                word_index = word_index + 1;
                continue;
            }
            proof {
                assert(word_bit(self.bitmap@, local_page_index as int));
            }
            return self.take_index(local_page_index, word_index);
        }
        proof {
            assert forall|i: int| 0 <= i < self@.len() implies #[trigger] self@[i] by {
                assert(word_bit(self.bitmap@, i));
            }
            lemma_count_free_all_set(self@);
        }
        None
    }

    /// Free a virtual page: `InvalidPage` outside the range, `AlreadyFree`
    /// for a page that is not allocated.
    ///
    /// This only releases the virtual address.
    pub fn deallocate(&mut self, page: Page) -> (r: Result<(), PageAllocatorError>)
        requires
            old(self).wf(),
        ensures
            final(self).wf(),
            final(self).spec_start_page() == old(self).spec_start_page(),
            ({
                let number = page.start() / FRAME_SIZE;
                let n = number - old(self).spec_start_page();
                if number < old(self).spec_start_page() || n >= old(self)@.len() {
                    r == Err::<(), PageAllocatorError>(PageAllocatorError::InvalidPage)
                        && final(self)@ == old(self)@
                } else if !old(self)@[n] {
                    r == Err::<(), PageAllocatorError>(PageAllocatorError::AlreadyFree)
                        && final(self)@ == old(self)@
                } else {
                    r == Ok::<(), PageAllocatorError>(()) && final(self)@ == old(self)@.update(
                        n,
                        false,
                    )
                }
            }),
    {
        let index = self.page_index(page)?;
        let word_index = index / 64;
        if !test_bit(&self.bitmap, index) {
            return Err(PageAllocatorError::AlreadyFree);
        }
        let ghost old_words = self.bitmap@;
        let ghost old_view = self@;
        clear_bit(&mut self.bitmap, index);
        proof {
            lemma_view_clear(old_words, self.bitmap@, self.page_count as nat, index as int);
            lemma_count_free_update(old_view, index as int, false);
            lemma_count_free_le(self@);
        }
        self.free_pages = self.free_pages + 1;
        if word_index < self.next_word {
            self.next_word = word_index;
        }
        proof {
            assert forall|i: int| 0 <= i < self.next_word * 64 implies #[trigger] word_bit(
                self.bitmap@,
                i,
            ) by {
                assert(word_bit(old_words, i));
                assert(i != index);
            }
        }
        Ok(())
    }

    /// Check whether a page is allocated: `InvalidPage` outside the range.
    pub fn is_allocated(&self, page: Page) -> (r: Result<bool, PageAllocatorError>)
        requires
            self.wf(),
        ensures
            ({
                let number = page.start() / FRAME_SIZE;
                let n = number - self.spec_start_page();
                if number < self.spec_start_page() || n >= self@.len() {
                    r == Err::<bool, PageAllocatorError>(PageAllocatorError::InvalidPage)
                } else {
                    r == Ok::<bool, PageAllocatorError>(self@[n])
                }
            }),
    {
        let index = self.page_index(page)?;
        Ok(test_bit(&self.bitmap, index))
    }

    fn page_index(&self, page: Page) -> (r: Result<usize, PageAllocatorError>)
        requires
            self.wf(),
        ensures
            ({
                let number = page.start() / FRAME_SIZE;
                let n = number - self.spec_start_page();
                if number < self.spec_start_page() || n >= self@.len() {
                    r == Err::<usize, PageAllocatorError>(PageAllocatorError::InvalidPage)
                } else {
                    r == Ok::<usize, PageAllocatorError>(n as usize)
                }
            }),
    {
        let page_number = page.number();
        if page_number < self.start_page {
            return Err(PageAllocatorError::InvalidPage);
        }
        let index = page_number - self.start_page;
        if index >= self.page_count {
            return Err(PageAllocatorError::InvalidPage);
        }
        Ok(index as usize)
    }

    /// Reserve an entire virtual range, which must lie inside this
    /// allocator's range and be entirely free; a failed reservation changes
    /// nothing.
    pub fn reserve(&mut self, range: PageRange) -> (r: Result<(), PageAllocatorError>)
        requires
            old(self).wf(),
        ensures
            final(self).wf(),
            final(self).spec_start_page() == old(self).spec_start_page(),
            match spec_reserve(old(self)@, old(self).spec_start_page(), range) {
                Ok(v) => r == Ok::<(), PageAllocatorError>(()) && final(self)@ == v,
                Err(e) => r == Err::<(), PageAllocatorError>(e) && final(self)@ == old(self)@,
            },
    {
        let start_page = range.start().as_u64() / FRAME_SIZE;
        let end_page = range.end().as_u64() / FRAME_SIZE;
        if start_page < self.start_page {
            return Err(PageAllocatorError::ReservationOutsideRange);
        }
        let relative_start = start_page - self.start_page;
        let relative_end = match end_page.checked_sub(self.start_page) {
            Some(v) => v,
            None => return Err(PageAllocatorError::ReservationOutsideRange),
        };
        if relative_end > self.page_count {
            return Err(PageAllocatorError::ReservationOutsideRange);
        }
        if relative_start >= relative_end {
            return Err(PageAllocatorError::InvalidRange);
        }
        let start = relative_start as usize;
        let end = relative_end as usize;
        // Check everything first, so that a failed reservation does not
        // partially modify the bitmap.
        let mut index = start;
        while index < end
            invariant
                self.wf(),
                self.bitmap@ == old(self).bitmap@,
                self.start_page == old(self).start_page,
                self.page_count == old(self).page_count,
                self.free_pages == old(self).free_pages,
                self.next_word == old(self).next_word,
                start <= index <= end,
                end <= self.page_count,
                start as int == range.start.0 / FRAME_SIZE - old(self).start_page,
                end as int == range.end.0 / FRAME_SIZE - old(self).start_page,
                forall|i: int| start <= i < index ==> !#[trigger] self@[i],
            decreases end - index,
        {
            if test_bit(&self.bitmap, index) {
                proof {
                    assert(self@ == old(self)@);
                    assert(old(self)@[index as int]);
                }
                return Err(PageAllocatorError::AlreadyAllocated);
            }
            index = index + 1;
        }
        // Now perform the reservation.
        let ghost old_view = self@;
        let mut index = start;
        while index < end
            invariant
                self.wf(),
                self.start_page == old(self).start_page,
                self.page_count == old(self).page_count,
                old_view == old(self)@,
                start <= index <= end,
                end <= self.page_count,
                forall|i: int| start <= i < end ==> !#[trigger] old_view[i],
                self@ == Seq::new(
                    old_view.len(),
                    |i: int|
                        if start <= i < index {
                            true
                        } else {
                            old_view[i]
                        },
                ),
            decreases end - index,
        {
            let ghost old_words = self.bitmap@;
            let ghost before = self@;
            set_bit(&mut self.bitmap, index);
            proof {
                lemma_view_set(old_words, self.bitmap@, self.page_count as nat, index as int);
                lemma_count_free_update(before, index as int, true);
                assert forall|i: int| 0 <= i < self.next_word * 64 implies #[trigger] word_bit(
                    self.bitmap@,
                    i,
                ) by {
                    assert(word_bit(old_words, i));
                }
            }
            self.free_pages = self.free_pages - 1;
            index = index + 1;
            proof {
                assert(self@ =~= Seq::new(
                    old_view.len(),
                    |i: int|
                        if start <= i < index {
                            true
                        } else {
                            old_view[i]
                        },
                ));
            }
        }
        let start_word = start / 64;
        if start_word < self.next_word {
            self.next_word = start_word;
        }
        proof {
            if exists|i: int| start <= i < end && #[trigger] old_view[i] {
                let i = choose|i: int| start <= i < end && #[trigger] old_view[i];
                assert(!old_view[i]);
            }
        }
        Ok(())
    }

    /// Consistency check: recount the free pages in the bitmap and compare
    /// the count with the cached one. Always `true` for a well-formed allocator.
    pub fn verify(&self) -> (r: bool)
        requires
            self.wf(),
        ensures
            r,
    {
        let mut free_count: u64 = 0;
        let mut index: u64 = 0;
        while index < self.page_count
            invariant
                self.wf(),
                index <= self.page_count,
                free_count == count_free(self@.take(index as int)),
            decreases self.page_count - index,
        {
            proof {
                assert(self@.take(index + 1).drop_last() =~= self@.take(index as int));
                lemma_count_free_le(self@.take(index as int));
            }
            if !test_bit(&self.bitmap, index as usize) {
                free_count = free_count + 1;
            }
            index = index + 1;
        }
        proof {
            assert(self@.take(index as int) =~= self@);
        }
        free_count == self.free_pages
    }
}

/// Calculate the number of `u64` words needed for a bitmap of `page_count` bits.
pub fn bitmap_words_for_pages(page_count: u64) -> (r: Result<usize, PageAllocatorError>)
    ensures
        page_count + 63 > u64::MAX ==> r == Err::<usize, PageAllocatorError>(
            PageAllocatorError::TooManyPages,
        ),
        page_count + 63 <= u64::MAX && (page_count + 63) / 64 > usize::MAX ==> r == Err::<
            usize,
            PageAllocatorError,
        >(PageAllocatorError::TooManyPages),
        page_count + 63 <= u64::MAX && (page_count + 63) / 64 <= usize::MAX ==> r == Ok::<
            usize,
            PageAllocatorError,
        >(((page_count + 63) / 64) as usize),
{
    let words = match page_count.checked_add(63) {
        Some(v) => v / 64,
        None => return Err(PageAllocatorError::TooManyPages),
    };
    if words > usize::MAX as u64 {
        return Err(PageAllocatorError::TooManyPages);
    }
    Ok(words as usize)
}

/// Calculate the number of bytes needed for a bitmap of `page_count` bits.
pub fn bitmap_bytes_for_pages(page_count: u64) -> (r: Result<u64, PageAllocatorError>)
    ensures
        page_count + 63 > u64::MAX || (page_count + 63) / 64 > usize::MAX ==> r == Err::<
            u64,
            PageAllocatorError,
        >(PageAllocatorError::TooManyPages),
        page_count + 63 <= u64::MAX && (page_count + 63) / 64 <= usize::MAX ==> r == Ok::<
            u64,
            PageAllocatorError,
        >((((page_count + 63) / 64) * 8) as u64),
{
    let words = bitmap_words_for_pages(page_count)?;
    let words = words as u64;
    match words.checked_mul(8) {
        Some(v) => Ok(v),
        None => Err(PageAllocatorError::BitmapTooLarge),
    }
}

} // verus!
