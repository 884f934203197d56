use std::ops::Range;
use vstd::prelude::*;

verus! {

/// Size of a page in bytes.
pub const PAGE_SIZE: usize = 4096;

pub const MEMORY_END: usize = 0x88000000;
pub const KERNEL_HEAP_SIZE: usize = 0x800000;
pub const KERNEL_HEAP_END_ADDR: usize = MEMORY_END;
pub const KERNEL_HEAP_START_ADDR: usize = KERNEL_HEAP_END_ADDR - KERNEL_HEAP_SIZE;
pub const KERNEL_STACK_SIZE: usize = 0x2000;
pub const KERNEL_STACK_START_ADDR: usize = KERNEL_HEAP_START_ADDR - KERNEL_STACK_SIZE;
pub const KERNEL_STACK_END_ADDR: usize = KERNEL_HEAP_START_ADDR;
pub const KERNEL_STACK_TOP: usize = KERNEL_STACK_END_ADDR;
pub const DMA_SIZE: usize = 6 * 0x1000;
pub const DMA_END_ADDR: usize = KERNEL_STACK_START_ADDR;
pub const DMA_START_ADDR: usize = DMA_END_ADDR - DMA_SIZE;
pub const AVAILABLE_MEMORY_END: usize = DMA_START_ADDR;
pub const USER_STACK_SIZE: usize = 0x2000;
pub const USER_HEAP_SIZE: usize = 0x80000;

/// Number of the page that holds address `addr`.
pub fn page_down(addr: usize) -> (r: usize)
    ensures
        r == addr / PAGE_SIZE,
{
    addr / PAGE_SIZE
}

/// Number of the first page that starts at or after address `addr`.
pub fn page_up(addr: usize) -> (r: usize)
    requires
        addr + PAGE_SIZE - 1 <= usize::MAX,
    ensures
        r == (addr + PAGE_SIZE - 1) / PAGE_SIZE as int,
{
    (addr + (PAGE_SIZE - 1)) / PAGE_SIZE
}

/// A range of virtual addresses to map, identically or not, for the user or not.
pub struct Segment {
    pub va_range: Range<usize>,
    pub identical: bool,
    pub user_accessible: bool,
}

impl Segment {
    /// A segment mapped to the same physical addresses, for the kernel only.
    pub fn new_identical(va_range: Range<usize>) -> (r: Self)
        ensures
            r.va_range == va_range,
            r.identical,
            !r.user_accessible,
    {
        Self { va_range, identical: true, user_accessible: false }
    }

    /// A segment mapped to fresh frames, open to the user.
    pub fn new_user_accessible(va_range: Range<usize>) -> (r: Self)
        ensures
            r.va_range == va_range,
            !r.identical,
            r.user_accessible,
    {
        Self { va_range, identical: false, user_accessible: true }
    }

    /// The pages the segment covers: from the page of its start to the page boundary at or
    /// after its end.
    pub fn vpn_range(&self) -> (r: Range<usize>)
        requires
            self.va_range.end + PAGE_SIZE - 1 <= usize::MAX,
        ensures
            r.start == self.va_range.start / PAGE_SIZE,
            r.end == (self.va_range.end + PAGE_SIZE - 1) / PAGE_SIZE as int,
    {
        let start_vpn = page_down(self.va_range.start);
        let end_vpn = page_up(self.va_range.end);
        start_vpn..end_vpn
    }
}

/// A range of virtual addresses to map, identically or not, visible to the user or not.
pub struct LogicalSegment {
    pub virtual_range: Range<usize>,
    pub identical: bool,
    pub user_visible: bool,
}

impl LogicalSegment {
    /// The pages the segment covers.
    pub fn virtual_page_range(&self) -> (r: Range<usize>)
        requires
            self.virtual_range.end + PAGE_SIZE - 1 <= usize::MAX,
        ensures
            r.start == self.virtual_range.start / PAGE_SIZE,
            r.end == (self.virtual_range.end + PAGE_SIZE - 1) / PAGE_SIZE as int,
    {
        let start = page_down(self.virtual_range.start);
        let end = page_up(self.virtual_range.end);
        start..end
    }
}

/// Hands out physical pages for device buffers, in increasing order.
pub struct DMAAllocator {
    current: usize,
    end: usize,
}

impl DMAAllocator {
    /// The next page to hand out.
    pub closed spec fn current(&self) -> int {
        self.current as int
    }

    /// The page at which handing out stops.
    pub closed spec fn end(&self) -> int {
        self.end as int
    }

    /// Pages from the first whole page at or after `start_pa` to the page of `end_pa`.
    pub fn new(start_pa: usize, end_pa: usize) -> (r: Self)
        requires
            start_pa + PAGE_SIZE - 1 <= usize::MAX,
        ensures
            r.current() == (start_pa + PAGE_SIZE - 1) / PAGE_SIZE as int,
            r.end() == end_pa / PAGE_SIZE,
    {
        Self { current: page_up(start_pa), end: page_down(end_pa) }
    }

    /// Hands out `page_num` pages and returns the number of the first.
    pub fn allocate(&mut self, page_num: usize) -> (r: usize)
        requires
            old(self).current() != old(self).end(),
            old(self).current() + page_num <= usize::MAX,
        ensures
            r == old(self).current(),
            final(self).current() == old(self).current() + page_num,
            final(self).end() == old(self).end(),
    {
        let ppn = self.current;
        self.current += page_num;
        ppn
    }
}

/// The device driver's view of memory.
pub struct VirtioHal;

impl VirtioHal {
    /// Hands out `pages` pages for a device and returns the address of the first.
    pub fn dma_alloc(alloc: &mut DMAAllocator, pages: usize) -> (r: usize)
        requires
            old(alloc).current() != old(alloc).end(),
            old(alloc).current() + pages <= usize::MAX,
            old(alloc).current() * PAGE_SIZE <= usize::MAX,
        ensures
            r == old(alloc).current() * PAGE_SIZE,
            final(alloc).current() == old(alloc).current() + pages,
            final(alloc).end() == old(alloc).end(),
    {
        let ppn = alloc.allocate(pages);
        ppn * PAGE_SIZE
    }

    /// Physical addresses are mapped identically.
    pub fn phys_to_virt(addr: usize) -> (r: usize)
        ensures
            r == addr,
    {
        addr
    }
}

} // verus!
