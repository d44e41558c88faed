//! Physical memory: frames, the identity-mapped range, the heap region and
//! the frame allocators.
use vstd::prelude::*;
use crate::efi::{EfiMemoryDescriptor, MemoryMapHolder, EFI_CONVENTIONAL_MEMORY};

pub mod allocator;
pub mod mapper;

verus! {

/// Size of a physical frame and of a small page.
pub const PAGE_SIZE: u64 = 4096;

/// Number of 1 GiB regions the identity map covers.
pub const IDENTITY_MAPPED_GIBS: u64 = 4;

/// First address that the identity map does not cover (4 GiB).
pub const IDENTITY_MAP_LIMIT: u64 = 0x1_0000_0000;

/// A 4 KiB frame of physical memory, named by its start address.
#[derive(Debug, Clone, Copy, PartialEq, Eq, Structural)]
pub struct PhysicalFrame {
    pub start_address: u64,
}

/// Start of the kernel heap's fixed virtual range (8 MiB).
pub const HEAP_START: usize = 0x0080_0000;

/// Bytes of the kernel heap (100 KiB).
pub const HEAP_SIZE: usize = 100 * 1024;

/// A fixed range of addresses handed to the heap allocator.
#[derive(Debug, Clone, Copy, PartialEq, Eq, Structural)]
pub struct HeapRegion {
    pub start: usize,
    pub size: usize,
}

impl HeapRegion {
    /// The range `[start, start + size)`, when it lies entirely inside the
    /// identity-mapped range; `None` otherwise.
    pub fn new(start: usize, size: usize) -> (r: Option<HeapRegion>)
        ensures
            start + size <= IDENTITY_MAP_LIMIT <==> r == Some(HeapRegion { start, size }),
            start + size > IDENTITY_MAP_LIMIT <==> r is None,
    {
        if start as u64 <= IDENTITY_MAP_LIMIT && size as u64 <= IDENTITY_MAP_LIMIT - start as u64 {
            Some(HeapRegion { start, size })
        } else {
            None
        }
    }
}

/// Page `p` of the region `d` is conventional memory whose end address
/// still fits in 64 bits.
pub open spec fn page_available(d: EfiMemoryDescriptor, p: int) -> bool {
    &&& d.memory_type == EFI_CONVENTIONAL_MEMORY
    &&& 0 <= p < d.number_of_pages
    &&& d.physical_start + (p + 1) * PAGE_SIZE <= u64::MAX
}

/// The first available page at or after page `p` of region `i`, going on
/// from page 0 of the following regions.
pub open spec fn next_available(ds: Seq<EfiMemoryDescriptor>, i: int, p: int) -> Option<(int, int)>
    decreases ds.len() - i,
{
    if i < 0 || i >= ds.len() {
        None
    } else if page_available(ds[i], p) {
        Some((i, p))
    } else {
        next_available(ds, i + 1, 0)
    }
}

/// Position (`a.0`, `a.1`) comes before (`b.0`, `b.1`): an earlier region, or
/// an earlier page of the same region.
pub open spec fn position_before(a: (int, int), b: (int, int)) -> bool {
    a.0 < b.0 || (a.0 == b.0 && a.1 < b.1)
}

/// Address of page `p` of the region `d`.
pub open spec fn page_address(d: EfiMemoryDescriptor, p: int) -> int {
    d.physical_start + p * PAGE_SIZE
}

/// No two regions of the map share a byte, as the firmware promises.
pub open spec fn regions_disjoint(ds: Seq<EfiMemoryDescriptor>) -> bool {
    forall|i: int, j: int|
        0 <= i < ds.len() && 0 <= j < ds.len() && i != j ==> {
            ||| #[trigger] ds[i].physical_start + ds[i].number_of_pages * PAGE_SIZE <= ds[j].physical_start
            ||| #[trigger] ds[j].physical_start + ds[j].number_of_pages * PAGE_SIZE <= ds[i].physical_start
        }
}

/// The search from (`i`, `p`) ends on an available page at or after it.
pub proof fn lemma_next_available_is_ahead(ds: Seq<EfiMemoryDescriptor>, i: int, p: int)
    requires
        0 <= i,
    ensures
        next_available(ds, i, p) matches Some((j, q)) ==> {
            &&& 0 <= j < ds.len()
            &&& page_available(ds[j], q)
            &&& (j, q) == (i, p) || position_before((i, p), (j, q))
        },
    decreases ds.len() - i,
{
    if 0 <= i < ds.len() && !page_available(ds[i], p) {
        lemma_next_available_is_ahead(ds, i + 1, 0);
    }
}

/// In a map of disjoint regions, two different available pages have
/// different addresses.
pub proof fn lemma_pages_are_distinct(ds: Seq<EfiMemoryDescriptor>, i: int, p: int, j: int, q: int)
    requires
        regions_disjoint(ds),
        0 <= i < ds.len(),
        0 <= j < ds.len(),
        page_available(ds[i], p),
        page_available(ds[j], q),
        (i, p) != (j, q),
    ensures
        page_address(ds[i], p) != page_address(ds[j], q),
{
    if i != j {
        assert(ds[i].physical_start + ds[i].number_of_pages * PAGE_SIZE <= ds[j].physical_start
            || ds[j].physical_start + ds[j].number_of_pages * PAGE_SIZE <= ds[i].physical_start);
        assert(p * 4096 + 4096 <= ds[i].number_of_pages * 4096) by (nonlinear_arith)
            requires
                p < ds[i].number_of_pages,
        ;
        assert(q * 4096 + 4096 <= ds[j].number_of_pages * 4096) by (nonlinear_arith)
            requires
                q < ds[j].number_of_pages,
        ;
    }
}

/// Hands out the pages of the conventional-memory regions in the order the
/// memory map lists them.
pub struct BootInfoFrameAllocator {
    memory_map: Vec<EfiMemoryDescriptor>,
    next_desc: usize,
    next_page: u64,
    /// Start addresses of the frames handed out so far, in order.
    handed_out: Ghost<Seq<u64>>,
}

impl BootInfoFrameAllocator {
    pub closed spec fn descriptors(&self) -> Seq<EfiMemoryDescriptor> {
        self.memory_map@
    }

    /// Start addresses of the frames handed out so far, in order.
    pub closed spec fn history(&self) -> Seq<u64> {
        self.handed_out@
    }

    /// `addr` is an available page of the map at a position already passed.
    pub closed spec fn passed(&self, addr: u64) -> bool {
        exists|i: int, p: int|
            #![trigger self.memory_map@[i], page_address(self.memory_map@[i], p)]
            0 <= i < self.memory_map@.len() && page_available(self.memory_map@[i], p)
                && position_before((i, p), self.position()) && addr == page_address(self.memory_map@[i], p)
    }

    pub closed spec fn wf(&self) -> bool {
        &&& self.next_desc <= self.memory_map@.len()
        &&& self.next_desc == self.memory_map@.len() ==> self.next_page == 0
        &&& forall|k: int| 0 <= k < self.handed_out@.len() ==> self.passed(#[trigger] self.handed_out@[k])
    }

    /// Region and page where the search for the next frame starts.
    pub closed spec fn position(&self) -> (int, int) {
        (self.next_desc as int, self.next_page as int)
    }

    /// Reads the descriptors of a captured map at its recorded stride. A
    /// stride below a descriptor's size or a map larger than its buffer is
    /// fatal and left out by `requires`.
    pub fn new(holder: &MemoryMapHolder) -> (a: Self)
        requires
            holder.readable(),
        ensures
            a.wf(),
            a.descriptors() == holder.descriptors(),
            a.position() == (0int, 0int),
            a.history() == Seq::<u64>::empty(),
    {
        let num_desc = holder.descriptor_count();
        let mut memory_map: Vec<EfiMemoryDescriptor> = Vec::new();
        let mut i: usize = 0;
        while i < num_desc
            invariant
                holder.readable(),
                num_desc == holder.descriptors().len(),
                i <= num_desc,
                memory_map@ == holder.descriptors().subrange(0, i as int),
            decreases num_desc - i,
        {
            memory_map.push(holder.descriptor(i));
            i = i + 1;
        }
        assert(memory_map@ =~= holder.descriptors());
        BootInfoFrameAllocator { memory_map, next_desc: 0, next_page: 0, handed_out: Ghost(Seq::empty()) }
    }

    /// Hands out the next available page of the map and moves past it, or
    /// returns `None` once every region is used up. The frames handed out
    /// are recorded in `history`; when the regions are disjoint, as the
    /// firmware promises, a frame handed out is never one handed out before.
    pub fn allocate_frame(&mut self) -> (r: Option<PhysicalFrame>)
        requires
            old(self).wf(),
        ensures
            final(self).wf(),
            final(self).descriptors() == old(self).descriptors(),
            match next_available(old(self).descriptors(), old(self).position().0, old(self).position().1) {
                Some((i, p)) => {
                    &&& r == Some(
                        PhysicalFrame {
                            start_address: (old(self).descriptors()[i].physical_start + p * PAGE_SIZE) as u64,
                        },
                    )
                    &&& final(self).position() == (i, p + 1)
                    &&& final(self).history() == old(self).history().push(r->0.start_address)
                    &&& regions_disjoint(old(self).descriptors()) ==> !old(self).history().contains(
                        r->0.start_address,
                    )
                },
                None => {
                    &&& r is None
                    &&& final(self).position() == (old(self).descriptors().len() as int, 0int)
                    &&& final(self).history() == old(self).history()
                },
            },
    {
        let ghost target = next_available(self.descriptors(), self.position().0, self.position().1);
        proof {
            lemma_next_available_is_ahead(self.descriptors(), self.position().0, self.position().1);
        }
        while self.next_desc < self.memory_map.len()
            invariant
                self.wf(),
                self.descriptors() == old(self).descriptors(),
                self.history() == old(self).history(),
                next_available(self.descriptors(), self.position().0, self.position().1) == target,
                target == next_available(old(self).descriptors(), old(self).position().0, old(self).position().1),
            decreases self.memory_map@.len() - self.next_desc,
        {
            let d = self.memory_map[self.next_desc];
            let p = self.next_page;
            let ghost ds = self.descriptors();
            let ghost here = self.position();
            if d.memory_type == EFI_CONVENTIONAL_MEMORY && p < d.number_of_pages
                && p < (u64::MAX - d.physical_start) / PAGE_SIZE {
                proof {
                    let room = u64::MAX - d.physical_start;
                    assert((p + 1) * 4096 <= room) by (nonlinear_arith)
                        requires
                            p < room / 4096,
                            room >= 0,
                    ;
                }
                let start = d.physical_start + p * PAGE_SIZE;
                let ghost head = *self;
                self.next_page = p + 1;
                proof {
                    let i0 = here.0;
                    assert(page_available(ds[i0], p as int));
                    if regions_disjoint(ds) && self.handed_out@.contains(start) {
                        let k = choose|k: int| 0 <= k < self.handed_out@.len() && self.handed_out@[k] == start;
                        assert(head.handed_out@[k] == start);
                        assert(head.passed(head.handed_out@[k]));
                        let (i, q) = choose|i: int, q: int|
                            #![trigger head.memory_map@[i], page_address(head.memory_map@[i], q)]
                            0 <= i < head.memory_map@.len() && page_available(head.memory_map@[i], q)
                                && position_before((i, q), head.position())
                                && head.handed_out@[k] == page_address(head.memory_map@[i], q);
                        lemma_pages_are_distinct(ds, i, q, i0, p as int);
                    }
                    let ghost old_history = self.handed_out@;
                    self.handed_out@ = self.handed_out@.push(start);
                    assert forall|k: int|
                        0 <= k < self.handed_out@.len() implies self.passed(#[trigger] self.handed_out@[k]) by {
                        if k < old_history.len() {
                            assert(head.handed_out@[k] == old_history[k]);
                            assert(head.passed(head.handed_out@[k]));
                            let (i, q) = choose|i: int, q: int|
                                #![trigger head.memory_map@[i], page_address(head.memory_map@[i], q)]
                                0 <= i < head.memory_map@.len() && page_available(head.memory_map@[i], q)
                                    && position_before((i, q), head.position())
                                    && head.handed_out@[k] == page_address(head.memory_map@[i], q);
                            assert(self.memory_map@[i] == head.memory_map@[i]);
                            assert(page_address(self.memory_map@[i], q) == page_address(head.memory_map@[i], q));
                            assert(position_before((i, q), self.position()));
                            assert(self.handed_out@[k] == old_history[k]);
                        } else {
                            assert(self.memory_map@[i0] == ds[i0]);
                            assert(page_address(self.memory_map@[i0], p as int) == start);
                            assert(position_before((i0, p as int), self.position()));
                        }
                    }
                }
                return Some(PhysicalFrame { start_address: start });
            }
            proof {
                if d.memory_type == EFI_CONVENTIONAL_MEMORY && p < d.number_of_pages {
                    let room = u64::MAX - d.physical_start;
                    assert((p + 1) * 4096 > room) by (nonlinear_arith)
                        requires
                            p >= room / 4096,
                            room >= 0,
                    ;
                }
            }
            let ghost head = *self;
            self.next_desc = self.next_desc + 1;
            self.next_page = 0;
            proof {
                assert forall|k: int|
                    0 <= k < self.handed_out@.len() implies self.passed(#[trigger] self.handed_out@[k]) by {
                    assert(head.handed_out@[k] == self.handed_out@[k]);
                    assert(head.passed(head.handed_out@[k]));
                    let (i, q) = choose|i: int, q: int|
                        #![trigger head.memory_map@[i], page_address(head.memory_map@[i], q)]
                        0 <= i < head.memory_map@.len() && page_available(head.memory_map@[i], q)
                            && position_before((i, q), head.position())
                            && head.handed_out@[k] == page_address(head.memory_map@[i], q);
                    assert(self.memory_map@[i] == head.memory_map@[i]);
                    assert(page_address(self.memory_map@[i], q) == page_address(head.memory_map@[i], q));
                    assert(position_before((i, q), self.position()));
                }
            }
        }
        None
    }
}

} // verus!
