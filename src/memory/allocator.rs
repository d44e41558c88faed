//! A bitmap over physical frames, built from the firmware's memory map.
use vstd::prelude::*;
use bitvec::order::Lsb0;
use bitvec::slice::BitSlice;
use crate::efi::{EfiMemoryDescriptor, MemoryMapHolder, EFI_CONVENTIONAL_MEMORY, DESCRIPTOR_SIZE, lemma_padding_is_ignored};
use crate::memory::{PhysicalFrame, PAGE_SIZE};

verus! {

/// One bit per frame, a `bitvec` bit-slice over storage the caller hands
/// in; a set bit marks a frame that may not be handed out.
#[verifier::external_body]
pub struct FrameBitmap<'a> {
    bits: &'a mut BitSlice<u8, Lsb0>,
}

/// The bits of the bitmap, in frame order.
pub uninterp spec fn bitmap_bits(b: FrameBitmap<'_>) -> Seq<bool>;

/// Relies on `BitSlice::from_slice_mut`: a view of every bit of `storage`,
/// least significant bit of each byte first; it panics only when `storage`
/// has `BitSlice::MAX_ELTS` bytes or more.
#[verifier::external_body]
fn bitmap_over<'a>(storage: &'a mut [u8]) -> (b: FrameBitmap<'a>)
    requires
        old(storage)@.len() <= usize::MAX / 64,
    ensures
        bitmap_bits(b) == Seq::new(
            (8 * old(storage)@.len()) as nat,
            |i: int| (old(storage)@[i / 8] >> ((i % 8) as u8)) & 1u8 == 1u8,
        ),
{
    FrameBitmap { bits: BitSlice::from_slice_mut(storage) }
}

/// Relies on `BitSlice::fill`: every bit becomes `value`.
#[verifier::external_body]
fn bitmap_fill(b: &mut FrameBitmap<'_>, value: bool)
    ensures
        bitmap_bits(*final(b)) == Seq::new(bitmap_bits(*old(b)).len(), |i: int| value),
{
    b.bits.fill(value);
}

/// Relies on `BitSlice::set`: writes one bit; it panics when `index` is out
/// of bounds.
#[verifier::external_body]
fn bitmap_set(b: &mut FrameBitmap<'_>, index: usize, value: bool)
    requires
        index < bitmap_bits(*old(b)).len(),
    ensures
        bitmap_bits(*final(b)) == bitmap_bits(*old(b)).update(index as int, value),
{
    b.bits.set(index, value);
}

/// Relies on indexing a `BitSlice`: reads one bit; it panics when `index` is
/// out of bounds.
#[verifier::external_body]
fn bitmap_get(b: &FrameBitmap<'_>, index: usize) -> (r: bool)
    requires
        index < bitmap_bits(*b).len(),
    ensures
        r == bitmap_bits(*b)[index as int],
{
    b.bits[index]
}

/// Relies on `BitSlice::count_zeros`: the number of cleared bits.
#[verifier::external_body]
fn bitmap_count_zeros(b: &FrameBitmap<'_>) -> (n: usize)
    ensures
        n == count_clear(bitmap_bits(*b)),
{
    b.bits.count_zeros()
}

/// Number of `false` entries of `s`.
pub open spec fn count_clear(s: Seq<bool>) -> nat
    decreases s.len(),
{
    if s.len() == 0 {
        0
    } else {
        count_clear(s.drop_last()) + if s.last() { 0nat } else { 1nat }
    }
}

/// Highest identity-map limit a frame allocator takes: 512 GiB, all that one
/// second-level table of 1 GiB pages can map.
pub const MAX_MAPPED_LIMIT: u64 = 0x80_0000_0000;

/// Largest number of frames below `MAX_MAPPED_LIMIT`.
pub const MAX_FRAMES: usize = 0x800_0000;

/// Bytes of bitmap storage that cover every frame of a 4 GiB identity map.
pub const BITMAP_STORAGE_SIZE_BYTES: usize = 131072;

/// Exclusive end of a region's bytes.
pub open spec fn region_end(d: EfiMemoryDescriptor) -> int {
    d.physical_start + d.number_of_pages * PAGE_SIZE
}

/// The region is free memory for the operating system.
pub open spec fn is_usable(d: EfiMemoryDescriptor) -> bool {
    d.memory_type == EFI_CONVENTIONAL_MEMORY
}

/// End of the region, capped at `limit`.
pub open spec fn capped_end(d: EfiMemoryDescriptor, limit: int) -> int {
    if region_end(d) < limit {
        region_end(d)
    } else {
        limit
    }
}

/// Highest end of a usable region among `ds`, capped at `limit`, and 0 if
/// there is no usable region.
pub open spec fn usable_top(ds: Seq<EfiMemoryDescriptor>, limit: int) -> int
    decreases ds.len(),
{
    if ds.len() == 0 {
        0
    } else {
        let rest = usable_top(ds.drop_last(), limit);
        let d = ds.last();
        if is_usable(d) && capped_end(d, limit) > rest {
            capped_end(d, limit)
        } else {
            rest
        }
    }
}

/// Number of frames the bitmap covers for the map `ds`.
pub open spec fn frame_count_of(ds: Seq<EfiMemoryDescriptor>, limit: int) -> int {
    usable_top(ds, limit) / PAGE_SIZE as int
}

/// Bytes of storage a bitmap of `frames` bits takes.
pub open spec fn bitmap_bytes(frames: int) -> int {
    (frames + 7) / 8
}

/// Frame `f` lies in the region `d` (counting from the frame that holds its
/// start).
pub open spec fn region_covers(d: EfiMemoryDescriptor, f: int) -> bool {
    (d.physical_start / PAGE_SIZE) as int <= f < (d.physical_start / PAGE_SIZE) as int + d.number_of_pages
}

/// Frame `f` lies in a usable region of `ds`.
pub open spec fn usable_frame(ds: Seq<EfiMemoryDescriptor>, f: int) -> bool {
    exists|i: int| 0 <= i < ds.len() && is_usable(#[trigger] ds[i]) && region_covers(ds[i], f)
}

/// The bitmap right after construction, one bit for every bit of the
/// storage it takes: frame `f` is free exactly when it is below the frame
/// count and inside a usable region.
pub open spec fn initial_bitmap(ds: Seq<EfiMemoryDescriptor>, limit: int) -> Seq<bool> {
    let frames = frame_count_of(ds, limit);
    Seq::new((8 * bitmap_bytes(frames)) as nat, |f: int| !(f < frames && usable_frame(ds, f)))
}

/// Lowest free frame index of `bits`, if there is one.
pub open spec fn first_free(bits: Seq<bool>, idx: int) -> bool {
    &&& 0 <= idx < bits.len()
    &&& !bits[idx]
    &&& forall|j: int| 0 <= j < idx ==> bits[j]
}

/// First walk over the map: the number of frames below the highest usable
/// end, capped at `limit`.
fn frame_count_for(holder: &MemoryMapHolder, limit: u64) -> (n: usize)
    requires
        holder.readable(),
        limit <= MAX_MAPPED_LIMIT,
    ensures
        n == frame_count_of(holder.descriptors(), limit as int),
        n <= MAX_FRAMES,
{
    let num_desc = holder.descriptor_count();
    let ghost ds = holder.descriptors();
    let mut max_addr: u64 = 0;
    let mut i: usize = 0;
    while i < num_desc
        invariant
            holder.readable(),
            num_desc == ds.len(),
            ds == holder.descriptors(),
            i <= num_desc,
            max_addr == usable_top(ds.subrange(0, i as int), limit as int),
            max_addr <= limit <= MAX_MAPPED_LIMIT,
        decreases num_desc - i,
    {
        let d = holder.descriptor(i);
        proof {
            assert(ds.subrange(0, i + 1).drop_last() == ds.subrange(0, i as int));
        }
        if d.memory_type == EFI_CONVENTIONAL_MEMORY {
            let end = if d.physical_start >= limit {
                limit
            } else if d.number_of_pages <= (limit - d.physical_start) / PAGE_SIZE {
                let room = limit - d.physical_start;
                proof {
                    assert(d.number_of_pages * 4096 <= room) by (nonlinear_arith)
                        requires
                            d.number_of_pages <= room / 4096,
                    ;
                }
                d.physical_start + d.number_of_pages * PAGE_SIZE
            } else {
                let room = limit - d.physical_start;
                proof {
                    assert(d.number_of_pages * 4096 > room) by (nonlinear_arith)
                        requires
                            d.number_of_pages > room / 4096,
                    ;
                }
                limit
            };
            assert(end == capped_end(d, limit as int));
            if end > max_addr {
                max_addr = end;
            }
        }
        i = i + 1;
    }
    proof {
        assert(ds.subrange(0, num_desc as int) == ds);
    }
    (max_addr / PAGE_SIZE) as usize
}

/// Bytes of storage the bitmap needs for `holder`'s map under `limit`.
pub fn storage_bytes_needed(holder: &MemoryMapHolder, limit: u64) -> (n: usize)
    requires
        holder.readable(),
        limit <= MAX_MAPPED_LIMIT,
    ensures
        n == bitmap_bytes(frame_count_of(holder.descriptors(), limit as int)),
{
    let frames = frame_count_for(holder, limit);
    (frames + 7) / 8
}

/// Hands out free 4 KiB frames one at a time, lowest first.
pub struct BitmapFrameAllocator<'a> {
    bitmap: FrameBitmap<'a>,
    frame_count: usize,
    /// Start addresses of the frames handed out so far, in order.
    handed_out: Ghost<Seq<u64>>,
}

impl<'a> BitmapFrameAllocator<'a> {
    /// Per bit of the storage, whether its frame may not be handed out.
    pub closed spec fn used(&self) -> Seq<bool> {
        bitmap_bits(self.bitmap)
    }

    /// Number of frames the bitmap covers.
    pub closed spec fn frames(&self) -> nat {
        self.frame_count as nat
    }

    /// Start addresses of the frames handed out so far, in order.
    pub closed spec fn history(&self) -> Seq<u64> {
        self.handed_out@
    }

    pub closed spec fn wf(&self) -> bool {
        &&& self.frame_count <= self.used().len() <= 8 * MAX_FRAMES
        &&& self.frame_count <= MAX_FRAMES
        &&& forall|j: int| self.frame_count <= j < self.used().len() ==> #[trigger] self.used()[j]
        &&& self.handed_out@.no_duplicates()
        &&& forall|i: int|
            0 <= i < self.handed_out@.len() ==> {
                let a = #[trigger] self.handed_out@[i];
                &&& a % PAGE_SIZE == 0
                &&& (a / PAGE_SIZE) < self.frame_count
                &&& self.used()[(a / PAGE_SIZE) as int]
            }
    }

    /// What a well-formed allocator keeps: the bitmap has a bit for every
    /// frame, and every bit at or past the frame count stays set.
    pub proof fn lemma_wf_bounds(&self)
        requires
            self.wf(),
        ensures
            self.frames() <= self.used().len(),
            self.frames() <= MAX_FRAMES,
            forall|j: int| self.frames() <= j < self.used().len() ==> #[trigger] self.used()[j],
    {
    }

    /// Builds the bitmap in `storage` from a captured map, walking its
    /// descriptors at the recorded stride: the frame count comes from the
    /// highest end of a usable region, capped at `limit`; all bits start
    /// used, then every frame below the count inside a usable region is
    /// cleared. A stride below a descriptor's size, a map larger than its
    /// buffer, or too little storage is fatal and left out by `requires`.
    pub fn new(holder: &MemoryMapHolder, storage: &'a mut [u8], limit: u64) -> (a: Self)
        requires
            holder.readable(),
            limit <= MAX_MAPPED_LIMIT,
            bitmap_bytes(frame_count_of(holder.descriptors(), limit as int)) <= old(storage)@.len(),
        ensures
            a.wf(),
            a.frames() == frame_count_of(holder.descriptors(), limit as int),
            a.used() == initial_bitmap(holder.descriptors(), limit as int),
            a.history() == Seq::<u64>::empty(),
    {
        let num_desc = holder.descriptor_count();
        let ghost ds = holder.descriptors();
        let frame_count = frame_count_for(holder, limit);
        let bytes_needed = (frame_count + 7) / 8;
        let (head, _rest) = storage.split_at_mut(bytes_needed);
        let mut bitmap = bitmap_over(head);
        bitmap_fill(&mut bitmap, true);
        let nbits = 8 * bytes_needed;

        // Second walk: clear every frame of a usable region.
        let mut i: usize = 0;
        while i < num_desc
            invariant
                holder.readable(),
                num_desc == ds.len(),
                ds == holder.descriptors(),
                i <= num_desc,
                frame_count == frame_count_of(ds, limit as int),
                frame_count <= MAX_FRAMES,
                bitmap_bits(bitmap).len() == nbits,
                frame_count <= nbits,
                forall|f: int|
                    0 <= f < nbits ==> #[trigger] bitmap_bits(bitmap)[f] == !(f < frame_count && usable_frame(
                        ds.subrange(0, i as int),
                        f,
                    )),
            decreases num_desc - i,
        {
            let d = holder.descriptor(i);
            let ghost before = bitmap_bits(bitmap);
            let start_frame: u64 = d.physical_start / PAGE_SIZE;
            let ghost prev = ds.subrange(0, i as int);
            let ghost next = ds.subrange(0, i + 1);
            if d.memory_type == EFI_CONVENTIONAL_MEMORY && start_frame < frame_count as u64 {
                let room: u64 = frame_count as u64 - start_frame;
                let n: u64 = if d.number_of_pages < room { d.number_of_pages } else { room };
                let first = start_frame as usize;
                let last = first + n as usize;
                let mut f: usize = first;
                while f < last
                    invariant
                        first <= f <= last,
                        last <= frame_count,
                        last == first + n,
                        first == (d.physical_start / PAGE_SIZE) as int,
                        n <= d.number_of_pages,
                        last == frame_count || n == d.number_of_pages,
                        frame_count <= nbits,
                        bitmap_bits(bitmap).len() == nbits,
                        before.len() == nbits,
                        forall|g: int|
                            0 <= g < nbits ==> #[trigger] bitmap_bits(bitmap)[g] == if first <= g
                                < f {
                                false
                            } else {
                                before[g]
                            },
                    decreases last - f,
                {
                    bitmap_set(&mut bitmap, f, false);
                    f = f + 1;
                }
                proof {
                    assert forall|g: int| 0 <= g < nbits implies #[trigger] bitmap_bits(bitmap)[g]
                        == !(g < frame_count && usable_frame(next, g)) by {
                        assert(next[i as int] == d);
                        if usable_frame(prev, g) {
                            let j = choose|j: int| 0 <= j < prev.len() && is_usable(#[trigger] prev[j])
                                && region_covers(prev[j], g);
                            assert(next[j] == prev[j]);
                        }
                        if usable_frame(next, g) && !usable_frame(prev, g) {
                            let j = choose|j: int| 0 <= j < next.len() && is_usable(#[trigger] next[j])
                                && region_covers(next[j], g);
                            if j < i {
                                assert(prev[j] == next[j]);
                            }
                        }
                        if region_covers(d, g) {
                            assert(is_usable(next[i as int]));
                        }
                    }
                }
            } else {
                proof {
                    assert forall|g: int| 0 <= g < nbits implies #[trigger] bitmap_bits(bitmap)[g]
                        == !(g < frame_count && usable_frame(next, g)) by {
                        assert(next[i as int] == d);
                        if usable_frame(prev, g) {
                            let j = choose|j: int| 0 <= j < prev.len() && is_usable(#[trigger] prev[j])
                                && region_covers(prev[j], g);
                            assert(next[j] == prev[j]);
                        }
                        if usable_frame(next, g) {
                            let j = choose|j: int| 0 <= j < next.len() && is_usable(#[trigger] next[j])
                                && region_covers(next[j], g);
                            if j < i {
                                assert(prev[j] == next[j]);
                            }
                        }
                    }
                }
            }
            i = i + 1;
        }
        proof {
            assert(ds.subrange(0, num_desc as int) == ds);
            assert(bitmap_bits(bitmap) =~= initial_bitmap(ds, limit as int));
        }
        BitmapFrameAllocator { bitmap, frame_count, handed_out: Ghost(Seq::empty()) }
    }

    /// Number of frames the bitmap covers.
    pub fn frame_count(&self) -> (n: usize)
        ensures
            n == self.frames(),
    {
        self.frame_count
    }

    /// Number of frames that are still free.
    pub fn count_free_frames(&self) -> (n: usize)
        ensures
            n == count_clear(self.used()),
    {
        bitmap_count_zeros(&self.bitmap)
    }

    fn mark_used(&mut self, index: usize)
        requires
            old(self).wf(),
            index < old(self).frames(),
        ensures
            final(self).wf(),
            final(self).used() == old(self).used().update(index as int, true),
            final(self).frames() == old(self).frames(),
            final(self).history() == old(self).history(),
    {
        bitmap_set(&mut self.bitmap, index, true);
    }

    /// Hands out the free frame of lowest index and marks it used, or returns
    /// `None` when every frame is used. The frames handed out over any run of
    /// calls are recorded in `history`, which never holds one twice.
    pub fn allocate_frame(&mut self) -> (r: Option<PhysicalFrame>)
        requires
            old(self).wf(),
        ensures
            final(self).wf(),
            final(self).frames() == old(self).frames(),
            final(self).history().no_duplicates(),
            match r {
                None => {
                    &&& forall|j: int| 0 <= j < old(self).used().len() ==> old(self).used()[j]
                    &&& final(self).used() == old(self).used()
                    &&& final(self).history() == old(self).history()
                },
                Some(frame) => {
                    let idx = frame.start_address / PAGE_SIZE;
                    &&& frame.start_address % PAGE_SIZE == 0
                    &&& first_free(old(self).used(), idx as int)
                    &&& final(self).used() == old(self).used().update(idx as int, true)
                    &&& !old(self).history().contains(frame.start_address)
                    &&& final(self).history() == old(self).history().push(frame.start_address)
                },
            },
    {
        let mut idx: usize = 0;
        while idx < self.frame_count
            invariant
                self.wf(),
                *self == *old(self),
                idx <= self.frame_count,
                forall|j: int| 0 <= j < idx ==> self.used()[j],
            decreases self.frame_count - idx,
        {
            if !bitmap_get(&self.bitmap, idx) {
                let ghost before = *self;
                self.mark_used(idx);
                let addr = idx as u64 * PAGE_SIZE;
                proof {
                    assert(addr / PAGE_SIZE == idx);
                    if before.history().contains(addr) {
                        let i = choose|i: int| 0 <= i < before.history().len() && before.history()[i] == addr;
                        assert(before.used()[(before.history()[i] / PAGE_SIZE) as int]);
                    }
                    self.handed_out@ = self.handed_out@.push(addr);
                    assert forall|i: int| 0 <= i < self.handed_out@.len() implies {
                        let a = #[trigger] self.handed_out@[i];
                        &&& a % PAGE_SIZE == 0
                        &&& (a / PAGE_SIZE) < self.frame_count
                        &&& self.used()[(a / PAGE_SIZE) as int]
                    } by {
                        if i < before.history().len() {
                            assert(self.handed_out@[i] == before.history()[i]);
                        }
                    }
                    assert forall|i: int, j: int|
                        0 <= i < self.handed_out@.len() && 0 <= j < self.handed_out@.len() && i != j implies
                        self.handed_out@[i] != self.handed_out@[j] by {
                        if i < before.history().len() && j < before.history().len() {
                            assert(before.history()[i] != before.history()[j]);
                        } else if i < before.history().len() {
                            assert(before.history().contains(before.history()[i]));
                        } else if j < before.history().len() {
                            assert(before.history().contains(before.history()[j]));
                        }
                    }
                }
                return Some(PhysicalFrame { start_address: addr });
            }
            idx = idx + 1;
        }
        None
    }
}

/// Stride independence for the allocator: captures that agree on their
/// descriptor windows, whatever their strides and padding, yield the same
/// frame count and the same initial bitmap.
pub proof fn lemma_bitmap_ignores_layout(a: MemoryMapHolder, b: MemoryMapHolder, limit: u64)
    requires
        a.readable(),
        b.readable(),
        a.spec_descriptor_count() == b.spec_descriptor_count(),
        forall|i: int|
            0 <= i < a.spec_descriptor_count() ==> #[trigger] a.memory_map_buffer@.subrange(
                i * a.descriptor_size,
                i * a.descriptor_size + DESCRIPTOR_SIZE,
            ) == b.memory_map_buffer@.subrange(
                i * b.descriptor_size,
                i * b.descriptor_size + DESCRIPTOR_SIZE,
            ),
    ensures
        frame_count_of(a.descriptors(), limit as int) == frame_count_of(b.descriptors(), limit as int),
        initial_bitmap(a.descriptors(), limit as int) == initial_bitmap(b.descriptors(), limit as int),
{
    lemma_padding_is_ignored(a, b);
}

} // verus!
