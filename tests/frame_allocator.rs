use bootmem::efi::{MemoryMapHolder, DESCRIPTOR_SIZE, EFI_CONVENTIONAL_MEMORY};
use bootmem::memory::allocator::{storage_bytes_needed, BitmapFrameAllocator, BITMAP_STORAGE_SIZE_BYTES};
use bootmem::memory::{BootInfoFrameAllocator, PhysicalFrame, IDENTITY_MAP_LIMIT, PAGE_SIZE};

const RESERVED: u32 = 0;

fn put_u32(buf: &mut [u8], off: usize, v: u32) {
    buf[off..off + 4].copy_from_slice(&v.to_le_bytes());
}

fn put_u64(buf: &mut [u8], off: usize, v: u64) {
    buf[off..off + 8].copy_from_slice(&v.to_le_bytes());
}

/// A captured map holding `regions` (type, start, pages) at `stride`, with
/// every padding byte set to `pad`.
fn holder_with(regions: &[(u32, u64, u64)], stride: usize, pad: u8) -> MemoryMapHolder {
    let mut h = MemoryMapHolder::new();
    for (i, &(ty, start, pages)) in regions.iter().enumerate() {
        let off = i * stride;
        for b in &mut h.memory_map_buffer[off..off + stride] {
            *b = pad;
        }
        put_u32(&mut h.memory_map_buffer, off, ty);
        put_u32(&mut h.memory_map_buffer, off + 4, 0);
        put_u64(&mut h.memory_map_buffer, off + 8, start);
        put_u64(&mut h.memory_map_buffer, off + 16, 0);
        put_u64(&mut h.memory_map_buffer, off + 24, pages);
        put_u64(&mut h.memory_map_buffer, off + 32, 0);
    }
    h.memory_map_size = regions.len() * stride;
    h.descriptor_size = stride;
    h
}

fn coverage_map() -> Vec<(u32, u64, u64)> {
    vec![
        (EFI_CONVENTIONAL_MEMORY, 0, 256),
        (RESERVED, 256 * 4096, 16),
        (EFI_CONVENTIONAL_MEMORY, 272 * 4096, 100),
    ]
}

fn storage() -> Vec<u8> {
    vec![0xA5u8; BITMAP_STORAGE_SIZE_BYTES]
}

fn drain(a: &mut BitmapFrameAllocator) -> Vec<u64> {
    let mut out = Vec::new();
    while let Some(f) = a.allocate_frame() {
        out.push(f.start_address);
    }
    out
}

#[test]
fn coverage_fidelity_yields_exactly_the_usable_frames() {
    let h = holder_with(&coverage_map(), DESCRIPTOR_SIZE, 0);
    let mut store = storage();
    let mut a = BitmapFrameAllocator::new(&h, &mut store, IDENTITY_MAP_LIMIT);
    assert_eq!(a.frame_count(), 372);
    assert_eq!(a.count_free_frames(), 356);
    let frames = drain(&mut a);
    assert_eq!(frames.len(), 356);
    for f in &frames {
        let idx = f / PAGE_SIZE;
        assert!(!(256..272).contains(&idx), "frame {} is reserved", idx);
        assert_eq!(f % PAGE_SIZE, 0);
    }
    assert_eq!(a.allocate_frame(), None);
    assert_eq!(a.count_free_frames(), 0);
}

#[test]
fn frames_come_out_lowest_first() {
    let h = holder_with(&coverage_map(), DESCRIPTOR_SIZE, 0);
    let mut store = storage();
    let mut a = BitmapFrameAllocator::new(&h, &mut store, IDENTITY_MAP_LIMIT);
    assert_eq!(a.allocate_frame(), Some(PhysicalFrame { start_address: 0 }));
    assert_eq!(a.allocate_frame(), Some(PhysicalFrame { start_address: 4096 }));
    let rest = drain(&mut a);
    assert_eq!(rest[253], 255 * 4096);
    assert_eq!(rest[254], 272 * 4096);
    assert_eq!(*rest.last().unwrap(), 371 * 4096);
}

#[test]
fn exclusivity_no_frame_is_handed_out_twice() {
    let h = holder_with(&coverage_map(), DESCRIPTOR_SIZE, 0);
    let mut store = storage();
    let mut a = BitmapFrameAllocator::new(&h, &mut store, IDENTITY_MAP_LIMIT);
    let mut seen = std::collections::HashSet::new();
    for _ in 0..300 {
        let f = a.allocate_frame().unwrap();
        assert!(seen.insert(f.start_address), "frame {:#x} handed out twice", f.start_address);
    }
    assert_eq!(a.count_free_frames(), 56);
}

#[test]
fn stride_larger_than_descriptor_is_honoured() {
    let plain = holder_with(&coverage_map(), DESCRIPTOR_SIZE, 0);
    // Padding that would read as a usable region if taken for a descriptor.
    let padded = holder_with(&coverage_map(), 48, 7);
    assert_eq!(padded.descriptor_count(), 3);
    assert_eq!(padded.descriptor(2), plain.descriptor(2));
    let (mut s1, mut s2) = (storage(), storage());
    let mut a = BitmapFrameAllocator::new(&plain, &mut s1, IDENTITY_MAP_LIMIT);
    let mut b = BitmapFrameAllocator::new(&padded, &mut s2, IDENTITY_MAP_LIMIT);
    assert_eq!(b.frame_count(), 372);
    assert_eq!(a.count_free_frames(), b.count_free_frames());
    assert_eq!(drain(&mut a), drain(&mut b));
}

#[test]
fn trailing_bytes_short_of_a_stride_are_not_a_descriptor() {
    let mut h = holder_with(&coverage_map(), 48, 0);
    h.memory_map_size += 47;
    assert_eq!(h.descriptor_count(), 3);
    let mut store = storage();
    let mut a = BitmapFrameAllocator::new(&h, &mut store, IDENTITY_MAP_LIMIT);
    assert_eq!(drain(&mut a).len(), 356);
}

#[test]
fn usable_region_crossing_the_limit_is_capped() {
    // One usable region over [3 GiB, 5 GiB).
    let h = holder_with(&[(EFI_CONVENTIONAL_MEMORY, 0xC000_0000, 0x8_0000)], DESCRIPTOR_SIZE, 0);
    let mut store = storage();
    let mut a = BitmapFrameAllocator::new(&h, &mut store, IDENTITY_MAP_LIMIT);
    assert_eq!(a.frame_count(), 0x10_0000);
    assert_eq!(a.count_free_frames(), 0x4_0000);
    assert_eq!(a.allocate_frame(), Some(PhysicalFrame { start_address: 0xC000_0000 }));
}

#[test]
fn region_starting_past_the_limit_counts_up_to_the_limit() {
    let h = holder_with(
        &[
            (EFI_CONVENTIONAL_MEMORY, 0, 4),
            (EFI_CONVENTIONAL_MEMORY, 0x1_4000_0000, 16),
            (RESERVED, 0x10_0000, 1),
        ],
        DESCRIPTOR_SIZE,
        0,
    );
    let mut store = storage();
    let mut a = BitmapFrameAllocator::new(&h, &mut store, IDENTITY_MAP_LIMIT);
    // The region at 5 GiB lifts the count to the limit; none of its own
    // frames lie below the limit, so only the first region's are free.
    assert_eq!(a.frame_count(), 0x10_0000);
    assert_eq!(a.count_free_frames(), 4);
    assert_eq!(drain(&mut a), vec![0, 0x1000, 0x2000, 0x3000]);
}

#[test]
fn only_usable_region_past_the_limit() {
    let h = holder_with(&[(EFI_CONVENTIONAL_MEMORY, 0x1_4000_0000, 16)], DESCRIPTOR_SIZE, 0);
    let mut store = storage();
    let mut a = BitmapFrameAllocator::new(&h, &mut store, IDENTITY_MAP_LIMIT);
    assert_eq!(a.frame_count(), 0x10_0000);
    assert_eq!(a.allocate_frame(), None);
}

#[test]
fn region_ending_at_four_gib_counts_in_full() {
    let h = holder_with(&[(EFI_CONVENTIONAL_MEMORY, 0xFFFF_F000, 1)], DESCRIPTOR_SIZE, 0);
    assert_eq!(storage_bytes_needed(&h, IDENTITY_MAP_LIMIT), BITMAP_STORAGE_SIZE_BYTES);
    let mut store = storage();
    let mut a = BitmapFrameAllocator::new(&h, &mut store, IDENTITY_MAP_LIMIT);
    assert_eq!(a.frame_count(), 0x10_0000);
    assert_eq!(a.allocate_frame(), Some(PhysicalFrame { start_address: 0xFFFF_F000 }));
    assert_eq!(a.allocate_frame(), None);
}

#[test]
fn a_lower_limit_caps_the_frame_count() {
    let h = holder_with(&coverage_map(), DESCRIPTOR_SIZE, 0);
    // Cut at frame 300, inside the second usable region.
    let limit = 300 * PAGE_SIZE;
    assert_eq!(storage_bytes_needed(&h, limit), 38);
    let mut store = vec![0u8; 38];
    let mut a = BitmapFrameAllocator::new(&h, &mut store, limit);
    assert_eq!(a.frame_count(), 300);
    let frames = drain(&mut a);
    assert_eq!(frames.len(), 256 + 28);
    assert_eq!(*frames.last().unwrap(), 299 * 4096);
}

#[test]
fn empty_map_has_no_frames() {
    let h = holder_with(&[], DESCRIPTOR_SIZE, 0);
    assert_eq!(storage_bytes_needed(&h, IDENTITY_MAP_LIMIT), 0);
    let mut store: Vec<u8> = Vec::new();
    let mut a = BitmapFrameAllocator::new(&h, &mut store, IDENTITY_MAP_LIMIT);
    assert_eq!(a.frame_count(), 0);
    assert_eq!(a.allocate_frame(), None);
}

#[test]
fn storage_needed_rounds_up_to_whole_bytes() {
    let h = holder_with(&coverage_map(), DESCRIPTOR_SIZE, 0);
    // 372 frames need 47 bytes; exactly that much storage is enough.
    assert_eq!(storage_bytes_needed(&h, IDENTITY_MAP_LIMIT), 47);
    let mut store = vec![0u8; 47];
    let mut a = BitmapFrameAllocator::new(&h, &mut store, IDENTITY_MAP_LIMIT);
    // The four spare bits of the last byte stay used.
    assert_eq!(a.count_free_frames(), 356);
    assert_eq!(drain(&mut a).len(), 356);
}

#[test]
fn bitmap_lives_in_the_storage_handed_in() {
    let h = holder_with(&[(EFI_CONVENTIONAL_MEMORY, 0, 3)], DESCRIPTOR_SIZE, 0);
    let mut store = vec![0x5Au8; 4];
    {
        let mut a = BitmapFrameAllocator::new(&h, &mut store, IDENTITY_MAP_LIMIT);
        assert_eq!(a.allocate_frame(), Some(PhysicalFrame { start_address: 0 }));
    }
    // Frames 1 and 2 free, everything else used; bytes past the bitmap untouched.
    assert_eq!(store, vec![0b1111_1001, 0x5A, 0x5A, 0x5A]);
}

#[test]
fn boot_info_allocator_walks_regions_in_map_order() {
    let h = holder_with(
        &[
            (EFI_CONVENTIONAL_MEMORY, 0x5000, 2),
            (RESERVED, 0x1000, 3),
            (EFI_CONVENTIONAL_MEMORY, 0x1000, 1),
        ],
        56,
        0xAA,
    );
    let mut a = BootInfoFrameAllocator::new(&h);
    assert_eq!(a.allocate_frame(), Some(PhysicalFrame { start_address: 0x5000 }));
    assert_eq!(a.allocate_frame(), Some(PhysicalFrame { start_address: 0x6000 }));
    assert_eq!(a.allocate_frame(), Some(PhysicalFrame { start_address: 0x1000 }));
    assert_eq!(a.allocate_frame(), None);
    assert_eq!(a.allocate_frame(), None);
}

#[test]
fn boot_info_allocator_hands_out_each_frame_once() {
    let h = holder_with(&coverage_map(), 48, 0);
    let mut a = BootInfoFrameAllocator::new(&h);
    let mut seen = std::collections::HashSet::new();
    while let Some(f) = a.allocate_frame() {
        assert!(seen.insert(f.start_address));
    }
    assert_eq!(seen.len(), 356);
}
