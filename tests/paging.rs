use bootmem::memory::mapper::{align_down, IdentityPageTables, ENTRIES_PER_TABLE};
use bootmem::memory::{HeapRegion, HEAP_SIZE, HEAP_START, IDENTITY_MAPPED_GIBS, IDENTITY_MAP_LIMIT};

const PDP_ADDRESS: u64 = 0x0020_3000;

/// The processor's walk through the two tables, for 1 GiB pages.
fn walk(t: &IdentityPageTables, pdp_address: u64, va: u64) -> Option<u64> {
    let e4 = t.pml4[((va >> 39) & 0x1ff) as usize];
    if e4 & 1 == 0 || e4 & 0x000f_ffff_ffff_f000 != pdp_address {
        return None;
    }
    let e3 = t.pdp[((va >> 30) & 0x1ff) as usize];
    if e3 & 1 == 0 || e3 & 0x80 == 0 {
        return None;
    }
    Some((e3 & 0x000f_ffff_c000_0000) | (va & 0x3fff_ffff))
}

#[test]
fn tables_hold_the_expected_entries() {
    let t = IdentityPageTables::build(PDP_ADDRESS, IDENTITY_MAPPED_GIBS);
    assert_eq!(t.pml4.len(), ENTRIES_PER_TABLE);
    assert_eq!(t.pdp.len(), ENTRIES_PER_TABLE);
    assert_eq!(t.pml4[0], 0x0020_3003);
    assert!(t.pml4[1..].iter().all(|e| *e == 0));
    assert_eq!(t.pdp[0], 0x83);
    assert_eq!(t.pdp[1], 0x4000_0083);
    assert_eq!(t.pdp[2], 0x8000_0083);
    assert_eq!(t.pdp[3], 0xC000_0083);
    assert!(t.pdp[4..].iter().all(|e| *e == 0));
}

#[test]
fn identity_map_translates_low_addresses_to_themselves() {
    let t = IdentityPageTables::build(PDP_ADDRESS, IDENTITY_MAPPED_GIBS);
    for va in [0u64, 0x1000, 0x3FF0_0000, 0x4000_0000, 0xBEEF_1234, IDENTITY_MAP_LIMIT - 1] {
        assert_eq!(walk(&t, PDP_ADDRESS, va), Some(va));
    }
    for va in [IDENTITY_MAP_LIMIT, IDENTITY_MAP_LIMIT + 0x1234, 0x80_0000_0000, 0x7FFF_FFFF_FFFF] {
        assert_eq!(walk(&t, PDP_ADDRESS, va), None);
    }
}

#[test]
fn one_gib_map_stops_at_one_gib() {
    let t = IdentityPageTables::build(0, 1);
    assert_eq!(walk(&t, 0, 0x3FFF_FFFF), Some(0x3FFF_FFFF));
    assert_eq!(walk(&t, 0, 0x4000_0000), None);
}

#[test]
fn align_down_clears_the_low_bits() {
    assert_eq!(align_down(0x1234, 0x1000), 0x1000);
    assert_eq!(align_down(0x2000, 0x1000), 0x2000);
    assert_eq!(align_down(0xFFFF_8000_1234_5678, 0x20_0000), 0xFFFF_8000_1220_0000);
    assert_eq!(align_down(7, 1), 7);
}

#[test]
fn heap_region_must_lie_in_the_identity_map() {
    assert_eq!(HeapRegion::new(HEAP_START, HEAP_SIZE), Some(HeapRegion { start: 0x80_0000, size: 102400 }));
    assert_eq!(
        HeapRegion::new(0xFFFF_0000, 0x1_0000),
        Some(HeapRegion { start: 0xFFFF_0000, size: 0x1_0000 })
    );
    assert_eq!(HeapRegion::new(0xFFFF_0000, 0x1_0001), None);
    assert_eq!(HeapRegion::new(0x1_0000_0000, 0), Some(HeapRegion { start: 0x1_0000_0000, size: 0 }));
    assert_eq!(HeapRegion::new(0x1_0000_0000, 1), None);
}
