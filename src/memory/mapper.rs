//! The identity map: a top-level table whose first entry points at a
//! second-level table of 1 GiB pages, so that virtual and physical addresses
//! agree below `gibs` GiB.
use vstd::prelude::*;

verus! {

pub const PAGE_PRESENT: u64 = 1;
pub const PAGE_WRITABLE: u64 = 2;
/// In a second-level entry: the entry maps a 1 GiB page itself.
pub const PAGE_HUGE: u64 = 0x80;

/// Entries in one page table.
pub const ENTRIES_PER_TABLE: usize = 512;

/// Bits of an entry that hold the address of the next table.
pub const TABLE_ADDRESS_MASK: u64 = 0x000f_ffff_ffff_f000;

/// Bits of a 1 GiB page entry that hold the page's physical address.
pub const HUGE_PAGE_ADDRESS_MASK: u64 = 0x000f_ffff_c000_0000;

/// Offset bits of an address inside a 1 GiB page.
pub const HUGE_PAGE_OFFSET_MASK: u64 = 0x3fff_ffff;

/// First address above the lower canonical half.
pub const LOWER_HALF_END: u64 = 0x8000_0000_0000;

/// The entry that maps the `i`-th GiB onto itself.
pub open spec fn huge_entry(i: u64) -> u64 {
    (i << 30u64) | (PAGE_PRESENT | PAGE_WRITABLE | PAGE_HUGE)
}

/// Second-level table mapping the first `gibs` GiB onto themselves.
pub open spec fn identity_pdp(gibs: u64) -> Seq<u64> {
    Seq::new(ENTRIES_PER_TABLE as nat, |i: int| if i < gibs { huge_entry(i as u64) } else { 0u64 })
}

/// Top-level table whose only entry points at the table at `pdp_address`.
pub open spec fn identity_pml4(pdp_address: u64) -> Seq<u64> {
    Seq::new(
        ENTRIES_PER_TABLE as nat,
        |i: int| if i == 0 { pdp_address | (PAGE_PRESENT | PAGE_WRITABLE) } else { 0u64 },
    )
}

/// Where the processor's walk of `pml4` sends the virtual address `va`, when
/// the only second-level table in memory is `pdp` at `pdp_address` and it
/// holds 1 GiB pages only; `None` when the walk meets an absent entry or
/// leaves these two tables.
pub open spec fn translate(pml4: Seq<u64>, pdp: Seq<u64>, pdp_address: u64, va: u64) -> Option<u64> {
    let e4 = pml4[((va >> 39u64) & 0x1ffu64) as int];
    let e3 = pdp[((va >> 30u64) & 0x1ffu64) as int];
    if e4 & PAGE_PRESENT == 0 || e4 & TABLE_ADDRESS_MASK != pdp_address {
        None
    } else if e3 & PAGE_PRESENT == 0 || e3 & PAGE_HUGE == 0 {
        None
    } else {
        Some((e3 & HUGE_PAGE_ADDRESS_MASK) | (va & HUGE_PAGE_OFFSET_MASK))
    }
}

/// The two tables of the identity map.
pub struct IdentityPageTables {
    pub pml4: [u64; ENTRIES_PER_TABLE],
    pub pdp: [u64; ENTRIES_PER_TABLE],
}

impl IdentityPageTables {
    /// Fills the second-level table with `gibs` present, writable 1 GiB
    /// pages covering `[i GiB, (i+1) GiB)`, and the top-level table with one
    /// entry pointing at the second-level table, which will stand at the
    /// page-aligned physical address `pdp_address`.
    pub fn build(pdp_address: u64, gibs: u64) -> (t: Self)
        requires
            gibs <= ENTRIES_PER_TABLE,
            pdp_address % 4096 == 0,
            pdp_address < 0x10_0000_0000_0000,
        ensures
            t.pdp@ == identity_pdp(gibs),
            t.pml4@ == identity_pml4(pdp_address),
    {
        let mut pdp = [0u64; ENTRIES_PER_TABLE];
        let mut i: u64 = 0;
        while i < gibs
            invariant
                i <= gibs <= ENTRIES_PER_TABLE,
                pdp@.len() == ENTRIES_PER_TABLE,
                forall|j: int|
                    0 <= j < ENTRIES_PER_TABLE ==> #[trigger] pdp@[j] == if j < i {
                        huge_entry(j as u64)
                    } else {
                        0u64
                    },
            decreases gibs - i,
        {
            pdp[i as usize] = (i << 30u64) | (PAGE_PRESENT | PAGE_WRITABLE | PAGE_HUGE);
            i = i + 1;
        }
        let mut pml4 = [0u64; ENTRIES_PER_TABLE];
        pml4[0] = pdp_address | (PAGE_PRESENT | PAGE_WRITABLE);
        assert(pdp@ =~= identity_pdp(gibs));
        assert(pml4@ =~= identity_pml4(pdp_address));
        IdentityPageTables { pml4, pdp }
    }
}

/// Identity map correctness: with the tables `build` makes, every address
/// below `gibs` GiB translates to itself, and no address of the lower
/// canonical half at or above `gibs` GiB translates at all.
pub proof fn lemma_identity_map(pdp_address: u64, gibs: u64, va: u64)
    requires
        gibs <= ENTRIES_PER_TABLE,
        pdp_address % 4096 == 0,
        pdp_address < 0x10_0000_0000_0000,
    ensures
        va < gibs * 0x4000_0000 ==> translate(identity_pml4(pdp_address), identity_pdp(gibs), pdp_address, va)
            == Some(va),
        gibs * 0x4000_0000 <= va < LOWER_HALF_END ==> translate(
            identity_pml4(pdp_address),
            identity_pdp(gibs),
            pdp_address,
            va,
        ) is None,
{
    let pml4 = identity_pml4(pdp_address);
    let pdp = identity_pdp(gibs);
    let i4 = (va >> 39u64) & 0x1ffu64;
    let i3 = (va >> 30u64) & 0x1ffu64;
    let e0 = pdp_address | (PAGE_PRESENT | PAGE_WRITABLE);
    assert(e0 & PAGE_PRESENT != 0 && e0 & TABLE_ADDRESS_MASK == pdp_address) by (bit_vector)
        requires
            e0 == pdp_address | (PAGE_PRESENT | PAGE_WRITABLE),
            pdp_address % 4096 == 0,
            pdp_address < 0x10_0000_0000_0000,
    ;
    if va < gibs * 0x4000_0000 {
        assert(va < 0x80_0000_0000);
        assert(i4 == 0 && i3 == va >> 30u64 && (va >> 30u64) * 0x4000_0000 <= va) by (bit_vector)
            requires
                i4 == (va >> 39u64) & 0x1ffu64,
                i3 == (va >> 30u64) & 0x1ffu64,
                va < 0x80_0000_0000,
        ;
        assert(i3 < gibs) by (nonlinear_arith)
            requires
                i3 * 0x4000_0000 <= va,
                va < gibs * 0x4000_0000,
        ;
        let e3 = huge_entry(i3);
        assert(e3 & PAGE_PRESENT != 0 && e3 & PAGE_HUGE != 0 && (e3 & HUGE_PAGE_ADDRESS_MASK) | (va
            & HUGE_PAGE_OFFSET_MASK) == va) by (bit_vector)
            requires
                e3 == (i3 << 30u64) | (PAGE_PRESENT | PAGE_WRITABLE | PAGE_HUGE),
                i3 == va >> 30u64,
                va < 0x80_0000_0000,
        ;
        assert(pdp[i3 as int] == e3);
    } else if va < LOWER_HALF_END {
        assert(i3 == (va >> 30u64) & 0x1ffu64 && i4 == (va >> 39u64) & 0x1ffu64);
        if i4 == 0 {
            assert(i3 * 0x4000_0000 <= va < (i3 + 1) * 0x4000_0000 && i3 < 512) by (bit_vector)
                requires
                    i4 == (va >> 39u64) & 0x1ffu64,
                    i3 == (va >> 30u64) & 0x1ffu64,
                    i4 == 0,
                    va < 0x8000_0000_0000,
            ;
            assert(i3 >= gibs) by (nonlinear_arith)
                requires
                    va < (i3 + 1) * 0x4000_0000,
                    gibs * 0x4000_0000 <= va,
            ;
            assert(pdp[i3 as int] == 0);
            assert(0u64 & PAGE_PRESENT == 0) by (bit_vector);
        } else {
            assert(i4 < 512) by (bit_vector)
                requires
                    i4 == (va >> 39u64) & 0x1ffu64,
            ;
            assert(pml4[i4 as int] == 0);
            assert(0u64 & PAGE_PRESENT == 0) by (bit_vector);
        }
    }
}

/// Rounds `addr` down to a multiple of `align`, a power of two.
pub fn align_down(addr: u64, align: u64) -> (r: u64)
    requires
        align > 0,
        align & ((align - 1) as u64) == 0,
    ensures
        r == addr & !((align - 1) as u64),
        r <= addr,
        addr - r < align,
        r & ((align - 1) as u64) == 0,
{
    let mask = align - 1;
    let r = addr & !mask;
    assert(r <= addr && addr - r <= mask && r & mask == 0) by (bit_vector)
        requires
            r == addr & !mask,
    ;
    r
}

} // verus!
