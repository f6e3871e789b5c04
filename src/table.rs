use vstd::prelude::*;

use crate::memory::{
    FrameAllocator, FRAME_SIZE, covers, frames_for, total_frames, lemma_after_alloc_covers,
    lemma_after_alloc_range_covers, lemma_covers_at, alloc_loop, alloc_frames, after_alloc_range, chunk_frames,
    chunk_hole,
};
use crate::vm::{MapError, PhysicalAddress, VirtualAddress};

verus! {

/// Bits [47:12] of a descriptor: the output or next-table address.
pub const ADDRESS_MASK: u64 = 0x0000_FFFF_FFFF_F000;

/// Software bit of a table descriptor: the kernel allocated the next table and owns it.
pub const OWNED_BIT: u64 = 0x0080_0000_0000_0000;

/// Output address bits of a 1 GiB block descriptor at level 1.
pub const LEVEL1_BLOCK_MASK: u64 = 0x0000_FFFF_C000_0000;

/// Output address bits of a 2 MiB block descriptor at level 2.
pub const LEVEL2_BLOCK_MASK: u64 = 0x0000_FFFF_FFE0_0000;

/// Entries in every table.
pub const ENTRIES: usize = 512;

/// The reserved slot of every top-level table that holds the table's own descriptor.
pub const RECURSIVE_SLOT: usize = 511;

/// The largest range that one `map_to` or `unmap` covers: the whole 48-bit translation space.
pub const MAX_RANGE: u64 = 0x0001_0000_0000_0000;

/// How one page of virtual memory is translated.
#[derive(Clone, Copy, Debug, PartialEq, Eq, Structural)]
pub enum Slot {
    /// Nothing maps the page.
    Free,
    /// A page descriptor maps the page to the frame at this address.
    Page(u64),
    /// Something that this table does not own maps the page: a block descriptor, or a borrowed
    /// table such as the recursive self-mapping.
    Fixed,
}

/// The bit position at which the virtual address selects the entry of a table at `level`.
pub open spec fn shift_of(level: int) -> u64 {
    if level == 0 {
        39
    } else if level == 1 {
        30
    } else if level == 2 {
        21
    } else {
        12
    }
}

/// The entry that `va` selects in a table at `level`.
pub open spec fn index_at(va: usize, level: int) -> int {
    (((va as u64) >> shift_of(level)) & 0x1FF) as int
}

/// `a` and `b` select the same entries at `level` and at every level below it.
pub open spec fn same_path(a: usize, b: usize, level: int) -> bool {
    &&& (level <= 0 ==> index_at(a, 0) == index_at(b, 0))
    &&& (level <= 1 ==> index_at(a, 1) == index_at(b, 1))
    &&& (level <= 2 ==> index_at(a, 2) == index_at(b, 2))
    &&& index_at(a, 3) == index_at(b, 3)
}

/// The start of page `k` of a range that begins at `virt`.
pub open spec fn page_va(virt: usize, k: int) -> usize {
    (virt + k * FRAME_SIZE) as usize
}

/// The frame address that page `k` of a mapping of `phys` is translated to.
pub open spec fn page_pa(phys: usize, k: int) -> u64 {
    ((phys + k * FRAME_SIZE) as u64) & ADDRESS_MASK
}

/// `w` lies on the same page as one of the first `pages` pages from `virt`.
pub open spec fn in_range(w: usize, virt: usize, pages: int) -> bool {
    exists|k: int| 0 <= k < pages && #[trigger] same_path(w, page_va(virt, k), 0)
}

/// The frames that new next-level tables may take while the first `pages` pages from `virt` are
/// mapped: for each 2 MiB region the range touches, the tables missing on the path of its first
/// page in the range; none where the tables for every page exist already.
pub open spec fn table_frames(t: IntermediateTable, virt: usize, pages: int) -> int
    decreases pages,
{
    if pages <= 0 {
        0
    } else {
        table_frames(t, virt, pages - 1) + page_charge(t, virt, pages - 1)
    }
}

/// `g` lists, for each of the first `pages` pages from `virt`, the number of the frame that backs
/// it in `t`: distinct frames, free in the free-list `before` and used in the free-list `after`.
pub open spec fn backed_by(
    t: IntermediateTable,
    before: Seq<crate::memory::Hole>,
    after: Seq<crate::memory::Hole>,
    virt: usize,
    g: Seq<int>,
    pages: int,
) -> bool {
    &&& g.len() == pages
    &&& forall|k: int|
        0 <= k < pages ==> #[trigger] t.slot(page_va(virt, k)) == Slot::Page(
            ((g[k] * FRAME_SIZE) as u64) & ADDRESS_MASK,
        )
    &&& forall|k: int| 0 <= k < pages ==> covers(before, #[trigger] g[k]) && !covers(after, g[k])
    &&& forall|a: int, b: int| 0 <= a < b < pages ==> #[trigger] g[a] != #[trigger] g[b]
}

proof fn lemma_table_frames_ready_mono(t: IntermediateTable, u: IntermediateTable, virt: usize, n: int)
    requires
        forall|w: usize| #[trigger] u.missing(w) <= t.missing(w),
        n >= 0,
    ensures
        table_frames(u, virt, n) <= table_frames(t, virt, n),
    decreases n,
{
    if n > 0 {
        lemma_table_frames_ready_mono(t, u, virt, n - 1);
        assert(u.missing(page_va(virt, n - 1)) <= t.missing(page_va(virt, n - 1)));
    }
}

/// Mapping pages `d` to `d + c` of a range as a range of their own, after the pages before
/// them were mapped, needs no more table frames than those pages account for in the whole range.
proof fn lemma_chunk_charge(t: IntermediateTable, u: IntermediateTable, virt: usize, v: usize, d: int, c: int)
    requires
        0 <= d,
        0 <= c,
        virt + (d + c) * FRAME_SIZE <= usize::MAX,
        v == virt + d * FRAME_SIZE,
        forall|w: usize| #[trigger] t.missing(w) <= u.missing(w),
        d > 0 ==> t.ready(page_va(virt, d - 1)),
    ensures
        table_frames(t, v, c) <= table_frames(u, virt, d + c) - table_frames(u, virt, d),
    decreases c,
{
    if c > 0 {
        lemma_chunk_charge(t, u, virt, v, d, c - 1);
        let k = c - 1;
        assert(page_va(v, k) == page_va(virt, d + k));
        if k > 0 {
            assert(page_va(v, k - 1) == page_va(virt, d + k - 1));
        }
        assert(t.missing(page_va(virt, d + k)) <= u.missing(page_va(virt, d + k)));
        lemma_missing_bounds(t, 0, page_va(virt, d + k));
        if k == 0 && d > 0 && region_of(page_va(virt, d)) == region_of(page_va(virt, d - 1)) {
            lemma_ready_same_region(t, 0, page_va(virt, d - 1), page_va(virt, d));
        }
        lemma_table_frames_mono(u, virt, d + k, d + k);
        assert(table_frames(u, virt, d + c) == table_frames(u, virt, d + k) + page_charge(u, virt, d + k));
    }
}

/// `n` is what `o` was, or `o` was a mapping that the table does not own and it is gone.
pub open spec fn cleared_or_same(o: Slot, n: Slot) -> bool {
    n == o || (o == Slot::Fixed && n == Slot::Free)
}

/// The 2 MiB region, the span of one level-3 table, that `va` lies in.
pub open spec fn region_of(va: usize) -> int {
    ((va as u64) >> 21u64) as int
}

/// The frames that new tables may take for page `k` of a range mapped in order from `virt`:
/// the tables missing on its path where page `k` is the first of the range in its 2 MiB region,
/// none otherwise (the pages before it in the region built them).
pub open spec fn page_charge(t: IntermediateTable, virt: usize, k: int) -> int {
    if k == 0 || region_of(page_va(virt, k)) != region_of(page_va(virt, k - 1)) {
        t.missing(page_va(virt, k))
    } else {
        0
    }
}

proof fn lemma_table_frames_mono(t: IntermediateTable, virt: usize, a: int, b: int)
    requires
        0 <= a <= b,
    ensures
        table_frames(t, virt, a) <= table_frames(t, virt, b),
        table_frames(t, virt, a) >= 0,
    decreases b,
{
    if b > 0 {
        lemma_missing_bounds(t, 0, page_va(virt, b - 1));
        if a < b {
            lemma_table_frames_mono(t, virt, a, b - 1);
        } else {
            lemma_table_frames_mono(t, virt, a - 1, a - 1);
        }
    }
}

/// Two addresses in one 2 MiB region select the same entries at levels 0 to 2.
proof fn lemma_region_indices(a: usize, b: usize)
    requires
        region_of(a) == region_of(b),
    ensures
        index_at(a, 0) == index_at(b, 0),
        index_at(a, 1) == index_at(b, 1),
        index_at(a, 2) == index_at(b, 2),
{
    let x = a as u64;
    let y = b as u64;
    assert((x >> 21u64) == (y >> 21u64) ==> ((x >> 39u64) & 0x1FFu64) == ((y >> 39u64) & 0x1FFu64) && ((x
        >> 30u64) & 0x1FFu64) == ((y >> 30u64) & 0x1FFu64) && ((x >> 21u64) & 0x1FFu64) == ((y >> 21u64)
        & 0x1FFu64)) by (bit_vector);
}

/// Two addresses in one 2 MiB region need the same tables.
proof fn lemma_ready_same_region(t: IntermediateTable, level: int, a: usize, b: usize)
    requires
        0 <= level <= 2,
        region_of(a) == region_of(b),
    ensures
        t.ready_at(level, a) == t.ready_at(level, b),
    decreases 3 - level,
{
    lemma_region_indices(a, b);
    let i = index_at(a, level);
    match t.next@[i] {
        Some(NextTable::Table(c)) => {
            if level < 2 {
                lemma_ready_same_region(*c, level + 1, a, b);
            }
        },
        _ => {},
    }
}

pub open spec fn is_table_word(e: u64) -> bool {
    e & 3 == 3
}

pub open spec fn is_block_word(e: u64) -> bool {
    e & 3 == 1
}

pub open spec fn is_owned_word(e: u64) -> bool {
    e & OWNED_BIT != 0
}

/// The output address bits of a block descriptor at `level`.
pub open spec fn block_mask(level: int) -> u64 {
    if level == 1 {
        LEVEL1_BLOCK_MASK
    } else {
        LEVEL2_BLOCK_MASK
    }
}

/// `b` is set in `v`.
pub open spec fn bit_set(v: u64, b: u64) -> bool {
    v & (1u64 << b) != 0
}

/// `r` is `v` with bit `b` set to `x` and every other bit as it was.
pub open spec fn with_bit(v: u64, b: u64, x: bool, r: u64) -> bool {
    &&& bit_set(r, b) == x
    &&& forall|k: u64| k < 64 && k != b ==> #[trigger] bit_set(r, k) == bit_set(v, k)
}

proof fn lemma_index_bounds(va: usize, level: int)
    ensures
        0 <= index_at(va, level) < ENTRIES,
{
    let x = va as u64;
    let s = shift_of(level);
    assert((x >> s) & 0x1FFu64 < 512) by (bit_vector);
}

/// Two pages of one range, less than the whole translation space apart, never share an entry
/// at every level.
proof fn lemma_distinct_pages(virt: usize, a: int, b: int)
    requires
        0 <= a < b,
        b - a < 0x10_0000_0000,
        virt + b * FRAME_SIZE <= usize::MAX,
    ensures
        !same_path(page_va(virt, a), page_va(virt, b), 0),
{
    let x = page_va(virt, a) as u64;
    let y = page_va(virt, b) as u64;
    let d = (b - a) as u64;
    assert(y == x + d * 4096);
    assert(!((x >> 39u64) & 0x1FFu64 == (y >> 39u64) & 0x1FFu64 && (x >> 30u64) & 0x1FFu64 == (y >> 30u64)
        & 0x1FFu64 && (x >> 21u64) & 0x1FFu64 == (y >> 21u64) & 0x1FFu64 && (x >> 12u64) & 0x1FFu64 == (y
        >> 12u64) & 0x1FFu64)) by (bit_vector)
        requires
            y == x + d * 4096,
            0 < d,
            d < 0x10_0000_0000u64,
    ;
}

proof fn lemma_pages_bound(size: int)
    requires
        0 <= size <= MAX_RANGE,
    ensures
        frames_for(size) <= 0x10_0000_0000,
        frames_for(size) >= 0,
{
    assert(size / 4096 <= 0x10_0000_0000) by (nonlinear_arith)
        requires 0 <= size <= 0x0001_0000_0000_0000;
    if size % 4096 != 0 {
        assert(size / 4096 < 0x10_0000_0000) by (nonlinear_arith)
            requires 0 <= size <= 0x0001_0000_0000_0000, size % 4096 != 0;
    }
}

/// Page `k` of the pages that cover `size` bytes starts inside the range.
proof fn lemma_page_offset(size: int, k: int)
    requires
        0 <= size,
        0 <= k < frames_for(size),
    ensures
        k * FRAME_SIZE < size,
        k * FRAME_SIZE >= 0,
{
    assert(k * 4096 < size) by (nonlinear_arith)
        requires
            0 <= k,
            size % 4096 == 0 ==> k < size / 4096,
            size % 4096 != 0 ==> k < size / 4096 + 1,
            0 <= size,
    ;
    assert(k * 4096 >= 0) by (nonlinear_arith)
        requires 0 <= k;
}

fn set_bit(v: u64, b: u64, x: bool) -> (r: u64)
    requires
        b < 64,
    ensures
        with_bit(v, b, x, r),
{
    let r = if x {
        v | (1u64 << b)
    } else {
        v & !(1u64 << b)
    };
    assert(bit_set(r, b) == x) by (bit_vector)
        requires
            b < 64,
            r == if x { v | (1u64 << b) } else { v & !(1u64 << b) },
    ;
    assert forall|k: u64| k < 64 && k != b implies #[trigger] bit_set(r, k) == bit_set(v, k) by {
        assert(((v | (1u64 << b)) & (1u64 << k) != 0) == (v & (1u64 << k) != 0)) by (bit_vector)
            requires
                b < 64,
                k < 64,
                k != b,
        ;
        assert(((v & !(1u64 << b)) & (1u64 << k) != 0) == (v & (1u64 << k) != 0)) by (bit_vector)
            requires
                b < 64,
                k < 64,
                k != b,
        ;
    }
    r
}

/// A descriptor of a table at level 0, 1 or 2: invalid, a table descriptor, or (at levels 1
/// and 2) a block descriptor.
#[derive(Clone, Copy, Debug, PartialEq, Eq)]
pub struct IntermediateTableEntry {
    value: u64,
}

impl View for IntermediateTableEntry {
    type V = u64;

    closed spec fn view(&self) -> u64 {
        self.value
    }
}

impl IntermediateTableEntry {
    /// The raw descriptor word.
    pub fn value(&self) -> (r: u64)
        ensures
            r == self@,
    {
        self.value
    }

    /// A table descriptor for the next-level table at `phys`, marked owned or borrowed.
    pub fn new(phys: PhysicalAddress, owned: bool) -> (r: Self)
        ensures
            is_table_word(r@),
            r@ & ADDRESS_MASK == (phys.0 as u64) & ADDRESS_MASK,
            is_owned_word(r@) == owned,
    {
        let raw: u64 = phys.0 as u64;
        let p = raw & ADDRESS_MASK;
        let base = p | 0b11 | (1u64 << 2) | (1u64 << 10) | (1u64 << 6);
        let value = if owned {
            base | OWNED_BIT
        } else {
            base
        };
        assert(p == p & 0x0000_FFFF_FFFF_F000u64) by (bit_vector)
            requires
                p == raw & 0x0000_FFFF_FFFF_F000u64,
        ;
        assert(value & 3 == 3 && value & ADDRESS_MASK == p && ((value & OWNED_BIT != 0) == owned))
            by (bit_vector)
            requires
                p == p & 0x0000_FFFF_FFFF_F000u64,
                base == p | 3u64 | (1u64 << 2) | (1u64 << 10) | (1u64 << 6),
                value == if owned { base | 0x0080_0000_0000_0000u64 } else { base },
        ;
        IntermediateTableEntry { value }
    }

    /// A block descriptor for the region at `phys`, keeping the address bits that `mask` selects.
    pub fn new_block(phys: PhysicalAddress, mask: u64) -> (r: Self)
        ensures
            is_block_word(r@),
            !is_table_word(r@),
            r@ & mask & ADDRESS_MASK == (phys.0 as u64) & mask & ADDRESS_MASK,
    {
        let raw: u64 = phys.0 as u64;
        let value = (raw & mask & ADDRESS_MASK) | 0b01 | (1u64 << 10);
        assert(value & 3 == 1 && value & mask & 0x0000_FFFF_FFFF_F000u64 == raw & mask & 0x0000_FFFF_FFFF_F000u64)
            by (bit_vector)
            requires
                value == (raw & mask & 0x0000_FFFF_FFFF_F000u64) | 1u64 | (1u64 << 10),
        ;
        IntermediateTableEntry { value }
    }

    /// The invalid descriptor.
    pub fn new_invalid() -> (r: Self)
        ensures
            r@ == 0,
            !is_table_word(r@),
            !is_block_word(r@),
    {
        assert(0u64 & 3 == 0) by (bit_vector);
        IntermediateTableEntry { value: 0 }
    }

    /// The descriptor translates (bit 0 set).
    pub fn is_valid(&self) -> (r: bool)
        ensures
            r == (self@ & 1 == 1),
    {
        self.value & 1 == 1
    }

    /// The descriptor points to a next-level table.
    pub fn is_table(&self) -> (r: bool)
        ensures
            r == is_table_word(self@),
    {
        self.value & 0b11 == 0b11
    }

    /// The descriptor maps a block.
    pub fn is_block(&self) -> (r: bool)
        ensures
            r == is_block_word(self@),
    {
        self.value & 0b11 == 0b01
    }

    /// The next table's address, where this is a table descriptor.
    pub fn table_address(&self) -> (r: Option<PhysicalAddress>)
        ensures
            r == (if is_table_word(self@) {
                Some(PhysicalAddress((self@ & ADDRESS_MASK) as usize))
            } else {
                None
            }),
    {
        if self.is_table() {
            Some(PhysicalAddress((self.value & ADDRESS_MASK) as usize))
        } else {
            None
        }
    }

    /// The block's address, where this is a block descriptor; `mask` selects the address bits
    /// of the table's level.
    pub fn block_address(&self, mask: u64) -> (r: Option<PhysicalAddress>)
        ensures
            r == (if is_block_word(self@) {
                Some(PhysicalAddress((self@ & mask & ADDRESS_MASK) as usize))
            } else {
                None
            }),
    {
        if self.is_block() {
            Some(PhysicalAddress((self.value & mask & ADDRESS_MASK) as usize))
        } else {
            None
        }
    }

    /// NSTable (bit 63).
    pub fn get_ns(&self) -> (r: bool)
        ensures
            r == bit_set(self@, 63),
    {
        self.value & (1u64 << 63) != 0
    }

    /// Sets NSTable (bit 63).
    pub fn set_ns(&mut self, value: bool)
        ensures
            with_bit(old(self)@, 63, value, final(self)@),
    {
        self.value = set_bit(self.value, 63, value);
    }

    /// APTable read-only (bit 62).
    pub fn get_read_only(&self) -> (r: bool)
        ensures
            r == bit_set(self@, 62),
    {
        self.value & (1u64 << 62) != 0
    }

    /// Sets APTable read-only (bit 62).
    pub fn set_read_only(&mut self, value: bool)
        ensures
            with_bit(old(self)@, 62, value, final(self)@),
    {
        self.value = set_bit(self.value, 62, value);
    }

    /// APTable EL0-inaccessible (bit 61).
    pub fn get_el0_inaccessible(&self) -> (r: bool)
        ensures
            r == bit_set(self@, 61),
    {
        self.value & (1u64 << 61) != 0
    }

    /// Sets APTable EL0-inaccessible (bit 61).
    pub fn set_el0_inaccessible(&mut self, value: bool)
        ensures
            with_bit(old(self)@, 61, value, final(self)@),
    {
        self.value = set_bit(self.value, 61, value);
    }

    /// XNTable (bit 60).
    pub fn get_xn(&self) -> (r: bool)
        ensures
            r == bit_set(self@, 60),
    {
        self.value & (1u64 << 60) != 0
    }

    /// Sets XNTable (bit 60).
    pub fn set_xn(&mut self, value: bool)
        ensures
            with_bit(old(self)@, 60, value, final(self)@),
    {
        self.value = set_bit(self.value, 60, value);
    }

    /// PXNTable (bit 59).
    pub fn get_pxn(&self) -> (r: bool)
        ensures
            r == bit_set(self@, 59),
    {
        self.value & (1u64 << 59) != 0
    }

    /// Sets PXNTable (bit 59).
    pub fn set_pxn(&mut self, value: bool)
        ensures
            with_bit(old(self)@, 59, value, final(self)@),
    {
        self.value = set_bit(self.value, 59, value);
    }
}

/// A descriptor of a level-3 table: invalid, or a page descriptor.
#[derive(Clone, Copy, Debug, PartialEq, Eq)]
pub struct Level3TableEntry {
    value: u64,
}

impl View for Level3TableEntry {
    type V = u64;

    closed spec fn view(&self) -> u64 {
        self.value
    }
}

impl Level3TableEntry {
    /// A page descriptor for the frame at `phys`.
    pub fn new(phys: PhysicalAddress) -> (r: Self)
        ensures
            is_table_word(r@),
            r@ & ADDRESS_MASK == (phys.0 as u64) & ADDRESS_MASK,
    {
        let raw: u64 = phys.0 as u64;
        let p = raw & ADDRESS_MASK;
        let value = p | 0b11 | (1u64 << 2) | (1u64 << 10) | (1u64 << 6);
        assert(value & 3 == 3 && value & ADDRESS_MASK == p) by (bit_vector)
            requires
                p == raw & 0x0000_FFFF_FFFF_F000u64,
                value == p | 3u64 | (1u64 << 2) | (1u64 << 10) | (1u64 << 6),
        ;
        Level3TableEntry { value }
    }

    /// The invalid descriptor.
    pub fn new_invalid() -> (r: Self)
        ensures
            r@ == 0,
            !is_table_word(r@),
    {
        assert(0u64 & 3 == 0) by (bit_vector);
        Level3TableEntry { value: 0 }
    }

    /// The descriptor maps a page.
    pub fn is_valid(&self) -> (r: bool)
        ensures
            r == is_table_word(self@),
    {
        self.value & 0b11 == 0b11
    }

    /// The output address.
    pub fn address(&self) -> (r: u64)
        ensures
            r == self@ & ADDRESS_MASK,
    {
        self.value & ADDRESS_MASK
    }
}

/// The attribute bits of a leaf descriptor: a block at level 1 or 2, or a page at level 3.
pub trait PageOrBlockDesc {
    spec fn word(&self) -> u64;

    /// The raw descriptor word.
    fn value(&self) -> (r: u64)
        ensures
            r == self.word(),
    ;

    /// Replaces the raw descriptor word.
    fn set_value(&mut self, v: u64)
        ensures
            final(self).word() == v,
    ;

    /// The output address, bits [47:12].
    fn get_address(&self) -> (r: u64)
        ensures
            r == self.word() & ADDRESS_MASK,
    {
        self.value() & ADDRESS_MASK
    }

    /// Execute-never at EL0 (bit 54).
    fn get_xn(&self) -> (r: bool)
        ensures
            r == bit_set(self.word(), 54),
    {
        self.value() & (1u64 << 54u64) != 0
    }

    /// Sets: execute-never at EL0 (bit 54).
    fn set_xn(&mut self, value: bool)
        ensures
            with_bit(old(self).word(), 54, value, final(self).word()),
    {
        let v = set_bit(self.value(), 54, value);
        self.set_value(v);
    }

    /// Privileged execute-never (bit 53).
    fn get_pxn(&self) -> (r: bool)
        ensures
            r == bit_set(self.word(), 53),
    {
        self.value() & (1u64 << 53u64) != 0
    }

    /// Sets: privileged execute-never (bit 53).
    fn set_pxn(&mut self, value: bool)
        ensures
            with_bit(old(self).word(), 53, value, final(self).word()),
    {
        let v = set_bit(self.value(), 53, value);
        self.set_value(v);
    }

    /// Contiguous hint (bit 52).
    fn get_contiguous(&self) -> (r: bool)
        ensures
            r == bit_set(self.word(), 52),
    {
        self.value() & (1u64 << 52u64) != 0
    }

    /// Sets: contiguous hint (bit 52).
    fn set_contiguous(&mut self, value: bool)
        ensures
            with_bit(old(self).word(), 52, value, final(self).word()),
    {
        let v = set_bit(self.value(), 52, value);
        self.set_value(v);
    }

    /// Dirty bit modifier (bit 51).
    fn get_dirty(&self) -> (r: bool)
        ensures
            r == bit_set(self.word(), 51),
    {
        self.value() & (1u64 << 51u64) != 0
    }

    /// Sets: dirty bit modifier (bit 51).
    fn set_dirty(&mut self, value: bool)
        ensures
            with_bit(old(self).word(), 51, value, final(self).word()),
    {
        let v = set_bit(self.value(), 51, value);
        self.set_value(v);
    }

    /// Guarded page (bit 50).
    fn get_guarded(&self) -> (r: bool)
        ensures
            r == bit_set(self.word(), 50),
    {
        self.value() & (1u64 << 50u64) != 0
    }

    /// Sets: guarded page (bit 50).
    fn set_guarded(&mut self, value: bool)
        ensures
            with_bit(old(self).word(), 50, value, final(self).word()),
    {
        let v = set_bit(self.value(), 50, value);
        self.set_value(v);
    }

    /// Software bit: the kernel owns the frame (bit 55).
    fn get_owned(&self) -> (r: bool)
        ensures
            r == bit_set(self.word(), 55),
    {
        self.value() & (1u64 << 55u64) != 0
    }

    /// Sets: software bit: the kernel owns the frame (bit 55).
    fn set_owned(&mut self, value: bool)
        ensures
            with_bit(old(self).word(), 55, value, final(self).word()),
    {
        let v = set_bit(self.value(), 55, value);
        self.set_value(v);
    }

    /// Block translation entry (nT) (bit 16).
    fn get_nt(&self) -> (r: bool)
        ensures
            r == bit_set(self.word(), 16),
    {
        self.value() & (1u64 << 16u64) != 0
    }

    /// Sets: block translation entry (nT) (bit 16).
    fn set_nt(&mut self, value: bool)
        ensures
            with_bit(old(self).word(), 16, value, final(self).word()),
    {
        let v = set_bit(self.value(), 16, value);
        self.set_value(v);
    }

    /// Not global (bit 11).
    fn get_not_global(&self) -> (r: bool)
        ensures
            r == bit_set(self.word(), 11),
    {
        self.value() & (1u64 << 11u64) != 0
    }

    /// Sets: not global (bit 11).
    fn set_not_global(&mut self, value: bool)
        ensures
            with_bit(old(self).word(), 11, value, final(self).word()),
    {
        let v = set_bit(self.value(), 11, value);
        self.set_value(v);
    }

    /// Access flag (bit 10).
    fn get_access(&self) -> (r: bool)
        ensures
            r == bit_set(self.word(), 10),
    {
        self.value() & (1u64 << 10u64) != 0
    }

    /// Sets: access flag (bit 10).
    fn set_access(&mut self, value: bool)
        ensures
            with_bit(old(self).word(), 10, value, final(self).word()),
    {
        let v = set_bit(self.value(), 10, value);
        self.set_value(v);
    }

    /// Read-only access permission (bit 7).
    fn get_read_only(&self) -> (r: bool)
        ensures
            r == bit_set(self.word(), 7),
    {
        self.value() & (1u64 << 7u64) != 0
    }

    /// Sets: read-only access permission (bit 7).
    fn set_read_only(&mut self, value: bool)
        ensures
            with_bit(old(self).word(), 7, value, final(self).word()),
    {
        let v = set_bit(self.value(), 7, value);
        self.set_value(v);
    }

    /// EL0 access permission (bit 6).
    fn get_el0_accessible(&self) -> (r: bool)
        ensures
            r == bit_set(self.word(), 6),
    {
        self.value() & (1u64 << 6u64) != 0
    }

    /// Sets: eL0 access permission (bit 6).
    fn set_el0_accessible(&mut self, value: bool)
        ensures
            with_bit(old(self).word(), 6, value, final(self).word()),
    {
        let v = set_bit(self.value(), 6, value);
        self.set_value(v);
    }

    /// Non-secure (bit 5).
    fn get_non_secure(&self) -> (r: bool)
        ensures
            r == bit_set(self.word(), 5),
    {
        self.value() & (1u64 << 5u64) != 0
    }

    /// Sets: non-secure (bit 5).
    fn set_non_secure(&mut self, value: bool)
        ensures
            with_bit(old(self).word(), 5, value, final(self).word()),
    {
        let v = set_bit(self.value(), 5, value);
        self.set_value(v);
    }
}

/// The attributes of a block or page descriptor, decoded.
#[derive(Clone, Copy, Debug, PartialEq, Eq)]
pub struct LeafAttributes {
    pub xn: bool,
    pub pxn: bool,
    pub contiguous: bool,
    pub dirty: bool,
    pub guarded: bool,
    pub address: u64,
    pub not_global: bool,
    pub access: bool,
    pub read_only: bool,
    pub el0_accessible: bool,
    pub non_secure: bool,
}

/// Decodes the attributes of a block or page descriptor, for logs.
pub fn debug_page_or_block<D: PageOrBlockDesc>(v: &D) -> (r: LeafAttributes)
    ensures
        r.xn == bit_set(v.word(), 54),
        r.pxn == bit_set(v.word(), 53),
        r.contiguous == bit_set(v.word(), 52),
        r.dirty == bit_set(v.word(), 51),
        r.guarded == bit_set(v.word(), 50),
        r.address == v.word() & ADDRESS_MASK,
        r.not_global == bit_set(v.word(), 11),
        r.access == bit_set(v.word(), 10),
        r.read_only == bit_set(v.word(), 7),
        r.el0_accessible == bit_set(v.word(), 6),
        r.non_secure == bit_set(v.word(), 5),
{
    LeafAttributes {
        xn: v.get_xn(),
        pxn: v.get_pxn(),
        contiguous: v.get_contiguous(),
        dirty: v.get_dirty(),
        guarded: v.get_guarded(),
        address: v.get_address(),
        not_global: v.get_not_global(),
        access: v.get_access(),
        read_only: v.get_read_only(),
        el0_accessible: v.get_el0_accessible(),
        non_secure: v.get_non_secure(),
    }
}

impl PageOrBlockDesc for IntermediateTableEntry {
    open spec fn word(&self) -> u64 {
        self@
    }

    fn value(&self) -> (r: u64) {
        self.value
    }

    fn set_value(&mut self, v: u64) {
        self.value = v;
    }
}

impl PageOrBlockDesc for Level3TableEntry {
    open spec fn word(&self) -> u64 {
        self@
    }

    fn value(&self) -> (r: u64) {
        self.value
    }

    fn set_value(&mut self, v: u64) {
        self.value = v;
    }
}

/// The entry that `va` selects in a table at `level` (0 to 3).
pub fn table_index(va: usize, level: u8) -> (r: usize)
    requires
        level <= 3,
    ensures
        r as int == index_at(va, level as int),
        r < ENTRIES,
{
    let shift: u64 = if level == 0 {
        39
    } else if level == 1 {
        30
    } else if level == 2 {
        21
    } else {
        12
    };
    let x = va as u64;
    let r = (x >> shift) & 0x1FF;
    assert(r < 512) by (bit_vector)
        requires
            r == (x >> shift) & 0x1FFu64,
    ;
    r as usize
}

/// A level-3 table: 512 page descriptors.
pub struct Level3Table {
    entries: Vec<Level3TableEntry>,
}

impl Level3Table {
    pub closed spec fn wf(&self) -> bool {
        self.entries@.len() == ENTRIES
    }

    /// How this table translates the page of `va`.
    pub closed spec fn slot(&self, va: usize) -> Slot {
        let e = self.entries@[index_at(va, 3)]@;
        if is_table_word(e) {
            Slot::Page(e & ADDRESS_MASK)
        } else {
            Slot::Free
        }
    }

    /// A table with every entry invalid.
    pub fn new() -> (r: Self)
        ensures
            r.wf(),
            forall|w: usize| #[trigger] r.slot(w) == Slot::Free,
    {
        let mut entries: Vec<Level3TableEntry> = Vec::new();
        let mut i: usize = 0;
        while i < ENTRIES
            invariant
                i <= ENTRIES,
                entries@.len() == i,
                forall|j: int| 0 <= j < i ==> #[trigger] entries@[j]@ == 0,
            decreases ENTRIES - i,
        {
            entries.push(Level3TableEntry::new_invalid());
            i += 1;
        }
        let r = Level3Table { entries };
        assert forall|w: usize| #[trigger] r.slot(w) == Slot::Free by {
            let k = index_at(w, 3);
            assert(0 <= k < 512) by {
                let x = w as u64;
                assert((x >> 12u64) & 0x1FFu64 < 512) by (bit_vector);
            }
            assert(!is_table_word(0u64)) by {
                assert(0u64 & 3 == 0) by (bit_vector);
            }
        }
        r
    }

    /// The page descriptor at `idx`.
    pub fn entry(&self, idx: usize) -> (r: Level3TableEntry)
        requires
            self.wf(),
            idx < ENTRIES,
        ensures
            r == self.entry_at(idx as int),
    {
        self.entries[idx]
    }

    /// The descriptor at `i`.
    pub closed spec fn entry_at(&self, i: int) -> Level3TableEntry {
        self.entries@[i]
    }

    /// The output address of the descriptor at `idx`.
    pub fn get_frame_addr(&self, idx: usize) -> (r: u64)
        requires
            self.wf(),
            idx < ENTRIES,
        ensures
            r == self.entry_at(idx as int)@ & ADDRESS_MASK,
    {
        self.entries[idx].address()
    }

    fn lookup(&self, va: usize) -> (r: Slot)
        requires
            self.wf(),
        ensures
            r == self.slot(va),
    {
        let i = table_index(va, 3);
        let e = self.entries[i];
        if e.is_valid() {
            Slot::Page(e.address())
        } else {
            Slot::Free
        }
    }

    fn map_page(&mut self, va: usize, pa: usize)
        requires
            old(self).wf(),
        ensures
            final(self).wf(),
            final(self).slot(va) == Slot::Page((pa as u64) & ADDRESS_MASK),
            forall|w: usize| !same_path(w, va, 3) ==> #[trigger] final(self).slot(w) == old(self).slot(w),
    {
        let i = table_index(va, 3);
        let e = Level3TableEntry::new(PhysicalAddress(pa));
        self.entries.set(i, e);
        assert forall|w: usize| !same_path(w, va, 3) implies #[trigger] self.slot(w) == old(self).slot(w) by {
            lemma_index_bounds(w, 3);
        }
    }

    fn unmap_page(&mut self, va: usize)
        requires
            old(self).wf(),
        ensures
            final(self).wf(),
            final(self).slot(va) == Slot::Free,
            forall|w: usize| !same_path(w, va, 3) ==> #[trigger] final(self).slot(w) == old(self).slot(w),
    {
        let i = table_index(va, 3);
        self.entries.set(i, Level3TableEntry::new_invalid());
        assert forall|w: usize| !same_path(w, va, 3) implies #[trigger] self.slot(w) == old(self).slot(w) by {
            lemma_index_bounds(w, 3);
        }
    }
}

/// What an owned table descriptor leads to.
pub enum NextTable {
    Table(Box<IntermediateTable>),
    Leaf(Box<Level3Table>),
}

/// How the table that `n` leads to, below a table at `level`, translates the page of `w`.
pub closed spec fn next_slot(n: Option<NextTable>, level: int, w: usize) -> Slot {
    match n {
        Some(NextTable::Table(b)) => if level < 2 {
            b.slot_at(level + 1, w)
        } else {
            Slot::Fixed
        },
        Some(NextTable::Leaf(b)) => b.slot(w),
        None => Slot::Fixed,
    }
}

/// The next table that `n` leads to, below a table at `level`, has the tables down to the leaf
/// table for the page of `w`.
spec fn next_ready(n: Option<NextTable>, level: int, w: usize) -> bool {
    match n {
        Some(NextTable::Table(b)) => level < 2 && b.ready_at(level + 1, w),
        Some(NextTable::Leaf(_)) => level == 2,
        None => false,
    }
}

/// How many tables are missing below a table at `level` on the path to the page of `w`, where
/// its owned entry leads to `n`.
spec fn next_missing(n: Option<NextTable>, level: int, w: usize) -> int {
    match n {
        Some(NextTable::Table(b)) => if level < 2 {
            b.missing_at(level + 1, w)
        } else {
            3 - level
        },
        Some(NextTable::Leaf(_)) => if level == 2 {
            0
        } else {
            3 - level
        },
        None => 3 - level,
    }
}

/// A table at level 0, 1 or 2. Each owned table descriptor has its next table beside it, so
/// the hierarchy is a tree that the table owns.
pub struct IntermediateTable {
    level: u8,
    entries: Vec<IntermediateTableEntry>,
    next: Vec<Option<NextTable>>,
}

/// A top-level table: one address space.
pub type TopLevelTable = IntermediateTable;

impl IntermediateTable {
    /// Well formed as a table at `level`.
    pub closed spec fn wf_at(&self, level: int) -> bool
        decreases 3 - level,
    {
        &&& 0 <= level <= 2
        &&& self.level as int == level
        &&& self.entries@.len() == ENTRIES
        &&& self.next@.len() == ENTRIES
        &&& forall|i: int|
            #![trigger self.next@[i]]
            0 <= i < ENTRIES ==> {
                let e = self.entries@[i]@;
                if is_table_word(e) && is_owned_word(e) {
                    match self.next@[i] {
                        Some(NextTable::Table(b)) => level < 2 && b.wf_at(level + 1),
                        Some(NextTable::Leaf(b)) => level == 2 && b.wf(),
                        None => false,
                    }
                } else {
                    self.next@[i] is None && !(level == 0 && is_block_word(e))
                }
            }
    }

    /// How this table, at `level`, translates the page of `va`.
    pub closed spec fn slot_at(&self, level: int, va: usize) -> Slot
        decreases 3 - level,
    {
        if 0 <= level <= 2 {
            let i = index_at(va, level);
            let e = self.entries@[i]@;
            if is_table_word(e) {
                match self.next@[i] {
                    Some(NextTable::Table(b)) => if level < 2 {
                        b.slot_at(level + 1, va)
                    } else {
                        Slot::Fixed
                    },
                    Some(NextTable::Leaf(b)) => b.slot(va),
                    None => Slot::Fixed,
                }
            } else if is_block_word(e) && level > 0 {
                Slot::Fixed
            } else {
                Slot::Free
            }
        } else {
            Slot::Free
        }
    }

    /// The owned tables from this one, at `level`, down to the leaf table for the page of `va`
    /// all exist, so mapping that page takes no frame for a new table.
    pub closed spec fn ready_at(&self, level: int, va: usize) -> bool
        decreases 3 - level,
    {
        if 0 <= level <= 2 {
            let i = index_at(va, level);
            let e = self.entries@[i]@;
            &&& is_table_word(e)
            &&& is_owned_word(e)
            &&& match self.next@[i] {
                Some(NextTable::Table(b)) => level < 2 && b.ready_at(level + 1, va),
                Some(NextTable::Leaf(_)) => level == 2,
                None => false,
            }
        } else {
            false
        }
    }

    /// `va` lies in the window of the recursive self-mapping: the reserved slot of this top-level
    /// table holds a borrowed table descriptor.
    pub open spec fn self_mapped(&self, va: usize) -> bool {
        let e = self.entry_at(RECURSIVE_SLOT as int)@;
        index_at(va, 0) == RECURSIVE_SLOT && is_table_word(e) && !is_owned_word(e)
    }

    /// How many of the tables from this one, at `level`, down to the leaf table for the page of
    /// `va` are missing: the frames that mapping that page takes for new tables.
    pub closed spec fn missing_at(&self, level: int, va: usize) -> int
        decreases 3 - level,
    {
        if 0 <= level <= 2 {
            let i = index_at(va, level);
            let e = self.entries@[i]@;
            if is_table_word(e) && is_owned_word(e) {
                match self.next@[i] {
                    Some(NextTable::Table(b)) => if level < 2 {
                        b.missing_at(level + 1, va)
                    } else {
                        3 - level
                    },
                    Some(NextTable::Leaf(_)) => if level == 2 {
                        0
                    } else {
                        3 - level
                    },
                    None => 3 - level,
                }
            } else {
                3 - level
            }
        } else {
            0
        }
    }

    /// How many tables are missing on the path to the page of `va`.
    pub open spec fn missing(&self, va: usize) -> int {
        self.missing_at(0, va)
    }

    /// The tables down to the leaf table for the page of `va` all exist.
    pub open spec fn ready(&self, va: usize) -> bool {
        self.ready_at(0, va)
    }

    /// A well-formed top-level table.
    pub open spec fn wf(&self) -> bool {
        self.wf_at(0) && self.level_of() == 0
    }

    /// How this top-level table translates the page of `va`.
    pub open spec fn slot(&self, va: usize) -> Slot {
        self.slot_at(0, va)
    }

    /// The level of this table.
    pub closed spec fn level_of(&self) -> int {
        self.level as int
    }

    /// A table at `level` with every entry invalid.
    pub fn new(level: u8) -> (r: Self)
        requires
            level <= 2,
        ensures
            r.wf_at(level as int),
            r.level_of() == level,
            forall|w: usize| #[trigger] r.slot_at(level as int, w) == Slot::Free,
            forall|i: int| 0 <= i < ENTRIES ==> (#[trigger] r.entry_at(i))@ == 0,
    {
        let mut entries: Vec<IntermediateTableEntry> = Vec::new();
        let mut next: Vec<Option<NextTable>> = Vec::new();
        let mut i: usize = 0;
        while i < ENTRIES
            invariant
                i <= ENTRIES,
                entries@.len() == i,
                next@.len() == i,
                forall|j: int| 0 <= j < i ==> #[trigger] entries@[j]@ == 0,
                forall|j: int| 0 <= j < i ==> #[trigger] next@[j] is None,
            decreases ENTRIES - i,
        {
            entries.push(IntermediateTableEntry::new_invalid());
            next.push(None);
            i += 1;
        }
        let r = IntermediateTable { level, entries, next };
        assert(!is_table_word(0u64) && !is_block_word(0u64)) by {
            assert(0u64 & 3 == 0) by (bit_vector);
        }
        assert forall|i: int| 0 <= i < ENTRIES implies #[trigger] r.next@[i] is None && r.entries@[i]@ == 0 by {}
        assert forall|w: usize| #[trigger] r.slot_at(level as int, w) == Slot::Free by {
            let x = w as u64;
            let s = shift_of(level as int);
            assert((x >> s) & 0x1FFu64 < 512) by (bit_vector);
        }
        r
    }

    /// The descriptor at `idx`.
    pub fn entry(&self, idx: usize) -> (r: IntermediateTableEntry)
        requires
            self.wf_at(self.level_of()),
            idx < ENTRIES,
        ensures
            r == self.entry_at(idx as int),
    {
        self.entries[idx]
    }

    /// The descriptor at `i`.
    pub closed spec fn entry_at(&self, i: int) -> IntermediateTableEntry {
        self.entries@[i]
    }

    /// How this table translates the page of `va`.
    pub fn lookup(&self, va: VirtualAddress) -> (r: Slot)
        requires
            self.wf(),
        ensures
            r == self.slot(va.0),
    {
        self.lookup_at(0, va.0)
    }

    fn lookup_at(&self, level: u8, va: usize) -> (r: Slot)
        requires
            self.wf_at(level as int),
        ensures
            r == self.slot_at(level as int, va),
        decreases 3 - level,
    {
        let i = table_index(va, level);
        let e = self.entries[i];
        if e.is_table() {
            match &self.next[i] {
                Some(NextTable::Table(b)) => {
                    if level < 2 {
                        b.lookup_at(level + 1, va)
                    } else {
                        Slot::Fixed
                    }
                },
                Some(NextTable::Leaf(b)) => b.lookup(va),
                None => Slot::Fixed,
            }
        } else if e.is_block() && level > 0 {
            Slot::Fixed
        } else {
            Slot::Free
        }
    }
    fn map_page(&mut self, level: u8, frames: &mut FrameAllocator, va: usize, pa: usize)
        requires
            old(self).wf_at(level as int),
            old(frames).wf(),
            old(frames).free_frames() >= old(self).missing_at(level as int, va),
            old(self).slot_at(level as int, va) == Slot::Free,
        ensures
            final(self).ready_at(level as int, va),
            old(self).ready_at(level as int, va) ==> *final(frames) == *old(frames),
            forall|w: usize| old(self).ready_at(level as int, w) ==> #[trigger] final(self).ready_at(level as int, w),
            forall|f: int| #[trigger] covers(final(frames)@, f) ==> covers(old(frames)@, f),
            final(self).wf_at(level as int),
            final(frames).wf(),
            final(frames).free_frames() >= old(frames).free_frames() - old(self).missing_at(level as int, va),
            forall|w: usize| #[trigger] final(self).missing_at(level as int, w) <= old(self).missing_at(level as int, w),
            final(self).slot_at(level as int, va) == Slot::Page((pa as u64) & ADDRESS_MASK),
            forall|w: usize|
                !same_path(w, va, level as int) ==> #[trigger] final(self).slot_at(level as int, w)
                    == old(self).slot_at(level as int, w),
            forall|j: int|
                0 <= j < ENTRIES && old(self).entry_at(j)@ & 1 == 1 ==> #[trigger] final(self).entry_at(j)
                    == old(self).entry_at(j),
        decreases 3 - level,
    {
        let i = table_index(va, level);
        let e = self.entries[i];
        let ghost was_table = is_table_word(e@);
        proof {
            lemma_missing_bounds(*old(self), level as int, va);
        }
        if !e.is_table() {
            assert(e@ & 1 != 1) by {
                let v = e@;
                assert(v & 3 != 3 && v & 3 != 1 ==> v & 1 != 1) by (bit_vector);
            }
            assert(frames@.len() > 0) by {
                if frames@.len() == 0 {
                    assert(total_frames(frames@) == 0);
                }
            }
            proof {
                lemma_after_alloc_covers(frames@);
            }
            let f = frames.allocate();
            let child = if level < 2 {
                NextTable::Table(Box::new(IntermediateTable::new(level + 1)))
            } else {
                NextTable::Leaf(Box::new(Level3Table::new()))
            };
            self.entries.set(i, IntermediateTableEntry::new(f, true));
            self.next.set(i, Some(child));
            assert forall|w: usize| #[trigger] next_slot(self.next@[i as int], level as int, w) == Slot::Free by {}
            assert(!is_table_word(0u64)) by {
                assert(0u64 & 3 == 0) by (bit_vector);
            }
            assert forall|w: usize| #[trigger] next_missing(self.next@[i as int], level as int, w) == 2 - level by {
                lemma_index_bounds(w, level as int + 1);
                match self.next@[i as int] {
                    Some(NextTable::Table(b)) => {
                        assert(b.entry_at(index_at(w, level as int + 1))@ == 0);
                        assert(b.missing_at(level as int + 1, w) == 3 - (level as int + 1));
                    },
                    _ => {},
                }
            }
        } else {
            assert(is_owned_word(e@));
        }
        let ghost mid = *self;
        let ghost mid_frames = *frames;
        assert(next_missing(mid.next@[i as int], level as int, va) <= frames.free_frames());
        assert(was_table ==> mid.next@[i as int] == old(self).next@[i as int]);
        assert(was_table ==> frames.free_frames() == old(frames).free_frames());
        assert(!was_table ==> frames.free_frames() == old(frames).free_frames() - 1);
        assert(mid.wf_at(level as int)) by {
            assert forall|j: int| #![trigger mid.next@[j]] 0 <= j < ENTRIES && j != i implies mid.next@[j]
                == old(self).next@[j] && mid.entries@[j] == old(self).entries@[j] by {}
        }
        let taken = self.next[i].take();
        match taken {
            Some(NextTable::Table(b)) => {
                let mut t = *b;
                if level < 2 {
                    t.map_page(level + 1, frames, va, pa);
                }
                self.next.set(i, Some(NextTable::Table(Box::new(t))));
            },
            Some(NextTable::Leaf(b)) => {
                let mut t = *b;
                t.map_page(va, pa);
                self.next.set(i, Some(NextTable::Leaf(Box::new(t))));
            },
            None => {},
        }
        proof {
            assert(self.entries@ == mid.entries@);
            assert(frames.free_frames() >= mid_frames.free_frames() - next_missing(mid.next@[i as int], level as int, va));
            assert forall|w: usize| #[trigger] next_missing(self.next@[i as int], level as int, w) <= next_missing(
                mid.next@[i as int],
                level as int,
                w,
            ) by {}
            assert forall|w: usize| #[trigger] self.missing_at(level as int, w) <= old(self).missing_at(level as int, w) by {
                lemma_index_bounds(w, level as int);
                if index_at(w, level as int) == i {
                    assert(self.missing_at(level as int, w) == next_missing(self.next@[i as int], level as int, w));
                    if was_table {
                        assert(old(self).missing_at(level as int, w) == next_missing(old(self).next@[i as int], level as int, w));
                    } else {
                        assert(old(self).missing_at(level as int, w) == 3 - level);
                    }
                } else {
                    assert(self.next@[index_at(w, level as int)] == old(self).next@[index_at(w, level as int)]);
                    assert(self.entries@[index_at(w, level as int)] == old(self).entries@[index_at(w, level as int)]);
                }
            }
            assert forall|w: usize| !same_path(w, va, (level + 1) as int) implies #[trigger] next_slot(
                self.next@[i as int],
                level as int,
                w,
            ) == next_slot(mid.next@[i as int], level as int, w) by {}
            assert forall|w: usize| next_ready(mid.next@[i as int], level as int, w) implies #[trigger] next_ready(
                self.next@[i as int],
                level as int,
                w,
            ) by {}
            assert(next_ready(self.next@[i as int], level as int, va));
            assert(self.ready_at(level as int, va));
            assert forall|w: usize| old(self).ready_at(level as int, w) implies #[trigger] self.ready_at(level as int, w) by {
                lemma_index_bounds(w, level as int);
                if index_at(w, level as int) == i {
                    assert(was_table);
                    assert(next_ready(old(self).next@[i as int], level as int, w));
                    assert(next_ready(self.next@[i as int], level as int, w));
                } else {
                    assert(self.next@[index_at(w, level as int)] == old(self).next@[index_at(w, level as int)]);
                    assert(self.entries@[index_at(w, level as int)] == old(self).entries@[index_at(w, level as int)]);
                }
            }
            assert forall|w: usize| !same_path(w, va, level as int) implies #[trigger] self.slot_at(level as int, w)
                == old(self).slot_at(level as int, w) by {
                lemma_index_bounds(w, level as int);
                if index_at(w, level as int) == i {
                    assert(!same_path(w, va, level as int + 1));
                    assert(self.slot_at(level as int, w) == next_slot(self.next@[i as int], level as int, w));
                    if was_table {
                        assert(old(self).slot_at(level as int, w) == next_slot(old(self).next@[i as int], level as int, w));
                    } else {
                        assert(old(self).slot_at(level as int, va) == Slot::Free);
                    }
                } else {
                    assert(self.next@[index_at(w, level as int)] == old(self).next@[index_at(w, level as int)]);
                    assert(self.entries@[index_at(w, level as int)] == old(self).entries@[index_at(w, level as int)]);
                }
            }
            assert(self.slot_at(level as int, va) == next_slot(self.next@[i as int], level as int, va));
            assert forall|j: int| #![trigger self.next@[j]] 0 <= j < ENTRIES implies {
                let e = self.entries@[j]@;
                if is_table_word(e) && is_owned_word(e) {
                    match self.next@[j] {
                        Some(NextTable::Table(b)) => level < 2 && b.wf_at(level + 1),
                        Some(NextTable::Leaf(b)) => level == 2 && b.wf(),
                        None => false,
                    }
                } else {
                    self.next@[j] is None && !(level == 0 && is_block_word(e))
                }
            } by {
                if j != i {
                    assert(self.next@[j] == mid.next@[j]);
                }
            }
        }
    }

    fn unmap_page(&mut self, level: u8, va: usize)
        requires
            old(self).wf_at(level as int),
        ensures
            final(self).wf_at(level as int),
            final(self).slot_at(level as int, va) == (if level == 0 && old(self).self_mapped(va) {
                Slot::Fixed
            } else {
                Slot::Free
            }),
            forall|w: usize|
                !same_path(w, va, level as int) ==> cleared_or_same(
                    old(self).slot_at(level as int, w),
                    #[trigger] final(self).slot_at(level as int, w),
                ),
            forall|w: usize| old(self).ready_at(level as int, w) ==> #[trigger] final(self).ready_at(level as int, w),
            forall|w: usize| #[trigger] final(self).missing_at(level as int, w) <= old(self).missing_at(level as int, w),
            forall|j: int|
                0 <= j < ENTRIES && ((is_table_word(old(self).entries@[j]@) && is_owned_word(old(self).entries@[j]@))
                    || (level == 0 && j == RECURSIVE_SLOT)) ==> #[trigger] final(self).entries@[j] == old(self).entries@[j],
        decreases 3 - level,
    {
        let i = table_index(va, level);
        let e = self.entries[i];
        if !e.is_table() || self.next[i].is_none() {
            let keep = level == 0 && i == RECURSIVE_SLOT;
            if e.is_valid() && !keep {
                assert(!(is_table_word(e@) && is_owned_word(e@)));
                self.entries.set(i, IntermediateTableEntry::new_invalid());
            }
            proof {
                assert(!is_table_word(0u64) && !is_block_word(0u64)) by {
                    assert(0u64 & 3 == 0) by (bit_vector);
                }
                assert(e@ & 1 != 1 ==> !is_table_word(e@) && !is_block_word(e@)) by {
                    let v = e@;
                    assert(v & 1 != 1 ==> v & 3 != 3 && v & 3 != 1) by (bit_vector);
                }
                assert forall|j: int| #![trigger self.next@[j]] 0 <= j < ENTRIES && j != i implies self.entries@[j]
                    == old(self).entries@[j] by {}
                assert forall|w: usize| !same_path(w, va, level as int) implies cleared_or_same(
                    old(self).slot_at(level as int, w),
                    #[trigger] self.slot_at(level as int, w),
                ) by {
                    lemma_index_bounds(w, level as int);
                }
                assert forall|w: usize| old(self).ready_at(level as int, w) implies #[trigger] self.ready_at(level as int, w) by {
                    lemma_index_bounds(w, level as int);
                }
                assert forall|w: usize| #[trigger] self.missing_at(level as int, w) <= old(self).missing_at(level as int, w) by {
                    lemma_index_bounds(w, level as int);
                }
                if keep {
                    assert(self.slot_at(level as int, va) == old(self).slot_at(level as int, va));
                }
            }
            return;
        }
        let ghost mid = *self;
        let taken = self.next[i].take();
        match taken {
            Some(NextTable::Table(b)) => {
                let mut t = *b;
                if level < 2 {
                    t.unmap_page(level + 1, va);
                }
                self.next.set(i, Some(NextTable::Table(Box::new(t))));
            },
            Some(NextTable::Leaf(b)) => {
                let mut t = *b;
                t.unmap_page(va);
                self.next.set(i, Some(NextTable::Leaf(Box::new(t))));
            },
            None => {},
        }
        proof {
            assert forall|w: usize| !same_path(w, va, (level + 1) as int) implies cleared_or_same(
                next_slot(mid.next@[i as int], level as int, w),
                #[trigger] next_slot(self.next@[i as int], level as int, w),
            ) by {}
            assert forall|w: usize| next_ready(mid.next@[i as int], level as int, w) implies #[trigger] next_ready(
                self.next@[i as int],
                level as int,
                w,
            ) by {}
            assert forall|w: usize| #[trigger] next_missing(self.next@[i as int], level as int, w) <= next_missing(
                mid.next@[i as int],
                level as int,
                w,
            ) by {}
            assert forall|w: usize| #[trigger] self.missing_at(level as int, w) <= old(self).missing_at(level as int, w) by {
                lemma_index_bounds(w, level as int);
                if index_at(w, level as int) == i {
                    assert(self.missing_at(level as int, w) == next_missing(self.next@[i as int], level as int, w));
                    assert(old(self).missing_at(level as int, w) == next_missing(old(self).next@[i as int], level as int, w));
                } else {
                    assert(self.next@[index_at(w, level as int)] == old(self).next@[index_at(w, level as int)]);
                }
            }
            assert forall|w: usize| old(self).ready_at(level as int, w) implies #[trigger] self.ready_at(level as int, w) by {
                lemma_index_bounds(w, level as int);
                if index_at(w, level as int) == i {
                    assert(next_ready(old(self).next@[i as int], level as int, w));
                    assert(next_ready(self.next@[i as int], level as int, w));
                } else {
                    assert(self.next@[index_at(w, level as int)] == old(self).next@[index_at(w, level as int)]);
                }
            }
            assert forall|w: usize| !same_path(w, va, level as int) implies cleared_or_same(
                old(self).slot_at(level as int, w),
                #[trigger] self.slot_at(level as int, w),
            ) by {
                lemma_index_bounds(w, level as int);
                if index_at(w, level as int) == i {
                    assert(!same_path(w, va, level as int + 1));
                    assert(self.slot_at(level as int, w) == next_slot(self.next@[i as int], level as int, w));
                    assert(old(self).slot_at(level as int, w) == next_slot(old(self).next@[i as int], level as int, w));
                } else {
                    assert(self.next@[index_at(w, level as int)] == old(self).next@[index_at(w, level as int)]);
                }
            }
            assert(self.slot_at(level as int, va) == next_slot(self.next@[i as int], level as int, va));
            assert(old(self).slot_at(level as int, va) == next_slot(old(self).next@[i as int], level as int, va));
            assert forall|j: int| #![trigger self.next@[j]] 0 <= j < ENTRIES implies {
                let e = self.entries@[j]@;
                if is_table_word(e) && is_owned_word(e) {
                    match self.next@[j] {
                        Some(NextTable::Table(b)) => level < 2 && b.wf_at(level + 1),
                        Some(NextTable::Leaf(b)) => level == 2 && b.wf(),
                        None => false,
                    }
                } else {
                    self.next@[j] is None && !(level == 0 && is_block_word(e))
                }
            } by {
                if j != i {
                    assert(self.next@[j] == mid.next@[j]);
                }
            }
        }
    }

    /// Maps `[virt, virt + size)`, page by page, onto the frames from `phys` on. Refuses, and
    /// changes nothing, where any page of the range is already mapped. New next-level tables
    /// come from `frames`.
    pub fn map_to(
        &mut self,
        frames: &mut FrameAllocator,
        virt: VirtualAddress,
        phys: PhysicalAddress,
        size: usize,
    ) -> (r: Result<(), MapError>)
        requires
            old(self).wf(),
            old(frames).wf(),
            virt.0 + size <= usize::MAX,
            phys.0 + size <= usize::MAX,
            size as u64 <= MAX_RANGE,
            (forall|k: int|
                0 <= k < frames_for(size as int) ==> #[trigger] old(self).slot(page_va(virt.0, k))
                    == Slot::Free) ==> old(frames).free_frames() >= table_frames(
                *old(self),
                virt.0,
                frames_for(size as int),
            ),
        ensures
            final(self).wf(),
            final(frames).wf(),
            r is Err <==> exists|k: int|
                0 <= k < frames_for(size as int) && #[trigger] old(self).slot(page_va(virt.0, k))
                    != Slot::Free,
            r is Err ==> *final(self) == *old(self) && *final(frames) == *old(frames),
            r is Ok ==> forall|k: int|
                0 <= k < frames_for(size as int) ==> #[trigger] final(self).slot(page_va(virt.0, k))
                    == Slot::Page(page_pa(phys.0, k)),
            forall|w: usize|
                !in_range(w, virt.0, frames_for(size as int)) ==> #[trigger] final(self).slot(w)
                    == old(self).slot(w),
            final(frames).free_frames() >= old(frames).free_frames() - table_frames(
                *old(self),
                virt.0,
                frames_for(size as int),
            ),
            forall|w: usize| old(self).ready(w) ==> #[trigger] final(self).ready(w),
            forall|w: usize| #[trigger] final(self).missing(w) <= old(self).missing(w),
            r is Ok ==> forall|k: int|
                0 <= k < frames_for(size as int) ==> #[trigger] final(self).ready(page_va(virt.0, k)),
            forall|f: int| #[trigger] covers(final(frames)@, f) ==> covers(old(frames)@, f),
            table_frames(*old(self), virt.0, frames_for(size as int)) == 0 ==> *final(frames) == *old(frames),
            forall|j: int|
                0 <= j < ENTRIES && old(self).entry_at(j)@ & 1 == 1 ==> #[trigger] final(self).entry_at(j)
                    == old(self).entry_at(j),
    {
        let pages: usize = if size % FRAME_SIZE == 0 {
            size / FRAME_SIZE
        } else {
            size / FRAME_SIZE + 1
        };
        proof {
            lemma_pages_bound(size as int);
            lemma_table_frames_mono(*old(self), virt.0, pages as int, pages as int);
        }
        let mut k: usize = 0;
        while k < pages
            invariant
                k <= pages,
                pages == frames_for(size as int),
                pages <= 0x10_0000_0000,
                virt.0 + size <= usize::MAX,
                *self == *old(self),
                table_frames(*old(self), virt.0, pages as int) >= 0,
                *frames == *old(frames),
                self.wf(),
                frames.wf(),
                forall|j: int| 0 <= j < k ==> #[trigger] self.slot(page_va(virt.0, j)) == Slot::Free,
            decreases pages - k,
        {
            proof {
                lemma_page_offset(size as int, k as int);
            }
            let va = virt.0 + k * FRAME_SIZE;
            assert(va == page_va(virt.0, k as int));
            match self.lookup(VirtualAddress(va)) {
                Slot::Free => {},
                _ => {
                    assert(old(self).slot(page_va(virt.0, k as int)) != Slot::Free);
                    return Err(MapError::AlreadyMapped);
                },
            }
            k += 1;
        }
        let mut k: usize = 0;
        while k < pages
            invariant
                k <= pages,
                pages == frames_for(size as int),
                pages <= 0x10_0000_0000,
                virt.0 + size <= usize::MAX,
                phys.0 + size <= usize::MAX,
                self.wf(),
                frames.wf(),
                frames.free_frames() >= old(frames).free_frames() - table_frames(*old(self), virt.0, k as int),
                old(frames).free_frames() >= table_frames(*old(self), virt.0, pages as int),
                table_frames(*old(self), virt.0, pages as int) == 0 ==> *frames == *old(frames),
                forall|w: usize| old(self).ready(w) ==> #[trigger] self.ready(w),
                forall|w: usize| #[trigger] self.missing(w) <= old(self).missing(w),
                forall|j: int|
                    0 <= j < ENTRIES && old(self).entry_at(j)@ & 1 == 1 ==> #[trigger] self.entry_at(j)
                        == old(self).entry_at(j),
                forall|j: int| 0 <= j < k ==> #[trigger] self.ready(page_va(virt.0, j)),
                forall|f: int| #[trigger] covers(frames@, f) ==> covers(old(frames)@, f),
                forall|j: int| 0 <= j < k ==> #[trigger] self.slot(page_va(virt.0, j)) == Slot::Page(page_pa(phys.0, j)),
                forall|j: int| k <= j < pages ==> #[trigger] self.slot(page_va(virt.0, j)) == Slot::Free,
                forall|w: usize| !in_range(w, virt.0, k as int) ==> #[trigger] self.slot(w) == old(self).slot(w),
            decreases pages - k,
        {
            proof {
                lemma_page_offset(size as int, k as int);
            }
            let va = virt.0 + k * FRAME_SIZE;
            let pa = phys.0 + k * FRAME_SIZE;
            let ghost before = *self;
            assert(va == page_va(virt.0, k as int));
            assert(self.slot(va) == Slot::Free);
            let ghost frames_before = *frames;
            proof {
                lemma_table_frames_mono(*old(self), virt.0, k + 1, pages as int);
                lemma_table_frames_mono(*old(self), virt.0, k as int, k as int);
                lemma_missing_bounds(*self, 0, va);
                lemma_missing_bounds(*old(self), 0, va);
                if k > 0 && region_of(page_va(virt.0, k as int)) == region_of(page_va(virt.0, k - 1)) {
                    assert(self.ready(page_va(virt.0, k - 1)));
                    lemma_ready_same_region(*self, 0, page_va(virt.0, k - 1), page_va(virt.0, k as int));
                } else {
                    assert(self.missing(va) <= old(self).missing(va));
                }
                assert(self.missing(va) <= page_charge(*old(self), virt.0, k as int));
            }
            self.map_page(0, frames, va, pa);
            proof {
                assert forall|w: usize| #[trigger] self.missing(w) <= old(self).missing(w) by {
                    assert(self.missing_at(0, w) <= before.missing_at(0, w));
                    assert(before.missing(w) <= old(self).missing(w));
                }
                assert forall|j: int| 0 <= j < ENTRIES && old(self).entry_at(j)@ & 1 == 1 implies #[trigger] self.entry_at(j)
                    == old(self).entry_at(j) by {
                    assert(before.entry_at(j) == old(self).entry_at(j));
                }
                assert forall|f: int| #[trigger] covers(frames@, f) implies covers(old(frames)@, f) by {
                    assert(covers(frames_before@, f));
                }
                assert forall|j: int| 0 <= j < k + 1 implies #[trigger] self.ready(page_va(virt.0, j)) by {
                    if j < k {
                        assert(before.ready(page_va(virt.0, j)));
                        assert(self.ready_at(0, page_va(virt.0, j)));
                    }
                }
                assert forall|w: usize| old(self).ready(w) implies #[trigger] self.ready(w) by {
                    assert(before.ready(w));
                    assert(self.ready_at(0, w));
                }
                assert forall|j: int| 0 <= j < k implies #[trigger] self.slot(page_va(virt.0, j)) == Slot::Page(page_pa(phys.0, j)) by {
                    lemma_page_offset(size as int, j);
                    lemma_distinct_pages(virt.0, j, k as int);
                    assert(before.slot(page_va(virt.0, j)) == Slot::Page(page_pa(phys.0, j)));
                    assert(!same_path(page_va(virt.0, j), va, 0));
                    assert(self.slot_at(0, page_va(virt.0, j)) == before.slot_at(0, page_va(virt.0, j)));
                }
                assert forall|j: int| k + 1 <= j < pages implies #[trigger] self.slot(page_va(virt.0, j)) == Slot::Free by {
                    lemma_page_offset(size as int, j);
                    lemma_distinct_pages(virt.0, k as int, j);
                    assert(before.slot(page_va(virt.0, j)) == Slot::Free);
                    assert(!same_path(page_va(virt.0, j), va, 0));
                    assert(self.slot_at(0, page_va(virt.0, j)) == before.slot_at(0, page_va(virt.0, j)));
                }
                assert forall|w: usize| !in_range(w, virt.0, k + 1) implies #[trigger] self.slot(w) == old(self).slot(w) by {
                    assert(!same_path(w, page_va(virt.0, k as int), 0)) by {
                        if same_path(w, page_va(virt.0, k as int), 0) {
                            assert(0 <= k < k + 1 && same_path(w, page_va(virt.0, k as int), 0));
                        }
                    }
                    assert(!same_path(w, va, 0));
                    assert(self.slot_at(0, w) == before.slot_at(0, w));
                    assert(!in_range(w, virt.0, k as int)) by {
                        if in_range(w, virt.0, k as int) {
                            let j = choose|j: int| 0 <= j < k && #[trigger] same_path(w, page_va(virt.0, j), 0);
                            assert(0 <= j < k + 1 && same_path(w, page_va(virt.0, j), 0));
                        }
                    }
                    assert(before.slot(w) == old(self).slot(w));
                }
            }
            k += 1;
        }
        Ok(())
    }

    /// Clears every mapping in `[virt, virt + size)`: afterwards no page of the range has a
    /// translation, but for the window of the recursive self-mapping, which every top-level table
    /// keeps. Mappings that this table does not own (block descriptors, borrowed tables) are
    /// cleared whole wherever they meet the range, so the pages of a block that lie outside the
    /// range lose their translation too. Next-level tables that become empty are kept, and no
    /// frame goes back to the allocator.
    pub fn unmap(&mut self, virt: VirtualAddress, size: usize)
        requires
            old(self).wf(),
            virt.0 + size <= usize::MAX,
            size as u64 <= MAX_RANGE,
        ensures
            final(self).wf(),
            forall|k: int|
                0 <= k < frames_for(size as int) ==> #[trigger] final(self).slot(page_va(virt.0, k))
                    == (if old(self).self_mapped(page_va(virt.0, k)) {
                    Slot::Fixed
                } else {
                    Slot::Free
                }),
            forall|w: usize|
                !in_range(w, virt.0, frames_for(size as int)) ==> cleared_or_same(
                    old(self).slot(w),
                    #[trigger] final(self).slot(w),
                ),
            forall|w: usize|
                old(self).slot(w) != Slot::Fixed && !in_range(w, virt.0, frames_for(size as int))
                    ==> #[trigger] final(self).slot(w) == old(self).slot(w),
            forall|w: usize| old(self).ready(w) ==> #[trigger] final(self).ready(w),
            forall|w: usize| #[trigger] final(self).missing(w) <= old(self).missing(w),
            forall|w: usize| #[trigger] final(self).self_mapped(w) == old(self).self_mapped(w),
            forall|j: int|
                0 <= j < ENTRIES && ((is_table_word(old(self).entry_at(j)@) && is_owned_word(old(self).entry_at(j)@))
                    || j == RECURSIVE_SLOT) ==> #[trigger] final(self).entry_at(j) == old(self).entry_at(j),
    {
        let pages: usize = if size % FRAME_SIZE == 0 {
            size / FRAME_SIZE
        } else {
            size / FRAME_SIZE + 1
        };
        proof {
            lemma_pages_bound(size as int);
        }
        let mut k: usize = 0;
        while k < pages
            invariant
                k <= pages,
                pages == frames_for(size as int),
                pages <= 0x10_0000_0000,
                virt.0 + size <= usize::MAX,
                self.wf(),
                forall|w: usize| old(self).ready(w) ==> #[trigger] self.ready(w),
                forall|w: usize| #[trigger] self.missing(w) <= old(self).missing(w),
                forall|w: usize| #[trigger] self.self_mapped(w) == old(self).self_mapped(w),
                forall|j: int|
                    0 <= j < ENTRIES && ((is_table_word(old(self).entry_at(j)@) && is_owned_word(old(self).entry_at(j)@))
                        || j == RECURSIVE_SLOT) ==> #[trigger] self.entry_at(j) == old(self).entry_at(j),
                forall|j: int| 0 <= j < k ==> #[trigger] self.slot(page_va(virt.0, j)) == (if old(self).self_mapped(page_va(virt.0, j)) {
                    Slot::Fixed
                } else {
                    Slot::Free
                }),
                forall|j: int| k <= j < pages ==> cleared_or_same(old(self).slot(page_va(virt.0, j)), #[trigger] self.slot(page_va(virt.0, j))),
                forall|w: usize| !in_range(w, virt.0, k as int) ==> cleared_or_same(old(self).slot(w), #[trigger] self.slot(w)),
            decreases pages - k,
        {
            proof {
                lemma_page_offset(size as int, k as int);
            }
            let va = virt.0 + k * FRAME_SIZE;
            let ghost before = *self;
            assert(va == page_va(virt.0, k as int));
            self.unmap_page(0, va);
            proof {
                assert(self.entries@[RECURSIVE_SLOT as int] == before.entries@[RECURSIVE_SLOT as int]);
                assert forall|w: usize| #[trigger] self.self_mapped(w) == old(self).self_mapped(w) by {
                    assert(before.self_mapped(w) == old(self).self_mapped(w));
                }
                assert forall|j: int|
                    0 <= j < ENTRIES && ((is_table_word(old(self).entry_at(j)@) && is_owned_word(old(self).entry_at(j)@))
                        || j == RECURSIVE_SLOT) implies #[trigger] self.entry_at(j) == old(self).entry_at(j) by {
                    assert(before.entry_at(j) == old(self).entry_at(j));
                    assert(self.entries@[j] == before.entries@[j]);
                }
                assert forall|w: usize| #[trigger] self.missing(w) <= old(self).missing(w) by {
                    assert(self.missing_at(0, w) <= before.missing_at(0, w));
                    assert(before.missing(w) <= old(self).missing(w));
                }
                assert forall|w: usize| old(self).ready(w) implies #[trigger] self.ready(w) by {
                    assert(before.ready(w));
                    assert(self.ready_at(0, w));
                }
                assert forall|j: int| 0 <= j < k implies #[trigger] self.slot(page_va(virt.0, j)) == (if old(self).self_mapped(page_va(virt.0, j)) {
                    Slot::Fixed
                } else {
                    Slot::Free
                }) by {
                    lemma_page_offset(size as int, j);
                    lemma_distinct_pages(virt.0, j, k as int);
                    assert(before.slot(page_va(virt.0, j)) == (if old(self).self_mapped(page_va(virt.0, j)) {
                        Slot::Fixed
                    } else {
                        Slot::Free
                    }));
                    assert(!same_path(page_va(virt.0, j), va, 0));
                    assert(cleared_or_same(before.slot_at(0, page_va(virt.0, j)), self.slot_at(0, page_va(virt.0, j))));
                    if old(self).self_mapped(page_va(virt.0, j)) {
                        assert(self.self_mapped(page_va(virt.0, j)));
                        assert(self.slot_at(0, page_va(virt.0, j)) == Slot::Fixed);
                    }
                }
                assert forall|j: int| k + 1 <= j < pages implies cleared_or_same(old(self).slot(page_va(virt.0, j)), #[trigger] self.slot(page_va(virt.0, j))) by {
                    lemma_page_offset(size as int, j);
                    lemma_distinct_pages(virt.0, k as int, j);
                    assert(cleared_or_same(old(self).slot(page_va(virt.0, j)), before.slot(page_va(virt.0, j))));
                    assert(!same_path(page_va(virt.0, j), va, 0));
                    assert(cleared_or_same(before.slot_at(0, page_va(virt.0, j)), self.slot_at(0, page_va(virt.0, j))));
                }
                assert forall|w: usize| !in_range(w, virt.0, k + 1) implies cleared_or_same(old(self).slot(w), #[trigger] self.slot(w)) by {
                    assert(!same_path(w, page_va(virt.0, k as int), 0)) by {
                        if same_path(w, page_va(virt.0, k as int), 0) {
                            assert(0 <= k < k + 1 && same_path(w, page_va(virt.0, k as int), 0));
                        }
                    }
                    assert(!same_path(w, va, 0));
                    assert(cleared_or_same(before.slot_at(0, w), self.slot_at(0, w)));
                    assert(!in_range(w, virt.0, k as int)) by {
                        if in_range(w, virt.0, k as int) {
                            let j = choose|j: int| 0 <= j < k && #[trigger] same_path(w, page_va(virt.0, j), 0);
                            assert(0 <= j < k + 1 && same_path(w, page_va(virt.0, j), 0));
                        }
                    }
                    assert(cleared_or_same(old(self).slot(w), before.slot(w)));
                }
            }
            k += 1;
        }
        proof {
            assert forall|w: usize|
                old(self).slot(w) != Slot::Fixed && !in_range(w, virt.0, frames_for(size as int))
                    implies #[trigger] self.slot(w) == old(self).slot(w) by {
                assert(cleared_or_same(old(self).slot(w), self.slot(w)));
            }
        }
    }

    /// Unmaps `[virt, virt + size)` and backs every page of it with fresh frames. `alloc_range`
    /// may hand out fewer frames than asked for; the loop asks again for the rest, so the
    /// virtual range ends up covered whole while its frames need not be contiguous. It is
    /// refused only where the range meets the window of the recursive self-mapping, which
    /// `unmap` keeps. New tables take at most the frames that `table_frames` counts.
    #[verifier::rlimit(100)]
    pub fn allocate(&mut self, frames: &mut FrameAllocator, virt: VirtualAddress, size: usize) -> (r: Result<
        (),
        MapError,
    >)
        requires
            old(self).wf(),
            old(frames).wf(),
            virt.0 + frames_for(size as int) * FRAME_SIZE <= usize::MAX,
            size as u64 <= MAX_RANGE,
            old(frames).free_frames() >= frames_for(size as int) + table_frames(
                *old(self),
                virt.0,
                frames_for(size as int),
            ),
        ensures
            final(self).wf(),
            final(frames).wf(),
            r is Ok <==> forall|k: int|
                0 <= k < frames_for(size as int) ==> !#[trigger] old(self).self_mapped(page_va(virt.0, k)),
            r is Ok ==> exists|g: Seq<int>|
                #[trigger] backed_by(*final(self), old(frames)@, final(frames)@, virt.0, g, frames_for(size as int)),
            r is Ok ==> forall|k: int|
                0 <= k < frames_for(size as int) ==> #[trigger] final(self).ready(page_va(virt.0, k)),
            r is Ok && table_frames(*old(self), virt.0, frames_for(size as int)) == 0 ==> final(frames)@
                == alloc_loop(old(frames)@, frames_for(size as int)),
            r is Ok && table_frames(*old(self), virt.0, frames_for(size as int)) == 0 ==> backed_by(
                *final(self),
                old(frames)@,
                final(frames)@,
                virt.0,
                alloc_frames(old(frames)@, frames_for(size as int)),
                frames_for(size as int),
            ),
            forall|f: int| #[trigger] covers(final(frames)@, f) ==> covers(old(frames)@, f),
            forall|j: int|
                0 <= j < ENTRIES && old(self).entry_at(j)@ & 1 == 1 && ((is_table_word(old(self).entry_at(j)@)
                    && is_owned_word(old(self).entry_at(j)@)) || j == RECURSIVE_SLOT)
                    ==> #[trigger] final(self).entry_at(j) == old(self).entry_at(j),
            forall|w: usize|
                !in_range(w, virt.0, frames_for(size as int)) ==> cleared_or_same(
                    old(self).slot(w),
                    #[trigger] final(self).slot(w),
                ),
            forall|w: usize|
                old(self).slot(w) != Slot::Fixed && !in_range(w, virt.0, frames_for(size as int))
                    ==> #[trigger] final(self).slot(w) == old(self).slot(w),
    {
        proof {
            lemma_pages_bound(size as int);
            if frames_for(size as int) > 0 {
                lemma_page_offset(size as int, frames_for(size as int) - 1);
            }
        }
        self.unmap(virt, size);
        let ghost cleared = *self;

        let pages: usize = if size % FRAME_SIZE == 0 {
            size / FRAME_SIZE
        } else {
            size / FRAME_SIZE + 1
        };
        proof {
            lemma_table_frames_ready_mono(*old(self), cleared, virt.0, pages as int);
            lemma_table_frames_mono(cleared, virt.0, 0, pages as int);
            lemma_table_frames_mono(cleared, virt.0, pages as int, pages as int);
        }
        let ghost mut g: Seq<int> = Seq::empty();
        let mut done: usize = 0;
        while done < pages
            invariant
                done <= pages,
                pages == frames_for(size as int),
                pages <= 0x10_0000_0000,
                virt.0 + pages * FRAME_SIZE <= usize::MAX,
                self.wf(),
                frames.wf(),
                frames.free_frames() >= (pages - done) + table_frames(cleared, virt.0, pages as int)
                    - table_frames(cleared, virt.0, done as int),
                table_frames(cleared, virt.0, pages as int) <= table_frames(*old(self), virt.0, pages as int),
                forall|w: usize| cleared.ready(w) ==> #[trigger] self.ready(w),
                forall|w: usize| #[trigger] self.missing(w) <= cleared.missing(w),
                forall|w: usize| old(self).ready(w) ==> #[trigger] self.ready(w),
                forall|j: int| 0 <= j < done ==> #[trigger] self.ready(page_va(virt.0, j)),
                backed_by(*self, old(frames)@, frames@, virt.0, g, done as int),
                forall|f: int| #[trigger] covers(frames@, f) ==> covers(old(frames)@, f),
                forall|j: int|
                    0 <= j < ENTRIES && cleared.entry_at(j)@ & 1 == 1 ==> #[trigger] self.entry_at(j)
                        == cleared.entry_at(j),
                forall|j: int|
                    0 <= j < ENTRIES && ((is_table_word(old(self).entry_at(j)@) && is_owned_word(old(self).entry_at(j)@))
                        || j == RECURSIVE_SLOT) ==> #[trigger] cleared.entry_at(j) == old(self).entry_at(j),
                forall|w: usize| !in_range(w, virt.0, pages as int) ==> cleared_or_same(old(self).slot(w), #[trigger] cleared.slot(w)),
                forall|w: usize|
                    old(self).slot(w) != Slot::Fixed && !in_range(w, virt.0, pages as int)
                        ==> #[trigger] cleared.slot(w) == old(self).slot(w),
                table_frames(*old(self), virt.0, pages as int) == 0 ==> alloc_loop(old(frames)@, pages as int)
                    == alloc_loop(frames@, pages - done),
                table_frames(*old(self), virt.0, pages as int) == 0 ==> alloc_frames(old(frames)@, pages as int)
                    == g + alloc_frames(frames@, pages - done),
                forall|j: int| 0 <= j < done ==> !#[trigger] old(self).self_mapped(page_va(virt.0, j)),
                forall|j: int| done <= j < pages ==> #[trigger] self.slot(page_va(virt.0, j)) == cleared.slot(page_va(virt.0, j)),
                forall|k: int| 0 <= k < pages ==> #[trigger] cleared.slot(page_va(virt.0, k)) == (if old(self).self_mapped(page_va(virt.0, k)) {
                    Slot::Fixed
                } else {
                    Slot::Free
                }),
                forall|w: usize| !in_range(w, virt.0, pages as int) ==> #[trigger] self.slot(w) == cleared.slot(w),
            decreases pages - done,
        {
            let remaining = (pages - done) * FRAME_SIZE;
            proof {
                lemma_table_frames_mono(cleared, virt.0, done as int, pages as int);
            }
            assert(frames@.len() > 0) by {
                if frames@.len() == 0 {
                    assert(total_frames(frames@) == 0);
                }
            }
            assert(frames_for(remaining as int) == pages - done) by (nonlinear_arith)
                requires remaining == (pages - done) * 4096;
            let ghost h = frames@;
            let ghost n = (pages - done) as int;
            proof {
                lemma_after_alloc_range_covers(h, n);
            }
            let chunk = frames.alloc_range(remaining);
            let c: usize = chunk.size / FRAME_SIZE;
            let ghost hs = h[chunk_hole(h, n)].start as int;
            assert(c == chunk_frames(h, n) && chunk.phys.0 == hs * 4096) by (nonlinear_arith)
                requires
                    c == chunk.size / 4096,
                    chunk.size == chunk_frames(h, n) * 4096,
                    chunk.phys.0 == hs * 4096,
            ;
            assert(chunk.size == c * 4096 && c >= 1 && c <= pages - done);
            assert(frames_for(chunk.size as int) == c) by (nonlinear_arith)
                requires chunk.size == c * 4096;
            let v = virt.0 + done * FRAME_SIZE;
            let ghost before = *self;
            let ghost mid = *frames;
            proof {
                lemma_chunk_charge(before, cleared, virt.0, v, done as int, c as int);
                lemma_table_frames_mono(cleared, virt.0, (done + c) as int, pages as int);
                lemma_table_frames_mono(cleared, virt.0, done as int, (done + c) as int);
                lemma_table_frames_mono(before, v, c as int, c as int);
                assert forall|i: int| 0 <= i < c implies #[trigger] page_va(v, i) == page_va(virt.0, done + i) by {}
            }
            let res = self.map_to(frames, VirtualAddress(v), chunk.phys, chunk.size);
            match res {
                Err(e) => {
                    proof {
                        let i = choose|i: int| 0 <= i < c && #[trigger] before.slot(page_va(v, i)) != Slot::Free;
                        assert(page_va(v, i) == page_va(virt.0, done + i));
                        assert(before.slot(page_va(virt.0, done + i)) == cleared.slot(page_va(virt.0, done + i)));
                        assert(old(self).self_mapped(page_va(virt.0, done + i)));
                        assert forall|w: usize| !in_range(w, virt.0, pages as int) implies cleared_or_same(
                            old(self).slot(w),
                            #[trigger] self.slot(w),
                        ) by {
                            assert(before.slot(w) == cleared.slot(w));
                        }
                        assert forall|w: usize|
                            old(self).slot(w) != Slot::Fixed && !in_range(w, virt.0, pages as int)
                                implies #[trigger] self.slot(w) == old(self).slot(w) by {
                            assert(before.slot(w) == cleared.slot(w));
                        }
                    }
                    return Err(e);
                },
                Ok(()) => {},
            }
            proof {
                let g2 = g + Seq::new(c as nat, |j: int| hs + j);
                assert forall|j: int| 0 <= j < done + c implies #[trigger] self.slot(page_va(virt.0, j)) == Slot::Page(
                    ((g2[j] * FRAME_SIZE) as u64) & ADDRESS_MASK,
                ) by {
                    if j < done {
                        assert(!in_range(page_va(virt.0, j), v, c as int)) by {
                            if in_range(page_va(virt.0, j), v, c as int) {
                                let i = choose|i: int| 0 <= i < c && #[trigger] same_path(page_va(virt.0, j), page_va(v, i), 0);
                                assert(page_va(v, i) == page_va(virt.0, done + i));
                                lemma_distinct_pages(virt.0, j, done + i);
                            }
                        }
                        assert(g2[j] == g[j]);
                        assert(before.slot(page_va(virt.0, j)) == Slot::Page(((g[j] * FRAME_SIZE) as u64) & ADDRESS_MASK));
                    } else {
                        assert(self.slot(page_va(v, j - done)) == Slot::Page(page_pa(chunk.phys.0, j - done)));
                        assert(page_va(v, j - done) == page_va(virt.0, j));
                        assert(g2[j] == hs + (j - done));
                        assert(chunk.phys.0 + (j - done) * FRAME_SIZE == g2[j] * FRAME_SIZE);
                    }
                }
                assert forall|j: int| 0 <= j < done + c implies covers(old(frames)@, #[trigger] g2[j]) && !covers(
                    frames@,
                    g2[j],
                ) by {
                    if j < done {
                        assert(g2[j] == g[j]);
                        assert(!covers(h, g[j]));
                        if covers(frames@, g[j]) {
                            assert(covers(mid@, g[j]));
                            assert(covers(h, g[j]));
                        }
                    } else {
                        let f = hs + (j - done);
                        assert(g2[j] == f);
                        lemma_covers_at(h, chunk_hole(h, n), f);
                        assert(covers(h, f));
                        assert(!covers(mid@, f));
                        if covers(frames@, f) {
                            assert(covers(mid@, f));
                        }
                    }
                }
                assert forall|a: int, b: int| 0 <= a < b < done + c implies #[trigger] g2[a] != #[trigger] g2[b] by {
                    if b >= done && a < done {
                        assert(!covers(h, g[a]));
                        lemma_covers_at(h, chunk_hole(h, n), g2[b]);
                    }
                    if a < done && b < done {
                        assert(g2[a] == g[a] && g2[b] == g[b]);
                    }
                }
                assert forall|f: int| #[trigger] covers(frames@, f) implies covers(old(frames)@, f) by {
                    assert(covers(mid@, f));
                    assert(covers(h, f));
                }
                assert forall|j: int| 0 <= j < done + c implies #[trigger] self.ready(page_va(virt.0, j)) by {
                    if j < done {
                        assert(before.ready(page_va(virt.0, j)));
                    } else {
                        assert(page_va(v, j - done) == page_va(virt.0, j));
                        assert(self.ready(page_va(v, j - done)));
                    }
                }
                assert forall|j: int| 0 <= j < ENTRIES && cleared.entry_at(j)@ & 1 == 1 implies #[trigger] self.entry_at(j)
                    == cleared.entry_at(j) by {
                    assert(before.entry_at(j) == cleared.entry_at(j));
                }
                assert forall|w: usize| #[trigger] self.missing(w) <= cleared.missing(w) by {
                    assert(before.missing(w) <= cleared.missing(w));
                }
                assert forall|w: usize| cleared.ready(w) implies #[trigger] self.ready(w) by {
                    assert(before.ready(w));
                }
                assert forall|w: usize| old(self).ready(w) implies #[trigger] self.ready(w) by {
                    assert(before.ready(w));
                }
                if table_frames(*old(self), virt.0, pages as int) == 0 {
                    assert(table_frames(before, v, c as int) == 0);
                    assert(*frames == mid);
                    assert(alloc_loop(h, n) == alloc_loop(after_alloc_range(h, n), n - c));
                    assert(alloc_frames(h, n) == Seq::new(c as nat, |j: int| hs + j) + alloc_frames(
                        after_alloc_range(h, n),
                        n - c,
                    ));
                    assert(g + alloc_frames(h, n) =~= g2 + alloc_frames(frames@, n - c));
                }
                assert forall|j: int| 0 <= j < done + c implies !#[trigger] old(self).self_mapped(page_va(virt.0, j)) by {
                    if j >= done {
                        assert(page_va(v, j - done) == page_va(virt.0, j));
                        assert(before.slot(page_va(v, j - done)) == Slot::Free);
                        assert(cleared.slot(page_va(virt.0, j)) == Slot::Free);
                    }
                }
                assert forall|j: int| done + c <= j < pages implies #[trigger] self.slot(page_va(virt.0, j)) == cleared.slot(page_va(virt.0, j)) by {
                    assert(!in_range(page_va(virt.0, j), v, c as int)) by {
                        if in_range(page_va(virt.0, j), v, c as int) {
                            let i = choose|i: int| 0 <= i < c && #[trigger] same_path(page_va(virt.0, j), page_va(v, i), 0);
                            assert(page_va(v, i) == page_va(virt.0, done + i));
                            lemma_distinct_pages(virt.0, done + i, j);
                        }
                    }
                    assert(before.slot(page_va(virt.0, j)) == cleared.slot(page_va(virt.0, j)));
                }
                assert forall|w: usize| !in_range(w, virt.0, pages as int) implies #[trigger] self.slot(w) == cleared.slot(w) by {
                    assert(!in_range(w, v, c as int)) by {
                        if in_range(w, v, c as int) {
                            let i = choose|i: int| 0 <= i < c && #[trigger] same_path(w, page_va(v, i), 0);
                            assert(page_va(v, i) == page_va(virt.0, done + i));
                            assert(0 <= done + i < pages && same_path(w, page_va(virt.0, done + i), 0));
                        }
                    }
                    assert(before.slot(w) == cleared.slot(w));
                }
                g = g2;
            }
            done = done + c;
        }
        proof {
            assert forall|w: usize| !in_range(w, virt.0, pages as int) implies cleared_or_same(
                old(self).slot(w),
                #[trigger] self.slot(w),
            ) by {
                assert(self.slot(w) == cleared.slot(w));
            }
            assert forall|w: usize|
                old(self).slot(w) != Slot::Fixed && !in_range(w, virt.0, pages as int)
                    implies #[trigger] self.slot(w) == old(self).slot(w) by {
                assert(self.slot(w) == cleared.slot(w));
            }
            assert forall|j: int|
                0 <= j < ENTRIES && old(self).entry_at(j)@ & 1 == 1 && ((is_table_word(old(self).entry_at(j)@)
                    && is_owned_word(old(self).entry_at(j)@)) || j == RECURSIVE_SLOT) implies #[trigger] self.entry_at(j)
                == old(self).entry_at(j) by {
                assert(cleared.entry_at(j) == old(self).entry_at(j));
            }
            assert(alloc_loop(frames@, 0) == frames@);
            assert(g + alloc_frames(frames@, 0) =~= g);
        }
        Ok(())
    }

    /// Installs in entry `idx` a borrowed table descriptor for the table at `next`, unless the
    /// entry is already valid. The table at `next` is not owned here: this is how a top-level
    /// table gets its recursive self-mapping.
    pub fn insert_raw(&mut self, next: PhysicalAddress, idx: usize) -> (r: Result<(), MapError>)
        requires
            old(self).wf_at(old(self).level_of()),
            idx < ENTRIES,
        ensures
            final(self).level_of() == old(self).level_of(),
            final(self).wf_at(final(self).level_of()),
            r is Ok <==> old(self).entry_at(idx as int)@ & 1 == 0,
            r is Err ==> *final(self) == *old(self),
            r is Ok ==> final(self).entry_at(idx as int)@ & ADDRESS_MASK == (next.0 as u64) & ADDRESS_MASK,
            r is Ok ==> is_table_word(final(self).entry_at(idx as int)@) && !is_owned_word(
                final(self).entry_at(idx as int)@,
            ),
            forall|j: int|
                0 <= j < ENTRIES && j != idx ==> #[trigger] final(self).entry_at(j) == old(self).entry_at(j),
            r is Ok ==> forall|w: usize|
                index_at(w, old(self).level_of()) != idx ==> #[trigger] final(self).missing_at(final(self).level_of(), w)
                    == old(self).missing_at(old(self).level_of(), w),
            r is Ok ==> forall|w: usize|
                #[trigger] final(self).slot_at(final(self).level_of(), w) == (if index_at(w, final(self).level_of()) == idx {
                    Slot::Fixed
                } else {
                    old(self).slot_at(old(self).level_of(), w)
                }),
    {
        if self.entries[idx].is_valid() {
            return Err(MapError::AlreadyMapped);
        }
        let ghost level = self.level as int;
        let e = self.entries[idx];
        assert(e@ & 1 == 0 && !is_table_word(e@) && !is_block_word(e@)) by {
            let v = e@;
            assert(v & 1 != 1 ==> v & 1 == 0 && v & 3 != 3 && v & 3 != 1) by (bit_vector);
        }
        self.entries.set(idx, IntermediateTableEntry::new(next, false));
        assert forall|j: int| #![trigger self.next@[j]] 0 <= j < ENTRIES && j != idx implies self.entries@[j] == old(self).entries@[j] by {}
        assert forall|w: usize| #[trigger] self.slot_at(level, w) == (if index_at(w, level) == idx {
            Slot::Fixed
        } else {
            old(self).slot_at(level, w)
        }) by {
            lemma_index_bounds(w, level);
        }
        assert forall|w: usize| index_at(w, level) != idx implies #[trigger] self.missing_at(level, w)
            == old(self).missing_at(level, w) by {
            lemma_index_bounds(w, level);
        }
        Ok(())
    }

    /// Whether `next` can hang below this table: a table of the next level, or a level-3 table
    /// below a level-2 one.
    pub closed spec fn fits_below(&self, next: &NextTable) -> bool {
        match next {
            NextTable::Table(b) => self.level < 2 && b.wf_at(self.level + 1),
            NextTable::Leaf(b) => self.level == 2 && b.wf(),
        }
    }

    /// Installs in entry `idx` an owned table descriptor for `next`, whose frame is at `phys`,
    /// unless the entry is already valid.
    pub fn insert(&mut self, next: NextTable, phys: PhysicalAddress, idx: usize) -> (r: Result<(), MapError>)
        requires
            old(self).wf_at(old(self).level_of()),
            old(self).fits_below(&next),
            idx < ENTRIES,
        ensures
            final(self).level_of() == old(self).level_of(),
            final(self).wf_at(final(self).level_of()),
            r is Ok <==> old(self).entry_at(idx as int)@ & 1 == 0,
            r is Err ==> *final(self) == *old(self),
            r is Ok ==> final(self).entry_at(idx as int)@ & ADDRESS_MASK == (phys.0 as u64) & ADDRESS_MASK,
            r is Ok ==> is_table_word(final(self).entry_at(idx as int)@) && is_owned_word(
                final(self).entry_at(idx as int)@,
            ),
            forall|j: int|
                0 <= j < ENTRIES && j != idx ==> #[trigger] final(self).entry_at(j) == old(self).entry_at(j),
            r is Ok ==> forall|w: usize|
                #[trigger] final(self).slot_at(final(self).level_of(), w) == (if index_at(w, final(self).level_of()) == idx {
                    next_slot(Some(next), final(self).level_of(), w)
                } else {
                    old(self).slot_at(old(self).level_of(), w)
                }),
    {
        if self.entries[idx].is_valid() {
            return Err(MapError::AlreadyMapped);
        }
        let ghost level = self.level as int;
        let ghost n = next;
        let e = self.entries[idx];
        assert(e@ & 1 == 0 && !is_table_word(e@) && !is_block_word(e@)) by {
            let v = e@;
            assert(v & 1 != 1 ==> v & 1 == 0 && v & 3 != 3 && v & 3 != 1) by (bit_vector);
        }
        self.entries.set(idx, IntermediateTableEntry::new(phys, true));
        self.next.set(idx, Some(next));
        assert forall|j: int| #![trigger self.next@[j]] 0 <= j < ENTRIES && j != idx implies self.entries@[j]
            == old(self).entries@[j] && self.next@[j] == old(self).next@[j] by {}
        assert forall|w: usize| #[trigger] self.slot_at(level, w) == (if index_at(w, level) == idx {
            next_slot(Some(n), level, w)
        } else {
            old(self).slot_at(level, w)
        }) by {
            lemma_index_bounds(w, level);
        }
        Ok(())
    }

    /// Installs in entry `idx` a block descriptor for the region at `phys`, unless the entry is
    /// already valid or this is a level-0 table, where blocks do not exist.
    pub fn insert_block(&mut self, phys: PhysicalAddress, idx: usize) -> (r: Result<(), MapError>)
        requires
            old(self).wf_at(old(self).level_of()),
            idx < ENTRIES,
        ensures
            final(self).level_of() == old(self).level_of(),
            final(self).wf_at(final(self).level_of()),
            r is Ok <==> old(self).entry_at(idx as int)@ & 1 == 0 && old(self).level_of() > 0,
            r is Err ==> *final(self) == *old(self),
            r is Ok ==> is_block_word(final(self).entry_at(idx as int)@),
            r is Ok ==> final(self).entry_at(idx as int)@ & block_mask(old(self).level_of()) & ADDRESS_MASK == (
            phys.0 as u64) & block_mask(old(self).level_of()) & ADDRESS_MASK,
            forall|j: int|
                0 <= j < ENTRIES && j != idx ==> #[trigger] final(self).entry_at(j) == old(self).entry_at(j),
            r is Ok ==> forall|w: usize|
                #[trigger] final(self).slot_at(final(self).level_of(), w) == (if index_at(w, final(self).level_of()) == idx {
                    Slot::Fixed
                } else {
                    old(self).slot_at(old(self).level_of(), w)
                }),
    {
        if self.entries[idx].is_valid() || self.level == 0 {
            return Err(MapError::AlreadyMapped);
        }
        let ghost level = self.level as int;
        let e = self.entries[idx];
        assert(e@ & 1 == 0 && !is_table_word(e@) && !is_block_word(e@)) by {
            let v = e@;
            assert(v & 1 != 1 ==> v & 1 == 0 && v & 3 != 3 && v & 3 != 1) by (bit_vector);
        }
        let mask = if self.level == 1 {
            LEVEL1_BLOCK_MASK
        } else {
            LEVEL2_BLOCK_MASK
        };
        self.entries.set(idx, IntermediateTableEntry::new_block(phys, mask));
        assert forall|j: int| #![trigger self.next@[j]] 0 <= j < ENTRIES && j != idx implies self.entries@[j] == old(self).entries@[j] by {}
        assert forall|w: usize| #[trigger] self.slot_at(level, w) == (if index_at(w, level) == idx {
            Slot::Fixed
        } else {
            old(self).slot_at(level, w)
        }) by {
            lemma_index_bounds(w, level);
        }
        Ok(())
    }
}

/// At most the tables below `level` can be missing, and none are exactly where the path is built.
pub proof fn lemma_missing_bounds(t: IntermediateTable, level: int, va: usize)
    requires
        0 <= level <= 2,
    ensures
        0 <= t.missing_at(level, va) <= 3 - level,
        t.ready_at(level, va) <==> t.missing_at(level, va) == 0,
    decreases 3 - level,
{
    let i = index_at(va, level);
    match t.next@[i] {
        Some(NextTable::Table(b)) => {
            if level < 2 {
                lemma_missing_bounds(*b, level + 1, va);
            }
        },
        _ => {},
    }
}

/// In the window of the recursive self-mapping every page is fixed.
pub proof fn lemma_self_mapped_fixed(t: IntermediateTable, w: usize)
    requires
        t.wf(),
        t.self_mapped(w),
    ensures
        t.slot(w) == Slot::Fixed,
{
}

/// Two addresses on the same path through the tables are translated alike.
proof fn lemma_same_path_slot(t: IntermediateTable, level: int, a: usize, b: usize)
    requires
        0 <= level <= 2,
        same_path(a, b, level),
    ensures
        t.slot_at(level, a) == t.slot_at(level, b),
    decreases 3 - level,
{
    let i = index_at(a, level);
    match t.next@[i] {
        Some(NextTable::Table(c)) => {
            if level < 2 {
                lemma_same_path_slot(*c, level + 1, a, b);
            }
        },
        _ => {},
    }
}

/// Mapping a range, unmapping it and mapping it again: the second `map_to` is not refused.
/// Whatever a successful `map_to` left, `unmap` clears every page of the range, so no page of
/// the range is mapped when the range is mapped again.
pub proof fn lemma_map_unmap_map(
    mapped: IntermediateTable,
    cleared: IntermediateTable,
    virt: usize,
    phys: usize,
    size: usize,
)
    requires
        mapped.wf(),
        forall|k: int|
            0 <= k < frames_for(size as int) ==> #[trigger] mapped.slot(page_va(virt, k)) == Slot::Page(
                page_pa(phys, k),
            ),
        forall|k: int|
            0 <= k < frames_for(size as int) ==> #[trigger] cleared.slot(page_va(virt, k)) == (if mapped.self_mapped(
                page_va(virt, k),
            ) {
                Slot::Fixed
            } else {
                Slot::Free
            }),
    ensures
        forall|k: int| 0 <= k < frames_for(size as int) ==> #[trigger] cleared.slot(page_va(virt, k)) == Slot::Free,
        !(exists|k: int| 0 <= k < frames_for(size as int) && #[trigger] cleared.slot(page_va(virt, k)) != Slot::Free),
{
    assert forall|k: int| 0 <= k < frames_for(size as int) implies #[trigger] cleared.slot(page_va(virt, k))
        == Slot::Free by {
        assert(mapped.slot(page_va(virt, k)) == Slot::Page(page_pa(phys, k)));
        if mapped.self_mapped(page_va(virt, k)) {
            lemma_self_mapped_fixed(mapped, page_va(virt, k));
        }
    }
}

/// A second `map_to` over a range that shares a page with a mapped range is refused: some page
/// of the second range is already mapped. (A refused `map_to` leaves the table as it was, so
/// the first mapping stays.)
pub proof fn lemma_no_silent_overwrite(
    mapped: IntermediateTable,
    virt: usize,
    phys: usize,
    size: usize,
    virt2: usize,
    size2: usize,
    k1: int,
    k2: int,
)
    requires
        forall|k: int|
            0 <= k < frames_for(size as int) ==> #[trigger] mapped.slot(page_va(virt, k)) == Slot::Page(
                page_pa(phys, k),
            ),
        0 <= k1 < frames_for(size as int),
        0 <= k2 < frames_for(size2 as int),
        same_path(page_va(virt, k1), page_va(virt2, k2), 0),
    ensures
        exists|k: int| 0 <= k < frames_for(size2 as int) && #[trigger] mapped.slot(page_va(virt2, k)) != Slot::Free,
{
    assert(mapped.slot(page_va(virt, k1)) == Slot::Page(page_pa(phys, k1)));
    lemma_same_path_slot(mapped, 0, page_va(virt, k1), page_va(virt2, k2));
    assert(mapped.slot(page_va(virt2, k2)) == Slot::Page(page_pa(phys, k1)));
}

} // verus!
