//! Four-level page tables (4 KiB granule, 48-bit VA) for an identity mapping.
//!
//! The tables live in physical frames handed out by the frame allocator; here
//! those frames are held, in allocation order, as one flat vector of 512-entry
//! tables. A table's physical address is where the allocator placed it, and a
//! table descriptor holds that address exactly as the hardware reads it.
use vstd::prelude::*;
use crate::mm::{FrameAllocator, FRAME_SIZE, RAM_END};

verus! {

/// First byte of RAM on QEMU virt.
pub const RAM_START: u64 = 0x4000_0000;
/// Size of a 4 KiB page.
pub const PAGE_SIZE: u64 = 4096;
/// Size of a 2 MiB block.
pub const BLOCK_2M: u64 = 0x20_0000;

/// Descriptor types, bits[1:0].
pub const TABLE_DESC: u64 = 0b11;
pub const BLOCK_DESC: u64 = 0b01;
pub const PAGE_DESC: u64 = 0b11;

/// Output-address masks: bits[47:12] for table and page descriptors,
/// bits[47:21] for an L2 block, bits[47:30] for an L1 block.
pub const PA_MASK: u64 = 0x0000_FFFF_FFFF_F000;
pub const PA_MASK_2M: u64 = 0x0000_FFFF_FFE0_0000;
pub const PA_MASK_1G: u64 = 0x0000_FFFF_C000_0000;

/// The attribute bits of a block or page descriptor: the lower attributes,
/// bits[11:2], and the upper attributes, bits[63:48].
pub const ATTR_BITS: u64 = 0xFFFF_0000_0000_0FFC;

pub const MAIR_NORMAL_IDX: u64 = 0;
pub const MAIR_DEVICE_IDX: u64 = 1;
pub const AP_RW: u64 = 0b00;
pub const AP_RO: u64 = 0b10;
pub const SH_INNER: u64 = 0b11;
pub const SH_NONE: u64 = 0b00;

/// The attribute field of a descriptor as a number: AttrIndx at bit 2, AP at
/// bit 6, SH at bit 8, the access flag at bit 10, PXN at bit 53, UXN at bit 54.
pub open spec fn attr_value(mair_idx: u64, ap: u64, sh: u64, pxn: u64, uxn: u64) -> int {
    mair_idx * 4 + ap * 64 + sh * 256 + 1024 + pxn * 0x20_0000_0000_0000 + uxn * 0x40_0000_0000_0000
}

/// The attribute bits as `attrs` assembles them: each argument shifted to
/// its field (bits shifted past bit 63 are dropped) and the fields ORed,
/// with the access flag set.
pub open spec fn attr_bits(mair_idx: u64, ap: u64, sh: u64, pxn: u64, uxn: u64) -> u64 {
    (mair_idx << 2u64) | (ap << 6u64) | (sh << 8u64) | (1u64 << 10u64) | (pxn << 53u64) | (uxn << 54u64)
}

/// Assemble the attribute bits of a block or page descriptor from the
/// memory attribute index, access permissions, shareability and the two
/// execute-never bits, with the access flag set. Where each argument fits
/// its field, the fields do not overlap and the result is their sum, all of
/// it inside the attribute bits of a descriptor.
pub fn attrs(mair_idx: u64, ap: u64, sh: u64, pxn: u64, uxn: u64) -> (r: u64)
    ensures
        r == attr_bits(mair_idx, ap, sh, pxn, uxn),
        mair_idx < 8 && ap < 4 && sh < 4 && pxn < 2 && uxn < 2 ==> {
            &&& r == attr_value(mair_idx, ap, sh, pxn, uxn)
            &&& r & ATTR_BITS == r
        },
{
    let r = (mair_idx << 2u64) | (ap << 6u64) | (sh << 8u64) | (1u64 << 10u64) | (pxn << 53u64) | (uxn << 54u64);
    assert(mair_idx < 8 && ap < 4 && sh < 4 && pxn < 2 && uxn < 2 ==> (r == mair_idx * 4 + ap * 64 + sh * 256
        + 1024 + pxn * 0x20_0000_0000_0000 + uxn * 0x40_0000_0000_0000 && r & 0xFFFF_0000_0000_0FFCu64 == r))
        by (bit_vector)
        requires
            r == (mair_idx << 2u64) | (ap << 6u64) | (sh << 8u64) | (1u64 << 10u64) | (pxn << 53u64) | (uxn << 54u64);
    r
}

/// Device memory (nGnRE), read-write, never executable.
pub open spec fn spec_device_rw() -> u64 {
    0x0060_0000_0000_0404
}

/// Normal memory, inner shareable, read-write, never executable.
pub open spec fn spec_normal_rw() -> u64 {
    0x0060_0000_0000_0700
}

/// Normal memory, read-only, executable by the kernel (PXN = 0); EL0 does not
/// exist yet, so UXN stays set.
pub open spec fn spec_normal_ro_exec() -> u64 {
    0x0040_0000_0000_0780
}

/// Normal memory, read-only, never executable.
pub open spec fn spec_normal_ro_noexec() -> u64 {
    0x0060_0000_0000_0780
}

/// Attributes for the MMIO gigabyte: device memory, read-write, never
/// executable.
pub fn device_rw() -> (r: u64)
    ensures
        r == attr_value(MAIR_DEVICE_IDX, AP_RW, SH_NONE, 1, 1),
        r == spec_device_rw(),
        r & ATTR_BITS == r,
{
    attrs(MAIR_DEVICE_IDX, AP_RW, SH_NONE, 1, 1)
}

/// Attributes for RAM that holds data: normal memory, read-write, never
/// executable.
pub fn normal_rw() -> (r: u64)
    ensures
        r == attr_value(MAIR_NORMAL_IDX, AP_RW, SH_INNER, 1, 1),
        r == spec_normal_rw(),
        r & ATTR_BITS == r,
{
    attrs(MAIR_NORMAL_IDX, AP_RW, SH_INNER, 1, 1)
}

/// Attributes for `.text`: the kernel has to execute it, so PXN = 0; EL0
/// does not exist yet, so UXN = 1 to be safe.
pub fn normal_ro_exec() -> (r: u64)
    ensures
        r == attr_value(MAIR_NORMAL_IDX, AP_RO, SH_INNER, 0, 1),
        r == spec_normal_ro_exec(),
        r & ATTR_BITS == r,
{
    attrs(MAIR_NORMAL_IDX, AP_RO, SH_INNER, 0, 1)
}

/// Attributes for `.rodata`: read-only, never executable.
pub fn normal_ro_noexec() -> (r: u64)
    ensures
        r == attr_value(MAIR_NORMAL_IDX, AP_RO, SH_INNER, 1, 1),
        r == spec_normal_ro_noexec(),
        r & ATTR_BITS == r,
{
    attrs(MAIR_NORMAL_IDX, AP_RO, SH_INNER, 1, 1)
}

/// The four attribute sets lie within the attribute bits.
proof fn lemma_attr_consts()
    ensures
        spec_device_rw() & ATTR_BITS == spec_device_rw(),
        spec_normal_rw() & ATTR_BITS == spec_normal_rw(),
        spec_normal_ro_exec() & ATTR_BITS == spec_normal_ro_exec(),
        spec_normal_ro_noexec() & ATTR_BITS == spec_normal_ro_noexec(),
{
    assert(0x0060_0000_0000_0404u64 & 0xFFFF_0000_0000_0FFCu64 == 0x0060_0000_0000_0404u64
        && 0x0060_0000_0000_0700u64 & 0xFFFF_0000_0000_0FFCu64 == 0x0060_0000_0000_0700u64
        && 0x0040_0000_0000_0780u64 & 0xFFFF_0000_0000_0FFCu64 == 0x0040_0000_0000_0780u64
        && 0x0060_0000_0000_0780u64 & 0xFFFF_0000_0000_0FFCu64 == 0x0060_0000_0000_0780u64) by (bit_vector);
}

/// The table index that `va` selects at `level` (0 to 3): bits[47:39],
/// [38:30], [29:21] and [20:12].
pub open spec fn va_index(level: nat, va: u64) -> u64 {
    if level == 0 {
        (va >> 39u64) & 0x1ff
    } else if level == 1 {
        (va >> 30u64) & 0x1ff
    } else if level == 2 {
        (va >> 21u64) & 0x1ff
    } else {
        (va >> 12u64) & 0x1ff
    }
}

/// The indices that `va` selects above `level`, read as one number: two
/// addresses with the same prefix at `level` walk through the same table at
/// that level. At level 4 it names the 4 KiB page, at 3 the 2 MiB region, at
/// 2 the 1 GiB region.
pub open spec fn va_prefix(level: nat, va: u64) -> u64 {
    if level == 0 {
        0
    } else if level == 1 {
        (va >> 39u64) & 0x1ff
    } else if level == 2 {
        (va >> 30u64) & 0x3ffff
    } else if level == 3 {
        (va >> 21u64) & 0x7ff_ffff
    } else {
        (va >> 12u64) & 0xf_ffff_ffff
    }
}

/// A page descriptor mapping the page of `pa` with `attr`.
pub open spec fn page_desc(pa: u64, attr: u64) -> u64 {
    (pa & PA_MASK) | PAGE_DESC | attr
}

/// An L2 block descriptor mapping the 2 MiB block of `pa` with `attr`.
pub open spec fn block_2m_desc(pa: u64, attr: u64) -> u64 {
    (pa & PA_MASK_2M) | BLOCK_DESC | attr
}

/// An L1 block descriptor mapping the 1 GiB block of `pa` with `attr`.
pub open spec fn block_1g_desc(pa: u64, attr: u64) -> u64 {
    (pa & PA_MASK_1G) | BLOCK_DESC | attr
}

/// Indices are 9 bits wide, and each level's prefix extends the one above
/// it by that level's index.
proof fn lemma_index_prefix(va: u64)
    ensures
        forall|l: nat| l < 4 ==> #[trigger] va_index(l, va) < 512,
        forall|l: nat| l < 4 ==> #[trigger] va_prefix(l + 1, va) == va_prefix(l, va) * 512 + va_index(l, va),
        va_prefix(1, va) < 512,
        va_prefix(2, va) < 512 * 512,
        va_prefix(3, va) < 512 * 512 * 512,
{
    assert((va >> 39u64) & 0x1ff < 512 && (va >> 30u64) & 0x1ff < 512 && (va >> 21u64) & 0x1ff < 512
        && (va >> 12u64) & 0x1ff < 512
        && (va >> 30u64) & 0x3ffff == ((va >> 39u64) & 0x1ff) * 512 + ((va >> 30u64) & 0x1ff)
        && (va >> 21u64) & 0x7ff_ffff == ((va >> 30u64) & 0x3ffff) * 512 + ((va >> 21u64) & 0x1ff)
        && (va >> 12u64) & 0xf_ffff_ffff == ((va >> 21u64) & 0x7ff_ffff) * 512 + ((va >> 12u64) & 0x1ff)
        && (va >> 30u64) & 0x3ffff < 512 * 512
        && (va >> 21u64) & 0x7ff_ffff < 512 * 512 * 512) by (bit_vector);
    assert forall|l: nat| l < 4 implies #[trigger] va_prefix(l + 1, va) == va_prefix(l, va) * 512 + va_index(l, va) by {
        if l == 0 {
        } else if l == 1 {
        } else if l == 2 {
        } else {
        }
    }
}

/// Equal prefixes at a level mean equal prefixes and indices above it.
proof fn lemma_prefix_shared(level: nat, v1: u64, v2: u64)
    requires
        level <= 4,
        va_prefix(level, v1) == va_prefix(level, v2),
    ensures
        forall|l: nat| l <= level ==> #[trigger] va_prefix(l, v1) == va_prefix(l, v2),
        forall|l: nat| l < level ==> #[trigger] va_index(l, v1) == va_index(l, v2),
    decreases level,
{
    lemma_index_prefix(v1);
    lemma_index_prefix(v2);
    if level > 0 {
        let l = (level - 1) as nat;
        assert(va_prefix(l + 1, v1) == va_prefix(l, v1) * 512 + va_index(l, v1));
        assert(va_prefix(l + 1, v2) == va_prefix(l, v2) * 512 + va_index(l, v2));
        assert(va_index(l, v1) < 512 && va_index(l, v2) < 512);
        assert(va_prefix(l, v1) == va_prefix(l, v2) && va_index(l, v1) == va_index(l, v2)) by (nonlinear_arith)
            requires
                va_prefix(l, v1) * 512 + va_index(l, v1) == va_prefix(l, v2) * 512 + va_index(l, v2),
                va_index(l, v1) < 512, va_index(l, v2) < 512,
        ;
        lemma_prefix_shared(l, v1, v2);
    }
}

/// How the type bits of an entry relate.
proof fn lemma_type_bits()
    ensures
        forall|e: u64| #[trigger] (e & 3) == 3 ==> e & 1 == 1,
        forall|e: u64| #[trigger] (e & 3) == 1 ==> e & 1 == 1,
        forall|e: u64| #[trigger] (e & 1) == 0 ==> e & 3 != 3 && e & 3 != 1,
        forall|e: u64| #[trigger] (e & 1) == 1 ==> e & 3 == 3 || e & 3 == 1,
        forall|e: u64| #[trigger] (e & 1) == 0 || (e & 1) == 1,
        0u64 & 1 == 0,
        0u64 & 3 == 0,
{
    assert(forall|e: u64|
        #![trigger e & 3]
        #![trigger e & 1]
        ((e & 3) == 3 ==> e & 1 == 1) && ((e & 3) == 1 ==> e & 1 == 1) && ((e & 1) == 0 ==> e & 3 != 3 && e & 3
            != 1) && ((e & 1) == 1 ==> e & 3 == 3 || e & 3 == 1) && ((e & 1) == 0 || (e & 1) == 1)
            && (0u64 & 1) == 0 && (0u64 & 3) == 0) by (bit_vector);
}

/// Bit facts about descriptors.
proof fn lemma_table_desc(pa: u64)
    requires
        pa % 4096 == 0,
        pa < 0x1_0000_0000_0000,
    ensures
        (pa | TABLE_DESC) & PA_MASK == pa,
        (pa | TABLE_DESC) & 3 == 3,
        (pa | TABLE_DESC) & 1 == 1,
{
    assert((pa | 3u64) & 0x0000_FFFF_FFFF_F000u64 == pa && (pa | 3u64) & 3 == 3 && (pa | 3u64) & 1 == 1)
        by (bit_vector)
        requires pa % 4096 == 0, pa < 0x1_0000_0000_0000u64;
}

proof fn lemma_page_desc(pa: u64, attr: u64)
    requires
        attr & ATTR_BITS == attr,
    ensures
        page_desc(pa, attr) & 3 == 3,
        page_desc(pa, attr) & 1 == 1,
        page_desc(pa, attr) & PA_MASK == pa & PA_MASK,
        page_desc(pa, attr) & ATTR_BITS == attr,
{
    assert(((pa & 0x0000_FFFF_FFFF_F000u64) | 3u64 | attr) & 3 == 3
        && ((pa & 0x0000_FFFF_FFFF_F000u64) | 3u64 | attr) & 1 == 1
        && ((pa & 0x0000_FFFF_FFFF_F000u64) | 3u64 | attr) & 0x0000_FFFF_FFFF_F000u64 == pa & 0x0000_FFFF_FFFF_F000u64
        && ((pa & 0x0000_FFFF_FFFF_F000u64) | 3u64 | attr) & 0xFFFF_0000_0000_0FFCu64 == attr)
        by (bit_vector)
        requires attr & 0xFFFF_0000_0000_0FFCu64 == attr;
}

proof fn lemma_block_2m_desc(pa: u64, attr: u64)
    requires
        attr & ATTR_BITS == attr,
    ensures
        block_2m_desc(pa, attr) & 3 == 1,
        block_2m_desc(pa, attr) & 1 == 1,
        block_2m_desc(pa, attr) & PA_MASK_2M == pa & PA_MASK_2M,
        block_2m_desc(pa, attr) & ATTR_BITS == attr,
{
    assert(((pa & 0x0000_FFFF_FFE0_0000u64) | 1u64 | attr) & 3 == 1
        && ((pa & 0x0000_FFFF_FFE0_0000u64) | 1u64 | attr) & 1 == 1
        && ((pa & 0x0000_FFFF_FFE0_0000u64) | 1u64 | attr) & 0x0000_FFFF_FFE0_0000u64 == pa & 0x0000_FFFF_FFE0_0000u64
        && ((pa & 0x0000_FFFF_FFE0_0000u64) | 1u64 | attr) & 0xFFFF_0000_0000_0FFCu64 == attr)
        by (bit_vector)
        requires attr & 0xFFFF_0000_0000_0FFCu64 == attr;
}

proof fn lemma_block_1g_desc(pa: u64, attr: u64)
    requires
        attr & ATTR_BITS == attr,
    ensures
        block_1g_desc(pa, attr) & 3 == 1,
        block_1g_desc(pa, attr) & 1 == 1,
        block_1g_desc(pa, attr) & PA_MASK_1G == pa & PA_MASK_1G,
        block_1g_desc(pa, attr) & ATTR_BITS == attr,
{
    assert(((pa & 0x0000_FFFF_C000_0000u64) | 1u64 | attr) & 3 == 1
        && ((pa & 0x0000_FFFF_C000_0000u64) | 1u64 | attr) & 1 == 1
        && ((pa & 0x0000_FFFF_C000_0000u64) | 1u64 | attr) & 0x0000_FFFF_C000_0000u64 == pa & 0x0000_FFFF_C000_0000u64
        && ((pa & 0x0000_FFFF_C000_0000u64) | 1u64 | attr) & 0xFFFF_0000_0000_0FFCu64 == attr)
        by (bit_vector)
        requires attr & 0xFFFF_0000_0000_0FFCu64 == attr;
}


/// Below 2^48 the prefixes are plain quotients.
proof fn lemma_prefix_div(v: u64)
    requires
        v < 0x1_0000_0000_0000,
    ensures
        va_prefix(4, v) == v / 4096,
        va_prefix(3, v) == v / 0x20_0000,
        va_prefix(2, v) == v / 0x4000_0000,
        va_prefix(1, v) == v / 0x80_0000_0000,
{
    assert((v >> 12u64) & 0xf_ffff_ffff == v / 4096 && (v >> 21u64) & 0x7ff_ffff == v / 0x20_0000
        && (v >> 30u64) & 0x3ffff == v / 0x4000_0000 && (v >> 39u64) & 0x1ff == v / 0x80_0000_0000) by (bit_vector)
        requires v < 0x1_0000_0000_0000u64;
}

/// Addresses in the same page share its page descriptor; addresses in the
/// same 2 MiB block share its block descriptor; and each translates back to
/// itself.
proof fn lemma_identity_bits(a: u64, v: u64)
    requires
        v < 0x1_0000_0000_0000,
    ensures
        a / 4096 == v / 4096 ==> a & PA_MASK == v & PA_MASK,
        a / 0x20_0000 == v / 0x20_0000 ==> a & PA_MASK_2M == v & PA_MASK_2M,
        (v & PA_MASK) | (v & 0xFFF) == v,
        (v & PA_MASK_2M) | (v & 0x1F_FFFF) == v,
        v < 0x4000_0000 ==> (0u64 & PA_MASK_1G) | (v & 0x3FFF_FFFF) == v,
{
    assert((a / 4096 == v / 4096 ==> a & 0x0000_FFFF_FFFF_F000u64 == v & 0x0000_FFFF_FFFF_F000u64)
        && (a / 0x20_0000 == v / 0x20_0000 ==> a & 0x0000_FFFF_FFE0_0000u64 == v & 0x0000_FFFF_FFE0_0000u64)
        && (v & 0x0000_FFFF_FFFF_F000u64) | (v & 0xFFFu64) == v
        && (v & 0x0000_FFFF_FFE0_0000u64) | (v & 0x1F_FFFFu64) == v
        && (v < 0x4000_0000 ==> (0u64 & 0x0000_FFFF_C000_0000u64) | (v & 0x3FFF_FFFFu64) == v)) by (bit_vector)
        requires v < 0x1_0000_0000_0000u64;
}

/// The permissions the identity mapping gives: only `.text` is executable
/// (PXN clear), nothing is executable from EL0 (UXN set), `.text` and
/// `.rodata` are read-only (AP[2] set) and the rest is writable, only the
/// MMIO gigabyte is device memory, and every mapping has its access flag
/// set.
pub proof fn lemma_section_permissions(layout: KernelLayout, va: u64)
    requires
        layout.wf(),
        section_attrs(layout, va) is Some,
    ensures
        ({
            let a = section_attrs(layout, va)->0;
            &&& ((a >> 53u64) & 1 == 0 <==> layout.text_start <= va < layout.text_end)
            &&& (a >> 54u64) & 1 == 1
            &&& ((a >> 7u64) & 1 == 1 <==> (layout.text_start <= va < layout.text_end || layout.rodata_start <= va
                < layout.rodata_end))
            &&& ((a >> 2u64) & 0b111 == MAIR_DEVICE_IDX <==> va < RAM_START)
            &&& (a >> 10u64) & 1 == 1
        }),
{
    let d = 0x0060_0000_0000_0404u64;
    let rw = 0x0060_0000_0000_0700u64;
    let rx = 0x0040_0000_0000_0780u64;
    let ro = 0x0060_0000_0000_0780u64;
    assert((d >> 53u64) & 1 == 1 && (d >> 54u64) & 1 == 1 && (d >> 7u64) & 1 == 0 && (d >> 2u64) & 0b111 == 1
        && (d >> 10u64) & 1 == 1
        && (rw >> 53u64) & 1 == 1 && (rw >> 54u64) & 1 == 1 && (rw >> 7u64) & 1 == 0 && (rw >> 2u64) & 0b111 == 0
        && (rw >> 10u64) & 1 == 1
        && (rx >> 53u64) & 1 == 0 && (rx >> 54u64) & 1 == 1 && (rx >> 7u64) & 1 == 1 && (rx >> 2u64) & 0b111 == 0
        && (rx >> 10u64) & 1 == 1
        && (ro >> 53u64) & 1 == 1 && (ro >> 54u64) & 1 == 1 && (ro >> 7u64) & 1 == 1 && (ro >> 2u64) & 0b111 == 0
        && (ro >> 10u64) & 1 == 1) by (bit_vector)
        requires
            d == 0x0060_0000_0000_0404u64,
            rw == 0x0060_0000_0000_0700u64,
            rx == 0x0040_0000_0000_0780u64,
            ro == 0x0060_0000_0000_0780u64;
}

/// MAIR_EL1: attribute 0 is Normal write-back memory (0xFF), attribute 1 is
/// Device-nGnRE (0x04).
pub const MAIR_EL1_VALUE: u64 = 0x0000_0000_0000_04FF;

/// The descriptor attribute indices name the memory types MAIR_EL1 gives
/// them: `MAIR_NORMAL_IDX` is Normal write-back memory and
/// `MAIR_DEVICE_IDX` is Device-nGnRE.
pub proof fn lemma_mair_indices()
    ensures
        (MAIR_EL1_VALUE >> (8 * MAIR_NORMAL_IDX)) & 0xFF == 0xFF,
        (MAIR_EL1_VALUE >> (8 * MAIR_DEVICE_IDX)) & 0xFF == 0x04,
{
    assert((0x04FFu64 >> 0u64) & 0xFF == 0xFF && (0x04FFu64 >> 8u64) & 0xFF == 0x04) by (bit_vector);
}

/// The IPS field TCR_EL1 gets from ID_AA64MMFR0_EL1: its PARange field,
/// bits[3:0], capped at 0b101 (48 bits).
pub open spec fn tcr_ips(mmfr0: u64) -> u64 {
    if mmfr0 & 0xF > 0b101 {
        0b101
    } else {
        mmfr0 & 0xF
    }
}

/// The physical address size TCR_EL1 asks for is the one the CPU reports,
/// never more than 48 bits: a PARange of 0b000 to 0b101 (32 to 48 bits) is
/// taken as it is, and anything larger (52 bits, or a reserved value) is
/// capped at 0b101. Only the PARange field, bits[3:0], matters: two values
/// of ID_AA64MMFR0_EL1 that agree there give the same IPS.
pub proof fn lemma_ips_is_parange_capped(mmfr0: u64, other: u64)
    ensures
        0 <= tcr_ips(mmfr0) <= 0b101,
        mmfr0 & 0xF <= 0b101 ==> tcr_ips(mmfr0) == mmfr0 & 0xF,
        mmfr0 & 0xF > 0b101 ==> tcr_ips(mmfr0) == 0b101,
        mmfr0 & 0xF == other & 0xF ==> tcr_ips(mmfr0) == tcr_ips(other),
        tcr_ips(mmfr0) <= mmfr0 & 0xF,
{
}

/// TCR_EL1 without its IPS field: T0SZ = T1SZ = 16 (48-bit VA), inner and
/// outer write-back cacheable inner-shareable walks for both halves, TG0 =
/// 4 KiB (encoded 0b00), TG1 = 4 KiB (encoded 0b10), and EPD1 set so that
/// the unused TTBR1 half is never walked.
pub open spec fn tcr_fixed_bits() -> u64 {
    0xB590_3510
}

/// The value for TCR_EL1, given ID_AA64MMFR0_EL1.
pub fn tcr_el1_value(mmfr0: u64) -> (tcr: u64)
    ensures
        tcr == tcr_fixed_bits() + tcr_ips(mmfr0) * 0x1_0000_0000,
        tcr & 0x3F == 16,
        (tcr >> 16u64) & 0x3F == 16,
        (tcr >> 14u64) & 0b11 == 0b00,
        (tcr >> 30u64) & 0b11 == 0b10,
        (tcr >> 23u64) & 1 == 1,
        (tcr >> 32u64) & 0b111 == tcr_ips(mmfr0),
        (tcr >> 32u64) & 0b111 == if mmfr0 & 0xF <= 0b101 { mmfr0 & 0xF } else { 0b101 },
        tcr >> 35u64 == 0,
{
    let parange = mmfr0 & 0xF;
    let ips = if parange > 0b101 { 0b101 } else { parange };
    let tcr: u64 = 16                 // T0SZ, bits[5:0]
        | (16u64 << 16u64)            // T1SZ, bits[21:16]
        | (0b01u64 << 8u64)           // IRGN0, bits[9:8]
        | (0b01u64 << 10u64)          // ORGN0, bits[11:10]
        | (0b11u64 << 12u64)          // SH0, bits[13:12]
        // TG0 = 4 KiB is encoded 0b00 in bits[15:14]
        | (1u64 << 23u64)             // EPD1: no TTBR1 walks
        | (0b01u64 << 24u64)          // IRGN1, bits[25:24]
        | (0b01u64 << 26u64)          // ORGN1, bits[27:26]
        | (0b11u64 << 28u64)          // SH1, bits[29:28]
        | (0b10u64 << 30u64)          // TG1 = 4 KiB (TTBR1 encodes it differently), bits[31:30]
        | (ips << 32u64);             // IPS, bits[34:32]
    assert(tcr == 0xB590_3510u64 + ips * 0x1_0000_0000u64
        && tcr >> 35u64 == 0
        && tcr & 0x3F == 16
        && (tcr >> 16u64) & 0x3F == 16
        && (tcr >> 14u64) & 0b11 == 0b00
        && (tcr >> 30u64) & 0b11 == 0b10
        && (tcr >> 23u64) & 1 == 1
        && (tcr >> 32u64) & 0b111 == ips) by (bit_vector)
        requires
            ips <= 5,
            tcr == 16u64 | (16u64 << 16u64) | (0b01u64 << 8u64) | (0b01u64 << 10u64) | (0b11u64 << 12u64)
                | (1u64 << 23u64) | (0b01u64 << 24u64) | (0b01u64 << 26u64) | (0b11u64 << 28u64)
                | (0b10u64 << 30u64) | (ips << 32u64);
    tcr
}

/// SCTLR_EL1 with the MMU (M, bit 0), the data cache (C, bit 2) and the
/// instruction cache (I, bit 12) turned on; every other bit is kept.
pub fn sctlr_el1_with_mmu(sctlr: u64) -> (r: u64)
    ensures
        r == sctlr | 0x1005,
        r & 0x1005 == 0x1005,
        r & !0x1005u64 == sctlr & !0x1005u64,
{
    let r = sctlr | (1u64 << 0u64) | (1u64 << 2u64) | (1u64 << 12u64);
    assert(r == sctlr | 0x1005 && r & 0x1005 == 0x1005 && r & !0x1005u64 == sctlr & !0x1005u64) by (bit_vector)
        requires r == sctlr | (1u64 << 0u64) | (1u64 << 2u64) | (1u64 << 12u64);
    r
}

/// Where the linker placed the kernel image: `.text`, `.rodata`, the data
/// sections, and the end of the image.
pub struct KernelLayout {
    pub text_start: u64,
    pub text_end: u64,
    pub rodata_start: u64,
    pub rodata_end: u64,
    pub data_start: u64,
    pub kernel_end: u64,
}

impl KernelLayout {
    /// What the linker script guarantees: the sections lie in RAM in this
    /// order, each boundary on a page.
    pub open spec fn wf(&self) -> bool {
        &&& RAM_START <= self.text_start
        &&& self.text_start <= self.text_end
        &&& self.text_end <= self.rodata_start
        &&& self.rodata_start <= self.rodata_end
        &&& self.rodata_end <= self.data_start
        &&& self.data_start <= self.kernel_end
        &&& self.kernel_end <= RAM_END
        &&& self.text_start % PAGE_SIZE == 0
        &&& self.text_end % PAGE_SIZE == 0
        &&& self.rodata_start % PAGE_SIZE == 0
        &&& self.rodata_end % PAGE_SIZE == 0
        &&& self.data_start % PAGE_SIZE == 0
        &&& self.kernel_end % PAGE_SIZE == 0
    }
}

/// The first 2 MiB boundary at or above `x`.
pub open spec fn round_up_2m(x: u64) -> int {
    if x % BLOCK_2M == 0 {
        x as int
    } else {
        (x / BLOCK_2M + 1) * BLOCK_2M
    }
}

/// The attributes the identity mapping gives `va`, or `None` where it leaves
/// `va` unmapped: the MMIO gigabyte below RAM is device memory, `.text` is
/// read-only and executable, `.rodata` read-only, the rest of RAM
/// read-write, and nothing is executable but `.text`. The gaps between
/// `.text`, `.rodata` and the data, and everything from the end of RAM up,
/// stay unmapped.
pub open spec fn section_attrs(l: KernelLayout, va: u64) -> Option<u64> {
    if va < RAM_START {
        Some(spec_device_rw())
    } else if va < l.text_start {
        Some(spec_normal_rw())
    } else if va < l.text_end {
        Some(spec_normal_ro_exec())
    } else if va < l.rodata_start {
        None
    } else if va < l.rodata_end {
        Some(spec_normal_ro_noexec())
    } else if va < l.data_start {
        None
    } else if va < RAM_END {
        Some(spec_normal_rw())
    } else {
        None
    }
}

/// The descriptor that maps `va` in the identity mapping, with its level:
/// one 1 GiB block for the MMIO gigabyte, 4 KiB pages up to the first 2 MiB
/// boundary past the end of the image, and 2 MiB blocks from there to the
/// end of RAM.
pub open spec fn identity_leaf(l: KernelLayout, va: u64) -> Option<(u64, nat)> {
    match section_attrs(l, va) {
        None => None,
        Some(a) => if va < RAM_START {
            Some((block_1g_desc(0, a), 1nat))
        } else if va < round_up_2m(l.kernel_end) {
            Some((page_desc(va, a), 3nat))
        } else {
            Some((block_2m_desc(va, a), 2nat))
        },
    }
}

/// The larger of `a` and `b`.
pub open spec fn max_int(a: int, b: int) -> int {
    if a >= b {
        a
    } else {
        b
    }
}

/// Whether `a .. b` reaches into 2 MiB region number `reg`.
pub open spec fn reaches_region(a: int, b: int, reg: int) -> bool {
    a < b && a < (reg + 1) * 0x20_0000 && reg * 0x20_0000 < b
}

/// Whether 2 MiB region number `reg` holds an address at or above `c` that
/// the identity mapping of `l` maps with 4 KiB pages: RAM up to the end of
/// `.text`, `.rodata`, and from the data up to the first 2 MiB boundary past
/// the image.
pub open spec fn region_has_pages(l: KernelLayout, c: int, reg: int) -> bool {
    ||| reaches_region(max_int(RAM_START as int, c), l.text_end as int, reg)
    ||| reaches_region(max_int(l.rodata_start as int, c), l.rodata_end as int, reg)
    ||| reaches_region(max_int(l.data_start as int, c), round_up_2m(l.kernel_end), reg)
}

/// How many of the 2 MiB regions numbered `lo` up to `hi` hold such an
/// address.
pub open spec fn regions_with_pages(l: KernelLayout, c: int, lo: int, hi: int) -> nat
    decreases hi - lo,
{
    if lo >= hi {
        0
    } else {
        (if region_has_pages(l, c, lo) {
            1nat
        } else {
            0nat
        }) + regions_with_pages(l, c, lo + 1, hi)
    }
}

/// Whether the identity mapping of `l` maps any of RAM at or above `c`:
/// RAM up to the end of `.text`, `.rodata`, and from the data to the end of
/// RAM.
pub open spec fn ram_mapped_from(l: KernelLayout, c: int) -> bool {
    ||| max_int(RAM_START as int, c) < l.text_end
    ||| max_int(l.rodata_start as int, c) < l.rodata_end
    ||| max_int(l.data_start as int, c) < RAM_END
}

/// The frames that building the identity mapping takes: the L0 table, the
/// L1 table, the L2 table for RAM if any of RAM is mapped, and one L3 table
/// for each 2 MiB region of RAM mapped with 4 KiB pages.
pub open spec fn identity_frames_needed(l: KernelLayout) -> int {
    2 + (if ram_mapped_from(l, RAM_START as int) { 1int } else { 0int }) + regions_with_pages(
        l,
        RAM_START as int,
        RAM_START as int / 0x20_0000,
        round_up_2m(l.kernel_end) / 0x20_0000,
    ) as int
}

/// Whether `a .. b` reaches into 2 MiB region number `reg`.
fn reaches_region_exec(a: u64, b: u64, reg: u64) -> (r: bool)
    requires
        reg < 0x1000,
    ensures
        r == reaches_region(a as int, b as int, reg as int),
{
    a < b && a < (reg + 1) * BLOCK_2M && reg * BLOCK_2M < b
}

impl KernelLayout {
    /// The frames that building the identity mapping of this layout takes
    /// (see `identity_frames_needed`).
    pub fn frames_needed(&self) -> (n: u64)
        requires
            self.wf(),
        ensures
            n == identity_frames_needed(*self),
    {
        let ke = self.kernel_end;
        let r = if ke % BLOCK_2M == 0 {
            ke
        } else {
            (ke / BLOCK_2M + 1) * BLOCK_2M
        };
        proof {
            assert(r == round_up_2m(ke) && r <= RAM_END && r % 0x20_0000 == 0) by (nonlinear_arith)
                requires
                    r == if ke % 0x20_0000 == 0 { ke as int } else { (ke / 0x20_0000 + 1) * 0x20_0000 },
                    ke <= RAM_END;
        }
        let hi = r / BLOCK_2M;
        let mut reg = hi;
        let mut count: u64 = 0;
        assert(512 <= hi <= 576) by (nonlinear_arith)
            requires hi == r / 0x20_0000, r >= RAM_START, r <= RAM_END;
        while reg > 512
            invariant
                512 <= reg <= hi,
                hi <= 576,
                r == round_up_2m(self.kernel_end),
                hi == round_up_2m(self.kernel_end) / 0x20_0000,
                self.wf(),
                count == regions_with_pages(*self, RAM_START as int, reg as int, hi as int),
                count <= hi - reg,
            decreases reg,
        {
            reg = reg - 1;
            let here = reaches_region_exec(RAM_START, self.text_end, reg)
                || reaches_region_exec(self.rodata_start, self.rodata_end, reg)
                || reaches_region_exec(self.data_start, r, reg);
            proof {
                assert(max_int(RAM_START as int, RAM_START as int) == RAM_START);
                assert(max_int(self.rodata_start as int, RAM_START as int) == self.rodata_start);
                assert(max_int(self.data_start as int, RAM_START as int) == self.data_start);
                assert(here == region_has_pages(*self, RAM_START as int, reg as int));
            }
            if here {
                count = count + 1;
            }
        }
        let ram_mapped = RAM_START < self.text_end || self.rodata_start < self.rodata_end || self.data_start < RAM_END;
        proof {
            assert(max_int(RAM_START as int, RAM_START as int) == RAM_START);
            assert(max_int(self.rodata_start as int, RAM_START as int) == self.rodata_start);
            assert(max_int(self.data_start as int, RAM_START as int) == self.data_start);
        }
        if ram_mapped {
            3 + count
        } else {
            2 + count
        }
    }
}

/// The count of regions holding pages at or above `c` does not depend on
/// `c` once `c` is below all of them.
proof fn lemma_regions_shift(l: KernelLayout, c: int, c2: int, lo: int, hi: int)
    requires
        c <= c2 <= lo * 0x20_0000,
    ensures
        regions_with_pages(l, c, lo, hi) == regions_with_pages(l, c2, lo, hi),
    decreases hi - lo,
{
    if lo < hi {
        lemma_regions_shift(l, c, c2, lo + 1, hi);
        assert(region_has_pages(l, c, lo) == region_has_pages(l, c2, lo));
    }
}

/// Counts agree where the regions agree.
proof fn lemma_regions_congruent(l: KernelLayout, c: int, c2: int, lo: int, hi: int)
    requires
        forall|reg: int| lo <= reg < hi ==> #[trigger] region_has_pages(l, c, reg) == region_has_pages(l, c2, reg),
    ensures
        regions_with_pages(l, c, lo, hi) == regions_with_pages(l, c2, lo, hi),
    decreases hi - lo,
{
    if lo < hi {
        lemma_regions_congruent(l, c, c2, lo + 1, hi);
        assert(region_has_pages(l, c, lo) == region_has_pages(l, c2, lo));
    }
}

/// A count splits at any region in between.
proof fn lemma_regions_split(l: KernelLayout, c: int, lo: int, mid: int, hi: int)
    requires
        lo <= mid <= hi,
    ensures
        regions_with_pages(l, c, lo, hi) == regions_with_pages(l, c, lo, mid) + regions_with_pages(l, c, mid, hi),
    decreases mid - lo,
{
    if lo < mid {
        lemma_regions_split(l, c, lo + 1, mid, hi);
    }
}

/// Regions without pages count nothing.
proof fn lemma_regions_none(l: KernelLayout, c: int, lo: int, hi: int)
    requires
        forall|reg: int| lo <= reg < hi ==> !#[trigger] region_has_pages(l, c, reg),
    ensures
        regions_with_pages(l, c, lo, hi) == 0,
    decreases hi - lo,
{
    if lo < hi {
        lemma_regions_none(l, c, lo + 1, hi);
    }
}

/// Every address of a stretch that the identity mapping of `l` maps with
/// pages finds pages in its own region from itself on.
proof fn lemma_stretch_has_pages(l: KernelLayout, from: u64, to: u64)
    requires
        l.wf(),
        (RAM_START <= from && to <= l.text_end) || (l.rodata_start <= from && to <= l.rodata_end) || (l.data_start
            <= from && to <= round_up_2m(l.kernel_end)),
    ensures
        forall|v: u64| from <= v < to ==> #[trigger] region_has_pages(l, v as int, v as int / 0x20_0000),
{
    assert forall|v: u64| from <= v < to implies #[trigger] region_has_pages(l, v as int, v as int / 0x20_0000) by {
        if RAM_START <= from && to <= l.text_end {
            lemma_reaches_own_region(RAM_START as int, l.text_end as int, v as int);
        } else if l.rodata_start <= from && to <= l.rodata_end {
            lemma_reaches_own_region(l.rodata_start as int, l.rodata_end as int, v as int);
        } else {
            lemma_reaches_own_region(l.data_start as int, round_up_2m(l.kernel_end), v as int);
        }
    }
}

/// An address inside `a .. b` reaches its own region from itself on.
proof fn lemma_reaches_own_region(a: int, b: int, v: int)
    requires
        0 <= a <= v < b,
    ensures
        reaches_region(max_int(a, v), b, v / 0x20_0000),
{
    assert((v / 0x20_0000) * 0x20_0000 <= v < (v / 0x20_0000 + 1) * 0x20_0000) by (nonlinear_arith)
        requires 0 <= v;
}

/// The memory the MMU walks, as the page tables describe it: the root
/// (TTBR0_EL1, 0 before the tables are built), the physical address of the
/// first frame held for tables, and the words of every held frame, 512 per
/// frame, in order, so that the frame at `base + 4096 * k` holds
/// `words[512 * k ..][..512]`.
pub ghost struct TableMemory {
    pub root: u64,
    pub base: u64,
    pub words: Seq<u64>,
}

impl TableMemory {
    /// Whether the frame at `pa` is one of the held frames.
    pub open spec fn holds(self, pa: u64) -> bool {
        &&& self.base <= pa
        &&& (pa - self.base) % 4096 == 0
        &&& (pa - self.base) / 4096 < self.words.len() / 512
    }

    /// Entry `i` of the table at physical address `pa`.
    pub open spec fn entry(self, pa: u64, i: u64) -> u64 {
        self.words[(pa - self.base) / 4096 * 512 + i]
    }

    /// The physical address of the table that the walk of `va` reaches at
    /// `level`, if it gets that far: the L0 table is the root; an L0 entry
    /// with bit 0 set, or an L1 or L2 entry whose type is table, leads one
    /// level down, to the address in bits[47:12] of the entry.
    pub open spec fn table_at(self, level: nat, va: u64) -> Option<u64>
        decreases level,
    {
        if level == 0 {
            if self.root == 0 {
                None
            } else {
                Some(self.root)
            }
        } else {
            match self.table_at((level - 1) as nat, va) {
                None => None,
                Some(t) => {
                    let e = self.entry(t, va_index((level - 1) as nat, va));
                    if (level == 1 && e & 1 == 1) || (level > 1 && e & 3 == 3) {
                        Some(e & PA_MASK)
                    } else {
                        None
                    }
                },
            }
        }
    }

    /// The descriptor that ends the walk of `va`, with its level: an L1 or
    /// L2 block, or a valid L3 page; `None` where the walk meets an invalid
    /// entry.
    pub open spec fn leaf(self, va: u64) -> Option<(u64, nat)> {
        match self.table_at(1, va) {
            None => None,
            Some(t1) => {
                let e1 = self.entry(t1, va_index(1, va));
                if e1 & 3 == 1 {
                    Some((e1, 1))
                } else {
                    match self.table_at(2, va) {
                        None => None,
                        Some(t2) => {
                            let e2 = self.entry(t2, va_index(2, va));
                            if e2 & 3 == 1 {
                                Some((e2, 2))
                            } else {
                                match self.table_at(3, va) {
                                    None => None,
                                    Some(t3) => {
                                        let e3 = self.entry(t3, va_index(3, va));
                                        if e3 & 3 == 3 {
                                            Some((e3, 3))
                                        } else {
                                            None
                                        }
                                    },
                                }
                            }
                        },
                    }
                }
            },
        }
    }

    /// The physical address that `va` translates to: the output address of
    /// the leaf descriptor joined with the offset of `va` inside the block
    /// or page.
    pub open spec fn walk(self, va: u64) -> Option<u64> {
        match self.leaf(va) {
            None => None,
            Some((d, level)) => if level == 1 {
                Some((d & PA_MASK_1G) | (va & 0x3FFF_FFFF))
            } else if level == 2 {
                Some((d & PA_MASK_2M) | (va & 0x1F_FFFF))
            } else {
                Some((d & PA_MASK) | (va & 0xFFF))
            },
        }
    }

    /// The attribute bits of the leaf descriptor that maps `va`.
    pub open spec fn leaf_attrs(self, va: u64) -> Option<u64> {
        match self.leaf(va) {
            None => None,
            Some((d, _)) => Some(d & ATTR_BITS),
        }
    }
}

/// The page tables and the frames that hold them.
pub struct PageTables {
    /// The allocator the tables take their frames from.
    frames: FrameAllocator,
    /// Physical address of the first frame held in `mem`.
    base: u64,
    /// Every frame taken for a table, 512 entries each, in allocation order:
    /// frame `k` is at physical address `base + 4096 * k`.
    mem: Vec<u64>,
    /// Physical address of the L0 table (TTBR0_EL1); 0 until the tables are
    /// built.
    root: u64,
    /// For each frame: the level of the table it holds.
    levels: Ghost<Seq<nat>>,
    /// For each frame: the prefix (see `va_prefix`) of the addresses that
    /// walk through it.
    prefixes: Ghost<Seq<u64>>,
}

impl View for PageTables {
    type V = TableMemory;

    closed spec fn view(&self) -> TableMemory {
        TableMemory { root: self.root, base: self.base, words: self.mem@ }
    }
}

impl PageTables {
    /// Number of frames held.
    spec fn nframes(&self) -> nat {
        self.levels@.len()
    }

    spec fn frame_pa(&self, k: int) -> u64 {
        (self.base + 4096 * k) as u64
    }

    spec fn frame_index(&self, pa: u64) -> int {
        (pa - self.base) / 4096
    }

    spec fn is_frame(&self, pa: u64) -> bool {
        &&& self.base <= pa
        &&& (pa - self.base) % 4096 == 0
        &&& self.frame_index(pa) < self.nframes()
    }

    /// Entry `i` of the table at physical address `pa`.
    spec fn entry(&self, pa: u64, i: u64) -> u64 {
        self@.entry(pa, i)
    }

    /// What entry `j` of a table at level `l` with prefix `p` may hold: in a
    /// table above level 3 an entry is invalid (bit 0 clear), a block (only
    /// at levels 1 and 2), or a table descriptor naming a held frame one
    /// level down whose prefix extends `p` by `j`. A table descriptor is
    /// exactly the next table's address with the type bits 0b11: every other
    /// bit is clear, so no table-level permission (APTable, PXNTable,
    /// UXNTable, NSTable) restricts what the leaves below grant.
    spec fn value_ok(&self, l: nat, p: u64, j: int, e: u64) -> bool {
        l < 3 ==> {
            ||| e & 1 == 0
            ||| (l > 0 && e & 3 == 1)
            ||| {
                &&& e & 3 == 3
                &&& e == (e & PA_MASK) | 3
                &&& self.is_frame(e & PA_MASK)
                &&& self.levels@[self.frame_index(e & PA_MASK)] == l + 1
                &&& self.prefixes@[self.frame_index(e & PA_MASK)] == p * 512 + j
            }
        }
    }

    /// Entry `j` of frame `k` holds what its table may hold.
    spec fn entry_ok(&self, k: int, j: int) -> bool {
        self.value_ok(self.levels@[k], self.prefixes@[k], j, self.mem@[k * 512 + j])
    }

    /// The invariant of the page tables.
    pub closed spec fn wf(&self) -> bool {
        &&& self.frames.wf()
        &&& self.base % 4096 == 0
        &&& self.mem@.len() == 512 * self.nframes()
        &&& self.prefixes@.len() == self.nframes()
        &&& self.frames.next_frame() == self.base + 4096 * self.nframes()
        &&& (self.root != 0 ==> {
            &&& self.is_frame(self.root)
            &&& self.levels@[self.frame_index(self.root)] == 0
            &&& self.prefixes@[self.frame_index(self.root)] == 0
        })
        &&& forall|k: int| 0 <= k < self.nframes() ==> #[trigger] self.levels@[k] <= 3
        &&& forall|k: int, j: int| 0 <= k < self.nframes() && 0 <= j < 512 ==> #[trigger] self.entry_ok(k, j)
    }

    /// The table the walk of `va` reaches at `level` (see `TableMemory`).
    spec fn table_at(&self, level: nat, va: u64) -> Option<u64> {
        self@.table_at(level, va)
    }

    /// The descriptor that ends the walk of `va`, with its level.
    spec fn leaf(&self, va: u64) -> Option<(u64, nat)> {
        self@.leaf(va)
    }

    /// The physical address that `va` translates to.
    spec fn walk(&self, va: u64) -> Option<u64> {
        self@.walk(va)
    }

    /// The attribute bits of the descriptor that maps `va`.
    spec fn leaf_attrs(&self, va: u64) -> Option<u64> {
        self@.leaf_attrs(va)
    }

    /// Frames still free in the allocator.
    spec fn free_frames(&self) -> nat {
        self.frames.free_frames()
    }

    /// Physical address of the L0 table, 0 before the tables are built.
    spec fn spec_root(&self) -> u64 {
        self.root
    }

    proof fn lemma_frame_arith(&self)
        requires
            self.wf(),
        ensures
            self.base + 4096 * self.nframes() <= RAM_END,
            forall|k: int| 0 <= k < self.nframes() ==> {
                &&& #[trigger] self.frame_pa(k) == self.base + 4096 * k
                &&& self.is_frame(self.frame_pa(k))
                &&& self.frame_index(self.frame_pa(k)) == k
                &&& self.frame_pa(k) % 4096 == 0
                &&& self.frame_pa(k) + 4096 <= RAM_END
            },
            forall|k: int| 0 <= k <= self.nframes() ==> {
                &&& #[trigger] self.frame_pa(k) == self.base + 4096 * k
                &&& self.frame_index(self.frame_pa(k)) == k
            },
            forall|pa: u64| #[trigger] self.is_frame(pa) ==> {
                &&& pa == self.frame_pa(self.frame_index(pa))
                &&& 0 <= self.frame_index(pa) < self.nframes()
                &&& pa % 4096 == 0
                &&& pa + 4096 <= RAM_END
            },
    {
        self.frames.lemma_wf_facts();
    }

    /// A table that a walk reaches at `level` is a held frame whose labels are
    /// that level and the walked address's prefix.
    proof fn lemma_labels(&self, level: nat, va: u64)
        requires
            self.wf(),
            level <= 3,
        ensures
            self.table_at(level, va) matches Some(t) ==> {
                &&& self.is_frame(t)
                &&& self.levels@[self.frame_index(t)] == level
                &&& self.prefixes@[self.frame_index(t)] == va_prefix(level, va)
            },
        decreases level,
    {
        if level > 0 {
            let l = (level - 1) as nat;
            self.lemma_labels(l, va);
            lemma_index_prefix(va);
            lemma_type_bits();
            self.lemma_frame_arith();
            if let Some(t) = self.table_at(l, va) {
                let k = self.frame_index(t);
                let j = va_index(l, va) as int;
                assert(self.entry_ok(k, j));
                assert(va_prefix(l + 1, va) == va_prefix(l, va) * 512 + va_index(l, va));
            }
        }
    }

    /// Where the tables live and what links them: the held frames are
    /// consecutive 4 KiB frames from `base`, below the end of RAM, and the
    /// next new table takes the frame right after the last one; the root and
    /// every table a walk reaches are held frames; and the entry that leads
    /// a walk from one table to the next is exactly the next table's address
    /// with the type bits 0b11, so no table-level bit restricts the leaves.
    pub proof fn lemma_tables_in_memory(&self)
        requires
            self.wf(),
        ensures
            self@.words.len() % 512 == 0,
            self@.base % 4096 == 0,
            self.next_table_frame() == self@.base + 4096 * (self@.words.len() / 512),
            self.next_table_frame() <= RAM_END,
            self@.root != 0 ==> self@.holds(self@.root),
            forall|l: nat, va: u64| l <= 3 && #[trigger] self@.table_at(l, va) is Some ==> self@.holds(
                self@.table_at(l, va)->0,
            ),
            forall|l: nat, va: u64| 1 <= l <= 3 && #[trigger] self@.table_at(l, va) is Some ==> {
                &&& self@.table_at((l - 1) as nat, va) is Some
                &&& self@.entry(self@.table_at((l - 1) as nat, va)->0, va_index((l - 1) as nat, va))
                    == self@.table_at(l, va)->0 | 3
            },
    {
        self.lemma_frame_arith();
        self.frames.lemma_wf_facts();
        let n = self.nframes();
        assert(self@.words.len() / 512 == n);
        assert(self@.words.len() % 512 == 0);
        assert forall|pa: u64| #[trigger] self.is_frame(pa) implies self@.holds(pa) by {}
        assert forall|l: nat, va: u64| l <= 3 && #[trigger] self@.table_at(l, va) is Some implies self@.holds(
            self@.table_at(l, va)->0,
        ) by {
            self.lemma_labels(l, va);
        }
        assert forall|l: nat, va: u64| 1 <= l <= 3 && #[trigger] self@.table_at(l, va) is Some implies {
            &&& self@.table_at((l - 1) as nat, va) is Some
            &&& self@.entry(self@.table_at((l - 1) as nat, va)->0, va_index((l - 1) as nat, va))
                == self@.table_at(l, va)->0 | 3
        } by {
            let m = (l - 1) as nat;
            self.lemma_labels(m, va);
            lemma_type_bits();
            lemma_index_prefix(va);
            let t = self.table_at(m, va)->0;
            let k = self.frame_index(t);
            let j = va_index(m, va) as int;
            assert(self.entry_ok(k, j));
        }
    }

    /// Read entry `i` of the held table at `pa`.
    fn read_entry(&self, pa: u64, i: u64) -> (e: u64)
        requires
            self.wf(),
            self.is_frame(pa),
            i < 512,
        ensures
            e == self.entry(pa, i),
    {
        proof {
            self.lemma_frame_arith();
        }
        let k = (pa - self.base) / 4096;
        let pos = k * 512 + i;
        self.mem[pos as usize]
    }

    /// Walk the tables in software and translate `va` to a physical address.
    /// This only reads the tables; it does not touch the hardware.
    #[verifier::spinoff_prover]
    #[verifier::rlimit(20)]
    pub fn translate(&self, va: u64) -> (r: Option<u64>)
        requires
            self.wf(),
        ensures
            r == self@.walk(va),
    {
        proof {
            lemma_type_bits();
            lemma_index_prefix(va);
            self.lemma_labels(0, va);
            self.lemma_labels(1, va);
            self.lemma_labels(2, va);
            self.lemma_labels(3, va);
            reveal_with_fuel(TableMemory::table_at, 4);
        }
        let l0_pa = self.root;
        if l0_pa == 0 {
            return None;
        }
        let e0 = self.read_entry(l0_pa, (va >> 39u64) & 0x1ff);
        if e0 & 1 == 0 {
            return None;
        }
        assert(self.table_at(0, va) == Some(l0_pa));
        assert(self.table_at(1, va) == Some(e0 & PA_MASK));
        let e1 = self.read_entry(e0 & PA_MASK, (va >> 30u64) & 0x1ff);
        if e1 & 1 == 0 {
            return None;
        }
        if e1 & 0b11 == BLOCK_DESC {
            return Some((e1 & PA_MASK_1G) | (va & 0x3FFF_FFFF));
        }
        let e2 = self.read_entry(e1 & PA_MASK, (va >> 21u64) & 0x1ff);
        if e2 & 1 == 0 {
            return None;
        }
        if e2 & 0b11 == BLOCK_DESC {
            return Some((e2 & PA_MASK_2M) | (va & 0x1F_FFFF));
        }
        let e3 = self.read_entry(e2 & PA_MASK, (va >> 12u64) & 0x1ff);
        if e3 & 0b11 != PAGE_DESC {
            return None;
        }
        Some((e3 & PA_MASK) | (va & 0xFFF))
    }

    /// The walk of `va` reads slot `j` of frame `k` at `level`.
    spec fn reads_slot(&self, va: u64, level: nat, k: int, j: int) -> bool {
        &&& self.table_at(level, va) == Some(self.frame_pa(k))
        &&& va_index(level, va) == j
    }

    /// `s2` holds every frame of `self`, with the same root, and the same
    /// contents except possibly at slot `j` of frame `k`.
    spec fn agrees_except(&self, s2: &PageTables, k: int, j: int) -> bool {
        &&& self.root == s2.root
        &&& self.base == s2.base
        &&& s2.mem@.len() >= self.mem@.len()
        &&& forall|x: int| 0 <= x < self.mem@.len() && x != k * 512 + j ==> s2.mem@[x] == self.mem@[x]
    }

    /// A walk reads a slot only at the level of the slot's table.
    proof fn lemma_reads_level(&self, va: u64, level: nat, k: int, j: int)
        requires
            self.wf(),
            level <= 3,
            0 <= k <= self.nframes(),
            self.reads_slot(va, level, k, j),
        ensures
            k < self.nframes(),
            self.levels@[k] == level,
            self.prefixes@[k] == va_prefix(level, va),
    {
        self.lemma_labels(level, va);
        self.lemma_frame_arith();
    }

    /// Walks that do not read the changed slot are the same in both states.
    proof fn lemma_agree_table_at(&self, s2: &PageTables, k: int, j: int, m: nat, va: u64)
        requires
            self.wf(),
            self.agrees_except(s2, k, j),
            0 <= k <= self.nframes(),
            0 <= j < 512,
            m <= 3,
            forall|l: nat| l < m ==> !#[trigger] self.reads_slot(va, l, k, j),
        ensures
            s2.table_at(m, va) == self.table_at(m, va),
        decreases m,
    {
        if m > 0 {
            let l = (m - 1) as nat;
            self.lemma_agree_table_at(s2, k, j, l, va);
            self.lemma_labels(l, va);
            self.lemma_frame_arith();
            lemma_index_prefix(va);
            if let Some(t) = self.table_at(l, va) {
                assert(!self.reads_slot(va, l, k, j));
                let x = self.frame_index(t) * 512 + va_index(l, va);
                assert(x < self.mem@.len()) by (nonlinear_arith)
                    requires
                        x == self.frame_index(t) * 512 + va_index(l, va),
                        0 <= self.frame_index(t) < self.nframes(),
                        va_index(l, va) < 512,
                        self.mem@.len() == 512 * self.nframes();
                assert(x != k * 512 + j) by (nonlinear_arith)
                    requires
                        x == self.frame_index(t) * 512 + va_index(l, va),
                        self.frame_index(t) != k || va_index(l, va) != j,
                        va_index(l, va) < 512,
                        0 <= j < 512;
                assert(s2.entry(t, va_index(l, va)) == self.entry(t, va_index(l, va)));
            }
        }
    }

    /// Leaves of walks that do not read the changed slot are the same in
    /// both states.
    #[verifier::spinoff_prover]
    #[verifier::rlimit(20)]
    proof fn lemma_agree_leaf(&self, s2: &PageTables, k: int, j: int, va: u64)
        requires
            self.wf(),
            self.agrees_except(s2, k, j),
            0 <= k <= self.nframes(),
            0 <= j < 512,
            forall|l: nat| l <= 3 ==> !#[trigger] self.reads_slot(va, l, k, j),
        ensures
            forall|m: nat| m <= 3 ==> #[trigger] s2.table_at(m, va) == self.table_at(m, va),
            s2.leaf(va) == self.leaf(va),
    {
        assert forall|m: nat| m <= 3 implies #[trigger] s2.table_at(m, va) == self.table_at(m, va) by {
            self.lemma_agree_table_at(s2, k, j, m, va);
        }
        assert(s2.table_at(1, va) == self.table_at(1, va));
        assert(s2.table_at(2, va) == self.table_at(2, va));
        assert(s2.table_at(3, va) == self.table_at(3, va));
        self.lemma_frame_arith();
        lemma_index_prefix(va);
        assert forall|l: nat| 1 <= l <= 3 && self.table_at(l, va) is Some implies
            #[trigger] s2.entry(self.table_at(l, va)->0, va_index(l, va)) == self.entry(self.table_at(l, va)->0, va_index(l, va)) by {
            let t = self.table_at(l, va)->0;
            self.lemma_labels(l, va);
            assert(!self.reads_slot(va, l, k, j));
            let x = self.frame_index(t) * 512 + va_index(l, va);
            assert(x < self.mem@.len()) by (nonlinear_arith)
                requires
                    x == self.frame_index(t) * 512 + va_index(l, va),
                    0 <= self.frame_index(t) < self.nframes(),
                    va_index(l, va) < 512,
                    self.mem@.len() == 512 * self.nframes();
            assert(x != k * 512 + j) by (nonlinear_arith)
                requires
                    x == self.frame_index(t) * 512 + va_index(l, va),
                    self.frame_index(t) != k || va_index(l, va) != j,
                    va_index(l, va) < 512,
                    0 <= j < 512;
        }
        if let Some(t1) = self.table_at(1, va) {
            assert(s2.entry(t1, va_index(1, va)) == self.entry(t1, va_index(1, va)));
            if let Some(t2) = self.table_at(2, va) {
                assert(s2.entry(t2, va_index(2, va)) == self.entry(t2, va_index(2, va)));
                if let Some(t3) = self.table_at(3, va) {
                    assert(s2.entry(t3, va_index(3, va)) == self.entry(t3, va_index(3, va)));
                }
            }
        }
    }

    /// The walk down to `level` depends only on the prefix at `level`.
    proof fn lemma_prefix_dep(&self, m: nat, v1: u64, v2: u64)
        requires
            m <= 3,
            va_prefix(m, v1) == va_prefix(m, v2),
        ensures
            self.table_at(m, v1) == self.table_at(m, v2),
        decreases m,
    {
        lemma_prefix_shared(m, v1, v2);
        if m > 0 {
            self.lemma_prefix_dep((m - 1) as nat, v1, v2);
            assert(va_index((m - 1) as nat, v1) == va_index((m - 1) as nat, v2));
        }
    }

    /// Write `v` into entry `i` of the held table at `pa`.
    #[verifier::spinoff_prover]
    #[verifier::rlimit(20)]
    fn write_entry(&mut self, pa: u64, i: u64, v: u64)
        requires
            old(self).wf(),
            old(self).is_frame(pa),
            i < 512,
            old(self).value_ok(
                old(self).levels@[old(self).frame_index(pa)],
                old(self).prefixes@[old(self).frame_index(pa)],
                i as int,
                v,
            ),
        ensures
            final(self).wf(),
            final(self).mem@ == old(self).mem@.update(old(self).frame_index(pa) * 512 + i, v),
            final(self).frames == old(self).frames,
            final(self).base == old(self).base,
            final(self).root == old(self).root,
            final(self).levels == old(self).levels,
            final(self).prefixes == old(self).prefixes,
            old(self).agrees_except(final(self), old(self).frame_index(pa), i as int),
    {
        proof {
            self.lemma_frame_arith();
        }
        let ghost s0 = *self;
        let k = (pa - self.base) / 4096;
        let pos = k * 512 + i;
        assert(pos < self.mem@.len()) by (nonlinear_arith)
            requires
                pos == k * 512 + i,
                k < self.nframes(),
                i < 512,
                self.mem@.len() == 512 * self.nframes();
        self.mem.set(pos as usize, v);
        proof {
            assert forall|k2: int, j2: int| 0 <= k2 < self.nframes() && 0 <= j2 < 512 implies #[trigger] self.entry_ok(k2, j2) by {
                assert(s0.entry_ok(k2, j2));
                if k2 * 512 + j2 == pos {
                    assert(k2 == k && j2 == i) by (nonlinear_arith)
                        requires
                            k2 * 512 + j2 == k * 512 + i,
                            0 <= j2 < 512,
                            i < 512;
                } else {
                    assert(0 <= k2 * 512 + j2 < self.mem@.len()) by (nonlinear_arith)
                        requires
                            0 <= k2 < self.nframes(),
                            0 <= j2 < 512,
                            self.mem@.len() == 512 * self.nframes();
                }
            }
        }
    }

    /// Take a frame from the allocator for a new table at `level` with
    /// `prefix`; the allocator zeroes it, so every entry starts invalid.
    #[verifier::spinoff_prover]
    #[verifier::rlimit(20)]
    fn push_table(&mut self, level: Ghost<nat>, prefix: Ghost<u64>) -> (pa: u64)
        requires
            old(self).wf(),
            old(self).free_frames() > 0,
            level@ <= 3,
        ensures
            final(self).wf(),
            pa == old(self).frame_pa(old(self).nframes() as int),
            pa == old(self).frames.next_frame(),
            pa != 0 || old(self).frames.next_frame() == 0,
            final(self).is_frame(pa),
            final(self).frame_index(pa) == old(self).nframes(),
            final(self).nframes() == old(self).nframes() + 1,
            final(self).levels@ == old(self).levels@.push(level@),
            final(self).prefixes@ == old(self).prefixes@.push(prefix@),
            final(self).base == old(self).base,
            final(self).root == old(self).root,
            final(self).mem@.len() == old(self).mem@.len() + 512,
            forall|x: int| 0 <= x < old(self).mem@.len() ==> #[trigger] final(self).mem@[x] == old(self).mem@[x],
            forall|x: int| old(self).mem@.len() <= x < final(self).mem@.len() ==> #[trigger] final(self).mem@[x] == 0,
            forall|i: u64| i < 512 ==> #[trigger] final(self).entry(pa, i) == 0,
            final(self).free_frames() + 1 == old(self).free_frames(),
            final(self).frames.region_start() == old(self).frames.region_start(),
            old(self).agrees_except(final(self), old(self).nframes() as int, 0),
    {
        proof {
            self.lemma_frame_arith();
            self.frames.lemma_wf_facts();
        }
        let ghost s0 = *self;
        let r = self.frames.alloc_frame();
        proof {
            use_type_invariant(&self.frames);
        }
        let pa = r.unwrap();
        let ghost f1 = self.frames;
        let mut i: usize = 0;
        while i < 512
            invariant
                0 <= i <= 512,
                self.frames == f1,
                self.base == s0.base,
                self.root == s0.root,
                self.levels == s0.levels,
                self.prefixes == s0.prefixes,
                self.mem@.len() == s0.mem@.len() + i,
                forall|x: int| 0 <= x < s0.mem@.len() ==> #[trigger] self.mem@[x] == s0.mem@[x],
                forall|x: int| s0.mem@.len() <= x < self.mem@.len() ==> #[trigger] self.mem@[x] == 0,
            decreases 512 - i,
        {
            self.mem.push(0);
            i = i + 1;
        }
        self.levels = Ghost(self.levels@.push(level@));
        self.prefixes = Ghost(self.prefixes@.push(prefix@));
        proof {
            lemma_type_bits();
            s0.lemma_frame_arith();
            assert(self.nframes() == s0.nframes() + 1);
            assert(self.mem@.len() == 512 * self.nframes());
            assert forall|k2: int, j2: int| 0 <= k2 < self.nframes() && 0 <= j2 < 512 implies #[trigger] self.entry_ok(k2, j2) by {
                assert(0 <= k2 * 512 + j2 < self.mem@.len()) by (nonlinear_arith)
                    requires
                        0 <= k2 < self.nframes(),
                        0 <= j2 < 512,
                        self.mem@.len() == 512 * self.nframes();
                if k2 < s0.nframes() {
                    assert(s0.entry_ok(k2, j2));
                    assert(k2 * 512 + j2 < s0.mem@.len()) by (nonlinear_arith)
                        requires
                            0 <= k2 < s0.nframes(),
                            0 <= j2 < 512,
                            s0.mem@.len() == 512 * s0.nframes();
                    let e = s0.mem@[k2 * 512 + j2];
                    if e & 3 == 3 && s0.is_frame(e & PA_MASK) {
                        assert(self.frame_index(e & PA_MASK) == s0.frame_index(e & PA_MASK));
                    }
                } else {
                    assert(k2 * 512 + j2 >= s0.mem@.len()) by (nonlinear_arith)
                        requires
                            k2 >= s0.nframes(),
                            0 <= j2,
                            s0.mem@.len() == 512 * s0.nframes();
                }
            }
            assert forall|i: u64| i < 512 implies #[trigger] self.entry(pa, i) == 0 by {
                assert(self.frame_index(pa) == s0.nframes());
            }
        }
        pa
    }

    /// Adding frames that nothing points to changes no walk.
    proof fn lemma_grow_preserves(&self, s1: &PageTables)
        requires
            self.wf(),
            self.agrees_except(s1, self.nframes() as int, 0),
        ensures
            forall|m: nat, v: u64| m <= 3 ==> #[trigger] s1.table_at(m, v) == self.table_at(m, v),
            forall|v: u64| #[trigger] s1.leaf(v) == self.leaf(v),
    {
        assert forall|m: nat, v: u64| m <= 3 implies #[trigger] s1.table_at(m, v) == self.table_at(m, v) by {
            self.lemma_grow_one(s1, v);
        }
        assert forall|v: u64| #[trigger] s1.leaf(v) == self.leaf(v) by {
            self.lemma_grow_one(s1, v);
        }
    }

    proof fn lemma_grow_one(&self, s1: &PageTables, v: u64)
        requires
            self.wf(),
            self.agrees_except(s1, self.nframes() as int, 0),
        ensures
            forall|m: nat| m <= 3 ==> #[trigger] s1.table_at(m, v) == self.table_at(m, v),
            s1.leaf(v) == self.leaf(v),
    {
        assert forall|l: nat| l <= 3 implies !#[trigger] self.reads_slot(v, l, self.nframes() as int, 0) by {
            if self.reads_slot(v, l, self.nframes() as int, 0) {
                self.lemma_reads_level(v, l, self.nframes() as int, 0);
            }
        }
        self.lemma_agree_leaf(s1, self.nframes() as int, 0, v);
    }

    /// Once the walk of `va` is missing a table at `level`, it is missing one
    /// at every deeper level.
    proof fn lemma_walk_stops(&self, level: nat, va: u64)
        requires
            1 <= level <= 3,
            self.table_at(level, va) is None,
        ensures
            forall|m: nat| level <= m <= 3 ==> #[trigger] self.table_at(m, va) is None,
    {
        assert forall|m: nat| level <= m <= 3 implies #[trigger] self.table_at(m, va) is None by {
            if m == level + 1 || m == level + 2 {
                assert(self.table_at((level + 1) as nat, va) is None);
            }
        }
    }

    /// Linking a fresh, all-invalid table into an invalid slot changes no
    /// leaf; it adds the table to the walks through that slot, one level
    /// down, and nothing else.
    #[verifier::spinoff_prover]
    #[verifier::rlimit(20)]
    proof fn lemma_link_fresh(&self, s2: &PageTables, table: u64, level: nat, j: int, child: u64, v: u64)
        requires
            self.wf(),
            s2.wf(),
            level < 3,
            0 <= j < 512,
            self.is_frame(table),
            self.levels@[self.frame_index(table)] == level,
            self.agrees_except(s2, self.frame_index(table), j),
            self.entry(table, j as u64) & 1 == 0,
            s2.entry(table, j as u64) & 1 == 1,
            s2.entry(table, j as u64) & 3 == 3,
            s2.entry(table, j as u64) & PA_MASK == child,
            s2.is_frame(child),
            forall|i: u64| i < 512 ==> #[trigger] s2.entry(child, i) == 0,
            self.reads_slot(v, level, self.frame_index(table), j),
        ensures
            s2.leaf(v) == self.leaf(v),
            self.leaf(v) is None,
            forall|m: nat| m <= level ==> #[trigger] s2.table_at(m, v) == self.table_at(m, v),
            s2.table_at(level + 1, v) == Some(child),
            forall|m: nat| level + 1 < m <= 3 ==> #[trigger] s2.table_at(m, v) is None,
            forall|m: nat| level + 1 <= m <= 3 ==> #[trigger] self.table_at(m, v) is None,
    {
        let k = self.frame_index(table);
        lemma_type_bits();
        self.lemma_frame_arith();
        assert forall|m: nat| m <= level implies #[trigger] s2.table_at(m, v) == self.table_at(m, v) by {
            assert forall|l: nat| l < m implies !#[trigger] self.reads_slot(v, l, k, j) by {
                if self.reads_slot(v, l, k, j) {
                    self.lemma_reads_level(v, l, k, j);
                }
            }
            self.lemma_agree_table_at(s2, k, j, m, v);
        }
        assert(self.table_at(level, v) == Some(table));
        assert(self.table_at(level + 1, v) is None);
        self.lemma_walk_stops(level + 1, v);
        assert(s2.table_at(level, v) == Some(table));
        assert(s2.table_at(level + 1, v) == Some(child));
        if level + 2 <= 3 {
            assert(s2.entry(child, va_index(level + 1, v)) == 0) by {
                lemma_index_prefix(v);
            }
            assert(s2.table_at(level + 2, v) is None);
            s2.lemma_walk_stops(level + 2, v);
        }
        lemma_index_prefix(v);
        if level == 0 {
            assert(s2.entry(child, va_index(1, v)) == 0);
        } else if level == 1 {
            assert(self.table_at(1, v) == Some(table));
            assert(s2.table_at(1, v) == Some(table));
            assert(s2.entry(child, va_index(2, v)) == 0);
        } else {
            assert(self.table_at(2, v) == Some(table));
            assert(s2.table_at(2, v) == Some(table));
            assert(s2.table_at(1, v) == self.table_at(1, v));
            assert(s2.entry(self.table_at(1, v)->0, va_index(1, v)) == self.entry(self.table_at(1, v)->0, va_index(1, v))) by {
                let t1 = self.table_at(1, v)->0;
                self.lemma_labels(1, v);
                let x = self.frame_index(t1) * 512 + va_index(1, v);
                assert(self.frame_index(t1) != k);
                assert(x < self.mem@.len() && x != k * 512 + j) by (nonlinear_arith)
                    requires
                        x == self.frame_index(t1) * 512 + va_index(1, v),
                        0 <= self.frame_index(t1) < self.nframes(),
                        self.frame_index(t1) != k,
                        va_index(1, v) < 512,
                        0 <= j < 512,
                        self.mem@.len() == 512 * self.nframes();
            }
            assert(s2.entry(child, va_index(3, v)) == 0);
        }
    }

    /// The effect on one address of linking a fresh table into slot `j` of
    /// `table`, the table at `level` on the walk of `va`.
    #[verifier::spinoff_prover]
    #[verifier::rlimit(20)]
    proof fn lemma_link_step(&self, s2: &PageTables, table: u64, level: nat, j: int, child: u64, v: u64, va: u64)
        requires
            self.wf(),
            s2.wf(),
            level < 3,
            0 <= j < 512,
            j == va_index(level, va),
            self.table_at(level, va) == Some(table),
            self.agrees_except(s2, self.frame_index(table), j),
            self.entry(table, j as u64) & 1 == 0,
            s2.entry(table, j as u64) & 1 == 1,
            s2.entry(table, j as u64) & 3 == 3,
            s2.entry(table, j as u64) & PA_MASK == child,
            s2.is_frame(child),
            forall|i: u64| i < 512 ==> #[trigger] s2.entry(child, i) == 0,
        ensures
            s2.leaf(v) == self.leaf(v),
            forall|m: nat| m <= 3 && !(m == level + 1 && va_prefix(m, v) == va_prefix(m, va))
                ==> #[trigger] s2.table_at(m, v) == self.table_at(m, v),
            va_prefix(level + 1, v) == va_prefix(level + 1, va) ==> s2.table_at(level + 1, v) == Some(child),
    {
        let k = self.frame_index(table);
        self.lemma_labels(level, va);
        self.lemma_frame_arith();
        lemma_index_prefix(v);
        lemma_index_prefix(va);
        if self.reads_slot(v, level, k, j) {
            self.lemma_link_fresh(s2, table, level, j, child, v);
            self.lemma_reads_level(v, level, k, j);
        } else {
            assert forall|l: nat| l <= 3 implies !#[trigger] self.reads_slot(v, l, k, j) by {
                if self.reads_slot(v, l, k, j) {
                    self.lemma_reads_level(v, l, k, j);
                }
            }
            self.lemma_agree_leaf(s2, k, j, v);
            if va_prefix(level + 1, v) == va_prefix(level + 1, va) {
                lemma_prefix_shared(level + 1, v, va);
                self.lemma_prefix_dep(level, v, va);
                assert(self.reads_slot(v, level, k, j));
            }
        }
    }

    /// The next-level table that entry `i` of `table` points to; if the entry
    /// is invalid, take a fresh frame and make the entry a table descriptor
    /// for it. `table` is the table at `level` on the walk of `va`, and `i`
    /// is the index `va` selects there. An entry that is a block instead of
    /// a table is a conflict in the caller's logic and is outside the
    /// contract.
    #[verifier::spinoff_prover]
    #[verifier::rlimit(20)]
    fn get_or_create(&mut self, table: u64, i: u64, va: Ghost<u64>, level: Ghost<nat>) -> (child: u64)
        requires
            old(self).wf(),
            level@ < 3,
            i == va_index(level@, va@),
            old(self).table_at(level@, va@) == Some(table),
            old(self).entry(table, i) & 1 == 1 ==> old(self).entry(table, i) & 3 == 3,
            old(self).table_at(level@ + 1, va@) is None ==> old(self).free_frames() > 0,
        ensures
            final(self).wf(),
            final(self).root == old(self).root,
            final(self).base == old(self).base,
            final(self).frames.region_start() == old(self).frames.region_start(),
            final(self).table_at(level@ + 1, va@) == Some(child),
            old(self).table_at(level@ + 1, va@) is Some ==> *final(self) == *old(self),
            old(self).table_at(level@ + 1, va@) is None ==> final(self).free_frames() + 1 == old(self).free_frames(),
            forall|v: u64| #[trigger] final(self).leaf(v) == old(self).leaf(v),
            forall|m: nat, v: u64|
                m <= 3 && !(m == level@ + 1 && va_prefix(m, v) == va_prefix(m, va@))
                    ==> #[trigger] final(self).table_at(m, v) == old(self).table_at(m, v),
            forall|v: u64| va_prefix(level@ + 1, v) == va_prefix(level@ + 1, va@)
                ==> #[trigger] final(self).table_at(level@ + 1, v) == Some(child),
            forall|m: nat, v: u64| m <= 3 && old(self).table_at(m, v) is Some
                ==> #[trigger] final(self).table_at(m, v) == old(self).table_at(m, v),
            old(self).table_at(level@ + 1, va@) is Some ==> child == old(self).entry(table, i) & PA_MASK,
            old(self).table_at(level@ + 1, va@) is None ==> {
                &&& child == old(self).next_table_frame()
                &&& final(self).entry(table, i) == child | 3
                &&& forall|j: u64| j < 512 ==> #[trigger] final(self).entry(child, j) == 0
            },
    {
        proof {
            lemma_type_bits();
            lemma_index_prefix(va@);
            self.lemma_labels(level@, va@);
            self.lemma_frame_arith();
        }
        let ghost s0 = *self;
        let ghost k = s0.frame_index(table);
        let e = self.read_entry(table, i);
        if e & 1 == 0 {
            let pa = self.push_table(Ghost(level@ + 1), Ghost(va_prefix(level@ + 1, va@)));
            let ghost s1 = *self;
            proof {
                s0.lemma_frame_arith();
                s1.lemma_frame_arith();
                lemma_table_desc(pa);
                assert(s1.frame_index(table) == k);
                assert(s1.prefixes@[k] == va_prefix(level@, va@));
                assert(s1.levels@[k] == level@);
            }
            self.write_entry(table, i, pa | TABLE_DESC);
            proof {
                let s2 = *self;
                s2.lemma_frame_arith();
                s0.lemma_grow_preserves(&s1);
                assert(s1.table_at(level@, va@) == Some(table));
                assert(s1.entry(table, i) == e) by {
                    assert(s1.mem@[k * 512 + i] == s0.mem@[k * 512 + i]) by {
                        assert(k * 512 + i < s0.mem@.len()) by (nonlinear_arith)
                            requires
                                0 <= k < s0.nframes(),
                                i < 512,
                                s0.mem@.len() == 512 * s0.nframes();
                    }
                }
                assert(s2.entry(table, i) == pa | TABLE_DESC);
                assert forall|v: u64| #[trigger] s2.leaf(v) == s0.leaf(v) by {
                    s1.lemma_link_step(&s2, table, level@, i as int, pa, v, va@);
                }
                assert forall|m: nat, v: u64|
                    m <= 3 && !(m == level@ + 1 && va_prefix(m, v) == va_prefix(m, va@))
                        implies #[trigger] s2.table_at(m, v) == s0.table_at(m, v) by {
                    s1.lemma_link_step(&s2, table, level@, i as int, pa, v, va@);
                }
                assert forall|v: u64| va_prefix(level@ + 1, v) == va_prefix(level@ + 1, va@)
                    implies #[trigger] s2.table_at(level@ + 1, v) == Some(pa) by {
                    s1.lemma_link_step(&s2, table, level@, i as int, pa, v, va@);
                }
                assert forall|m: nat, v: u64| m <= 3 && s0.table_at(m, v) is Some
                    implies #[trigger] s2.table_at(m, v) == s0.table_at(m, v) by {
                    s1.lemma_link_step(&s2, table, level@, i as int, pa, v, va@);
                    if m == level@ + 1 && va_prefix(m, v) == va_prefix(m, va@) {
                        s0.lemma_prefix_dep(m, v, va@);
                    }
                }
                assert(s2.leaf(va@) == s0.leaf(va@));
                assert(s2.table_at(level@ + 1, va@) == Some(pa));
                assert forall|j: u64| j < 512 implies #[trigger] s2.entry(pa, j) == 0 by {
                    let kc = s1.frame_index(pa);
                    assert(s1.entry(pa, j) == 0);
                    assert(kc * 512 + j != k * 512 + i && 0 <= kc * 512 + j) by (nonlinear_arith)
                        requires
                            kc == s0.nframes(),
                            0 <= k < s0.nframes(),
                            i < 512,
                            j < 512;
                }
            }
            pa
        } else {
            assert(self.table_at(level@ + 1, va@) == Some(e & PA_MASK));
            proof {
                assert forall|v: u64| va_prefix(level@ + 1, v) == va_prefix(level@ + 1, va@)
                    implies #[trigger] self.table_at(level@ + 1, v) == Some(e & PA_MASK) by {
                    self.lemma_prefix_dep(level@ + 1, v, va@);
                }
            }
            e & PA_MASK
        }
    }

    /// Number of tables missing on the walk of `va` at levels 1 to `depth`.
    spec fn missing_tables(&self, va: u64, depth: nat) -> nat
        decreases depth,
    {
        if depth == 0 {
            0
        } else {
            self.missing_tables(va, (depth - 1) as nat) + if self.table_at(depth, va) is None {
                1nat
            } else {
                0nat
            }
        }
    }

    /// The effect on one address of writing the leaf descriptor `d` into
    /// slot `j` of `table`, the table at `level` on the walk of `va`: a page
    /// descriptor at level 3, a block descriptor at levels 1 and 2.
    #[verifier::spinoff_prover]
    #[verifier::rlimit(20)]
    proof fn lemma_write_leaf(&self, s2: &PageTables, table: u64, level: nat, j: int, d: u64, v: u64, va: u64)
        requires
            self.wf(),
            s2.wf(),
            1 <= level <= 3,
            0 <= j < 512,
            j == va_index(level, va),
            self.table_at(level, va) == Some(table),
            self.agrees_except(s2, self.frame_index(table), j),
            s2.entry(table, j as u64) == d,
            level == 3 ==> d & 3 == 3,
            level < 3 ==> d & 3 == 1,
        ensures
            s2.leaf(v) == if va_prefix(level + 1, v) == va_prefix(level + 1, va) {
                Some((d, level))
            } else {
                self.leaf(v)
            },
            forall|m: nat| m <= level ==> #[trigger] s2.table_at(m, v) == self.table_at(m, v),
            forall|m: nat| level < m <= 3 ==> #[trigger] s2.table_at(m, v) == if va_prefix(level + 1, v) == va_prefix(level + 1, va) {
                None
            } else {
                self.table_at(m, v)
            },
    {
        let k = self.frame_index(table);
        lemma_type_bits();
        self.lemma_labels(level, va);
        self.lemma_frame_arith();
        lemma_index_prefix(v);
        lemma_index_prefix(va);
        assert forall|m: nat| m <= level implies #[trigger] s2.table_at(m, v) == self.table_at(m, v) by {
            assert forall|l: nat| l < m implies !#[trigger] self.reads_slot(v, l, k, j) by {
                if self.reads_slot(v, l, k, j) {
                    self.lemma_reads_level(v, l, k, j);
                }
            }
            self.lemma_agree_table_at(s2, k, j, m, v);
        }
        if va_prefix(level + 1, v) == va_prefix(level + 1, va) {
            lemma_prefix_shared(level + 1, v, va);
            self.lemma_prefix_dep(level, v, va);
            assert(self.reads_slot(v, level, k, j));
            assert(s2.table_at(level, v) == Some(table));
            if level < 3 {
                assert(s2.table_at(level + 1, v) is None);
                s2.lemma_walk_stops(level + 1, v);
            }
            if level == 2 {
                let t1 = self.table_at(1, v)->0;
                self.lemma_labels(1, v);
                let x = self.frame_index(t1) * 512 + va_index(1, v);
                assert(self.frame_index(t1) != k);
                assert(x < self.mem@.len() && x != k * 512 + j) by (nonlinear_arith)
                    requires
                        x == self.frame_index(t1) * 512 + va_index(1, v),
                        0 <= self.frame_index(t1) < self.nframes(),
                        self.frame_index(t1) != k,
                        va_index(1, v) < 512,
                        0 <= j < 512,
                        self.mem@.len() == 512 * self.nframes();
                assert(s2.entry(t1, va_index(1, v)) == self.entry(t1, va_index(1, v)));
            } else if level == 3 {
                let t1 = self.table_at(1, v)->0;
                let t2 = self.table_at(2, v)->0;
                self.lemma_labels(1, v);
                self.lemma_labels(2, v);
                let x1 = self.frame_index(t1) * 512 + va_index(1, v);
                let x2 = self.frame_index(t2) * 512 + va_index(2, v);
                assert(x1 < self.mem@.len() && x1 != k * 512 + j) by (nonlinear_arith)
                    requires
                        x1 == self.frame_index(t1) * 512 + va_index(1, v),
                        0 <= self.frame_index(t1) < self.nframes(),
                        self.frame_index(t1) != k,
                        va_index(1, v) < 512,
                        0 <= j < 512,
                        self.mem@.len() == 512 * self.nframes();
                assert(x2 < self.mem@.len() && x2 != k * 512 + j) by (nonlinear_arith)
                    requires
                        x2 == self.frame_index(t2) * 512 + va_index(2, v),
                        0 <= self.frame_index(t2) < self.nframes(),
                        self.frame_index(t2) != k,
                        va_index(2, v) < 512,
                        0 <= j < 512,
                        self.mem@.len() == 512 * self.nframes();
                assert(s2.entry(t1, va_index(1, v)) == self.entry(t1, va_index(1, v)));
                assert(s2.entry(t2, va_index(2, v)) == self.entry(t2, va_index(2, v)));
            }
        } else {
            assert forall|l: nat| l <= 3 implies !#[trigger] self.reads_slot(v, l, k, j) by {
                if self.reads_slot(v, l, k, j) {
                    self.lemma_reads_level(v, l, k, j);
                    lemma_index_prefix(v);
                }
            }
            self.lemma_agree_leaf(s2, k, j, v);
        }
    }

    /// Map the 4 KiB page of `va` to the page of `pa` with `attr_bits`,
    /// creating the L1, L2 and L3 tables on the way where they are missing.
    /// The walk of `va` must not end in a block: that is a conflict in the
    /// caller's logic and is outside the contract.
    #[verifier::spinoff_prover]
    #[verifier::rlimit(20)]
    fn map_page(&mut self, va: u64, pa: u64, attr_bits: u64)
        requires
            old(self).wf(),
            old(self).spec_root() != 0,
            attr_bits & ATTR_BITS == attr_bits,
            old(self).leaf(va) matches Some((_, l)) ==> l == 3,
            old(self).free_frames() >= old(self).missing_tables(va, 3),
        ensures
            final(self).base == old(self).base,
            final(self).wf(),
            final(self).spec_root() == old(self).spec_root(),
            final(self).frames.region_start() == old(self).frames.region_start(),
            final(self).free_frames() + old(self).missing_tables(va, 3) == old(self).free_frames(),
            forall|v: u64| #[trigger] final(self).leaf(v) == if va_prefix(4, v) == va_prefix(4, va) {
                Some((page_desc(pa, attr_bits), 3nat))
            } else {
                old(self).leaf(v)
            },
            forall|m: nat, v: u64| m <= 3 && old(self).table_at(m, v) is Some
                ==> #[trigger] final(self).table_at(m, v) == old(self).table_at(m, v),
            forall|m: nat, v: u64| m <= 3 && #[trigger] final(self).table_at(m, v) is Some && old(self).table_at(m, v) is None
                ==> va_prefix(m, v) == va_prefix(m, va),
            forall|m: nat| m <= 3 ==> #[trigger] final(self).table_at(m, va) is Some,
    {
        let ghost s0 = *self;
        proof {
            lemma_type_bits();
            lemma_index_prefix(va);
            s0.lemma_frame_arith();
            s0.lemma_labels(0, va);
            let k0 = s0.frame_index(s0.root);
            assert(s0.entry_ok(k0, va_index(0, va) as int));
            assert(s0.missing_tables(va, 3) == s0.missing_tables(va, 2) + if s0.table_at(3, va) is None { 1nat } else { 0nat });
            assert(s0.missing_tables(va, 2) == s0.missing_tables(va, 1) + if s0.table_at(2, va) is None { 1nat } else { 0nat });
            assert(s0.missing_tables(va, 1) == s0.missing_tables(va, 0) + if s0.table_at(1, va) is None { 1nat } else { 0nat });
        }
        let root = self.root;
        let l1 = self.get_or_create(root, (va >> 39u64) & 0x1ff, Ghost(va), Ghost(0));
        let ghost s1 = *self;
        proof {
            assert(s1.leaf(va) == s0.leaf(va));
            assert(s1.table_at(2, va) == s0.table_at(2, va));
            assert(s1.table_at(3, va) == s0.table_at(3, va));
        }
        let l2 = self.get_or_create(l1, (va >> 30u64) & 0x1ff, Ghost(va), Ghost(1));
        let ghost s2 = *self;
        proof {
            assert(s2.leaf(va) == s0.leaf(va));
            assert(s2.table_at(3, va) == s0.table_at(3, va));
            assert(s2.table_at(1, va) == Some(l1));
            assert(s2.table_at(2, va) == Some(l2));
        }
        let l3 = self.get_or_create(l2, (va >> 21u64) & 0x1ff, Ghost(va), Ghost(2));
        let ghost s3 = *self;
        proof {
            assert(s3.leaf(va) == s0.leaf(va));
            assert(s3.table_at(1, va) == Some(l1));
            assert(s3.table_at(2, va) == Some(l2));
            assert(s3.table_at(3, va) == Some(l3));
            s3.lemma_labels(3, va);
            lemma_page_desc(pa, attr_bits);
        }
        let desc = (pa & PA_MASK) | PAGE_DESC | attr_bits;
        self.write_entry(l3, (va >> 12u64) & 0x1ff, desc);
        proof {
            let s4 = *self;
            s3.lemma_frame_arith();
            assert(s4.entry(l3, va_index(3, va)) == desc) by {
                assert(s4.frame_index(l3) == s3.frame_index(l3));
            }
            assert forall|v: u64| #[trigger] s4.leaf(v) == if va_prefix(4, v) == va_prefix(4, va) {
                Some((page_desc(pa, attr_bits), 3nat))
            } else {
                s0.leaf(v)
            } by {
                s3.lemma_write_leaf(&s4, l3, 3, va_index(3, va) as int, desc, v, va);
            }
            assert forall|m: nat, v: u64| m <= 3 implies #[trigger] s4.table_at(m, v) == s3.table_at(m, v) by {
                s3.lemma_write_leaf(&s4, l3, 3, va_index(3, va) as int, desc, v, va);
            }
        }
    }

    /// Map the 2 MiB block of `va` to the block of `pa` with `attr_bits`,
    /// creating the L1 and L2 tables on the way where they are missing. The
    /// walk of `va` must not end in a 1 GiB block.
    #[verifier::spinoff_prover]
    #[verifier::rlimit(20)]
    fn map_block_2m(&mut self, va: u64, pa: u64, attr_bits: u64)
        requires
            old(self).wf(),
            old(self).spec_root() != 0,
            attr_bits & ATTR_BITS == attr_bits,
            old(self).leaf(va) matches Some((_, l)) ==> l >= 2,
            old(self).free_frames() >= old(self).missing_tables(va, 2),
        ensures
            final(self).base == old(self).base,
            final(self).wf(),
            final(self).spec_root() == old(self).spec_root(),
            final(self).frames.region_start() == old(self).frames.region_start(),
            final(self).free_frames() + old(self).missing_tables(va, 2) == old(self).free_frames(),
            forall|v: u64| #[trigger] final(self).leaf(v) == if va_prefix(3, v) == va_prefix(3, va) {
                Some((block_2m_desc(pa, attr_bits), 2nat))
            } else {
                old(self).leaf(v)
            },
            forall|m: nat, v: u64| m <= 3 && old(self).table_at(m, v) is Some && !(m == 3 && va_prefix(3, v) == va_prefix(3, va))
                ==> #[trigger] final(self).table_at(m, v) == old(self).table_at(m, v),
            forall|m: nat, v: u64| m <= 3 && #[trigger] final(self).table_at(m, v) is Some && old(self).table_at(m, v) is None
                ==> m <= 2 && va_prefix(m, v) == va_prefix(m, va),
            forall|v: u64| va_prefix(3, v) == va_prefix(3, va) ==> #[trigger] final(self).table_at(3, v) is None,
            forall|m: nat| m <= 2 ==> #[trigger] final(self).table_at(m, va) is Some,
    {
        let ghost s0 = *self;
        proof {
            lemma_type_bits();
            lemma_index_prefix(va);
            s0.lemma_frame_arith();
            s0.lemma_labels(0, va);
            let k0 = s0.frame_index(s0.root);
            assert(s0.entry_ok(k0, va_index(0, va) as int));
            assert(s0.missing_tables(va, 2) == s0.missing_tables(va, 1) + if s0.table_at(2, va) is None { 1nat } else { 0nat });
            assert(s0.missing_tables(va, 1) == s0.missing_tables(va, 0) + if s0.table_at(1, va) is None { 1nat } else { 0nat });
        }
        let root = self.root;
        let l1 = self.get_or_create(root, (va >> 39u64) & 0x1ff, Ghost(va), Ghost(0));
        let ghost s1 = *self;
        proof {
            assert(s1.leaf(va) == s0.leaf(va));
            assert(s1.table_at(2, va) == s0.table_at(2, va));
        }
        let l2 = self.get_or_create(l1, (va >> 30u64) & 0x1ff, Ghost(va), Ghost(1));
        let ghost s2 = *self;
        proof {
            assert(s2.table_at(1, va) == Some(l1));
            assert(s2.table_at(2, va) == Some(l2));
            s2.lemma_labels(2, va);
            lemma_block_2m_desc(pa, attr_bits);
        }
        let desc = (pa & PA_MASK_2M) | BLOCK_DESC | attr_bits;
        self.write_entry(l2, (va >> 21u64) & 0x1ff, desc);
        proof {
            let s3 = *self;
            s2.lemma_frame_arith();
            assert(s3.entry(l2, va_index(2, va)) == desc) by {
                assert(s3.frame_index(l2) == s2.frame_index(l2));
            }
            assert forall|v: u64| #[trigger] s3.leaf(v) == if va_prefix(3, v) == va_prefix(3, va) {
                Some((block_2m_desc(pa, attr_bits), 2nat))
            } else {
                s0.leaf(v)
            } by {
                s2.lemma_write_leaf(&s3, l2, 2, va_index(2, va) as int, desc, v, va);
            }
            assert forall|m: nat, v: u64| m <= 3 implies #[trigger] s3.table_at(m, v) == if m == 3 && va_prefix(3, v) == va_prefix(3, va) {
                None
            } else {
                s2.table_at(m, v)
            } by {
                s2.lemma_write_leaf(&s3, l2, 2, va_index(2, va) as int, desc, v, va);
            }
        }
    }

    /// Map the 1 GiB block of `va` to the block of `pa` with `attr_bits`,
    /// creating the L1 table on the way if it is missing.
    #[verifier::spinoff_prover]
    #[verifier::rlimit(20)]
    fn map_block_1g(&mut self, va: u64, pa: u64, attr_bits: u64)
        requires
            old(self).wf(),
            old(self).spec_root() != 0,
            attr_bits & ATTR_BITS == attr_bits,
            old(self).free_frames() >= old(self).missing_tables(va, 1),
        ensures
            final(self).base == old(self).base,
            final(self).wf(),
            final(self).spec_root() == old(self).spec_root(),
            final(self).frames.region_start() == old(self).frames.region_start(),
            final(self).free_frames() + old(self).missing_tables(va, 1) == old(self).free_frames(),
            forall|v: u64| #[trigger] final(self).leaf(v) == if va_prefix(2, v) == va_prefix(2, va) {
                Some((block_1g_desc(pa, attr_bits), 1nat))
            } else {
                old(self).leaf(v)
            },
            forall|m: nat, v: u64| m <= 3 && old(self).table_at(m, v) is Some && !(m >= 2 && va_prefix(2, v) == va_prefix(2, va))
                ==> #[trigger] final(self).table_at(m, v) == old(self).table_at(m, v),
            forall|m: nat, v: u64| m <= 3 && #[trigger] final(self).table_at(m, v) is Some && old(self).table_at(m, v) is None
                ==> m <= 1 && va_prefix(m, v) == va_prefix(m, va),
            forall|m: nat, v: u64| 2 <= m <= 3 && va_prefix(2, v) == va_prefix(2, va) ==> #[trigger] final(self).table_at(m, v) is None,
            forall|m: nat| m <= 1 ==> #[trigger] final(self).table_at(m, va) is Some,
    {
        let ghost s0 = *self;
        proof {
            lemma_type_bits();
            lemma_index_prefix(va);
            s0.lemma_frame_arith();
            s0.lemma_labels(0, va);
            let k0 = s0.frame_index(s0.root);
            assert(s0.entry_ok(k0, va_index(0, va) as int));
            assert(s0.missing_tables(va, 1) == s0.missing_tables(va, 0) + if s0.table_at(1, va) is None { 1nat } else { 0nat });
        }
        let root = self.root;
        let l1 = self.get_or_create(root, (va >> 39u64) & 0x1ff, Ghost(va), Ghost(0));
        let ghost s1 = *self;
        proof {
            assert(s1.table_at(1, va) == Some(l1));
            s1.lemma_labels(1, va);
            assert(va_index(1, va) < 512);
            lemma_block_1g_desc(pa, attr_bits);
        }
        let desc = (pa & PA_MASK_1G) | BLOCK_DESC | attr_bits;
        self.write_entry(l1, (va >> 30u64) & 0x1ff, desc);
        proof {
            let s2 = *self;
            s1.lemma_frame_arith();
            assert(s2.entry(l1, va_index(1, va)) == desc) by {
                assert(s2.frame_index(l1) == s1.frame_index(l1));
            }
            assert forall|v: u64| #[trigger] s2.leaf(v) == if va_prefix(2, v) == va_prefix(2, va) {
                Some((block_1g_desc(pa, attr_bits), 1nat))
            } else {
                s0.leaf(v)
            } by {
                s1.lemma_write_leaf(&s2, l1, 1, va_index(1, va) as int, desc, v, va);
            }
            assert forall|m: nat, v: u64| m <= 3 implies #[trigger] s2.table_at(m, v) == if m >= 2 && va_prefix(2, v) == va_prefix(2, va) {
                None
            } else {
                s1.table_at(m, v)
            } by {
                s1.lemma_write_leaf(&s2, l1, 1, va_index(1, va) as int, desc, v, va);
            }
        }
    }

    /// L3 tables that the identity mapping of `l` still takes when it has
    /// reached `c`: one for the region of `c` if pages remain there and it
    /// has none yet, and one for every later region with pages.
    closed spec fn l3_tables_needed(&self, l: KernelLayout, c: u64) -> int {
        if c < round_up_2m(l.kernel_end) {
            (if region_has_pages(l, c as int, c as int / 0x20_0000) && self.table_at(3, c) is None {
                1int
            } else {
                0int
            }) + regions_with_pages(l, c as int, c as int / 0x20_0000 + 1, round_up_2m(l.kernel_end) / 0x20_0000)
        } else {
            0
        }
    }

    /// Frames left over once the identity mapping of `l`, having reached
    /// `c`, is complete.
    closed spec fn frame_balance(&self, l: KernelLayout, c: u64) -> int {
        self.free_frames() - self.l2_tables_needed(l, c) - self.l3_tables_needed(l, c)
    }

    /// The L2 table for RAM, if it is missing and RAM at or above `c` is
    /// still to be mapped.
    closed spec fn l2_tables_needed(&self, l: KernelLayout, c: u64) -> int {
        if self.table_at(2, c) is None && ram_mapped_from(l, c as int) {
            1
        } else {
            0
        }
    }

    /// While the identity mapping of `l` has reached `c`: the L1 table
    /// covering RAM is present, no L3 table exists past the region of `c`,
    /// and enough frames are left for the L2 table and every L3 table still
    /// needed.
    closed spec fn enough_frames(&self, l: KernelLayout, c: u64) -> bool {
        &&& self.table_at(1, c) is Some
        &&& forall|v: u64| (c / 0x20_0000 + 1) * 0x20_0000 <= v < RAM_END ==> #[trigger] self.table_at(3, v) is None
        &&& self.free_frames() >= self.l2_tables_needed(l, c) + self.l3_tables_needed(l, c)
    }

    /// All of the RAM window shares its L1 and L2 tables.
    proof fn lemma_ram_window(&self, c: u64, v: u64)
        requires
            RAM_START <= c <= RAM_END,
            RAM_START <= v <= RAM_END,
        ensures
            self.table_at(1, c) == self.table_at(1, v),
            self.table_at(2, c) == self.table_at(2, v),
    {
        lemma_prefix_div(c);
        lemma_prefix_div(v);
        self.lemma_prefix_dep(1, c, v);
        self.lemma_prefix_dep(2, c, v);
    }

    /// Moving the mapping's progress from `c` to `c2` over addresses it
    /// leaves unmapped keeps enough frames, and the same frames to spare:
    /// each stretch mapped with pages lies wholly below `c` or wholly at or
    /// above `c2`.
    #[verifier::spinoff_prover]
    #[verifier::rlimit(20)]
    proof fn lemma_enough_frames_skip(&self, l: KernelLayout, c: u64, c2: u64)
        requires
            l.wf(),
            RAM_START <= c <= c2 <= l.kernel_end,
            l.text_end <= c || RAM_START >= c2,
            l.rodata_end <= c || l.rodata_start >= c2,
            l.data_start >= c2,
            self.enough_frames(l, c),
        ensures
            self.enough_frames(l, c2),
            self.frame_balance(l, c2) == self.frame_balance(l, c),
    {
        let r = round_up_2m(l.kernel_end);
        let hi = r / 0x20_0000;
        self.lemma_ram_window(c, c2);
        lemma_prefix_div(c);
        lemma_prefix_div(c2);
        assert forall|reg: int| #[trigger] region_has_pages(l, c as int, reg) == region_has_pages(l, c2 as int, reg) by {
        }
        let rg = c as int / 0x20_0000;
        let rg2 = c2 as int / 0x20_0000;
        assert(rg * 0x20_0000 <= c < (rg + 1) * 0x20_0000) by (nonlinear_arith)
            requires rg == c as int / 0x20_0000;
        if c < r && (rg2 != rg || c2 >= r) {
            // Nothing at or above `c` in the region of `c` has pages.
            assert(!region_has_pages(l, c as int, rg)) by {
                assert((rg + 1) * 0x20_0000 <= c2) by (nonlinear_arith)
                    requires rg2 != rg || c2 >= r, rg2 == c2 as int / 0x20_0000, rg == c as int / 0x20_0000, c <= c2,
                        c < r, r % 0x20_0000 == 0, rg * 0x20_0000 <= c < (rg + 1) * 0x20_0000;
            }
        }
        if c2 < r {
            if rg2 == rg {
                self.lemma_prefix_dep(3, c, c2);
                lemma_regions_congruent(l, c as int, c2 as int, rg + 1, hi);
            } else {
                assert((c / 0x20_0000 + 1) * 0x20_0000 <= c2) by (nonlinear_arith)
                    requires c2 / 0x20_0000 > c / 0x20_0000;
                assert(self.table_at(3, c2) is None);
                lemma_regions_congruent(l, c as int, c2 as int, rg2, hi);
                assert(rg2 < hi) by (nonlinear_arith)
                    requires c2 < r, rg2 == c2 as int / 0x20_0000, hi == r / 0x20_0000, r % 0x20_0000 == 0;
                assert(rg + 1 <= rg2) by (nonlinear_arith)
                    requires c <= c2, rg2 != rg, rg2 == c2 as int / 0x20_0000, rg == c as int / 0x20_0000;
                assert(rg2 * 0x20_0000 <= c2) by (nonlinear_arith)
                    requires rg2 == c2 as int / 0x20_0000;
                assert forall|reg: int| rg + 1 <= reg < rg2 implies !#[trigger] region_has_pages(l, c as int, reg) by {
                    assert((reg + 1) * 0x20_0000 <= c2) by (nonlinear_arith)
                        requires reg < rg2, rg2 * 0x20_0000 <= c2;
                    assert(c < reg * 0x20_0000) by (nonlinear_arith)
                        requires rg + 1 <= reg, c < (rg + 1) * 0x20_0000;
                }
                lemma_regions_none(l, c as int, rg + 1, rg2);
                lemma_regions_split(l, c as int, rg + 1, rg2, hi);
                assert(regions_with_pages(l, c2 as int, rg2, hi) == (if region_has_pages(l, c2 as int, rg2) {
                    1nat
                } else {
                    0nat
                }) + regions_with_pages(l, c2 as int, rg2 + 1, hi));
            }
        } else if c < r {
            assert forall|reg: int| rg + 1 <= reg implies !#[trigger] region_has_pages(l, c as int, reg) by {
            }
            lemma_regions_none(l, c as int, rg + 1, hi);
        }
        assert forall|v: u64| (c2 / 0x20_0000 + 1) * 0x20_0000 <= v < RAM_END implies #[trigger] self.table_at(3, v) is None by {
            assert((c / 0x20_0000 + 1) * 0x20_0000 <= (c2 / 0x20_0000 + 1) * 0x20_0000) by (nonlinear_arith)
                requires c <= c2;
        }
    }

    /// Map the 4 KiB page at `va` to itself with `attr_bits`, as one step
    /// of the identity mapping of the RAM window.
    #[verifier::spinoff_prover]
    #[verifier::rlimit(20)]
    fn map_identity_page(&mut self, va: u64, attr_bits: u64, layout: Ghost<KernelLayout>, r: Ghost<u64>)
        requires
            old(self).wf(),
            old(self).spec_root() != 0,
            attr_bits & ATTR_BITS == attr_bits,
            va % 4096 == 0,
            RAM_START <= va < r@,
            r@ == round_up_2m(layout@.kernel_end),
            r@ <= RAM_END,
            r@ % 0x20_0000 == 0,
            region_has_pages(layout@, va as int, va as int / 0x20_0000),
            forall|v: u64| va <= v < 0x1_0000_0000_0000 ==> #[trigger] old(self).leaf(v) is None,
            old(self).enough_frames(layout@, va),
        ensures
            final(self).base == old(self).base,
            final(self).wf(),
            final(self).spec_root() == old(self).spec_root(),
            final(self).frames.region_start() == old(self).frames.region_start(),
            final(self).enough_frames(layout@, (va + 4096) as u64),
            final(self).frame_balance(layout@, (va + 4096) as u64) == old(self).frame_balance(layout@, va),
            forall|v: u64| v < 0x1_0000_0000_0000 ==> #[trigger] final(self).leaf(v) == if va <= v < va + 4096 {
                Some((page_desc(v, attr_bits), 3nat))
            } else {
                old(self).leaf(v)
            },
    {
        let ghost s1 = *self;
        proof {
            lemma_prefix_div(va);
            s1.lemma_ram_window(va, RAM_START);
            assert(s1.missing_tables(va, 3) == s1.missing_tables(va, 2) + if s1.table_at(3, va) is None { 1nat } else { 0nat });
            assert(s1.missing_tables(va, 2) == s1.missing_tables(va, 1) + if s1.table_at(2, va) is None { 1nat } else { 0nat });
            assert(s1.missing_tables(va, 1) == s1.missing_tables(va, 0) + if s1.table_at(1, va) is None { 1nat } else { 0nat });
            assert(s1.leaf(va) is None);
        }
        self.map_page(va, va, attr_bits);
        let ghost s2 = *self;
        let ghost next = (va + 4096) as u64;
        proof {
            lemma_prefix_div(next);
            s2.lemma_ram_window(va, next);
            assert forall|v: u64| v < 0x1_0000_0000_0000 implies #[trigger] s2.leaf(v) == if va <= v < va + 4096 {
                Some((page_desc(v, attr_bits), 3nat))
            } else {
                s1.leaf(v)
            } by {
                lemma_prefix_div(v);
                lemma_identity_bits(va, v);
                if va_prefix(4, v) == va_prefix(4, va) {
                    assert(va <= v < next) by (nonlinear_arith)
                        requires v / 4096 == va / 4096, va % 4096 == 0, next == va + 4096;
                } else {
                    assert(!(va <= v < next)) by (nonlinear_arith)
                        requires v / 4096 != va / 4096, va % 4096 == 0, next == va + 4096;
                }
            }
            assert forall|v: u64| (next / 0x20_0000 + 1) * 0x20_0000 <= v < RAM_END implies #[trigger] s2.table_at(3, v) is None by {
                lemma_prefix_div(v);
                assert((va / 0x20_0000 + 1) * 0x20_0000 <= v) by (nonlinear_arith)
                    requires (next / 0x20_0000 + 1) * 0x20_0000 <= v, va < next;
                assert(s1.table_at(3, v) is None);
                if s2.table_at(3, v) is Some {
                    assert(va_prefix(3, v) == va_prefix(3, va));
                    assert(false) by (nonlinear_arith)
                        requires v / 0x20_0000 == va / 0x20_0000, (va / 0x20_0000 + 1) * 0x20_0000 <= v;
                }
            }
            assert(s2.table_at(1, next) is Some);
            assert(s2.table_at(2, va) is Some);
            assert(s2.table_at(3, va) is Some);
            let rg = va as int / 0x20_0000;
            let hi = r@ as int / 0x20_0000;
            if next / 0x20_0000 == rg {
                s2.lemma_prefix_dep(3, va, next);
                lemma_regions_shift(layout@, va as int, next as int, rg + 1, hi);
                assert((rg + 1) * 0x20_0000 >= next) by (nonlinear_arith)
                    requires next / 0x20_0000 == rg, next >= 0;
            } else {
                assert(next / 0x20_0000 == rg + 1) by (nonlinear_arith)
                    requires next == va + 4096, next / 0x20_0000 != rg, rg == va / 0x20_0000;
                assert(next % 0x20_0000 == 0) by (bit_vector)
                    requires
                        va % 4096 == 0,
                        next == va + 4096,
                        va < 0x4800_0000u64,
                        next / 0x20_0000 != va / 0x20_0000;
                assert((rg + 1) * 0x20_0000 == next) by (nonlinear_arith)
                    requires next / 0x20_0000 == rg + 1, next % 0x20_0000 == 0, next >= 0;
                lemma_regions_shift(layout@, va as int, next as int, rg + 1, hi);
                if next < r@ {
                    assert((va / 0x20_0000 + 1) * 0x20_0000 <= next);
                    assert(s1.table_at(3, next) is None);
                    if s2.table_at(3, next) is Some {
                        assert(va_prefix(3, next) == va_prefix(3, va));
                    }
                    assert(rg + 1 < hi) by (nonlinear_arith)
                        requires next < r@, (rg + 1) * 0x20_0000 == next, hi == r@ / 0x20_0000, r@ % 0x20_0000 == 0;
                    assert(regions_with_pages(layout@, next as int, rg + 1, hi) == (if region_has_pages(layout@, next as int, rg + 1) {
                        1nat
                    } else {
                        0nat
                    }) + regions_with_pages(layout@, next as int, rg + 2, hi));
                }
            }
        }
    }

    /// Map `from .. to` one 4 KiB page at a time, each page to itself with
    /// `attr_bits`.
    #[verifier::spinoff_prover]
    #[verifier::rlimit(20)]
    fn map_pages(&mut self, from: u64, to: u64, attr_bits: u64, layout: Ghost<KernelLayout>, r: Ghost<u64>)
        requires
            old(self).wf(),
            old(self).spec_root() != 0,
            attr_bits & ATTR_BITS == attr_bits,
            from % 4096 == 0,
            to % 4096 == 0,
            RAM_START <= from <= to <= r@,
            r@ == round_up_2m(layout@.kernel_end),
            r@ <= RAM_END,
            r@ % 0x20_0000 == 0,
            forall|v: u64| from <= v < to ==> #[trigger] region_has_pages(layout@, v as int, v as int / 0x20_0000),
            forall|v: u64| from <= v < 0x1_0000_0000_0000 ==> #[trigger] old(self).leaf(v) is None,
            old(self).enough_frames(layout@, from),
        ensures
            final(self).base == old(self).base,
            final(self).wf(),
            final(self).spec_root() == old(self).spec_root(),
            final(self).frames.region_start() == old(self).frames.region_start(),
            final(self).enough_frames(layout@, to),
            final(self).frame_balance(layout@, to) == old(self).frame_balance(layout@, from),
            forall|v: u64| v < 0x1_0000_0000_0000 ==> #[trigger] final(self).leaf(v) == if from <= v < to {
                Some((page_desc(v, attr_bits), 3nat))
            } else {
                old(self).leaf(v)
            },
    {
        let ghost s0 = *self;
        let mut va = from;
        while va < to
            invariant
                self.wf(),
                self.spec_root() == s0.spec_root(),
                self.spec_root() != 0,
                self.frames.region_start() == s0.frames.region_start(),
                self.base == s0.base,
                attr_bits & ATTR_BITS == attr_bits,
                from <= va <= to,
                va % 4096 == 0,
                to % 4096 == 0,
                RAM_START <= from,
                to <= r@,
                r@ == round_up_2m(layout@.kernel_end),
                r@ <= RAM_END,
                r@ % 0x20_0000 == 0,
                forall|v: u64| from <= v < to ==> #[trigger] region_has_pages(layout@, v as int, v as int / 0x20_0000),
                self.enough_frames(layout@, va),
                self.frame_balance(layout@, va) == s0.frame_balance(layout@, from),
                forall|v: u64| v < 0x1_0000_0000_0000 ==> #[trigger] self.leaf(v) == if from <= v < va {
                    Some((page_desc(v, attr_bits), 3nat))
                } else {
                    s0.leaf(v)
                },
                forall|v: u64| from <= v < 0x1_0000_0000_0000 ==> #[trigger] s0.leaf(v) is None,
            decreases to - va,
        {
            let ghost s1 = *self;
            proof {
                assert(region_has_pages(layout@, va as int, va as int / 0x20_0000));
                assert forall|v: u64| va <= v < 0x1_0000_0000_0000 implies #[trigger] s1.leaf(v) is None by {
                    assert(s0.leaf(v) is None);
                }
            }
            self.map_identity_page(va, attr_bits, layout, r);
            proof {
                let s2 = *self;
                assert forall|v: u64| v < 0x1_0000_0000_0000 implies #[trigger] s2.leaf(v) == if from <= v < va + 4096 {
                    Some((page_desc(v, attr_bits), 3nat))
                } else {
                    s0.leaf(v)
                } by {
                    assert(s1.leaf(v) == if from <= v < va {
                        Some((page_desc(v, attr_bits), 3nat))
                    } else {
                        s0.leaf(v)
                    });
                }
            }
            va = va + PAGE_SIZE;
        }
    }

    /// Address of the frame the next new table is placed in.
    pub closed spec fn next_table_frame(&self) -> nat {
        self.frames.next_frame()
    }

    /// The allocator the tables take their frames from.
    pub closed spec fn allocator(&self) -> FrameAllocator {
        self.frames
    }

    /// Page tables that draw their frames from `frames`; none are built yet.
    pub fn new(frames: FrameAllocator) -> (pt: PageTables)
        ensures
            pt.wf(),
            pt@.root == 0,
            pt@.base == frames.next_frame(),
            pt@.words.len() == 0,
            pt.allocator() == frames,
            pt.next_table_frame() == frames.next_frame(),
            forall|va: u64| #[trigger] pt@.walk(va) is None,
    {
        let base = frames.next_frame_exec();
        proof {
            use_type_invariant(&frames);
            frames.lemma_wf_facts();
        }
        let pt = PageTables {
            frames,
            base,
            mem: Vec::new(),
            root: 0,
            levels: Ghost(Seq::empty()),
            prefixes: Ghost(Seq::empty()),
        };
        proof {
            assert forall|va: u64| #[trigger] pt@.walk(va) is None by {
                assert(pt@.table_at(0, va) is None);
                assert(pt@.table_at(1, va) is None);
            }
        }
        pt
    }

    /// `(used frames, total frames)` of the allocator, page tables included.
    pub fn stats(&self) -> (r: (u64, u64))
        ensures
            r.0 == self.allocator().used_frames(),
            r.1 == self.allocator().total_frames(),
    {
        self.frames.stats()
    }

    /// Physical address of the first frame held for tables.
    pub fn tables_base(&self) -> (b: u64)
        ensures
            b == self@.base,
    {
        self.base
    }

    /// The contents of every frame held for tables, 512 entries each, in
    /// allocation order: frame `k` belongs at `tables_base() + 4096 * k`.
    /// These are the entries the walk reads.
    pub fn table_words(&self) -> (w: &Vec<u64>)
        ensures
            w@ == self@.words,
    {
        &self.mem
    }

    /// The value for TTBR0_EL1: the physical address of the L0 table, 0
    /// before the tables are built.
    pub fn root(&self) -> (r: u64)
        ensures
            r == self@.root,
    {
        self.root
    }

    /// Every address below `c` is mapped as the identity mapping of
    /// `layout` maps it, and nothing at or above `c` is mapped yet.
    closed spec fn mapped_below(&self, layout: KernelLayout, c: u64) -> bool {
        forall|v: u64| v < 0x1_0000_0000_0000 ==> #[trigger] self.leaf(v) == if v < c {
            identity_leaf(layout, v)
        } else {
            None
        }
    }

    /// Take the L0 table and map the MMIO gigabyte with one device block.
    #[verifier::spinoff_prover]
    #[verifier::rlimit(20)]
    fn start_identity(&mut self, layout: Ghost<KernelLayout>, r: Ghost<u64>) -> (l0_pa: u64)
        requires
            old(self).wf(),
            layout@.wf(),
            old(self).next_table_frame() >= layout@.kernel_end,
            old(self).allocator().free_frames() >= identity_frames_needed(layout@),
            r@ == round_up_2m(layout@.kernel_end),
            r@ % 0x20_0000 == 0,
            layout@.kernel_end <= r@ <= RAM_END,
        ensures
            final(self).base == old(self).base,
            final(self).wf(),
            l0_pa == final(self).spec_root(),
            l0_pa == old(self).next_table_frame(),
            l0_pa != 0,
            final(self).allocator().region_start() == old(self).allocator().region_start(),
            final(self).mapped_below(layout@, RAM_START),
            final(self).enough_frames(layout@, RAM_START),
            final(self).frame_balance(layout@, RAM_START) == old(self).allocator().free_frames() - identity_frames_needed(layout@),
    {
        let ghost s0 = *self;
        proof {
            s0.frames.lemma_wf_facts();
        }
        let l0_pa = self.push_table(Ghost(0), Ghost(0));
        proof {
            assert(self.levels@[self.frame_index(l0_pa)] == 0);
            assert(self.prefixes@[self.frame_index(l0_pa)] == 0);
        }
        let ghost s_pre = *self;
        self.root = l0_pa;
        let ghost s1 = *self;
        proof {
            assert forall|k: int, j: int| 0 <= k < s1.nframes() && 0 <= j < 512 implies #[trigger] s1.entry_ok(k, j) by {
                assert(s_pre.entry_ok(k, j));
            }
            lemma_type_bits();
            s1.lemma_frame_arith();
            assert(l0_pa != 0);
            assert forall|v: u64| #[trigger] s1.table_at(1, v) is None by {
                lemma_index_prefix(v);
                assert(va_index(0, v) < 512);
                assert(s_pre.entry(l0_pa, va_index(0, v)) == 0);
                assert(s1.entry(l0_pa, va_index(0, v)) == 0);
                assert(s1.table_at(0, v) == Some(l0_pa));
            }
            assert forall|m: nat, v: u64| 1 <= m <= 3 implies #[trigger] s1.table_at(m, v) is None by {
                s1.lemma_walk_stops(1, v);
            }
            assert(s1.missing_tables(0, 1) == 1) by {
                assert(s1.missing_tables(0, 0) == 0);
                assert(s1.table_at(1, 0) is None);
            }
        }
        let dev = device_rw();
        self.map_block_1g(0, 0, dev);
        let ghost s2 = *self;
        proof {
            lemma_prefix_div(0);
            assert forall|v: u64| v < 0x1_0000_0000_0000 implies #[trigger] s2.leaf(v) == if v < RAM_START {
                identity_leaf(layout@, v)
            } else {
                None
            } by {
                lemma_prefix_div(v);
                assert(s1.table_at(1, v) is None);
                assert(s1.leaf(v) is None);
            }
            assert(s2.table_at(1, RAM_START) is Some) by {
                lemma_prefix_div(RAM_START);
                s2.lemma_prefix_dep(1, 0, RAM_START);
            }
            assert(s2.table_at(2, RAM_START) is None);
            assert(s2.table_at(3, RAM_START) is None);
            assert forall|v: u64| (RAM_START / 0x20_0000 + 1) * 0x20_0000 <= v < RAM_END implies #[trigger] s2.table_at(3, v) is None by {
            }
            let hi = r@ as int / 0x20_0000;
            assert(RAM_START as int / 0x20_0000 == 512);
            if RAM_START < r@ {
                assert(512 < hi) by (nonlinear_arith)
                    requires RAM_START < r@, hi == r@ as int / 0x20_0000, r@ % 0x20_0000 == 0;
                assert(regions_with_pages(layout@, RAM_START as int, 512, hi) == (if region_has_pages(layout@, RAM_START as int, 512) {
                    1nat
                } else {
                    0nat
                }) + regions_with_pages(layout@, RAM_START as int, 513, hi));
            } else {
                assert(hi == 512);
            }
            assert(s2.enough_frames(layout@, RAM_START));
        }
        l0_pa
    }

    /// Map the 2 MiB block at `va` to itself, read-write, as one step of the
    /// identity mapping of the RAM past the image.
    #[verifier::spinoff_prover]
    #[verifier::rlimit(20)]
    fn map_identity_block(&mut self, va: u64, rw: u64, layout: Ghost<KernelLayout>, r: Ghost<u64>)
        requires
            old(self).wf(),
            old(self).spec_root() != 0,
            rw == spec_normal_rw(),
            rw & ATTR_BITS == rw,
            layout@.wf(),
            r@ == round_up_2m(layout@.kernel_end),
            r@ % 0x20_0000 == 0,
            layout@.kernel_end <= r@ <= RAM_END,
            layout@.kernel_end <= va,
            va % 0x20_0000 == 0,
            va + 0x20_0000 <= RAM_END,
            old(self).mapped_below(layout@, va),
            old(self).enough_frames(layout@, va),
        ensures
            final(self).base == old(self).base,
            final(self).wf(),
            final(self).spec_root() == old(self).spec_root(),
            final(self).frames.region_start() == old(self).frames.region_start(),
            final(self).mapped_below(layout@, (va + 0x20_0000) as u64),
            final(self).enough_frames(layout@, (va + 0x20_0000) as u64),
            final(self).frame_balance(layout@, (va + 0x20_0000) as u64) == old(self).frame_balance(layout@, va),
    {
        let ghost s1 = *self;
        let ghost kernel_end = layout@.kernel_end;
        proof {
            assert(va >= r@) by (nonlinear_arith)
                requires
                    va % 0x20_0000 == 0,
                    va >= kernel_end,
                    r@ == round_up_2m(kernel_end);
            lemma_prefix_div(va);
            s1.lemma_ram_window(va, RAM_START);
            assert(s1.missing_tables(va, 2) == s1.missing_tables(va, 1) + if s1.table_at(2, va) is None { 1nat } else { 0nat });
            assert(s1.missing_tables(va, 1) == s1.missing_tables(va, 0) + if s1.table_at(1, va) is None { 1nat } else { 0nat });
            assert(s1.leaf(va) is None);
        }
        self.map_block_2m(va, va, rw);
        let ghost s2 = *self;
        let ghost next = (va + 0x20_0000) as u64;
        proof {
            lemma_prefix_div(next);
            s2.lemma_ram_window(va, next);
            assert forall|v: u64| v < 0x1_0000_0000_0000 implies #[trigger] s2.leaf(v) == if v < next {
                identity_leaf(layout@, v)
            } else {
                None
            } by {
                lemma_prefix_div(v);
                lemma_identity_bits(va, v);
                if va_prefix(3, v) == va_prefix(3, va) {
                    assert(va <= v < next) by (nonlinear_arith)
                        requires v / 0x20_0000 == va / 0x20_0000, va % 0x20_0000 == 0, next == va + 0x20_0000;
                } else {
                    assert(!(va <= v < next)) by (nonlinear_arith)
                        requires v / 0x20_0000 != va / 0x20_0000, va % 0x20_0000 == 0, next == va + 0x20_0000;
                }
            }
            assert forall|v: u64| (next / 0x20_0000 + 1) * 0x20_0000 <= v < RAM_END implies #[trigger] s2.table_at(3, v) is None by {
                assert((va / 0x20_0000 + 1) * 0x20_0000 <= v) by (nonlinear_arith)
                    requires (next / 0x20_0000 + 1) * 0x20_0000 <= v, va < next;
                assert(s1.table_at(3, v) is None);
            }
            assert(s2.table_at(1, next) is Some);
            assert(s2.table_at(2, va) is Some);
            assert(next % 0x20_0000 == 0);
        }
    }

    /// Map the 4 KiB page at `va`, past the image but below the first 2 MiB
    /// boundary, to itself, read-write.
    #[verifier::spinoff_prover]
    #[verifier::rlimit(20)]
    fn map_identity_tail_page(&mut self, va: u64, rw: u64, layout: Ghost<KernelLayout>, r: Ghost<u64>)
        requires
            old(self).wf(),
            old(self).spec_root() != 0,
            rw == spec_normal_rw(),
            rw & ATTR_BITS == rw,
            layout@.wf(),
            r@ == round_up_2m(layout@.kernel_end),
            r@ % 0x20_0000 == 0,
            layout@.kernel_end <= r@ <= RAM_END,
            layout@.kernel_end <= va < r@,
            va % 4096 == 0,
            old(self).mapped_below(layout@, va),
            old(self).enough_frames(layout@, va),
        ensures
            final(self).base == old(self).base,
            final(self).wf(),
            final(self).spec_root() == old(self).spec_root(),
            final(self).frames.region_start() == old(self).frames.region_start(),
            final(self).mapped_below(layout@, (va + 4096) as u64),
            final(self).enough_frames(layout@, (va + 4096) as u64),
            final(self).frame_balance(layout@, (va + 4096) as u64) == old(self).frame_balance(layout@, va),
    {
        let ghost s1 = *self;
        proof {
            assert forall|v: u64| va <= v < 0x1_0000_0000_0000 implies #[trigger] s1.leaf(v) is None by {
            }
        }
        self.map_identity_page(va, rw, layout, r);
        let ghost s2 = *self;
        proof {
            assert forall|v: u64| v < 0x1_0000_0000_0000 implies #[trigger] s2.leaf(v) == if v < va + 4096 {
                identity_leaf(layout@, v)
            } else {
                None
            } by {
                assert(s1.leaf(v) == if v < va { identity_leaf(layout@, v) } else { None });
            }
        }
    }

    /// Map from `kernel_end` to the end of RAM: 4 KiB pages up to the first
    /// 2 MiB boundary, 2 MiB blocks from there.
    #[verifier::spinoff_prover]
    #[verifier::rlimit(20)]
    fn map_tail(&mut self, kernel_end: u64, layout: Ghost<KernelLayout>, r: Ghost<u64>)
        requires
            old(self).wf(),
            old(self).spec_root() != 0,
            layout@.wf(),
            kernel_end == layout@.kernel_end,
            r@ == round_up_2m(layout@.kernel_end),
            r@ % 0x20_0000 == 0,
            layout@.kernel_end <= r@ <= RAM_END,
            old(self).mapped_below(layout@, kernel_end),
            old(self).enough_frames(layout@, kernel_end),
        ensures
            final(self).base == old(self).base,
            final(self).wf(),
            final(self).spec_root() == old(self).spec_root(),
            final(self).allocator().region_start() == old(self).allocator().region_start(),
            final(self).mapped_below(layout@, RAM_END),
            final(self).frame_balance(layout@, RAM_END) == old(self).frame_balance(layout@, kernel_end),
    {
        let ghost s0 = *self;
        let rw = normal_rw();
        let mut va = kernel_end;
        proof {
            assert(kernel_end <= r@);
        }
        while va < RAM_END
            invariant
                self.wf(),
                self.spec_root() == s0.spec_root(),
                self.spec_root() != 0,
                self.frames.region_start() == s0.frames.region_start(),
                self.base == s0.base,
                rw == spec_normal_rw(),
                rw & ATTR_BITS == rw,
                layout@.wf(),
                kernel_end == layout@.kernel_end,
                r@ == round_up_2m(layout@.kernel_end),
                r@ % 0x20_0000 == 0,
                layout@.kernel_end <= r@ <= RAM_END,
                kernel_end <= va <= RAM_END,
                va % 4096 == 0,
                va <= r@ || va % 0x20_0000 == 0,
                self.mapped_below(layout@, va),
                self.enough_frames(layout@, va),
                self.frame_balance(layout@, va) == s0.frame_balance(layout@, kernel_end),
            decreases RAM_END - va,
        {
            let ghost s1 = *self;
            if va % BLOCK_2M == 0 && va + BLOCK_2M <= RAM_END {
                self.map_identity_block(va, rw, layout, r);
                let next = va + BLOCK_2M;
                va = next;
            } else {
                proof {
                    assert(va < r@) by (nonlinear_arith)
                        requires
                            va <= r@ || va % 0x20_0000 == 0,
                            !(va % 0x20_0000 == 0 && va + 0x20_0000 <= RAM_END),
                            va < RAM_END,
                            r@ % 0x20_0000 == 0,
                            RAM_END % 0x20_0000 == 0;
                }
                self.map_identity_tail_page(va, rw, layout, r);
                va = va + PAGE_SIZE;
            }
        }
    }

    /// Build the identity mapping (VA == PA) of the MMIO gigabyte and of RAM
    /// and return the value for TTBR0_EL1 (the L0 table's physical address).
    /// The MMIO gigabyte (PL011 UART included) is one 1 GiB device block;
    /// RAM below the image, `.text`, `.rodata` and the data are mapped with
    /// 4 KiB pages; from the end of the image, 2 MiB blocks where they fit,
    /// 4 KiB pages for the unaligned start. The tables take exactly
    /// `identity_frames_needed(layout)` frames from the allocator, which
    /// hands them out from the end of the image upward; running out of
    /// frames is outside the contract.
    #[verifier::spinoff_prover]
    #[verifier::rlimit(20)]
    pub fn init(&mut self, layout: &KernelLayout) -> (ttbr0: u64)
        requires
            old(self).wf(),
            layout.wf(),
            old(self).next_table_frame() >= layout.kernel_end,
            old(self).allocator().free_frames() >= identity_frames_needed(*layout),
        ensures
            final(self).wf(),
            ttbr0 == final(self)@.root,
            ttbr0 == old(self).next_table_frame(),
            final(self)@.base == old(self)@.base,
            final(self)@.words.len() == old(self)@.words.len() + 512 * identity_frames_needed(*layout),
            final(self).allocator().region_start() == old(self).allocator().region_start(),
            forall|va: u64| va < 0x1_0000_0000_0000 ==> #[trigger] final(self)@.leaf(va) == identity_leaf(*layout, va),
            forall|va: u64| va < 0x1_0000_0000_0000 ==> #[trigger] final(self)@.walk(va) == if section_attrs(*layout, va) is Some {
                Some(va)
            } else {
                None
            },
            forall|va: u64| va < 0x1_0000_0000_0000 ==> #[trigger] final(self)@.leaf_attrs(va) == section_attrs(*layout, va),
            final(self).allocator().free_frames() + identity_frames_needed(*layout) == old(self).allocator().free_frames(),
            final(self).allocator().used_frames() == old(self).allocator().used_frames() + identity_frames_needed(*layout),
            final(self).allocator().total_frames() == old(self).allocator().total_frames(),
            final(self).next_table_frame() == old(self).next_table_frame() + 4096 * identity_frames_needed(*layout),
            final(self).next_table_frame() <= RAM_END,
            forall|pa: u64| old(self).next_table_frame() <= pa < final(self).next_table_frame() ==> {
                &&& #[trigger] final(self)@.walk(pa) == Some(pa)
                &&& final(self)@.leaf_attrs(pa) == Some(spec_normal_rw())
            },
    {
        let ghost r: u64 = round_up_2m(layout.kernel_end) as u64;
        proof {
            assert(r % 0x20_0000 == 0 && layout.kernel_end <= r <= RAM_END) by (nonlinear_arith)
                requires
                    r == round_up_2m(layout.kernel_end),
                    layout.kernel_end <= RAM_END;
        }
        let l0_pa = self.start_identity(Ghost(*layout), Ghost(r));
        self.identity_ram(layout, Ghost(r));
        proof {
            let s = *self;
            assert forall|va: u64| va < 0x1_0000_0000_0000 implies #[trigger] s@.leaf(va) == identity_leaf(*layout, va) by {
                assert(s.leaf(va) == if va < RAM_END { identity_leaf(*layout, va) } else { None });
            }
            assert forall|va: u64| va < 0x1_0000_0000_0000 implies #[trigger] s@.walk(va) == if section_attrs(*layout, va) is Some {
                Some(va)
            } else {
                None
            } by {
                assert(s.leaf(va) == if va < RAM_END { identity_leaf(*layout, va) } else { None });
                s.lemma_identity_walk(*layout, va);
            }
            assert forall|va: u64| va < 0x1_0000_0000_0000 implies #[trigger] s@.leaf_attrs(va) == section_attrs(*layout, va) by {
                assert(s.leaf(va) == if va < RAM_END { identity_leaf(*layout, va) } else { None });
                s.lemma_identity_walk(*layout, va);
            }
            s.frames.lemma_wf_facts();
            old(self).frames.lemma_wf_facts();
            assert(s.frame_balance(*layout, RAM_END) == s.free_frames());
            s.frames.lemma_same_region(&old(self).frames);
            old(self).frames.lemma_same_region(&s.frames);
            assert forall|pa: u64| old(self).next_table_frame() <= pa < s.next_table_frame() implies {
                &&& #[trigger] s@.walk(pa) == Some(pa)
                &&& s@.leaf_attrs(pa) == Some(spec_normal_rw())
            } by {
                assert(s.leaf(pa) == if pa < RAM_END { identity_leaf(*layout, pa) } else { None });
                s.lemma_identity_walk(*layout, pa);
            }
            s.lemma_frame_arith();
            old(self).lemma_frame_arith();
        }
        l0_pa
    }

    /// Where the leaf is the identity mapping's, the walk gives the address
    /// back and the attributes are the section's.
    proof fn lemma_identity_walk(&self, layout: KernelLayout, va: u64)
        requires
            va < 0x1_0000_0000_0000,
            self.leaf(va) == identity_leaf(layout, va),
        ensures
            self.walk(va) == if section_attrs(layout, va) is Some { Some(va) } else { None },
            self.leaf_attrs(va) == section_attrs(layout, va),
    {
        lemma_identity_bits(va, va);
        lemma_attr_consts();
        if let Some(a) = section_attrs(layout, va) {
            if va < RAM_START {
                lemma_block_1g_desc(0, a);
            } else if va < round_up_2m(layout.kernel_end) {
                lemma_page_desc(va, a);
            } else {
                lemma_block_2m_desc(va, a);
            }
        }
    }

    /// Map RAM from its start to its end, section by section.
    #[verifier::spinoff_prover]
    #[verifier::rlimit(20)]
    fn identity_ram(&mut self, layout: &KernelLayout, r: Ghost<u64>)
        requires
            old(self).wf(),
            old(self).spec_root() != 0,
            layout.wf(),
            r@ == round_up_2m(layout.kernel_end),
            r@ % 0x20_0000 == 0,
            layout.kernel_end <= r@ <= RAM_END,
            old(self).mapped_below(*layout, RAM_START),
            old(self).enough_frames(*layout, RAM_START),
        ensures
            final(self).base == old(self).base,
            final(self).wf(),
            final(self).spec_root() == old(self).spec_root(),
            final(self).allocator().region_start() == old(self).allocator().region_start(),
            final(self).mapped_below(*layout, RAM_END),
            final(self).frame_balance(*layout, RAM_END) == old(self).frame_balance(*layout, RAM_START),
    {
        let rw = normal_rw();
        let ro_x = normal_ro_exec();
        let ro = normal_ro_noexec();
        // RAM in front of the load address must be normal read-write too, or
        // early boot touches data that is not mapped.
        self.map_identity_section(RAM_START, layout.text_start, rw, Ghost(*layout), r);
        self.map_identity_section(layout.text_start, layout.text_end, ro_x, Ghost(*layout), r);
        proof {
            self.lemma_enough_frames_skip(*layout, layout.text_end, layout.rodata_start);
            self.lemma_mapped_skip(*layout, layout.text_end, layout.rodata_start);
        }
        self.map_identity_section(layout.rodata_start, layout.rodata_end, ro, Ghost(*layout), r);
        proof {
            self.lemma_enough_frames_skip(*layout, layout.rodata_end, layout.data_start);
            self.lemma_mapped_skip(*layout, layout.rodata_end, layout.data_start);
        }
        self.map_identity_section(layout.data_start, layout.kernel_end, rw, Ghost(*layout), r);
        self.map_tail(layout.kernel_end, Ghost(*layout), r);
    }

    /// Moving the mapping's progress over addresses the identity mapping
    /// leaves unmapped.
    proof fn lemma_mapped_skip(&self, layout: KernelLayout, c: u64, c2: u64)
        requires
            self.mapped_below(layout, c),
            c <= c2,
            forall|v: u64| c <= v < c2 ==> #[trigger] section_attrs(layout, v) is None,
        ensures
            self.mapped_below(layout, c2),
    {
        assert forall|v: u64| v < 0x1_0000_0000_0000 implies #[trigger] self.leaf(v) == if v < c2 {
            identity_leaf(layout, v)
        } else {
            None
        } by {
            if c <= v < c2 {
                assert(section_attrs(layout, v) is None);
            }
        }
    }

    /// Map one section `from .. to` of the image (or the RAM in front of it)
    /// with 4 KiB pages, as the identity mapping of `layout` maps it.
    #[verifier::spinoff_prover]
    #[verifier::rlimit(20)]
    fn map_identity_section(&mut self, from: u64, to: u64, attr_bits: u64, layout: Ghost<KernelLayout>, r: Ghost<u64>)
        requires
            old(self).wf(),
            old(self).spec_root() != 0,
            layout@.wf(),
            attr_bits & ATTR_BITS == attr_bits,
            from % 4096 == 0,
            to % 4096 == 0,
            RAM_START <= from <= to <= layout@.kernel_end,
            r@ == round_up_2m(layout@.kernel_end),
            r@ % 0x20_0000 == 0,
            layout@.kernel_end <= r@ <= RAM_END,
            forall|v: u64| from <= v < to ==> #[trigger] section_attrs(layout@, v) == Some(attr_bits),
            (RAM_START <= from && to <= layout@.text_end) || (layout@.rodata_start <= from && to
                <= layout@.rodata_end) || (layout@.data_start <= from && to <= r@),
            old(self).mapped_below(layout@, from),
            old(self).enough_frames(layout@, from),
        ensures
            final(self).base == old(self).base,
            final(self).wf(),
            final(self).spec_root() == old(self).spec_root(),
            final(self).allocator().region_start() == old(self).allocator().region_start(),
            final(self).mapped_below(layout@, to),
            final(self).enough_frames(layout@, to),
            final(self).frame_balance(layout@, to) == old(self).frame_balance(layout@, from),
    {
        let ghost s0 = *self;
        proof {
            assert forall|v: u64| from <= v < 0x1_0000_0000_0000 implies #[trigger] s0.leaf(v) is None by {
            }
            lemma_stretch_has_pages(layout@, from, to);
        }
        self.map_pages(from, to, attr_bits, layout, r);
        proof {
            let s1 = *self;
            assert forall|v: u64| v < 0x1_0000_0000_0000 implies #[trigger] s1.leaf(v) == if v < to {
                identity_leaf(layout@, v)
            } else {
                None
            } by {
                if from <= v < to {
                    assert(section_attrs(layout@, v) == Some(attr_bits));
                }
            }
        }
    }
}

} // verus!
