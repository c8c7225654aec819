use lintsomax::mm::{FrameAllocator, RAM_END};
use lintsomax::paging::{
    attrs, device_rw, normal_ro_exec, normal_ro_noexec, normal_rw, sctlr_el1_with_mmu, tcr_el1_value,
    KernelLayout, PageTables, MAIR_DEVICE_IDX, MAIR_EL1_VALUE, MAIR_NORMAL_IDX, RAM_START,
};

/// A layout like the one the linker script produces: loaded at
/// 0x4010_0000, sections back to back, the image ending off a 2 MiB
/// boundary so the tail starts with 4 KiB pages.
fn layout() -> KernelLayout {
    KernelLayout {
        text_start: 0x4010_0000,
        text_end: 0x4010_8000,
        rodata_start: 0x4010_8000,
        rodata_end: 0x4010_c000,
        data_start: 0x4010_c000,
        kernel_end: 0x4011_3000,
    }
}

fn built() -> (PageTables, u64) {
    let l = layout();
    let frames = FrameAllocator::init(l.kernel_end);
    let mut pt = PageTables::new(frames);
    let ttbr0 = pt.init(&l);
    (pt, ttbr0)
}

#[test]
fn attribute_values() {
    assert_eq!(device_rw(), 0x0060_0000_0000_0404);
    assert_eq!(normal_rw(), 0x0060_0000_0000_0700);
    assert_eq!(normal_ro_exec(), 0x0040_0000_0000_0780);
    assert_eq!(normal_ro_noexec(), 0x0060_0000_0000_0780);
    assert_eq!(attrs(1, 0b10, 0b11, 0, 1), 0x0040_0000_0000_0784);
}

#[test]
fn attrs_ors_arguments_that_overflow_their_fields() {
    // AttrIndx 0xFF spills into AP and SH; the fields are ORed, not added.
    assert_eq!(attrs(0xFF, 0, 0, 0, 0), 0x7FC);
    assert_eq!(attrs(0, 0b11, 0b11, 0, 0), 0x7C0);
    // PXN = 3 spills into UXN; bits past 63 are dropped.
    assert_eq!(attrs(0, 0, 0, 3, 1), 0x0060_0000_0000_0400);
    assert_eq!(attrs(0, 0, 0, 0, u64::MAX), 0xFFC0_0000_0000_0400);
}

#[test]
fn only_text_is_executable_and_text_rodata_read_only() {
    let pxn = |a: u64| (a >> 53) & 1;
    let ap_ro = |a: u64| (a >> 7) & 1;
    assert_eq!(pxn(normal_ro_exec()), 0);
    assert_eq!(pxn(normal_ro_noexec()), 1);
    assert_eq!(pxn(normal_rw()), 1);
    assert_eq!(pxn(device_rw()), 1);
    assert_eq!(ap_ro(normal_ro_exec()), 1);
    assert_eq!(ap_ro(normal_ro_noexec()), 1);
    assert_eq!(ap_ro(normal_rw()), 0);
    assert_eq!(ap_ro(device_rw()), 0);
    assert_eq!((device_rw() >> 2) & 0b111, MAIR_DEVICE_IDX);
    assert_eq!((normal_rw() >> 2) & 0b111, MAIR_NORMAL_IDX);
}

#[test]
fn mair_indices_name_normal_and_device_memory() {
    assert_eq!((MAIR_EL1_VALUE >> (8 * MAIR_NORMAL_IDX)) & 0xFF, 0xFF);
    assert_eq!((MAIR_EL1_VALUE >> (8 * MAIR_DEVICE_IDX)) & 0xFF, 0x04);
}

#[test]
fn translate_before_init_fails() {
    let pt = PageTables::new(FrameAllocator::init(0x4020_0000));
    assert_eq!(pt.root(), 0);
    assert_eq!(pt.translate(0x0900_0000), None);
    assert_eq!(pt.translate(0x4100_0000), None);
}

#[test]
fn identity_mapping_translates_each_address_to_itself() {
    let (pt, ttbr0) = built();
    assert_eq!(ttbr0, layout().kernel_end);
    assert_eq!(pt.root(), ttbr0);
    // The addresses the boot report checks: the UART, the kernel text,
    // deep RAM.
    assert_eq!(pt.translate(0x0900_0000), Some(0x0900_0000));
    assert_eq!(pt.translate(0x4010_0000), Some(0x4010_0000));
    assert_eq!(pt.translate(0x4100_0000), Some(0x4100_0000));
    // Offsets inside pages and blocks survive.
    assert_eq!(pt.translate(0x0900_0018), Some(0x0900_0018));
    assert_eq!(pt.translate(0x4010_0abc), Some(0x4010_0abc));
    assert_eq!(pt.translate(0x4123_4567), Some(0x4123_4567));
    // RAM below the load address, the data, and the 4 KiB pages of the tail.
    assert_eq!(pt.translate(RAM_START), Some(RAM_START));
    assert_eq!(pt.translate(0x4010_c008), Some(0x4010_c008));
    assert_eq!(pt.translate(0x4011_3000), Some(0x4011_3000));
    assert_eq!(pt.translate(0x401f_f000), Some(0x401f_f000));
    assert_eq!(pt.translate(RAM_END - 1), Some(RAM_END - 1));
}

#[test]
fn unmapped_addresses_fail_to_translate() {
    let (pt, _) = built();
    assert_eq!(pt.translate(RAM_END), None);
    assert_eq!(pt.translate(0x8000_0000), None);
    assert_eq!(pt.translate(0x0000_0080_0000_0000), None);
}

#[test]
fn gaps_between_sections_stay_unmapped() {
    let l = KernelLayout {
        text_start: 0x4010_0000,
        text_end: 0x4010_4000,
        rodata_start: 0x4010_8000,
        rodata_end: 0x4010_9000,
        data_start: 0x4010_b000,
        kernel_end: 0x4010_c000,
    };
    let mut pt = PageTables::new(FrameAllocator::init(l.kernel_end));
    pt.init(&l);
    assert_eq!(pt.translate(0x4010_3fff), Some(0x4010_3fff));
    assert_eq!(pt.translate(0x4010_4000), None);
    assert_eq!(pt.translate(0x4010_7fff), None);
    assert_eq!(pt.translate(0x4010_8000), Some(0x4010_8000));
    assert_eq!(pt.translate(0x4010_a000), None);
    assert_eq!(pt.translate(0x4010_b000), Some(0x4010_b000));
}

#[test]
fn aligned_image_end_maps_the_rest_with_blocks() {
    let l = KernelLayout {
        text_start: 0x4010_0000,
        text_end: 0x4010_4000,
        rodata_start: 0x4010_4000,
        rodata_end: 0x4010_8000,
        data_start: 0x4010_8000,
        kernel_end: 0x4020_0000,
    };
    let mut pt = PageTables::new(FrameAllocator::init(l.kernel_end));
    pt.init(&l);
    assert_eq!(pt.translate(0x4020_0000), Some(0x4020_0000));
    assert_eq!(pt.translate(0x47ff_ffff), Some(0x47ff_ffff));
    // Root, L1, L2 and one L3 table for the single 2 MiB region of pages.
    assert_eq!(pt.stats().0, 4);
}

#[test]
fn page_tables_use_frames_and_stay_mapped_read_write() {
    let (pt, ttbr0) = built();
    let (used, total) = pt.stats();
    // Root, L1, L2, and one L3 table per 2 MiB region holding pages
    // (0x4000_0000 .. 0x4020_0000 is one region).
    assert_eq!(used, 4);
    assert_eq!(total, (RAM_END - layout().kernel_end) / 4096);
    let base = pt.tables_base();
    assert_eq!(base, layout().kernel_end);
    let words = pt.table_words();
    assert_eq!(words.len(), 4 * 512);
    for k in 0..(words.len() as u64 / 512) {
        let pa = base + 4096 * k;
        assert_eq!(pt.translate(pa), Some(pa));
    }
    // The root's first entry is a table descriptor for the L1 table.
    assert_eq!(words[0] & 0b11, 0b11);
    assert_eq!(words[0] & 0x0000_FFFF_FFFF_F000, ttbr0 + 4096);
}

#[test]
fn tables_sit_where_the_root_points_and_descriptors_carry_no_extra_bits() {
    let (pt, ttbr0) = built();
    assert_eq!(pt.tables_base(), ttbr0);
    assert_eq!(pt.root(), ttbr0);
    let base = pt.tables_base();
    let words = pt.table_words();
    let nframes = words.len() as u64 / 512;
    // Frames 0, 1 and 2 hold the L0, L1 and L2 tables: every entry that
    // names a next-level table is that table's address with 0b11, nothing
    // else set, and the table is one of the held frames.
    let mut links = 0;
    for k in 0..3usize {
        for &e in &words[k * 512..(k + 1) * 512] {
            if e & 0b11 == 0b11 {
                let child = e & 0x0000_FFFF_FFFF_F000;
                assert_eq!(e, child | 0b11);
                assert!(base <= child && child < base + 4096 * nframes);
                assert_eq!((child - base) % 4096, 0);
                links += 1;
            }
        }
    }
    assert_eq!(links, 3);
}

#[test]
fn frames_needed_counts_exactly_the_tables_built() {
    // Sections far apart: `.text` in the first 2 MiB region of RAM,
    // `.rodata` and the data each in a region of their own, and whole
    // regions between them left unmapped.
    let l = KernelLayout {
        text_start: 0x4010_0000,
        text_end: 0x4010_4000,
        rodata_start: 0x4100_0000,
        rodata_end: 0x4100_2000,
        data_start: 0x4200_0000,
        kernel_end: 0x4200_3000,
    };
    assert_eq!(l.frames_needed(), 6);
    let mut pt = PageTables::new(FrameAllocator::init(l.kernel_end));
    pt.init(&l);
    assert_eq!(pt.stats().0, 6);
    assert_eq!(pt.translate(0x4010_3000), Some(0x4010_3000));
    assert_eq!(pt.translate(0x4050_0000), None);
    assert_eq!(pt.translate(0x4100_1000), Some(0x4100_1000));
    assert_eq!(pt.translate(0x4180_0000), None);
    assert_eq!(pt.translate(0x4200_2000), Some(0x4200_2000));
    assert_eq!(pt.translate(0x4200_3000), Some(0x4200_3000));
    assert_eq!(pt.translate(0x4220_0000), Some(0x4220_0000));
    assert_eq!(layout().frames_needed(), 4);
}

#[test]
fn a_layout_leaving_all_ram_unmapped_needs_no_l2_table() {
    let l = KernelLayout {
        text_start: RAM_START,
        text_end: RAM_START,
        rodata_start: RAM_END,
        rodata_end: RAM_END,
        data_start: RAM_END,
        kernel_end: RAM_END,
    };
    assert_eq!(l.frames_needed(), 2);
}

#[test]
fn init_succeeds_with_exactly_the_frames_needed() {
    // The image reaches into the last 2 MiB region of RAM; what is left
    // after it is exactly what the tables need.
    let l = KernelLayout {
        text_start: 0x4010_0000,
        text_end: 0x4010_4000,
        rodata_start: 0x4010_4000,
        rodata_end: 0x4010_8000,
        data_start: 0x47f0_0000,
        kernel_end: 0x47ff_b000,
    };
    let needed = l.frames_needed();
    assert_eq!(needed, 5);
    let frames = FrameAllocator::init(l.kernel_end);
    assert_eq!(frames.stats(), (0, 5));
    let mut pt = PageTables::new(frames);
    pt.init(&l);
    assert_eq!(pt.stats(), (5, 5));
    assert_eq!(pt.translate(0x47ff_f000), Some(0x47ff_f000));
    assert_eq!(pt.translate(0x4020_0000), None);
}

#[test]
fn tcr_value_caps_the_physical_address_size() {
    assert_eq!(tcr_el1_value(0b0101), 0xB590_3510 + (0b101u64 << 32));
    assert_eq!(tcr_el1_value(0b0110), 0xB590_3510 + (0b101u64 << 32));
    assert_eq!(tcr_el1_value(0xFFFF_FFF2), 0xB590_3510 + (0b010u64 << 32));
    let tcr = tcr_el1_value(0);
    assert_eq!(tcr & 0x3F, 16);
    assert_eq!((tcr >> 16) & 0x3F, 16);
    assert_eq!((tcr >> 23) & 1, 1);
    assert_eq!((tcr >> 14) & 0b11, 0b00);
    assert_eq!((tcr >> 30) & 0b11, 0b10);
}

#[test]
fn sctlr_turns_on_mmu_and_caches_only() {
    assert_eq!(sctlr_el1_with_mmu(0), 0x1005);
    assert_eq!(sctlr_el1_with_mmu(0x30d0_0800), 0x30d0_1805);
    assert_eq!(sctlr_el1_with_mmu(0x1005), 0x1005);
}
