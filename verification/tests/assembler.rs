use zjit::assembler::code_block::{imm_num_bits, uimm_num_bits, BranchEncoder, CodeBlock};
use zjit::virtualmem::{CodePtr, VirtualMem, WriteError};

#[test]
fn test_imm_num_bits() {
    assert_eq!(imm_num_bits(i8::MIN.into()), 8);
    assert_eq!(imm_num_bits(i8::MAX.into()), 8);

    assert_eq!(imm_num_bits(i16::MIN.into()), 16);
    assert_eq!(imm_num_bits(i16::MAX.into()), 16);

    assert_eq!(imm_num_bits(i32::MIN.into()), 32);
    assert_eq!(imm_num_bits(i32::MAX.into()), 32);

    assert_eq!(imm_num_bits(i64::MIN), 64);
    assert_eq!(imm_num_bits(i64::MAX), 64);
}

/// Write a fake jump for next_page(): jmp_ptr_bytes() of 0xEE
fn fake_jmp(cb: &mut CodeBlock, _dst: CodePtr) {
    for _ in 0..cb.jmp_ptr_bytes() {
        cb.write_byte(0xEE);
    }
}

#[test]
fn test_set_outlined_keeps_a_write_position_per_half() {
    let mut cb = CodeBlock::new_dummy_interleaved();
    assert!(cb.is_interleaved());
    let half = cb.page_size() / 2;
    assert_eq!(half as i64, cb.outlined_write_ptr().as_offset());

    cb.write_byte(1);
    assert_eq!(1, cb.inlined_code_size());
    assert_eq!(0, cb.outlined_code_size());

    let was_outlined = cb.set_outlined(true);
    assert!(!was_outlined);
    assert!(cb.is_outlined());
    cb.write_bytes(&[2, 3]);
    assert_eq!(1, cb.inlined_code_size());
    assert_eq!(2, cb.outlined_code_size());
    assert_eq!(half as i64 + 2, cb.outlined_write_ptr().as_offset());

    cb.set_outlined(was_outlined);
    assert_eq!(1, cb.get_write_pos());
    cb.write_byte(4);
    assert_eq!(2, cb.inlined_code_size());
    assert_eq!(2, cb.outlined_code_size());
}

#[test]
fn test_non_interleaved_code_block_ignores_set_outlined() {
    let mut cb = CodeBlock::new_dummy();
    assert!(!cb.is_interleaved());
    assert!(!cb.set_outlined(true));
    assert!(!cb.is_outlined());
    cb.write_byte(1);
    assert_eq!(1, cb.inlined_code_size());
    assert_eq!(0, cb.outlined_code_size());
    assert!(!cb.next_page(cb.get_write_ptr(), fake_jmp));
}

#[test]
fn test_writes_are_bounded_by_the_half_page() {
    let mut cb = CodeBlock::new_dummy_interleaved();
    let page_end = cb.page_end();
    assert_eq!(cb.page_size() / 2 - cb.jmp_ptr_bytes(), page_end);
    for _ in 0..page_end {
        cb.write_byte(0x90);
    }
    assert!(!cb.has_dropped_bytes());
    assert!(!cb.has_capacity(1));

    // The next byte doesn't fit, so it's dropped rather than written into the reserve
    cb.write_byte(0x90);
    assert!(cb.has_dropped_bytes());
    assert_eq!(page_end, cb.get_write_pos());
}

#[test]
fn test_next_page_moves_both_halves() {
    let mut cb = CodeBlock::new_dummy_interleaved();
    let page_size = cb.page_size();
    let half = page_size / 2;

    // Fill the inline half and fail to write an instruction that straddles its end
    for _ in 0..(cb.page_end() - 2) {
        cb.write_byte(0x90);
    }
    let src_ptr = cb.get_write_ptr();
    cb.write_bytes(&[1, 2, 3, 4]);
    assert!(cb.has_dropped_bytes());

    // Jump to the next page and retry
    assert!(cb.next_page(src_ptr, fake_jmp));
    assert!(!cb.has_dropped_bytes());
    assert_eq!(page_size, cb.get_write_pos());
    // The other half moves to the same page too
    assert_eq!((page_size + half) as i64, cb.outlined_write_ptr().as_offset());
    cb.write_bytes(&[1, 2, 3, 4]);
    assert!(!cb.has_dropped_bytes());

    // The jump was written where the instruction was going to start
    let jmp_end = cb.page_end() - 2 + cb.jmp_ptr_bytes();
    assert_eq!(&[0xEE], &cb.hexdump_byte_at(cb.page_end() - 2)[..]);
    assert!(jmp_end <= half, "the jump should fit in the reserved space");
    assert_eq!(jmp_end + 4, cb.inlined_code_size());

    // The range spanning the two pages skips the outlined half in between
    let ranges = cb.code_ranges(cb.get_ptr(0), cb.get_write_ptr());
    assert_eq!(vec![
        (cb.get_ptr(0), cb.get_ptr(jmp_end)),
        (cb.get_ptr(page_size), cb.get_ptr(page_size + 4)),
    ], ranges);
    assert_eq!(cb.inlined_code_size(), cb.code_size_between(cb.get_ptr(0), cb.get_write_ptr()));

    // Moving the outlined half from page 1 doesn't move the inline half back
    cb.set_outlined(true);
    for _ in 0..(cb.page_end() - half) {
        cb.write_byte(0x90);
    }
    let src_ptr = cb.get_write_ptr();
    cb.write_byte(0x90);
    assert!(cb.has_dropped_bytes());
    assert!(cb.next_page(src_ptr, fake_jmp));
    assert_eq!((2 * page_size + half) as i64, cb.get_write_ptr().as_offset());
    // The jump filled the outlined half of page 1 up to the end of the page
    assert_eq!(half, cb.outlined_code_size());
    cb.set_outlined(false);
    assert_eq!(2 * page_size, cb.get_write_pos());
}

#[test]
fn test_next_page_at_the_start_of_a_page_fails() {
    // An instruction that doesn't fit in a fresh half page would never fit
    let mut cb = CodeBlock::new_dummy_interleaved();
    assert!(!cb.next_page(cb.get_write_ptr(), fake_jmp));
    assert_eq!(0, cb.get_write_pos());
}

#[test]
fn test_next_page_fails_on_the_last_page() {
    let mut cb = CodeBlock::new_dummy_interleaved();
    let page_size = cb.page_size();
    let last_page_pos = cb.virtual_region_size() - page_size;
    cb.set_write_ptr(cb.get_ptr(last_page_pos + 8));
    let src_ptr = cb.get_write_ptr();
    assert!(!cb.next_page(src_ptr, fake_jmp));
    assert_eq!(last_page_pos + 8, cb.get_write_pos());
}

#[test]
fn test_uimm_num_bits() {
    assert_eq!(uimm_num_bits(u8::MIN.into()), 8);
    assert_eq!(uimm_num_bits(u8::MAX.into()), 8);

    assert_eq!(uimm_num_bits(((u8::MAX as u16) + 1).into()), 16);
    assert_eq!(uimm_num_bits(u16::MAX.into()), 16);

    assert_eq!(uimm_num_bits(((u16::MAX as u32) + 1).into()), 32);
    assert_eq!(uimm_num_bits(u32::MAX.into()), 32);

    assert_eq!(uimm_num_bits((u32::MAX as u64) + 1), 64);
    assert_eq!(uimm_num_bits(u64::MAX), 64);
}

#[test]
fn test_label_ref_at_an_unmappable_page_sets_dropped_bytes() {
    // Two pages of address space, but a memory limit that only lets
    // the first page be mapped.
    let page_size = 4096;
    let heap_bytes = 1000;
    let limit = heap_bytes + page_size + page_size / 2;
    let virt_mem = VirtualMem::reserve(2 * page_size, Some(limit), page_size, 0x10000, heap_bytes);
    let mut cb = CodeBlock::new(virt_mem, false, 5);

    // Fill the mappable page up to 2 bytes below its end, so that
    // a 5-byte jump reservation straddles into the unmappable page.
    for _ in 0..(page_size - 2) {
        cb.write_byte(0x90);
    }
    assert!(!cb.has_dropped_bytes(), "the first page must map");

    // label_ref() must reserve its bytes by writing them, so that the
    // unmappable page surfaces as dropped_bytes here, where the caller
    // still reads it and gives up on the compilation.
    let label = cb.new_label("over_the_page_boundary".to_string());
    cb.label_ref(label, 5, BranchEncoder(0));
    cb.write_label(label);

    // Labels are linked only if all code was written.
    if !cb.has_dropped_bytes() {
        cb.link_labels(|_, cb, _, _| {
            cb.write_bytes(&[0; 5]);
            Ok(())
        }).unwrap();
    }
    assert!(cb.has_dropped_bytes(), "the reservation must discover the unmappable page");
}

#[test]
fn written_bytes_can_be_dumped() {
    let mut cb = CodeBlock::new_dummy_sized(8192);
    cb.write_bytes(&[0x00, 0x7f, 0xa0]);
    cb.write_int(0x1234, 16);
    cb.write_int(0xff_ffff_ffff, 32);
    assert_eq!(cb.hexdump(), "007fa03412ffffffff");
    assert_eq!(cb.hexdump_byte_at(2), [0xa0]);
    assert_eq!(cb.get_write_pos(), 9);
}

#[test]
fn labels_are_patched_by_their_encoders() {
    let mut cb = CodeBlock::new_dummy_sized(8192);
    let target = cb.new_label("target".to_string());
    cb.label_ref(target, 2, BranchEncoder(7));
    cb.write_byte(0x90);
    cb.write_label(target);
    assert_eq!(cb.label_refs_len(), 1);
    assert_eq!(cb.resolve_label(target), CodePtr(3));
    let linked = cb.link_labels(|encoder, cb, src, dst| {
        assert_eq!((encoder, cb.get_write_pos(), src, dst), (BranchEncoder(7), 0, 2, 3));
        cb.write_bytes(&[0xeb, (dst - src) as u8]);
        Ok(())
    });
    assert_eq!(linked, Ok(()));
    assert_eq!(cb.hexdump(), "eb0190");
    assert_eq!(cb.label_refs_len(), 0);
}

#[test]
fn an_unreachable_label_is_an_error() {
    let mut cb = CodeBlock::new_dummy_sized(8192);
    let target = cb.new_label("far".to_string());
    cb.label_ref(target, 2, BranchEncoder(0));
    cb.write_label(target);
    assert_eq!(cb.link_labels(|_, _, _, _| Err(())), Err(()));
    assert_eq!(cb.get_write_pos(), 2);
}

#[test]
fn truncated_label_refs_are_forgotten() {
    let mut cb = CodeBlock::new_dummy_sized(8192);
    let target = cb.new_label("target".to_string());
    let len = cb.label_refs_len();
    cb.label_ref(target, 1, BranchEncoder(0));
    cb.truncate_label_refs(len);
    assert_eq!(cb.label_refs_len(), 0);
    cb.write_label(target);
    assert_eq!(cb.link_labels(|_, _, _, _| Err(())), Ok(()));
}

#[test]
fn patching_reports_the_range_and_restores_the_position() {
    let mut cb = CodeBlock::new_dummy_interleaved();
    cb.write_bytes(&[1, 2, 3, 4]);
    let range = cb.with_write_ptr(CodePtr(1), |cb| cb.write_bytes(&[0xaa, 0xbb]));
    assert_eq!((range.start, range.end), (CodePtr(1), CodePtr(3)));
    assert_eq!(cb.get_write_pos(), 4);
    assert_eq!(cb.hexdump(), "01aabb04");
}

#[test]
fn comments_are_kept_by_address() {
    let virt_mem = VirtualMem::reserve(8192, None, 4096, 0x10000, 0);
    let mut cb = CodeBlock::new(virt_mem, true, 5);
    cb.write_byte(1);
    cb.add_comment("one");
    cb.add_comment("one");
    cb.add_comment("two");
    let comments = cb.comments_at(0x10001).unwrap();
    assert_eq!(comments, &vec!["one".to_string(), "two".to_string()]);
    assert!(cb.comments_at(0x10000).is_none());

    let mut silent = CodeBlock::new_dummy_sized(8192);
    silent.add_comment("one");
    assert!(silent.comments_at(0).is_none());
}

#[test]
fn memory_refuses_what_cannot_be_written() {
    let mut mem = VirtualMem::reserve(8192, Some(6000), 4096, 0, 1000);
    assert!(matches!(mem.write_byte(CodePtr(8192), 1), Err(WriteError::OutOfBounds)));
    assert!(matches!(mem.write_byte(CodePtr(0), 1), Ok(())));
    assert_eq!(mem.read_byte(0), 1);
    assert_eq!(mem.mapped_region_size(), 4096);
    assert!(matches!(mem.write_byte(CodePtr(4096), 1), Err(WriteError::FailedPageMapping)));
}

#[test]
fn making_code_executable_keeps_it_and_maps_nothing() {
    let mut cb = CodeBlock::new_dummy_sized(8192);
    assert!(cb.update_dropped_bytes());
    cb.write_byte(1);
    cb.mark_all_executable();
    assert_eq!(cb.hexdump(), "01");
    assert_eq!(cb.mapped_region_size(), 4096);
    cb.mark_all_writable();
    cb.write_byte(2);
    assert_eq!(cb.hexdump(), "0102");
    assert_eq!(cb.virtual_region_size(), 8192);
    assert_eq!(cb.mapped_region_size(), 4096);
}

#[test]
fn generated_code_is_disassembled_by_address() {
    let virt_mem = VirtualMem::reserve(8192, None, 4096, 0x10000, 0);
    let mut cb = CodeBlock::new(virt_mem, false, 5);
    cb.write_bytes(&[0x90, 0xc3]);
    let text = cb.disasm(|cb, start, end| format!("{:#x}..{:#x} {}", start, end, cb.hexdump()));
    assert_eq!(text, "0x10000..0x10002 90c3");
}

#[test]
fn code_sizes_agree_with_code_ranges() {
    let mut cb = CodeBlock::new_dummy_interleaved();
    for _ in 0..3 {
        while cb.has_capacity(7) {
            cb.write_bytes(&[1, 2, 3, 4, 5, 6, 7]);
        }
        let base = cb.get_write_ptr();
        assert!(cb.next_page(base, fake_jmp));
        cb.write_byte(9);
        let size = cb.code_size_between(CodePtr(0), cb.get_write_ptr());
        assert_eq!(cb.inlined_code_size(), size);
        assert!(size <= cb.get_write_pos());
    }
}

#[test]
fn what_fits_lands_and_the_rest_is_dropped() {
    let mut cb = CodeBlock::new_dummy_interleaved();
    let page_end = cb.page_end();
    for _ in 0..(page_end - 3) {
        cb.write_byte(0x90);
    }
    assert!(cb.has_capacity(3));
    assert!(!cb.has_capacity(4));
    cb.write_bytes(&[1, 2, 3, 4, 5]);
    assert!(cb.has_dropped_bytes());
    assert_eq!(cb.get_write_pos(), page_end);
    assert_eq!(cb.hexdump_byte_at(page_end - 3), [1]);
    assert_eq!(cb.hexdump_byte_at(page_end - 1), [3]);
    assert_eq!(cb.mem_block.read_byte(page_end), 0);
}

#[test]
fn what_there_is_capacity_for_is_not_dropped() {
    let mut cb = CodeBlock::new_dummy_sized(8192);
    assert!(cb.has_capacity(8192));
    cb.write_bytes(&[7; 8192]);
    assert!(!cb.has_dropped_bytes());
    assert!(!cb.has_capacity(1));
    cb.write_byte(8);
    assert!(cb.has_dropped_bytes());
    assert_eq!(cb.get_write_pos(), 8192);
}

#[test]
fn an_unmappable_page_drops_what_is_on_it() {
    let virt_mem = VirtualMem::reserve(8192, Some(6000), 4096, 0, 1000);
    let mut cb = CodeBlock::new(virt_mem, false, 5);
    cb.write_bytes(&[1; 4095]);
    cb.write_bytes(&[2, 3]);
    assert!(cb.has_dropped_bytes());
    assert_eq!(cb.get_write_pos(), 4096);
    assert_eq!(cb.hexdump_byte_at(4095), [2]);
}

#[test]
fn halves_on_one_page_move_together() {
    let mut cb = CodeBlock::new_dummy_interleaved();
    let page_size = cb.page_size();
    cb.set_outlined(true);
    cb.write_bytes(&[1, 2, 3]);
    let base = cb.get_write_ptr();
    assert!(cb.next_page(base, fake_jmp));
    assert_eq!(cb.get_write_pos(), page_size + page_size / 2);
    cb.set_outlined(false);
    assert_eq!(cb.get_write_pos(), page_size);
}

#[test]
fn outlined_code_does_not_count_as_inline_code() {
    let mut cb = CodeBlock::new_dummy_interleaved();
    for round in 0..3 {
        cb.write_bytes(&[round; 100]);
        cb.set_outlined(true);
        cb.write_bytes(&[round; 50]);
        cb.set_outlined(false);
        // Rewinding takes the last 10 bytes off again.
        let base = CodePtr(cb.get_write_pos() as u32 - 10);
        assert!(cb.next_page(base, fake_jmp));
        let size = cb.code_size_between(CodePtr(0), cb.get_write_ptr());
        assert_eq!(size, (round as usize + 1) * 95);
        assert_eq!(cb.inlined_code_size(), size);
    }
}

#[test]
fn a_label_ref_without_capacity_drops_bytes() {
    // How long a branch may be is asked only of branches that are written.
    let mut cb = CodeBlock::new_dummy_sized(8192);
    cb.write_bytes(&[0; 8190]);
    let label = cb.new_label("target".to_string());
    cb.label_ref(label, 100, BranchEncoder(0));
    assert!(cb.has_dropped_bytes());
    assert_eq!(cb.get_write_pos(), 8190);
    assert_eq!(cb.label_refs_len(), 1);
}
