use zjit::assembler::code_block::CodeBlock;
use zjit::cruby::{QNIL, VALUE};
use zjit::exit_desc::codec::{Decoder, Encoder};
use zjit::exit_desc::decode::{decode_descriptor, descriptors_of};
use zjit::exit_desc::descriptor::{ExitDescriptor, ExitDescriptorExtra, ExitImms, ExitStackMap};
use zjit::exit_desc::encoding::{DecodedLoc, ExitLoc};
use zjit::exit_desc::gc;
use zjit::exit_desc::plan::{rb_zjit_side_exit_descriptor, ExitError, ExitRegs, ExitStore, Source};
use zjit::exit_desc::table;
use zjit::exit_desc::table::ExitDescriptorTable;
use zjit::stats::Counters;
use zjit::virtualmem::{CodePtr, VirtualMem};

/// The word in the eight bytes at `field`.
fn read_field(bytes: &[u8], field: usize) -> u64 {
    let mut word = [0u8; 8];
    word.copy_from_slice(&bytes[field..field + 8]);
    u64::from_le_bytes(word)
}

#[test]
fn test_encode_decode_roundtrip() {
    let mut imms = ExitImms::default();
    let locs = vec![
        ExitLoc::Reg { reg: 7, bits: 64 },
        ExitLoc::Reg { reg: 3, bits: 32 },
        ExitLoc::NativeSlot { disp: -48, bits: 64 },
        ExitLoc::NativeSlot { disp: -8000, bits: 32 },
        ExitLoc::Mem { base: 13, bits: 64, disp: 24 },
        ExitLoc::StackIndirect { slot: -16, disp: 8, bits: 64 },
        imms.imm(QNIL, true),
        imms.imm(-5i64 as u64, false),
        imms.imm(1 << 40, false),
        imms.imm(0x1234_5678_9abc_def0, true),
    ];
    assert!(matches!(locs[6], ExitLoc::SmallImm(_)));
    assert!(matches!(locs[8], ExitLoc::Imm(_)));
    assert!(matches!(locs[9], ExitLoc::Value(_)));
    let stack_map = ExitStackMap {
        captures: vec![(ExitLoc::Reg { reg: 1, bits: 64 }, -40)],
        jit_frame: 0x1000,
        jit_frame_slot: -16,
    };
    let desc = ExitDescriptor::new(
        0x5000,
        0x6000,
        locs[..4].to_vec(),
        locs[4..].to_vec(),
        imms,
        0x7000,
        Some(Box::new(ExitDescriptorExtra {
            stack_map: Some(stack_map),
            trace_reason: Some(0x8000),
        })),
    );
    let mut encoded = desc.encode();
    encoded.extend_from_slice(&desc.encode());

    let mut decoder = Decoder { bytes: &encoded, pos: 0 };
    for _ in 0..2 {
        let header = decoder.header();
        assert_eq!(header.pc, desc.pc);
        assert_eq!(read_field(&encoded, header.iseq), 0x6000);
        assert_eq!(read_field(&encoded, header.recompile.unwrap()), 0x7000);
        assert_eq!((header.num_stack, header.num_locals), (4, 6));
        for &expected in &locs {
            let actual = match decoder.loc() {
                DecodedLoc::Loc(loc) => loc,
                DecodedLoc::Imm(imm) => {
                    assert_eq!(Some(imm), desc.imm_value(expected));
                    expected
                }
                DecodedLoc::Value(field) => {
                    assert_eq!(Some(read_field(&encoded, field)), desc.imm_value(expected));
                    expected
                }
            };
            assert_eq!(actual, expected);
        }
        assert_eq!(decoder.u64(), 0x1000);
        assert_eq!(decoder.svarint(), -16);
        assert_eq!(decoder.varint(), 1);
        assert!(matches!(decoder.loc(), DecodedLoc::Loc(ExitLoc::Reg { reg: 1, bits: 64 })));
        assert_eq!(decoder.svarint(), -40);
        assert_eq!(decoder.u64(), 0x8000);
    }
    assert_eq!(decoder.pos, encoded.len());
}

#[test]
fn integers_have_a_fixed_encoding() {
    let mut encoder = Encoder::new();
    encoder.varint(0);
    encoder.varint(127);
    encoder.varint(300);
    encoder.svarint(-1);
    encoder.svarint(64);
    encoder.u64(0x0102);
    assert_eq!(encoder.out, vec![0, 127, 0xac, 2, 1, 0x80, 1, 2, 1, 0, 0, 0, 0, 0, 0]);
    let mut decoder = Decoder { bytes: &encoder.out, pos: 0 };
    assert_eq!(decoder.varint(), 0);
    assert_eq!(decoder.varint(), 127);
    assert_eq!(decoder.varint(), 300);
    assert_eq!(decoder.svarint(), -1);
    assert_eq!(decoder.svarint(), 64);
    assert_eq!(decoder.u64(), 0x0102);
}

#[test]
fn extreme_integers_round_trip() {
    let mut encoder = Encoder::new();
    encoder.varint(u64::MAX);
    encoder.svarint(i64::MIN);
    encoder.svarint(i64::MAX);
    let mut decoder = Decoder { bytes: &encoder.out, pos: 0 };
    assert_eq!(decoder.varint(), u64::MAX);
    assert_eq!(decoder.svarint(), i64::MIN);
    assert_eq!(decoder.svarint(), i64::MAX);
    assert_eq!(decoder.pos, encoder.out.len());
}

/// A descriptor with one stack slot and one local, which is `local`.
fn small(pc: u64, iseq: u64, local: u64, recompile: u64) -> ExitDescriptor {
    let mut imms = ExitImms::default();
    let value = imms.imm(local, true);
    ExitDescriptor::new(
        pc,
        iseq,
        vec![ExitLoc::Reg { reg: 2, bits: 32 }],
        vec![value],
        imms,
        recompile,
        None,
    )
}

/// A descriptor with a stack map and a trace reason.
fn traced(pc: u64, iseq: u64) -> ExitDescriptor {
    let stack_map = ExitStackMap {
        captures: vec![(ExitLoc::NativeSlot { disp: -8, bits: 16 }, -24)],
        jit_frame: 0x9000,
        jit_frame_slot: -32,
    };
    ExitDescriptor::new(
        pc,
        iseq,
        vec![],
        vec![ExitLoc::SmallImm(-2)],
        ExitImms::default(),
        0,
        Some(Box::new(ExitDescriptorExtra {
            stack_map: Some(stack_map),
            trace_reason: Some(0x8000),
        })),
    )
}

#[test]
fn descriptors_say_what_they_hold() {
    let desc = small(1, 0x1000, 0x2000, 0);
    assert_eq!(desc.stack(), &[ExitLoc::Reg { reg: 2, bits: 32 }]);
    assert_eq!(desc.locals(), &[ExitLoc::Value(0)]);
    assert!(!desc.has_stack_map());
    assert!(!desc.has_trace_reason());
    assert_eq!(desc.imm_value(ExitLoc::Value(0)), Some(0x2000));
    assert_eq!(desc.imm_value(ExitLoc::SmallImm(-1)), Some(u64::MAX));
    assert_eq!(desc.imm_value(ExitLoc::Reg { reg: 0, bits: 64 }), None);

    let desc = traced(1, 0x1000);
    assert!(desc.has_stack_map());
    assert_eq!(desc.stack_map().unwrap().jit_frame_slot, -32);
    assert_eq!(desc.trace_reason(), Some(0x8000));
    assert_eq!(
        desc.all_locs(),
        vec![ExitLoc::SmallImm(-2), ExitLoc::NativeSlot { disp: -8, bits: 16 }]
    );
}

#[test]
fn registered_descriptors_are_found() {
    let mut table = ExitDescriptorTable::default();
    let mut counters = Counters::default();
    table.code_base_addr = 0x10000;
    let first = small(1, 0x1000, 0x2000, 0x3000).encode();
    let second = traced(2, 0x1000).encode();
    // Out of order: the outlined half of a page can be registered before the inlined one.
    table.register(0x40, &first, &mut counters);
    table.register(0x20, &second, &mut counters);
    assert_eq!(table.lookup(0x10040), Some(0));
    assert_eq!(table.lookup(0x10020), Some(first.len() as u32));
    assert_eq!(table.lookup(0x10030), None);
    assert_eq!(table.lookup(0x20), None);
    assert_eq!(counters.exit_descriptor_count, 2);
    // Each one also takes eight bytes of the index.
    assert_eq!(counters.exit_descriptor_bytes, (first.len() + second.len() + 16) as u64);
    assert_eq!(table.len(), (first.len() + second.len()) as u32);
    // The records grow by a fixed number of bytes at a time.
    assert!(table.bytes.capacity() >= 64 * 1024);
}

#[test]
fn only_the_running_code_block_registers() {
    let mut table = ExitDescriptorTable::default();
    let mut counters = Counters::default();
    let cb = CodeBlock::new(VirtualMem::reserve(8192, None, 4096, 0x10000, 0), false, 5);
    let other = CodeBlock::new(VirtualMem::reserve(8192, None, 4096, 0x90000, 0), false, 5);
    let encoded = small(1, 0x1000, 0x2000, 0).encode();
    table::register(&mut table, None, CodePtr(8), &cb, &encoded, &mut counters);
    table::register(&mut table, Some(&other), CodePtr(8), &cb, &encoded, &mut counters);
    assert_eq!(table::next_offset(&table), 0);
    table::register(&mut table, Some(&cb), CodePtr(8), &cb, &encoded, &mut counters);
    assert_eq!(table::next_offset(&table), encoded.len() as u32);
    assert_eq!(table.lookup(0x10008), Some(0));
    assert_eq!(counters.exit_descriptor_count, 1);
}

/// A table with two descriptors, and the offset of its end.
fn two_descriptors() -> (ExitDescriptorTable, u32) {
    let mut table = ExitDescriptorTable::default();
    let mut counters = Counters::default();
    table.code_base_addr = 0x10000;
    table.register(0x20, &small(1, 0x1000, 0x2000, 0x3000).encode(), &mut counters);
    table.register(0x40, &traced(2, 0x1100).encode(), &mut counters);
    let end = table.len();
    (table, end)
}

#[test]
fn every_object_is_marked() {
    let (table, end) = two_descriptors();
    let marked = gc::mark(&table, &(0..end));
    assert_eq!(marked, vec![VALUE(0x1000), VALUE(0x3000), VALUE(0x2000), VALUE(0x1100)]);
    assert_eq!(gc::mark(&table, &(0..0)), Vec::<VALUE>::new());
    let barriers = gc::write_barrier(&table, 0x1000, &(0..end));
    assert_eq!(barriers.len(), 4);
    assert!(barriers.iter().all(|(from, _)| *from == VALUE(0x1000)));
}

#[test]
fn objects_move_and_nothing_else_does() {
    let (mut table, end) = two_descriptors();
    let before = descriptors_of(&table, &vec![0..end]);
    gc::update_references(&mut table, &(0..end), |value| VALUE(value.0 + 0x10_0000));
    let after = descriptors_of(&table, &vec![0..end]);
    assert_eq!(after.len(), 2);
    for (old, new) in before.iter().zip(after.iter()) {
        assert_eq!(new.iseq, old.iseq + 0x10_0000);
        assert_eq!(new.pc, old.pc);
        assert_eq!(new.all_locs(), old.all_locs());
    }
    assert_eq!(after[0].recompile, 0x10_3000);
    assert_eq!(after[0].imm_value(after[0].locals()[0]), Some(0x10_2000));
    assert_eq!(after[1].recompile, 0);
}

#[test]
fn a_descriptor_decodes_to_itself() {
    let desc = traced(2, 0x1100);
    let encoded = desc.encode();
    let mut decoder = Decoder { bytes: &encoded, pos: 0 };
    let decoded = decode_descriptor(&mut decoder);
    assert_eq!(decoder.pos, encoded.len());
    assert_eq!((decoded.pc, decoded.iseq, decoded.recompile), (2, 0x1100, 0));
    assert_eq!(decoded.all_locs(), desc.all_locs());
    assert_eq!(decoded.trace_reason(), Some(0x8000));
    assert_eq!(decoded.stack_map().unwrap().jit_frame, 0x9000);
    assert_eq!(decoded.stack_map().unwrap().captures[0].1, -24);
}

const EXIT_REGS: ExitRegs = ExitRegs { cfp: 0, sp: 1, native_base: 5 };

#[test]
fn an_exit_restores_the_frame() {
    let (table, _) = two_descriptors();
    let regs = [0x100, 0x1000, 0xffff_ffff_0000_0007, 0, 0, 0x8000];
    let plan = rb_zjit_side_exit_descriptor(&table, &regs, EXIT_REGS, 0x10020).unwrap();
    assert_eq!((plan.cfp, plan.pc, plan.iseq), (0x100, 1, 0x1000));
    // One stack slot above the stack pointer.
    assert_eq!(plan.sp, 0x1008);
    assert_eq!(
        plan.stores,
        vec![
            ExitStore { dst: 0x1000, source: Source::Word(7) },
            ExitStore { dst: 0x1000 - 8 * 4, source: Source::Word(0x2000) },
        ]
    );
    assert!(plan.clear_jit_return);
    assert_eq!(plan.recompile, 0x3000);
    assert_eq!(plan.trace_reason, None);
}

#[test]
fn an_exit_fills_the_stack_map() {
    let (table, _) = two_descriptors();
    let regs = [0x100, 0x1000, 0, 0, 0, 0x8000];
    let plan = rb_zjit_side_exit_descriptor(&table, &regs, EXIT_REGS, 0x10040).unwrap();
    assert_eq!(
        plan.stores,
        vec![
            ExitStore { dst: 0x1000 - 8 * 4, source: Source::Word(-2i64 as u64) },
            ExitStore {
                dst: 0x8000 - 24,
                source: Source::Mem { addr: 0x8000 - 8, bits: 16 },
            },
            ExitStore { dst: 0x8000 - 32, source: Source::Word(0x9000) },
        ]
    );
    assert_eq!(plan.trace_reason, Some(0x8000));
    assert_eq!(plan.recompile, 0);
}

#[test]
fn an_unknown_return_address_is_an_error() {
    let (table, _) = two_descriptors();
    let regs = [0u64; 6];
    let plan = rb_zjit_side_exit_descriptor(&table, &regs, EXIT_REGS, 0x10021);
    assert!(matches!(plan, Err(ExitError::NoDescriptor)));
}

#[test]
fn a_register_that_was_not_saved_is_an_error() {
    let mut table = ExitDescriptorTable::default();
    let mut counters = Counters::default();
    let desc = ExitDescriptor::new(
        1,
        0x1000,
        vec![ExitLoc::Reg { reg: 9, bits: 64 }],
        vec![],
        ExitImms::default(),
        0,
        None,
    );
    table.register(0x20, &desc.encode(), &mut counters);
    let regs = [0u64; 6];
    let plan = rb_zjit_side_exit_descriptor(&table, &regs, EXIT_REGS, 0x20);
    assert!(matches!(plan, Err(ExitError::BadLocation)));
}
