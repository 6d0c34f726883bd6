use zjit::cruby::VALUE;
use zjit::hir::{opcode_ends_block, BlockHir, HirInsn, InsnSet, Iseq, Terminators};

fn insns() -> InsnSet {
    InsnSet {
        lens: vec![1, 2, 1, 3, 2, 2, 2, 1, 3],
        names: ["nop", "putobject", "leave", "getlocal", "jump", "branchif", "branchunless",
            "throw", "opt_getconstant_path"]
            .iter()
            .map(|name| name.to_string())
            .collect(),
        terminators: Terminators {
            leave: 2,
            jump: 4,
            branchif: 5,
            branchunless: 6,
            branchnil: 100,
            throw: 7,
            opt_getconstant_path: 8,
        },
    }
}

/// nop; putobject 0x7; getlocal 0x3, 0x0; leave; nop
fn iseq() -> Iseq {
    Iseq {
        opcodes: vec![0, 1, 0, 3, 0, 0, 2, 0],
        encoded: [10, 11, 7, 13, 3, 0, 12, 10].iter().map(|&word| VALUE(word)).collect(),
    }
}

#[test]
fn a_block_ends_with_its_terminator() {
    let hir = BlockHir::from_iseq(&insns(), &iseq(), 0, 8);
    let indices: Vec<u16> = hir.insns.iter().map(|insn| insn.insn_idx).collect();
    assert_eq!(indices, vec![0, 1, 3, 6]);
    assert_eq!(hir.insns[2], HirInsn { insn_idx: 3, opcode: 3, pc: 3 });
}

#[test]
fn a_block_ends_with_the_iseq() {
    let hir = BlockHir::from_iseq(&insns(), &iseq(), 1, 6);
    assert_eq!(hir.insns.len(), 2);
    assert!(BlockHir::from_iseq(&insns(), &iseq(), 6, 6).insns.is_empty());
}

#[test]
fn operands_are_read_from_the_bytecode() {
    let insn = HirInsn { insn_idx: 3, opcode: 3, pc: 3 };
    assert_eq!(insn.num_operands(&insns()), 2);
    assert_eq!(insn.operand(&iseq(), 0), VALUE(3));
    assert_eq!(insn.operand(&iseq(), 1), VALUE(0));
    assert_eq!(HirInsn { insn_idx: 0, opcode: 0, pc: 0 }.num_operands(&insns()), 0);
}

#[test]
fn terminators_end_blocks() {
    let set = insns();
    let ends: Vec<usize> = (0..9).filter(|&opcode| opcode_ends_block(&set, opcode)).collect();
    assert_eq!(ends, vec![2, 4, 5, 6, 7, 8]);
    assert!(opcode_ends_block(&set, 100));
}

#[test]
fn blocks_are_printed() {
    let hir = BlockHir::from_iseq(&insns(), &iseq(), 1, 8);
    assert_eq!(
        hir.to_text(&insns(), &iseq()),
        "  0001 putobject 0x7\n  0003 getlocal 0x3 0x0\n  0006 leave\n"
    );
}

#[test]
fn numbers_are_printed() {
    let set = insns();
    let iseq = Iseq { opcodes: vec![1, 0], encoded: vec![VALUE(0), VALUE(0xdead_beef_0012_3456)] };
    let insn = HirInsn { insn_idx: 12345, opcode: 1, pc: 0 };
    assert_eq!(insn.to_text(&set, &iseq), "12345 putobject 0xdeadbeef00123456");
    let insn = HirInsn { insn_idx: 0, opcode: 0, pc: 0 };
    assert_eq!(insn.to_text(&set, &iseq), "0000 nop");
}
