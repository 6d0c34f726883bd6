//! A minimal, "as-is" high-level intermediate representation.
//!
//! It lifts each bytecode instruction of a basic block verbatim (opcode and program counter),
//! preserving a 1:1 correspondence with the bytecode. There is no stack abstraction, no SSA, and
//! no optimization. The point is to have a layer between decoding and code generation.

use vstd::prelude::*;

use crate::cruby::VALUE;
use crate::text;

verus! {

/// Index of a slot in the encoded instructions of an ISEQ.
pub type IseqIdx = u16;

/// Opcodes that can never fall through into the block they stand in.
#[derive(Clone, Copy, Debug, PartialEq, Eq, Structural)]
pub struct Terminators {
    pub leave: u32,
    pub jump: u32,
    pub branchif: u32,
    pub branchunless: u32,
    pub branchnil: u32,
    pub throw: u32,
    /// This one must live in a block by itself so it can be invalidated by instruction index.
    pub opt_getconstant_path: u32,
}

/// The instructions of the virtual machine, by opcode.
pub struct InsnSet {
    /// Number of encoded slots of each instruction, its opcode's slot included.
    pub lens: Vec<u32>,
    /// Name of each instruction.
    pub names: Vec<String>,
    pub terminators: Terminators,
}

/// An instruction sequence.
pub struct Iseq {
    /// The opcode decoded from each slot, where an instruction starts there.
    pub opcodes: Vec<usize>,
    /// The word in each slot.
    pub encoded: Vec<VALUE>,
}

impl InsnSet {
    /// Every opcode has a length and a name.
    pub open spec fn wf(&self) -> bool {
        self.lens@.len() == self.names@.len()
    }

    /// Number of encoded slots of the instruction.
    pub fn insn_len(&self, opcode: usize) -> (r: u32)
        requires
            opcode < self.lens@.len(),
        ensures
            r == self.lens@[opcode as int],
    {
        self.lens[opcode]
    }
}

/// A single bytecode instruction lifted into HIR, verbatim.
///
/// This carries just enough to dispatch to a code generation function and to let that function
/// read its operands from the real bytecode.
#[derive(Clone, Copy, Debug, PartialEq, Eq, Structural)]
pub struct HirInsn {
    /// Bytecode index of this instruction within the ISEQ.
    pub insn_idx: IseqIdx,
    /// Opcode.
    pub opcode: usize,
    /// Program counter for this instruction: its slot in the ISEQ's encoded instructions.
    /// Operands live in the slots behind it.
    pub pc: usize,
}

/// Number of operands of an instruction.
pub open spec fn operand_count(set: &InsnSet, opcode: usize) -> nat {
    if set.lens@[opcode as int] == 0 {
        0
    } else {
        (set.lens@[opcode as int] - 1) as nat
    }
}

/// The text of the first `n` operands.
pub open spec fn operand_text(iseq: &Iseq, insn: HirInsn, n: nat) -> Seq<char>
    decreases n,
{
    if n == 0 {
        Seq::empty()
    } else {
        operand_text(iseq, insn, (n - 1) as nat) + " "@ + ("0x"@ + text::digits(
            iseq.encoded@[insn.pc + n].0 as nat,
            16,
        ))
    }
}

/// The instruction as a line of text.
pub open spec fn insn_text(set: &InsnSet, iseq: &Iseq, insn: HirInsn) -> Seq<char> {
    text::padded(text::digits(insn.insn_idx as nat, 10), 4) + " "@ + set.names@[insn.opcode as int]@
        + operand_text(iseq, insn, operand_count(set, insn.opcode))
}

impl HirInsn {
    /// The instruction is known, and all of it lies in the ISEQ.
    pub open spec fn wf(&self, set: &InsnSet, iseq: &Iseq) -> bool {
        &&& set.wf()
        &&& self.opcode < set.lens@.len()
        &&& self.pc + operand_count(set, self.opcode) < iseq.encoded@.len()
    }

    /// Number of operands (encoded slots after the opcode) for this instruction.
    pub fn num_operands(&self, set: &InsnSet) -> (r: usize)
        requires
            self.opcode < set.lens@.len(),
        ensures
            r == operand_count(set, self.opcode),
    {
        (set.insn_len(self.opcode) as usize).saturating_sub(1)
    }

    /// Read the `idx`-th operand straight from the bytecode.
    pub fn operand(&self, iseq: &Iseq, idx: usize) -> (r: VALUE)
        requires
            self.pc + idx + 1 < iseq.encoded@.len(),
        ensures
            r == iseq.encoded@[self.pc + idx + 1],
    {
        assert(iseq.encoded.len() <= usize::MAX);
        iseq.encoded[self.pc + idx + 1]
    }

    /// The instruction as text: its index, its name and its operands.
    pub fn to_text(&self, set: &InsnSet, iseq: &Iseq) -> (r: String)
        requires
            self.wf(set, iseq),
        ensures
            r@ == insn_text(set, iseq, *self),
    {
        let mut line: String = String::new();
        text::push_decimal(&mut line, self.insn_idx as u64, 4);
        line.append(" ");
        line.append(set.names[self.opcode].as_str());
        let ghost head = line@;
        let count: usize = self.num_operands(set);
        let mut idx: usize = 0;
        assert(line@ =~= head + operand_text(iseq, *self, 0));
        while idx < count
            invariant
                idx <= count,
                count == operand_count(set, self.opcode),
                self.wf(set, iseq),
                line@ == head + operand_text(iseq, *self, idx as nat),
            decreases count - idx,
        {
            line.append(" ");
            text::push_hex(&mut line, self.operand(iseq, idx).0);
            idx = idx + 1;
            assert(line@ =~= head + operand_text(iseq, *self, idx as nat));
        }
        assert(line@ =~= insn_text(set, iseq, *self));
        line
    }
}

/// HIR for a single basic block: a linear sequence of bytecode instructions lifted as-is. The
/// sequence starts at the block's entry index and extends up to and including the first
/// block-terminating instruction (or the end of the ISEQ). Note that the block may actually end
/// earlier during lowering; trailing instructions are simply never lowered, which is harmless.
pub struct BlockHir {
    pub insns: Vec<HirInsn>,
}

/// Whether an opcode ends its block.
pub open spec fn ends_block(set: &InsnSet, opcode: usize) -> bool {
    ||| opcode == set.terminators.leave
    ||| opcode == set.terminators.jump
    ||| opcode == set.terminators.branchif
    ||| opcode == set.terminators.branchunless
    ||| opcode == set.terminators.branchnil
    ||| opcode == set.terminators.throw
    ||| opcode == set.terminators.opt_getconstant_path
}

/// The instructions from `idx` on can be scanned: each one is known, and the next one, where the
/// block goes on, has an index.
pub open spec fn scannable(set: &InsnSet, iseq: &Iseq, idx: int, size: int) -> bool
    decreases (if idx < size {
        size - idx
    } else {
        0
    }),
{
    idx < size ==> {
        let opcode = iseq.opcodes@[idx];
        &&& 0 <= idx < iseq.opcodes@.len()
        &&& opcode < set.lens@.len()
        &&& opcode <= u32::MAX
        &&& ends_block(set, opcode) || {
            let len = set.lens@[opcode as int] as int;
            &&& len >= 1
            &&& idx + len <= IseqIdx::MAX
            &&& scannable(set, iseq, idx + len, size)
        }
    }
}

/// The instructions of the block that starts at `idx`.
pub open spec fn block_at(set: &InsnSet, iseq: &Iseq, idx: int, size: int) -> Seq<HirInsn>
    decreases (if idx < size {
        size - idx
    } else {
        0
    }),
{
    if idx >= size {
        Seq::empty()
    } else {
        let opcode = iseq.opcodes@[idx];
        let insn = HirInsn { insn_idx: idx as u16, opcode, pc: idx as usize };
        let len = set.lens@[opcode as int] as int;
        if ends_block(set, opcode) || len < 1 {
            seq![insn]
        } else {
            seq![insn] + block_at(set, iseq, idx + len, size)
        }
    }
}

/// The lines of the first `n` instructions.
pub open spec fn block_text(
    set: &InsnSet,
    iseq: &Iseq,
    insns: Seq<HirInsn>,
    n: nat,
) -> Seq<char>
    decreases n,
{
    if n == 0 {
        Seq::empty()
    } else {
        block_text(set, iseq, insns, (n - 1) as nat) + "  "@ + insn_text(set, iseq, insns[n - 1])
            + "\n"@
    }
}

impl BlockHir {
    /// Lift the bytecode instructions of one block into HIR.
    ///
    /// Scanning starts at `start_idx` and stops after the first block-terminating opcode (see
    /// [`opcode_ends_block`]) or when reaching `iseq_size`.
    pub fn from_iseq(
        set: &InsnSet,
        iseq: &Iseq,
        start_idx: IseqIdx,
        iseq_size: IseqIdx,
    ) -> (r: BlockHir)
        requires
            scannable(set, iseq, start_idx as int, iseq_size as int),
        ensures
            r.insns@ == block_at(set, iseq, start_idx as int, iseq_size as int),
    {
        let mut insns: Vec<HirInsn> = Vec::new();
        let mut insn_idx: IseqIdx = start_idx;
        let ghost wanted = block_at(set, iseq, start_idx as int, iseq_size as int);
        assert(wanted =~= insns@ + wanted);
        while insn_idx < iseq_size
            invariant_except_break
                scannable(set, iseq, insn_idx as int, iseq_size as int),
                wanted == insns@ + block_at(set, iseq, insn_idx as int, iseq_size as int),
            ensures
                wanted == insns@,
            decreases IseqIdx::MAX - insn_idx,
        {
            let ghost before = insns@;
            let pc: usize = insn_idx as usize;
            let opcode: usize = iseq.opcodes[pc];
            insns.push(HirInsn { insn_idx, opcode, pc });
            // Stop once we've included a terminator. This keeps the block's HIR tight in the
            // common case; scanning a few extra instructions would only be wasteful, never
            // incorrect, since lowering stops at the real terminator anyway.
            if opcode_ends_block(set, opcode) {
                assert(wanted =~= insns@);
                break;
            }
            let ghost rest = block_at(
                set,
                iseq,
                insn_idx + set.lens@[opcode as int],
                iseq_size as int,
            );
            insn_idx = insn_idx + set.insn_len(opcode) as IseqIdx;
            assert(wanted =~= insns@ + rest);
        }
        BlockHir { insns }
    }

    /// The block as text, one line for each instruction.
    pub fn to_text(&self, set: &InsnSet, iseq: &Iseq) -> (r: String)
        requires
            forall|i: int| 0 <= i < self.insns@.len() ==> (#[trigger] self.insns@[i]).wf(set, iseq),
        ensures
            r@ == block_text(set, iseq, self.insns@, self.insns@.len()),
    {
        let mut lines: String = String::new();
        let mut idx: usize = 0;
        assert(lines@ =~= block_text(set, iseq, self.insns@, 0));
        while idx < self.insns.len()
            invariant
                idx <= self.insns@.len(),
                forall|i: int|
                    0 <= i < self.insns@.len() ==> (#[trigger] self.insns@[i]).wf(set, iseq),
                lines@ == block_text(set, iseq, self.insns@, idx as nat),
            decreases self.insns@.len() - idx,
        {
            let insn: HirInsn = self.insns[idx];
            let line: String = insn.to_text(set, iseq);
            lines.append("  ");
            lines.append(line.as_str());
            lines.append("\n");
            idx = idx + 1;
            assert(lines@ =~= block_text(set, iseq, self.insns@, idx as nat));
        }
        lines
    }
}

/// Returns true for opcodes that unconditionally terminate (or force a split of) a basic block.
///
/// Safety of the approximation: this must only return true for opcodes that can never fall
/// through into the same block. Returning true for a fall-through opcode would truncate the
/// block's HIR and drop instructions. Returning false for a genuine terminator is safe: it only
/// makes [`BlockHir::from_iseq`] scan a bit further than necessary.
///
/// Note that many instructions (sends, and profiled ops that defer) also end a block
/// *dynamically* at code generation time; those are intentionally not listed here because they
/// can also continue the current block.
pub fn opcode_ends_block(set: &InsnSet, opcode: usize) -> (r: bool)
    requires
        opcode <= u32::MAX,
    ensures
        r == ends_block(set, opcode),
{
    let opcode: u32 = opcode as u32;
    let t = &set.terminators;
    opcode == t.leave || opcode == t.jump || opcode == t.branchif || opcode == t.branchunless
        || opcode == t.branchnil || opcode == t.throw || opcode == t.opt_getconstant_path
}

// ---------------------------------------------------------------------------
// Laws
// ---------------------------------------------------------------------------
/// A block's HIR drops no instruction: it starts at the entry index, each instruction is followed
/// by the one that starts behind it, only the last one can end the block, and if that one does
/// not, the ISEQ ends there.
pub proof fn law_no_instruction_is_dropped(set: &InsnSet, iseq: &Iseq, start: int, size: int)
    requires
        0 <= start < size <= IseqIdx::MAX,
        scannable(set, iseq, start, size),
    ensures
        ({
            let insns = block_at(set, iseq, start, size);
            &&& insns.len() > 0
            &&& insns[0].insn_idx == start
            &&& forall|i: int| #![trigger insns[i]]
                0 <= i < insns.len() ==> {
                    &&& insns[i].pc == insns[i].insn_idx < size
                    &&& insns[i].opcode == iseq.opcodes@[insns[i].insn_idx as int]
                    &&& i + 1 < insns.len() ==> {
                        &&& !ends_block(set, insns[i].opcode)
                        &&& insns[i + 1].insn_idx == insns[i].insn_idx
                            + set.lens@[insns[i].opcode as int]
                    }
                    &&& i + 1 == insns.len() ==> ends_block(set, insns[i].opcode) || insns[i].insn_idx
                        + set.lens@[insns[i].opcode as int] >= size
                }
        }),
    decreases size - start,
{
    let insns = block_at(set, iseq, start, size);
    let opcode = iseq.opcodes@[start];
    let len = set.lens@[opcode as int] as int;
    if !ends_block(set, opcode) {
        let rest = block_at(set, iseq, start + len, size);
        if start + len < size {
            law_no_instruction_is_dropped(set, iseq, start + len, size);
        }
        assert forall|i: int| #![trigger insns[i]] 0 <= i < insns.len() implies {
            &&& insns[i].pc == insns[i].insn_idx < size
            &&& insns[i].opcode == iseq.opcodes@[insns[i].insn_idx as int]
            &&& i + 1 < insns.len() ==> {
                &&& !ends_block(set, insns[i].opcode)
                &&& insns[i + 1].insn_idx == insns[i].insn_idx + set.lens@[insns[i].opcode as int]
            }
            &&& i + 1 == insns.len() ==> ends_block(set, insns[i].opcode) || insns[i].insn_idx
                + set.lens@[insns[i].opcode as int] >= size
        } by {
            if i > 0 {
                assert(insns[i] == rest[i - 1]);
            }
            if i + 1 < insns.len() {
                assert(insns[i + 1] == rest[i]);
            }
        }
    }
}

} // verus!
