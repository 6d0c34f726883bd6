//! What a block of bytecode is lifted to, and what it looks like.

use vstd::prelude::*;

use crate::cruby::VALUE;
use crate::hir;
use crate::hir::{BlockHir, HirInsn, InsnSet, Iseq};
use crate::text;

verus! {

/// Whether an opcode is one of those that never fall through.
pub open spec fn terminates(set: InsnSet, opcode: int) -> bool {
    let t = set.terminators;
    ||| opcode == t.leave
    ||| opcode == t.jump
    ||| opcode == t.branchif
    ||| opcode == t.branchunless
    ||| opcode == t.branchnil
    ||| opcode == t.throw
    ||| opcode == t.opt_getconstant_path
}

/// A block starts at its entry and goes on instruction by instruction, each right behind the one
/// before it, up to the first that does not fall through or the end. Each instruction is the one
/// that stands there.
pub proof fn law_lifted_block(
    set: &InsnSet,
    iseq: &Iseq,
    start: u16,
    size: u16,
    block: BlockHir,
    i: int,
)
    requires
        hir::scannable(set, iseq, start as int, size as int),
        call_ensures(BlockHir::from_iseq, (set, iseq, start, size), block),
    ensures
        block.insns@.len() > 0 <==> start < size,
        start < size ==> block.insns@[0].insn_idx == start,
        0 <= i < block.insns@.len() ==> {
            let insn = block.insns@[i];
            let opcode = iseq.opcodes@[insn.insn_idx as int];
            &&& insn.opcode == opcode
            &&& insn.pc == insn.insn_idx
            &&& insn.insn_idx < size
            &&& i < block.insns@.len() - 1 ==> {
                &&& !terminates(*set, opcode as int)
                &&& block.insns@[i + 1].insn_idx == insn.insn_idx + set.lens@[opcode as int]
            }
            &&& i == block.insns@.len() - 1 ==> terminates(*set, opcode as int) || insn.insn_idx
                + set.lens@[opcode as int] >= size
        },
{
    if start < size {
        hir::law_no_instruction_is_dropped(set, iseq, start as int, size as int);
        if 0 <= i < block.insns@.len() {
            let insn = block.insns@[i];
            assert(insn.pc == insn.insn_idx);
        }
    }
}

/// What is known of one instruction: whether it ends its block, how many slots it takes, and its
/// operands, which stand behind it.
pub proof fn law_instruction(
    set: &InsnSet,
    iseq: &Iseq,
    opcode: usize,
    ends: bool,
    len: u32,
    insn: &HirInsn,
    count: usize,
    idx: usize,
    operand: VALUE,
)
    requires
        call_ensures(hir::opcode_ends_block, (set, opcode), ends),
        insn.opcode == opcode,
        call_ensures(InsnSet::insn_len, (set, opcode), len),
        call_ensures(HirInsn::num_operands, (insn, set), count),
        call_ensures(HirInsn::operand, (insn, iseq, idx), operand),
    ensures
        ends <==> terminates(*set, opcode as int),
        len == set.lens@[opcode as int],
        len > 0 ==> count == len - 1,
        len == 0 ==> count == 0,
        operand == iseq.encoded@[insn.pc + 1 + idx],
{
}

/// The number that digits to a base stand for, the most significant first.
pub open spec fn number_in_base(digits: Seq<char>, base: int) -> int
    decreases digits.len(),
{
    if digits.len() == 0 {
        0
    } else {
        number_in_base(digits.drop_last(), base) * base + digit_of(digits.last())
    }
}

/// What a digit stands for.
pub open spec fn digit_of(c: char) -> int {
    if '0' <= c && c <= '9' {
        c as int - '0' as int
    } else {
        c as int - 'a' as int + 10
    }
}

/// Whether `c` is a digit to a base.
pub open spec fn is_digit(c: char, base: int) -> bool {
    (('0' <= c && c <= '9') || ('a' <= c && c <= 'f')) && 0 <= digit_of(c) < base
}

proof fn lemma_digits(n: nat, base: nat)
    requires
        2 <= base <= 16,
    ensures
        ({
            let d = text::digits(n, base);
            &&& d.len() > 0
            &&& number_in_base(d, base as int) == n
            &&& d.len() > 1 ==> d[0] != '0'
            &&& forall|i: int| 0 <= i < d.len() ==> is_digit(#[trigger] d[i], base as int)
        }),
    decreases n,
{
    let d = text::digits(n, base);
    if n < base {
        assert(d.drop_last() =~= Seq::empty());
        assert(number_in_base(d.drop_last(), base as int) == 0);
        assert(0 * base == 0);
    } else {
        assert(n / base < n && n / base > 0) by (nonlinear_arith)
            requires
                n >= base,
                base >= 2,
        ;
        lemma_digits(n / base, base);
        let init = text::digits(n / base, base);
        assert(d.drop_last() =~= init);
        vstd::arithmetic::div_mod::lemma_fundamental_div_mod(n as int, base as int);
        assert((n / base) * base == base * (n / base)) by (nonlinear_arith);
        assert(d[0] == init[0]);
        if init.len() == 1 && init[0] == '0' {
            assert(init.drop_last() =~= Seq::empty());
            assert(number_in_base(init.drop_last(), base as int) == 0);
            assert(0 * base == 0);
            assert(number_in_base(init, base as int) == 0);
        }
        assert forall|i: int| 0 <= i < d.len() implies is_digit(#[trigger] d[i], base as int) by {
            if i < init.len() {
                assert(d[i] == init[i]);
            }
        }
    }
}

/// A number is written with the digits that stand for it, and with zeros in front where it is
/// shorter than asked for.
pub proof fn law_written_numbers(a: &mut String, n: u64, width: usize, b: &mut String, m: u64)
    requires
        call_ensures(text::push_decimal, (a, n, width), ()),
        call_ensures(text::push_hex, (b, m), ()),
    ensures
        old(a)@.is_prefix_of(final(a)@),
        ({
            let d = final(a)@.skip(old(a)@.len() as int);
            &&& d.len() >= width && d.len() > 0
            &&& number_in_base(d, 10) == n
            &&& forall|i: int| 0 <= i < d.len() ==> is_digit(#[trigger] d[i], 10)
            &&& d.len() > width && d.len() > 1 ==> d[0] != '0'
        }),
        old(b)@.is_prefix_of(final(b)@),
        ({
            let d = final(b)@.skip(old(b)@.len() as int + 2);
            &&& final(b)@[old(b)@.len() as int] == '0'
            &&& final(b)@[old(b)@.len() as int + 1] == 'x'
            &&& d.len() > 0
            &&& number_in_base(d, 16) == m
            &&& forall|i: int| 0 <= i < d.len() ==> is_digit(#[trigger] d[i], 16)
            &&& d.len() > 1 ==> d[0] != '0'
        }),
{
    reveal_strlit("0x");
    let dn = text::digits(n as nat, 10);
    let dm = text::digits(m as nat, 16);
    lemma_digits(n as nat, 10);
    lemma_digits(m as nat, 16);
    assert(final(a)@.take(old(a)@.len() as int) =~= old(a)@);
    assert(final(b)@.take(old(b)@.len() as int) =~= old(b)@);
    let p = text::padded(dn, width as nat);
    assert(final(a)@.skip(old(a)@.len() as int) =~= p);
    assert(final(b)@.skip(old(b)@.len() as int + 2) =~= dm);
    if dn.len() < width {
        let k = (width - dn.len()) as nat;
        assert(p == text::zeros(k) + dn);
        lemma_leading_zeros(k, dn, 10);
        assert forall|i: int| 0 <= i < p.len() implies is_digit(#[trigger] p[i], 10) by {
            if i >= k {
                assert(p[i] == dn[i - k]);
            }
        }
    }
}

/// Zeros in front do not change a number.
proof fn lemma_leading_zeros(k: nat, d: Seq<char>, base: int)
    ensures
        number_in_base(text::zeros(k) + d, base) == number_in_base(d, base),
    decreases k + d.len(),
{
    let all = text::zeros(k) + d;
    if d.len() > 0 {
        assert(all.drop_last() =~= text::zeros(k) + d.drop_last());
        assert(all.last() == d.last());
        lemma_leading_zeros(k, d.drop_last(), base);
    } else if k > 0 {
        let fewer = text::zeros((k - 1) as nat);
        assert(all.drop_last() =~= fewer + d);
        assert(all.last() == '0');
        lemma_leading_zeros((k - 1) as nat, d, base);
        assert(number_in_base(d, base) == 0);
        assert(0 * base == 0) by (nonlinear_arith);
    }
}

/// Whether there is a space in some text.
pub proof fn law_spaces(s: &str, r: bool)
    requires
        call_ensures(text::has_space, (s,), r),
    ensures
        r <==> exists|i: int| 0 <= i < s@.len() && s@[i] == ' ',
{
    if s@.contains(' ') {
        let i = choose|i: int| 0 <= i < s@.len() && s@[i] == ' ';
        assert(s@[i] == ' ');
    }
}

/// Whether `d` is how `n` is written to a base: with no more digits than needed.
pub open spec fn is_numeral(d: Seq<char>, base: int, n: int) -> bool {
    &&& d.len() > 0
    &&& number_in_base(d, base) == n
    &&& d.len() > 1 ==> d[0] != '0'
    &&& forall|i: int| 0 <= i < d.len() ==> is_digit(#[trigger] d[i], base)
}

/// Digits stand for a number that is not negative, and not zero unless the first one is.
proof fn lemma_number_bound(d: Seq<char>, base: int)
    requires
        2 <= base <= 16,
        forall|i: int| 0 <= i < d.len() ==> is_digit(#[trigger] d[i], base),
    ensures
        number_in_base(d, base) >= 0,
        d.len() > 0 && d[0] != '0' ==> number_in_base(d, base) > 0,
    decreases d.len(),
{
    if d.len() > 0 {
        let init = d.drop_last();
        assert forall|i: int| 0 <= i < init.len() implies is_digit(#[trigger] init[i], base) by {
            assert(init[i] == d[i]);
        }
        lemma_number_bound(init, base);
        let v = number_in_base(init, base);
        assert(v * base >= 0 && (v > 0 ==> v * base > 0)) by (nonlinear_arith)
            requires
                v >= 0,
                base >= 2,
        ;
        assert(is_digit(d[d.len() - 1], base));
        if init.len() > 0 {
            assert(init[0] == d[0]);
        }
    }
}

/// A number is written in one way.
proof fn lemma_numeral_is(d: Seq<char>, base: nat, n: nat)
    requires
        2 <= base <= 16,
        is_numeral(d, base as int, n as int),
    ensures
        d == text::digits(n, base),
    decreases d.len(),
{
    let init = d.drop_last();
    let c = d[d.len() - 1];
    assert(is_digit(c, base as int));
    assert(text::hex_char(digit_of(c) as u8) == c);
    if d.len() == 1 {
        assert(number_in_base(init, base as int) == 0);
        assert(0 * base == 0);
        assert(d =~= seq![c]);
    } else {
        assert forall|i: int| 0 <= i < init.len() implies is_digit(
            #[trigger] init[i],
            base as int,
        ) by {
            assert(init[i] == d[i]);
        }
        assert(init[0] == d[0]);
        lemma_number_bound(init, base as int);
        let v = number_in_base(init, base as int);
        vstd::arithmetic::div_mod::lemma_fundamental_div_mod_converse(
            n as int,
            base as int,
            v,
            digit_of(c),
        );
        assert(v * base >= base) by (nonlinear_arith)
            requires
                v >= 1,
        ;
        lemma_numeral_is(init, base, v as nat);
        assert(d =~= init.push(c));
    }
}

/// Some texts, each with `before` in front of it and `after` behind it.
pub open spec fn joined(parts: Seq<Seq<char>>, before: Seq<char>, after: Seq<char>) -> Seq<char>
    decreases parts.len(),
{
    if parts.len() == 0 {
        Seq::empty()
    } else {
        joined(parts.drop_last(), before, after) + (before + parts.last() + after)
    }
}

/// An instruction is written as its index, with four digits or more, its name, and its operands in
/// hexadecimal, with a space in front of the name and of each operand.
pub proof fn law_instruction_text(
    set: &InsnSet,
    iseq: &Iseq,
    insn: &HirInsn,
    line: String,
    number: &mut String,
    operands: Seq<Seq<char>>,
    count: usize,
)
    requires
        insn.wf(set, iseq),
        call_ensures(HirInsn::to_text, (insn, set, iseq), line),
        number@.len() == 0,
        call_ensures(text::push_decimal, (number, insn.insn_idx as u64, 4), ()),
        call_ensures(HirInsn::num_operands, (insn, set), count),
        operands.len() == count,
        forall|i: int|
            0 <= i < count ==> (#[trigger] operands[i]).len() > 2 && operands[i][0] == '0'
                && operands[i][1] == 'x' && is_numeral(
                operands[i].skip(2),
                16,
                iseq.encoded@[insn.pc + 1 + i].0 as int,
            ),
    ensures
        line@ == final(number)@ + seq![' '] + set.names@[insn.opcode as int]@ + joined(
            operands,
            seq![' '],
            seq![],
        ),
{
    reveal_strlit(" ");
    assert(" "@ =~= seq![' ']);
    lemma_operand_text(iseq, *insn, operands);
    assert(final(number)@ =~= text::padded(text::digits(insn.insn_idx as nat, 10), 4));
}

proof fn lemma_operand_text(iseq: &Iseq, insn: HirInsn, operands: Seq<Seq<char>>)
    requires
        forall|i: int|
            0 <= i < operands.len() ==> (#[trigger] operands[i]).len() > 2 && operands[i][0] == '0'
                && operands[i][1] == 'x' && is_numeral(
                operands[i].skip(2),
                16,
                iseq.encoded@[insn.pc + 1 + i].0 as int,
            ),
    ensures
        hir::operand_text(iseq, insn, operands.len()) == joined(operands, seq![' '], seq![]),
    decreases operands.len(),
{
    if operands.len() > 0 {
        let n = operands.len();
        let init = operands.drop_last();
        assert forall|i: int| 0 <= i < init.len() implies (#[trigger] init[i]).len() > 2
            && init[i][0] == '0' && init[i][1] == 'x' && is_numeral(
            init[i].skip(2),
            16,
            iseq.encoded@[insn.pc + 1 + i].0 as int,
        ) by {
            assert(init[i] == operands[i]);
        }
        lemma_operand_text(iseq, insn, init);
        reveal_strlit(" ");
        reveal_strlit("0x");
        assert(" "@ =~= seq![' ']);
        let last = operands[n - 1];
        let word = iseq.encoded@[insn.pc + n].0;
        lemma_numeral_is(last.skip(2), 16, word as nat);
        assert(last =~= "0x"@ + last.skip(2));
        assert(hir::operand_text(iseq, insn, n) =~= joined(operands, seq![' '], seq![]));
    }
}

/// Whether `line` is how an instruction is written.
pub open spec fn is_line(set: &InsnSet, iseq: &Iseq, insn: HirInsn, line: Seq<char>) -> bool {
    exists|s: String| #[trigger]
        call_ensures(HirInsn::to_text, (&insn, set, iseq), s) && s@ == line
}

/// A block is written as its instructions, each on a line of its own, indented by two spaces.
pub proof fn law_block_text(
    set: &InsnSet,
    iseq: &Iseq,
    block: &BlockHir,
    r: String,
    lines: Seq<Seq<char>>,
)
    requires
        call_ensures(BlockHir::to_text, (block, set, iseq), r),
        lines.len() == block.insns@.len(),
        forall|i: int|
            0 <= i < lines.len() ==> is_line(set, iseq, block.insns@[i], #[trigger] lines[i]),
    ensures
        r@ == joined(lines, seq![' ', ' '], seq!['\n']),
{
    lemma_block_text(set, iseq, block.insns@, lines);
}

proof fn lemma_block_text(
    set: &InsnSet,
    iseq: &Iseq,
    insns: Seq<HirInsn>,
    lines: Seq<Seq<char>>,
)
    requires
        lines.len() <= insns.len(),
        forall|i: int| 0 <= i < lines.len() ==> is_line(set, iseq, insns[i], #[trigger] lines[i]),
    ensures
        hir::block_text(set, iseq, insns, lines.len()) == joined(
            lines,
            seq![' ', ' '],
            seq!['\n'],
        ),
    decreases lines.len(),
{
    if lines.len() > 0 {
        let n = lines.len();
        let init = lines.drop_last();
        assert forall|i: int| 0 <= i < init.len() implies is_line(
            set,
            iseq,
            insns[i],
            #[trigger] init[i],
        ) by {
            assert(init[i] == lines[i]);
        }
        lemma_block_text(set, iseq, insns, init);
        reveal_strlit("  ");
        reveal_strlit("\n");
        assert("  "@ =~= seq![' ', ' ']);
        assert("\n"@ =~= seq!['\n']);
        assert(is_line(set, iseq, insns[n - 1], lines[n - 1]));
        assert(lines.last() == hir::insn_text(set, iseq, insns[n - 1]));
        assert(hir::block_text(set, iseq, insns, n) =~= joined(
            lines,
            seq![' ', ' '],
            seq!['\n'],
        ));
    }
}

} // verus!
