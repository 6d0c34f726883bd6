//! What else a code block keeps: comments, settings, and what it looks like.

use vstd::prelude::*;

use crate::assembler::code_block;
use crate::assembler::code_block::{CbModel, CodeBlock};
use crate::assembler::labels;
use crate::virtualmem;
use crate::virtualmem::{CodePtr, VirtualMem};
use super::code;

verus! {

/// Whether `after` is `before` but for comments.
pub open spec fn same_but_comments(before: CodeBlock, after: CodeBlock) -> bool {
    &&& after.mem_block@ == before.mem_block@
    &&& after.write_pos == before.write_pos
    &&& after.dropped_bytes == before.dropped_bytes
    &&& code::same_but_code(CodeBlock { asm_comments: after.asm_comments, ..before }, after)
}

/// A comment goes to the address where code goes on, behind those that are there. It is left out
/// if it repeats the last one there, or if comments are not kept. Those at other addresses stay.
pub proof fn law_comment_is_kept(
    before: &CodeBlock,
    cb: &mut CodeBlock,
    comment: &str,
    after: &CodeBlock,
    addr: u64,
    was: Option<&Vec<String>>,
    is: Option<&Vec<String>>,
)
    requires
        before.wf(),
        *cb == *before,
        call_ensures(CodeBlock::add_comment, (cb, comment), ()),
        *after == *final(cb),
        call_ensures(CodeBlock::comments_at, (before, addr), was),
        call_ensures(CodeBlock::comments_at, (after, addr), is),
    ensures
        same_but_comments(*before, *after),
        ({
            let here = addr == before.mem_block.base_addr + before.write_pos;
            let old_lines = match was {
                Some(lines) => code_block::texts(lines@),
                None => Seq::empty(),
            };
            let new_lines = match is {
                Some(lines) => code_block::texts(lines@),
                None => Seq::empty(),
            };
            let repeated = old_lines.len() > 0 && old_lines[old_lines.len() - 1] == comment@;
            &&& before.keep_comments && here ==> is is Some && new_lines[new_lines.len() - 1]
                == comment@
            &&& new_lines.len() == old_lines.len() + if before.keep_comments && here && !repeated {
                1int
            } else {
                0
            }
            &&& forall|i: int|
                0 <= i < old_lines.len() ==> #[trigger] new_lines[i] == old_lines[i]
            &&& !(before.keep_comments && here) ==> is is Some == was is Some
        }),
{
}

/// The hex dump shows each byte of the code with two digits, the high one first.
pub proof fn law_hexdump(cb: &CodeBlock, dump: String, pos: usize, one: [u8; 1])
    requires
        cb.wf(),
        cb.write_pos <= cb.mem_size,
        call_ensures(CodeBlock::hexdump, (cb,), dump),
        pos < cb.write_pos,
        call_ensures(CodeBlock::hexdump_byte_at, (cb, pos), one),
    ensures
        dump@.len() == 2 * cb.write_pos,
        one@[0] == cb.mem_block.bytes@[pos as int],
        ({
            let high = one@[0] as int / 16;
            let low = one@[0] as int % 16;
            &&& dump@[2 * pos] as int == if high < 10 {
                '0' as int + high
            } else {
                'a' as int + (high - 10)
            }
            &&& dump@[2 * pos + 1] as int == if low < 10 {
                '0' as int + low
            } else {
                'a' as int + (low - 10)
            }
        }),
{
    lemma_hex(cb.mem_block.bytes@.take(cb.write_pos as int), pos as int);
}

proof fn lemma_hex(bytes: Seq<u8>, i: int)
    requires
        0 <= i < bytes.len(),
    ensures
        code_block::hex_text(bytes).len() == 2 * bytes.len(),
        code_block::hex_text(bytes)[2 * i] == crate::text::hex_char(bytes[i] / 16),
        code_block::hex_text(bytes)[2 * i + 1] == crate::text::hex_char(bytes[i] % 16),
    decreases bytes.len(),
{
    let init = bytes.drop_last();
    if i < init.len() {
        lemma_hex(init, i);
    } else if init.len() > 0 {
        lemma_hex(init, 0);
    } else {
        assert(code_block::hex_text(init).len() == 0);
    }
}

/// Whether a signed number fits into `bits` bits.
pub open spec fn fits_signed(n: int, bits: nat) -> bool {
    -vstd::arithmetic::power2::pow2((bits - 1) as nat) <= n < vstd::arithmetic::power2::pow2(
        (bits - 1) as nat,
    )
}

/// The number of bits that an immediate takes is the smallest of 8, 16, 32 and 64 that it fits
/// into.
pub proof fn law_immediate_sizes(imm: i64, uimm: u64, bits: u8, ubits: u8)
    requires
        call_ensures(code_block::imm_num_bits, (imm,), bits),
        call_ensures(code_block::uimm_num_bits, (uimm,), ubits),
    ensures
        bits == 8 || bits == 16 || bits == 32 || bits == 64,
        ubits == 8 || ubits == 16 || ubits == 32 || ubits == 64,
        fits_signed(imm as int, bits as nat),
        bits > 8 ==> !fits_signed(imm as int, bits as nat / 2),
        uimm < vstd::arithmetic::power2::pow2(ubits as nat),
        ubits > 8 ==> uimm >= vstd::arithmetic::power2::pow2(ubits as nat / 2),
{
    vstd::arithmetic::power2::lemma2_to64();
    vstd::arithmetic::power2::lemma2_to64_rest();
}

/// Dropped bytes are forgotten once another page could be mapped, and only that changes.
pub proof fn law_dropped_bytes_are_forgotten(
    before: &CodeBlock,
    cb: &mut CodeBlock,
    r: bool,
    after: &CodeBlock,
    dropped: bool,
)
    requires
        before.wf(),
        *cb == *before,
        call_ensures(CodeBlock::update_dropped_bytes, (cb,), r),
        *after == *final(cb),
        call_ensures(CodeBlock::has_dropped_bytes, (after,), dropped),
    ensures
        r <==> (before.mem_block.limit matches Some(limit) ==> before.mem_block.heap_bytes
            + before.mem_block.mapped_bytes + before.mem_block.page_size < limit),
        dropped <==> before.dropped_bytes && !r,
        after.mem_block@ == before.mem_block@,
        after.write_pos == before.write_pos,
        code::same_but_code(*before, *after),
{
}

/// Marking the region changes whether it is writable. Setting where code goes on changes only
/// that, and a pointer into the region is as far from its start as it says.
pub proof fn law_settings(
    w: &mut CodeBlock,
    x: &mut CodeBlock,
    s: &mut CodeBlock,
    ptr: CodePtr,
    moved: &CodeBlock,
    at: CodePtr,
    offset: usize,
    there: CodePtr,
)
    requires
        call_ensures(CodeBlock::mark_all_writable, (w,), ()),
        call_ensures(CodeBlock::mark_all_executable, (x,), ()),
        call_ensures(CodeBlock::set_write_ptr, (s, ptr), ()),
        *moved == *final(s),
        call_ensures(CodeBlock::get_write_ptr, (moved,), at),
        call_ensures(CodeBlock::get_ptr, (moved, offset), there),
    ensures
        final(w).mem_block.writable,
        !final(x).mem_block.writable,
        final(w).mem_block.bytes@ == old(w).mem_block.bytes@,
        final(x).mem_block.bytes@ == old(x).mem_block.bytes@,
        final(w).write_pos == old(w).write_pos,
        final(x).write_pos == old(x).write_pos,
        at == ptr,
        moved.write_pos == ptr.0,
        there.0 == offset,
        moved.mem_block@ == old(s).mem_block@,
        moved.dropped_bytes == old(s).dropped_bytes,
        old(s).wf() ==> code::same_but_code(*old(s), *moved),
{
}

/// A new code block starts at the start of its region, with nothing written, dropped, labelled or
/// commented. With interleaving, outlined code starts in the middle of the first page, and a jump
/// has room at the end of each half page.
pub proof fn law_new_code_block(
    mem: VirtualMem,
    keep_comments: bool,
    jmp_ptr_bytes: usize,
    cb: CodeBlock,
    ib: CodeBlock,
)
    requires
        virtualmem::mem_wf(mem@),
        call_ensures(CodeBlock::new, (mem, keep_comments, jmp_ptr_bytes), cb),
        call_ensures(CodeBlock::new_interleaved, (mem, keep_comments, jmp_ptr_bytes), ib),
    ensures
        cb.mem_block@ == mem@,
        cb.mem_size == mem.bytes@.len(),
        cb.page_size == 0,
        cb.write_pos == 0,
        cb.other_write_pos == 0,
        !cb.outlined,
        cb.page_end_reserve == 0,
        cb.page_bounds_check,
        cb.past_page_bytes@[0] == 0 && cb.past_page_bytes@[1] == 0,
        cb.page_jump_ends@.dom() =~= Set::<usize>::empty(),
        cb.label_addrs@.len() == 0,
        cb@.label_names.len() == 0,
        cb.label_refs@.len() == 0,
        cb.keep_comments == keep_comments,
        cb@.comments.dom() =~= Set::<u64>::empty(),
        !cb.dropped_bytes,
        cb.jmp_ptr_bytes == jmp_ptr_bytes,
        ib.page_size == if 16384int % (mem.page_size as int) == 0 {
            16384
        } else {
            mem.page_size
        },
        ib.write_pos == 0,
        ib.other_write_pos == ib.page_size / 2,
        ib.page_end_reserve == jmp_ptr_bytes,
        ib.mem_block@ == mem@,
        !ib.dropped_bytes,
        !ib.outlined,
        code::same_but_code(
            CodeBlock {
                page_size: ib.page_size,
                other_write_pos: ib.other_write_pos,
                page_end_reserve: ib.page_end_reserve,
                ..cb
            },
            ib,
        ),
{
}

/// Stubbed code blocks have a region of zeros, as large as asked for or a mebibyte.
pub proof fn law_stubbed_code_blocks(a: CodeBlock, b: CodeBlock, size: usize, c: CodeBlock, i: int)
    requires
        call_ensures(CodeBlock::new_dummy, (), a),
        call_ensures(CodeBlock::new_dummy_sized, (size,), b),
        call_ensures(CodeBlock::new_dummy_interleaved, (), c),
    ensures
        a.mem_size == 1024 * 1024,
        c.mem_size == 1024 * 1024,
        b.mem_size == size,
        a.page_size == 0 && b.page_size == 0 && c.page_size == 16384,
        a.write_pos == 0 && b.write_pos == 0 && c.write_pos == 0 && c.other_write_pos == 8192,
        0 <= i < 1024 * 1024 ==> a.mem_block.bytes@[i] == 0 && c.mem_block.bytes@[i] == 0,
        0 <= i < size ==> b.mem_block.bytes@[i] == 0,
        a.jmp_ptr_bytes == 5 && b.jmp_ptr_bytes == 5 && c.jmp_ptr_bytes == 5 && c.page_end_reserve
            == 5,
        a.mem_block.limit is None && b.mem_block.limit is None && c.mem_block.limit is None,
        !a.keep_comments && !b.keep_comments && !c.keep_comments,
{
}

/// Without the page bounds check, the callback sees the code block as it is but for the check, and
/// leaves it as it likes. The check is as it was afterwards.
pub proof fn law_without_page_bounds_check<R, F: FnOnce(&mut CodeBlock) -> R>(
    cb: &mut CodeBlock,
    block: F,
    r: R,
    before: CodeBlock,
)
    requires
        before == *cb,
        call_ensures(CodeBlock::without_page_bounds_check::<R, F>, (cb, block), r),
    ensures
        final(cb).page_bounds_check == before.page_bounds_check,
        exists|c: &mut CodeBlock| #[trigger]
            call_ensures(block, (c,), r) && !c.page_bounds_check && c.mem_block@
                == before.mem_block@ && c.write_pos == before.write_pos && c.dropped_bytes
                == before.dropped_bytes && code::same_but_code(
                CodeBlock { page_bounds_check: false, ..before },
                *c,
            ) && final(cb).mem_block@ == final(c).mem_block@ && final(cb).write_pos
                == final(c).write_pos && final(cb).dropped_bytes == final(c).dropped_bytes
                && final(cb).label_addrs@ == final(c).label_addrs@ && final(cb).label_refs@
                == final(c).label_refs@ && final(cb).outlined == final(c).outlined
                && final(cb).other_write_pos
                == final(c).other_write_pos,
{
    let c = choose|c: &mut CodeBlock| #[trigger]
        call_ensures(block, (c,), r) && c@ == labels::unchecked(before@) && c.mem_size
            == before.mem_size && final(cb)@ == (CbModel {
            page_bounds_check: before@.page_bounds_check,
            ..final(c)@
        }) && final(cb).mem_size == final(c).mem_size;
    assert(c@.write_pos == c.write_pos);
    assert(c@.page_size == c.page_size);
    assert(c@.other_write_pos == c.other_write_pos);
    assert(c@.page_end_reserve == c.page_end_reserve);
    assert(c@.jmp_ptr_bytes == c.jmp_ptr_bytes);
    assert(final(c)@.write_pos == final(c).write_pos);
    assert(final(c)@.other_write_pos == final(c).other_write_pos);
    assert(final(cb)@.write_pos == final(cb).write_pos);
    assert(final(cb)@.other_write_pos == final(cb).other_write_pos);
}

/// All of the code is disassembled: from the region's start to where code goes on.
pub proof fn law_all_code_is_disassembled<F: Fn(&CodeBlock, u64, u64) -> String>(
    cb: &CodeBlock,
    disasm_addr_range: F,
    r: String,
)
    requires
        cb.wf(),
        call_ensures(CodeBlock::disasm::<F>, (cb, disasm_addr_range), r),
    ensures
        exists|from: u64, to: u64|
            from == cb.mem_block.base_addr && to == cb.mem_block.base_addr + cb.write_pos
                && #[trigger] call_ensures(disasm_addr_range, (cb, from, to), r),
{
    let from = cb.mem_block.base_addr;
    let to = (cb.mem_block.base_addr + cb.write_pos) as u64;
    assert(call_ensures(disasm_addr_range, (cb, from, to), r));
}

} // verus!
