//! What is written to a code block, and where.

use vstd::prelude::*;

use crate::assembler::code_block;
use crate::assembler::code_block::{CbModel, CodeBlock};
use crate::assembler::pages;
use crate::assembler::writing;
use crate::le;
use crate::virtualmem::CodePtr;

verus! {

/// Writing bytes changes the region's bytes, how much of it is mapped, the write position and
/// whether something was dropped, and nothing else.
pub proof fn lemma_bytes(m: CbModel, bytes: Seq<u8>)
    ensures
        ({
            let after = code_block::bytes_written(m, bytes);
            &&& after == (CbModel {
                mem: after.mem,
                write_pos: after.write_pos,
                dropped_bytes: after.dropped_bytes,
                ..m
            })
            &&& after.mem == (crate::virtualmem::MemModel {
                bytes: after.mem.bytes,
                mapped_bytes: after.mem.mapped_bytes,
                ..m.mem
            })
            &&& after.mem.bytes.len() == m.mem.bytes.len()
            &&& m.write_pos <= after.write_pos <= m.write_pos + bytes.len()
            &&& after.write_pos < m.write_pos + bytes.len() ==> after.dropped_bytes
            &&& m.dropped_bytes ==> after.dropped_bytes
        }),
    decreases bytes.len(),
{
    if bytes.len() > 0 {
        lemma_bytes(m, bytes.drop_last());
    }
}

/// Whether nothing of `b` differs from `a` but the region, where code goes on and whether some was
/// dropped.
pub open spec fn same_but_code(a: CodeBlock, b: CodeBlock) -> bool {
    &&& b.mem_size == a.mem_size
    &&& b.mem_block.base_addr == a.mem_block.base_addr
    &&& b.mem_block.page_size == a.mem_block.page_size
    &&& b.mem_block.limit == a.mem_block.limit
    &&& b.mem_block.heap_bytes == a.mem_block.heap_bytes
    &&& b.mem_block.writable == a.mem_block.writable
    &&& b.page_size == a.page_size
    &&& b.other_write_pos == a.other_write_pos
    &&& b.outlined == a.outlined
    &&& b.page_end_reserve == a.page_end_reserve
    &&& b.page_bounds_check == a.page_bounds_check
    &&& b.past_page_bytes@ == a.past_page_bytes@
    &&& b.page_jump_ends@ == a.page_jump_ends@
    &&& b.label_addrs@ == a.label_addrs@
    &&& b@.label_names == a@.label_names
    &&& b.label_refs@ == a.label_refs@
    &&& b.keep_comments == a.keep_comments
    &&& b@.comments == a@.comments
    &&& b.jmp_ptr_bytes == a.jmp_ptr_bytes
}

/// Whether outlined code goes where it can: not below the second half of the first page.
pub open spec fn in_place(cb: CodeBlock) -> bool {
    cb.page_size != 0 && cb.page_bounds_check && cb.outlined ==> cb.write_pos >= cb.page_size / 2
}

/// Whether `after` is `before` once the first `n` of `bytes` were written where code went on, and
/// the others were dropped.
pub open spec fn wrote(before: CodeBlock, bytes: Seq<u8>, n: int, after: CodeBlock) -> bool {
    &&& 0 <= n <= bytes.len()
    &&& after.write_pos == before.write_pos + n
    &&& after.mem_block.bytes@.len() == before.mem_block.bytes@.len()
    &&& forall|i: int|
        0 <= i < before.mem_block.bytes@.len() ==> #[trigger] after.mem_block.bytes@[i] == if
            before.write_pos <= i < before.write_pos + n {
            bytes[i - before.write_pos]
        } else {
            before.mem_block.bytes@[i]
        }
    &&& after.mem_block.mapped_bytes >= before.mem_block.mapped_bytes
    &&& after.dropped_bytes <==> before.dropped_bytes || n < bytes.len()
    &&& same_but_code(before, after)
}

/// Bytes that are written stand in the region from where code went on, in order, as far as they
/// fit. The others are dropped, which is remembered.
pub proof fn law_bytes_land(cb: &mut CodeBlock, bytes: &[u8])
    requires
        cb.wf(),
        in_place(*cb),
        call_ensures(CodeBlock::write_bytes, (cb, bytes), ()),
    ensures
        wrote(
            *old(cb),
            bytes@,
            final(cb).write_pos - old(cb).write_pos,
            *final(cb),
        ),
{
    lemma_bytes_land(cb@, bytes@);
    lemma_bytes(cb@, bytes@);
}

/// What is written lands as far as it fits.
pub proof fn lemma_bytes_land(m: CbModel, bytes: Seq<u8>)
    requires
        code_block::shape_ok(m),
        code_block::writable_here(m),
    ensures
        ({
            let after = code_block::bytes_written(m, bytes);
            let n = after.write_pos - m.write_pos;
            &&& 0 <= n <= bytes.len()
            &&& after.mem.bytes.len() == m.mem.bytes.len()
            &&& forall|i: int|
                0 <= i < m.mem.bytes.len() ==> #[trigger] after.mem.bytes[i] == if m.write_pos <= i
                    < m.write_pos + n {
                    bytes[i - m.write_pos]
                } else {
                    m.mem.bytes[i]
                }
            &&& after.mem.mapped_bytes >= m.mem.mapped_bytes
            &&& after.dropped_bytes == (m.dropped_bytes || n < bytes.len())
        }),
{
    let n = bytes.len();
    if exists|j: nat| j < n && !#[trigger] writing::byte_fits(m, j) {
        let j = choose|j: nat| j < n && !#[trigger] writing::byte_fits(m, j);
        let k = writing::first_misfit(m, j);
        writing::law_fitting_prefix_lands(m, bytes, k);
    } else {
        writing::law_fitting_prefix_lands(m, bytes, n);
    }
}

/// Writing one byte is writing a sequence of it alone.
pub proof fn law_one_byte_lands(cb: &mut CodeBlock, byte: u8)
    requires
        cb.wf(),
        in_place(*cb),
        call_ensures(CodeBlock::write_byte, (cb, byte), ()),
    ensures
        wrote(
            *old(cb),
            seq![byte],
            final(cb).write_pos - old(cb).write_pos,
            *final(cb),
        ),
{
    let bytes = seq![byte];
    assert(bytes.drop_last() =~= Seq::empty());
    assert(code_block::bytes_written(cb@, bytes.drop_last()) == cb@);
    assert(code_block::bytes_written(cb@, bytes) == code_block::byte_written(cb@, byte));
    lemma_bytes_land(cb@, bytes);
    lemma_bytes(cb@, bytes);
}

/// An integer is written as its bytes, the least significant first.
pub proof fn law_integer_lands(cb: &mut CodeBlock, val: u64, num_bits: u32, bytes: Seq<u8>)
    requires
        cb.wf(),
        in_place(*cb),
        call_ensures(CodeBlock::write_int, (cb, val, num_bits), ()),
        bytes.len() == num_bits / 8,
        forall|j: int|
            0 <= j < bytes.len() ==> #[trigger] bytes[j] == (val as nat
                / vstd::arithmetic::power2::pow2((8 * j) as nat)) % 256,
    ensures
        wrote(
            *old(cb),
            bytes,
            final(cb).write_pos - old(cb).write_pos,
            *final(cb),
        ),
{
    lemma_le_bytes(val as nat, bytes.len());
    assert(le::le_bytes(val as nat, bytes.len()) =~= bytes);
    lemma_bytes_land(cb@, bytes);
    lemma_bytes(cb@, bytes);
}

/// The bytes of an integer, one by one.
pub proof fn lemma_le_bytes(v: nat, n: nat)
    ensures
        le::le_bytes(v, n).len() == n,
        forall|j: int|
            0 <= j < n ==> #[trigger] le::le_bytes(v, n)[j] == (v
                / vstd::arithmetic::power2::pow2((8 * j) as nat)) % 256,
    decreases n,
{
    le::lemma_le_bytes_len(v, n);
    vstd::arithmetic::power2::lemma2_to64();
    if n > 0 {
        let m = (n - 1) as nat;
        lemma_le_bytes(v / 256, m);
        le::lemma_le_bytes_step(v, n);
        assert forall|j: int| 0 <= j < n implies #[trigger] le::le_bytes(v, n)[j] == (v
            / vstd::arithmetic::power2::pow2((8 * j) as nat)) % 256 by {
            if j == 0 {
                assert(vstd::arithmetic::power2::pow2((8 * j) as nat) == 1);
                assert(v / 1 == v);
            } else {
                let k = (8 * (j - 1)) as nat;
                assert(le::le_bytes(v, n)[j] == le::le_bytes(v, n).skip(1)[j - 1]);
                assert(le::le_bytes(v / 256, m)[j - 1] == ((v / 256)
                    / vstd::arithmetic::power2::pow2(k)) % 256);
                assert((8 * j) as nat == 8 + k);
                vstd::arithmetic::power2::lemma_pow2_adds(8, k);
                vstd::arithmetic::power2::lemma_pow2_pos(k);
                vstd::arithmetic::div_mod::lemma_div_denominator(
                    v as int,
                    256,
                    vstd::arithmetic::power2::pow2(k) as int,
                );
            }
        }
    }
}

/// What capacity promises. If there is capacity for some bytes, and their pages are mapped or
/// nothing limits the mapping, all of them are written. If there is none, not all of them are.
pub proof fn law_capacity_is_kept(
    before: &CodeBlock,
    num_bytes: usize,
    fits: bool,
    cb: &mut CodeBlock,
    bytes: &[u8],
)
    requires
        before.wf(),
        in_place(*before),
        bytes@.len() == num_bytes,
        call_ensures(CodeBlock::has_capacity, (before, num_bytes), fits),
        *cb == *before,
        call_ensures(CodeBlock::write_bytes, (cb, bytes), ()),
    ensures
        fits && before.write_pos + num_bytes <= before.mem_size && (before.mem_block.limit is None
            || before.write_pos + num_bytes <= before.mem_block.mapped_bytes)
            ==> final(cb).write_pos == before.write_pos + num_bytes,
        !fits && num_bytes > 0 ==> final(cb).write_pos < before.write_pos + num_bytes,
{
    writing::law_capacity_is_enough(before@, bytes@);
}

/// How much capacity there is, on the page with number `k`. Unbounded by half pages, code fits as
/// far as the region goes. Bounded, it fits as far as the half page goes, short of what is
/// reserved at its end.
pub proof fn law_capacity(cb: &CodeBlock, num_bytes: usize, fits: bool, k: nat, start: nat)
    requires
        cb.wf(),
        in_place(*cb),
        call_ensures(CodeBlock::has_capacity, (cb, num_bytes), fits),
        start == k * cb.page_size + if cb.outlined {
            cb.page_size as nat / 2
        } else {
            0
        },
        cb.page_size != 0 ==> start <= cb.write_pos < start + cb.page_size,
    ensures
        cb.page_size == 0 || !cb.page_bounds_check ==> (fits <==> cb.write_pos + num_bytes
            <= cb.mem_size),
        cb.page_size != 0 && cb.page_bounds_check ==> (fits <==> num_bytes == 0 || cb.write_pos
            + num_bytes + cb.page_end_reserve <= start + cb.page_size / 2),
{
    if cb.page_size != 0 {
        lemma_half_page(cb.page_size as nat, cb.write_pos as nat, cb.outlined, k, start);
    }
}

/// The half page that a position is on.
pub proof fn lemma_half_page(ps: nat, pos: nat, outlined: bool, k: nat, start: nat)
    requires
        ps > 0,
        ps % 2 == 0,
        start == k * ps + if outlined {
            ps / 2
        } else {
            0
        },
        start <= pos < start + ps,
    ensures
        pages::half_page_start(ps, pos, outlined) == start,
        pages::in_half(ps, pos, outlined),
{
    let h = if outlined {
        ps / 2
    } else {
        0
    };
    assert(k * ps >= 0) by (nonlinear_arith)
        requires
            k >= 0,
            ps >= 0,
    ;
    vstd::arithmetic::div_mod::lemma_fundamental_div_mod_converse(
        pos - h,
        ps as int,
        k as int,
        pos - start,
    );
}

/// A byte is patched in place: nothing moves, and nothing else changes.
pub proof fn law_patching_a_byte(
    cb: &mut CodeBlock,
    ptr: CodePtr,
    byte: u8,
    r: Result<(), crate::virtualmem::WriteError>,
)
    requires
        cb.wf(),
        call_ensures(CodeBlock::write_mem, (cb, ptr, byte), r),
    ensures
        ptr.0 < old(cb).mem_block.mapped_bytes ==> r is Ok,
        ptr.0 >= old(cb).mem_size ==> r is Err,
        r is Ok ==> final(cb).mem_block.bytes@ == old(cb).mem_block.bytes@.update(
            ptr.0 as int,
            byte,
        ),
        r is Err ==> final(cb).mem_block.bytes@ == old(cb).mem_block.bytes@,
        final(cb).write_pos == old(cb).write_pos,
        final(cb).dropped_bytes == old(cb).dropped_bytes,
        same_but_code(*old(cb), *final(cb)),
{
}

} // verus!
