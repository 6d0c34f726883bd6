//! The code size statistics count the bytes of the code.

use vstd::prelude::*;

use crate::virtualmem::CodePtr;
use super::code_block;
use super::code_block::CbModel;
use super::pages;
use super::paging;

verus! {

/// Bytes of code written into the given half of code pages, as the statistics count them.
pub open spec fn half_code_size(m: CbModel, outlined: bool) -> int {
    m.past_page_bytes[if outlined {
        1int
    } else {
        0
    }] + code_block::current_page_bytes(m, code_block::half_pos(m, outlined), outlined)
}

/// The statistics say how many bytes the pieces hold into which the code of the given half is
/// split.
pub open spec fn accounted(m: CbModel, outlined: bool) -> bool {
    half_code_size(m, outlined) == size_between(
        m.page_size,
        m.jump_ends,
        pages::half_start(m.page_size, outlined),
        code_block::half_pos(m, outlined),
    )
}

/// Bytes in the pieces of the code from `pos` up to `end`.
pub open spec fn size_between(
    page_size: nat,
    jump_ends: Map<usize, usize>,
    pos: nat,
    end: nat,
) -> int {
    pages::ranges_size(pages::pieces(page_size, jump_ends, pos, end))
}

proof fn lemma_size_front(first: (CodePtr, CodePtr), rest: Seq<(CodePtr, CodePtr)>)
    ensures
        pages::ranges_size(seq![first] + rest) == first.1.0 - first.0.0 + pages::ranges_size(rest),
    decreases rest.len(),
{
    let all = seq![first] + rest;
    if rest.len() == 0 {
        assert(all =~= seq![first]);
        assert(all.drop_last() =~= Seq::empty());
        assert(pages::ranges_size(all.drop_last()) == 0);
        assert(pages::ranges_size(rest) == 0);
    } else {
        lemma_size_front(first, rest.drop_last());
        assert(all.drop_last() =~= seq![first] + rest.drop_last());
        assert(all.last() == rest.last());
    }
}

/// Where the code on the half page that starts at `start` ends, if there is code behind it.
spec fn piece_end(page_size: nat, jump_ends: Map<usize, usize>, start: nat) -> nat {
    if jump_ends.dom().contains(start as usize) {
        jump_ends[start as usize] as nat
    } else {
        start + page_size / 2
    }
}

/// Code that starts with a half page and goes on behind it.
proof fn lemma_first_half_page(
    page_size: nat,
    jump_ends: Map<usize, usize>,
    outlined: bool,
    n: nat,
    end: nat,
)
    requires
        pages::is_page_size(page_size),
        pages::jump_ends_ok(page_size, jump_ends),
        end <= u32::MAX,
        n * page_size + pages::half_start(page_size, outlined) + page_size / 2 < end,
    ensures
        ({
            let pos = n * page_size + pages::half_start(page_size, outlined);
            size_between(page_size, jump_ends, pos, end) == piece_end(page_size, jump_ends, pos)
                - pos + size_between(page_size, jump_ends, pos + page_size, end)
        }),
{
    let h = pages::half_start(page_size, outlined);
    let pos = n * page_size + h;
    vstd::arithmetic::div_mod::lemma_fundamental_div_mod_converse(
        pos as int,
        page_size as int,
        n as int,
        h as int,
    );
    let rest = pages::pieces(page_size, jump_ends, pos + page_size, end);
    let to = piece_end(page_size, jump_ends, pos);
    assert(pos as usize == pos);
    assert(pos <= to <= u32::MAX);
    if pos < to {
        lemma_size_front((CodePtr(pos as u32), CodePtr(to as u32)), rest);
    } else {
        assert(pages::pieces(page_size, jump_ends, pos, end) =~= rest);
    }
}

/// The size of code grows by what is added to its last half page.
proof fn lemma_extend(
    page_size: nat,
    jump_ends: Map<usize, usize>,
    outlined: bool,
    n: nat,
    last: nat,
    end: nat,
    longer: nat,
)
    requires
        pages::is_page_size(page_size),
        pages::jump_ends_ok(page_size, jump_ends),
        n <= last,
        longer <= u32::MAX,
        last * page_size + pages::half_start(page_size, outlined) <= end <= longer,
        longer <= last * page_size + pages::half_start(page_size, outlined) + page_size / 2,
    ensures
        ({
            let pos = n * page_size + pages::half_start(page_size, outlined);
            size_between(page_size, jump_ends, pos, longer) == size_between(
                page_size,
                jump_ends,
                pos,
                end,
            ) + (longer - end)
        }),
    decreases last - n,
{
    let h = pages::half_start(page_size, outlined);
    let pos = n * page_size + h;
    if n == last {
        vstd::arithmetic::div_mod::lemma_fundamental_div_mod_converse(
            pos as int,
            page_size as int,
            n as int,
            h as int,
        );
        lemma_one_piece(page_size, jump_ends, pos, end);
        lemma_one_piece(page_size, jump_ends, pos, longer);
    } else {
        assert((n + 1) * page_size == n * page_size + page_size) by (nonlinear_arith);
        assert((n + 1) * page_size <= last * page_size) by (nonlinear_arith)
            requires
                n + 1 <= last,
        ;
        lemma_first_half_page(page_size, jump_ends, outlined, n, end);
        lemma_first_half_page(page_size, jump_ends, outlined, n, longer);
        lemma_extend(page_size, jump_ends, outlined, n + 1, last, end, longer);
    }
}

/// The size of code on one half page.
proof fn lemma_one_piece(page_size: nat, jump_ends: Map<usize, usize>, pos: nat, end: nat)
    requires
        pages::is_page_size(page_size),
        pos <= end <= u32::MAX,
        end <= (pos / page_size) * page_size + pages::half_start(
            page_size,
            pos % page_size >= page_size / 2,
        ) + page_size / 2,
    ensures
        size_between(page_size, jump_ends, pos, end) == end - pos,
{
    if pos < end {
        let piece = (CodePtr(pos as u32), CodePtr(end as u32));
        assert(pages::pieces(page_size, jump_ends, pos, end) == seq![piece]);
        assert(seq![piece] =~= seq![piece] + Seq::<(CodePtr, CodePtr)>::empty());
        lemma_size_front(piece, Seq::empty());
    }
}

/// The size of code grows by what is on the half page that is left with a jump.
proof fn lemma_leave(
    page_size: nat,
    jump_ends: Map<usize, usize>,
    outlined: bool,
    n: nat,
    last: nat,
    to: nat,
)
    requires
        pages::is_page_size(page_size),
        pages::jump_ends_ok(page_size, jump_ends),
        n <= last,
        last * page_size + pages::half_start(page_size, outlined) + page_size <= u32::MAX,
        last * page_size + pages::half_start(page_size, outlined) <= to,
        to <= last * page_size + pages::half_start(page_size, outlined) + page_size / 2,
    ensures
        ({
            let pos = n * page_size + pages::half_start(page_size, outlined);
            let start = last * page_size + pages::half_start(page_size, outlined);
            size_between(
                page_size,
                jump_ends.insert(start as usize, to as usize),
                pos,
                start + page_size,
            ) == size_between(page_size, jump_ends, pos, start) + (to - start)
        }),
    decreases last - n,
{
    let h = pages::half_start(page_size, outlined);
    let pos = n * page_size + h;
    let start = last * page_size + h;
    let after = jump_ends.insert(start as usize, to as usize);
    assert(pages::jump_ends_ok(page_size, after));
    if n == last {
        lemma_first_half_page(page_size, after, outlined, n, start + page_size);
        assert(start as usize == start);
    } else {
        assert((n + 1) * page_size == n * page_size + page_size) by (nonlinear_arith);
        assert((n + 1) * page_size <= last * page_size) by (nonlinear_arith)
            requires
                n + 1 <= last,
        ;
        lemma_first_half_page(page_size, after, outlined, n, start + page_size);
        lemma_first_half_page(page_size, jump_ends, outlined, n, start);
        assert(pos as usize != start as usize);
        lemma_leave(page_size, jump_ends, outlined, n + 1, last, to);
    }
}

/// In a code block with no code yet, the statistics count none.
pub proof fn law_no_code_is_accounted(m: CbModel, outlined: bool)
    requires
        code_block::shape_ok(m),
        code_block::interleaved(m),
        m.past_page_bytes == seq![0usize, 0usize],
        code_block::half_pos(m, outlined) == pages::half_start(m.page_size, outlined),
    ensures
        accounted(m, outlined),
        half_code_size(m, outlined) == 0,
{
    let h = pages::half_start(m.page_size, outlined);
    pages::lemma_half_page(m.page_size, h, outlined);
    vstd::arithmetic::div_mod::lemma_fundamental_div_mod_converse(0, m.page_size as int, 0, 0);
}

/// Writing code, in whichever half, leaves both halves accounted for.
pub proof fn law_writes_are_accounted(m: CbModel, bytes: Seq<u8>, outlined: bool)
    requires
        code_block::shape_ok(m),
        code_block::interleaved(m),
        m.page_bounds_check,
        pages::in_half(m.page_size, m.write_pos, m.outlined),
        m.write_pos <= pages::half_page_start(m.page_size, m.write_pos, m.outlined) + m.page_size
            / 2 - m.page_end_reserve,
        accounted(m, outlined),
    ensures
        accounted(code_block::bytes_written(m, bytes), outlined),
{
    let ps = m.page_size;
    let after = code_block::bytes_written(m, bytes);
    paging::law_writes_stay_in_half(m, bytes);
    paging::law_halves_are_independent(m, bytes);
    code_block::lemma_bytes_written(m, bytes);
    if outlined == m.outlined {
        let start = pages::half_page_start(ps, m.write_pos, outlined);
        pages::lemma_half_page(ps, m.write_pos, outlined);
        pages::lemma_half_page_number(ps, m.write_pos, outlined);
        assert(0 * ps == 0);
        lemma_extend(
            ps,
            m.jump_ends,
            outlined,
            0,
            start / ps,
            m.write_pos,
            after.write_pos,
        );
    }
}

/// A half that moves to the next page with a jump stays accounted for: the jump counts, and what
/// is left of the half page does not.
pub proof fn law_moving_on_is_accounted(m: CbModel, base: nat, jumped: CbModel)
    requires
        code_block::shape_ok(m),
        paging::can_move_on(m, base),
        pages::in_half(m.page_size, base, m.outlined),
        accounted(CbModel { write_pos: base, ..m }, m.outlined),
        jumped.page_size == m.page_size,
        jumped.outlined == m.outlined,
        jumped.past_page_bytes == m.past_page_bytes,
        jumped.jump_ends == m.jump_ends,
        base <= jumped.write_pos,
        jumped.write_pos <= pages::half_page_start(m.page_size, base, m.outlined) + m.page_size / 2,
        m.past_page_bytes[0] + m.page_size <= usize::MAX,
        m.past_page_bytes[1] + m.page_size <= usize::MAX,
    ensures
        accounted(paging::moved_on(m, base, jumped), m.outlined),
        half_code_size(paging::moved_on(m, base, jumped), m.outlined) == half_code_size(
            CbModel { write_pos: base, ..m },
            m.outlined,
        ) + (jumped.write_pos - base),
{
    let ps = m.page_size;
    let o = m.outlined;
    let h = pages::half_start(ps, o);
    let start = pages::half_page_start(ps, base, o);
    let after = paging::moved_on(m, base, jumped);
    pages::lemma_half_page(ps, base, o);
    pages::lemma_half_page_number(ps, base, o);
    paging::lemma_next_page(m, base);
    assert(0 * ps == 0);
    // What was on the pages before, and on this one.
    lemma_extend(ps, m.jump_ends, o, 0, start / ps, start, base);
    lemma_leave(ps, m.jump_ends, o, 0, start / ps, jumped.write_pos);
    paging::lemma_same_half_page(ps, base, jumped.write_pos, o);
    let next = start + ps;
    paging::lemma_next_half_page_start(ps, base, o);
    assert(after.write_pos == next);
}

/// Something that is done with a code block whose writes go to the inline half.
pub enum Step {
    /// Bytes are written to the inline half.
    Inline(Seq<u8>),
    /// Writes are directed at the outlined half, bytes are written, and writes are directed back.
    Outlined(Seq<u8>),
    /// The inline half is moved to the next page with a jump from a position. The code block is
    /// the one in which that jump was written.
    NextPage(nat, CbModel),
}

/// The code block after a step.
pub open spec fn stepped(m: CbModel, step: Step) -> CbModel {
    match step {
        Step::Inline(bytes) => code_block::bytes_written(m, bytes),
        Step::Outlined(bytes) => code_block::outlined_set(
            code_block::bytes_written(code_block::outlined_set(m, true), bytes),
            false,
        ),
        Step::NextPage(base, jumped) => paging::moved_on(m, base, jumped),
    }
}

/// Whether a step can be taken. Moving on takes another page, a jump that starts and ends on the
/// half page that is written to, and room in the statistics.
pub open spec fn can_step(m: CbModel, step: Step) -> bool {
    match step {
        Step::Inline(_) | Step::Outlined(_) => true,
        Step::NextPage(base, jumped) => {
            let start = pages::half_page_start(m.page_size, m.write_pos, m.outlined);
            &&& paging::can_move_on(m, base)
            &&& start <= base <= m.write_pos
            &&& code_block::shape_ok(jumped)
            &&& jumped.mem.bytes.len() == m.mem.bytes.len()
            &&& jumped.page_size == m.page_size
            &&& jumped.outlined == m.outlined
            &&& jumped.page_bounds_check == m.page_bounds_check
            &&& jumped.past_page_bytes == m.past_page_bytes
            &&& jumped.jump_ends == m.jump_ends
            &&& jumped.other_write_pos == m.other_write_pos
            &&& base <= jumped.write_pos <= start + m.page_size / 2
            &&& m.past_page_bytes[0] + m.page_size <= usize::MAX
            &&& m.past_page_bytes[1] + m.page_size <= usize::MAX
        },
    }
}

/// The code block after some steps.
pub open spec fn after_steps(m: CbModel, steps: Seq<Step>) -> CbModel
    decreases steps.len(),
{
    if steps.len() == 0 {
        m
    } else {
        stepped(after_steps(m, steps.drop_last()), steps.last())
    }
}

/// Whether some steps can be taken one after the other.
pub open spec fn can_take(m: CbModel, steps: Seq<Step>) -> bool
    decreases steps.len(),
{
    steps.len() == 0 || {
        &&& can_take(m, steps.drop_last())
        &&& can_step(after_steps(m, steps.drop_last()), steps.last())
    }
}

/// Whether a half is on one of its half pages, short of what is reserved at the end of it.
pub open spec fn half_in_place(m: CbModel, outlined: bool) -> bool {
    let pos = code_block::half_pos(m, outlined);
    &&& pages::in_half(m.page_size, pos, outlined)
    &&& pos <= pages::half_page_start(m.page_size, pos, outlined) + m.page_size / 2
        - m.page_end_reserve
}

/// Whether code is being written to the inline half, and the statistics of that half say how
/// many bytes its code has.
pub open spec fn inline_accounted(m: CbModel) -> bool {
    &&& code_block::shape_ok(m)
    &&& code_block::interleaved(m)
    &&& m.page_bounds_check
    &&& !m.outlined
    &&& half_in_place(m, false)
    &&& half_in_place(m, true)
    &&& accounted(m, false)
}

/// Writing to one half leaves both in place.
proof fn lemma_write(m: CbModel, bytes: Seq<u8>)
    requires
        code_block::shape_ok(m),
        code_block::interleaved(m),
        m.page_bounds_check,
        half_in_place(m, false),
        half_in_place(m, true),
        accounted(m, false),
    ensures
        ({
            let after = code_block::bytes_written(m, bytes);
            &&& code_block::shape_ok(after)
            &&& code_block::interleaved(after)
            &&& after.page_bounds_check
            &&& after.outlined == m.outlined
            &&& half_in_place(after, false)
            &&& half_in_place(after, true)
            &&& accounted(after, false)
        }),
{
    code_block::lemma_bytes_written(m, bytes);
    paging::law_writes_stay_in_half(m, bytes);
    paging::law_halves_are_independent(m, bytes);
    law_writes_are_accounted(m, bytes, false);
}

/// Moving the inline half on leaves both halves in place.
proof fn lemma_move_on(m: CbModel, base: nat, jumped: CbModel)
    requires
        inline_accounted(m),
        can_step(m, Step::NextPage(base, jumped)),
    ensures
        inline_accounted(paging::moved_on(m, base, jumped)),
{
    let ps = m.page_size;
    let after = paging::moved_on(m, base, jumped);
    let start = pages::half_page_start(ps, m.write_pos, false);
    pages::lemma_half_page(ps, m.write_pos, false);
    pages::lemma_half_page_number(ps, m.write_pos, false);
    paging::lemma_same_half_page(ps, m.write_pos, base, false);
    paging::lemma_next_page(m, base);
    paging::lemma_next_half_page_start(ps, base, false);
    // Rewinding takes off what is behind the base.
    assert(0 * ps == 0);
    lemma_extend(ps, m.jump_ends, false, 0, start / ps, base, m.write_pos);
    law_moving_on_is_accounted(m, base, jumped);
    let other = (start + ps / 2) as nat;
    pages::lemma_half_page(ps, m.other_write_pos, true);
    assert(pages::half_page_start(ps, other, true) == other) by {
        let n = start / ps;
        vstd::arithmetic::div_mod::lemma_fundamental_div_mod_converse(
            other - ps / 2,
            ps as int,
            n as int,
            0,
        );
    }
    paging::lemma_next_half_page_start(ps, other, true);
    assert(after.write_pos == start + ps);
}

/// What a half in place has written stays accounted for, whichever steps are taken.
pub proof fn law_steps_are_accounted(m: CbModel, steps: Seq<Step>)
    requires
        inline_accounted(m),
        can_take(m, steps),
    ensures
        inline_accounted(after_steps(m, steps)),
    decreases steps.len(),
{
    if steps.len() > 0 {
        law_steps_are_accounted(m, steps.drop_last());
        let before = after_steps(m, steps.drop_last());
        match steps.last() {
            Step::Inline(bytes) => {
                lemma_write(before, bytes);
            },
            Step::Outlined(bytes) => {
                lemma_write(code_block::outlined_set(before, true), bytes);
            },
            Step::NextPage(base, jumped) => {
                lemma_move_on(before, base, jumped);
            },
        }
    }
}

/// The size of all inline code, summed up over its pieces, is what the statistics say, however
/// inline code, outlined code and moves to the next page followed each other.
pub proof fn law_inlined_code_size(m: CbModel, steps: Seq<Step>)
    requires
        code_block::shape_ok(m),
        code_block::interleaved(m),
        m.page_bounds_check,
        !m.outlined,
        m.write_pos == 0,
        m.other_write_pos == m.page_size / 2,
        m.past_page_bytes == seq![0usize, 0usize],
        can_take(m, steps),
    ensures
        ({
            let after = after_steps(m, steps);
            half_code_size(after, false) == pages::ranges_size(
                paging::ranges_between(after, CodePtr(0), CodePtr(after.write_pos as u32)),
            )
        }),
{
    let ps = m.page_size;
    vstd::arithmetic::div_mod::lemma_fundamental_div_mod_converse(0, ps as int, 0, 0);
    law_no_code_is_accounted(m, false);
    law_steps_are_accounted(m, steps);
}

} // verus!
