//! Moving from one code page to the next.

use vstd::prelude::*;

use crate::virtualmem::CodePtr;
use super::code_block;
use super::code_block::{CbModel, CodeBlock};
use super::pages;

verus! {

/// The number of the page after the one that code at `base` is on.
pub open spec fn next_page_idx(m: CbModel, base: nat) -> nat {
    pages::half_page_start(m.page_size, base, m.outlined) / m.page_size + 1
}

/// Where the given half of a page starts.
pub open spec fn half_of_page(m: CbModel, page_idx: nat, outlined: bool) -> nat {
    m.page_size * page_idx + pages::half_start(m.page_size, outlined)
}

/// Whether moving on from `base` helps and is possible: something is on the half page already,
/// and there is another page.
pub open spec fn can_move_on(m: CbModel, base: nat) -> bool {
    &&& code_block::interleaved(m)
    &&& base != pages::half_page_start(m.page_size, base, m.outlined)
    &&& half_of_page(m, next_page_idx(m, base), m.outlined) < m.mem.bytes.len()
}

/// The code block when the jump from `base` to the next page is about to be written, into the
/// space that is reserved for it.
pub open spec fn about_to_jump(m: CbModel, base: nat) -> CbModel {
    code_block::commented(
        CbModel { write_pos: base, dropped_bytes: false, page_end_reserve: 0, ..m },
        "jump to next page"@,
    )
}

/// Whether `c` and `dst` are what the writer of the jump from `base` is handed: the code block
/// that is about to jump, and where the same half starts on the next page.
pub open spec fn jumps_to(m: CbModel, base: nat, c: CbModel, dst: CodePtr) -> bool {
    &&& can_move_on(m, base)
    &&& c == about_to_jump(m, base)
    &&& dst.0 == half_of_page(m, next_page_idx(m, base), m.outlined)
}

/// What writing the jump must leave alone, and that it stays on the half page.
pub open spec fn jumped_ok(before: CodeBlock, after: CodeBlock) -> bool {
    &&& after.wf()
    &&& after@.mem.bytes.len() == before@.mem.bytes.len()
    &&& after@.page_size == before@.page_size
    &&& after@.outlined == before@.outlined
    &&& after@.past_page_bytes == before@.past_page_bytes
    &&& after@.other_write_pos == before@.other_write_pos
    &&& before@.write_pos <= after@.write_pos
    &&& after@.write_pos <= pages::half_page_start(
        before@.page_size,
        before@.write_pos,
        before@.outlined,
    ) + before@.page_size / 2
}

/// `past` with `bytes` more for the given half.
pub open spec fn past_and(past: Seq<usize>, outlined: bool, bytes: int) -> Seq<usize> {
    let half = if outlined {
        1int
    } else {
        0
    };
    past.update(half, (past[half] + bytes) as usize)
}

/// The code block `jumped`, in which the jump off the half page at `start` was written, once the
/// current half goes on at `dst`. The other half is moved to the same page too, unless it is
/// already past it.
pub open spec fn page_left(jumped: CbModel, start: nat, dst: nat) -> CbModel {
    let outlined = jumped.outlined;
    let ps = jumped.page_size;
    let other_dst = dst - pages::half_start(ps, outlined) + pages::half_start(ps, !outlined);
    let past = past_and(
        jumped.past_page_bytes,
        outlined,
        code_block::current_page_bytes(jumped, jumped.write_pos, outlined),
    );
    let here = CbModel {
        jump_ends: jumped.jump_ends.insert(start as usize, jumped.write_pos as usize),
        past_page_bytes: past,
        write_pos: dst,
        ..jumped
    };
    if jumped.other_write_pos < other_dst {
        CbModel {
            past_page_bytes: past_and(
                past,
                !outlined,
                code_block::current_page_bytes(jumped, jumped.other_write_pos, !outlined),
            ),
            other_write_pos: other_dst as nat,
            ..here
        }
    } else {
        here
    }
}

/// The code block `jumped`, in which the jump from `base` was written, once the current half
/// has moved to the next page.
pub open spec fn moved_on(m: CbModel, base: nat, jumped: CbModel) -> CbModel {
    page_left(
        CbModel { page_end_reserve: m.page_end_reserve, ..jumped },
        pages::half_page_start(m.page_size, base, m.outlined),
        half_of_page(m, next_page_idx(m, base), m.outlined),
    )
}

/// The pieces of the code from `start` up to `end`.
pub open spec fn ranges_between(m: CbModel, start: CodePtr, end: CodePtr) -> Seq<
    (CodePtr, CodePtr),
> {
    if start.0 >= end.0 {
        Seq::empty()
    } else if !code_block::interleaved(m) {
        seq![(start, end)]
    } else {
        pages::pieces(m.page_size, m.jump_ends, start.0 as nat, end.0 as nat)
    }
}

/// The next page is a whole number of pages further, and the region holds all of it.
pub proof fn lemma_next_page(m: CbModel, base: nat)
    requires
        code_block::shape_ok(m),
        code_block::interleaved(m),
        pages::in_half(m.page_size, base, m.outlined),
    ensures
        ({
            let start = pages::half_page_start(m.page_size, base, m.outlined);
            let idx = next_page_idx(m, base);
            &&& half_of_page(m, idx, m.outlined) == start + m.page_size
            &&& half_of_page(m, idx, false) == start - pages::half_start(m.page_size, m.outlined)
                + m.page_size
            &&& half_of_page(m, idx, true) == half_of_page(m, idx, false) + m.page_size / 2
            &&& start <= base < start + m.page_size
            &&& half_of_page(m, idx, m.outlined) < m.mem.bytes.len() ==> half_of_page(m, idx, false)
                + m.page_size <= m.mem.bytes.len()
            &&& pages::in_half(m.page_size, half_of_page(m, idx, true), true)
        }),
{
    let ps = m.page_size;
    let len = m.mem.bytes.len();
    let start = pages::half_page_start(ps, base, m.outlined);
    let idx = next_page_idx(m, base);
    pages::lemma_half_page(ps, base, m.outlined);
    pages::lemma_half_page_number(ps, base, m.outlined);
    let n = start / ps;
    assert(ps * (n + 1) == ps * n + ps) by (nonlinear_arith);
    let q = len / ps;
    vstd::arithmetic::div_mod::lemma_fundamental_div_mod(len as int, ps as int);
    if ps * idx < len {
        assert(ps * (idx + 1) <= len) by (nonlinear_arith)
            requires
                ps > 0,
                ps * idx < len,
                len == ps * q,
        ;
        assert(ps * (idx + 1) == ps * idx + ps) by (nonlinear_arith);
    }
}

impl CodeBlock {
    /// Move the current half to the next code page: rewind to `base_ptr`, write a jump from
    /// there to the start of the same half on the next page, and continue writing there. The
    /// other half is moved to the same page too, unless it is already past it. Returns false if
    /// there are no more pages or the jump could not be written.
    #[must_use]
    pub fn next_page<F: Fn(&mut CodeBlock, CodePtr)>(
        &mut self,
        base_ptr: CodePtr,
        jmp_ptr: F,
    ) -> (r: bool)
        requires
            old(self).wf(),
            code_block::interleaved(old(self)@) ==> {
                &&& pages::in_half(old(self)@.page_size, base_ptr.0 as nat, old(self)@.outlined)
                &&& pages::in_half(
                    old(self)@.page_size,
                    old(self)@.other_write_pos,
                    !old(self)@.outlined,
                )
            },
            can_move_on(old(self)@, base_ptr.0 as nat) ==> {
                &&& code_block::capacity_for(
                    about_to_jump(old(self)@, base_ptr.0 as nat),
                    old(self)@.jmp_ptr_bytes,
                )
                &&& base_ptr.0 + old(self)@.jmp_ptr_bytes <= usize::MAX
                &&& old(self)@.past_page_bytes[0] + old(self)@.page_size <= usize::MAX
                &&& old(self)@.past_page_bytes[1] + old(self)@.page_size <= usize::MAX
                &&& base_ptr.0 <= pages::half_page_start(
                    old(self)@.page_size,
                    base_ptr.0 as nat,
                    old(self)@.outlined,
                ) + old(self)@.page_size / 2
            },
            forall|c: &mut CodeBlock, dst: CodePtr|
                c.wf() && jumps_to(old(self)@, base_ptr.0 as nat, c@, dst)
                    ==> #[trigger] call_requires(jmp_ptr, (c, dst)),
            forall|c: &mut CodeBlock, dst: CodePtr|
                c.wf() && jumps_to(old(self)@, base_ptr.0 as nat, c@, dst)
                    && #[trigger] call_ensures(jmp_ptr, (c, dst), ()) ==> jumped_ok(*c, *final(c)),
        ensures
            final(self).wf(),
            !can_move_on(old(self)@, base_ptr.0 as nat) ==> !r && final(self)@ == old(self)@,
            can_move_on(old(self)@, base_ptr.0 as nat) ==> exists|c: &mut CodeBlock, dst: CodePtr|
                #[trigger] call_ensures(jmp_ptr, (c, dst), ()) && c.wf() && jumps_to(
                    old(self)@,
                    base_ptr.0 as nat,
                    c@,
                    dst,
                ) && r == !final(c)@.dropped_bytes && final(self)@ == if r {
                    moved_on(old(self)@, base_ptr.0 as nat, final(c)@)
                } else {
                    (CbModel {
                        page_end_reserve: old(self)@.page_end_reserve,
                        write_pos: old(self)@.write_pos,
                        ..final(c)@
                    })
                },
            r ==> code_block::halves_ok(final(self)@),
    {
        if !self.is_interleaved() {
            return false;
        }
        let ghost m = self@;
        let ghost base = base_ptr.0 as nat;
        proof {
            lemma_next_page(m, base);
        }
        let old_write_pos: usize = self.write_pos;
        self.set_write_ptr(base_ptr);
        // If we're already at the start of a fresh half page, moving to another fresh one
        // doesn't help. Whatever failed doesn't fit in half a page, or memory can't be mapped.
        let start: usize = self.half_page_start(self.write_pos, self.outlined);
        if self.write_pos == start {
            self.write_pos = old_write_pos;
            return false;
        }
        // Fail if next page is out of bounds
        let dst: u64 = start as u64 + self.page_size as u64;
        if dst >= self.mem_size as u64 {
            self.write_pos = old_write_pos;
            return false;
        }
        let dst_pos: usize = dst as usize;
        // Reset dropped_bytes
        self.dropped_bytes = false;
        // Generate jmp_ptr from src_pos to dst_pos
        let dst_ptr = self.get_ptr(dst_pos);
        let old_page_end_reserve: usize = self.page_end_reserve;
        self.page_end_reserve = 0;
        self.add_comment("jump to next page");
        assert(self@ == about_to_jump(m, base));
        vstd::pervasive::runtime_assert(self.has_capacity(self.jmp_ptr_bytes));
        jmp_ptr(self, dst_ptr);
        let ghost jumped = self@;
        self.page_end_reserve = old_page_end_reserve;
        if self.dropped_bytes {
            self.write_pos = old_write_pos;
            return false;
        }
        proof {
            self.lemma_jump_end(m, base, jumped);
        }
        self.leave_page(start, dst_pos);
        true
    }

    /// Leave the half page at `start`, at the end of which a jump to `dst_pos` was written.
    fn leave_page(&mut self, start: usize, dst_pos: usize)
        requires
            old(self).wf(),
            code_block::interleaved(old(self)@),
            pages::in_half(old(self)@.page_size, old(self)@.write_pos, old(self)@.outlined),
            pages::in_half(old(self)@.page_size, old(self)@.other_write_pos, !old(self)@.outlined),
            start <= old(self)@.write_pos <= start + old(self)@.page_size / 2,
            pages::half_start(old(self)@.page_size, old(self)@.outlined) <= dst_pos,
            dst_pos + old(self)@.page_size / 2 <= u32::MAX,
            old(self)@.past_page_bytes[0] + old(self)@.page_size <= usize::MAX,
            old(self)@.past_page_bytes[1] + old(self)@.page_size <= usize::MAX,
        ensures
            final(self).wf(),
            code_block::halves_ok(final(self)@),
            final(self)@ == page_left(old(self)@, start as nat, dst_pos as nat),
    {
        let ghost jumped = self@;
        self.page_jump_ends.insert(start, self.write_pos);
        // Update past_page_bytes for code size stats
        self.add_past_bytes(self.write_pos, self.outlined);
        // Start the next code from dst_pos
        self.write_pos = dst_pos;
        // Move the other half to the same page if it's not ahead of it. No jump is written in
        // the other half: it is never left in the middle of a code sequence that falls through.
        let other_outlined: bool = !self.outlined;
        let other_dst_pos: usize = if other_outlined {
            dst_pos + self.page_size / 2
        } else {
            dst_pos - self.page_size / 2
        };
        if self.other_write_pos < other_dst_pos {
            self.add_past_bytes(self.other_write_pos, other_outlined);
            self.other_write_pos = other_dst_pos;
        }
        assert(self@ =~= page_left(jumped, start as nat, dst_pos as nat));
    }

    /// The jump ends on the half page that it is on.
    proof fn lemma_jump_end(&self, m: CbModel, base: nat, jumped: CbModel)
        requires
            code_block::shape_ok(m),
            code_block::interleaved(m),
            pages::in_half(m.page_size, base, m.outlined),
            jumped.page_size == m.page_size,
            base <= jumped.write_pos,
            jumped.write_pos <= pages::half_page_start(m.page_size, base, m.outlined) + m.page_size
                / 2,
        ensures
            pages::half_page_start(m.page_size, jumped.write_pos, m.outlined)
                == pages::half_page_start(m.page_size, base, m.outlined),
            pages::in_half(m.page_size, jumped.write_pos, m.outlined),
    {
        let ps = m.page_size;
        let start = pages::half_page_start(ps, base, m.outlined);
        pages::lemma_half_page(ps, base, m.outlined);
        let h = pages::half_start(ps, m.outlined);
        let n = (base - h) as nat / ps;
        let d = (jumped.write_pos - h) as nat;
        pages::lemma_page_base((base - h) as nat, ps);
        vstd::arithmetic::div_mod::lemma_fundamental_div_mod_converse(
            d as int,
            ps as int,
            n as int,
            d - n * ps,
        );
    }

    /// Count the bytes that a half has written to the page it leaves.
    fn add_past_bytes(&mut self, pos: usize, outlined: bool)
        requires
            old(self).wf(),
            code_block::interleaved(old(self)@),
            pages::in_half(old(self)@.page_size, pos as nat, outlined),
            old(self)@.past_page_bytes[if outlined {
                1int
            } else {
                0
            }] + old(self)@.page_size <= usize::MAX,
        ensures
            final(self).wf(),
            final(self)@ == (CbModel {
                past_page_bytes: past_and(
                    old(self)@.past_page_bytes,
                    outlined,
                    code_block::current_page_bytes(old(self)@, pos as nat, outlined),
                ),
                ..old(self)@
            }),
    {
        let bytes: usize = self.current_page_bytes(pos, outlined);
        if outlined {
            self.past_page_bytes[1] = self.past_page_bytes[1] + bytes;
        } else {
            self.past_page_bytes[0] = self.past_page_bytes[0] + bytes;
        }
    }

    /// Split a code range written by a single half into the pieces that are within a half page,
    /// skipping the other half of pages and the unused tail of half pages left with a jump to
    /// the next page. Returns `[(start, end)]` of non-empty pieces.
    pub fn code_ranges(&self, start: CodePtr, end: CodePtr) -> (r: Vec<(CodePtr, CodePtr)>)
        requires
            self.wf(),
        ensures
            r@ == ranges_between(self@, start, end),
    {
        let mut ranges: Vec<(CodePtr, CodePtr)> = Vec::new();
        if start.0 >= end.0 {
            return ranges;
        }
        if !self.is_interleaved() {
            ranges.push((start, end));
            assert(ranges@ =~= seq![(start, end)]);
            return ranges;
        }
        let ghost m = self@;
        let ghost all = ranges_between(m, start, end);
        let page_size: u64 = self.page_size as u64;
        let end_pos: u64 = end.0 as u64;
        let mut pos: u64 = start.0 as u64;
        assert(ranges@ + pages::pieces(m.page_size, m.jump_ends, pos as nat, end_pos as nat)
            =~= all);
        while pos < end_pos
            invariant
                self.wf(),
                m == self@,
                code_block::interleaved(m),
                page_size == m.page_size,
                end_pos == end.0,
                all == ranges_between(m, start, end),
                ranges@ + pages::pieces(m.page_size, m.jump_ends, pos as nat, end_pos as nat)
                    == all,
            decreases
                    (if pos < end_pos {
                        end_pos - pos
                    } else {
                        0
                    }),
        {
            let ghost before = ranges@;
            let ghost rest = pages::pieces(
                m.page_size,
                m.jump_ends,
                pos as nat,
                end_pos as nat,
            );
            proof {
                pages::lemma_page_base(pos as nat, m.page_size);
            }
            let page_base: u64 = (pos / page_size) * page_size;
            let half_start: u64 = if pos % page_size < page_size / 2 {
                0
            } else {
                page_size / 2
            };
            let half_end: u64 = page_base + half_start + page_size / 2;
            if end_pos <= half_end {
                ranges.push((CodePtr(pos as u32), end));
                assert(ranges@ =~= before + rest);
                return ranges;
            }
            let half_page: usize = (page_base + half_start) as usize;
            let piece_end: u64 = match self.page_jump_ends.get(&half_page) {
                Some(at) => *at as u64,
                None => half_end,
            };
            if pos < piece_end {
                ranges.push((CodePtr(pos as u32), CodePtr(piece_end as u32)));
            }
            pos = page_base + half_start + page_size;
            assert(ranges@ + pages::pieces(m.page_size, m.jump_ends, pos as nat, end_pos as nat)
                =~= before + rest);
        }
        assert(ranges@ + pages::pieces(m.page_size, m.jump_ends, pos as nat, end_pos as nat)
            =~= ranges@);
        ranges
    }

    /// Number of bytes of code in the ranges returned by [`Self::code_ranges`].
    pub fn code_size_between(&self, start: CodePtr, end: CodePtr) -> (r: usize)
        requires
            self.wf(),
        ensures
            r == pages::ranges_size(ranges_between(self@, start, end)),
    {
        let ranges = self.code_ranges(start, end);
        proof {
            lemma_ranges_in_order(self@, start, end);
        }
        let ghost lo = start.0 as nat;
        let ghost hi = end.0 as nat;
        let mut size: usize = 0;
        let mut idx: usize = 0;
        while idx < ranges.len()
            invariant
                idx <= ranges@.len(),
                pages::in_order(ranges@, lo, hi),
                lo <= hi <= u32::MAX || ranges@.len() == 0,
                size == pages::ranges_size(ranges@.take(idx as int)),
                idx > 0 ==> size <= ranges@[idx - 1].1.0 - lo,
                idx == 0 ==> size == 0,
            decreases ranges@.len() - idx,
        {
            let (s, e) = ranges[idx];
            proof {
                assert(lo <= ranges@[idx as int].0.0 < ranges@[idx as int].1.0 <= hi);
                if idx > 0 {
                    assert(ranges@[idx - 1].1.0 <= ranges@[idx as int].0.0);
                }
            }
            size = size + (e.0 - s.0) as usize;
            idx = idx + 1;
            assert(ranges@.take(idx as int).drop_last() =~= ranges@.take(idx - 1));
        }
        assert(ranges@.take(idx as int) =~= ranges@);
        size
    }
}

/// The pieces of a range of code are not empty, in order, apart, and within the range.
pub proof fn lemma_ranges_in_order(m: CbModel, start: CodePtr, end: CodePtr)
    requires
        code_block::shape_ok(m),
    ensures
        pages::in_order(ranges_between(m, start, end), start.0 as nat, end.0 as nat),
{
    if start.0 < end.0 && code_block::interleaved(m) {
        pages::law_pieces(m.page_size, m.jump_ends, start.0 as nat, end.0 as nat);
    }
}

/// Directing writes at the other half and back leaves a code block as it was.
pub proof fn law_outlining_is_undone(m: CbModel, outlined: bool)
    requires
        code_block::shape_ok(m),
    ensures
        code_block::outlined_set(code_block::outlined_set(m, outlined), m.outlined) == m,
{
}

/// What one half writes does not move the other half, nor change how far it got.
pub proof fn law_halves_are_independent(m: CbModel, bytes: Seq<u8>)
    ensures
        code_block::bytes_written(m, bytes).other_write_pos == m.other_write_pos,
        code_block::bytes_written(m, bytes).outlined == m.outlined,
        code_block::bytes_written(m, bytes).past_page_bytes == m.past_page_bytes,
        code_block::bytes_written(m, bytes).jump_ends == m.jump_ends,
    decreases bytes.len(),
{
    if bytes.len() > 0 {
        law_halves_are_independent(m, bytes.drop_last());
    }
}

/// Whether both halves write to the same page.
pub open spec fn on_one_page(m: CbModel) -> bool {
    pages::half_page_start(m.page_size, m.write_pos, m.outlined) - pages::half_start(
        m.page_size,
        m.outlined,
    ) == pages::half_page_start(m.page_size, m.other_write_pos, !m.outlined) - pages::half_start(
        m.page_size,
        !m.outlined,
    )
}

/// Outlined code stays close to the inline code: halves that write to the same page move to the
/// next page together, each to its start.
pub proof fn law_halves_move_together(m: CbModel, base: nat, jumped: CbModel)
    requires
        code_block::shape_ok(m),
        can_move_on(m, base),
        pages::in_half(m.page_size, base, m.outlined),
        pages::in_half(m.page_size, m.other_write_pos, !m.outlined),
        on_one_page(CbModel { write_pos: base, ..m }),
        jumped.page_size == m.page_size,
        jumped.outlined == m.outlined,
        jumped.other_write_pos == m.other_write_pos,
    ensures
        ({
            let after = moved_on(m, base, jumped);
            &&& on_one_page(after)
            &&& after.write_pos == pages::half_page_start(m.page_size, base, m.outlined)
                + m.page_size
            &&& after.other_write_pos == pages::half_page_start(
                m.page_size,
                m.other_write_pos,
                !m.outlined,
            ) + m.page_size
        }),
{
    let ps = m.page_size;
    let o = m.outlined;
    let after = moved_on(m, base, jumped);
    let here = pages::half_page_start(ps, base, o);
    let there = pages::half_page_start(ps, m.other_write_pos, !o);
    lemma_next_page(m, base);
    pages::lemma_half_page(ps, m.other_write_pos, !o);
    lemma_next_half_page_start(ps, base, o);
    lemma_next_half_page_start(ps, m.other_write_pos, !o);
    assert(after.write_pos == here + ps);
    assert(after.other_write_pos == there + ps);
}

/// The half page after the one at a position starts where it starts.
pub proof fn lemma_next_half_page_start(page_size: nat, pos: nat, outlined: bool)
    requires
        pages::is_page_size(page_size),
        pages::in_half(page_size, pos, outlined),
    ensures
        ({
            let next = pages::half_page_start(page_size, pos, outlined) + page_size;
            pages::half_page_start(page_size, next, outlined) == next
        }),
{
    let start = pages::half_page_start(page_size, pos, outlined);
    let h = pages::half_start(page_size, outlined);
    pages::lemma_half_page_number(page_size, pos, outlined);
    let n = start / page_size;
    assert((n + 1) * page_size == n * page_size + page_size) by (nonlinear_arith);
    vstd::arithmetic::div_mod::lemma_fundamental_div_mod_converse(
        start + page_size - h,
        page_size as int,
        (n + 1) as int,
        0,
    );
}

/// Writes stay within their half page, short of what is reserved at its end.
pub proof fn law_writes_stay_in_half(m: CbModel, bytes: Seq<u8>)
    requires
        code_block::shape_ok(m),
        code_block::interleaved(m),
        m.page_bounds_check,
        pages::in_half(m.page_size, m.write_pos, m.outlined),
        m.write_pos <= pages::half_page_start(m.page_size, m.write_pos, m.outlined) + m.page_size
            / 2 - m.page_end_reserve,
    ensures
        ({
            let after = code_block::bytes_written(m, bytes);
            let start = pages::half_page_start(m.page_size, m.write_pos, m.outlined);
            &&& m.write_pos <= after.write_pos <= start + m.page_size / 2 - m.page_end_reserve
            &&& pages::half_page_start(m.page_size, after.write_pos, m.outlined) == start
            &&& after.page_size == m.page_size
            &&& after.page_end_reserve == m.page_end_reserve
            &&& after.page_bounds_check
            &&& after.outlined == m.outlined
        }),
    decreases bytes.len(),
{
    if bytes.len() > 0 {
        let init = bytes.drop_last();
        law_writes_stay_in_half(m, init);
        pages::lemma_half_page(m.page_size, m.write_pos, m.outlined);
        let before = code_block::bytes_written(m, init);
        let after = code_block::byte_written(before, bytes.last());
        lemma_same_half_page(m.page_size, m.write_pos, after.write_pos, m.outlined);
    }
}

/// Positions on the same half page have the same half page start.
pub proof fn lemma_same_half_page(page_size: nat, pos: nat, at: nat, outlined: bool)
    requires
        pages::is_page_size(page_size),
        pages::in_half(page_size, pos, outlined),
        pages::half_page_start(page_size, pos, outlined) <= at,
        at < pages::half_page_start(page_size, pos, outlined) + page_size,
    ensures
        pages::half_page_start(page_size, at, outlined) == pages::half_page_start(
            page_size,
            pos,
            outlined,
        ),
{
    let h = pages::half_start(page_size, outlined);
    pages::lemma_half_page(page_size, pos, outlined);
    let n = (pos - h) as nat / page_size;
    pages::lemma_page_base((pos - h) as nat, page_size);
    let d = (at - h) as nat;
    vstd::arithmetic::div_mod::lemma_fundamental_div_mod_converse(
        d as int,
        page_size as int,
        n as int,
        d - n * page_size,
    );
}

} // verus!
