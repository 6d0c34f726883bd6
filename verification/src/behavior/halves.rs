//! Which half of which code page code goes to.

use vstd::prelude::*;

use crate::assembler::code_block::{CbModel, CodeBlock};
use crate::assembler::pages;
use crate::assembler::paging;
use crate::virtualmem::CodePtr;
use super::code;

verus! {

/// Directing writes at a half: code goes on where that half was, and both halves stay where they
/// were. What was set before is what is returned.
pub proof fn law_directing_writes(
    before: &CodeBlock,
    cb: &mut CodeBlock,
    outlined: bool,
    was: bool,
    after: &CodeBlock,
    half: bool,
    pos_before: usize,
    pos_after: usize,
    goes_on: usize,
    is: bool,
)
    requires
        before.wf(),
        *cb == *before,
        call_ensures(CodeBlock::set_outlined, (cb, outlined), was),
        *after == *final(cb),
        call_ensures(CodeBlock::write_pos_for, (before, half), pos_before),
        call_ensures(CodeBlock::write_pos_for, (after, half), pos_after),
        call_ensures(CodeBlock::get_write_pos, (after,), goes_on),
        call_ensures(CodeBlock::is_outlined, (after,), is),
    ensures
        was == before.outlined,
        pos_after == pos_before,
        before.page_size != 0 ==> is == outlined && (half == outlined ==> goes_on == pos_before),
        before.page_size == 0 ==> is == was && goes_on == before.write_pos,
        half == before.outlined ==> pos_before == before.write_pos,
        half != before.outlined ==> pos_before == before.other_write_pos,
        after.mem_block@ == before.mem_block@,
        after.dropped_bytes == before.dropped_bytes,
        code::same_but_code(
            CodeBlock { other_write_pos: after.other_write_pos, outlined: after.outlined,
                ..*before },
            *after,
        ),
{
}

/// What a code block says of itself.
pub proof fn law_positions(
    cb: &CodeBlock,
    write_pos: usize,
    write_ptr: CodePtr,
    inlined: CodePtr,
    outlined: CodePtr,
    interleaved: bool,
    page_size: usize,
    jmp_ptr_bytes: usize,
    dropped: bool,
    mapped: usize,
    size: usize,
)
    requires
        cb.wf(),
        call_ensures(CodeBlock::get_write_pos, (cb,), write_pos),
        call_ensures(CodeBlock::get_write_ptr, (cb,), write_ptr),
        call_ensures(CodeBlock::inlined_write_ptr, (cb,), inlined),
        call_ensures(CodeBlock::outlined_write_ptr, (cb,), outlined),
        call_ensures(CodeBlock::is_interleaved, (cb,), interleaved),
        call_ensures(CodeBlock::page_size, (cb,), page_size),
        call_ensures(CodeBlock::jmp_ptr_bytes, (cb,), jmp_ptr_bytes),
        call_ensures(CodeBlock::has_dropped_bytes, (cb,), dropped),
        call_ensures(CodeBlock::mapped_region_size, (cb,), mapped),
        call_ensures(CodeBlock::virtual_region_size, (cb,), size),
    ensures
        write_pos == cb.write_pos,
        write_ptr.0 == cb.write_pos,
        inlined.0 == if cb.outlined {
            cb.other_write_pos
        } else {
            cb.write_pos
        },
        outlined.0 == if cb.outlined {
            cb.write_pos
        } else {
            cb.other_write_pos
        },
        interleaved <==> cb.page_size != 0,
        page_size == cb.page_size,
        jmp_ptr_bytes == cb.jmp_ptr_bytes,
        dropped == cb.dropped_bytes,
        mapped == cb.mem_block.mapped_bytes,
        size == cb.mem_size,
        size == cb.mem_block.bytes@.len(),
{
}

/// Where the half page starts that a position writes to, on the page with number `k`: at most a
/// page before it. The first half starts with the page and the second in its middle.
pub proof fn law_half_page(
    cb: &CodeBlock,
    pos: usize,
    outlined: bool,
    k: nat,
    half_start: usize,
    start: usize,
    used: usize,
    end: usize,
)
    requires
        cb.wf(),
        cb.page_size != 0,
        call_ensures(CodeBlock::half_start, (cb, outlined), half_start),
        call_ensures(CodeBlock::half_page_start, (cb, pos, outlined), start),
        call_ensures(CodeBlock::current_page_bytes, (cb, pos, outlined), used),
        call_ensures(CodeBlock::page_end, (cb,), end),
        k * cb.page_size + half_start <= pos < k * cb.page_size + half_start + cb.page_size,
    ensures
        half_start == if outlined {
            cb.page_size / 2
        } else {
            0
        },
        start == k * cb.page_size + half_start,
        used == pos - start,
        end + cb.page_end_reserve == if cb.outlined {
            cb.page_size as int
        } else {
            (cb.page_size / 2) as int
        },
{
    code::lemma_half_page(
        cb.page_size as nat,
        pos as nat,
        outlined,
        k,
        (k * cb.page_size + half_start) as nat,
    );
}

/// The size of the code of each half: what is on the pages it has left, and what is on the page it
/// is on. `k` and `l` are the numbers of those pages.
pub proof fn law_code_sizes(
    cb: &CodeBlock,
    hot: usize,
    cold: usize,
    inlined: usize,
    outlined: usize,
    k: nat,
    l: nat,
)
    requires
        cb.wf(),
        call_ensures(CodeBlock::write_pos_for, (cb, false), inlined),
        call_ensures(CodeBlock::write_pos_for, (cb, true), outlined),
        call_ensures(CodeBlock::inlined_code_size, (cb,), hot),
        call_ensures(CodeBlock::outlined_code_size, (cb,), cold),
        cb.page_size != 0 ==> {
            &&& k * cb.page_size <= inlined < k * cb.page_size + cb.page_size
            &&& l * cb.page_size + cb.page_size / 2 <= outlined < l * cb.page_size + cb.page_size
                / 2 + cb.page_size
        },
    ensures
        cb.page_size == 0 ==> hot == cb.write_pos && cold == 0,
        cb.page_size != 0 ==> {
            &&& hot == cb.past_page_bytes@[0] + (inlined - k * cb.page_size)
            &&& cold == cb.past_page_bytes@[1] + (outlined - (l * cb.page_size + cb.page_size / 2))
        },
{
    if cb.page_size != 0 {
        let ps = cb.page_size as nat;
        code::lemma_half_page(ps, inlined as nat, false, k, k * ps);
        code::lemma_half_page(ps, outlined as nat, true, l, l * ps + ps / 2);
    }
}

/// Whether some range covers `p`.
pub open spec fn covered(ranges: Seq<(CodePtr, CodePtr)>, p: int) -> bool {
    exists|i: int| 0 <= i < ranges.len() && (#[trigger] ranges[i]).0.0 <= p < ranges[i].1.0
}

/// Whether there is code at `p`, among the code from `start` up to `end` that one half has
/// written: `p` is in the same half, and if code went on behind its half page, it is not behind
/// the jump that left it.
pub open spec fn code_at(cb: CodeBlock, start: CodePtr, end: CodePtr, p: int) -> bool {
    let ps = cb.page_size as int;
    let half_page = p - p % (ps / 2);
    &&& start.0 <= p < end.0
    &&& ps != 0 ==> {
        &&& p % ps >= ps / 2 <==> start.0 as int % ps >= ps / 2
        &&& half_page + ps / 2 < end.0 && cb.page_jump_ends@.dom().contains(half_page as usize)
            ==> p < cb.page_jump_ends@[half_page as usize]
    }
}

/// The half page of a position.
proof fn lemma_half_page_of(ps: nat, pos: nat)
    requires
        ps > 0,
        ps % 2 == 0,
    ensures
        pos - pos % (ps / 2) == (pos / ps) * ps + if pos % ps >= ps / 2 {
            ps / 2
        } else {
            0
        },
        pos % (ps / 2) < ps / 2,
{
    let h = ps / 2;
    let q = pos / ps;
    let r = pos % ps;
    pages::lemma_page_base(pos, ps);
    assert(q * ps == (2 * q) * h) by (nonlinear_arith)
        requires
            ps == 2 * h,
    ;
    if r >= h {
        assert((2 * q + 1) * h == (2 * q) * h + h) by (nonlinear_arith);
        vstd::arithmetic::div_mod::lemma_fundamental_div_mod_converse(
            pos as int,
            h as int,
            (2 * q + 1) as int,
            r - h,
        );
    } else {
        vstd::arithmetic::div_mod::lemma_fundamental_div_mod_converse(
            pos as int,
            h as int,
            (2 * q) as int,
            r as int,
        );
    }
}

/// Positions on one half page.
proof fn lemma_on_half_page(ps: nat, s: nat, p: nat)
    requires
        ps > 0,
        ps % 2 == 0,
        s % (ps / 2) == 0,
        s <= p < s + ps / 2,
    ensures
        p - p % (ps / 2) == s,
        (p % ps >= ps / 2) == (s % ps >= ps / 2),
{
    let h = (ps / 2) as int;
    vstd::arithmetic::div_mod::lemma_fundamental_div_mod(s as int, h);
    vstd::arithmetic::div_mod::lemma_fundamental_div_mod_converse(
        p as int,
        h,
        s as int / h,
        (p - s) as int,
    );
    lemma_half_page_of(ps, p);
    lemma_half_page_of(ps, s);
    pages::lemma_page_base(p, ps);
    pages::lemma_page_base(s, ps);
    let a = (p / ps) as int;
    let b = (s / ps) as int;
    assert(a == b) by (nonlinear_arith)
        requires
            ps > 0,
            0 <= a * ps - b * ps + ps / 2,
            a * ps - b * ps <= ps / 2,
            ps == 2 * (ps / 2),
    ;
}

proof fn lemma_pieces_cover(
    ps: nat,
    jump_ends: Map<usize, usize>,
    pos: nat,
    end: nat,
    p: nat,
)
    requires
        ps > 0,
        ps % 2 == 0,
        pages::jump_ends_ok(ps, jump_ends),
        end <= u32::MAX,
        ps <= u32::MAX,
    ensures
        covered(pages::pieces(ps, jump_ends, pos, end), p as int) <==> {
            let half_page = (p - p % (ps / 2)) as usize;
            &&& pos <= p < end
            &&& p % ps >= ps / 2 <==> pos % ps >= ps / 2
            &&& half_page + ps / 2 < end && jump_ends.dom().contains(half_page) ==> p
                < jump_ends[half_page]
        },
    decreases
        (if pos < end {
            end - pos
        } else {
            0
        }),
{
    let h = ps / 2;
    let ranges = pages::pieces(ps, jump_ends, pos, end);
    if pos < end {
        lemma_half_page_of(ps, pos);
        lemma_half_page_of(ps, p);
        let s = (pos - pos % h) as nat;
        vstd::arithmetic::div_mod::lemma_fundamental_div_mod(pos as int, h as int);
        assert(s % h == 0) by {
            let q = pos / h;
            assert(h * q == q * h) by (nonlinear_arith);
            vstd::arithmetic::div_mod::lemma_fundamental_div_mod_converse(
                s as int,
                h as int,
                q as int,
                0,
            );
        }
        lemma_on_half_page(ps, s, pos);
        if s <= p < s + h {
            lemma_on_half_page(ps, s, p);
        }
        if end <= s + h {
            assert(ranges == seq![(CodePtr(pos as u32), CodePtr(end as u32))]);
            assert(covered(ranges, p as int) <==> pos <= p < end) by {
                if pos <= p < end {
                    assert(ranges[0].0.0 <= p < ranges[0].1.0);
                }
            }
        } else {
            let piece_end = if jump_ends.dom().contains(s as usize) {
                jump_ends[s as usize] as nat
            } else {
                s + h
            };
            let rest = pages::pieces(ps, jump_ends, s + ps, end);
            assert(s as usize == s);
            let first = (CodePtr(pos as u32), CodePtr(piece_end as u32));
            assert(ranges == if pos < piece_end {
                seq![first] + rest
            } else {
                Seq::empty() + rest
            });
            lemma_pieces_cover(ps, jump_ends, s + ps, end, p);
            vstd::arithmetic::div_mod::lemma_mod_add_multiples_vanish(s as int, ps as int);
            assert(covered(ranges, p as int) <==> (pos <= p < piece_end) || covered(
                rest,
                p as int,
            )) by {
                if covered(ranges, p as int) {
                    let i = choose|i: int|
                        0 <= i < ranges.len() && (#[trigger] ranges[i]).0.0 <= p < ranges[i].1.0;
                    if pos < piece_end {
                        if i > 0 {
                            assert(ranges[i] == rest[i - 1]);
                        }
                    } else {
                        assert(ranges =~= rest);
                    }
                }
                if covered(rest, p as int) {
                    let i = choose|i: int|
                        0 <= i < rest.len() && (#[trigger] rest[i]).0.0 <= p < rest[i].1.0;
                    if pos < piece_end {
                        assert(ranges[i + 1] == rest[i]);
                    } else {
                        assert(ranges =~= rest);
                    }
                }
                if pos <= p < piece_end {
                    assert(ranges[0] == first);
                }
            }
            if s + h <= p < s + ps && p < end {
                // On the other half of the page.
                let t = s + h;
                assert(t % h == 0) by {
                    vstd::arithmetic::div_mod::lemma_mod_add_multiples_vanish(s as int, h as int);
                }
                lemma_on_half_page(ps, t, p);
                lemma_other_half(ps, s);
            }
        }
    }
}

/// Next to a half page lies the other half.
proof fn lemma_other_half(ps: nat, s: nat)
    requires
        ps > 0,
        ps % 2 == 0,
        s % (ps / 2) == 0,
    ensures
        ((s + ps / 2) % ps >= ps / 2) != (s % ps >= ps / 2),
{
    let h = ps / 2;
    pages::lemma_page_base(s, ps);
    lemma_half_page_of(ps, s);
    let q = (s / ps) as int;
    if s % ps >= h {
        assert((q + 1) * ps == q * ps + ps) by (nonlinear_arith);
        vstd::arithmetic::div_mod::lemma_fundamental_div_mod_converse(
            (s + h) as int,
            ps as int,
            q + 1,
            0,
        );
    } else {
        vstd::arithmetic::div_mod::lemma_fundamental_div_mod_converse(
            (s + h) as int,
            ps as int,
            q,
            h as int,
        );
    }
}

/// Splitting a range of code covers just the code in it: each position with code in it, and no
/// other. No piece is empty, and they are in order.
pub proof fn law_code_is_covered(
    cb: &CodeBlock,
    start: CodePtr,
    end: CodePtr,
    r: Vec<(CodePtr, CodePtr)>,
    p: u32,
)
    requires
        cb.wf(),
        call_ensures(CodeBlock::code_ranges, (cb, start, end), r),
    ensures
        covered(r@, p as int) <==> code_at(*cb, start, end, p as int),
        forall|i: int| 0 <= i < r@.len() ==> (#[trigger] r@[i]).0.0 < r@[i].1.0,
        forall|i: int, j: int|
            0 <= i < j < r@.len() ==> (#[trigger] r@[i]).1.0 <= (#[trigger] r@[j]).0.0,
{
    let m = cb@;
    paging::lemma_ranges_in_order(m, start, end);
    if start.0 < end.0 {
        if cb.page_size != 0 {
            lemma_pieces_cover(
                m.page_size,
                m.jump_ends,
                start.0 as nat,
                end.0 as nat,
                p as nat,
            );
            lemma_half_page_of(m.page_size, p as nat);
        } else {
            assert(r@[0] == (start, end));
        }
    }
}

/// The bytes in some ranges, the first of them first.
pub open spec fn bytes_in(ranges: Seq<(CodePtr, CodePtr)>) -> int
    decreases ranges.len(),
{
    if ranges.len() == 0 {
        0
    } else {
        ranges[0].1.0 - ranges[0].0.0 + bytes_in(ranges.skip(1))
    }
}

proof fn lemma_bytes_in(ranges: Seq<(CodePtr, CodePtr)>)
    ensures
        bytes_in(ranges) == pages::ranges_size(ranges),
    decreases ranges.len(),
{
    if ranges.len() > 0 {
        let rest = ranges.skip(1);
        let init = ranges.drop_last();
        if rest.len() == 0 {
            assert(bytes_in(rest) == 0);
            assert(pages::ranges_size(init) == 0);
        } else {
            lemma_bytes_in(rest);
            lemma_bytes_in(init);
            assert(rest.drop_last() =~= init.skip(1));
            lemma_bytes_in(rest.drop_last());
            assert(rest.last() == ranges.last());
            assert(init[0] == ranges[0]);
        }
    }
}

/// The size of a range of code is that of the pieces that it is split into.
pub proof fn law_code_size_is_that_of_its_pieces(
    cb: &CodeBlock,
    start: CodePtr,
    end: CodePtr,
    ranges: Vec<(CodePtr, CodePtr)>,
    size: usize,
)
    requires
        cb.wf(),
        call_ensures(CodeBlock::code_ranges, (cb, start, end), ranges),
        call_ensures(CodeBlock::code_size_between, (cb, start, end), size),
    ensures
        size == bytes_in(ranges@),
{
    lemma_bytes_in(ranges@);
}

/// Moving to the next page, from the half page that starts at `start`, on the page with number
/// `k`. It is not done if nothing is on the half page yet or there is no next page. Otherwise a
/// jump is written at the base, to the same half of the next page.
pub proof fn law_next_page<F: Fn(&mut CodeBlock, CodePtr)>(
    cb: &mut CodeBlock,
    base: CodePtr,
    jmp_ptr: F,
    r: bool,
    before: CodeBlock,
    k: nat,
    start: nat,
)
    requires
        cb.wf(),
        before == *cb,
        call_ensures(CodeBlock::next_page::<F>, (cb, base, jmp_ptr), r),
        start == k * before.page_size + if before.outlined {
            before.page_size as nat / 2
        } else {
            0
        },
        before.page_size != 0 ==> start <= base.0 < start + before.page_size,
    ensures
        before.page_size == 0 || base.0 == start || start + before.page_size >= before.mem_size
            ==> !r && final(cb)@ == old(cb)@,
        before.page_size != 0 && base.0 != start && start + before.page_size < before.mem_size
            ==> exists|c: &mut CodeBlock, dst: CodePtr| #[trigger]
            call_ensures(jmp_ptr, (c, dst), ()) && c.write_pos == base.0 && dst.0 == start
                + before.page_size && !c.dropped_bytes && c.page_end_reserve == 0 && c.outlined
                == before.outlined && c.page_size == before.page_size && c.mem_block@
                == before.mem_block@ && c.other_write_pos == before.other_write_pos
                && c.label_addrs@ == before.label_addrs@ && c.label_refs@ == before.label_refs@ && (
            before.keep_comments
                ==> c@.comments[(before.mem_block.base_addr + base.0) as u64].last()
                == "jump to next page"@) && (!before.keep_comments ==> c@.comments
                == before@.comments) && r
                == !final(c).dropped_bytes && final(cb).mem_block@ == final(c).mem_block@
                && final(cb).page_end_reserve == before.page_end_reserve && final(cb).outlined
                == final(c).outlined
                && final(cb).label_addrs@ == final(c).label_addrs@ && final(cb).label_refs@
                == final(c).label_refs@ && (!r ==> final(cb).write_pos == before.write_pos
                && final(cb).other_write_pos == final(c).other_write_pos
                && final(cb).page_jump_ends@ == final(c).page_jump_ends@
                && final(cb).past_page_bytes@ == final(c).past_page_bytes@) && (r
                ==> final(cb).page_jump_ends@ == final(c).page_jump_ends@.insert(
                start as usize,
                final(c).write_pos,
            )),
{
    if before.page_size != 0 {
        let ps = before.page_size as nat;
        code::lemma_half_page(ps, base.0 as nat, before.outlined, k, start);
        paging::lemma_next_page(before@, base.0 as nat);
        if base.0 != start && start + ps < before.mem_size {
            let (c, dst) = choose|c: &mut CodeBlock, dst: CodePtr| #[trigger]
                call_ensures(jmp_ptr, (c, dst), ()) && c.wf() && paging::jumps_to(
                    before@,
                    base.0 as nat,
                    c@,
                    dst,
                ) && r == !final(c)@.dropped_bytes && final(cb)@ == if r {
                    paging::moved_on(before@, base.0 as nat, final(c)@)
                } else {
                    (CbModel {
                        page_end_reserve: before@.page_end_reserve,
                        write_pos: before@.write_pos,
                        ..final(c)@
                    })
                };
            assert(c@.write_pos == c.write_pos);
            assert(c@.page_end_reserve == c.page_end_reserve);
            assert(c@.page_size == c.page_size);
            assert(c@.other_write_pos == c.other_write_pos);
            assert(final(c)@.write_pos == final(c).write_pos);
            assert(final(c)@.other_write_pos == final(c).other_write_pos);
            assert(final(cb)@.page_end_reserve == final(cb).page_end_reserve);
            assert(final(cb)@.write_pos == final(cb).write_pos);
            assert(final(cb)@.other_write_pos == final(cb).other_write_pos);
        }
    }
}

/// Where code goes on after a move to the next page: this half at its start there, and so does the
/// other half, unless it is past that.
pub proof fn law_next_page_is_written_next<F: Fn(&mut CodeBlock, CodePtr)>(
    cb: &mut CodeBlock,
    base: CodePtr,
    jmp_ptr: F,
    before: CodeBlock,
    k: nat,
    start: nat,
)
    requires
        cb.wf(),
        before == *cb,
        call_ensures(CodeBlock::next_page::<F>, (cb, base, jmp_ptr), true),
        start == k * before.page_size + if before.outlined {
            before.page_size as nat / 2
        } else {
            0
        },
        start <= base.0 < start + before.page_size,
        forall|c: &mut CodeBlock, dst: CodePtr| #[trigger]
            call_ensures(jmp_ptr, (c, dst), ()) ==> final(c).page_size == c.page_size
                && final(c).outlined == c.outlined && final(c).other_write_pos == c.other_write_pos,
    ensures
        ({
            let there = start + before.page_size;
            let other = if before.outlined {
                there - before.page_size / 2
            } else {
                there + before.page_size / 2
            };
            &&& final(cb).write_pos == there
            &&& final(cb).other_write_pos == if before.other_write_pos < other {
                other
            } else {
                before.other_write_pos as int
            }
        }),
{
    let ps = before.page_size as nat;
    code::lemma_half_page(ps, base.0 as nat, before.outlined, k, start);
    paging::lemma_next_page(before@, base.0 as nat);
    let (c, dst) = choose|c: &mut CodeBlock, dst: CodePtr| #[trigger]
        call_ensures(jmp_ptr, (c, dst), ()) && c.wf() && paging::jumps_to(
            before@,
            base.0 as nat,
            c@,
            dst,
        ) && true == !final(c)@.dropped_bytes && final(cb)@ == if true {
            paging::moved_on(before@, base.0 as nat, final(c)@)
        } else {
            (CbModel {
                page_end_reserve: before@.page_end_reserve,
                write_pos: before@.write_pos,
                ..final(c)@
            })
        };
    assert(c@.page_size == c.page_size);
    assert(c@.other_write_pos == c.other_write_pos);
    assert(final(c)@.page_size == final(c).page_size);
    assert(final(c)@.other_write_pos == final(c).other_write_pos);
    assert(final(cb)@.write_pos == final(cb).write_pos);
    assert(final(cb)@.other_write_pos == final(cb).other_write_pos);
}

/// What is counted of a page that is left: in this half up to the end of the jump, and in the
/// other half, if it moves too, up to where it was. `l` and `other_start` are the page and the half
/// page of the other half.
pub proof fn law_left_pages_are_counted<F: Fn(&mut CodeBlock, CodePtr)>(
    cb: &mut CodeBlock,
    base: CodePtr,
    jmp_ptr: F,
    before: CodeBlock,
    k: nat,
    start: nat,
    l: nat,
    other_start: nat,
)
    requires
        cb.wf(),
        before == *cb,
        call_ensures(CodeBlock::next_page::<F>, (cb, base, jmp_ptr), true),
        start == k * before.page_size + if before.outlined {
            before.page_size as nat / 2
        } else {
            0
        },
        start <= base.0 < start + before.page_size,
        other_start == l * before.page_size + if before.outlined {
            0
        } else {
            before.page_size as nat / 2
        },
        other_start <= before.other_write_pos < other_start + before.page_size,
        before.past_page_bytes@[0] + before.page_size <= usize::MAX,
        before.past_page_bytes@[1] + before.page_size <= usize::MAX,
        forall|c: &mut CodeBlock, dst: CodePtr| #[trigger]
            call_ensures(jmp_ptr, (c, dst), ()) ==> final(c).page_size == c.page_size
                && final(c).outlined == c.outlined && final(c).other_write_pos == c.other_write_pos
                && final(c).past_page_bytes@ == c.past_page_bytes@
                && start <= final(c).write_pos < start
                + before.page_size,
    ensures
        ({
            let this = if before.outlined {
                1int
            } else {
                0
            };
            let that = 1 - this;
            let there = start + before.page_size;
            let other = if before.outlined {
                there - before.page_size / 2
            } else {
                there + before.page_size / 2
            };
            let jump_end = final(cb).page_jump_ends@[start as usize];
            &&& final(cb).page_jump_ends@.dom().contains(start as usize)
            &&& final(cb).past_page_bytes@[this] == before.past_page_bytes@[this] + (jump_end
                - start)
            &&& final(cb).past_page_bytes@[that] == before.past_page_bytes@[that] + if
                before.other_write_pos < other {
                before.other_write_pos - other_start
            } else {
                0
            }
        }),
{
    let ps = before.page_size as nat;
    code::lemma_half_page(ps, base.0 as nat, before.outlined, k, start);
    code::lemma_half_page(ps, before.other_write_pos as nat, !before.outlined, l, other_start);
    paging::lemma_next_page(before@, base.0 as nat);
    let (c, dst) = choose|c: &mut CodeBlock, dst: CodePtr| #[trigger]
        call_ensures(jmp_ptr, (c, dst), ()) && c.wf() && paging::jumps_to(
            before@,
            base.0 as nat,
            c@,
            dst,
        ) && true == !final(c)@.dropped_bytes && final(cb)@ == if true {
            paging::moved_on(before@, base.0 as nat, final(c)@)
        } else {
            (CbModel {
                page_end_reserve: before@.page_end_reserve,
                write_pos: before@.write_pos,
                ..final(c)@
            })
        };
    assert(c@.page_size == c.page_size);
    assert(c@.other_write_pos == c.other_write_pos);
    assert(final(c)@.page_size == final(c).page_size);
    assert(final(c)@.write_pos == final(c).write_pos);
    assert(final(c)@.other_write_pos == final(c).other_write_pos);
    code::lemma_half_page(ps, final(c).write_pos as nat, before.outlined, k, start);
}

} // verus!
