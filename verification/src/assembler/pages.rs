//! Code pages and their halves.
//!
//! When inline (hot) and outlined (cold) code are interleaved, each code page is split into
//! two halves: inline code is written into the first half of each page and outlined code into
//! the second half.

use vstd::prelude::*;

use crate::virtualmem::CodePtr;

verus! {

/// Whether `page_size` can be the size of a code page: it has two equal halves.
pub open spec fn is_page_size(page_size: nat) -> bool {
    page_size > 0 && page_size % 2 == 0
}

/// Offset within a code page where the given half starts.
pub open spec fn half_start(page_size: nat, outlined: bool) -> nat {
    if outlined {
        page_size / 2
    } else {
        0
    }
}

/// Position where the half page that `pos` writes to starts. The end of the outlined half of
/// a page is the start of the next page, so it's not just a matter of `pos % page_size`.
pub open spec fn half_page_start(page_size: nat, pos: nat, outlined: bool) -> nat {
    if outlined {
        if pos < page_size / 2 {
            page_size / 2
        } else {
            ((pos - page_size / 2) as nat / page_size) * page_size + page_size / 2
        }
    } else {
        (pos / page_size) * page_size
    }
}

/// Whether the given half can be written to at `pos`: outlined code never starts below the
/// second half of the first page.
pub open spec fn in_half(page_size: nat, pos: nat, outlined: bool) -> bool {
    outlined ==> pos >= page_size / 2
}

/// A position is in the page it is in.
pub proof fn lemma_page_base(pos: nat, page_size: nat)
    requires
        page_size > 0,
    ensures
        (pos / page_size) * page_size <= pos < (pos / page_size) * page_size + page_size,
        pos % page_size == pos - (pos / page_size) * page_size,
{
    vstd::arithmetic::div_mod::lemma_fundamental_div_mod(pos as int, page_size as int);
    assert(page_size * (pos / page_size) == (pos / page_size) * page_size) by (nonlinear_arith);
}

/// A position is in the half page that it writes to, or right behind one.
pub proof fn lemma_half_page(page_size: nat, pos: nat, outlined: bool)
    requires
        is_page_size(page_size),
        in_half(page_size, pos, outlined),
    ensures
        half_page_start(page_size, pos, outlined) <= pos < half_page_start(
            page_size,
            pos,
            outlined,
        ) + page_size,
{
    if outlined {
        lemma_page_base((pos - page_size / 2) as nat, page_size);
    } else {
        lemma_page_base(pos, page_size);
    }
}

/// A half page starts at a whole number of half pages, on the page that its number says.
pub proof fn lemma_half_page_number(page_size: nat, pos: nat, outlined: bool)
    requires
        is_page_size(page_size),
        in_half(page_size, pos, outlined),
    ensures
        ({
            let start = half_page_start(page_size, pos, outlined);
            &&& start == (start / page_size) * page_size + half_start(page_size, outlined)
            &&& page_size * (start / page_size) == (start / page_size) * page_size
        }),
{
    let start = half_page_start(page_size, pos, outlined);
    let n = if outlined {
        (pos - page_size / 2) as nat / page_size
    } else {
        pos / page_size
    };
    let h = half_start(page_size, outlined);
    assert(start == n * page_size + h);
    assert((n * page_size + h) / page_size == n) by {
        vstd::arithmetic::div_mod::lemma_fundamental_div_mod_converse(
            (n * page_size + h) as int,
            page_size as int,
            n as int,
            h as int,
        );
    }
    assert(page_size * (start / page_size) == (start / page_size) * page_size) by (nonlinear_arith);
}

/// The pieces of the code from `pos` up to `end`, written by one half, that are within a half
/// page: the other half of pages is skipped, and so is the unused tail of half pages that were
/// left with a jump to the next page. `jump_ends` says where those jumps end.
pub open spec fn pieces(page_size: nat, jump_ends: Map<usize, usize>, pos: nat, end: nat) -> Seq<
    (CodePtr, CodePtr),
>
    decreases
        (if pos < end {
            end - pos
        } else {
            0
        }),
{
    if !is_page_size(page_size) || pos >= end {
        Seq::empty()
    } else {
        let page_base = (pos / page_size) * page_size;
        let half = half_start(page_size, pos % page_size >= page_size / 2);
        let half_page = page_base + half;
        if end <= half_page + page_size / 2 {
            seq![(CodePtr(pos as u32), CodePtr(end as u32))]
        } else {
            let piece_end = if jump_ends.dom().contains(half_page as usize) {
                jump_ends[half_page as usize] as nat
            } else {
                half_page + page_size / 2
            };
            proof {
                lemma_page_base(pos, page_size);
            }
            (if pos < piece_end {
                seq![(CodePtr(pos as u32), CodePtr(piece_end as u32))]
            } else {
                Seq::empty()
            }) + pieces(page_size, jump_ends, half_page + page_size, end)
        }
    }
}

/// The bytes in some ranges.
pub open spec fn ranges_size(ranges: Seq<(CodePtr, CodePtr)>) -> int
    decreases ranges.len(),
{
    if ranges.len() == 0 {
        0
    } else {
        ranges_size(ranges.drop_last()) + (ranges.last().1.0 - ranges.last().0.0)
    }
}

/// Whether each entry says where a jump at the end of a half page ends: within that half page.
pub open spec fn jump_ends_ok(page_size: nat, jump_ends: Map<usize, usize>) -> bool {
    forall|k: usize| #[trigger]
        jump_ends.dom().contains(k) ==> k <= jump_ends[k] && jump_ends[k] <= k + page_size / 2
            && jump_ends[k] <= u32::MAX
}

/// Pieces are not empty, follow each other without overlap, and lie between `pos` and `end`.
pub open spec fn in_order(ranges: Seq<(CodePtr, CodePtr)>, pos: nat, end: nat) -> bool {
    &&& forall|i: int|
        0 <= i < ranges.len() ==> pos <= (#[trigger] ranges[i]).0.0 < ranges[i].1.0 <= end
    &&& forall|i: int, j: int|
        0 <= i < j < ranges.len() ==> (#[trigger] ranges[i]).1.0 <= (#[trigger] ranges[j]).0.0
}

/// Splitting code into pieces gives pieces that are not empty, in order, apart, and within the
/// code. Each lies within one half page, and all in the same half.
pub proof fn law_pieces(page_size: nat, jump_ends: Map<usize, usize>, pos: nat, end: nat)
    requires
        is_page_size(page_size),
        jump_ends_ok(page_size, jump_ends),
        end <= u32::MAX,
    ensures
        in_order(pieces(page_size, jump_ends, pos, end), pos, end),
        forall|i: int|
            0 <= i < pieces(page_size, jump_ends, pos, end).len() ==> in_one_half(
                page_size,
                #[trigger] pieces(page_size, jump_ends, pos, end)[i],
                pos % page_size >= page_size / 2,
            ),
    decreases
        (if pos < end {
            end - pos
        } else {
            0
        }),
{
    if pos < end {
        lemma_page_base(pos, page_size);
        let page_base = (pos / page_size) * page_size;
        let cold = pos % page_size >= page_size / 2;
        let half = half_start(page_size, cold);
        let half_page = page_base + half;
        if end <= half_page + page_size / 2 {
            lemma_same_half(page_size, pos);
        } else {
            let next = half_page + page_size;
            let rest = pieces(page_size, jump_ends, next, end);
            lemma_next_half_page(page_size, pos);
            law_pieces(page_size, jump_ends, next, end);
            let all = pieces(page_size, jump_ends, pos, end);
            let piece_end = if jump_ends.dom().contains(half_page as usize) {
                jump_ends[half_page as usize] as nat
            } else {
                half_page + page_size / 2
            };
            assert(half_page as usize == half_page);
            assert(piece_end <= half_page + page_size / 2);
            if pos < piece_end {
                let first = (CodePtr(pos as u32), CodePtr(piece_end as u32));
                assert(all == seq![first] + rest);
                assert forall|i: int| 0 <= i < all.len() implies pos <= (#[trigger] all[i]).0.0
                    < all[i].1.0 <= end && in_one_half(page_size, all[i], cold) by {
                    if i > 0 {
                        assert(all[i] == rest[i - 1]);
                    }
                }
                assert forall|i: int, j: int| 0 <= i < j < all.len() implies (
                #[trigger] all[i]).1.0 <= (#[trigger] all[j]).0.0 by {
                    assert(all[j] == rest[j - 1]);
                    if i > 0 {
                        assert(all[i] == rest[i - 1]);
                    }
                }
            } else {
                assert(all =~= rest);
            }
        }
    }
}

/// Whether a range lies within one half page, of the given half.
pub open spec fn in_one_half(page_size: nat, range: (CodePtr, CodePtr), outlined: bool) -> bool {
    let base = (range.0.0 as nat / page_size) * page_size;
    let start = base + half_start(page_size, outlined);
    start <= range.0.0 && range.1.0 <= start + page_size / 2
}

/// A position is in the half page it is in.
proof fn lemma_same_half(page_size: nat, pos: nat)
    requires
        is_page_size(page_size),
    ensures
        ({
            let base = (pos / page_size) * page_size;
            let start = base + half_start(page_size, pos % page_size >= page_size / 2);
            start <= pos < start + page_size / 2
        }),
{
    lemma_page_base(pos, page_size);
}

/// The same half of the next page.
proof fn lemma_next_half_page(page_size: nat, pos: nat)
    requires
        is_page_size(page_size),
    ensures
        ({
            let cold = pos % page_size >= page_size / 2;
            let next = (pos / page_size) * page_size + half_start(page_size, cold) + page_size;
            &&& next > pos
            &&& (next % page_size >= page_size / 2) == cold
        }),
{
    lemma_page_base(pos, page_size);
    let n = pos / page_size;
    let cold = pos % page_size >= page_size / 2;
    let h = half_start(page_size, cold);
    let next = n * page_size + h + page_size;
    assert(next == (n + 1) * page_size + h) by (nonlinear_arith)
        requires
            next == n * page_size + h + page_size,
    ;
    vstd::arithmetic::div_mod::lemma_fundamental_div_mod_converse(
        next as int,
        page_size as int,
        (n + 1) as int,
        h as int,
    );
}

/// Pieces hold no more bytes than what they are pieces of.
pub proof fn law_pieces_hold_no_more(ranges: Seq<(CodePtr, CodePtr)>, pos: nat, end: nat)
    requires
        in_order(ranges, pos, end),
        pos <= end,
    ensures
        0 <= ranges_size(ranges) <= end - pos,
    decreases ranges.len(),
{
    if ranges.len() > 0 {
        let init = ranges.drop_last();
        let last = ranges.last();
        assert(last == ranges[ranges.len() - 1]);
        assert(in_order(init, pos, last.0.0 as nat)) by {
            assert forall|i: int| 0 <= i < init.len() implies pos <= (#[trigger] init[i]).0.0
                < init[i].1.0 <= last.0.0 by {
                assert(init[i] == ranges[i]);
            }
            assert forall|i: int, j: int| 0 <= i < j < init.len() implies (#[trigger] init[i]).1.0
                <= (#[trigger] init[j]).0.0 by {
                assert(init[i] == ranges[i] && init[j] == ranges[j]);
            }
        }
        law_pieces_hold_no_more(init, pos, last.0.0 as nat);
    }
}

} // verus!
