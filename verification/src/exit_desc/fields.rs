//! The GC-managed fields of encoded descriptors, and why writing them in place changes
//! nothing else.

use vstd::prelude::*;

use crate::cruby;
use super::encoding;
use super::encoding::{DecodedDesc, DecodedHeader, DecodedLoc, DecodedStackMap, ExitLoc};

verus! {

/// The VALUE field of a location, if it has one.
pub open spec fn loc_fields(loc: DecodedLoc) -> Seq<usize> {
    match loc {
        DecodedLoc::Value(field) => seq![field],
        _ => Seq::empty(),
    }
}

/// The VALUE fields of some locations, in order.
pub open spec fn locs_fields(locs: Seq<DecodedLoc>) -> Seq<usize>
    decreases locs.len(),
{
    if locs.len() == 0 {
        Seq::empty()
    } else {
        locs_fields(locs.drop_last()) + loc_fields(locs.last())
    }
}

/// The VALUE fields of some captures, in order.
pub open spec fn captures_fields(captures: Seq<(DecodedLoc, i64)>) -> Seq<usize>
    decreases captures.len(),
{
    if captures.len() == 0 {
        Seq::empty()
    } else {
        captures_fields(captures.drop_last()) + loc_fields(captures.last().0)
    }
}

pub open spec fn stack_map_fields(stack_map: Option<DecodedStackMap>) -> Seq<usize> {
    match stack_map {
        Some(map) => captures_fields(map.captures),
        None => Seq::empty(),
    }
}

/// The VALUE fields of a descriptor: those of its locations, then those of its captures.
pub open spec fn value_fields(d: DecodedDesc) -> Seq<usize> {
    locs_fields(d.locs) + stack_map_fields(d.stack_map)
}

/// The ISEQ fields of a header. A recompile field that is the ISEQ field itself is not
/// listed twice.
pub open spec fn header_fields(header: DecodedHeader) -> Seq<usize> {
    seq![header.iseq] + (if encoding::has_flag(header.flags, encoding::FLAG_RECOMPILE) {
        match header.recompile {
            Some(field) => seq![field],
            None => Seq::empty(),
        }
    } else {
        Seq::empty()
    })
}

/// All fields of a descriptor that the GC may rewrite.
pub open spec fn desc_fields(d: DecodedDesc) -> Seq<usize> {
    header_fields(d.header) + value_fields(d)
}

/// All fields of some descriptors that the GC may rewrite.
pub open spec fn descs_fields(ds: Seq<DecodedDesc>) -> Seq<usize>
    decreases ds.len(),
{
    if ds.len() == 0 {
        Seq::empty()
    } else {
        desc_fields(ds[0]) + descs_fields(ds.skip(1))
    }
}

/// Those of `fields` that hold a heap object.
pub open spec fn heap_fields(bytes: Seq<u8>, fields: Seq<usize>) -> Seq<usize>
    decreases fields.len(),
{
    if fields.len() == 0 {
        Seq::empty()
    } else {
        let init = heap_fields(bytes, fields.drop_last());
        if cruby::is_special_const(encoding::field_word(bytes, fields.last() as int)) {
            init
        } else {
            init.push(fields.last())
        }
    }
}

/// The fields of a descriptor that hold GC-managed objects: its ISEQs, and those VALUEs
/// that are heap objects.
pub open spec fn object_fields(bytes: Seq<u8>, d: DecodedDesc) -> Seq<usize> {
    header_fields(d.header) + heap_fields(bytes, value_fields(d))
}

/// The fields of some descriptors that hold GC-managed objects, in order.
pub open spec fn objects_fields(bytes: Seq<u8>, ds: Seq<DecodedDesc>) -> Seq<usize>
    decreases ds.len(),
{
    if ds.len() == 0 {
        Seq::empty()
    } else {
        object_fields(bytes, ds[0]) + objects_fields(bytes, ds.skip(1))
    }
}

/// Whether `loc` refers to no immediate by index. Decoding looks every immediate up.
pub open spec fn resolved(loc: DecodedLoc) -> bool {
    match loc {
        DecodedLoc::Loc(ExitLoc::Imm(_)) => false,
        DecodedLoc::Loc(ExitLoc::Value(_)) => false,
        _ => true,
    }
}

/// Whether byte `i` belongs to one of `fields`.
pub open spec fn covered(fields: Seq<usize>, i: int) -> bool {
    exists|k: int| 0 <= k < fields.len() && (#[trigger] fields[k]) <= i < fields[k] + 8
}

/// `fields` are 8-byte fields between `lo` and `hi`, in order and without overlap.
pub open spec fn spaced(fields: Seq<usize>, lo: int, hi: int) -> bool {
    &&& forall|k: int|
        0 <= k < fields.len() ==> lo <= (#[trigger] fields[k]) && fields[k] + 8 <= hi
    &&& forall|j: int, k: int|
        0 <= j < k < fields.len() ==> (#[trigger] fields[j]) + 8 <= (#[trigger] fields[k])
}

/// `b2` holds the bytes of `b1` from `lo` up to `hi`, except perhaps in `fields`.
pub open spec fn agree(b1: Seq<u8>, b2: Seq<u8>, lo: int, hi: int, fields: Seq<usize>) -> bool {
    &&& hi <= b1.len() <= usize::MAX
    &&& hi <= b2.len() <= usize::MAX
    &&& forall|i: int| lo <= i < hi && !covered(fields, i) ==> b1[i] == #[trigger] b2[i]
}

/// Fields on both sides of `mid` are together spaced.
pub proof fn lemma_spaced_concat(a: Seq<usize>, b: Seq<usize>, lo: int, mid: int, hi: int)
    requires
        spaced(a, lo, mid),
        spaced(b, mid, hi),
        lo <= mid <= hi,
    ensures
        spaced(a + b, lo, hi),
{
    let c = a + b;
    assert forall|k: int| 0 <= k < c.len() implies lo <= (#[trigger] c[k]) && c[k] + 8 <= hi by {
        if k < a.len() {
            assert(c[k] == a[k]);
        } else {
            assert(c[k] == b[k - a.len()]);
        }
    }
    assert forall|j: int, k: int| 0 <= j < k < c.len() implies (#[trigger] c[j]) + 8 <= (
    #[trigger] c[k]) by {
        if k < a.len() {
            assert(c[j] == a[j] && c[k] == a[k]);
        } else if j < a.len() {
            assert(c[j] == a[j] && c[k] == b[k - a.len()]);
        } else {
            assert(c[j] == b[j - a.len()] && c[k] == b[k - a.len()]);
        }
    }
}

proof fn lemma_spaced_empty(lo: int, hi: int)
    ensures
        spaced(Seq::empty(), lo, hi),
{
}

/// A byte before `mid` is covered by `a + b` only if `a` covers it, and so on.
proof fn lemma_covered_concat(a: Seq<usize>, b: Seq<usize>, lo: int, mid: int, hi: int, i: int)
    requires
        spaced(a, lo, mid),
        spaced(b, mid, hi),
        covered(a + b, i),
    ensures
        i < mid ==> covered(a, i),
        i >= mid ==> covered(b, i),
{
    let c = a + b;
    let k = choose|k: int| 0 <= k < c.len() && (#[trigger] c[k]) <= i < c[k] + 8;
    if k < a.len() {
        assert(c[k] == a[k]);
    } else {
        assert(c[k] == b[k - a.len()]);
    }
}

/// What agrees except in `a + b` agrees below `mid` except in `a`, and from `mid` on
/// except in `b`.
pub proof fn lemma_agree_split(
    b1: Seq<u8>,
    b2: Seq<u8>,
    lo: int,
    mid: int,
    hi: int,
    a: Seq<usize>,
    b: Seq<usize>,
)
    requires
        lo <= mid <= hi,
        spaced(a, lo, mid),
        spaced(b, mid, hi),
        agree(b1, b2, lo, hi, a + b),
    ensures
        agree(b1, b2, lo, mid, a),
        agree(b1, b2, mid, hi, b),
{
    assert forall|i: int| lo <= i < mid && !covered(a, i) implies b1[i] == #[trigger] b2[i] by {
        if covered(a + b, i) {
            lemma_covered_concat(a, b, lo, mid, hi, i);
        }
    }
    assert forall|i: int| mid <= i < hi && !covered(b, i) implies b1[i] == #[trigger] b2[i] by {
        if covered(a + b, i) {
            lemma_covered_concat(a, b, lo, mid, hi, i);
        }
    }
}

proof fn lemma_varint_n_stable(b1: Seq<u8>, b2: Seq<u8>, pos: int, n: nat)
    requires
        encoding::parse_varint_n(b1, pos, n) matches Some((_, end)) && agree(
            b1,
            b2,
            pos,
            end,
            Seq::empty(),
        ),
    ensures
        encoding::parse_varint_n(b2, pos, n) == encoding::parse_varint_n(b1, pos, n),
        encoding::parse_varint_n(b1, pos, n) matches Some((_, end)) && 0 <= pos < end,
    decreases n,
{
    let (v, end) = encoding::parse_varint_n(b1, pos, n).unwrap();
    lemma_varint_n_end(b1, pos, n);
    assert(!covered(Seq::empty(), pos));
    assert(b1[pos] == b2[pos]);
    if b1[pos] >= 128 {
        assert(agree(b1, b2, pos + 1, end, Seq::empty()));
        lemma_varint_n_stable(b1, b2, pos + 1, (n - 1) as nat);
    }
}

pub proof fn lemma_varint_n_end(bytes: Seq<u8>, pos: int, n: nat)
    ensures
        encoding::parse_varint_n(bytes, pos, n) matches Some((_, end)) ==> 0 <= pos < end
            <= bytes.len(),
    decreases n,
{
    if n > 0 && 0 <= pos < bytes.len() && bytes[pos] >= 128 {
        lemma_varint_n_end(bytes, pos + 1, (n - 1) as nat);
    }
}

proof fn lemma_varint_stable(b1: Seq<u8>, b2: Seq<u8>, pos: int)
    requires
        encoding::parse_varint(b1, pos) matches Some((_, end)) && agree(
            b1,
            b2,
            pos,
            end,
            Seq::empty(),
        ),
    ensures
        encoding::parse_varint(b2, pos) == encoding::parse_varint(b1, pos),
        encoding::parse_svarint(b2, pos) == encoding::parse_svarint(b1, pos),
        encoding::parse_i32(b2, pos) == encoding::parse_i32(b1, pos),
{
    lemma_varint_n_stable(b1, b2, pos, encoding::MAX_VARINT_LEN as nat);
}

proof fn lemma_u64_stable(b1: Seq<u8>, b2: Seq<u8>, pos: int)
    requires
        0 <= pos,
        agree(b1, b2, pos, pos + 8, Seq::empty()),
    ensures
        encoding::parse_u64(b2, pos) == encoding::parse_u64(b1, pos),
{
    let w1 = b1.subrange(pos, pos + 8);
    let w2 = b2.subrange(pos, pos + 8);
    assert forall|i: int| 0 <= i < 8 implies w1[i] == w2[i] by {
        assert(!covered(Seq::empty(), pos + i));
        assert(b1[pos + i] == b2[pos + i]);
    }
    assert(w1 =~= w2);
}

proof fn lemma_agree_part(
    b1: Seq<u8>,
    b2: Seq<u8>,
    lo: int,
    hi: int,
    lo2: int,
    hi2: int,
    fields: Seq<usize>,
)
    requires
        agree(b1, b2, lo, hi, fields),
        lo <= lo2,
        hi2 <= hi,
    ensures
        agree(b1, b2, lo2, hi2, fields),
{
}

/// A location's VALUE field lies within the location.
pub proof fn lemma_loc_span(bytes: Seq<u8>, pos: int)
    requires
        bytes.len() <= usize::MAX,
    ensures
        encoding::parse_loc(bytes, pos) matches Some((loc, end)) ==> {
            &&& 0 <= pos < end <= bytes.len()
            &&& spaced(loc_fields(loc), pos, end)
            &&& resolved(loc)
        },
{
    reveal(encoding::parse_loc);
    let n = encoding::MAX_VARINT_LEN as nat;
    lemma_varint_n_end(bytes, pos + 1, n);
    lemma_varint_n_end(bytes, pos + 2, n);
    if let Some((_, p2)) = encoding::parse_varint(bytes, pos + 2) {
        lemma_varint_n_end(bytes, p2, n);
    }
}

proof fn lemma_loc_stable(b1: Seq<u8>, b2: Seq<u8>, pos: int)
    requires
        encoding::parse_loc(b1, pos) matches Some((loc, end)) && agree(
            b1,
            b2,
            pos,
            end,
            loc_fields(loc),
        ),
    ensures
        encoding::parse_loc(b2, pos) == encoding::parse_loc(b1, pos),
{
    lemma_loc_span(b1, pos);
    reveal(encoding::parse_loc);
    let (loc, end) = encoding::parse_loc(b1, pos).unwrap();
    let n = encoding::MAX_VARINT_LEN as nat;
    let tag = b1[pos] % 8;
    lemma_varint_n_end(b1, pos + 1, n);
    lemma_varint_n_end(b1, pos + 2, n);
    if tag == encoding::TAG_VALUE {
        assert(!covered(loc_fields(loc), pos));
        assert(b1[pos] == b2[pos]);
    } else {
        assert(loc_fields(loc) =~= Seq::empty());
        assert(!covered(Seq::empty(), pos));
        assert(b1[pos] == b2[pos]);
        assert(!covered(Seq::empty(), pos + 1));
        if tag == encoding::TAG_SLOT || tag == encoding::TAG_SMALL_IMM {
            lemma_agree_part(b1, b2, pos, end, pos + 1, end, Seq::empty());
            lemma_varint_stable(b1, b2, pos + 1);
        } else if tag == encoding::TAG_IMM {
            lemma_agree_part(b1, b2, pos, end, pos + 1, end, Seq::empty());
            lemma_u64_stable(b1, b2, pos + 1);
        } else if tag == encoding::TAG_STACK_INDIRECT {
            let (_, p2) = encoding::parse_varint(b1, pos + 2).unwrap();
            lemma_varint_n_end(b1, p2, n);
            assert(b1[pos + 1] == b2[pos + 1]);
            lemma_agree_part(b1, b2, pos, end, pos + 2, p2, Seq::empty());
            lemma_varint_stable(b1, b2, pos + 2);
            lemma_agree_part(b1, b2, pos, end, p2, end, Seq::empty());
            lemma_varint_stable(b1, b2, p2);
        } else if tag == encoding::TAG_REG {
        } else if tag != encoding::TAG_MEM && b1[pos] / 8 == 0 {
            assert(b1[pos + 1] == b2[pos + 1]);
            assert(!covered(Seq::empty(), pos + 2));
            assert(b1[pos + 2] == b2[pos + 2]);
        } else {
            assert(b1[pos + 1] == b2[pos + 1]);
            lemma_agree_part(b1, b2, pos, end, pos + 2, end, Seq::empty());
            lemma_varint_stable(b1, b2, pos + 2);
        }
    }
}

/// The VALUE fields of some locations lie among them, and each location has a byte.
pub proof fn lemma_locs_span(bytes: Seq<u8>, pos: int, n: nat)
    requires
        bytes.len() <= usize::MAX,
        0 <= pos <= bytes.len(),
    ensures
        encoding::parse_locs(bytes, pos, n) matches Some((locs, end)) ==> {
            &&& locs.len() == n
            &&& pos + n <= end <= bytes.len()
            &&& spaced(locs_fields(locs), pos, end)
            &&& forall|i: int| 0 <= i < locs.len() ==> resolved(#[trigger] locs[i])
        },
    decreases n,
{
    if n > 0 {
        lemma_locs_span(bytes, pos, (n - 1) as nat);
        if let Some((init, p1)) = encoding::parse_locs(bytes, pos, (n - 1) as nat) {
            lemma_loc_span(bytes, p1);
            if let Some((loc, end)) = encoding::parse_loc(bytes, p1) {
                assert(init.push(loc).drop_last() =~= init);
                lemma_spaced_concat(locs_fields(init), loc_fields(loc), pos, p1, end);
            }
        }
    }
}

proof fn lemma_locs_stable(b1: Seq<u8>, b2: Seq<u8>, pos: int, n: nat)
    requires
        0 <= pos <= b1.len(),
        encoding::parse_locs(b1, pos, n) matches Some((locs, end)) && agree(
            b1,
            b2,
            pos,
            end,
            locs_fields(locs),
        ),
    ensures
        encoding::parse_locs(b2, pos, n) == encoding::parse_locs(b1, pos, n),
    decreases n,
{
    if n > 0 {
        let (locs, end) = encoding::parse_locs(b1, pos, n).unwrap();
        let (init, p1) = encoding::parse_locs(b1, pos, (n - 1) as nat).unwrap();
        lemma_locs_span(b1, pos, (n - 1) as nat);
        lemma_loc_span(b1, p1);
        assert(locs.drop_last() =~= init);
        lemma_agree_split(b1, b2, pos, p1, end, locs_fields(init), loc_fields(locs.last()));
        lemma_locs_stable(b1, b2, pos, (n - 1) as nat);
        lemma_loc_stable(b1, b2, p1);
    }
}

/// The VALUE fields of some captures lie among them, and each capture has a byte.
pub proof fn lemma_captures_span(bytes: Seq<u8>, pos: int, n: nat)
    requires
        bytes.len() <= usize::MAX,
        0 <= pos <= bytes.len(),
    ensures
        encoding::parse_captures(bytes, pos, n) matches Some((captures, end)) ==> {
            &&& captures.len() == n
            &&& pos + n <= end <= bytes.len()
            &&& spaced(captures_fields(captures), pos, end)
            &&& forall|i: int| 0 <= i < captures.len() ==> resolved((#[trigger] captures[i]).0)
        },
    decreases n,
{
    if n > 0 {
        lemma_captures_span(bytes, pos, (n - 1) as nat);
        if let Some((init, p1)) = encoding::parse_captures(bytes, pos, (n - 1) as nat) {
            lemma_loc_span(bytes, p1);
            if let Some((loc, p2)) = encoding::parse_loc(bytes, p1) {
                lemma_varint_n_end(bytes, p2, encoding::MAX_VARINT_LEN as nat);
                if let Some((capture, end)) = encoding::parse_capture(bytes, p1) {
                    assert(init.push(capture).drop_last() =~= init);
                    lemma_spaced_concat(captures_fields(init), loc_fields(loc), pos, p1, end);
                }
            }
        }
    }
}

proof fn lemma_captures_stable(b1: Seq<u8>, b2: Seq<u8>, pos: int, n: nat)
    requires
        0 <= pos <= b1.len(),
        encoding::parse_captures(b1, pos, n) matches Some((captures, end)) && agree(
            b1,
            b2,
            pos,
            end,
            captures_fields(captures),
        ),
    ensures
        encoding::parse_captures(b2, pos, n) == encoding::parse_captures(b1, pos, n),
    decreases n,
{
    if n > 0 {
        let (captures, end) = encoding::parse_captures(b1, pos, n).unwrap();
        let (init, p1) = encoding::parse_captures(b1, pos, (n - 1) as nat).unwrap();
        let (loc, p2) = encoding::parse_loc(b1, p1).unwrap();
        lemma_captures_span(b1, pos, (n - 1) as nat);
        lemma_loc_span(b1, p1);
        lemma_varint_n_end(b1, p2, encoding::MAX_VARINT_LEN as nat);
        assert(captures.drop_last() =~= init);
        lemma_agree_split(b1, b2, pos, p1, end, captures_fields(init), loc_fields(loc));
        lemma_captures_stable(b1, b2, pos, (n - 1) as nat);
        assert(loc_fields(loc) + Seq::empty() =~= loc_fields(loc));
        lemma_spaced_empty(p2, end);
        lemma_agree_split(b1, b2, p1, p2, end, loc_fields(loc), Seq::empty());
        lemma_loc_stable(b1, b2, p1);
        lemma_varint_stable(b1, b2, p2);
    }
}

/// The ISEQ fields of a header lie within it.
pub proof fn lemma_header_span(bytes: Seq<u8>, pos: int)
    requires
        bytes.len() <= usize::MAX,
    ensures
        encoding::parse_header(bytes, pos) matches Some((header, end)) ==> {
            &&& 0 <= pos
            &&& pos + 19 <= end <= bytes.len()
            &&& header.iseq == pos + 8
            &&& encoding::has_flag(header.flags, encoding::FLAG_RECOMPILE) ==> header.recompile
                == Some((pos + 17) as usize)
            &&& !encoding::has_flag(header.flags, encoding::FLAG_RECOMPILE) ==> header.recompile
                is None || header.recompile == Some(header.iseq)
            &&& header.recompile matches Some(field) ==> field + 8 <= end
            &&& spaced(header_fields(header), pos, end)
        },
{
    reveal(encoding::parse_header);
    let n = encoding::MAX_VARINT_LEN as nat;
    lemma_varint_n_end(bytes, pos + 17, n);
    lemma_varint_n_end(bytes, pos + 25, n);
    if let Some((_, p5)) = encoding::parse_varint(bytes, pos + 17) {
        lemma_varint_n_end(bytes, p5, n);
    }
    if let Some((_, p5)) = encoding::parse_varint(bytes, pos + 25) {
        lemma_varint_n_end(bytes, p5, n);
    }
}

proof fn lemma_header_stable(b1: Seq<u8>, b2: Seq<u8>, pos: int)
    requires
        encoding::parse_header(b1, pos) matches Some((header, end)) && agree(
            b1,
            b2,
            pos,
            end,
            header_fields(header),
        ),
    ensures
        encoding::parse_header(b2, pos) == encoding::parse_header(b1, pos),
{
    lemma_header_span(b1, pos);
    let (header, end) = encoding::parse_header(b1, pos).unwrap();
    let fields = header_fields(header);
    reveal(encoding::parse_header);
    let n = encoding::MAX_VARINT_LEN as nat;
    let p4 = if encoding::has_flag(header.flags, encoding::FLAG_RECOMPILE) {
        pos + 25
    } else {
        pos + 17
    };
    lemma_varint_n_end(b1, p4, n);
    let (_, p5) = encoding::parse_varint(b1, p4).unwrap();
    lemma_varint_n_end(b1, p5, n);
    assert forall|i: int| pos <= i < pos + 8 implies b1[i] == #[trigger] b2[i] by {
        assert(!covered(fields, i));
    }
    assert(!covered(fields, pos + 16));
    assert(b1[pos + 16] == b2[pos + 16]);
    assert forall|i: int| p4 <= i < end implies b1[i] == #[trigger] b2[i] by {
        assert(!covered(fields, i));
    }
    lemma_u64_stable(b1, b2, pos);
    lemma_varint_stable(b1, b2, p4);
    lemma_varint_stable(b1, b2, p5);
}

pub proof fn lemma_stack_map_span(bytes: Seq<u8>, pos: int, flags: u8)
    requires
        bytes.len() <= usize::MAX,
        0 <= pos <= bytes.len(),
    ensures
        encoding::parse_stack_map(bytes, pos, flags) matches Some((stack_map, end)) ==> {
            &&& pos <= end <= bytes.len()
            &&& spaced(stack_map_fields(stack_map), pos, end)
            &&& stack_map matches Some(map) ==> map.captures.len() <= bytes.len() && forall|i: int|
                0 <= i < map.captures.len() ==> resolved((#[trigger] map.captures[i]).0)
        },
{
    reveal(encoding::parse_stack_map);
    let n = encoding::MAX_VARINT_LEN as nat;
    lemma_varint_n_end(bytes, pos + 8, n);
    if let Some((_, p2)) = encoding::parse_varint(bytes, pos + 8) {
        lemma_varint_n_end(bytes, p2, n);
        if let Some((count, p3)) = encoding::parse_varint(bytes, p2) {
            lemma_captures_span(bytes, p3, count as nat);
        }
    }
}

proof fn lemma_stack_map_stable(b1: Seq<u8>, b2: Seq<u8>, pos: int, flags: u8)
    requires
        0 <= pos <= b1.len(),
        encoding::parse_stack_map(b1, pos, flags) matches Some((stack_map, end)) && agree(
            b1,
            b2,
            pos,
            end,
            stack_map_fields(stack_map),
        ),
    ensures
        encoding::parse_stack_map(b2, pos, flags) == encoding::parse_stack_map(b1, pos, flags),
{
    lemma_stack_map_span(b1, pos, flags);
    let (stack_map, end) = encoding::parse_stack_map(b1, pos, flags).unwrap();
    reveal(encoding::parse_stack_map);
    if encoding::has_flag(flags, encoding::FLAG_STACK_MAP) {
        let n = encoding::MAX_VARINT_LEN as nat;
        let fields = stack_map_fields(stack_map);
        lemma_varint_n_end(b1, pos + 8, n);
        let (_, p2) = encoding::parse_varint(b1, pos + 8).unwrap();
        lemma_varint_n_end(b1, p2, n);
        let (count, p3) = encoding::parse_varint(b1, p2).unwrap();
        lemma_captures_span(b1, p3, count as nat);
        lemma_spaced_empty(pos, p3);
        assert(Seq::<usize>::empty() + fields =~= fields);
        lemma_agree_split(b1, b2, pos, p3, end, Seq::empty(), fields);
        lemma_agree_part(b1, b2, pos, p3, pos, pos + 8, Seq::empty());
        lemma_u64_stable(b1, b2, pos);
        lemma_agree_part(b1, b2, pos, p3, pos + 8, p2, Seq::empty());
        lemma_varint_stable(b1, b2, pos + 8);
        lemma_agree_part(b1, b2, pos, p3, p2, p3, Seq::empty());
        lemma_varint_stable(b1, b2, p2);
        lemma_captures_stable(b1, b2, p3, count as nat);
    }
}

/// The GC's fields of a descriptor lie within it.
pub proof fn lemma_desc_span(bytes: Seq<u8>, pos: int)
    requires
        bytes.len() <= usize::MAX,
    ensures
        encoding::parse_desc(bytes, pos) matches Some((d, end)) ==> {
            &&& 0 <= pos
            &&& pos + 19 <= end <= bytes.len()
            &&& spaced(desc_fields(d), pos, end)
        },
{
    lemma_header_span(bytes, pos);
    if let Some((header, p1)) = encoding::parse_header(bytes, pos) {
        reveal(encoding::parse_rest);
        let n = (header.num_stack + header.num_locals) as nat;
        lemma_locs_span(bytes, p1, n);
        if let Some((locs, p2)) = encoding::parse_locs(bytes, p1, n) {
            lemma_stack_map_span(bytes, p2, header.flags);
            if let Some((stack_map, p3)) = encoding::parse_stack_map(bytes, p2, header.flags) {
                if let Some((d, end)) = encoding::parse_desc(bytes, pos) {
                    lemma_spaced_concat(
                        locs_fields(locs),
                        stack_map_fields(stack_map),
                        p1,
                        p2,
                        end,
                    );
                    lemma_spaced_concat(header_fields(header), value_fields(d), pos, p1, end);
                }
            }
        }
    }
}

/// The VALUE fields of a descriptor follow its header.
pub proof fn lemma_value_span(bytes: Seq<u8>, pos: int)
    requires
        bytes.len() <= usize::MAX,
        encoding::parse_desc(bytes, pos) is Some,
    ensures
        encoding::parse_desc(bytes, pos) matches Some((d, end)) && encoding::parse_header(
            bytes,
            pos,
        ) matches Some((header, p1)) && {
            &&& d.header == header
            &&& p1 <= end
            &&& spaced(value_fields(d), p1, end)
            &&& d.locs.len() == header.num_stack + header.num_locals <= bytes.len()
            &&& forall|i: int| 0 <= i < d.locs.len() ==> resolved(#[trigger] d.locs[i])
            &&& d.stack_map matches Some(map) ==> map.captures.len() <= bytes.len() && forall|
                i: int,
            |
                0 <= i < map.captures.len() ==> resolved((#[trigger] map.captures[i]).0)
        },
{
    lemma_header_span(bytes, pos);
    let (d, end) = encoding::parse_desc(bytes, pos).unwrap();
    let (header, p1) = encoding::parse_header(bytes, pos).unwrap();
    reveal(encoding::parse_rest);
    let n = (header.num_stack + header.num_locals) as nat;
    lemma_locs_span(bytes, p1, n);
    let (locs, p2) = encoding::parse_locs(bytes, p1, n).unwrap();
    lemma_stack_map_span(bytes, p2, header.flags);
    lemma_spaced_concat(locs_fields(locs), stack_map_fields(d.stack_map), p1, p2, end);
}

proof fn lemma_desc_stable(b1: Seq<u8>, b2: Seq<u8>, pos: int)
    requires
        encoding::parse_desc(b1, pos) matches Some((d, end)) && agree(
            b1,
            b2,
            pos,
            end,
            desc_fields(d),
        ),
    ensures
        encoding::parse_desc(b2, pos) == encoding::parse_desc(b1, pos),
{
    lemma_desc_span(b1, pos);
    lemma_header_span(b1, pos);
    let (d, end) = encoding::parse_desc(b1, pos).unwrap();
    let (header, p1) = encoding::parse_header(b1, pos).unwrap();
    reveal(encoding::parse_rest);
    let n = (header.num_stack + header.num_locals) as nat;
    lemma_locs_span(b1, p1, n);
    let (locs, p2) = encoding::parse_locs(b1, p1, n).unwrap();
    lemma_stack_map_span(b1, p2, header.flags);
    let (stack_map, p3) = encoding::parse_stack_map(b1, p2, header.flags).unwrap();
    let none = Seq::<usize>::empty();
    lemma_spaced_empty(p3, end);
    lemma_spaced_concat(stack_map_fields(stack_map), none, p2, p3, end);
    assert(stack_map_fields(stack_map) + none =~= stack_map_fields(stack_map));
    lemma_spaced_concat(locs_fields(locs), stack_map_fields(stack_map), p1, p2, end);
    lemma_agree_split(b1, b2, pos, p1, end, header_fields(header), value_fields(d));
    lemma_header_stable(b1, b2, pos);
    lemma_agree_split(b1, b2, p1, p2, end, locs_fields(locs), stack_map_fields(stack_map));
    lemma_locs_stable(b1, b2, p1, n);
    lemma_agree_split(b1, b2, p2, p3, end, stack_map_fields(stack_map), none);
    lemma_stack_map_stable(b1, b2, p2, header.flags);
    if encoding::has_flag(header.flags, encoding::FLAG_TRACE) {
        lemma_u64_stable(b1, b2, p3);
    }
}

/// The GC's fields of some descriptors lie among them, in order and without overlap.
pub proof fn lemma_descs_span(bytes: Seq<u8>, pos: int, end: int)
    requires
        bytes.len() <= usize::MAX,
        0 <= pos,
        end <= bytes.len(),
    ensures
        encoding::parse_descs(bytes, pos, end) matches Some(ds) ==> {
            &&& pos <= end
            &&& spaced(descs_fields(ds), pos, end)
        },
    decreases end - pos,
{
    if pos < end {
        lemma_desc_span(bytes, pos);
        if let Some((d, p1)) = encoding::parse_desc(bytes, pos) {
            if p1 <= end {
                lemma_descs_span(bytes, p1, end);
                if let Some(rest) = encoding::parse_descs(bytes, p1, end) {
                    let ds = seq![d] + rest;
                    assert(ds.skip(1) =~= rest);
                    lemma_spaced_concat(desc_fields(d), descs_fields(rest), pos, p1, end);
                }
            }
        }
    }
}

/// Bytes that agree except in the GC's fields hold the same descriptors, laid out the same.
pub proof fn law_layout_ignores_fields(b1: Seq<u8>, b2: Seq<u8>, pos: int, end: int)
    requires
        0 <= pos,
        encoding::parse_descs(b1, pos, end) matches Some(ds) && agree(
            b1,
            b2,
            pos,
            end,
            descs_fields(ds),
        ),
    ensures
        encoding::parse_descs(b2, pos, end) == encoding::parse_descs(b1, pos, end),
    decreases end - pos,
{
    if pos < end {
        let ds = encoding::parse_descs(b1, pos, end).unwrap();
        lemma_desc_span(b1, pos);
        let (d, p1) = encoding::parse_desc(b1, pos).unwrap();
        let rest = encoding::parse_descs(b1, p1, end).unwrap();
        assert(ds.skip(1) =~= rest);
        lemma_descs_span(b1, p1, end);
        lemma_agree_split(b1, b2, pos, p1, end, desc_fields(d), descs_fields(rest));
        lemma_desc_stable(b1, b2, pos);
        law_layout_ignores_fields(b1, b2, p1, end);
    }
}

/// Descriptors up to `mid` and from `mid` on are together the descriptors up to `end`.
pub proof fn lemma_descs_append(bytes: Seq<u8>, pos: int, mid: int, end: int)
    requires
        encoding::parse_descs(bytes, pos, mid) is Some,
        encoding::parse_descs(bytes, mid, end) is Some,
    ensures
        encoding::parse_descs(bytes, pos, end) == Some(
            encoding::parse_descs(bytes, pos, mid).unwrap() + encoding::parse_descs(
                bytes,
                mid,
                end,
            ).unwrap(),
        ),
        descs_fields(encoding::parse_descs(bytes, pos, end).unwrap()) == descs_fields(
            encoding::parse_descs(bytes, pos, mid).unwrap(),
        ) + descs_fields(encoding::parse_descs(bytes, mid, end).unwrap()),
    decreases mid - pos,
{
    let a = encoding::parse_descs(bytes, pos, mid).unwrap();
    let b = encoding::parse_descs(bytes, mid, end).unwrap();
    if pos == mid {
        assert(a + b =~= b);
        assert(descs_fields(a) + descs_fields(b) =~= descs_fields(b));
    } else {
        let (d, p1) = encoding::parse_desc(bytes, pos).unwrap();
        let rest = encoding::parse_descs(bytes, p1, mid).unwrap();
        lemma_descs_append(bytes, p1, mid, end);
        lemma_descs_forward(bytes, mid, end);
        assert(a + b =~= seq![d] + (rest + b));
        assert(a.skip(1) =~= rest);
        assert((a + b).skip(1) =~= rest + b);
        assert(descs_fields(a) + descs_fields(b) =~= desc_fields(d) + (descs_fields(rest)
            + descs_fields(b)));
    }
}

proof fn lemma_descs_forward(bytes: Seq<u8>, pos: int, end: int)
    requires
        encoding::parse_descs(bytes, pos, end) is Some,
    ensures
        pos <= end,
{
}

/// A run of descriptors that passes `mid` is at a descriptor boundary there.
pub proof fn lemma_descs_split(bytes: Seq<u8>, pos: int, mid: int, end: int)
    requires
        encoding::parse_descs(bytes, pos, mid) is Some,
        encoding::parse_descs(bytes, pos, end) is Some,
        mid <= end,
    ensures
        encoding::parse_descs(bytes, mid, end) is Some,
    decreases mid - pos,
{
    if pos < mid {
        let (d, p1) = encoding::parse_desc(bytes, pos).unwrap();
        lemma_descs_split(bytes, p1, mid, end);
    }
}

/// Whether a descriptor starts, or the last one ends, at `pos` of the table `bytes`.
pub open spec fn boundary(bytes: Seq<u8>, pos: int) -> bool {
    &&& 0 <= pos <= bytes.len()
    &&& encoding::parse_descs(bytes, 0, pos) is Some
    &&& encoding::parse_descs(bytes, pos, bytes.len() as int) is Some
}

/// Between two boundaries there are whole descriptors.
pub proof fn lemma_boundaries(bytes: Seq<u8>, pos: int, end: int)
    requires
        boundary(bytes, pos),
        boundary(bytes, end),
        pos <= end,
    ensures
        encoding::parse_descs(bytes, pos, end) is Some,
{
    lemma_descs_split(bytes, 0, pos, end);
}

} // verus!
