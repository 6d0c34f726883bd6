//! Decoding undoes encoding.

use vstd::prelude::*;

use crate::le;
use super::encoding;
use super::encoding::{DecodedDesc, DecodedLoc, DescModel, ExitLoc, LocModel, StackMapModel};

verus! {

/// A concatenation stands in some bytes exactly when its parts do, one after the other.
pub proof fn lemma_has_at_concat(bytes: Seq<u8>, pos: int, a: Seq<u8>, b: Seq<u8>)
    ensures
        encoding::has_at(bytes, pos, a + b) <==> encoding::has_at(bytes, pos, a)
            && encoding::has_at(bytes, pos + a.len(), b),
{
    if encoding::has_at(bytes, pos, a + b) {
        let whole = bytes.subrange(pos, pos + (a + b).len());
        assert(bytes.subrange(pos, pos + a.len()) =~= whole.subrange(0, a.len() as int));
        assert((a + b).subrange(0, a.len() as int) =~= a);
        assert(bytes.subrange(pos + a.len(), pos + a.len() + b.len()) =~= whole.subrange(
            a.len() as int,
            (a + b).len() as int,
        ));
        assert((a + b).subrange(a.len() as int, (a + b).len() as int) =~= b);
    }
    if encoding::has_at(bytes, pos, a) && encoding::has_at(bytes, pos + a.len(), b) {
        assert(bytes.subrange(pos, pos + (a + b).len()) =~= bytes.subrange(pos, pos + a.len())
            + bytes.subrange(pos + a.len(), pos + a.len() + b.len()));
    }
}

/// The bytes of an encoding, one by one.
pub proof fn lemma_has_at_index(bytes: Seq<u8>, pos: int, enc: Seq<u8>)
    requires
        encoding::has_at(bytes, pos, enc),
    ensures
        forall|i: int| 0 <= i < enc.len() ==> #[trigger] bytes[pos + i] == enc[i],
{
    assert forall|i: int| 0 <= i < enc.len() implies #[trigger] bytes[pos + i] == enc[i] by {
        assert(bytes.subrange(pos, pos + enc.len())[i] == bytes[pos + i]);
    }
}

/// `128^n`, the number of values that a varint of `n` bytes can hold.
pub open spec fn varint_range(n: nat) -> nat
    decreases n,
{
    if n == 0 {
        1
    } else {
        128 * varint_range((n - 1) as nat)
    }
}

proof fn lemma_varint_n_at(bytes: Seq<u8>, pos: int, v: u64, n: nat)
    requires
        encoding::has_at(bytes, pos, encoding::enc_varint(v as nat)),
        n > 0,
        v < varint_range(n),
    ensures
        encoding::parse_varint_n(bytes, pos, n) == Some(
            (v, pos + encoding::enc_varint(v as nat).len()),
        ),
    decreases n,
{
    let enc = encoding::enc_varint(v as nat);
    lemma_has_at_index(bytes, pos, enc);
    assert(bytes[pos + 0] == enc[0]);
    if v >= 128 {
        let rest = encoding::enc_varint((v / 128) as nat);
        assert(enc =~= seq![(v % 128 + 128) as u8] + rest);
        lemma_has_at_concat(bytes, pos, seq![(v % 128 + 128) as u8], rest);
        assert(varint_range(1) == 128) by {
            reveal_with_fuel(varint_range, 2);
        }
        lemma_varint_n_at(bytes, pos + 1, v / 128, (n - 1) as nat);
    }
}

pub proof fn lemma_varint_at(bytes: Seq<u8>, pos: int, v: u64)
    requires
        encoding::has_at(bytes, pos, encoding::enc_varint(v as nat)),
    ensures
        encoding::parse_varint(bytes, pos) == Some(
            (v, pos + encoding::enc_varint(v as nat).len()),
        ),
{
    assert(varint_range(10) > u64::MAX) by {
        reveal_with_fuel(varint_range, 11);
    }
    lemma_varint_n_at(bytes, pos, v, 10);
}

pub proof fn lemma_svarint_at(bytes: Seq<u8>, pos: int, v: i64)
    requires
        encoding::has_at(bytes, pos, encoding::enc_svarint(v)),
    ensures
        encoding::parse_svarint(bytes, pos) == Some((v, pos + encoding::enc_svarint(v).len())),
{
    let z = encoding::zigzag(v) as u64;
    lemma_varint_at(bytes, pos, z);
    assert(encoding::unzigzag(z) == v);
}

pub proof fn lemma_i32_at(bytes: Seq<u8>, pos: int, v: i32)
    requires
        encoding::has_at(bytes, pos, encoding::enc_svarint(v as i64)),
    ensures
        encoding::parse_i32(bytes, pos) == Some((v, pos + encoding::enc_svarint(v as i64).len())),
{
    lemma_svarint_at(bytes, pos, v as i64);
}

pub proof fn lemma_u64_at(bytes: Seq<u8>, pos: int, v: u64)
    requires
        encoding::has_at(bytes, pos, encoding::enc_u64(v)),
    ensures
        encoding::enc_u64(v).len() == 8,
        encoding::parse_u64(bytes, pos) == Some((v, pos + 8)),
        encoding::parse_field(bytes, pos) == Some((pos as usize, pos + 8)),
        encoding::field_word(bytes, pos) == v,
{
    le::lemma_le_bytes_len(v as nat, 8);
    le::lemma_byte_range_8();
    le::law_le_round_trip(v as nat, 8);
}

proof fn lemma_reg_at(bytes: Seq<u8>, pos: int, reg: u8, bits: u8)
    requires
        bits == 64 ==> reg < 32,
        encoding::has_at(bytes, pos, encoding::enc_loc(LocModel::Reg { reg, bits })),
    ensures
        encoding::parse_loc(bytes, pos) == Some(
            (
                DecodedLoc::Loc(ExitLoc::Reg { reg, bits }),
                pos + encoding::enc_loc(LocModel::Reg { reg, bits }).len(),
            ),
        ),
{
    reveal(encoding::parse_loc);
    let enc = encoding::enc_loc(LocModel::Reg { reg, bits });
    lemma_has_at_index(bytes, pos, enc);
    assert(bytes[pos + 0] == enc[0]);
    if bits != 64 {
        assert(bytes[pos + 1] == enc[1]);
        assert(bytes[pos + 2] == enc[2]);
    }
}

proof fn lemma_slot_at(bytes: Seq<u8>, pos: int, disp: i32, bits: u8)
    requires
        encoding::has_at(bytes, pos, encoding::enc_loc(LocModel::NativeSlot { disp, bits })),
    ensures
        encoding::parse_loc(bytes, pos) == Some(
            (
                DecodedLoc::Loc(ExitLoc::NativeSlot { disp, bits }),
                pos + encoding::enc_loc(LocModel::NativeSlot { disp, bits }).len(),
            ),
        ),
{
    reveal(encoding::parse_loc);
    let tail = encoding::enc_svarint(disp as i64);
    if bits == 64 {
        let head = seq![encoding::tag_byte(encoding::TAG_SLOT, 0)];
        lemma_has_at_concat(bytes, pos, head, tail);
        lemma_has_at_index(bytes, pos, head);
        assert(bytes[pos + 0] == head[0]);
        lemma_i32_at(bytes, pos + 1, disp);
    } else {
        let head = seq![encoding::tag_byte(encoding::TAG_OTHER, 1), bits];
        lemma_has_at_concat(bytes, pos, head, tail);
        lemma_has_at_index(bytes, pos, head);
        assert(bytes[pos + 0] == head[0]);
        assert(bytes[pos + 1] == head[1]);
        lemma_i32_at(bytes, pos + 2, disp);
    }
}

proof fn lemma_mem_at(bytes: Seq<u8>, pos: int, base: u8, bits: u8, disp: i32)
    requires
        base < 32,
        encoding::has_at(bytes, pos, encoding::enc_loc(LocModel::Mem { base, bits, disp })),
    ensures
        encoding::parse_loc(bytes, pos) == Some(
            (
                DecodedLoc::Loc(ExitLoc::Mem { base, bits, disp }),
                pos + encoding::enc_loc(LocModel::Mem { base, bits, disp }).len(),
            ),
        ),
{
    reveal(encoding::parse_loc);
    let tail = encoding::enc_svarint(disp as i64);
    let head = seq![encoding::tag_byte(encoding::TAG_MEM, base), bits];
    lemma_has_at_concat(bytes, pos, head, tail);
    lemma_has_at_index(bytes, pos, head);
    assert(bytes[pos + 0] == head[0]);
    assert(bytes[pos + 1] == head[1]);
    lemma_i32_at(bytes, pos + 2, disp);
}

proof fn lemma_indirect_at(bytes: Seq<u8>, pos: int, slot: i32, disp: i32, bits: u8)
    requires
        encoding::has_at(
            bytes,
            pos,
            encoding::enc_loc(LocModel::StackIndirect { slot, disp, bits }),
        ),
    ensures
        encoding::parse_loc(bytes, pos) == Some(
            (
                DecodedLoc::Loc(ExitLoc::StackIndirect { slot, disp, bits }),
                pos + encoding::enc_loc(LocModel::StackIndirect { slot, disp, bits }).len(),
            ),
        ),
{
    reveal(encoding::parse_loc);
    let head = seq![encoding::tag_byte(encoding::TAG_STACK_INDIRECT, 0), bits];
    let mid = encoding::enc_svarint(slot as i64);
    let tail = encoding::enc_svarint(disp as i64);
    lemma_has_at_concat(bytes, pos, head + mid, tail);
    lemma_has_at_concat(bytes, pos, head, mid);
    lemma_has_at_index(bytes, pos, head);
    assert(bytes[pos + 0] == head[0]);
    assert(bytes[pos + 1] == head[1]);
    lemma_i32_at(bytes, pos + 2, slot);
    lemma_i32_at(bytes, pos + 2 + mid.len(), disp);
}

proof fn lemma_small_imm_at(bytes: Seq<u8>, pos: int, imm: i32)
    requires
        encoding::has_at(bytes, pos, encoding::enc_loc(LocModel::SmallImm(imm))),
    ensures
        encoding::parse_loc(bytes, pos) == Some(
            (
                DecodedLoc::Loc(ExitLoc::SmallImm(imm)),
                pos + encoding::enc_loc(LocModel::SmallImm(imm)).len(),
            ),
        ),
{
    reveal(encoding::parse_loc);
    let head = seq![encoding::tag_byte(encoding::TAG_SMALL_IMM, 0)];
    lemma_has_at_concat(bytes, pos, head, encoding::enc_svarint(imm as i64));
    lemma_has_at_index(bytes, pos, head);
    assert(bytes[pos + 0] == head[0]);
    lemma_i32_at(bytes, pos + 1, imm);
}

proof fn lemma_imm_at(bytes: Seq<u8>, pos: int, imm: u64)
    requires
        encoding::has_at(bytes, pos, encoding::enc_loc(LocModel::Imm(imm))),
    ensures
        encoding::parse_loc(bytes, pos) == Some((DecodedLoc::Imm(imm), pos + 9)),
        encoding::enc_loc(LocModel::Imm(imm)).len() == 9,
{
    reveal(encoding::parse_loc);
    let head = seq![encoding::tag_byte(encoding::TAG_IMM, 0)];
    lemma_has_at_concat(bytes, pos, head, encoding::enc_u64(imm));
    lemma_has_at_index(bytes, pos, head);
    assert(bytes[pos + 0] == head[0]);
    lemma_u64_at(bytes, pos + 1, imm);
}

proof fn lemma_value_at(bytes: Seq<u8>, pos: int, word: u64)
    requires
        encoding::has_at(bytes, pos, encoding::enc_loc(LocModel::Value(word))),
    ensures
        encoding::parse_loc(bytes, pos) == Some((DecodedLoc::Value((pos + 1) as usize), pos + 9)),
        encoding::field_word(bytes, pos + 1) == word,
        encoding::enc_loc(LocModel::Value(word)).len() == 9,
        0 <= pos,
        pos + 9 <= bytes.len(),
{
    reveal(encoding::parse_loc);
    let head = seq![encoding::tag_byte(encoding::TAG_VALUE, 0)];
    lemma_has_at_concat(bytes, pos, head, encoding::enc_u64(word));
    lemma_has_at_index(bytes, pos, head);
    assert(bytes[pos + 0] == head[0]);
    lemma_u64_at(bytes, pos + 1, word);
}

/// An encoded location decodes to itself.
pub proof fn law_loc_round_trip(bytes: Seq<u8>, pos: int, m: LocModel)
    requires
        bytes.len() <= usize::MAX,
        encoding::model_encodable(m),
        encoding::has_at(bytes, pos, encoding::enc_loc(m)),
    ensures
        encoding::parse_loc(bytes, pos) matches Some((loc, end)) && end == pos
            + encoding::enc_loc(m).len() && encoding::decoded_loc_model(bytes, loc) == m,
{
    match m {
        LocModel::Reg { reg, bits } => {
            lemma_reg_at(bytes, pos, reg, bits);
        },
        LocModel::NativeSlot { disp, bits } => {
            lemma_slot_at(bytes, pos, disp, bits);
        },
        LocModel::Mem { base, bits, disp } => {
            lemma_mem_at(bytes, pos, base, bits, disp);
        },
        LocModel::StackIndirect { slot, disp, bits } => {
            lemma_indirect_at(bytes, pos, slot, disp, bits);
        },
        LocModel::SmallImm(imm) => {
            lemma_small_imm_at(bytes, pos, imm);
        },
        LocModel::Imm(imm) => {
            lemma_imm_at(bytes, pos, imm);
        },
        LocModel::Value(word) => {
            lemma_value_at(bytes, pos, word);
        },
    }
}

proof fn lemma_locs_at(bytes: Seq<u8>, pos: int, ms: Seq<LocModel>)
    requires
        bytes.len() <= usize::MAX,
        encoding::locs_encodable(ms),
        encoding::has_at(bytes, pos, encoding::enc_locs(ms)),
    ensures
        encoding::parse_locs(bytes, pos, ms.len()) matches Some((locs, end)) && end == pos
            + encoding::enc_locs(ms).len() && locs.len() == ms.len()
            && encoding::decoded_locs_model(bytes, locs) == ms,
    decreases ms.len(),
{
    if ms.len() > 0 {
        let init = ms.drop_last();
        lemma_has_at_concat(bytes, pos, encoding::enc_locs(init), encoding::enc_loc(ms.last()));
        assert forall|i: int| 0 <= i < init.len() implies encoding::model_encodable(
            #[trigger] init[i],
        ) by {
            assert(init[i] == ms[i]);
        }
        lemma_locs_at(bytes, pos, init);
        law_loc_round_trip(bytes, pos + encoding::enc_locs(init).len(), ms.last());
        let (locs, end) = encoding::parse_locs(bytes, pos, ms.len()).unwrap();
        let (locs1, _) = encoding::parse_locs(bytes, pos, init.len()).unwrap();
        assert(locs.drop_last() =~= locs1);
        assert forall|i: int| 0 <= i < ms.len() implies encoding::decoded_locs_model(bytes, locs)[i]
            == ms[i] by {
            if i < init.len() {
                assert(encoding::decoded_locs_model(bytes, locs1)[i] == init[i]);
            }
        }
        assert(encoding::decoded_locs_model(bytes, locs) =~= ms);
    } else {
        assert(encoding::decoded_locs_model(bytes, Seq::empty()) =~= ms);
    }
}

proof fn lemma_captures_at(bytes: Seq<u8>, pos: int, ms: Seq<(LocModel, i32)>)
    requires
        bytes.len() <= usize::MAX,
        encoding::captures_encodable(ms),
        encoding::has_at(bytes, pos, encoding::enc_captures(ms)),
    ensures
        encoding::parse_captures(bytes, pos, ms.len()) matches Some((captures, end)) && end == pos
            + encoding::enc_captures(ms).len() && captures.len() == ms.len()
            && encoding::decoded_captures_model(bytes, captures) == ms && forall|i: int|
            0 <= i < ms.len() ==> (#[trigger] captures[i]).1 == ms[i].1,
    decreases ms.len(),
{
    if ms.len() > 0 {
        let init = ms.drop_last();
        let last = ms.last();
        lemma_has_at_concat(
            bytes,
            pos,
            encoding::enc_captures(init),
            encoding::enc_capture(last),
        );
        assert forall|i: int| 0 <= i < init.len() implies encoding::model_encodable(
            (#[trigger] init[i]).0,
        ) by {
            assert(init[i] == ms[i]);
        }
        lemma_captures_at(bytes, pos, init);
        let p1 = pos + encoding::enc_captures(init).len();
        lemma_has_at_concat(
            bytes,
            p1,
            encoding::enc_loc(last.0),
            encoding::enc_svarint(last.1 as i64),
        );
        law_loc_round_trip(bytes, p1, last.0);
        lemma_svarint_at(bytes, p1 + encoding::enc_loc(last.0).len(), last.1 as i64);
        let (captures, end) = encoding::parse_captures(bytes, pos, ms.len()).unwrap();
        let (captures1, _) = encoding::parse_captures(bytes, pos, init.len()).unwrap();
        assert(captures.drop_last() =~= captures1);
        assert forall|i: int| 0 <= i < ms.len() implies encoding::decoded_captures_model(
            bytes,
            captures,
        )[i] == ms[i] by {
            if i < init.len() {
                assert(encoding::decoded_captures_model(bytes, captures1)[i] == init[i]);
            }
        }
        assert(encoding::decoded_captures_model(bytes, captures) =~= ms);
    } else {
        assert(encoding::decoded_captures_model(bytes, Seq::empty()) =~= ms);
    }
}

proof fn lemma_header_at(bytes: Seq<u8>, pos: int, m: DescModel)
    requires
        bytes.len() <= usize::MAX,
        encoding::desc_encodable(m),
        encoding::has_at(bytes, pos, encoding::enc_header(m)),
    ensures
        encoding::parse_header(bytes, pos) matches Some((header, end)) && {
            &&& end == pos + encoding::enc_header(m).len()
            &&& header.pc == m.pc
            &&& encoding::field_word(bytes, header.iseq as int) == m.iseq
            &&& header.recompile matches Some(field) ==> encoding::field_word(bytes, field as int)
                == m.recompile
            &&& header.recompile is None ==> m.recompile == 0
            &&& header.flags == encoding::desc_flags(m)
            &&& header.num_stack == m.stack.len()
            &&& header.num_locals == m.locals.len()
        },
{
    reveal(encoding::parse_header);
    let e1 = encoding::enc_u64(m.pc);
    let e2 = encoding::enc_u64(m.iseq);
    let e3 = seq![encoding::desc_flags(m)];
    let e4 = if m.recompile != m.iseq && m.recompile != 0 {
        encoding::enc_u64(m.recompile)
    } else {
        Seq::empty()
    };
    let e5 = encoding::enc_varint(m.stack.len());
    let e6 = encoding::enc_varint(m.locals.len());
    lemma_has_at_concat(bytes, pos, e1 + e2 + e3 + e4 + e5, e6);
    lemma_has_at_concat(bytes, pos, e1 + e2 + e3 + e4, e5);
    lemma_has_at_concat(bytes, pos, e1 + e2 + e3, e4);
    lemma_has_at_concat(bytes, pos, e1 + e2, e3);
    lemma_has_at_concat(bytes, pos, e1, e2);
    lemma_u64_at(bytes, pos, m.pc);
    lemma_u64_at(bytes, pos + 8, m.iseq);
    lemma_has_at_index(bytes, pos + 16, e3);
    assert(bytes[pos + 16 + 0] == e3[0]);
    if m.recompile != m.iseq && m.recompile != 0 {
        lemma_u64_at(bytes, pos + 17, m.recompile);
    }
    lemma_varint_at(bytes, pos + 17 + e4.len(), m.stack.len() as u64);
    lemma_varint_at(bytes, pos + 17 + e4.len() + e5.len(), m.locals.len() as u64);
}

proof fn lemma_stack_map_at(bytes: Seq<u8>, pos: int, m: StackMapModel, flags: u8)
    requires
        bytes.len() <= usize::MAX,
        encoding::captures_encodable(m.captures),
        m.captures.len() <= u64::MAX,
        encoding::has_at(bytes, pos, encoding::enc_stack_map(m)),
        encoding::has_flag(flags, encoding::FLAG_STACK_MAP),
    ensures
        encoding::parse_stack_map(bytes, pos, flags) matches Some((Some(sm), end)) && {
            &&& end == pos + encoding::enc_stack_map(m).len()
            &&& encoding::decoded_captures_model(bytes, sm.captures) == m.captures
            &&& sm.captures.len() == m.captures.len()
            &&& forall|i: int|
                0 <= i < m.captures.len() ==> (#[trigger] sm.captures[i]).1 == m.captures[i].1
            &&& sm.jit_frame == m.jit_frame
            &&& sm.jit_frame_slot == m.jit_frame_slot
        },
{
    reveal(encoding::parse_stack_map);
    let e1 = encoding::enc_u64(m.jit_frame);
    let e2 = encoding::enc_svarint(m.jit_frame_slot as i64);
    let e3 = encoding::enc_varint(m.captures.len());
    let e4 = encoding::enc_captures(m.captures);
    lemma_has_at_concat(bytes, pos, e1 + e2 + e3, e4);
    lemma_has_at_concat(bytes, pos, e1 + e2, e3);
    lemma_has_at_concat(bytes, pos, e1, e2);
    lemma_u64_at(bytes, pos, m.jit_frame);
    lemma_svarint_at(bytes, pos + 8, m.jit_frame_slot as i64);
    lemma_varint_at(bytes, pos + 8 + e2.len(), m.captures.len() as u64);
    lemma_captures_at(bytes, pos + 8 + e2.len() + e3.len(), m.captures);
}

/// Whether the stack slots that `d` mentions are those of `m`, to the last bit.
pub open spec fn slots_match(d: DecodedDesc, m: DescModel) -> bool {
    &&& d.stack_map is Some <==> m.stack_map is Some
    &&& d.stack_map matches Some(map) ==> m.stack_map matches Some(want) && {
        &&& map.captures.len() == want.captures.len()
        &&& forall|i: int|
            0 <= i < want.captures.len() ==> (#[trigger] map.captures[i]).1 == want.captures[i].1
        &&& map.jit_frame_slot == want.jit_frame_slot
    }
}

/// An encoded descriptor decodes to itself, wherever it stands and whatever surrounds it.
pub proof fn law_desc_round_trip(bytes: Seq<u8>, pos: int, m: DescModel)
    requires
        bytes.len() <= usize::MAX,
        encoding::desc_encodable(m),
        encoding::has_at(bytes, pos, encoding::enc_desc(m)),
    ensures
        encoding::parse_desc(bytes, pos) matches Some((desc, end)) && end == pos
            + encoding::enc_desc(m).len() && encoding::decoded_model(bytes, desc) == m
            && slots_match(desc, m),
{
    reveal(encoding::parse_rest);
    let e1 = encoding::enc_header(m);
    let all = m.stack + m.locals;
    let e2 = encoding::enc_locs(all);
    let e3 = match m.stack_map {
        Some(stack_map) => encoding::enc_stack_map(stack_map),
        None => Seq::empty(),
    };
    let e4 = match m.trace_reason {
        Some(reason) => encoding::enc_u64(reason),
        None => Seq::empty(),
    };
    let flags = encoding::desc_flags(m);
    lemma_has_at_concat(bytes, pos, e1 + e2, e3 + e4);
    lemma_has_at_concat(bytes, pos, e1, e2);
    lemma_has_at_concat(bytes, pos + e1.len() + e2.len(), e3, e4);
    lemma_header_at(bytes, pos, m);
    assert forall|i: int| 0 <= i < all.len() implies encoding::model_encodable(
        #[trigger] all[i],
    ) by {
        if i < m.stack.len() {
            assert(all[i] == m.stack[i]);
        } else {
            assert(all[i] == m.locals[i - m.stack.len()]);
        }
    }
    let p1 = pos + e1.len();
    lemma_locs_at(bytes, p1, all);
    let p2 = p1 + e2.len();
    assert(encoding::has_flag(flags, encoding::FLAG_STACK_MAP) == (m.stack_map is Some));
    assert(encoding::has_flag(flags, encoding::FLAG_TRACE) == (m.trace_reason is Some));
    match m.stack_map {
        Some(stack_map) => {
            lemma_stack_map_at(bytes, p2, stack_map, flags);
        },
        None => {
            reveal(encoding::parse_stack_map);
        },
    }
    let p3 = p2 + e3.len();
    match m.trace_reason {
        Some(reason) => {
            lemma_u64_at(bytes, p3, reason);
        },
        None => {},
    }
    let (desc, end) = encoding::parse_desc(bytes, pos).unwrap();
    let got = encoding::decoded_model(bytes, desc);
    let n = m.stack.len() as int;
    assert(encoding::decoded_locs_model(bytes, desc.locs) == all);
    assert forall|i: int| 0 <= i < n implies got.stack[i] == m.stack[i] by {
        assert(encoding::decoded_locs_model(bytes, desc.locs)[i] == all[i]);
    }
    assert(got.stack =~= m.stack);
    assert forall|i: int| 0 <= i < m.locals.len() implies got.locals[i] == m.locals[i] by {
        assert(encoding::decoded_locs_model(bytes, desc.locs)[n + i] == all[n + i]);
    }
    assert(got.locals =~= m.locals);
    assert(end == pos + encoding::enc_desc(m).len());
    assert(got.stack_map == m.stack_map);
    assert(got.recompile == m.recompile);
    assert(got == m);
}

/// Descriptors encoded back to back decode to themselves.
pub proof fn law_descs_round_trip(bytes: Seq<u8>, pos: int, ms: Seq<DescModel>)
    requires
        bytes.len() <= usize::MAX,
        forall|i: int| 0 <= i < ms.len() ==> encoding::desc_encodable(#[trigger] ms[i]),
        encoding::has_at(bytes, pos, encoding::enc_descs(ms)),
    ensures
        encoding::parse_descs(bytes, pos, pos + encoding::enc_descs(ms).len()) matches Some(ds)
            && encoding::decoded_models(bytes, ds) == ms,
    decreases ms.len(),
{
    if ms.len() == 0 {
        assert(encoding::decoded_models(bytes, Seq::empty()) =~= ms);
    } else {
        let first = encoding::enc_desc(ms[0]);
        let tail = ms.skip(1);
        lemma_has_at_concat(bytes, pos, first, encoding::enc_descs(tail));
        law_desc_round_trip(bytes, pos, ms[0]);
        le::lemma_le_bytes_len(ms[0].pc as nat, 8);
        assert(first.len() >= 8);
        assert forall|i: int| 0 <= i < tail.len() implies encoding::desc_encodable(
            #[trigger] tail[i],
        ) by {
            assert(tail[i] == ms[i + 1]);
        }
        law_descs_round_trip(bytes, pos + first.len(), tail);
        let (d, _) = encoding::parse_desc(bytes, pos).unwrap();
        let end = pos + encoding::enc_descs(ms).len();
        let rest = encoding::parse_descs(bytes, pos + first.len(), end).unwrap();
        let ds = encoding::parse_descs(bytes, pos, end).unwrap();
        assert(ds == seq![d] + rest);
        assert forall|i: int| 0 <= i < ms.len() implies encoding::decoded_models(bytes, ds)[i]
            == ms[i] by {
            if i > 0 {
                assert(ds[i] == rest[i - 1]);
                assert(encoding::decoded_models(bytes, rest)[i - 1] == tail[i - 1]);
            }
        }
        assert(encoding::decoded_models(bytes, ds) =~= ms);
    }
}

} // verus!
