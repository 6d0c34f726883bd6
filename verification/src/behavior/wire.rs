//! How descriptors are built, and what their bytes are.

use vstd::prelude::*;

use crate::exit_desc::codec;
use crate::exit_desc::codec::{Decoder, Encoder};
use crate::exit_desc::descriptor;
use crate::exit_desc::descriptor::{ExitDescriptor, ExitDescriptorExtra, ExitImms, ExitStackMap};
use crate::exit_desc::encoding;
use crate::exit_desc::encoding::ExitLoc;
use crate::exit_desc::laws;
use crate::le;
use super::code;

verus! {

/// The number that base-128 digits stand for, the least significant first.
pub open spec fn base_128(digits: Seq<u8>) -> int
    decreases digits.len(),
{
    if digits.len() == 0 {
        0
    } else {
        digits[0] % 128 + 128 * base_128(digits.skip(1))
    }
}

/// Whether `bytes` are the variable-length encoding of `v`: base-128 digits, the least
/// significant first, with the top bit set on all but the last, and no more of them than needed.
pub open spec fn is_varint(bytes: Seq<u8>, v: int) -> bool {
    &&& bytes.len() > 0
    &&& forall|i: int| 0 <= i < bytes.len() - 1 ==> #[trigger] bytes[i] >= 128
    &&& bytes.last() < 128
    &&& bytes.len() > 1 ==> bytes.last() != 0
    &&& base_128(bytes) == v
}

proof fn lemma_varint(v: nat)
    ensures
        is_varint(encoding::enc_varint(v), v as int),
    decreases v,
{
    let bytes = encoding::enc_varint(v);
    if v < 128 {
        assert(bytes.skip(1) =~= Seq::empty());
        assert(base_128(bytes.skip(1)) == 0);
    } else {
        let rest = encoding::enc_varint(v / 128);
        lemma_varint(v / 128);
        assert(bytes.skip(1) =~= rest);
        assert(bytes.last() == rest.last());
        assert forall|i: int| 0 <= i < bytes.len() - 1 implies #[trigger] bytes[i] >= 128 by {
            if i > 0 {
                assert(bytes[i] == rest[i - 1]);
            }
        }
    }
}

/// The unsigned number that stands for a signed one, with the sign in its lowest bit.
pub open spec fn signed_number(i: int) -> int {
    if i >= 0 {
        2 * i
    } else {
        -2 * i - 1
    }
}

/// Whether `bytes` are the eight bytes of `word`, the least significant first.
pub open spec fn is_word(bytes: Seq<u8>, word: u64) -> bool {
    &&& bytes.len() == 8
    &&& forall|j: int|
        0 <= j < 8 ==> #[trigger] bytes[j] == (word as nat / vstd::arithmetic::power2::pow2(
            (8 * j) as nat,
        )) % 256
}

proof fn lemma_word_is(bytes: Seq<u8>, word: u64)
    requires
        is_word(bytes, word),
    ensures
        bytes == encoding::enc_u64(word),
{
    code::lemma_le_bytes(word as nat, 8);
    assert(bytes =~= encoding::enc_u64(word));
}

/// A number has one encoding.
proof fn lemma_varint_is(bytes: Seq<u8>, v: nat)
    requires
        is_varint(bytes, v as int),
    ensures
        bytes == encoding::enc_varint(v),
    decreases bytes.len(),
{
    let rest = bytes.skip(1);
    if bytes.len() == 1 {
        assert(base_128(rest) == 0);
        assert(bytes =~= seq![v as u8]);
    } else {
        assert(rest.last() == bytes.last());
        assert forall|i: int| 0 <= i < rest.len() - 1 implies #[trigger] rest[i] >= 128 by {
            assert(rest[i] == bytes[i + 1]);
        }
        assert(bytes[0] >= 128);
        assert(base_128(rest) == v / 128) by {
            assert(base_128(bytes) == bytes[0] % 128 + 128 * base_128(rest));
        }
        lemma_positive(rest);
        lemma_varint_is(rest, v / 128);
        assert(bytes =~= seq![(v % 128 + 128) as u8] + rest);
    }
}

/// Digits whose last is not zero stand for a number that is not zero.
proof fn lemma_positive(bytes: Seq<u8>)
    requires
        bytes.len() > 0,
        0 < bytes.last() < 128,
    ensures
        base_128(bytes) > 0,
    decreases bytes.len(),
{
    let rest = bytes.skip(1);
    if bytes.len() > 1 {
        assert(rest.last() == bytes.last());
        lemma_positive(rest);
    } else {
        assert(base_128(rest) == 0);
    }
}

/// What each part of a descriptor appends: one byte, eight bytes with the least significant first,
/// an unsigned number in base 128, a signed number as an unsigned one with the sign in its lowest
/// bit, or a tag in the low three bits and its payload above it.
pub proof fn law_parts(
    a: &mut Encoder,
    byte: u8,
    b: &mut Encoder,
    word: u64,
    c: &mut Encoder,
    n: u64,
    d: &mut Encoder,
    i: i64,
    e: &mut Encoder,
    tag: u8,
    payload: u8,
)
    requires
        call_ensures(Encoder::u8, (a, byte), ()),
        call_ensures(Encoder::u64, (b, word), ()),
        call_ensures(Encoder::varint, (c, n), ()),
        call_ensures(Encoder::svarint, (d, i), ()),
        tag < 8,
        payload < 32,
        call_ensures(Encoder::tag, (e, tag, payload), ()),
    ensures
        final(a).out@ == old(a).out@ + seq![byte],
        final(b).out@.len() == old(b).out@.len() + 8,
        old(b).out@.is_prefix_of(final(b).out@),
        forall|j: int|
            0 <= j < 8 ==> #[trigger] final(b).out@[old(b).out@.len() + j] == (word as nat
                / vstd::arithmetic::power2::pow2((8 * j) as nat)) % 256,
        old(c).out@.is_prefix_of(final(c).out@),
        is_varint(final(c).out@.skip(old(c).out@.len() as int), n as int),
        old(d).out@.is_prefix_of(final(d).out@),
        is_varint(
            final(d).out@.skip(old(d).out@.len() as int),
            signed_number(i as int),
        ),
        final(e).out@.len() == old(e).out@.len() + 1,
        old(e).out@.is_prefix_of(final(e).out@),
        final(e).out@.last() == tag + 8 * payload,
        final(e).out@.last() % 8 == tag && final(e).out@.last() / 8 == payload,
{
    code::lemma_le_bytes(word as nat, 8);
    assert forall|j: int| 0 <= j < 8 implies #[trigger] final(b).out@[old(b).out@.len() + j] == (
    word as nat / vstd::arithmetic::power2::pow2((8 * j) as nat)) % 256 by {
        assert(final(b).out@[old(b).out@.len() + j] == encoding::enc_u64(word)[j]);
    }
    assert(final(b).out@.take(old(b).out@.len() as int) =~= old(b).out@);
    lemma_varint(n as nat);
    assert(final(c).out@.skip(old(c).out@.len() as int) =~= encoding::enc_varint(n as nat));
    assert(final(c).out@.take(old(c).out@.len() as int) =~= old(c).out@);
    lemma_varint(encoding::zigzag(i));
    assert(final(d).out@.skip(old(d).out@.len() as int) =~= encoding::enc_svarint(i));
    assert(final(d).out@.take(old(d).out@.len() as int) =~= old(d).out@);
    assert(final(e).out@.take(old(e).out@.len() as int) =~= old(e).out@);
}

/// What a location appends: its tag, with a register number as the payload where it fits there,
/// and then what the tag does not say. Sizes are left out where they are 64 bits.
pub proof fn law_location_bytes(
    enc: &mut Encoder,
    loc: ExitLoc,
    imms: &[u64],
    signed: Seq<u8>,
    signed2: Seq<u8>,
    word: Seq<u8>,
)
    requires
        encoding::loc_encodable(loc),
        encoding::loc_in_range(loc, imms@.len()),
        call_ensures(Encoder::loc, (enc, loc, imms), ()),
        // The parts that follow the tag.
        is_varint(
            signed,
            signed_number(
                match loc {
                    ExitLoc::NativeSlot { disp, .. } => disp as int,
                    ExitLoc::Mem { disp, .. } => disp as int,
                    ExitLoc::StackIndirect { slot, .. } => slot as int,
                    ExitLoc::SmallImm(imm) => imm as int,
                    _ => 0,
                },
            ),
        ),
        is_varint(
            signed2,
            signed_number(
                match loc {
                    ExitLoc::StackIndirect { disp, .. } => disp as int,
                    _ => 0,
                },
            ),
        ),
        is_word(
            word,
            match loc {
                ExitLoc::Imm(idx) => imms@[idx as int],
                ExitLoc::Value(idx) => imms@[idx as int],
                _ => 0,
            },
        ),
    ensures
        final(enc).out@ == old(enc).out@ + match loc {
            ExitLoc::Reg { reg, bits } => if bits == 64 {
                seq![(8 * reg) as u8]
            } else {
                seq![7u8, reg, bits]
            },
            ExitLoc::NativeSlot { bits, .. } => if bits == 64 {
                seq![1u8] + signed
            } else {
                seq![15u8, bits] + signed
            },
            ExitLoc::Mem { base, bits, .. } => seq![(5 + 8 * base) as u8, bits] + signed,
            ExitLoc::StackIndirect { bits, .. } => seq![6u8, bits] + signed + signed2,
            ExitLoc::SmallImm(_) => seq![2u8] + signed,
            ExitLoc::Imm(_) => seq![4u8] + word,
            ExitLoc::Value(_) => seq![3u8] + word,
        },
{
    match loc {
        ExitLoc::NativeSlot { disp, .. } => {
            lemma_varint_is(signed, encoding::zigzag(disp as i64));
        },
        ExitLoc::Mem { disp, .. } => {
            lemma_varint_is(signed, encoding::zigzag(disp as i64));
        },
        ExitLoc::StackIndirect { slot, disp, .. } => {
            lemma_varint_is(signed, encoding::zigzag(slot as i64));
            lemma_varint_is(signed2, encoding::zigzag(disp as i64));
        },
        ExitLoc::SmallImm(imm) => {
            lemma_varint_is(signed, encoding::zigzag(imm as i64));
        },
        ExitLoc::Imm(idx) => {
            lemma_word_is(word, imms@[idx as int]);
        },
        ExitLoc::Value(idx) => {
            lemma_word_is(word, imms@[idx as int]);
        },
        _ => {},
    }
}

/// How a descriptor starts: the pc and the ISEQ, eight bytes each, then a byte of flags that says
/// what else there is.
pub proof fn law_descriptor_head(desc: &ExitDescriptor, bytes: Vec<u8>)
    requires
        desc.wf(),
        call_ensures(ExitDescriptor::encode, (desc,), bytes),
    ensures
        bytes@.len() >= 19,
        forall|j: int|
            0 <= j < 8 ==> #[trigger] bytes@[j] == (desc.pc as nat
                / vstd::arithmetic::power2::pow2((8 * j) as nat)) % 256,
        forall|j: int|
            0 <= j < 8 ==> #[trigger] bytes@[8 + j] == (desc.iseq as nat
                / vstd::arithmetic::power2::pow2((8 * j) as nat)) % 256,
        bytes@[16] % 4 == if desc.recompile == desc.iseq {
            2int
        } else if desc.recompile != 0 {
            1
        } else {
            0
        },
        (bytes@[16] / 4) % 2 == 1 <==> (desc.extra matches Some(extra)
            && extra.stack_map is Some),
        (bytes@[16] / 8) % 2 == 1 <==> (desc.extra matches Some(extra)
            && extra.trace_reason is Some),
        bytes@[16] < 16,
{
    let m = desc.model();
    code::lemma_le_bytes(desc.pc as nat, 8);
    code::lemma_le_bytes(desc.iseq as nat, 8);
    lemma_varint(m.stack.len());
    lemma_varint(m.locals.len());
    let e = encoding::enc_desc(m);
    assert(forall|j: int| 0 <= j < 8 ==> #[trigger] bytes@[j] == encoding::enc_u64(m.pc)[j]);
    assert(forall|j: int| 0 <= j < 8 ==> #[trigger] bytes@[8 + j] == encoding::enc_u64(m.iseq)[j]);
    assert(bytes@[16] == encoding::desc_flags(m));
}

/// An immediate is found again: whatever is added later, its location resolves to it. It is a
/// small one if its word is the sign extension of 32 bits and no heap object. Otherwise it is a
/// VALUE if that is what it was said to be.
pub proof fn law_immediate_resolves(
    imms: &mut ExitImms,
    imm: u64,
    is_value: bool,
    loc: ExitLoc,
    desc: &ExitDescriptor,
    r: Option<u64>,
)
    requires
        imms.0@.len() <= u32::MAX,
        call_ensures(ExitImms::imm, (imms, imm, is_value), loc),
        final(imms).0@.is_prefix_of(desc.imms@),
        call_ensures(ExitDescriptor::imm_value, (desc, loc), r),
    ensures
        r == Some(imm),
        old(imms).0@.is_prefix_of(final(imms).0@),
        loc is SmallImm <==> (imm < 0x8000_0000 || imm >= 0x1_0000_0000_0000_0000 - 0x8000_0000)
            && !(is_value && imm % 8 == 0 && imm != 0),
        loc is Value ==> is_value,
        loc is Imm ==> !is_value,
        loc is SmallImm || loc is Value || loc is Imm,
        loc is SmallImm <==> final(imms).0@.len() == old(imms).0@.len(),
        encoding::loc_in_range(loc, desc.imms@.len()),
        encoding::loc_encodable(loc),
{
    let a = final(imms).0@;
    assert(old(imms).0@ =~= a.take(old(imms).0@.len() as int));
    if a.len() > old(imms).0@.len() {
        let n = old(imms).0@.len() as int;
        assert(desc.imms@.take(a.len() as int)[n] == desc.imms@[n]);
    }
}

/// A location that is not an immediate does not resolve to one.
pub proof fn law_other_locations_do_not_resolve(desc: &ExitDescriptor, loc: ExitLoc, r: Option<u64>)
    requires
        call_ensures(ExitDescriptor::imm_value, (desc, loc), r),
    ensures
        r is Some <==> loc is SmallImm || loc is Imm || loc is Value,
        loc matches ExitLoc::SmallImm(imm) ==> r.unwrap() == imm as int % 0x1_0000_0000_0000_0000,
{
}

/// A built descriptor has the parts that it was built from.
pub proof fn law_built_descriptor(
    pc: u64,
    iseq: u64,
    stack: Vec<ExitLoc>,
    locals: Vec<ExitLoc>,
    imms: ExitImms,
    recompile: u64,
    extra: Option<Box<ExitDescriptorExtra>>,
    desc: &ExitDescriptor,
    got_stack: &[ExitLoc],
    got_locals: &[ExitLoc],
    all: Vec<ExitLoc>,
    map: Option<&ExitStackMap>,
    reason: Option<u64>,
    has_map: bool,
    has_reason: bool,
)
    requires
        call_ensures(
            ExitDescriptor::new,
            (pc, iseq, stack, locals, imms, recompile, extra),
            *desc,
        ),
        call_ensures(ExitDescriptor::stack, (desc,), got_stack),
        call_ensures(ExitDescriptor::locals, (desc,), got_locals),
        call_ensures(ExitDescriptor::all_locs, (desc,), all),
        call_ensures(ExitDescriptor::stack_map, (desc,), map),
        call_ensures(ExitDescriptor::trace_reason, (desc,), reason),
        call_ensures(ExitDescriptor::has_stack_map, (desc,), has_map),
        call_ensures(ExitDescriptor::has_trace_reason, (desc,), has_reason),
    ensures
        desc.pc == pc,
        desc.iseq == iseq,
        desc.recompile == recompile,
        desc.imms@ == imms.0@,
        got_stack@ == stack@,
        got_locals@ == locals@,
        reason == (match extra {
            Some(e) => e.trace_reason,
            None => None,
        }),
        has_reason == reason is Some,
        has_map == map is Some,
        has_map <==> (extra matches Some(e) && e.stack_map is Some),
        map is Some ==> *map.unwrap() == extra.unwrap().stack_map.unwrap(),
        all@.len() == stack@.len() + locals@.len() + match map {
            Some(m) => m.captures@.len(),
            None => 0,
        },
        forall|i: int| 0 <= i < stack@.len() ==> #[trigger] all@[i] == stack@[i],
        forall|i: int|
            0 <= i < locals@.len() ==> #[trigger] all@[stack@.len() + i] == locals@[i],
        map is Some ==> forall|i: int|
            0 <= i < map.unwrap().captures@.len() ==> #[trigger] all@[stack@.len() + locals@.len()
                + i] == map.unwrap().captures@[i].0,
{
    assert(stack.len() == stack@.len());
    assert(desc.locs@.take(stack@.len() as int) =~= stack@);
    assert(desc.locs@.skip(stack@.len() as int) =~= locals@);
}

/// Reading a field gives the number whose bytes stand there, the least significant first.
pub proof fn law_field(bytes: &[u8], field: usize, word: u64)
    requires
        field + 8 <= bytes@.len(),
        call_ensures(codec::read_field, (bytes, field), word),
    ensures
        forall|j: int|
            0 <= j < 8 ==> #[trigger] bytes@[field + j] == (word as nat
                / vstd::arithmetic::power2::pow2((8 * j) as nat)) % 256,
{
    let s = bytes@.subrange(field as int, field + 8);
    le::lemma_le_value_bound(s);
    le::lemma_byte_range_8();
    le::law_le_value_round_trip(s);
    code::lemma_le_bytes(word as nat, 8);
    assert forall|j: int| 0 <= j < 8 implies #[trigger] bytes@[field + j] == (word as nat
        / vstd::arithmetic::power2::pow2((8 * j) as nat)) % 256 by {
        assert(s[j] == bytes@[field + j]);
    }
}

/// What was written is read back, from where it was written, and reading goes on behind it.
pub proof fn law_parts_are_read_back(
    a: &mut Encoder,
    byte: u8,
    da: &mut Decoder<'_>,
    ra: u8,
    b: &mut Encoder,
    word: u64,
    db: &mut Decoder<'_>,
    rb: u64,
    c: &mut Encoder,
    n: u64,
    dc: &mut Decoder<'_>,
    rc: u64,
    d: &mut Encoder,
    i: i64,
    dd: &mut Decoder<'_>,
    rd: i64,
)
    requires
        call_ensures(Encoder::u8, (a, byte), ()),
        da.bytes@ == final(a).out@,
        da.pos == a.out@.len(),
        call_ensures(Decoder::u8, (da,), ra),
        call_ensures(Encoder::u64, (b, word), ()),
        db.bytes@ == final(b).out@,
        db.pos == b.out@.len(),
        call_ensures(Decoder::u64, (db,), rb),
        call_ensures(Encoder::varint, (c, n), ()),
        dc.bytes@ == final(c).out@,
        dc.pos == c.out@.len(),
        call_ensures(Decoder::varint, (dc,), rc),
        call_ensures(Encoder::svarint, (d, i), ()),
        dd.bytes@ == final(d).out@,
        dd.pos == d.out@.len(),
        call_ensures(Decoder::svarint, (dd,), rd),
    ensures
        ra == byte,
        final(da).pos == final(a).out@.len(),
        rb == word,
        final(db).pos == final(b).out@.len(),
        rc == n,
        final(dc).pos == final(c).out@.len(),
        rd == i,
        final(dd).pos == final(d).out@.len(),
{
    let pb = db.pos as int;
    let pc = dc.pos as int;
    let pd = dd.pos as int;
    let eb = encoding::enc_u64(word);
    let ec = encoding::enc_varint(n as nat);
    let ed = encoding::enc_svarint(i);
    assert(db.bytes@.subrange(pb, pb + eb.len()) =~= eb);
    assert(dc.bytes@.subrange(pc, pc + ec.len()) =~= ec);
    assert(dd.bytes@.subrange(pd, pd + ed.len()) =~= ed);
    laws::lemma_u64_at(db.bytes@, pb, word);
    laws::lemma_varint_at(dc.bytes@, pc, n);
    laws::lemma_svarint_at(dd.bytes@, pd, i);
}

/// Eight bytes stand for a word, the least significant first, wherever they are appended, written
/// over or read.
pub proof fn law_words_in_bytes(
    out: &mut Vec<u8>,
    word: u64,
    bytes: &mut Vec<u8>,
    pos: usize,
    patch: u64,
    slice: &[u8],
    at: usize,
    read: u64,
    i: int,
)
    requires
        call_ensures(le::push_u64, (out, word), ()),
        pos + 8 <= bytes@.len(),
        call_ensures(le::write_u64_at, (bytes, pos, patch), ()),
        at + 8 <= slice@.len(),
        call_ensures(le::read_u64, (slice, at), read),
    ensures
        final(out)@.len() == old(out)@.len() + 8,
        old(out)@.is_prefix_of(final(out)@),
        is_word(final(out)@.skip(old(out)@.len() as int), word),
        final(bytes)@.len() == old(bytes)@.len(),
        is_word(final(bytes)@.subrange(pos as int, pos + 8), patch),
        0 <= i < old(bytes)@.len() && !(pos <= i < pos + 8) ==> final(bytes)@[i] == old(bytes)@[i],
        is_word(slice@.subrange(at as int, at + 8), read),
{
    code::lemma_le_bytes(word as nat, 8);
    code::lemma_le_bytes(patch as nat, 8);
    let s = slice@.subrange(at as int, at + 8);
    le::lemma_le_value_bound(s);
    le::lemma_byte_range_8();
    le::law_le_value_round_trip(s);
    code::lemma_le_bytes(read as nat, 8);
    assert(final(out)@.take(old(out)@.len() as int) =~= old(out)@);
    assert(final(out)@.skip(old(out)@.len() as int) =~= le::le_bytes(word as nat, 8));
    assert(final(bytes)@.subrange(pos as int, pos + 8) =~= le::le_bytes(patch as nat, 8));
}

/// A small immediate stands for its word modulo 2^64, and a hexadecimal digit for its value.
pub proof fn law_small_things(imm: i32, word: u64, n: u8, digit: &'static str)
    requires
        call_ensures(descriptor::widen, (imm,), word),
        n < 16,
        call_ensures(crate::text::hex_digit, (n,), digit),
    ensures
        word == imm as int % 0x1_0000_0000_0000_0000,
        digit@.len() == 1,
        digit@[0] as int == if n < 10 {
            '0' as int + n
        } else {
            'a' as int + n - 10
        },
{
}

} // verus!
