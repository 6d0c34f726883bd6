//! The byte encoding of side-exit descriptors.
//!
//! Fixed-width integers are little-endian, a "varint" is LEB128, and signed values are
//! zigzag-encoded varints:
//!
//! ```text
//! u64 pc, u64 iseq, u8 flags, [u64 recompile], varint num_stack, varint num_locals,
//! loc * (num_stack + num_locals),
//! [u64 jit_frame, svarint jit_frame_slot, varint num_captures, (loc, svarint slot) * num_captures],
//! [u64 trace_reason]
//! ```
//!
//! Each loc starts with a byte whose low 3 bits are a tag and high 5 bits a payload.
//!
//! This file says what the bytes of a descriptor are (`enc_*`) and what any bytes decode
//! to (`parse_*`), and proves that the second undoes the first.

use vstd::prelude::*;

use crate::le;

verus! {

/// A u64 recompile ISEQ follows the flags.
pub const FLAG_RECOMPILE: u8 = 1;

/// The exiting ISEQ itself is recompiled.
pub const FLAG_RECOMPILE_SELF: u8 = 2;

/// A stack map follows the locations.
pub const FLAG_STACK_MAP: u8 = 4;

/// A traced exit reason ends the descriptor.
pub const FLAG_TRACE: u8 = 8;

/// Payload: register number. A 64-bit register.
pub const TAG_REG: u8 = 0;

/// svarint disp. A 64-bit native stack slot.
pub const TAG_SLOT: u8 = 1;

/// svarint imm.
pub const TAG_SMALL_IMM: u8 = 2;

/// u64 VALUE, updated in place by compaction.
pub const TAG_VALUE: u8 = 3;

/// u64 imm.
pub const TAG_IMM: u8 = 4;

/// Payload: base register number, then u8 bits, svarint disp.
pub const TAG_MEM: u8 = 5;

/// u8 bits, svarint slot, svarint disp.
pub const TAG_STACK_INDIRECT: u8 = 6;

/// Payload 0: u8 register number, u8 bits (narrow register).
/// Payload 1: u8 bits, svarint disp (narrow slot).
pub const TAG_OTHER: u8 = 7;

/// A varint of a u64 has at most this many bytes.
pub const MAX_VARINT_LEN: u32 = 10;

/// Where a side exit finds one 64-bit value when it runs.
///
/// Register numbers are machine register numbers, which index the register save area.
/// Displacements are in bytes.
#[derive(Clone, Copy, Debug, PartialEq, Eq, Structural, Hash)]
pub enum ExitLoc {
    /// A general-purpose register. `bits` < 64 zero-extends.
    Reg { reg: u8, bits: u8 },
    /// A native stack slot at `[native base + disp]`.
    NativeSlot { disp: i32, bits: u8 },
    /// Memory at `[reg + disp]`.
    Mem { base: u8, bits: u8, disp: i32 },
    /// Memory at `[[native base + slot] + disp]`: a spilled memory base.
    StackIndirect { slot: i32, disp: i32, bits: u8 },
    /// An immediate that is the sign extension of 32 bits. Never a heap object.
    SmallImm(i32),
    /// A raw 64-bit immediate, stored at this index of the descriptor's immediates.
    Imm(u32),
    /// A Ruby VALUE, stored at this index of the descriptor's immediates. Marked and
    /// moved by the GC when it is a heap object.
    Value(u32),
}

/// What an [`ExitLoc`] stands for, with its immediate looked up.
pub enum LocModel {
    Reg { reg: u8, bits: u8 },
    NativeSlot { disp: i32, bits: u8 },
    Mem { base: u8, bits: u8, disp: i32 },
    StackIndirect { slot: i32, disp: i32, bits: u8 },
    SmallImm(i32),
    Imm(u64),
    Value(u64),
}

/// `loc` with its immediate looked up in `imms`.
pub open spec fn loc_model(loc: ExitLoc, imms: Seq<u64>) -> LocModel {
    match loc {
        ExitLoc::Reg { reg, bits } => LocModel::Reg { reg, bits },
        ExitLoc::NativeSlot { disp, bits } => LocModel::NativeSlot { disp, bits },
        ExitLoc::Mem { base, bits, disp } => LocModel::Mem { base, bits, disp },
        ExitLoc::StackIndirect { slot, disp, bits } => LocModel::StackIndirect { slot, disp, bits },
        ExitLoc::SmallImm(imm) => LocModel::SmallImm(imm),
        ExitLoc::Imm(idx) => LocModel::Imm(imms[idx as int]),
        ExitLoc::Value(idx) => LocModel::Value(imms[idx as int]),
    }
}

/// Whether `loc` only refers to immediates that are there.
pub open spec fn loc_in_range(loc: ExitLoc, num_imms: nat) -> bool {
    match loc {
        ExitLoc::Imm(idx) => idx < num_imms,
        ExitLoc::Value(idx) => idx < num_imms,
        _ => true,
    }
}

/// Whether `loc` fits the encoding: register numbers that share a byte with the tag have
/// five bits.
pub open spec fn loc_encodable(loc: ExitLoc) -> bool {
    match loc {
        ExitLoc::Reg { reg, bits } => bits == 64 ==> reg < 32,
        ExitLoc::Mem { base, .. } => base < 32,
        _ => true,
    }
}

/// [`loc_encodable`] for a location with its immediate looked up.
pub open spec fn model_encodable(m: LocModel) -> bool {
    match m {
        LocModel::Reg { reg, bits } => bits == 64 ==> reg < 32,
        LocModel::Mem { base, .. } => base < 32,
        _ => true,
    }
}

// ---------------------------------------------------------------------------
// Encoding
// ---------------------------------------------------------------------------
/// LEB128: seven bits per byte, low bits first, the top bit set on all bytes but the last.
pub open spec fn enc_varint(v: nat) -> Seq<u8>
    decreases v,
{
    if v < 128 {
        seq![v as u8]
    } else {
        seq![(v % 128 + 128) as u8] + enc_varint(v / 128)
    }
}

/// Zigzag: 0, -1, 1, -2, ... become 0, 1, 2, 3, ...
pub open spec fn zigzag(v: i64) -> nat {
    if v >= 0 {
        (2 * v) as nat
    } else {
        (-2 * v - 1) as nat
    }
}

/// The signed value that [`zigzag`] maps to `v`.
pub open spec fn unzigzag(v: u64) -> i64 {
    if v % 2 == 0 {
        (v / 2) as i64
    } else {
        (-((v / 2) as int) - 1) as i64
    }
}

pub open spec fn enc_svarint(v: i64) -> Seq<u8> {
    enc_varint(zigzag(v))
}

pub open spec fn enc_u64(v: u64) -> Seq<u8> {
    le::le_bytes(v as nat, 8)
}

/// The first byte of a location.
pub open spec fn tag_byte(tag: u8, payload: u8) -> u8 {
    (tag + 8 * payload) as u8
}

pub open spec fn enc_loc(m: LocModel) -> Seq<u8> {
    match m {
        LocModel::Reg { reg, bits } => if bits == 64 {
            seq![tag_byte(TAG_REG, reg)]
        } else {
            seq![tag_byte(TAG_OTHER, 0), reg, bits]
        },
        LocModel::NativeSlot { disp, bits } => if bits == 64 {
            seq![tag_byte(TAG_SLOT, 0)] + enc_svarint(disp as i64)
        } else {
            seq![tag_byte(TAG_OTHER, 1), bits] + enc_svarint(disp as i64)
        },
        LocModel::Mem { base, bits, disp } => seq![tag_byte(TAG_MEM, base), bits] + enc_svarint(
            disp as i64,
        ),
        LocModel::StackIndirect { slot, disp, bits } => seq![tag_byte(TAG_STACK_INDIRECT, 0), bits]
            + enc_svarint(slot as i64) + enc_svarint(disp as i64),
        LocModel::SmallImm(imm) => seq![tag_byte(TAG_SMALL_IMM, 0)] + enc_svarint(imm as i64),
        LocModel::Imm(imm) => seq![tag_byte(TAG_IMM, 0)] + enc_u64(imm),
        LocModel::Value(word) => seq![tag_byte(TAG_VALUE, 0)] + enc_u64(word),
    }
}

pub open spec fn enc_locs(locs: Seq<LocModel>) -> Seq<u8>
    decreases locs.len(),
{
    if locs.len() == 0 {
        Seq::empty()
    } else {
        enc_locs(locs.drop_last()) + enc_loc(locs.last())
    }
}

/// A location captured into a native stack slot.
pub open spec fn enc_capture(c: (LocModel, i32)) -> Seq<u8> {
    enc_loc(c.0) + enc_svarint(c.1 as i64)
}

pub open spec fn enc_captures(captures: Seq<(LocModel, i32)>) -> Seq<u8>
    decreases captures.len(),
{
    if captures.len() == 0 {
        Seq::empty()
    } else {
        enc_captures(captures.drop_last()) + enc_capture(captures.last())
    }
}

/// What a side exit's stack map says.
pub struct StackMapModel {
    pub captures: Seq<(LocModel, i32)>,
    pub jit_frame: u64,
    pub jit_frame_slot: i32,
}

/// What a side-exit descriptor says.
pub struct DescModel {
    pub pc: u64,
    pub iseq: u64,
    pub recompile: u64,
    pub stack: Seq<LocModel>,
    pub locals: Seq<LocModel>,
    pub stack_map: Option<StackMapModel>,
    pub trace_reason: Option<u64>,
}

/// Whether bit `flag` (a power of two) is set in `flags`.
pub open spec fn has_flag(flags: u8, flag: u8) -> bool {
    (flags / flag) % 2 == 1
}

/// The flags of a descriptor. An exit that recompiles its own ISEQ does not repeat it.
pub open spec fn desc_flags(m: DescModel) -> u8 {
    ((if m.recompile == m.iseq {
        2int
    } else if m.recompile != 0 {
        1
    } else {
        0
    }) + (if m.stack_map is Some {
        4int
    } else {
        0
    }) + (if m.trace_reason is Some {
        8int
    } else {
        0
    })) as u8
}

pub open spec fn enc_stack_map(m: StackMapModel) -> Seq<u8> {
    enc_u64(m.jit_frame) + enc_svarint(m.jit_frame_slot as i64) + enc_varint(m.captures.len())
        + enc_captures(m.captures)
}

/// What precedes the locations of a descriptor.
pub open spec fn enc_header(m: DescModel) -> Seq<u8> {
    enc_u64(m.pc) + enc_u64(m.iseq) + seq![desc_flags(m)] + (if m.recompile != m.iseq
        && m.recompile != 0 {
        enc_u64(m.recompile)
    } else {
        Seq::empty()
    }) + enc_varint(m.stack.len()) + enc_varint(m.locals.len())
}

/// What follows the locations of a descriptor.
pub open spec fn enc_extra(m: DescModel) -> Seq<u8> {
    (match m.stack_map {
        Some(stack_map) => enc_stack_map(stack_map),
        None => Seq::empty(),
    }) + (match m.trace_reason {
        Some(reason) => enc_u64(reason),
        None => Seq::empty(),
    })
}

pub open spec fn enc_desc(m: DescModel) -> Seq<u8> {
    enc_header(m) + enc_locs(m.stack + m.locals) + enc_extra(m)
}

pub open spec fn locs_encodable(locs: Seq<LocModel>) -> bool {
    forall|i: int| 0 <= i < locs.len() ==> model_encodable(#[trigger] locs[i])
}

pub open spec fn captures_encodable(captures: Seq<(LocModel, i32)>) -> bool {
    forall|i: int| 0 <= i < captures.len() ==> model_encodable((#[trigger] captures[i]).0)
}

/// Whether the encoding can tell `m` apart: registers fit their five bits, and there are
/// fewer than 2^64 of anything.
pub open spec fn desc_encodable(m: DescModel) -> bool {
    &&& locs_encodable(m.stack)
    &&& locs_encodable(m.locals)
    &&& m.stack.len() + m.locals.len() <= u64::MAX
    &&& m.stack_map matches Some(stack_map) ==> {
        &&& captures_encodable(stack_map.captures)
        &&& stack_map.captures.len() <= u64::MAX
    }
}

/// The encodings of several descriptors, back to back.
pub open spec fn enc_descs(ms: Seq<DescModel>) -> Seq<u8>
    decreases ms.len(),
{
    if ms.len() == 0 {
        Seq::empty()
    } else {
        enc_desc(ms[0]) + enc_descs(ms.skip(1))
    }
}

// ---------------------------------------------------------------------------
// Decoding
// ---------------------------------------------------------------------------
/// A decoded location. A VALUE is given by the position of its 8-byte field, so that the
/// GC can update it in place.
#[derive(Clone, Copy, Debug, PartialEq, Eq, Structural)]
pub enum DecodedLoc {
    /// A location without a 64-bit immediate.
    Loc(ExitLoc),
    /// A raw 64-bit immediate.
    Imm(u64),
    /// Position of the 8-byte field that holds a Ruby VALUE.
    Value(usize),
}

/// Header of an encoded descriptor. `iseq` and `recompile` are the positions of their
/// 8-byte fields, so that the GC can update them in place.
#[derive(Clone, Copy, Debug)]
pub struct DecodedHeader {
    pub pc: u64,
    pub iseq: usize,
    /// None if the exit doesn't recompile.
    pub recompile: Option<usize>,
    pub flags: u8,
    pub num_stack: u64,
    pub num_locals: u64,
}

/// The stack map of a decoded descriptor.
pub struct DecodedStackMap {
    pub captures: Seq<(DecodedLoc, i64)>,
    pub jit_frame: u64,
    pub jit_frame_slot: i64,
}

/// A whole decoded descriptor.
pub struct DecodedDesc {
    pub header: DecodedHeader,
    pub locs: Seq<DecodedLoc>,
    pub stack_map: Option<DecodedStackMap>,
    pub trace_reason: Option<u64>,
}

pub open spec fn parse_u8(bytes: Seq<u8>, pos: int) -> Option<(u8, int)> {
    if 0 <= pos < bytes.len() {
        Some((bytes[pos], pos + 1))
    } else {
        None
    }
}

/// The word in the 8-byte field at `pos`.
pub open spec fn field_word(bytes: Seq<u8>, pos: int) -> u64 {
    le::le_value(bytes.subrange(pos, pos + 8)) as u64
}

pub open spec fn parse_u64(bytes: Seq<u8>, pos: int) -> Option<(u64, int)> {
    if 0 <= pos && pos + 8 <= bytes.len() {
        Some((field_word(bytes, pos), pos + 8))
    } else {
        None
    }
}

/// The position of an 8-byte field, which is stepped over without being read.
pub open spec fn parse_field(bytes: Seq<u8>, pos: int) -> Option<(usize, int)> {
    if 0 <= pos && pos + 8 <= bytes.len() {
        Some((pos as usize, pos + 8))
    } else {
        None
    }
}

/// A varint of at most `n` bytes. What does not fit in 64 bits is cut off.
pub open spec fn parse_varint_n(bytes: Seq<u8>, pos: int, n: nat) -> Option<(u64, int)>
    decreases n,
{
    if n == 0 || !(0 <= pos < bytes.len()) {
        None
    } else if bytes[pos] < 128 {
        Some((bytes[pos] as u64, pos + 1))
    } else {
        match parse_varint_n(bytes, pos + 1, (n - 1) as nat) {
            Some((rest, end)) => Some(
                (((bytes[pos] - 128 + 128 * rest) % 0x1_0000_0000_0000_0000) as u64, end),
            ),
            None => None,
        }
    }
}

pub open spec fn parse_varint(bytes: Seq<u8>, pos: int) -> Option<(u64, int)> {
    parse_varint_n(bytes, pos, MAX_VARINT_LEN as nat)
}

pub open spec fn parse_svarint(bytes: Seq<u8>, pos: int) -> Option<(i64, int)> {
    match parse_varint(bytes, pos) {
        Some((v, end)) => Some((unzigzag(v), end)),
        None => None,
    }
}

/// An svarint of which only the low 32 bits are kept.
pub open spec fn parse_i32(bytes: Seq<u8>, pos: int) -> Option<(i32, int)> {
    match parse_svarint(bytes, pos) {
        Some((v, end)) => Some((v as i32, end)),
        None => None,
    }
}

/// What follows the first byte of a location.
pub open spec fn parse_loc_body(bytes: Seq<u8>, pos: int, tag: u8, payload: u8) -> Option<
    (DecodedLoc, int),
> {
    if tag == TAG_REG {
        Some((DecodedLoc::Loc(ExitLoc::Reg { reg: payload, bits: 64 }), pos))
    } else if tag == TAG_SLOT {
        match parse_i32(bytes, pos) {
            Some((disp, end)) => Some(
                (DecodedLoc::Loc(ExitLoc::NativeSlot { disp, bits: 64 }), end),
            ),
            None => None,
        }
    } else if tag == TAG_SMALL_IMM {
        match parse_i32(bytes, pos) {
            Some((imm, end)) => Some((DecodedLoc::Loc(ExitLoc::SmallImm(imm)), end)),
            None => None,
        }
    } else if tag == TAG_VALUE {
        match parse_field(bytes, pos) {
            Some((field, end)) => Some((DecodedLoc::Value(field), end)),
            None => None,
        }
    } else if tag == TAG_IMM {
        match parse_u64(bytes, pos) {
            Some((imm, end)) => Some((DecodedLoc::Imm(imm), end)),
            None => None,
        }
    } else if tag == TAG_MEM {
        match parse_u8(bytes, pos) {
            Some((bits, p1)) => match parse_i32(bytes, p1) {
                Some((disp, end)) => Some(
                    (DecodedLoc::Loc(ExitLoc::Mem { base: payload, bits, disp }), end),
                ),
                None => None,
            },
            None => None,
        }
    } else if tag == TAG_STACK_INDIRECT {
        match parse_u8(bytes, pos) {
            Some((bits, p1)) => match parse_i32(bytes, p1) {
                Some((slot, p2)) => match parse_i32(bytes, p2) {
                    Some((disp, end)) => Some(
                        (DecodedLoc::Loc(ExitLoc::StackIndirect { slot, disp, bits }), end),
                    ),
                    None => None,
                },
                None => None,
            },
            None => None,
        }
    } else if payload == 0 {
        match parse_u8(bytes, pos) {
            Some((reg, p1)) => match parse_u8(bytes, p1) {
                Some((bits, end)) => Some((DecodedLoc::Loc(ExitLoc::Reg { reg, bits }), end)),
                None => None,
            },
            None => None,
        }
    } else {
        match parse_u8(bytes, pos) {
            Some((bits, p1)) => match parse_i32(bytes, p1) {
                Some((disp, end)) => Some(
                    (DecodedLoc::Loc(ExitLoc::NativeSlot { disp, bits }), end),
                ),
                None => None,
            },
            None => None,
        }
    }
}

#[verifier::opaque]
pub open spec fn parse_loc(bytes: Seq<u8>, pos: int) -> Option<(DecodedLoc, int)> {
    match parse_u8(bytes, pos) {
        Some((byte, p1)) => parse_loc_body(bytes, p1, byte % 8, byte / 8),
        None => None,
    }
}

/// `n` locations, one after the other.
pub open spec fn parse_locs(bytes: Seq<u8>, pos: int, n: nat) -> Option<(Seq<DecodedLoc>, int)>
    decreases n,
{
    if n == 0 {
        Some((Seq::empty(), pos))
    } else {
        match parse_locs(bytes, pos, (n - 1) as nat) {
            Some((locs, p1)) => match parse_loc(bytes, p1) {
                Some((loc, end)) => Some((locs.push(loc), end)),
                None => None,
            },
            None => None,
        }
    }
}

pub open spec fn parse_capture(bytes: Seq<u8>, pos: int) -> Option<((DecodedLoc, i64), int)> {
    match parse_loc(bytes, pos) {
        Some((loc, p1)) => match parse_svarint(bytes, p1) {
            Some((slot, end)) => Some(((loc, slot), end)),
            None => None,
        },
        None => None,
    }
}

/// `n` captures, one after the other.
pub open spec fn parse_captures(bytes: Seq<u8>, pos: int, n: nat) -> Option<
    (Seq<(DecodedLoc, i64)>, int),
>
    decreases n,
{
    if n == 0 {
        Some((Seq::empty(), pos))
    } else {
        match parse_captures(bytes, pos, (n - 1) as nat) {
            Some((captures, p1)) => match parse_capture(bytes, p1) {
                Some((capture, end)) => Some((captures.push(capture), end)),
                None => None,
            },
            None => None,
        }
    }
}

/// The recompile field of a header whose ISEQ field is at `iseq`.
pub open spec fn parse_recompile(bytes: Seq<u8>, pos: int, flags: u8, iseq: usize) -> Option<
    (Option<usize>, int),
> {
    if has_flag(flags, FLAG_RECOMPILE) {
        match parse_field(bytes, pos) {
            Some((field, end)) => Some((Some(field), end)),
            None => None,
        }
    } else if has_flag(flags, FLAG_RECOMPILE_SELF) {
        Some((Some(iseq), pos))
    } else {
        Some((None, pos))
    }
}

#[verifier::opaque]
pub open spec fn parse_header(bytes: Seq<u8>, pos: int) -> Option<(DecodedHeader, int)> {
    match parse_u64(bytes, pos) {
        Some((pc, p1)) => match parse_field(bytes, p1) {
            Some((iseq, p2)) => match parse_u8(bytes, p2) {
                Some((flags, p3)) => match parse_recompile(bytes, p3, flags, iseq) {
                    Some((recompile, p4)) => match parse_varint(bytes, p4) {
                        Some((num_stack, p5)) => match parse_varint(bytes, p5) {
                            Some((num_locals, end)) => Some(
                                (
                                    DecodedHeader {
                                        pc,
                                        iseq,
                                        recompile,
                                        flags,
                                        num_stack,
                                        num_locals,
                                    },
                                    end,
                                ),
                            ),
                            None => None,
                        },
                        None => None,
                    },
                    None => None,
                },
                None => None,
            },
            None => None,
        },
        None => None,
    }
}

/// The stack map of a descriptor, present only when the flags say so.
#[verifier::opaque]
pub open spec fn parse_stack_map(bytes: Seq<u8>, pos: int, flags: u8) -> Option<
    (Option<DecodedStackMap>, int),
> {
    if has_flag(flags, FLAG_STACK_MAP) {
        match parse_u64(bytes, pos) {
            Some((jit_frame, p1)) => match parse_svarint(bytes, p1) {
                Some((jit_frame_slot, p2)) => match parse_varint(bytes, p2) {
                    Some((n, p3)) => match parse_captures(bytes, p3, n as nat) {
                        Some((captures, end)) => Some(
                            (Some(DecodedStackMap { captures, jit_frame, jit_frame_slot }), end),
                        ),
                        None => None,
                    },
                    None => None,
                },
                None => None,
            },
            None => None,
        }
    } else {
        Some((None, pos))
    }
}

/// The traced exit reason of a descriptor, present only when the flags say so.
pub open spec fn parse_trace(bytes: Seq<u8>, pos: int, flags: u8) -> Option<(Option<u64>, int)> {
    if has_flag(flags, FLAG_TRACE) {
        match parse_u64(bytes, pos) {
            Some((reason, end)) => Some((Some(reason), end)),
            None => None,
        }
    } else {
        Some((None, pos))
    }
}

/// What follows the header of a descriptor.
#[verifier::opaque]
pub open spec fn parse_rest(bytes: Seq<u8>, pos: int, header: DecodedHeader) -> Option<
    (DecodedDesc, int),
> {
    match parse_locs(bytes, pos, (header.num_stack + header.num_locals) as nat) {
        Some((locs, p1)) => match parse_stack_map(bytes, p1, header.flags) {
            Some((stack_map, p2)) => match parse_trace(bytes, p2, header.flags) {
                Some((trace_reason, end)) => Some(
                    (DecodedDesc { header, locs, stack_map, trace_reason }, end),
                ),
                None => None,
            },
            None => None,
        },
        None => None,
    }
}

pub open spec fn parse_desc(bytes: Seq<u8>, pos: int) -> Option<(DecodedDesc, int)> {
    match parse_header(bytes, pos) {
        Some((header, p1)) => parse_rest(bytes, p1, header),
        None => None,
    }
}

/// The descriptors that fill `bytes` from `pos` up to `end`.
pub open spec fn parse_descs(bytes: Seq<u8>, pos: int, end: int) -> Option<Seq<DecodedDesc>>
    decreases end - pos,
{
    if pos == end {
        Some(Seq::empty())
    } else if pos > end {
        None
    } else {
        match parse_desc(bytes, pos) {
            Some((desc, p1)) => if p1 <= pos || p1 > end {
                None
            } else {
                match parse_descs(bytes, p1, end) {
                    Some(descs) => Some(seq![desc] + descs),
                    None => None,
                }
            },
            None => None,
        }
    }
}

// ---------------------------------------------------------------------------
// What decoded descriptors say
// ---------------------------------------------------------------------------
pub open spec fn decoded_loc_model(bytes: Seq<u8>, loc: DecodedLoc) -> LocModel {
    match loc {
        DecodedLoc::Loc(l) => loc_model(l, Seq::empty()),
        DecodedLoc::Imm(imm) => LocModel::Imm(imm),
        DecodedLoc::Value(field) => LocModel::Value(field_word(bytes, field as int)),
    }
}

pub open spec fn decoded_locs_model(bytes: Seq<u8>, locs: Seq<DecodedLoc>) -> Seq<LocModel> {
    Seq::new(locs.len(), |i: int| decoded_loc_model(bytes, locs[i]))
}

pub open spec fn decoded_captures_model(bytes: Seq<u8>, captures: Seq<(DecodedLoc, i64)>) -> Seq<
    (LocModel, i32),
> {
    Seq::new(
        captures.len(),
        |i: int| (decoded_loc_model(bytes, captures[i].0), captures[i].1 as i32),
    )
}

pub open spec fn decoded_model(bytes: Seq<u8>, d: DecodedDesc) -> DescModel {
    DescModel {
        pc: d.header.pc,
        iseq: field_word(bytes, d.header.iseq as int),
        recompile: match d.header.recompile {
            Some(field) => field_word(bytes, field as int),
            None => 0,
        },
        stack: decoded_locs_model(bytes, d.locs.take(d.header.num_stack as int)),
        locals: decoded_locs_model(bytes, d.locs.skip(d.header.num_stack as int)),
        stack_map: match d.stack_map {
            Some(stack_map) => Some(
                StackMapModel {
                    captures: decoded_captures_model(bytes, stack_map.captures),
                    jit_frame: stack_map.jit_frame,
                    jit_frame_slot: stack_map.jit_frame_slot as i32,
                },
            ),
            None => None,
        },
        trace_reason: d.trace_reason,
    }
}

pub open spec fn decoded_models(bytes: Seq<u8>, ds: Seq<DecodedDesc>) -> Seq<DescModel> {
    Seq::new(ds.len(), |i: int| decoded_model(bytes, ds[i]))
}

/// A run of locations starts with shorter runs.
pub proof fn lemma_locs_prefix(bytes: Seq<u8>, pos: int, k: nat, n: nat)
    requires
        k <= n,
        parse_locs(bytes, pos, n) is Some,
    ensures
        parse_locs(bytes, pos, k) is Some,
        parse_locs(bytes, pos, k).unwrap().0 == parse_locs(bytes, pos, n).unwrap().0.take(
            k as int,
        ),
        parse_locs(bytes, pos, n).unwrap().0.len() == n,
    decreases n,
{
    let (locs, _) = parse_locs(bytes, pos, n).unwrap();
    if n > 0 {
        lemma_locs_prefix(bytes, pos, (n - 1) as nat, (n - 1) as nat);
        if k < n {
            lemma_locs_prefix(bytes, pos, k, (n - 1) as nat);
            let (init, _) = parse_locs(bytes, pos, (n - 1) as nat).unwrap();
            assert(locs.take(k as int) =~= init.take(k as int));
        }
    }
    if k == n {
        assert(locs.take(k as int) =~= locs);
    }
}

/// A run of captures starts with shorter runs.
pub proof fn lemma_captures_prefix(bytes: Seq<u8>, pos: int, k: nat, n: nat)
    requires
        k <= n,
        parse_captures(bytes, pos, n) is Some,
    ensures
        parse_captures(bytes, pos, k) is Some,
        parse_captures(bytes, pos, k).unwrap().0 == parse_captures(bytes, pos, n).unwrap().0.take(
            k as int,
        ),
        parse_captures(bytes, pos, n).unwrap().0.len() == n,
    decreases n,
{
    let (captures, _) = parse_captures(bytes, pos, n).unwrap();
    if n > 0 {
        lemma_captures_prefix(bytes, pos, (n - 1) as nat, (n - 1) as nat);
        if k < n {
            lemma_captures_prefix(bytes, pos, k, (n - 1) as nat);
            let (init, _) = parse_captures(bytes, pos, (n - 1) as nat).unwrap();
            assert(captures.take(k as int) =~= init.take(k as int));
        }
    }
    if k == n {
        assert(captures.take(k as int) =~= captures);
    }
}

/// Whether `enc` stands in `bytes` at `pos`.
pub open spec fn has_at(bytes: Seq<u8>, pos: int, enc: Seq<u8>) -> bool {
    &&& 0 <= pos
    &&& pos + enc.len() <= bytes.len()
    &&& bytes.subrange(pos, pos + enc.len()) == enc
}

} // verus!
