//! Writing and reading encoded descriptors.

use vstd::prelude::*;

use crate::le;
use super::encoding;
use super::encoding::{DecodedHeader, DecodedLoc, ExitLoc};
use super::encoding::{
    FLAG_RECOMPILE, FLAG_RECOMPILE_SELF, FLAG_STACK_MAP, FLAG_TRACE, MAX_VARINT_LEN, TAG_IMM,
    TAG_MEM, TAG_OTHER, TAG_REG, TAG_SLOT, TAG_SMALL_IMM, TAG_STACK_INDIRECT, TAG_VALUE,
};
use super::fields;

verus! {

/// The word in a field of some encoded descriptors.
pub fn read_field(bytes: &[u8], field: usize) -> (r: u64)
    requires
        field + 8 <= bytes@.len(),
    ensures
        r == encoding::field_word(bytes@, field as int),
{
    proof {
        le::lemma_le_value_bound(bytes@.subrange(field as int, field + 8));
        le::lemma_byte_range_8();
    }
    le::read_u64(bytes, field)
}

/// Appends the parts of a descriptor to a byte vector.
pub struct Encoder {
    pub out: Vec<u8>,
}

impl Encoder {
    /// An encoder that has written nothing yet.
    pub fn new() -> (r: Self)
        ensures
            r.out@ == Seq::<u8>::empty(),
    {
        Encoder { out: Vec::with_capacity(32) }
    }

    pub fn u8(&mut self, byte: u8)
        ensures
            final(self).out@ == old(self).out@.push(byte),
    {
        self.out.push(byte);
    }

    pub fn u64(&mut self, value: u64)
        ensures
            final(self).out@ == old(self).out@ + encoding::enc_u64(value),
    {
        le::push_u64(&mut self.out, value);
    }

    pub fn varint(&mut self, value: u64)
        ensures
            final(self).out@ == old(self).out@ + encoding::enc_varint(value as nat),
    {
        let mut left: u64 = value;
        while left >= 128
            invariant
                self.out@ + encoding::enc_varint(left as nat) == old(self).out@
                    + encoding::enc_varint(value as nat),
            decreases left,
        {
            let ghost before = self.out@;
            let byte: u8 = (left % 128) as u8 + 128;
            self.u8(byte);
            proof {
                assert(before + encoding::enc_varint(left as nat) =~= self.out@
                    + encoding::enc_varint((left / 128) as nat));
            }
            left = left / 128;
        }
        let ghost before = self.out@;
        self.u8(left as u8);
        assert(before + encoding::enc_varint(left as nat) =~= self.out@);
    }

    pub fn svarint(&mut self, value: i64)
        ensures
            final(self).out@ == old(self).out@ + encoding::enc_svarint(value),
    {
        if value >= 0 {
            self.varint(value as u64 * 2);
        } else {
            self.varint((-(value + 1)) as u64 * 2 + 1);
        }
    }

    pub fn tag(&mut self, tag: u8, payload: u8)
        requires
            tag < 8,
            payload < 32,
        ensures
            final(self).out@ == old(self).out@.push(encoding::tag_byte(tag, payload)),
    {
        vstd::pervasive::runtime_assert(payload < 32);
        self.u8(tag + payload * 8);
    }

    /// Write one location, with its immediate taken from `imms`.
    pub fn loc(&mut self, loc: ExitLoc, imms: &[u64])
        requires
            encoding::loc_encodable(loc),
            encoding::loc_in_range(loc, imms@.len()),
        ensures
            final(self).out@ == old(self).out@ + encoding::enc_loc(
                encoding::loc_model(loc, imms@),
            ),
    {
        match loc {
            ExitLoc::Reg { reg, bits } => {
                if bits == 64 {
                    self.tag(TAG_REG, reg);
                } else {
                    self.tag(TAG_OTHER, 0);
                    self.u8(reg);
                    self.u8(bits);
                }
            },
            ExitLoc::NativeSlot { disp, bits } => {
                if bits == 64 {
                    self.tag(TAG_SLOT, 0);
                    self.svarint(disp as i64);
                } else {
                    self.tag(TAG_OTHER, 1);
                    self.u8(bits);
                    self.svarint(disp as i64);
                }
            },
            ExitLoc::Mem { base, bits, disp } => {
                self.tag(TAG_MEM, base);
                self.u8(bits);
                self.svarint(disp as i64);
            },
            ExitLoc::StackIndirect { slot, disp, bits } => {
                self.tag(TAG_STACK_INDIRECT, 0);
                self.u8(bits);
                self.svarint(slot as i64);
                self.svarint(disp as i64);
            },
            ExitLoc::SmallImm(imm) => {
                self.tag(TAG_SMALL_IMM, 0);
                self.svarint(imm as i64);
            },
            ExitLoc::Imm(idx) => {
                self.tag(TAG_IMM, 0);
                self.u64(imms[idx as usize]);
            },
            ExitLoc::Value(idx) => {
                self.tag(TAG_VALUE, 0);
                self.u64(imms[idx as usize]);
            },
        }
        assert(self.out@ =~= old(self).out@ + encoding::enc_loc(encoding::loc_model(loc, imms@)));
    }
}

/// Cursor over encoded descriptors.
pub struct Decoder<'a> {
    pub bytes: &'a [u8],
    pub pos: usize,
}

impl<'a> Decoder<'a> {
    pub fn u8(&mut self) -> (r: u8)
        requires
            encoding::parse_u8(old(self).bytes@, old(self).pos as int) is Some,
        ensures
            final(self).bytes == old(self).bytes,
            encoding::parse_u8(old(self).bytes@, old(self).pos as int) == Some(
                (r, final(self).pos as int),
            ),
    {
        let byte: u8 = self.bytes[self.pos];
        self.pos = self.pos + 1;
        byte
    }

    /// Position of the next 8-byte field, for updating it in place.
    pub fn u64_field(&mut self) -> (r: usize)
        requires
            encoding::parse_field(old(self).bytes@, old(self).pos as int) is Some,
        ensures
            final(self).bytes == old(self).bytes,
            encoding::parse_field(old(self).bytes@, old(self).pos as int) == Some(
                (r, final(self).pos as int),
            ),
    {
        let len: usize = self.bytes.len();
        let field: usize = self.pos;
        self.pos = self.pos + 8;
        field
    }

    pub fn u64(&mut self) -> (r: u64)
        requires
            encoding::parse_u64(old(self).bytes@, old(self).pos as int) is Some,
        ensures
            final(self).bytes == old(self).bytes,
            encoding::parse_u64(old(self).bytes@, old(self).pos as int) == Some(
                (r, final(self).pos as int),
            ),
    {
        let field: usize = self.u64_field();
        le::read_u64(self.bytes, field)
    }

    fn varint_n(&mut self, n: u32) -> (r: u64)
        requires
            encoding::parse_varint_n(old(self).bytes@, old(self).pos as int, n as nat) is Some,
        ensures
            final(self).bytes == old(self).bytes,
            encoding::parse_varint_n(old(self).bytes@, old(self).pos as int, n as nat) == Some(
                (r, final(self).pos as int),
            ),
        decreases n,
    {
        let byte: u8 = self.u8();
        if byte < 128 {
            byte as u64
        } else {
            let rest: u64 = self.varint_n(n - 1);
            proof {
                assert((byte - 128 + 128 * rest) % 0x1_0000_0000_0000_0000 == (byte - 128 + (128
                    * rest) % 0x1_0000_0000_0000_0000) % 0x1_0000_0000_0000_0000);
            }
            ((byte - 128) as u64).wrapping_add(rest.wrapping_mul(128))
        }
    }

    pub fn varint(&mut self) -> (r: u64)
        requires
            encoding::parse_varint(old(self).bytes@, old(self).pos as int) is Some,
        ensures
            final(self).bytes == old(self).bytes,
            encoding::parse_varint(old(self).bytes@, old(self).pos as int) == Some(
                (r, final(self).pos as int),
            ),
    {
        self.varint_n(MAX_VARINT_LEN)
    }

    pub fn svarint(&mut self) -> (r: i64)
        requires
            encoding::parse_svarint(old(self).bytes@, old(self).pos as int) is Some,
        ensures
            final(self).bytes == old(self).bytes,
            encoding::parse_svarint(old(self).bytes@, old(self).pos as int) == Some(
                (r, final(self).pos as int),
            ),
    {
        let value: u64 = self.varint();
        if value % 2 == 0 {
            (value / 2) as i64
        } else {
            -((value / 2) as i64) - 1
        }
    }

    fn i32(&mut self) -> (r: i32)
        requires
            encoding::parse_i32(old(self).bytes@, old(self).pos as int) is Some,
        ensures
            final(self).bytes == old(self).bytes,
            encoding::parse_i32(old(self).bytes@, old(self).pos as int) == Some(
                (r, final(self).pos as int),
            ),
    {
        #[verifier::truncate]
        (self.svarint() as i32)
    }

    /// Decode a location. A VALUE comes back as the position of its 8-byte field so that
    /// the GC can update it in place.
    pub fn loc(&mut self) -> (r: DecodedLoc)
        requires
            encoding::parse_loc(old(self).bytes@, old(self).pos as int) is Some,
        ensures
            final(self).bytes == old(self).bytes,
            encoding::parse_loc(old(self).bytes@, old(self).pos as int) == Some(
                (r, final(self).pos as int),
            ),
    {
        proof {
            reveal(encoding::parse_loc);
        }
        let byte: u8 = self.u8();
        let payload: u8 = byte / 8;
        let tag: u8 = byte % 8;
        if tag == TAG_REG {
            DecodedLoc::Loc(ExitLoc::Reg { reg: payload, bits: 64 })
        } else if tag == TAG_SLOT {
            let disp: i32 = self.i32();
            DecodedLoc::Loc(ExitLoc::NativeSlot { disp, bits: 64 })
        } else if tag == TAG_SMALL_IMM {
            let imm: i32 = self.i32();
            DecodedLoc::Loc(ExitLoc::SmallImm(imm))
        } else if tag == TAG_VALUE {
            DecodedLoc::Value(self.u64_field())
        } else if tag == TAG_IMM {
            DecodedLoc::Imm(self.u64())
        } else if tag == TAG_MEM {
            let bits: u8 = self.u8();
            let disp: i32 = self.i32();
            DecodedLoc::Loc(ExitLoc::Mem { base: payload, bits, disp })
        } else if tag == TAG_STACK_INDIRECT {
            let bits: u8 = self.u8();
            let slot: i32 = self.i32();
            let disp: i32 = self.i32();
            DecodedLoc::Loc(ExitLoc::StackIndirect { slot, disp, bits })
        } else if payload == 0 {
            let reg: u8 = self.u8();
            let bits: u8 = self.u8();
            DecodedLoc::Loc(ExitLoc::Reg { reg, bits })
        } else {
            let bits: u8 = self.u8();
            let disp: i32 = self.i32();
            DecodedLoc::Loc(ExitLoc::NativeSlot { disp, bits })
        }
    }

    /// Decode what precedes the locations of a descriptor.
    pub fn header(&mut self) -> (r: DecodedHeader)
        requires
            encoding::parse_header(old(self).bytes@, old(self).pos as int) is Some,
        ensures
            final(self).bytes == old(self).bytes,
            encoding::parse_header(old(self).bytes@, old(self).pos as int) == Some(
                (r, final(self).pos as int),
            ),
    {
        proof {
            reveal(encoding::parse_header);
        }
        let pc: u64 = self.u64();
        let iseq: usize = self.u64_field();
        let flags: u8 = self.u8();
        let recompile: Option<usize> = if (flags / FLAG_RECOMPILE) % 2 == 1 {
            Some(self.u64_field())
        } else if (flags / FLAG_RECOMPILE_SELF) % 2 == 1 {
            Some(iseq)
        } else {
            None
        };
        let num_stack: u64 = self.varint();
        let num_locals: u64 = self.varint();
        DecodedHeader { pc, iseq, recompile, flags, num_stack, num_locals }
    }

    /// Step over one location, adding its VALUE field, if it has one, to `found`.
    fn visit(&mut self, found: &mut Vec<usize>)
        requires
            encoding::parse_loc(old(self).bytes@, old(self).pos as int) is Some,
        ensures
            final(self).bytes == old(self).bytes,
            encoding::parse_loc(old(self).bytes@, old(self).pos as int) matches Some((loc, end))
                && {
                &&& final(self).pos == end
                &&& final(found)@ == old(found)@ + fields::loc_fields(loc)
            },
    {
        match self.loc() {
            DecodedLoc::Value(field) => {
                found.push(field);
            },
            _ => {},
        }
        assert(found@ =~= old(found)@ + fields::loc_fields(
            encoding::parse_loc(old(self).bytes@, old(self).pos as int).unwrap().0,
        ));
    }

    /// Step over the rest of a descriptor after its header, adding each VALUE field to
    /// `found`. Leaves the cursor at the next descriptor.
    pub fn visit_rest(&mut self, header: &DecodedHeader, found: &mut Vec<usize>)
        requires
            encoding::parse_rest(old(self).bytes@, old(self).pos as int, *header) is Some,
            old(self).pos <= old(self).bytes@.len(),
        ensures
            final(self).bytes == old(self).bytes,
            encoding::parse_rest(old(self).bytes@, old(self).pos as int, *header) matches Some(
                (desc, end),
            ) && {
                &&& final(self).pos == end
                &&& final(found)@ == old(found)@ + fields::value_fields(desc)
            },
    {
        proof {
            reveal(encoding::parse_rest);
            reveal(encoding::parse_stack_map);
        }
        let bytes = self.bytes;
        let ghost start = self.pos as int;
        let ghost before = found@;
        let ghost total = (header.num_stack + header.num_locals) as nat;
        let len: usize = bytes.len();
        proof {
            fields::lemma_locs_span(bytes@, start, total);
        }
        let count: u64 = header.num_stack + header.num_locals;
        let mut idx: u64 = 0;
        while idx < count
            invariant
                idx <= count,
                count == total,
                self.bytes == bytes,
                encoding::parse_locs(bytes@, start, total) is Some,
                encoding::parse_locs(bytes@, start, idx as nat) matches Some((locs, end)) && {
                    &&& self.pos == end
                    &&& found@ == before + fields::locs_fields(locs)
                },
            decreases count - idx,
        {
            let ghost found0 = found@;
            let ghost locs0 = encoding::parse_locs(bytes@, start, idx as nat).unwrap().0;
            proof {
                encoding::lemma_locs_prefix(bytes@, start, (idx + 1) as nat, total);
            }
            self.visit(found);
            idx = idx + 1;
            proof {
                let locs1 = encoding::parse_locs(bytes@, start, idx as nat).unwrap().0;
                assert(locs1.drop_last() =~= locs0);
                assert(found@ =~= before + fields::locs_fields(locs1));
            }
        }
        let ghost locs = encoding::parse_locs(bytes@, start, total).unwrap().0;
        let ghost middle = found@;
        if (header.flags / FLAG_STACK_MAP) % 2 == 1 {
            let ghost map_pos = self.pos as int;
            self.u64();
            self.svarint();
            let captures: u64 = self.varint();
            let ghost first = self.pos as int;
            let mut idx: u64 = 0;
            while idx < captures
                invariant
                    idx <= captures,
                    self.bytes == bytes,
                    encoding::parse_captures(bytes@, first, captures as nat) is Some,
                    encoding::parse_captures(bytes@, first, idx as nat) matches Some((cs, end)) && {
                        &&& self.pos == end
                        &&& found@ == middle + fields::captures_fields(cs)
                    },
                decreases captures - idx,
            {
                let ghost found0 = found@;
                let ghost cs0 = encoding::parse_captures(bytes@, first, idx as nat).unwrap().0;
                proof {
                    encoding::lemma_captures_prefix(
                        bytes@,
                        first,
                        (idx + 1) as nat,
                        captures as nat,
                    );
                }
                self.visit(found);
                self.svarint();
                idx = idx + 1;
                proof {
                    let cs1 = encoding::parse_captures(bytes@, first, idx as nat).unwrap().0;
                    assert(cs1.drop_last() =~= cs0);
                    assert(found@ =~= middle + fields::captures_fields(cs1));
                }
            }
        }
        if (header.flags / FLAG_TRACE) % 2 == 1 {
            self.u64();
        }
        proof {
            let desc = encoding::parse_rest(bytes@, start, *header).unwrap().0;
            assert(found@ =~= before + fields::value_fields(desc));
        }
    }
}

} // verus!
