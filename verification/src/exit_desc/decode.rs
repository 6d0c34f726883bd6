//! Turning encoded descriptors back into the form they were built in.

use vstd::prelude::*;

use super::codec::Decoder;
use super::descriptor;
use super::descriptor::{ExitDescriptor, ExitDescriptorExtra, ExitImms, ExitStackMap};
use super::encoding;
use super::encoding::{DecodedHeader, DecodedLoc, DescModel, ExitLoc};
use super::encoding::{FLAG_STACK_MAP, FLAG_TRACE};
use super::fields;
use super::gc;
use super::table::ExitDescriptorTable;
use crate::le;

verus! {

/// Whether `locs` refer to immediates that are there.
pub open spec fn locs_in_range(locs: Seq<ExitLoc>, num_imms: nat) -> bool {
    forall|i: int| 0 <= i < locs.len() ==> encoding::loc_in_range(#[trigger] locs[i], num_imms)
}

pub open spec fn captures_in_range(captures: Seq<(ExitLoc, i32)>, num_imms: nat) -> bool {
    forall|i: int|
        0 <= i < captures.len() ==> encoding::loc_in_range((#[trigger] captures[i]).0, num_imms)
}

/// Whether `desc` refers only to immediates that are there.
pub open spec fn imms_in_range(desc: ExitDescriptor) -> bool {
    &&& desc.num_stack <= desc.locs@.len()
    &&& locs_in_range(desc.locs@, desc.imms@.len())
    &&& desc.spec_stack_map() matches Some(map) ==> captures_in_range(
        map.captures@,
        desc.imms@.len(),
    )
}

proof fn lemma_more_imms(loc: ExitLoc, imms: Seq<u64>, more: Seq<u64>)
    requires
        imms.is_prefix_of(more),
        encoding::loc_in_range(loc, imms.len()),
    ensures
        encoding::loc_in_range(loc, more.len()),
        encoding::loc_model(loc, more) == encoding::loc_model(loc, imms),
{
    assert forall|i: int| 0 <= i < imms.len() implies imms[i] == more[i] by {
        assert(more.take(imms.len() as int)[i] == more[i]);
    }
}

/// Decode one location, moving its immediate to `imms`.
fn decode_loc(decoder: &mut Decoder, imms: &mut Vec<u64>) -> (r: ExitLoc)
    requires
        old(decoder).bytes@.len() <= usize::MAX,
        encoding::parse_loc(old(decoder).bytes@, old(decoder).pos as int) is Some,
        old(imms)@.len() < u32::MAX,
    ensures
        final(decoder).bytes == old(decoder).bytes,
        old(imms)@.is_prefix_of(final(imms)@),
        final(imms)@.len() <= old(imms)@.len() + 1,
        encoding::loc_in_range(r, final(imms)@.len()),
        encoding::parse_loc(old(decoder).bytes@, old(decoder).pos as int) matches Some((loc, end))
            && {
            &&& final(decoder).pos == end
            &&& encoding::loc_model(r, final(imms)@) == encoding::decoded_loc_model(
                old(decoder).bytes@,
                loc,
            )
        },
{
    let bytes = decoder.bytes;
    let ghost before = imms@;
    proof {
        fields::lemma_loc_span(bytes@, decoder.pos as int);
    }
    match decoder.loc() {
        DecodedLoc::Loc(loc) => loc,
        DecodedLoc::Imm(imm) => {
            imms.push(imm);
            assert(imms@.take(before.len() as int) =~= before);
            ExitLoc::Imm((imms.len() - 1) as u32)
        },
        DecodedLoc::Value(field) => {
            proof {
                assert(fields::loc_fields(DecodedLoc::Value(field))[0] == field);
                le::lemma_le_value_bound(bytes@.subrange(field as int, field + 8));
                le::lemma_byte_range_8();
            }
            imms.push(le::read_u64(bytes, field));
            assert(imms@.take(before.len() as int) =~= before);
            ExitLoc::Value((imms.len() - 1) as u32)
        },
    }
}

/// Decode what precedes a stack map: all `header.num_stack + header.num_locals` locations.
fn decode_locs(decoder: &mut Decoder, count: u64, imms: &mut Vec<u64>) -> (r: Vec<ExitLoc>)
    requires
        old(decoder).bytes@.len() <= usize::MAX,
        encoding::parse_locs(old(decoder).bytes@, old(decoder).pos as int, count as nat) is Some,
        old(imms)@.len() == 0,
        count < u32::MAX,
    ensures
        final(decoder).bytes == old(decoder).bytes,
        final(imms)@.len() <= count,
        locs_in_range(r@, final(imms)@.len()),
        encoding::parse_locs(
            old(decoder).bytes@,
            old(decoder).pos as int,
            count as nat,
        ) matches Some((locs, end)) && {
            &&& final(decoder).pos == end
            &&& descriptor::locs_model(r@, final(imms)@) == encoding::decoded_locs_model(
                old(decoder).bytes@,
                locs,
            )
        },
{
    let bytes = decoder.bytes;
    let ghost start = decoder.pos as int;
    let mut out: Vec<ExitLoc> = Vec::new();
    let mut idx: u64 = 0;
    while idx < count
        invariant
            idx <= count < u32::MAX,
            decoder.bytes == bytes,
            bytes@.len() <= usize::MAX,
            encoding::parse_locs(bytes@, start, count as nat) is Some,
            imms@.len() <= idx,
            out@.len() == idx,
            locs_in_range(out@, imms@.len()),
            encoding::parse_locs(bytes@, start, idx as nat) matches Some((locs, end)) && {
                &&& decoder.pos == end
                &&& locs.len() == idx
                &&& forall|i: int|
                    0 <= i < idx ==> encoding::loc_model(#[trigger] out@[i], imms@)
                        == encoding::decoded_loc_model(bytes@, locs[i])
            },
        decreases count - idx,
    {
        let ghost imms0 = imms@;
        let ghost out0 = out@;
        proof {
            encoding::lemma_locs_prefix(bytes@, start, (idx + 1) as nat, count as nat);
        }
        let loc: ExitLoc = decode_loc(decoder, imms);
        out.push(loc);
        idx = idx + 1;
        proof {
            assert forall|i: int| 0 <= i < idx - 1 implies encoding::loc_model(
                #[trigger] out@[i],
                imms@,
            ) == encoding::loc_model(out0[i], imms0) && encoding::loc_in_range(
                out@[i],
                imms@.len(),
            ) by {
                assert(out@[i] == out0[i]);
                lemma_more_imms(out0[i], imms0, imms@);
            }
        }
    }
    proof {
        let locs = encoding::parse_locs(bytes@, start, count as nat).unwrap().0;
        assert(descriptor::locs_model(out@, imms@) =~= encoding::decoded_locs_model(bytes@, locs));
    }
    out
}

/// Decode the captures of a stack map.
fn decode_captures(decoder: &mut Decoder, count: u64, imms: &mut Vec<u64>) -> (r: Vec<
    (ExitLoc, i32),
>)
    requires
        old(decoder).bytes@.len() <= usize::MAX,
        encoding::parse_captures(
            old(decoder).bytes@,
            old(decoder).pos as int,
            count as nat,
        ) is Some,
        old(imms)@.len() + count < u32::MAX,
    ensures
        final(decoder).bytes == old(decoder).bytes,
        old(imms)@.is_prefix_of(final(imms)@),
        captures_in_range(r@, final(imms)@.len()),
        encoding::parse_captures(
            old(decoder).bytes@,
            old(decoder).pos as int,
            count as nat,
        ) matches Some((captures, end)) && {
            &&& final(decoder).pos == end
            &&& descriptor::captures_model(r@, final(imms)@) == encoding::decoded_captures_model(
                old(decoder).bytes@,
                captures,
            )
        },
{
    let bytes = decoder.bytes;
    let ghost start = decoder.pos as int;
    let ghost first = imms@;
    let mut out: Vec<(ExitLoc, i32)> = Vec::new();
    let mut idx: u64 = 0;
    assert(first.take(first.len() as int) =~= first);
    while idx < count
        invariant
            idx <= count,
            first.len() + count < u32::MAX,
            decoder.bytes == bytes,
            bytes@.len() <= usize::MAX,
            encoding::parse_captures(bytes@, start, count as nat) is Some,
            first.is_prefix_of(imms@),
            imms@.len() <= first.len() + idx,
            out@.len() == idx,
            captures_in_range(out@, imms@.len()),
            encoding::parse_captures(bytes@, start, idx as nat) matches Some((captures, end)) && {
                &&& decoder.pos == end
                &&& captures.len() == idx
                &&& forall|i: int|
                    0 <= i < idx ==> encoding::loc_model((#[trigger] out@[i]).0, imms@)
                        == encoding::decoded_loc_model(bytes@, captures[i].0) && out@[i].1
                        == captures[i].1 as i32
            },
        decreases count - idx,
    {
        let ghost imms0 = imms@;
        let ghost out0 = out@;
        proof {
            encoding::lemma_captures_prefix(bytes@, start, (idx + 1) as nat, count as nat);
        }
        let loc: ExitLoc = decode_loc(decoder, imms);
        let slot: i32 = #[verifier::truncate]
        (decoder.svarint() as i32);
        out.push((loc, slot));
        idx = idx + 1;
        proof {
            assert forall|i: int| 0 <= i < first.len() implies first[i] == #[trigger] imms@[i] by {
                assert(imms0.take(first.len() as int)[i] == imms0[i]);
                assert(imms@.take(imms0.len() as int)[i] == imms@[i]);
            }
            assert(imms@.take(first.len() as int) =~= first);
            assert forall|i: int| 0 <= i < idx - 1 implies encoding::loc_model(
                (#[trigger] out@[i]).0,
                imms@,
            ) == encoding::loc_model(out0[i].0, imms0) && encoding::loc_in_range(
                out@[i].0,
                imms@.len(),
            ) by {
                assert(out@[i] == out0[i]);
                lemma_more_imms(out0[i].0, imms0, imms@);
            }
        }
    }
    proof {
        let captures = encoding::parse_captures(bytes@, start, count as nat).unwrap().0;
        assert(descriptor::captures_model(out@, imms@) =~= encoding::decoded_captures_model(
            bytes@,
            captures,
        ));
    }
    out
}

/// Decode the stack map of a descriptor, if its flags say that it has one.
fn decode_stack_map(decoder: &mut Decoder, flags: u8, imms: &mut Vec<u64>) -> (r: Option<
    ExitStackMap,
>)
    requires
        old(decoder).pos <= old(decoder).bytes@.len() <= usize::MAX,
        encoding::parse_stack_map(
            old(decoder).bytes@,
            old(decoder).pos as int,
            flags,
        ) matches Some((_, end)) && old(imms)@.len() + end - old(decoder).pos < u32::MAX,
    ensures
        final(decoder).bytes == old(decoder).bytes,
        old(imms)@.is_prefix_of(final(imms)@),
        r matches Some(map) ==> captures_in_range(map.captures@, final(imms)@.len()),
        encoding::parse_stack_map(
            old(decoder).bytes@,
            old(decoder).pos as int,
            flags,
        ) matches Some((stack_map, end)) && {
            &&& final(decoder).pos == end
            &&& r is Some <==> stack_map is Some
            &&& r matches Some(map) ==> stack_map matches Some(want) && {
                &&& descriptor::captures_model(map.captures@, final(imms)@)
                    == encoding::decoded_captures_model(old(decoder).bytes@, want.captures)
                &&& map.jit_frame == want.jit_frame
                &&& map.jit_frame_slot == want.jit_frame_slot as i32
            }
        },
{
    let bytes = decoder.bytes;
    let ghost before = imms@;
    let ghost pos = decoder.pos as int;
    proof {
        reveal(encoding::parse_stack_map);
    }
    if (flags / FLAG_STACK_MAP) % 2 == 1 {
        let jit_frame: u64 = decoder.u64();
        let jit_frame_slot: i32 = #[verifier::truncate]
        (decoder.svarint() as i32);
        let ghost p2 = decoder.pos as int;
        let count: u64 = decoder.varint();
        proof {
            fields::lemma_varint_n_end(bytes@, pos + 8, encoding::MAX_VARINT_LEN as nat);
            fields::lemma_varint_n_end(bytes@, p2, encoding::MAX_VARINT_LEN as nat);
            fields::lemma_captures_span(bytes@, decoder.pos as int, count as nat);
        }
        let captures = decode_captures(decoder, count, imms);
        Some(ExitStackMap { captures, jit_frame, jit_frame_slot })
    } else {
        assert(before.take(before.len() as int) =~= before);
        None
    }
}

/// Decode the descriptor at the cursor.
pub fn decode_descriptor(decoder: &mut Decoder) -> (r: ExitDescriptor)
    requires
        old(decoder).bytes@.len() <= usize::MAX,
        encoding::parse_desc(old(decoder).bytes@, old(decoder).pos as int) matches Some((_, end))
            && end <= u32::MAX,
    ensures
        final(decoder).bytes == old(decoder).bytes,
        imms_in_range(r),
        encoding::parse_desc(old(decoder).bytes@, old(decoder).pos as int) matches Some((d, end))
            && {
            &&& final(decoder).pos == end
            &&& r.model() == encoding::decoded_model(old(decoder).bytes@, d)
        },
{
    let bytes = decoder.bytes;
    let ghost pos = decoder.pos as int;
    let ghost (d, end) = encoding::parse_desc(bytes@, pos).unwrap();
    proof {
        fields::lemma_header_span(bytes@, pos);
        fields::lemma_desc_span(bytes@, pos);
        fields::lemma_value_span(bytes@, pos);
        reveal(encoding::parse_rest);
    }
    let header: DecodedHeader = decoder.header();
    let mut imms = ExitImms::default();
    let ghost p1 = decoder.pos as int;
    let ghost total = (header.num_stack + header.num_locals) as nat;
    proof {
        fields::lemma_locs_span(bytes@, p1, total);
        fields::lemma_stack_map_span(
            bytes@,
            encoding::parse_locs(bytes@, p1, total).unwrap().1,
            header.flags,
        );
    }
    let num_stack: usize = header.num_stack as usize;
    let locs = decode_locs(decoder, header.num_stack + header.num_locals, &mut imms.0);
    let ghost imms1 = imms.0@;
    let stack_map = decode_stack_map(decoder, header.flags, &mut imms.0);
    let trace_reason: Option<u64> = if (header.flags / FLAG_TRACE) % 2 == 1 {
        Some(decoder.u64())
    } else {
        None
    };
    let extra: Option<Box<ExitDescriptorExtra>> = if stack_map.is_some()
        || trace_reason.is_some() {
        Some(Box::new(ExitDescriptorExtra { stack_map, trace_reason }))
    } else {
        None
    };
    proof {
        assert forall|field: usize| field + 8 <= bytes@.len() implies (
        #[trigger] encoding::field_word(bytes@, field as int)) == le::le_value(
            bytes@.subrange(field as int, field + 8),
        ) by {
            le::lemma_le_value_bound(bytes@.subrange(field as int, field + 8));
            le::lemma_byte_range_8();
        }
    }
    let recompile: u64 = match header.recompile {
        Some(field) => le::read_u64(bytes, field),
        None => 0,
    };
    let iseq: u64 = le::read_u64(bytes, header.iseq);
    let r = ExitDescriptor {
        pc: header.pc,
        iseq,
        recompile,
        locs,
        num_stack,
        imms: imms.0,
        extra,
    };
    proof {
        let m = r.model();
        let want = encoding::decoded_model(bytes@, d);
        assert(locs@.len() == d.locs.len()) by {
            assert(descriptor::locs_model(locs@, imms1).len() == encoding::decoded_locs_model(
                bytes@,
                d.locs,
            ).len());
        }
        assert forall|i: int| 0 <= i < locs@.len() implies encoding::loc_model(
            #[trigger] locs@[i],
            r.imms@,
        ) == encoding::decoded_loc_model(bytes@, d.locs[i]) && encoding::loc_in_range(
            locs@[i],
            r.imms@.len(),
        ) by {
            assert(descriptor::locs_model(locs@, imms1)[i] == encoding::decoded_locs_model(
                bytes@,
                d.locs,
            )[i]);
            lemma_more_imms(locs@[i], imms1, r.imms@);
        }
        assert(m.stack =~= want.stack);
        assert(m.locals =~= want.locals);
        assert(m.stack_map == want.stack_map);
        assert(m == want);
    }
    r
}

/// What the descriptors in several ranges of a table say, one range after the other.
pub open spec fn models_in(bytes: Seq<u8>, ranges: Seq<std::ops::Range<u32>>) -> Seq<DescModel>
    decreases ranges.len(),
{
    if ranges.len() == 0 {
        Seq::empty()
    } else {
        let range = ranges.last();
        models_in(bytes, ranges.drop_last()) + encoding::decoded_models(
            bytes,
            encoding::parse_descs(bytes, range.start as int, range.end as int).unwrap(),
        )
    }
}

/// What some descriptors say.
pub open spec fn models_of(descs: Seq<ExitDescriptor>) -> Seq<DescModel> {
    Seq::new(descs.len(), |i: int| descs[i].model())
}

/// Decode the descriptors in `range`, adding them to `descs`.
fn decode_range(
    table: &ExitDescriptorTable,
    range: &std::ops::Range<u32>,
    descs: &mut Vec<ExitDescriptor>,
)
    requires
        gc::is_range(table.bytes@, *range),
        forall|i: int| 0 <= i < old(descs)@.len() ==> imms_in_range(#[trigger] old(descs)@[i]),
    ensures
        forall|i: int| 0 <= i < final(descs)@.len() ==> imms_in_range(#[trigger] final(descs)@[i]),
        models_of(final(descs)@) == models_of(old(descs)@) + encoding::decoded_models(
            table.bytes@,
            encoding::parse_descs(
                table.bytes@,
                range.start as int,
                range.end as int,
            ).unwrap(),
        ),
{
    let len: usize = table.bytes.len();
    let end: usize = range.end as usize;
    proof {
        fields::lemma_boundaries(table.bytes@, range.start as int, range.end as int);
    }
    let ghost ds = encoding::parse_descs(
        table.bytes@,
        range.start as int,
        range.end as int,
    ).unwrap();
    let ghost before = models_of(descs@);
    let ghost left = ds;
    let mut decoder = Decoder { bytes: table.bytes.as_slice(), pos: range.start as usize };
    while decoder.pos < end
        invariant
            end <= u32::MAX,
            end <= table.bytes@.len() == len,
            decoder.bytes@ == table.bytes@,
            forall|i: int| 0 <= i < descs@.len() ==> imms_in_range(#[trigger] descs@[i]),
            encoding::parse_descs(table.bytes@, decoder.pos as int, end as int) == Some(left),
            models_of(descs@) + encoding::decoded_models(table.bytes@, left) == before
                + encoding::decoded_models(table.bytes@, ds),
        decreases end - decoder.pos,
    {
        let ghost now = models_of(descs@);
        let desc = decode_descriptor(&mut decoder);
        descs.push(desc);
        proof {
            let rest = encoding::parse_descs(
                table.bytes@,
                decoder.pos as int,
                end as int,
            ).unwrap();
            assert(models_of(descs@) =~= now.push(desc.model()));
            assert(models_of(descs@) + encoding::decoded_models(table.bytes@, rest) =~= now
                + encoding::decoded_models(table.bytes@, left));
            left = rest;
        }
    }
    assert(models_of(descs@) + encoding::decoded_models(table.bytes@, left) =~= models_of(
        descs@,
    ));
}

/// Decode the descriptors registered for the versions of an ISEQ, each with its range of the
/// table.
pub fn descriptors_of(
    table: &ExitDescriptorTable,
    ranges: &Vec<std::ops::Range<u32>>,
) -> (r: Vec<ExitDescriptor>)
    requires
        forall|i: int|
            0 <= i < ranges@.len() ==> gc::is_range(table.bytes@, #[trigger] ranges@[i]),
    ensures
        models_of(r@) == models_in(table.bytes@, ranges@),
        forall|i: int| 0 <= i < r@.len() ==> imms_in_range(#[trigger] r@[i]),
{
    let mut descs: Vec<ExitDescriptor> = Vec::new();
    let mut idx: usize = 0;
    assert(models_of(descs@) =~= models_in(table.bytes@, ranges@.take(0)));
    while idx < ranges.len()
        invariant
            idx <= ranges@.len(),
            forall|i: int|
                0 <= i < ranges@.len() ==> gc::is_range(table.bytes@, #[trigger] ranges@[i]),
            forall|i: int| 0 <= i < descs@.len() ==> imms_in_range(#[trigger] descs@[i]),
            models_of(descs@) == models_in(table.bytes@, ranges@.take(idx as int)),
        decreases ranges@.len() - idx,
    {
        decode_range(table, &ranges[idx], &mut descs);
        idx = idx + 1;
        proof {
            assert(ranges@.take(idx as int).drop_last() =~= ranges@.take(idx - 1));
        }
    }
    assert(ranges@.take(idx as int) =~= ranges@);
    descs
}

} // verus!
