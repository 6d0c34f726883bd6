//! Marking finds every object that a descriptor mentions.

use vstd::prelude::*;

use crate::cruby;
use crate::cruby::VALUE;
use super::encoding;
use super::encoding::{DecodedDesc, DecodedLoc, DescModel, LocModel};
use super::fields;
use super::gc;
use super::relocate;

verus! {

/// Whether a location holds the object `word`.
pub open spec fn holds(loc: LocModel, word: u64) -> bool {
    loc == LocModel::Value(word) && !cruby::is_special_const(word)
}

/// Whether a descriptor mentions the object `word`: as the ISEQ of its frame, as the ISEQ to
/// recompile, or as a heap object that the exit restores.
pub open spec fn mentions(m: DescModel, word: u64) -> bool {
    ||| word == m.iseq
    ||| word == m.recompile && word != 0
    ||| exists|i: int| 0 <= i < m.stack.len() && holds(#[trigger] m.stack[i], word)
    ||| exists|i: int| 0 <= i < m.locals.len() && holds(#[trigger] m.locals[i], word)
    ||| m.stack_map matches Some(map) && exists|i: int|
        0 <= i < map.captures.len() && holds((#[trigger] map.captures[i]).0, word)
}

/// Whether one of `fields` holds `word`.
spec fn in_fields(bytes: Seq<u8>, fields: Seq<usize>, word: u64) -> bool {
    exists|k: int|
        0 <= k < fields.len() && encoding::field_word(bytes, #[trigger] fields[k] as int) == word
}

proof fn lemma_in_concat(bytes: Seq<u8>, a: Seq<usize>, b: Seq<usize>, word: u64)
    requires
        in_fields(bytes, a, word) || in_fields(bytes, b, word),
    ensures
        in_fields(bytes, a + b, word),
{
    if in_fields(bytes, a, word) {
        let k = choose|k: int|
            0 <= k < a.len() && encoding::field_word(bytes, #[trigger] a[k] as int) == word;
        assert((a + b)[k] == a[k]);
    } else {
        let k = choose|k: int|
            0 <= k < b.len() && encoding::field_word(bytes, #[trigger] b[k] as int) == word;
        assert((a + b)[a.len() + k] == b[k]);
    }
}

/// A field that holds a heap object is among those that do.
proof fn lemma_heap_field(bytes: Seq<u8>, fields: Seq<usize>, field: usize)
    requires
        fields.contains(field),
        !cruby::is_special_const(encoding::field_word(bytes, field as int)),
    ensures
        in_fields(
            bytes,
            fields::heap_fields(bytes, fields),
            encoding::field_word(bytes, field as int),
        ),
    decreases fields.len(),
{
    let init = fields.drop_last();
    let heap = fields::heap_fields(bytes, fields);
    if fields.last() == field {
        assert(heap.last() == field);
        assert(heap[heap.len() - 1] == field);
    } else {
        let k = choose|k: int| 0 <= k < fields.len() && fields[k] == field;
        assert(init[k] == field);
        lemma_heap_field(bytes, init, field);
        let found = fields::heap_fields(bytes, init);
        let word = encoding::field_word(bytes, field as int);
        let j = choose|j: int|
            0 <= j < found.len() && encoding::field_word(bytes, #[trigger] found[j] as int) == word;
        assert(heap[j] == found[j]);
    }
}

/// A heap object at a location of a descriptor is in a field of the descriptor.
proof fn lemma_loc_object(bytes: Seq<u8>, d: DecodedDesc, i: int, word: u64)
    requires
        0 <= i < d.locs.len(),
        fields::resolved(d.locs[i]),
        holds(encoding::decoded_loc_model(bytes, d.locs[i]), word),
    ensures
        in_fields(bytes, fields::object_fields(bytes, d), word),
{
    relocate::lemma_loc_field_listed(d.locs, i);
    if let DecodedLoc::Value(field) = d.locs[i] {
        let a = fields::locs_fields(d.locs);
        let b = fields::stack_map_fields(d.stack_map);
        let k = choose|k: int| 0 <= k < a.len() && a[k] == field;
        assert((a + b)[k] == field);
        lemma_heap_field(bytes, fields::value_fields(d), field);
        lemma_in_concat(
            bytes,
            fields::header_fields(d.header),
            fields::heap_fields(bytes, fields::value_fields(d)),
            word,
        );
    }
}

/// A captured heap object is in a field of the descriptor.
proof fn lemma_capture_object(bytes: Seq<u8>, d: DecodedDesc, i: int, word: u64)
    requires
        d.stack_map matches Some(map) && 0 <= i < map.captures.len() && fields::resolved(
            map.captures[i].0,
        ) && holds(encoding::decoded_loc_model(bytes, map.captures[i].0), word),
    ensures
        in_fields(bytes, fields::object_fields(bytes, d), word),
{
    let map = d.stack_map.unwrap();
    relocate::lemma_capture_field_listed(map.captures, i);
    if let DecodedLoc::Value(field) = map.captures[i].0 {
        let a = fields::locs_fields(d.locs);
        let b = fields::captures_fields(map.captures);
        let k = choose|k: int| 0 <= k < b.len() && b[k] == field;
        assert((a + b)[a.len() + k] == field);
        lemma_heap_field(bytes, fields::value_fields(d), field);
        lemma_in_concat(
            bytes,
            fields::header_fields(d.header),
            fields::heap_fields(bytes, fields::value_fields(d)),
            word,
        );
    }
}

/// An object that a descriptor mentions is in one of its fields.
proof fn lemma_mentioned(bytes: Seq<u8>, pos: int, word: u64)
    requires
        bytes.len() <= usize::MAX,
        encoding::parse_desc(bytes, pos) matches Some((d, _)) && mentions(
            encoding::decoded_model(bytes, d),
            word,
        ),
    ensures
        encoding::parse_desc(bytes, pos) matches Some((d, _)) && in_fields(
            bytes,
            fields::object_fields(bytes, d),
            word,
        ),
{
    let (d, _) = encoding::parse_desc(bytes, pos).unwrap();
    let m = encoding::decoded_model(bytes, d);
    let all = fields::object_fields(bytes, d);
    let header = fields::header_fields(d.header);
    let n = d.header.num_stack as int;
    fields::lemma_value_span(bytes, pos);
    reveal(encoding::parse_header);
    assert(all[0] == d.header.iseq);
    if word == m.iseq {
        assert(in_fields(bytes, all, word));
    } else if word == m.recompile && word != 0 {
        let field = d.header.recompile.unwrap();
        if encoding::has_flag(d.header.flags, encoding::FLAG_RECOMPILE) {
            assert(header[1] == field);
            assert(all[1] == field);
        } else {
            assert(field == d.header.iseq);
        }
        assert(in_fields(bytes, all, word));
    } else if exists|i: int| 0 <= i < m.stack.len() && holds(#[trigger] m.stack[i], word) {
        let i = choose|i: int| 0 <= i < m.stack.len() && holds(#[trigger] m.stack[i], word);
        assert(d.locs.take(n)[i] == d.locs[i]);
        lemma_loc_object(bytes, d, i, word);
    } else if exists|i: int| 0 <= i < m.locals.len() && holds(#[trigger] m.locals[i], word) {
        let i = choose|i: int| 0 <= i < m.locals.len() && holds(#[trigger] m.locals[i], word);
        assert(d.locs.skip(n)[i] == d.locs[n + i]);
        lemma_loc_object(bytes, d, n + i, word);
    } else {
        let map = m.stack_map.unwrap();
        let i = choose|i: int|
            0 <= i < map.captures.len() && holds((#[trigger] map.captures[i]).0, word);
        lemma_capture_object(bytes, d, i, word);
    }
}

proof fn lemma_mentioned_in(bytes: Seq<u8>, start: int, end: int, i: int, word: u64)
    requires
        bytes.len() <= usize::MAX,
        encoding::parse_descs(bytes, start, end) matches Some(ds) && 0 <= i < ds.len() && mentions(
            encoding::decoded_model(bytes, ds[i]),
            word,
        ),
    ensures
        encoding::parse_descs(bytes, start, end) matches Some(ds) && in_fields(
            bytes,
            fields::objects_fields(bytes, ds),
            word,
        ),
    decreases i,
{
    let ds = encoding::parse_descs(bytes, start, end).unwrap();
    let (d, p1) = encoding::parse_desc(bytes, start).unwrap();
    let rest = encoding::parse_descs(bytes, p1, end).unwrap();
    assert(ds.skip(1) =~= rest);
    if i == 0 {
        lemma_mentioned(bytes, start, word);
    } else {
        assert(ds[i] == rest[i - 1]);
        lemma_mentioned_in(bytes, p1, end, i - 1, word);
    }
    lemma_in_concat(
        bytes,
        fields::object_fields(bytes, d),
        fields::objects_fields(bytes, rest),
        word,
    );
}

/// Whatever object a descriptor mentions is marked: no exit restores an object that was freed.
pub proof fn law_every_object_is_marked(bytes: Seq<u8>, start: int, end: int, i: int, word: u64)
    requires
        bytes.len() <= usize::MAX,
        word != 0,
        encoding::parse_descs(bytes, start, end) matches Some(ds) && 0 <= i < ds.len() && mentions(
            encoding::decoded_models(bytes, ds)[i],
            word,
        ),
    ensures
        gc::not_null(gc::objects_in(bytes, start, end)).contains(VALUE(word)),
{
    lemma_mentioned_in(bytes, start, end, i, word);
    let ds = encoding::parse_descs(bytes, start, end).unwrap();
    let fields = fields::objects_fields(bytes, ds);
    let objects = gc::objects_in(bytes, start, end);
    let k = choose|k: int|
        0 <= k < fields.len() && encoding::field_word(bytes, #[trigger] fields[k] as int) == word;
    assert(objects[k] == VALUE(word));
    objects.lemma_filter_contains(|object: VALUE| object != VALUE(0), k);
}

} // verus!
