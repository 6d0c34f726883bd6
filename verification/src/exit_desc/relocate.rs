//! Rewriting the GC-managed fields of encoded descriptors in place.

use vstd::prelude::*;

use crate::cruby;
use crate::le;
use super::encoding;
use super::encoding::{DecodedLoc, DescModel, LocModel, StackMapModel};
use super::fields;

verus! {

/// `bytes` with `words[k]` written into field `fields[k]`, for every `k`.
pub open spec fn patch_fields(bytes: Seq<u8>, fields: Seq<usize>, words: Seq<u64>) -> Seq<u8>
    decreases fields.len(),
{
    if fields.len() == 0 {
        bytes
    } else {
        le::patched(
            patch_fields(bytes, fields.drop_last(), words.drop_last()),
            fields.last() as int,
            words.last(),
        )
    }
}

/// Writing one field changes its word and no other byte.
pub proof fn lemma_patched(bytes: Seq<u8>, pos: int, word: u64)
    requires
        0 <= pos,
        pos + 8 <= bytes.len(),
    ensures
        le::patched(bytes, pos, word).len() == bytes.len(),
        encoding::field_word(le::patched(bytes, pos, word), pos) == word,
        forall|i: int|
            0 <= i < bytes.len() && !(pos <= i < pos + 8) ==> bytes[i] == #[trigger] le::patched(
                bytes,
                pos,
                word,
            )[i],
{
    let after = le::patched(bytes, pos, word);
    le::lemma_le_bytes_len(word as nat, 8);
    assert(after.subrange(pos, pos + 8) =~= le::le_bytes(word as nat, 8));
    le::lemma_byte_range_8();
    le::law_le_round_trip(word as nat, 8);
}

/// Two words are the same where the bytes are.
pub proof fn lemma_same_word(b1: Seq<u8>, b2: Seq<u8>, pos: int)
    requires
        0 <= pos,
        pos + 8 <= b1.len(),
        pos + 8 <= b2.len(),
        forall|i: int| pos <= i < pos + 8 ==> b1[i] == #[trigger] b2[i],
    ensures
        encoding::field_word(b1, pos) == encoding::field_word(b2, pos),
{
    assert(b1.subrange(pos, pos + 8) =~= b2.subrange(pos, pos + 8));
}

/// Writing fields that do not overlap changes their words and no other byte.
pub proof fn lemma_patch_fields(
    bytes: Seq<u8>,
    fields: Seq<usize>,
    words: Seq<u64>,
    lo: int,
    hi: int,
)
    requires
        fields::spaced(fields, lo, hi),
        fields.len() == words.len(),
        0 <= lo,
        hi <= bytes.len(),
    ensures
        patch_fields(bytes, fields, words).len() == bytes.len(),
        forall|i: int|
            0 <= i < bytes.len() && !fields::covered(fields, i) ==> bytes[i]
                == #[trigger] patch_fields(bytes, fields, words)[i],
        forall|k: int|
            0 <= k < fields.len() ==> encoding::field_word(
                patch_fields(bytes, fields, words),
                #[trigger] fields[k] as int,
            ) == words[k],
    decreases fields.len(),
{
    if fields.len() > 0 {
        let init = fields.drop_last();
        let winit = words.drop_last();
        let before = patch_fields(bytes, init, winit);
        let after = patch_fields(bytes, fields, words);
        let pos = fields.last() as int;
        assert(fields[fields.len() - 1] == pos);
        assert forall|j: int, k: int| 0 <= j < k < init.len() implies (#[trigger] init[j]) + 8 <= (
        #[trigger] init[k]) by {
            assert(init[j] == fields[j] && init[k] == fields[k]);
        }
        assert forall|k: int| 0 <= k < init.len() implies lo <= (#[trigger] init[k]) && init[k] + 8
            <= hi by {
            assert(init[k] == fields[k]);
        }
        lemma_patch_fields(bytes, init, winit, lo, hi);
        lemma_patched(before, pos, words.last());
        assert forall|i: int| 0 <= i < bytes.len() && !fields::covered(fields, i) implies bytes[i]
            == #[trigger] after[i] by {
            assert(!(fields[fields.len() - 1] <= i < pos + 8));
            if fields::covered(init, i) {
                let k = choose|k: int|
                    0 <= k < init.len() && (#[trigger] init[k]) <= i < init[k] + 8;
                assert(fields[k] == init[k]);
            }
            assert(bytes[i] == before[i]);
        }
        assert forall|k: int| 0 <= k < fields.len() implies encoding::field_word(
            after,
            #[trigger] fields[k] as int,
        ) == words[k] by {
            if k < init.len() {
                assert(init[k] == fields[k]);
                assert(fields[k] + 8 <= fields[fields.len() - 1]);
                lemma_same_word(before, after, fields[k] as int);
            }
        }
    }
}

/// The heap fields among some fields are as well spaced, and are those whose word is a heap
/// object.
pub proof fn lemma_heap_fields(bytes: Seq<u8>, fields: Seq<usize>, lo: int, hi: int)
    requires
        fields::spaced(fields, lo, hi),
    ensures
        fields::spaced(fields::heap_fields(bytes, fields), lo, hi),
        forall|g: usize| #[trigger]
            fields::heap_fields(bytes, fields).contains(g) <==> fields.contains(g)
                && !cruby::is_special_const(encoding::field_word(bytes, g as int)),
    decreases fields.len(),
{
    if fields.len() > 0 {
        let init = fields.drop_last();
        let last = fields.last();
        assert(fields[fields.len() - 1] == last);
        assert forall|j: int, k: int| 0 <= j < k < init.len() implies (#[trigger] init[j]) + 8 <= (
        #[trigger] init[k]) by {
            assert(init[j] == fields[j] && init[k] == fields[k]);
        }
        assert forall|k: int| 0 <= k < init.len() implies lo <= (#[trigger] init[k]) && init[k] + 8
            <= last && init[k] + 8 <= hi by {
            assert(init[k] == fields[k]);
        }
        lemma_heap_fields(bytes, init, lo, hi);
        let hinit = fields::heap_fields(bytes, init);
        let heap = fields::heap_fields(bytes, fields);
        assert forall|k: int| 0 <= k < hinit.len() implies (#[trigger] hinit[k]) + 8 <= last by {
            assert(hinit.contains(hinit[k]));
            assert(init.contains(hinit[k]));
        }
        assert forall|g: usize| #[trigger] heap.contains(g) <==> fields.contains(g)
            && !cruby::is_special_const(encoding::field_word(bytes, g as int)) by {
            assert(hinit.contains(g) <==> init.contains(g) && !cruby::is_special_const(
                encoding::field_word(bytes, g as int),
            ));
            if fields.contains(g) {
                let k = choose|k: int| 0 <= k < fields.len() && fields[k] == g;
                if k < init.len() {
                    assert(init[k] == g);
                }
            }
            if init.contains(g) {
                let k = choose|k: int| 0 <= k < init.len() && init[k] == g;
                assert(fields[k] == g);
            }
            if !cruby::is_special_const(encoding::field_word(bytes, last as int)) {
                assert(heap == hinit.push(last));
                assert(heap[hinit.len() as int] == last);
                if hinit.contains(g) {
                    let k = choose|k: int| 0 <= k < hinit.len() && hinit[k] == g;
                    assert(heap[k] == g);
                }
                if heap.contains(g) && g != last {
                    let k = choose|k: int| 0 <= k < heap.len() && heap[k] == g;
                    assert(hinit[k] == g);
                }
            }
        }
    } else {
        assert(fields::heap_fields(bytes, fields) =~= Seq::empty());
    }
}

/// The object fields of a descriptor lie within it.
proof fn lemma_object_fields(bytes: Seq<u8>, pos: int)
    requires
        bytes.len() <= usize::MAX,
        encoding::parse_desc(bytes, pos) is Some,
    ensures
        encoding::parse_desc(bytes, pos) matches Some((d, end)) && {
            &&& encoding::parse_header(bytes, pos) matches Some((header, p1)) && {
                &&& d.header == header
                &&& pos < p1 <= end
                &&& fields::spaced(fields::header_fields(header), pos, p1)
                &&& fields::spaced(fields::value_fields(d), p1, end)
                &&& fields::spaced(fields::heap_fields(bytes, fields::value_fields(d)), p1, end)
            }
            &&& fields::spaced(fields::object_fields(bytes, d), pos, end)
        },
{
    fields::lemma_desc_span(bytes, pos);
    fields::lemma_header_span(bytes, pos);
    fields::lemma_value_span(bytes, pos);
    let (d, end) = encoding::parse_desc(bytes, pos).unwrap();
    let (header, p1) = encoding::parse_header(bytes, pos).unwrap();
    lemma_heap_fields(bytes, fields::value_fields(d), p1, end);
    fields::lemma_spaced_concat(
        fields::header_fields(header),
        fields::heap_fields(bytes, fields::value_fields(d)),
        pos,
        p1,
        end,
    );
}

/// The object fields of some descriptors lie among them, in order and without overlap.
pub proof fn lemma_objects_fields(bytes: Seq<u8>, pos: int, end: int)
    requires
        bytes.len() <= usize::MAX,
        0 <= pos,
        end <= bytes.len(),
        encoding::parse_descs(bytes, pos, end) is Some,
    ensures
        encoding::parse_descs(bytes, pos, end) matches Some(ds) && fields::spaced(
            fields::objects_fields(bytes, ds),
            pos,
            end,
        ),
    decreases end - pos,
{
    if pos < end {
        lemma_object_fields(bytes, pos);
        let ds = encoding::parse_descs(bytes, pos, end).unwrap();
        let (d, p1) = encoding::parse_desc(bytes, pos).unwrap();
        let rest = encoding::parse_descs(bytes, p1, end).unwrap();
        assert(ds.skip(1) =~= rest);
        lemma_objects_fields(bytes, p1, end);
        fields::lemma_spaced_concat(
            fields::object_fields(bytes, d),
            fields::objects_fields(bytes, rest),
            pos,
            p1,
            end,
        );
    }
}

/// A byte that an object field covers is covered by a GC field.
proof fn lemma_heap_covered(bytes: Seq<u8>, fields: Seq<usize>, lo: int, hi: int, i: int)
    requires
        fields::spaced(fields, lo, hi),
        fields::covered(fields::heap_fields(bytes, fields), i),
    ensures
        fields::covered(fields, i),
{
    lemma_heap_fields(bytes, fields, lo, hi);
    let heap = fields::heap_fields(bytes, fields);
    let k = choose|k: int| 0 <= k < heap.len() && (#[trigger] heap[k]) <= i < heap[k] + 8;
    assert(heap.contains(heap[k]));
    let j = choose|j: int| 0 <= j < fields.len() && fields[j] == heap[k];
    assert(fields[j] <= i < fields[j] + 8);
}

/// A byte is covered by two lists together when one of them covers it.
pub proof fn lemma_covered_either(a: Seq<usize>, b: Seq<usize>, i: int)
    ensures
        fields::covered(a + b, i) <==> fields::covered(a, i) || fields::covered(b, i),
{
    let c = a + b;
    if fields::covered(c, i) {
        let k = choose|k: int| 0 <= k < c.len() && (#[trigger] c[k]) <= i < c[k] + 8;
        if k < a.len() {
            assert(a[k] == c[k]);
        } else {
            assert(b[k - a.len()] == c[k]);
        }
    }
    if fields::covered(a, i) {
        let k = choose|k: int| 0 <= k < a.len() && (#[trigger] a[k]) <= i < a[k] + 8;
        assert(c[k] == a[k]);
    }
    if fields::covered(b, i) {
        let k = choose|k: int| 0 <= k < b.len() && (#[trigger] b[k]) <= i < b[k] + 8;
        assert(c[k + a.len()] == b[k]);
    }
}

/// A byte that an object field covers is covered by a GC field.
pub proof fn lemma_objects_covered(bytes: Seq<u8>, pos: int, end: int, i: int)
    requires
        bytes.len() <= usize::MAX,
        0 <= pos,
        end <= bytes.len(),
        encoding::parse_descs(bytes, pos, end) matches Some(ds) && fields::covered(
            fields::objects_fields(bytes, ds),
            i,
        ),
    ensures
        encoding::parse_descs(bytes, pos, end) matches Some(ds) && fields::covered(
            fields::descs_fields(ds),
            i,
        ),
    decreases end - pos,
{
    let ds = encoding::parse_descs(bytes, pos, end).unwrap();
    if pos < end {
        lemma_object_fields(bytes, pos);
        let (d, p1) = encoding::parse_desc(bytes, pos).unwrap();
        let (header, ph) = encoding::parse_header(bytes, pos).unwrap();
        let rest = encoding::parse_descs(bytes, p1, end).unwrap();
        assert(ds.skip(1) =~= rest);
        let values = fields::value_fields(d);
        let heap = fields::heap_fields(bytes, values);
        lemma_covered_either(
            fields::object_fields(bytes, d),
            fields::objects_fields(bytes, rest),
            i,
        );
        lemma_covered_either(fields::header_fields(header), heap, i);
        lemma_covered_either(fields::header_fields(header), values, i);
        lemma_covered_either(fields::desc_fields(d), fields::descs_fields(rest), i);
        if fields::covered(fields::objects_fields(bytes, rest), i) {
            lemma_objects_covered(bytes, p1, end, i);
        } else if fields::covered(heap, i) {
            lemma_heap_covered(bytes, values, ph, p1, i);
        }
    }
}

// ---------------------------------------------------------------------------
// What compaction does to what descriptors say
// ---------------------------------------------------------------------------
/// Where compaction leaves the VALUE `word`: only heap objects move.
pub open spec fn moved_value(word: u64, to: spec_fn(u64) -> u64) -> u64 {
    if cruby::is_special_const(word) {
        word
    } else {
        to(word)
    }
}

pub open spec fn moved_loc(m: LocModel, to: spec_fn(u64) -> u64) -> LocModel {
    match m {
        LocModel::Value(word) => LocModel::Value(moved_value(word, to)),
        _ => m,
    }
}

pub open spec fn moved_locs(ms: Seq<LocModel>, to: spec_fn(u64) -> u64) -> Seq<LocModel> {
    Seq::new(ms.len(), |i: int| moved_loc(ms[i], to))
}

pub open spec fn moved_captures(ms: Seq<(LocModel, i32)>, to: spec_fn(u64) -> u64) -> Seq<
    (LocModel, i32),
> {
    Seq::new(ms.len(), |i: int| (moved_loc(ms[i].0, to), ms[i].1))
}

/// What a descriptor says once the objects that it mentions have moved.
pub open spec fn moved_desc(m: DescModel, to: spec_fn(u64) -> u64) -> DescModel {
    DescModel {
        iseq: to(m.iseq),
        recompile: to(m.recompile),
        stack: moved_locs(m.stack, to),
        locals: moved_locs(m.locals, to),
        stack_map: match m.stack_map {
            Some(map) => Some(
                StackMapModel { captures: moved_captures(map.captures, to), ..map },
            ),
            None => None,
        },
        ..m
    }
}

pub open spec fn moved_descs(ms: Seq<DescModel>, to: spec_fn(u64) -> u64) -> Seq<DescModel> {
    Seq::new(ms.len(), |i: int| moved_desc(ms[i], to))
}

/// `after` holds, in each of `fields`, where the object in that field of `before` went.
pub open spec fn words_moved(
    before: Seq<u8>,
    after: Seq<u8>,
    fields: Seq<usize>,
    to: spec_fn(u64) -> u64,
) -> bool {
    forall|k: int|
        0 <= k < fields.len() ==> encoding::field_word(after, #[trigger] fields[k] as int) == to(
            encoding::field_word(before, fields[k] as int),
        )
}

/// What happens to the word of any VALUE field.
proof fn lemma_value_moved(
    before: Seq<u8>,
    after: Seq<u8>,
    values: Seq<usize>,
    lo: int,
    hi: int,
    k: int,
    to: spec_fn(u64) -> u64,
)
    requires
        0 <= lo,
        fields::spaced(values, lo, hi),
        fields::agree(before, after, lo, hi, fields::heap_fields(before, values)),
        words_moved(before, after, fields::heap_fields(before, values), to),
        0 <= k < values.len(),
    ensures
        encoding::field_word(after, values[k] as int) == moved_value(
            encoding::field_word(before, values[k] as int),
            to,
        ),
{
    lemma_heap_fields(before, values, lo, hi);
    let heap = fields::heap_fields(before, values);
    let g = values[k];
    assert(values.contains(g));
    if cruby::is_special_const(encoding::field_word(before, g as int)) {
        assert(!heap.contains(g));
        assert forall|i: int| g <= i < g + 8 implies before[i] == #[trigger] after[i] by {
            if fields::covered(heap, i) {
                let j = choose|j: int|
                    0 <= j < heap.len() && (#[trigger] heap[j]) <= i < heap[j] + 8;
                assert(heap.contains(heap[j]));
                assert(values.contains(heap[j]));
                let m = choose|m: int| 0 <= m < values.len() && values[m] == heap[j];
                if m < k {
                    assert(values[m] + 8 <= values[k]);
                } else if k < m {
                    assert(values[k] + 8 <= values[m]);
                }
            }
        }
        lemma_same_word(before, after, g as int);
    } else {
        assert(heap.contains(g));
        let j = choose|j: int| 0 <= j < heap.len() && heap[j] == g;
        assert(encoding::field_word(after, heap[j] as int) == to(
            encoding::field_word(before, heap[j] as int),
        ));
    }
}

/// Each location's VALUE field is among the fields of its locations.
pub proof fn lemma_loc_field_listed(locs: Seq<DecodedLoc>, i: int)
    requires
        0 <= i < locs.len(),
    ensures
        locs[i] matches DecodedLoc::Value(g) ==> fields::locs_fields(locs).contains(g),
    decreases locs.len(),
{
    let init = locs.drop_last();
    let a = fields::locs_fields(init);
    let b = fields::loc_fields(locs.last());
    if let DecodedLoc::Value(g) = locs[i] {
        if i < init.len() {
            lemma_loc_field_listed(init, i);
            assert(init[i] == locs[i]);
            let k = choose|k: int| 0 <= k < a.len() && a[k] == g;
            assert((a + b)[k] == g);
        } else {
            assert((a + b)[a.len() as int] == g);
        }
    }
}

/// Each capture's VALUE field is among the fields of its captures.
pub proof fn lemma_capture_field_listed(captures: Seq<(DecodedLoc, i64)>, i: int)
    requires
        0 <= i < captures.len(),
    ensures
        captures[i].0 matches DecodedLoc::Value(g) ==> fields::captures_fields(captures).contains(
            g,
        ),
    decreases captures.len(),
{
    let init = captures.drop_last();
    let a = fields::captures_fields(init);
    let b = fields::loc_fields(captures.last().0);
    if let DecodedLoc::Value(g) = captures[i].0 {
        if i < init.len() {
            lemma_capture_field_listed(init, i);
            assert(init[i] == captures[i]);
            let k = choose|k: int| 0 <= k < a.len() && a[k] == g;
            assert((a + b)[k] == g);
        } else {
            assert((a + b)[a.len() as int] == g);
        }
    }
}

proof fn lemma_desc_moved(before: Seq<u8>, after: Seq<u8>, pos: int, to: spec_fn(u64) -> u64)
    requires
        to(0) == 0,
        encoding::parse_desc(before, pos) matches Some((d, end)) && {
            &&& fields::agree(before, after, pos, end, fields::object_fields(before, d))
            &&& words_moved(before, after, fields::object_fields(before, d), to)
        },
    ensures
        encoding::parse_desc(before, pos) matches Some((d, end)) && encoding::decoded_model(
            after,
            d,
        ) == moved_desc(encoding::decoded_model(before, d), to),
{
    lemma_object_fields(before, pos);
    fields::lemma_header_span(before, pos);
    fields::lemma_value_span(before, pos);
    reveal(encoding::parse_rest);
    let (d, end) = encoding::parse_desc(before, pos).unwrap();
    let (header, p1) = encoding::parse_header(before, pos).unwrap();
    let hf = fields::header_fields(header);
    let values = fields::value_fields(d);
    let heap = fields::heap_fields(before, values);
    let of = fields::object_fields(before, d);
    fields::lemma_agree_split(before, after, pos, p1, end, hf, heap);
    assert(of[0] == header.iseq);
    if encoding::has_flag(header.flags, encoding::FLAG_RECOMPILE) {
        assert(of[1] == header.recompile.unwrap());
    }
    assert forall|k: int| 0 <= k < heap.len() implies encoding::field_word(
        after,
        #[trigger] heap[k] as int,
    ) == to(encoding::field_word(before, heap[k] as int)) by {
        assert(of[hf.len() + k] == heap[k]);
    }
    assert forall|loc: DecodedLoc|
        fields::resolved(loc) && (loc matches DecodedLoc::Value(g) ==> values.contains(g)) implies (
    #[trigger] encoding::decoded_loc_model(after, loc)) == moved_loc(
        encoding::decoded_loc_model(before, loc),
        to,
    ) by {
        if let DecodedLoc::Value(g) = loc {
            let k = choose|k: int| 0 <= k < values.len() && values[k] == g;
            lemma_value_moved(before, after, values, p1, end, k, to);
        }
    }
    let a = fields::locs_fields(d.locs);
    let b = fields::stack_map_fields(d.stack_map);
    assert forall|i: int| 0 <= i < d.locs.len() implies (#[trigger] d.locs[i] matches
        DecodedLoc::Value(g) ==> values.contains(g)) by {
        lemma_loc_field_listed(d.locs, i);
        if let DecodedLoc::Value(g) = d.locs[i] {
            let k = choose|k: int| 0 <= k < a.len() && a[k] == g;
            assert(values[k] == g);
        }
    }
    let m1 = encoding::decoded_model(before, d);
    let m2 = encoding::decoded_model(after, d);
    let n = header.num_stack as int;
    fields::lemma_locs_span(before, p1, (header.num_stack + header.num_locals) as nat);
    assert forall|i: int| 0 <= i < n implies m2.stack[i] == moved_loc(m1.stack[i], to) by {
        assert(d.locs.take(n)[i] == d.locs[i]);
    }
    assert(m2.stack =~= moved_locs(m1.stack, to));
    assert forall|i: int| 0 <= i < header.num_locals implies m2.locals[i] == moved_loc(
        m1.locals[i],
        to,
    ) by {
        assert(d.locs.skip(n)[i] == d.locs[n + i]);
    }
    assert(m2.locals =~= moved_locs(m1.locals, to));
    if let Some(map) = d.stack_map {
        assert forall|i: int| 0 <= i < map.captures.len() implies (
        #[trigger] map.captures[i].0 matches DecodedLoc::Value(g) ==> values.contains(g)) by {
            lemma_capture_field_listed(map.captures, i);
            if let DecodedLoc::Value(g) = map.captures[i].0 {
                let k = choose|k: int| 0 <= k < b.len() && b[k] == g;
                assert(values[a.len() + k] == g);
            }
        }
        assert(encoding::decoded_captures_model(after, map.captures) =~= moved_captures(
            encoding::decoded_captures_model(before, map.captures),
            to,
        ));
    }
    assert(m2 == moved_desc(m1, to));
}

/// Rewriting the object fields of some descriptors with where the objects went makes the
/// descriptors say what they said of the moved objects, and nothing else changes.
pub proof fn law_update_moves_objects(
    before: Seq<u8>,
    after: Seq<u8>,
    pos: int,
    end: int,
    to: spec_fn(u64) -> u64,
)
    requires
        0 <= pos,
        to(0) == 0,
        encoding::parse_descs(before, pos, end) matches Some(ds) && {
            &&& fields::agree(before, after, pos, end, fields::objects_fields(before, ds))
            &&& words_moved(before, after, fields::objects_fields(before, ds), to)
        },
    ensures
        encoding::parse_descs(before, pos, end) matches Some(ds) && {
            &&& encoding::parse_descs(after, pos, end) == Some(ds)
            &&& encoding::decoded_models(after, ds) == moved_descs(
                encoding::decoded_models(before, ds),
                to,
            )
        },
    decreases end - pos,
{
    let ds = encoding::parse_descs(before, pos, end).unwrap();
    lemma_objects_fields(before, pos, end);
    assert forall|i: int| pos <= i < end && !fields::covered(fields::descs_fields(ds), i) implies
        before[i] == #[trigger] after[i] by {
        if fields::covered(fields::objects_fields(before, ds), i) {
            lemma_objects_covered(before, pos, end, i);
        }
    }
    fields::law_layout_ignores_fields(before, after, pos, end);
    if pos < end {
        lemma_object_fields(before, pos);
        let (d, p1) = encoding::parse_desc(before, pos).unwrap();
        let rest = encoding::parse_descs(before, p1, end).unwrap();
        assert(ds.skip(1) =~= rest);
        lemma_objects_fields(before, p1, end);
        let a = fields::object_fields(before, d);
        let b = fields::objects_fields(before, rest);
        let all = fields::objects_fields(before, ds);
        fields::lemma_agree_split(before, after, pos, p1, end, a, b);
        assert forall|k: int| 0 <= k < a.len() implies encoding::field_word(
            after,
            #[trigger] a[k] as int,
        ) == to(encoding::field_word(before, a[k] as int)) by {
            assert(all[k] == a[k]);
        }
        assert forall|k: int| 0 <= k < b.len() implies encoding::field_word(
            after,
            #[trigger] b[k] as int,
        ) == to(encoding::field_word(before, b[k] as int)) by {
            assert(all[a.len() + k] == b[k]);
        }
        lemma_desc_moved(before, after, pos, to);
        law_update_moves_objects(before, after, p1, end, to);
        let m1 = encoding::decoded_models(before, ds);
        let m2 = encoding::decoded_models(after, ds);
        assert forall|i: int| 0 <= i < ds.len() implies m2[i] == moved_desc(m1[i], to) by {
            if i == 0 {
                assert(ds[0] == d);
            } else {
                assert(ds[i] == rest[i - 1]);
                assert(encoding::decoded_models(after, rest)[i - 1] == moved_descs(
                    encoding::decoded_models(before, rest),
                    to,
                )[i - 1]);
            }
        }
        assert(m2 =~= moved_descs(m1, to));
    } else {
        assert(encoding::decoded_models(after, ds) =~= moved_descs(
            encoding::decoded_models(before, ds),
            to,
        ));
    }
}

} // verus!
