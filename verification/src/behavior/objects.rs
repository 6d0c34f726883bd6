//! Which objects a registered descriptor keeps alive, and what it decodes to.

use vstd::prelude::*;

use crate::cruby::{IseqPtr, VALUE};
use crate::exit_desc::decode;
use crate::exit_desc::descriptor::ExitDescriptor;
use crate::exit_desc::encoding;
use crate::exit_desc::encoding::{DecodedDesc, DecodedLoc, ExitLoc};
use crate::exit_desc::fields;
use crate::exit_desc::gc;
use crate::exit_desc::marking;
use crate::exit_desc::table;
use crate::exit_desc::table::ExitDescriptorTable;
use crate::stats::Counters;
use super::exits;

verus! {

/// Whether `loc` is a reference to the heap object `word`.
pub open spec fn refers(loc: ExitLoc, imms: Seq<u64>, word: u64) -> bool {
    loc matches ExitLoc::Value(idx) && imms[idx as int] == word && word % 8 == 0 && word != 0
}

/// Whether a descriptor mentions the object `word`: as the ISEQ of its frame or the one to
/// recompile, or in one of its locations or captures.
pub open spec fn mentioned(desc: ExitDescriptor, word: u64) -> bool {
    ||| word == desc.iseq
    ||| word == desc.recompile
    ||| exists|i: int| 0 <= i < desc.locs@.len()
        && refers(#[trigger] desc.locs@[i], desc.imms@, word)
    ||| exits::stack_map_of(desc) matches Some(map) && exists|i: int|
        0 <= i < map.captures@.len() && refers((#[trigger] map.captures@[i]).0, desc.imms@, word)
}

/// The fields of some locations hold what the locations say.
proof fn lemma_locs_fields(locs: Seq<DecodedLoc>, k: int)
    requires
        0 <= k < fields::locs_fields(locs).len(),
    ensures
        exists|i: int|
            0 <= i < locs.len() && #[trigger] locs[i] == DecodedLoc::Value(
                fields::locs_fields(locs)[k],
            ),
    decreases locs.len(),
{
    let init = locs.drop_last();
    let before = fields::locs_fields(init);
    if k < before.len() {
        lemma_locs_fields(init, k);
        let i = choose|i: int|
            0 <= i < init.len() && #[trigger] init[i] == DecodedLoc::Value(before[k]);
        assert(locs[i] == init[i]);
    } else {
        assert(locs[locs.len() - 1] == locs.last());
    }
}

proof fn lemma_captures_fields(captures: Seq<(DecodedLoc, i64)>, k: int)
    requires
        0 <= k < fields::captures_fields(captures).len(),
    ensures
        exists|i: int|
            0 <= i < captures.len() && (#[trigger] captures[i]).0 == DecodedLoc::Value(
                fields::captures_fields(captures)[k],
            ),
    decreases captures.len(),
{
    let init = captures.drop_last();
    let before = fields::captures_fields(init);
    if k < before.len() {
        lemma_captures_fields(init, k);
        let i = choose|i: int|
            0 <= i < init.len() && (#[trigger] init[i]).0 == DecodedLoc::Value(before[k]);
        assert(captures[i] == init[i]);
    } else {
        assert(captures[captures.len() - 1] == captures.last());
    }
}

/// The fields of heap objects are among the fields, and hold heap objects.
proof fn lemma_heap_fields(bytes: Seq<u8>, all: Seq<usize>, k: int)
    requires
        0 <= k < fields::heap_fields(bytes, all).len(),
    ensures
        ({
            let field = fields::heap_fields(bytes, all)[k];
            &&& all.contains(field)
            &&& !crate::cruby::is_special_const(encoding::field_word(bytes, field as int))
        }),
    decreases all.len(),
{
    let init = all.drop_last();
    let before = fields::heap_fields(bytes, init);
    if k < before.len() {
        lemma_heap_fields(bytes, init, k);
        let j = choose|j: int| 0 <= j < init.len() && init[j] == before[k];
        assert(all[j] == before[k]);
    } else {
        assert(all[all.len() - 1] == all.last());
    }
}

/// What is in a field of a descriptor is mentioned by it.
proof fn lemma_field_is_mentioned(bytes: Seq<u8>, pos: int, k: int)
    requires
        bytes.len() <= usize::MAX,
        encoding::parse_desc(bytes, pos) matches Some((d, _)) && 0 <= k < fields::object_fields(
            bytes,
            d,
        ).len(),
    ensures
        encoding::parse_desc(bytes, pos) matches Some((d, _)) && ({
            let word = encoding::field_word(bytes, fields::object_fields(bytes, d)[k] as int);
            word != 0 ==> marking::mentions(encoding::decoded_model(bytes, d), word)
        }),
{
    let (d, _) = encoding::parse_desc(bytes, pos).unwrap();
    let m = encoding::decoded_model(bytes, d);
    let all = fields::object_fields(bytes, d);
    let header = fields::header_fields(d.header);
    let word = encoding::field_word(bytes, all[k] as int);
    let n = d.header.num_stack as int;
    fields::lemma_value_span(bytes, pos);
    if k >= header.len() && word != 0 {
        let j = k - header.len();
        let values = fields::value_fields(d);
        lemma_heap_fields(bytes, values, j);
        let field = all[k];
        let v = choose|v: int| 0 <= v < values.len() && values[v] == field;
        let a = fields::locs_fields(d.locs);
        if v < a.len() {
            lemma_locs_fields(d.locs, v);
            let i = choose|i: int|
                0 <= i < d.locs.len() && #[trigger] d.locs[i] == DecodedLoc::Value(a[v]);
            if i < n {
                assert(d.locs.take(n)[i] == d.locs[i]);
                assert(marking::holds(m.stack[i], word));
            } else {
                assert(d.locs.skip(n)[i - n] == d.locs[i]);
                assert(marking::holds(m.locals[i - n], word));
            }
        } else {
            let map = d.stack_map.unwrap();
            let b = fields::captures_fields(map.captures);
            lemma_captures_fields(map.captures, v - a.len());
            let i = choose|i: int|
                0 <= i < map.captures.len() && (#[trigger] map.captures[i]).0 == DecodedLoc::Value(
                    b[v - a.len()],
                );
            assert(marking::holds(m.stack_map.unwrap().captures[i].0, word));
        }
    }
}

/// A descriptor mentions what it mentions, however that is put.
proof fn lemma_mentions(desc: ExitDescriptor, word: u64)
    requires
        desc.wf(),
        word != 0,
    ensures
        marking::mentions(desc.model(), word) <==> mentioned(desc, word),
{
    let m = desc.model();
    let n = desc.num_stack as int;
    if exists|i: int| 0 <= i < m.stack.len() && marking::holds(#[trigger] m.stack[i], word) {
        let i = choose|i: int|
            0 <= i < m.stack.len() && marking::holds(#[trigger] m.stack[i], word);
        assert(desc.locs@.take(n)[i] == desc.locs@[i]);
        assert(refers(desc.locs@[i], desc.imms@, word));
    }
    if exists|i: int| 0 <= i < m.locals.len() && marking::holds(#[trigger] m.locals[i], word) {
        let i = choose|i: int|
            0 <= i < m.locals.len() && marking::holds(#[trigger] m.locals[i], word);
        assert(desc.locs@.skip(n)[i] == desc.locs@[n + i]);
        assert(refers(desc.locs@[n + i], desc.imms@, word));
    }
    if exists|i: int| 0 <= i < desc.locs@.len()
        && refers(#[trigger] desc.locs@[i], desc.imms@, word) {
        let i = choose|i: int|
            0 <= i < desc.locs@.len() && refers(#[trigger] desc.locs@[i], desc.imms@, word);
        if i < n {
            assert(desc.locs@.take(n)[i] == desc.locs@[i]);
            assert(marking::holds(m.stack[i], word));
        } else {
            assert(desc.locs@.skip(n)[i - n] == desc.locs@[i]);
            assert(marking::holds(m.locals[i - n], word));
        }
    }
    if let Some(map) = exits::stack_map_of(desc) {
        let caps = m.stack_map.unwrap().captures;
        if exists|i: int| 0 <= i < caps.len() && marking::holds((#[trigger] caps[i]).0, word) {
            let i = choose|i: int|
                0 <= i < caps.len() && marking::holds((#[trigger] caps[i]).0, word);
            assert(refers(map.captures@[i].0, desc.imms@, word));
        }
        if exists|i: int|
            0 <= i < map.captures@.len() && refers(
                (#[trigger] map.captures@[i]).0,
                desc.imms@,
                word,
            ) {
            let i = choose|i: int|
                0 <= i < map.captures@.len() && refers(
                    (#[trigger] map.captures@[i]).0,
                    desc.imms@,
                    word,
                );
            assert(marking::holds(caps[i].0, word));
        }
    }
}

/// The objects that a registered descriptor refers to.
proof fn lemma_objects(bytes: Seq<u8>, desc: ExitDescriptor, after: Seq<u8>, word: u64)
    requires
        desc.wf(),
        encoding::desc_encodable(desc.model()),
        encoding::parse_descs(bytes, 0, bytes.len() as int) is Some,
        after == bytes + encoding::enc_desc(desc.model()),
        after.len() <= usize::MAX,
        word != 0,
    ensures
        gc::objects_in(after, bytes.len() as int, after.len() as int).contains(VALUE(word))
            <==> mentioned(desc, word),
        encoding::parse_descs(after, bytes.len() as int, after.len() as int) matches Some(ds)
            && ds.len() == 1 && encoding::decoded_model(after, ds[0]) == desc.model(),
        gc::objects_in(after, bytes.len() as int, after.len() as int).len() > 0,
        gc::objects_in(after, bytes.len() as int, after.len() as int)[0] == VALUE(desc.iseq),
{
    let m = desc.model();
    let pos = bytes.len() as int;
    let end = after.len() as int;
    table::law_append_descriptor(bytes, pos, m);
    let ds = encoding::parse_descs(after, pos, end).unwrap();
    let (d, _) = encoding::parse_desc(after, pos).unwrap();
    assert(encoding::parse_descs(bytes, pos, pos) == Some(Seq::<DecodedDesc>::empty()));
    assert(ds =~= seq![d]);
    let found = fields::objects_fields(after, ds);
    assert(ds.skip(1) =~= Seq::empty());
    assert(fields::objects_fields(after, ds.skip(1)) =~= Seq::empty());
    assert(found =~= fields::object_fields(after, d));
    let objects = gc::objects_in(after, pos, end);
    if objects.contains(VALUE(word)) {
        let k = choose|k: int| 0 <= k < objects.len() && objects[k] == VALUE(word);
        lemma_field_is_mentioned(after, pos, k);
    }
    lemma_mentions(desc, word);
    if mentioned(desc, word) {
        assert(marking::mentions(encoding::decoded_models(after, ds)[0], word));
        marking::law_every_object_is_marked(after, pos, end, 0, word);
        let marked = gc::not_null(objects);
        objects.lemma_filter_contains_rev(|object: VALUE| object != VALUE(0), VALUE(word));
    }
    assert(objects[0] == VALUE(encoding::field_word(after, d.header.iseq as int)));
}

/// A registered descriptor keeps alive just the objects that it mentions, and those that are
/// written down for its ISEQ are the same.
pub proof fn law_objects_of_an_exit(
    desc: &ExitDescriptor,
    bytes: Vec<u8>,
    encoded: &[u8],
    t: &mut ExitDescriptorTable,
    off: u32,
    counters: &mut Counters,
    after: &ExitDescriptorTable,
    range: &std::ops::Range<u32>,
    iseq: IseqPtr,
    marked: Vec<VALUE>,
    barriers: Vec<(VALUE, VALUE)>,
    word: u64,
)
    requires
        desc.wf(),
        call_ensures(ExitDescriptor::encode, (desc,), bytes),
        encoded@ == bytes@,
        t.wf(),
        t.bytes@.len() <= u32::MAX,
        call_ensures(ExitDescriptorTable::register, (t, off, encoded, counters), ()),
        *after == *final(t),
        range.start == t.bytes@.len(),
        range.end == after.bytes@.len(),
        call_ensures(gc::mark, (after, range), marked),
        call_ensures(gc::write_barrier, (after, iseq, range), barriers),
        word != 0,
    ensures
        marked@.contains(VALUE(word)) <==> mentioned(*desc, word),
        !marked@.contains(VALUE(0)),
        barriers@.contains((VALUE(iseq), VALUE(word))) <==> mentioned(*desc, word),
        forall|i: int| 0 <= i < barriers@.len() ==> (#[trigger] barriers@[i]).0 == VALUE(iseq),
        barriers@.len() > 0 && barriers@[0].1 == VALUE(desc.iseq),
{
    let start = t.bytes@.len() as int;
    let end = after.bytes@.len() as int;
    lemma_objects(t.bytes@, *desc, after.bytes@, word);
    let objects = gc::objects_in(after.bytes@, start, end);
    let not_zero = |object: VALUE| object != VALUE(0);
    if marked@.contains(VALUE(word)) {
        objects.lemma_filter_contains_rev(not_zero, VALUE(word));
    }
    if objects.contains(VALUE(word)) {
        let k = choose|k: int| 0 <= k < objects.len() && objects[k] == VALUE(word);
        objects.lemma_filter_contains(not_zero, k);
        assert(barriers@[k] == (VALUE(iseq), VALUE(word)));
    }
    if marked@.contains(VALUE(0)) {
        objects.lemma_filter_pred(
            not_zero,
            choose|k: int| 0 <= k < marked@.len() && marked@[k] == VALUE(0),
        );
    }
    if barriers@.contains((VALUE(iseq), VALUE(word))) {
        let k = choose|k: int|
            0 <= k < barriers@.len() && barriers@[k] == (VALUE(iseq), VALUE(word));
        assert(objects[k] == VALUE(word));
    }
}

/// Whether two locations say the same, each with its immediate looked up.
pub open spec fn same_loc(a: ExitLoc, a_imms: Seq<u64>, b: ExitLoc, b_imms: Seq<u64>) -> bool {
    match (a, b) {
        (ExitLoc::Imm(i), ExitLoc::Imm(j)) => a_imms[i as int] == b_imms[j as int],
        (ExitLoc::Value(i), ExitLoc::Value(j)) => a_imms[i as int] == b_imms[j as int],
        (ExitLoc::Imm(_), _) | (_, ExitLoc::Imm(_)) => false,
        (ExitLoc::Value(_), _) | (_, ExitLoc::Value(_)) => false,
        _ => a == b,
    }
}

/// A registered descriptor decodes to one that says the same.
pub proof fn law_registered_descriptor_decodes(
    desc: &ExitDescriptor,
    bytes: Vec<u8>,
    encoded: &[u8],
    t: &mut ExitDescriptorTable,
    off: u32,
    counters: &mut Counters,
    after: &ExitDescriptorTable,
    ranges: &Vec<std::ops::Range<u32>>,
    decoded: Vec<ExitDescriptor>,
)
    requires
        desc.wf(),
        call_ensures(ExitDescriptor::encode, (desc,), bytes),
        encoded@ == bytes@,
        t.wf(),
        t.bytes@.len() <= u32::MAX,
        call_ensures(ExitDescriptorTable::register, (t, off, encoded, counters), ()),
        *after == *final(t),
        ranges@.len() == 1,
        ranges@[0].start == t.bytes@.len(),
        ranges@[0].end == after.bytes@.len(),
        call_ensures(decode::descriptors_of, (after, ranges), decoded),
    ensures
        decoded@.len() == 1,
        ({
            let got = decoded@[0];
            &&& got.pc == desc.pc
            &&& got.iseq == desc.iseq
            &&& got.recompile == desc.recompile
            &&& got.num_stack == desc.num_stack
            &&& got.locs@.len() == desc.locs@.len()
            &&& forall|i: int|
                0 <= i < desc.locs@.len() ==> same_loc(
                    #[trigger] got.locs@[i],
                    got.imms@,
                    desc.locs@[i],
                    desc.imms@,
                )
            &&& exits::stack_map_of(got) is Some <==> exits::stack_map_of(*desc) is Some
            &&& exits::stack_map_of(*desc) matches Some(want) ==> {
                let map = exits::stack_map_of(got).unwrap();
                &&& map.jit_frame == want.jit_frame
                &&& map.jit_frame_slot == want.jit_frame_slot
                &&& map.captures@.len() == want.captures@.len()
                &&& forall|i: int|
                    0 <= i < want.captures@.len() ==> (#[trigger] map.captures@[i]).1
                        == want.captures@[i].1 && same_loc(
                        map.captures@[i].0,
                        got.imms@,
                        want.captures@[i].0,
                        desc.imms@,
                    )
            }
            &&& got.spec_trace_reason() == match desc.extra {
                Some(extra) => extra.trace_reason,
                None => None,
            }
        }),
{
    let start = t.bytes@.len() as int;
    let end = after.bytes@.len() as int;
    lemma_objects(t.bytes@, *desc, after.bytes@, 1);
    let ds = encoding::parse_descs(after.bytes@, start, end).unwrap();
    let m = desc.model();
    assert(ranges@.drop_last() =~= Seq::empty());
    assert(decode::models_in(after.bytes@, ranges@.drop_last()) =~= Seq::empty());
    assert(decode::models_in(after.bytes@, ranges@) =~= encoding::decoded_models(after.bytes@, ds));
    let models = decode::models_of(decoded@);
    assert(models.len() == 1);
    let got = decoded@[0];
    assert(models[0] == got.model());
    assert(models[0] == m);
    let n = desc.num_stack as int;
    assert(decode::imms_in_range(got));
    assert(got.model().stack.len() == m.stack.len());
    assert(got.model().locals.len() == m.locals.len());
    assert forall|i: int| 0 <= i < desc.locs@.len() implies same_loc(
        #[trigger] got.locs@[i],
        got.imms@,
        desc.locs@[i],
        desc.imms@,
    ) by {
        if i < n {
            assert(got.model().stack[i] == m.stack[i]);
            assert(got.locs@.take(n)[i] == got.locs@[i]);
            assert(desc.locs@.take(n)[i] == desc.locs@[i]);
        } else {
            assert(got.model().locals[i - n] == m.locals[i - n]);
            assert(got.locs@.skip(n)[i - n] == got.locs@[i]);
            assert(desc.locs@.skip(n)[i - n] == desc.locs@[i]);
        }
    }
    if let Some(want) = exits::stack_map_of(*desc) {
        let map = exits::stack_map_of(got).unwrap();
        let a = got.model().stack_map.unwrap().captures;
        let b = m.stack_map.unwrap().captures;
        assert(a.len() == b.len());
        assert forall|i: int| 0 <= i < want.captures@.len() implies (
        #[trigger] map.captures@[i]).1 == want.captures@[i].1 && same_loc(
            map.captures@[i].0,
            got.imms@,
            want.captures@[i].0,
            desc.imms@,
        ) by {
            assert(a[i] == b[i]);
        }
    }
}

/// The fields of some descriptors and of more.
proof fn lemma_objects_fields_add(bytes: Seq<u8>, a: Seq<DecodedDesc>, b: Seq<DecodedDesc>)
    ensures
        fields::objects_fields(bytes, a + b) == fields::objects_fields(bytes, a)
            + fields::objects_fields(bytes, b),
    decreases a.len(),
{
    if a.len() == 0 {
        assert(a + b =~= b);
        assert(fields::objects_fields(bytes, a) + fields::objects_fields(bytes, b)
            =~= fields::objects_fields(bytes, b));
    } else {
        lemma_objects_fields_add(bytes, a.skip(1), b);
        assert((a + b).skip(1) =~= a.skip(1) + b);
        assert((a + b)[0] == a[0]);
        assert(fields::objects_fields(bytes, a + b) =~= fields::objects_fields(bytes, a)
            + fields::objects_fields(bytes, b));
    }
}

/// What is marked for a range of descriptors, and written down for it, is what is for its parts,
/// one after the other.
pub proof fn law_objects_range_by_range(
    t: &ExitDescriptorTable,
    iseq: IseqPtr,
    first: &std::ops::Range<u32>,
    second: &std::ops::Range<u32>,
    both: &std::ops::Range<u32>,
    m1: Vec<VALUE>,
    m2: Vec<VALUE>,
    m: Vec<VALUE>,
    w1: Vec<(VALUE, VALUE)>,
    w2: Vec<(VALUE, VALUE)>,
    w: Vec<(VALUE, VALUE)>,
)
    requires
        t.wf(),
        gc::is_range(t.bytes@, *first),
        gc::is_range(t.bytes@, *second),
        first.end == second.start,
        both.start == first.start,
        both.end == second.end,
        call_ensures(gc::mark, (t, first), m1),
        call_ensures(gc::mark, (t, second), m2),
        call_ensures(gc::mark, (t, both), m),
        call_ensures(gc::write_barrier, (t, iseq, first), w1),
        call_ensures(gc::write_barrier, (t, iseq, second), w2),
        call_ensures(gc::write_barrier, (t, iseq, both), w),
    ensures
        m@ == m1@ + m2@,
        w@ == w1@ + w2@,
{
    let bytes = t.bytes@;
    let s = first.start as int;
    let mid = first.end as int;
    let e = second.end as int;
    fields::lemma_boundaries(bytes, s, mid);
    fields::lemma_boundaries(bytes, mid, e);
    fields::lemma_descs_append(bytes, s, mid, e);
    let a = encoding::parse_descs(bytes, s, mid).unwrap();
    let b = encoding::parse_descs(bytes, mid, e).unwrap();
    lemma_objects_fields_add(bytes, a, b);
    let o1 = gc::objects_in(bytes, s, mid);
    let o2 = gc::objects_in(bytes, mid, e);
    let o = gc::objects_in(bytes, s, e);
    assert(o =~= o1 + o2);
    Seq::filter_distributes_over_add(o1, o2, |object: VALUE| object != VALUE(0));
    assert(w@ =~= w1@ + w2@);
}

/// No descriptors, no objects.
pub proof fn law_no_objects_in_an_empty_range(
    t: &ExitDescriptorTable,
    iseq: IseqPtr,
    range: &std::ops::Range<u32>,
    marked: Vec<VALUE>,
    barriers: Vec<(VALUE, VALUE)>,
)
    requires
        t.wf(),
        gc::is_range(t.bytes@, *range),
        range.start == range.end,
        call_ensures(gc::mark, (t, range), marked),
        call_ensures(gc::write_barrier, (t, iseq, range), barriers),
    ensures
        marked@.len() == 0,
        barriers@.len() == 0,
{
    reveal(Seq::filter);
}

} // verus!
