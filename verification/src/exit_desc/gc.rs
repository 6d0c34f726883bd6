//! What the garbage collector does with the objects that descriptors mention.

use vstd::prelude::*;

use crate::cruby::{IseqPtr, VALUE};
use crate::le;
use super::codec;
use super::encoding;
use super::fields;
use super::relocate;
use super::table::ExitDescriptorTable;

verus! {

/// The words in some fields of `bytes`.
pub open spec fn field_words(bytes: Seq<u8>, fields: Seq<usize>) -> Seq<VALUE> {
    Seq::new(fields.len(), |k: int| VALUE(encoding::field_word(bytes, fields[k] as int)))
}

/// The objects that the descriptors from `start` up to `end` mention, in order.
pub open spec fn objects_in(bytes: Seq<u8>, start: int, end: int) -> Seq<VALUE> {
    field_words(
        bytes,
        fields::objects_fields(bytes, encoding::parse_descs(bytes, start, end).unwrap()),
    )
}

/// Whether `range` is a range of whole descriptors of the table `bytes`.
pub open spec fn is_range(bytes: Seq<u8>, range: std::ops::Range<u32>) -> bool {
    &&& range.start <= range.end
    &&& fields::boundary(bytes, range.start as int)
    &&& fields::boundary(bytes, range.end as int)
}

/// Write barriers owed for the objects that the descriptors of a new version of `iseq`
/// mention: (the ISEQ, the object it now refers to).
pub fn write_barrier(
    table: &ExitDescriptorTable,
    iseq: IseqPtr,
    range: &std::ops::Range<u32>,
) -> (r: Vec<(VALUE, VALUE)>)
    requires
        is_range(table.bytes@, *range),
    ensures
        r@ == objects_in(table.bytes@, range.start as int, range.end as int).map_values(
            |object: VALUE| (VALUE(iseq), object),
        ),
{
    let len: usize = table.bytes.len();
    proof {
        fields::lemma_boundaries(table.bytes@, range.start as int, range.end as int);
        relocate::lemma_objects_fields(table.bytes@, range.start as int, range.end as int);
    }
    let found = table.each_object_field(range);
    let ghost objects = objects_in(table.bytes@, range.start as int, range.end as int);
    let ghost owed = objects.map_values(|object: VALUE| (VALUE(iseq), object));
    let mut barriers: Vec<(VALUE, VALUE)> = Vec::new();
    let mut idx: usize = 0;
    while idx < found.len()
        invariant
            idx <= found@.len(),
            len == table.bytes@.len(),
            range.end <= len,
            fields::spaced(found@, range.start as int, range.end as int),
            objects == field_words(table.bytes@, found@),
            owed == objects.map_values(|object: VALUE| (VALUE(iseq), object)),
            barriers@ == owed.take(idx as int),
        decreases found@.len() - idx,
    {
        let object: u64 = codec::read_field(table.bytes.as_slice(), found[idx]);
        barriers.push((VALUE(iseq), VALUE(object)));
        idx = idx + 1;
        assert(owed.take(idx as int) =~= owed.take(idx - 1).push(owed[idx - 1]));
    }
    assert(owed.take(idx as int) =~= owed);
    barriers
}

/// Those of `objects` that are not null.
pub open spec fn not_null(objects: Seq<VALUE>) -> Seq<VALUE> {
    objects.filter(|object: VALUE| object != VALUE(0))
}

/// Objects to mark for the descriptors of an ISEQ version. They may be moved.
pub fn mark(table: &ExitDescriptorTable, range: &std::ops::Range<u32>) -> (r: Vec<VALUE>)
    requires
        is_range(table.bytes@, *range),
    ensures
        r@ == not_null(objects_in(table.bytes@, range.start as int, range.end as int)),
{
    let len: usize = table.bytes.len();
    proof {
        fields::lemma_boundaries(table.bytes@, range.start as int, range.end as int);
        relocate::lemma_objects_fields(table.bytes@, range.start as int, range.end as int);
        reveal(Seq::filter);
    }
    let found = table.each_object_field(range);
    let ghost objects = objects_in(table.bytes@, range.start as int, range.end as int);
    let mut marked: Vec<VALUE> = Vec::new();
    let mut idx: usize = 0;
    assert(marked@ =~= not_null(objects.take(0)));
    while idx < found.len()
        invariant
            idx <= found@.len(),
            len == table.bytes@.len(),
            range.end <= len,
            fields::spaced(found@, range.start as int, range.end as int),
            objects == field_words(table.bytes@, found@),
            marked@ == not_null(objects.take(idx as int)),
        decreases found@.len() - idx,
    {
        let object: u64 = codec::read_field(table.bytes.as_slice(), found[idx]);
        if object != 0 {
            marked.push(VALUE(object));
        }
        idx = idx + 1;
        proof {
            reveal(Seq::filter);
            assert(objects.take(idx as int).drop_last() =~= objects.take(idx - 1));
            assert(objects.take(idx as int).last() == VALUE(object));
        }
    }
    assert(objects.take(idx as int) =~= objects);
    marked
}

/// Whether `locate` can be asked for an object. It is not asked for null.
pub open spec fn can_locate<F: Fn(VALUE) -> VALUE>(locate: F, object: VALUE) -> bool {
    object != VALUE(0) ==> call_requires(locate, (object,))
}

/// `words` are where `locate` finds the objects in `fields` of `bytes`. Null stays null.
pub open spec fn located<F: Fn(VALUE) -> VALUE>(
    bytes: Seq<u8>,
    fields: Seq<usize>,
    locate: F,
    words: Seq<u64>,
) -> bool {
    &&& words.len() == fields.len()
    &&& forall|k: int|
        0 <= k < fields.len() ==> located_word(
            encoding::field_word(bytes, #[trigger] fields[k] as int),
            locate,
            words[k],
        )
}

/// `after` is where `locate` finds the object `before`.
pub open spec fn located_word<F: Fn(VALUE) -> VALUE>(before: u64, locate: F, after: u64) -> bool {
    if before == 0 {
        after == 0
    } else {
        call_ensures(locate, (VALUE(before),), VALUE(after))
    }
}

/// Writing what is already there changes nothing.
proof fn lemma_patch_same(bytes: Seq<u8>, pos: int)
    requires
        0 <= pos,
        pos + 8 <= bytes.len(),
    ensures
        le::patched(bytes, pos, encoding::field_word(bytes, pos)) == bytes,
{
    let word = bytes.subrange(pos, pos + 8);
    le::lemma_le_value_bound(word);
    le::lemma_byte_range_8();
    le::law_le_value_round_trip(word);
    assert(le::patched(bytes, pos, encoding::field_word(bytes, pos)) =~= bytes);
}

/// Rewriting object fields of some of a table's descriptors keeps the table's layout: every
/// descriptor stays where it is.
pub proof fn law_update_keeps_layout(
    before: Seq<u8>,
    after: Seq<u8>,
    start: int,
    end: int,
    pos: int,
)
    requires
        start <= end,
        before.len() == after.len() <= usize::MAX,
        fields::boundary(before, start),
        fields::boundary(before, end),
        fields::boundary(before, pos),
        encoding::parse_descs(before, start, end) matches Some(ds) && forall|i: int|
            0 <= i < before.len() && !fields::covered(fields::objects_fields(before, ds), i)
                ==> before[i] == #[trigger] after[i],
    ensures
        fields::boundary(after, pos),
        encoding::parse_descs(after, pos, after.len() as int) == encoding::parse_descs(
            before,
            pos,
            before.len() as int,
        ),
{
    let len = before.len() as int;
    let ds = encoding::parse_descs(before, start, end).unwrap();
    let f_0s = fields::descs_fields(encoding::parse_descs(before, 0, start).unwrap());
    let f_se = fields::descs_fields(ds);
    let f_sl = fields::descs_fields(encoding::parse_descs(before, start, len).unwrap());
    let f_el = fields::descs_fields(encoding::parse_descs(before, end, len).unwrap());
    fields::lemma_descs_append(before, start, end, len);
    fields::lemma_descs_append(before, 0, start, len);
    fields::lemma_descs_append(before, 0, pos, len);
    let all = fields::descs_fields(encoding::parse_descs(before, 0, len).unwrap());
    assert(f_sl == f_se + f_el);
    assert(all == f_0s + f_sl);
    assert forall|i: int| 0 <= i < len && !fields::covered(all, i) implies before[i]
        == #[trigger] after[i] by {
        if fields::covered(fields::objects_fields(before, ds), i) {
            relocate::lemma_objects_covered(before, start, end, i);
            relocate::lemma_covered_either(f_se, f_el, i);
            relocate::lemma_covered_either(f_0s, f_sl, i);
        }
    }
    fields::lemma_descs_span(before, 0, pos);
    fields::lemma_descs_span(before, pos, len);
    fields::lemma_agree_split(
        before,
        after,
        0,
        pos,
        len,
        fields::descs_fields(encoding::parse_descs(before, 0, pos).unwrap()),
        fields::descs_fields(encoding::parse_descs(before, pos, len).unwrap()),
    );
    fields::law_layout_ignores_fields(before, after, 0, pos);
    fields::law_layout_ignores_fields(before, after, pos, len);
}

/// Update objects referenced by the descriptors of an ISEQ version after compaction.
/// `locate` says where an object has gone.
///
/// Fields are updated in place, which doesn't change the table's layout.
pub fn update_references<F: Fn(VALUE) -> VALUE>(
    table: &mut ExitDescriptorTable,
    range: &std::ops::Range<u32>,
    locate: F,
)
    requires
        old(table).wf(),
        is_range(old(table).bytes@, *range),
        forall|k: int|
            0 <= k < objects_in(old(table).bytes@, range.start as int, range.end as int).len()
                ==> can_locate(
                locate,
                #[trigger] objects_in(
                    old(table).bytes@,
                    range.start as int,
                    range.end as int,
                )[k],
            ),
    ensures
        final(table).wf(),
        final(table).ret_addrs == old(table).ret_addrs,
        final(table).code_base_addr == old(table).code_base_addr,
        encoding::parse_descs(
            old(table).bytes@,
            range.start as int,
            range.end as int,
        ) matches Some(ds) && {
            let fields = fields::objects_fields(old(table).bytes@, ds);
            exists|words: Seq<u64>| #[trigger]
                located(old(table).bytes@, fields, locate, words) && final(table).bytes@
                    == relocate::patch_fields(old(table).bytes@, fields, words)
        },
{
    let ghost before = table.bytes@;
    let ghost start = range.start as int;
    let ghost end = range.end as int;
    let len: usize = table.bytes.len();
    proof {
        fields::lemma_boundaries(before, start, end);
        relocate::lemma_objects_fields(before, start, end);
    }
    let found = table.each_object_field(range);
    let ghost words: Seq<u64> = Seq::empty();
    let mut idx: usize = 0;
    assert(found@.take(0) =~= Seq::empty());
    assert forall|k: int| 0 <= k < found@.len() implies can_locate(
        locate,
        VALUE(encoding::field_word(before, #[trigger] found@[k] as int)),
    ) by {
        assert(can_locate(locate, objects_in(before, start, end)[k]));
    }
    while idx < found.len()
        invariant
            idx <= found@.len(),
            len == before.len() == table.bytes@.len(),
            end <= len,
            0 <= start,
            fields::spaced(found@, start, end),
            forall|k: int|
                0 <= k < found@.len() ==> can_locate(
                    locate,
                    VALUE(encoding::field_word(before, #[trigger] found@[k] as int)),
                ),
            words.len() == idx,
            forall|k: int|
                0 <= k < idx ==> located_word(
                    encoding::field_word(before, #[trigger] found@[k] as int),
                    locate,
                    words[k],
                ),
            table.bytes@ == relocate::patch_fields(before, found@.take(idx as int), words),
            table.ret_addrs == old(table).ret_addrs,
            table.code_base_addr == old(table).code_base_addr,
        decreases found@.len() - idx,
    {
        let field: usize = found[idx];
        let ghost now = table.bytes@;
        proof {
            let done = found@.take(idx as int);
            assert(fields::spaced(done, start, end));
            relocate::lemma_patch_fields(before, done, words, start, end);
            assert forall|i: int| field <= i < field + 8 implies before[i] == #[trigger] now[i] by {
                if fields::covered(done, i) {
                    let k = choose|k: int|
                        0 <= k < done.len() && (#[trigger] done[k]) <= i < done[k] + 8;
                    assert(found@[k] + 8 <= found@[idx as int]);
                }
            }
            relocate::lemma_same_word(before, now, field as int);
            lemma_patch_same(now, field as int);
        }
        let object: u64 = codec::read_field(table.bytes.as_slice(), field);
        let mut word: u64 = object;
        if object != 0 {
            word = locate(VALUE(object)).0;
            if word != object {
                le::write_u64_at(&mut table.bytes, field, word);
            }
        }
        idx = idx + 1;
        proof {
            let next = found@.take(idx as int);
            assert(table.bytes@ == le::patched(now, field as int, word));
            assert(next.drop_last() =~= found@.take(idx - 1));
            assert(words.push(word).drop_last() =~= words);
            words = words.push(word);
            relocate::lemma_patched(now, field as int, word);
        }
    }
    proof {
        assert(found@.take(idx as int) =~= found@);
        relocate::lemma_patch_fields(before, found@, words, start, end);
        assert(located(before, found@, locate, words));
        law_update_keeps_layout(before, table.bytes@, start, end, 0);
        assert forall|k: int| 0 <= k < table.ret_addrs@.len() implies fields::boundary(
            table.bytes@,
            (#[trigger] table.ret_addrs@[k]).1 as int,
        ) by {
            law_update_keeps_layout(
                before,
                table.bytes@,
                start,
                end,
                table.ret_addrs@[k].1 as int,
            );
        }
    }
}

/// After an update, the descriptors in the range say what they said, of the objects where
/// they are now.
pub proof fn law_update_references<F: Fn(VALUE) -> VALUE>(
    before: Seq<u8>,
    range: std::ops::Range<u32>,
    locate: F,
    words: Seq<u64>,
    to: spec_fn(u64) -> u64,
)
    requires
        before.len() <= usize::MAX,
        is_range(before, range),
        to(0) == 0,
        forall|object: u64, moved: VALUE|
            object != 0 && #[trigger] call_ensures(locate, (VALUE(object),), moved) ==> moved.0
                == to(object),
        encoding::parse_descs(before, range.start as int, range.end as int) matches Some(ds)
            && located(before, fields::objects_fields(before, ds), locate, words),
    ensures
        encoding::parse_descs(before, range.start as int, range.end as int) matches Some(ds) && {
            let after = relocate::patch_fields(
                before,
                fields::objects_fields(before, ds),
                words,
            );
            &&& encoding::parse_descs(after, range.start as int, range.end as int) == Some(ds)
            &&& encoding::decoded_models(after, ds) == relocate::moved_descs(
                encoding::decoded_models(before, ds),
                to,
            )
        },
{
    let start = range.start as int;
    let end = range.end as int;
    fields::lemma_boundaries(before, start, end);
    let ds = encoding::parse_descs(before, start, end).unwrap();
    let of = fields::objects_fields(before, ds);
    relocate::lemma_objects_fields(before, start, end);
    relocate::lemma_patch_fields(before, of, words, start, end);
    let after = relocate::patch_fields(before, of, words);
    assert forall|k: int| 0 <= k < of.len() implies encoding::field_word(
        after,
        #[trigger] of[k] as int,
    ) == to(encoding::field_word(before, of[k] as int)) by {
        assert(located_word(encoding::field_word(before, of[k] as int), locate, words[k]));
    }
    relocate::law_update_moves_objects(before, after, start, end, to);
}

} // verus!
