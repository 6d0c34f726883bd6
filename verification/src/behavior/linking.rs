//! Where labels are, and what refers to them.

use vstd::prelude::*;

use crate::assembler::code_block::{BranchEncoder, CbModel, CodeBlock, Label, LabelRef};
use crate::assembler::labels;
use crate::virtualmem::CodePtr;
use super::code;

verus! {

/// Whether nothing of `b` differs from `a` but labels and references to them.
pub open spec fn same_but_labels(a: CodeBlock, b: CodeBlock) -> bool {
    &&& b.mem_block@ == a.mem_block@
    &&& b.page_size == a.page_size
    &&& b.write_pos == a.write_pos
    &&& b.other_write_pos == a.other_write_pos
    &&& b.outlined == a.outlined
    &&& b.page_end_reserve == a.page_end_reserve
    &&& b.page_bounds_check == a.page_bounds_check
    &&& b.past_page_bytes@ == a.past_page_bytes@
    &&& b.page_jump_ends@ == a.page_jump_ends@
    &&& b.keep_comments == a.keep_comments
    &&& b@.comments == a@.comments
    &&& b.dropped_bytes == a.dropped_bytes
    &&& b.jmp_ptr_bytes == a.jmp_ptr_bytes
}

/// A new label is none of those there were, has the name it was given and stands nowhere yet.
pub proof fn law_new_label(cb: &mut CodeBlock, name: String, label: Label, other: Label)
    requires
        cb.wf(),
        call_ensures(CodeBlock::new_label, (cb, name), label),
    ensures
        label.0 == old(cb).label_addrs@.len(),
        final(cb).label_addrs@.len() == old(cb).label_addrs@.len() + 1,
        final(cb).label_addrs@[label.0 as int] == 0,
        final(cb).label_names@.len() == old(cb).label_names@.len() + 1,
        final(cb).label_names@.last()@ == name@,
        other.0 < old(cb).label_addrs@.len() ==> {
            &&& other != label
            &&& final(cb).label_addrs@[other.0 as int] == old(cb).label_addrs@[other.0 as int]
            &&& final(cb).label_names@[other.0 as int]@ == old(cb).label_names@[other.0 as int]@
        },
        final(cb).label_refs@ == old(cb).label_refs@,
        same_but_labels(*old(cb), *final(cb)),
{
    assert(cb.label_addrs.len() == cb.label_addrs@.len());
    let before = cb@.label_names;
    let after = final(cb)@.label_names;
    assert(after.len() == before.len() + 1);
    assert(after.last() == name@);
    if other.0 < old(cb).label_addrs@.len() {
        assert(before[other.0 as int] == old(cb).label_names@[other.0 as int]@);
        assert(after[other.0 as int] == final(cb).label_names@[other.0 as int]@);
    }
}

/// A label is where it was last written, whatever is written elsewhere.
pub proof fn law_label_is_where_it_was_written(
    cb: &mut CodeBlock,
    label: Label,
    after: &CodeBlock,
    here: CodePtr,
    at: CodePtr,
    other: Label,
    was: CodePtr,
    is: CodePtr,
    before: &CodeBlock,
)
    requires
        cb.wf(),
        *before == *cb,
        label.0 < cb.label_addrs@.len(),
        other.0 < cb.label_addrs@.len(),
        call_ensures(CodeBlock::get_write_ptr, (before,), here),
        call_ensures(CodeBlock::resolve_label, (before, other), was),
        call_ensures(CodeBlock::write_label, (cb, label), ()),
        *after == *final(cb),
        call_ensures(CodeBlock::resolve_label, (after, label), at),
        call_ensures(CodeBlock::resolve_label, (after, other), is),
    ensures
        at == here,
        at.0 == before.write_pos,
        after.label_addrs@[label.0 as int] == before.write_pos,
        other != label ==> is == was && is.0 == before.label_addrs@[other.0 as int],
        after.label_addrs@.len() == before.label_addrs@.len(),
        after.label_refs@ == before.label_refs@,
        after@.label_names == before@.label_names,
        same_but_labels(*before, *after),
{
}

/// A reference to a label is listed last, with where it is, what it refers to and how long it is.
/// Those listed before stay, and so do all labels. Its place is held with zeros, as far as they
/// can be written, or not at all if there is no capacity for it.
pub proof fn law_label_ref_is_listed(
    cb: &mut CodeBlock,
    label: Label,
    num_bytes: usize,
    encode: BranchEncoder,
    before: &CodeBlock,
    after: &CodeBlock,
    was: usize,
    now: usize,
    fits: bool,
)
    requires
        cb.wf(),
        code::in_place(*cb),
        *before == *cb,
        call_ensures(CodeBlock::label_refs_len, (before,), was),
        call_ensures(CodeBlock::has_capacity, (before, num_bytes), fits),
        call_ensures(CodeBlock::label_ref, (cb, label, num_bytes, encode), ()),
        *after == *final(cb),
        call_ensures(CodeBlock::label_refs_len, (after,), now),
    ensures
        now == was + 1,
        was == before.label_refs@.len(),
        after.label_refs@.len() == now,
        after.label_refs@[was as int].pos == before.write_pos,
        after.label_refs@[was as int].label == label,
        after.label_refs@[was as int].num_bytes == num_bytes,
        after.label_refs@[was as int].encode == encode,
        forall|i: int| 0 <= i < was ==> #[trigger] after.label_refs@[i] == before.label_refs@[i],
        after.label_addrs@ == before.label_addrs@,
        after@.label_names == before@.label_names,
        fits ==> code::wrote(
            CodeBlock { label_refs: after.label_refs, ..*before },
            Seq::new(num_bytes as nat, |i: int| 0u8),
            after.write_pos - before.write_pos,
            *after,
        ),
        !fits ==> {
            &&& after.dropped_bytes
            &&& after.write_pos == before.write_pos
            &&& after.mem_block@ == before.mem_block@
            &&& code::same_but_code(
                CodeBlock { label_refs: after.label_refs, ..*before },
                *after,
            )
        },
{
    let m = before@;
    let listed = CbModel {
        label_refs: m.label_refs.push(
            LabelRef { pos: m.write_pos as usize, label, num_bytes, encode },
        ),
        ..m
    };
    let zeros = labels::placeholder(num_bytes as nat);
    code::lemma_bytes(listed, zeros);
    code::lemma_bytes_land(listed, zeros);
    assert(zeros =~= Seq::new(num_bytes as nat, |i: int| 0u8));
}

/// References that were listed after the first `len` are forgotten, and nothing else.
pub proof fn law_truncating_forgets_the_latest(cb: &mut CodeBlock, len: usize)
    requires
        cb.wf(),
        call_ensures(CodeBlock::truncate_label_refs, (cb, len), ()),
    ensures
        final(cb).label_refs@.len() == if len < old(cb).label_refs@.len() {
            len as nat
        } else {
            old(cb).label_refs@.len()
        },
        forall|i: int|
            0 <= i < final(cb).label_refs@.len() ==> #[trigger] final(cb).label_refs@[i] == old(
                cb,
            ).label_refs@[i],
        final(cb).label_addrs@ == old(cb).label_addrs@,
        final(cb)@.label_names == old(cb)@.label_names,
        same_but_labels(*old(cb), *final(cb)),
{
}

/// Clearing labels forgets all of them and all references, and nothing else.
pub proof fn law_clearing_forgets_labels(cb: &mut CodeBlock)
    requires
        cb.wf(),
        call_ensures(CodeBlock::clear_labels, (cb,), ()),
    ensures
        final(cb).label_refs@.len() == 0,
        final(cb).label_addrs@.len() == 0,
        final(cb)@.label_names.len() == 0,
        same_but_labels(*old(cb), *final(cb)),
{
}

/// Whether the encoder of a label reference can say that it wrote its branch, or that it could
/// not, when it is asked for it at the reference's position, from where the reference ends to the
/// position `addr`.
pub open spec fn answers<F: Fn(BranchEncoder, &mut CodeBlock, i64, i64) -> Result<(), ()>>(
    encode: F,
    label_ref: LabelRef,
    addr: usize,
    ok: bool,
) -> bool {
    exists|c: &mut CodeBlock, one: Result<(), ()>| #[trigger]
        call_ensures(
            encode,
            (label_ref.encode, c, (label_ref.pos + label_ref.num_bytes) as i64, addr as i64),
            one,
        ) && c.write_pos == label_ref.pos && one is Ok == ok
}

/// What linking goes through.
proof fn lemma_trace<F: Fn(BranchEncoder, &mut CodeBlock, i64, i64) -> Result<(), ()>>(
    cb: &mut CodeBlock,
    encode: F,
    r: Result<(), ()>,
    before: CodeBlock,
)
    requires
        before == *cb,
        call_ensures(CodeBlock::link_labels::<F>, (cb, encode), r),
    ensures
        exists|results: Seq<Result<(), ()>>|
            results.len() == before.label_refs@.len() && (r is Ok <==> #[trigger] labels::all_ok(
                results,
            )) && forall|i: int|
                0 <= i < results.len() ==> answers(
                    encode,
                    before.label_refs@[i],
                    before.label_addrs@[before.label_refs@[i].label.0 as int],
                    #[trigger] results[i] is Ok,
                ),
{
    let m = cb@;
    let (trace, results) = choose|trace: Seq<CbModel>, results: Seq<Result<(), ()>>| #[trigger]
        labels::is_trace(m, trace, results) && (forall|i: int|
            0 <= i < m.label_refs.len() ==> (#[trigger] results[i] is Ok ==> trace[i + 1].write_pos
                == labels::ref_end(m.label_refs[i])) && exists|c: &mut CodeBlock| #[trigger]
                call_ensures(
                    encode,
                    (
                        m.label_refs[i].encode,
                        c,
                        labels::ref_end(m.label_refs[i]),
                        labels::ref_target(m.label_refs[i], m.label_addrs),
                    ),
                    results[i],
                ) && c.wf() && c@ == labels::at_ref(trace[i], m.label_refs[i]) && final(c)@
                    == trace[i + 1]) && final(cb)@ == labels::linked(m, trace.last()) && (r is Ok
            <==> labels::all_ok(results));
    assert forall|i: int| 0 <= i < results.len() implies answers(
        encode,
        before.label_refs@[i],
        before.label_addrs@[before.label_refs@[i].label.0 as int],
        #[trigger] results[i] is Ok,
    ) by {
        let c = choose|c: &mut CodeBlock| #[trigger]
            call_ensures(
                encode,
                (
                    m.label_refs[i].encode,
                    c,
                    labels::ref_end(m.label_refs[i]),
                    labels::ref_target(m.label_refs[i], m.label_addrs),
                ),
                results[i],
            ) && c.wf() && c@ == labels::at_ref(trace[i], m.label_refs[i]) && final(c)@ == trace[i
                + 1];
        assert(c@.write_pos == m.label_refs[i].pos);
    }
    assert(r is Ok <==> labels::all_ok(results));
}

/// Each label reference is linked: its own encoder is asked for the branch, at the reference's
/// position, from where the reference ends to where its own label was last written. If linking
/// succeeds, so did each of the encoders.
pub proof fn law_reference_is_linked<
    F: Fn(BranchEncoder, &mut CodeBlock, i64, i64) -> Result<(), ()>,
>(
    cb: &mut CodeBlock,
    encode: F,
    r: Result<(), ()>,
    before: CodeBlock,
    label_ref: LabelRef,
    addr: usize,
)
    requires
        before == *cb,
        call_ensures(CodeBlock::link_labels::<F>, (cb, encode), r),
        before.label_refs@.contains(label_ref),
        label_ref.label.0 < before.label_addrs@.len(),
        addr == before.label_addrs@[label_ref.label.0 as int],
    ensures
        r is Ok ==> answers(encode, label_ref, addr, true),
        r is Err ==> answers(encode, label_ref, addr, true) || answers(
            encode,
            label_ref,
            addr,
            false,
        ),
{
    lemma_trace(cb, encode, r, before);
    let results = choose|results: Seq<Result<(), ()>>|
        results.len() == before.label_refs@.len() && (r is Ok <==> #[trigger] labels::all_ok(
            results,
        )) && forall|i: int|
            0 <= i < results.len() ==> answers(
                encode,
                before.label_refs@[i],
                before.label_addrs@[before.label_refs@[i].label.0 as int],
                #[trigger] results[i] is Ok,
            );
    let i = choose|i: int| 0 <= i < before.label_refs@.len() && before.label_refs@[i] == label_ref;
    assert(r is Ok ==> results[i] is Ok);
}

/// Linking fails only if some encoder could not encode the branch that it was asked for. It
/// leaves no label and no reference behind, and code goes on where it was.
pub proof fn law_linking_fails_with_a_branch<
    F: Fn(BranchEncoder, &mut CodeBlock, i64, i64) -> Result<(), ()>,
>(cb: &mut CodeBlock, encode: F, r: Result<(), ()>, before: CodeBlock)
    requires
        before == *cb,
        call_ensures(CodeBlock::link_labels::<F>, (cb, encode), r),
    ensures
        r is Err ==> exists|i: int|
            0 <= i < before.label_refs@.len() && answers(
                encode,
                #[trigger] before.label_refs@[i],
                before.label_addrs@[before.label_refs@[i].label.0 as int],
                false,
            ),
        final(cb).label_refs@.len() == 0,
        final(cb).label_addrs@.len() == 0,
        final(cb)@.label_names.len() == 0,
        final(cb).write_pos == old(cb).write_pos,
        final(cb).page_bounds_check == old(cb).page_bounds_check,
{
    lemma_trace(cb, encode, r, before);
    let results = choose|results: Seq<Result<(), ()>>|
        results.len() == before.label_refs@.len() && (r is Ok <==> #[trigger] labels::all_ok(
            results,
        )) && forall|i: int|
            0 <= i < results.len() ==> answers(
                encode,
                before.label_refs@[i],
                before.label_addrs@[before.label_refs@[i].label.0 as int],
                #[trigger] results[i] is Ok,
            );
    if r is Err {
        let i = choose|i: int| 0 <= i < results.len() && !(#[trigger] results[i] is Ok);
        assert(0 <= i < before.label_refs@.len());
    }
}

/// Patching: the callback writes from the given address, unbounded by half pages and with nothing
/// dropped yet, and what it wrote is the range that is returned. Afterwards code goes on where it
/// was, and what was dropped before is known as before.
pub proof fn law_patching<F: Fn(&mut CodeBlock)>(
    cb: &mut CodeBlock,
    code_ptr: CodePtr,
    callback: F,
    r: std::ops::Range<CodePtr>,
    before: CodeBlock,
    after: CodeBlock,
)
    requires
        before == *cb,
        call_ensures(CodeBlock::with_write_ptr::<F>, (cb, code_ptr, callback), r),
        after == *final(cb),
    ensures
        r.start == code_ptr,
        after.write_pos == before.write_pos,
        after.dropped_bytes == before.dropped_bytes,
        after.page_bounds_check == before.page_bounds_check,
        exists|c: &mut CodeBlock| #[trigger]
            call_ensures(callback, (c,), ()) && c.write_pos == code_ptr.0 && !c.dropped_bytes
                && !c.page_bounds_check && c.mem_block@ == before.mem_block@ && c.outlined
                == before.outlined && c.other_write_pos == before.other_write_pos && c.label_addrs@
                == before.label_addrs@ && c.label_refs@ == before.label_refs@ && r.end.0
                == final(c).write_pos && after.mem_block@ == final(c).mem_block@ && after.outlined
                == final(c).outlined && after.other_write_pos == final(c).other_write_pos
                && after.label_addrs@
                == final(c).label_addrs@ && after.label_refs@ == final(c).label_refs@,
{
    let c = choose|c: &mut CodeBlock| #[trigger]
        call_ensures(callback, (c,), ()) && c.wf() && c@ == labels::patching(before@, code_ptr)
            && final(c).wf() && r.start == code_ptr && r.end.0 == final(c)@.write_pos && after@ == (
        CbModel {
            write_pos: before@.write_pos,
            dropped_bytes: before@.dropped_bytes,
            page_bounds_check: before@.page_bounds_check,
            ..final(c)@
        });
    assert(c@.write_pos == c.write_pos);
    assert(final(c)@.write_pos == final(c).write_pos);
    assert(after@.write_pos == after.write_pos);
    assert(after.other_write_pos == after@.other_write_pos);
    assert(final(c).other_write_pos == final(c)@.other_write_pos);
}

/// A branch to a label leads to where the label is: wherever the label was written, a reference to
/// it that is added later is linked to that position.
pub proof fn law_branch_leads_to_its_label<
    F: Fn(BranchEncoder, &mut CodeBlock, i64, i64) -> Result<(), ()>,
>(
    a: &mut CodeBlock,
    label: Label,
    b: &mut CodeBlock,
    num_bytes: usize,
    encoder: BranchEncoder,
    c: &mut CodeBlock,
    encode: F,
    r: Result<(), ()>,
)
    requires
        a.wf(),
        label.0 < a.label_addrs@.len(),
        call_ensures(CodeBlock::write_label, (a, label), ()),
        *b == *final(a),
        code::in_place(*b),
        call_ensures(CodeBlock::label_ref, (b, label, num_bytes, encoder), ()),
        *c == *final(b),
        call_ensures(CodeBlock::link_labels::<F>, (c, encode), r),
    ensures
        r is Ok ==> answers(
            encode,
            (LabelRef { pos: old(a).write_pos, label, num_bytes, encode: encoder }),
            old(a).write_pos,
            true,
        ),
{
    let label_ref = LabelRef { pos: old(a).write_pos, label, num_bytes, encode: encoder };
    let m = b@;
    let listed = CbModel { label_refs: m.label_refs.push(label_ref), ..m };
    code::lemma_bytes(listed, labels::placeholder(num_bytes as nat));
    let n = m.label_refs.len() as int;
    assert(c.label_refs@[n] == label_ref);
    law_reference_is_linked(c, encode, r, *c, label_ref, old(a).write_pos);
}

/// What is at position `p` once the first `k` references are linked by encoders that write the
/// bytes that `branch` says. `was` is what was there.
pub open spec fn linked_byte(
    refs: Seq<LabelRef>,
    addrs: Seq<usize>,
    branch: spec_fn(BranchEncoder, i64, i64) -> Seq<u8>,
    k: int,
    p: int,
    was: u8,
) -> u8
    decreases k,
{
    if k <= 0 {
        was
    } else {
        let last = refs[k - 1];
        if last.pos <= p < last.pos + last.num_bytes {
            branch(
                last.encode,
                (last.pos + last.num_bytes) as i64,
                addrs[last.label.0 as int] as i64,
            )[p - last.pos]
        } else {
            linked_byte(refs, addrs, branch, k - 1, p, was)
        }
    }
}

/// Whether what an encoder did is to write a branch, and nothing else.
pub open spec fn wrote_branch(before: CodeBlock, after: CodeBlock, end: i64,
    bytes: Seq<u8>) -> bool {
    &&& after.mem_block.bytes@.len() == before.mem_block.bytes@.len()
    &&& forall|p: int|
        0 <= p < before.mem_block.bytes@.len() ==> #[trigger] after.mem_block.bytes@[p] == if
            before.write_pos <= p < end {
            bytes[p - before.write_pos]
        } else {
            before.mem_block.bytes@[p]
        }
    &&& after.mem_block.mapped_bytes == before.mem_block.mapped_bytes
    &&& after.dropped_bytes == before.dropped_bytes
    &&& code::same_but_code(before, after)
}

/// With encoders that write their branches and nothing else, linking leaves each reference with its
/// branch, everything outside of references as it was, and the code block as it was but for the
/// labels.
pub proof fn law_linked_code<F: Fn(BranchEncoder, &mut CodeBlock, i64, i64) -> Result<(), ()>>(
    cb: &mut CodeBlock,
    encode: F,
    branch: spec_fn(BranchEncoder, i64, i64) -> Seq<u8>,
    r: Result<(), ()>,
    before: CodeBlock,
    p: int,
)
    requires
        cb.wf(),
        before == *cb,
        call_ensures(CodeBlock::link_labels::<F>, (cb, encode), r),
        forall|i: int|
            0 <= i < before.label_refs@.len() ==> (#[trigger] before.label_refs@[i]).pos
                + before.label_refs@[i].num_bytes <= i64::MAX,
        forall|e: BranchEncoder, c: &mut CodeBlock, end: i64, target: i64, one: Result<(), ()>|
            #[trigger] call_ensures(encode, (e, c, end, target), one) ==> wrote_branch(
                *c,
                *final(c),
                end,
                branch(e, end, target),
            ),
        0 <= p < before.mem_block.bytes@.len(),
    ensures
        final(cb).mem_block.bytes@[p] == linked_byte(
            before.label_refs@,
            before.label_addrs@,
            branch,
            before.label_refs@.len() as int,
            p,
            before.mem_block.bytes@[p],
        ),
        final(cb).mem_block.bytes@.len() == before.mem_block.bytes@.len(),
        final(cb).mem_block.mapped_bytes == before.mem_block.mapped_bytes,
        final(cb).dropped_bytes == before.dropped_bytes,
        same_but_labels(
            CodeBlock { mem_block: final(cb).mem_block, ..before },
            *final(cb),
        ),
{
    let m = cb@;
    let (trace, results) = choose|trace: Seq<CbModel>, results: Seq<Result<(), ()>>| #[trigger]
        labels::is_trace(m, trace, results) && (forall|i: int|
            0 <= i < m.label_refs.len() ==> (#[trigger] results[i] is Ok ==> trace[i + 1].write_pos
                == labels::ref_end(m.label_refs[i])) && exists|c: &mut CodeBlock| #[trigger]
                call_ensures(
                    encode,
                    (
                        m.label_refs[i].encode,
                        c,
                        labels::ref_end(m.label_refs[i]),
                        labels::ref_target(m.label_refs[i], m.label_addrs),
                    ),
                    results[i],
                ) && c.wf() && c@ == labels::at_ref(trace[i], m.label_refs[i]) && final(c)@
                    == trace[i + 1]) && final(cb)@ == labels::linked(m, trace.last()) && (r is Ok
            <==> labels::all_ok(results));
    let n = m.label_refs.len() as int;
    lemma_linked_code(m, encode, branch, trace, results, n, p);
    assert(trace.last() == trace[n]);
    assert(final(cb)@.write_pos == final(cb).write_pos);
    assert(final(cb)@.other_write_pos == final(cb).other_write_pos);
    assert(final(cb)@.page_size == final(cb).page_size);
    assert(final(cb)@.page_end_reserve == final(cb).page_end_reserve);
    assert(final(cb)@.jmp_ptr_bytes == final(cb).jmp_ptr_bytes);
    assert(final(cb)@.mem.mapped_bytes == final(cb).mem_block.mapped_bytes);
}

/// What the first `k` encoders leave.
proof fn lemma_linked_code<F: Fn(BranchEncoder, &mut CodeBlock, i64, i64) -> Result<(), ()>>(
    m: CbModel,
    encode: F,
    branch: spec_fn(BranchEncoder, i64, i64) -> Seq<u8>,
    trace: Seq<CbModel>,
    results: Seq<Result<(), ()>>,
    k: int,
    p: int,
)
    requires
        labels::is_trace(m, trace, results),
        0 <= k <= m.label_refs.len(),
        0 <= p < m.mem.bytes.len(),
        forall|i: int|
            0 <= i < m.label_refs.len() ==> (#[trigger] m.label_refs[i]).pos
                + m.label_refs[i].num_bytes <= i64::MAX,
        forall|i: int|
            0 <= i < m.label_refs.len() ==> (#[trigger] results[i] is Ok ==> trace[i + 1].write_pos
                == labels::ref_end(m.label_refs[i])) && exists|c: &mut CodeBlock| #[trigger]
                call_ensures(
                    encode,
                    (
                        m.label_refs[i].encode,
                        c,
                        labels::ref_end(m.label_refs[i]),
                        labels::ref_target(m.label_refs[i], m.label_addrs),
                    ),
                    results[i],
                ) && c.wf() && c@ == labels::at_ref(trace[i], m.label_refs[i]) && final(c)@
                    == trace[i + 1],
        forall|e: BranchEncoder, c: &mut CodeBlock, end: i64, target: i64, one: Result<(), ()>|
            #[trigger] call_ensures(encode, (e, c, end, target), one) ==> wrote_branch(
                *c,
                *final(c),
                end,
                branch(e, end, target),
            ),
    ensures
        trace[k].mem.bytes[p] == linked_byte(
            m.label_refs,
            m.label_addrs,
            branch,
            k,
            p,
            m.mem.bytes[p],
        ),
        trace[k].mem.bytes.len() == m.mem.bytes.len(),
        trace[k].mem == (crate::virtualmem::MemModel { bytes: trace[k].mem.bytes, ..m.mem }),
        trace[k] == (CbModel {
            mem: trace[k].mem,
            write_pos: trace[k].write_pos,
            label_refs: trace[k].label_refs,
            page_bounds_check: false,
            ..m
        }),
    decreases k,
{
    if k > 0 {
        let i = k - 1;
        lemma_linked_code(m, encode, branch, trace, results, i, p);
        let at = m.label_refs[i];
        assert(results[i] is Ok || !(results[i] is Ok));
        let c = choose|c: &mut CodeBlock| #[trigger]
            call_ensures(
                encode,
                (
                    m.label_refs[i].encode,
                    c,
                    labels::ref_end(m.label_refs[i]),
                    labels::ref_target(m.label_refs[i], m.label_addrs),
                ),
                results[i],
            ) && c.wf() && c@ == labels::at_ref(trace[i], m.label_refs[i]) && final(c)@ == trace[i
                + 1];
        assert(c@.write_pos == at.pos);
        assert(wrote_branch(
            *c,
            *final(c),
            labels::ref_end(at),
            branch(at.encode, labels::ref_end(at), labels::ref_target(at, m.label_addrs)),
        ));
        assert(final(c)@.mem.bytes[p] == final(c).mem_block.bytes@[p]);
        assert(c@.mem.bytes[p] == c.mem_block.bytes@[p]);
        assert(trace[k] == final(c)@);
    }
}

} // verus!
