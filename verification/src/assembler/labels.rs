//! Labels, references to them, and patching code that has been written.

use vstd::prelude::*;

use crate::text;
use crate::virtualmem::CodePtr;
use super::code_block;
use super::code_block::{BranchEncoder, CbModel, CodeBlock, Label, LabelRef};

verus! {

/// Most bytes that a label reference can take.
pub const MAX_LABEL_REF_BYTES: usize = 16;

/// `n` bytes that hold the place of an instruction.
pub open spec fn placeholder(n: nat) -> Seq<u8> {
    Seq::new(n, |i: int| 0u8)
}

/// The code block after a label reference of `num_bytes` was added at the write position. Its
/// bytes are reserved by writing them, or dropped.
pub open spec fn label_ref_added(
    m: CbModel,
    label: Label,
    num_bytes: usize,
    encode: BranchEncoder,
) -> CbModel {
    let listed = CbModel {
        label_refs: m.label_refs.push(
            LabelRef { pos: m.write_pos as usize, label, num_bytes, encode },
        ),
        ..m
    };
    if code_block::capacity_for(m, num_bytes as nat) {
        code_block::bytes_written(listed, placeholder(num_bytes as nat))
    } else {
        CbModel { dropped_bytes: true, ..listed }
    }
}

/// Whether a label reference can be linked: it and its label are in the region.
pub open spec fn linkable(m: CbModel, label_ref: LabelRef) -> bool {
    &&& label_ref.pos < m.mem.bytes.len()
    &&& label_ref.pos + label_ref.num_bytes <= usize::MAX
    &&& label_ref.pos + label_ref.num_bytes <= i64::MAX
    &&& label_ref.label.0 < m.label_addrs.len()
    &&& m.label_addrs[label_ref.label.0 as int] < m.mem.bytes.len()
}

/// Where a label reference ends.
pub open spec fn ref_end(label_ref: LabelRef) -> i64 {
    (label_ref.pos + label_ref.num_bytes) as i64
}

/// Where the label of a label reference is.
pub open spec fn ref_target(label_ref: LabelRef, addrs: Seq<usize>) -> i64 {
    addrs[label_ref.label.0 as int] as i64
}

/// Whether `c` is what a branch encoder can be handed while the labels of `m` are linked: the
/// labels are known, there are no references, and writes are not bounded by half pages.
pub open spec fn handed(m: CbModel, c: CbModel) -> bool {
    &&& c.label_addrs == m.label_addrs
    &&& c.label_refs == Seq::<LabelRef>::empty()
    &&& c.mem.bytes.len() == m.mem.bytes.len()
    &&& !c.page_bounds_check
}

/// Whether a branch encoder can be asked for this while the labels of `m` are linked: to encode
/// the branch of one of the label references, at the write position.
pub open spec fn asked(m: CbModel, e: BranchEncoder, c: CbModel, end: i64, target: i64) -> bool {
    &&& handed(m, c)
    &&& exists|i: int|
        0 <= i < m.label_refs.len() && (#[trigger] m.label_refs[i]).encode == e && c.write_pos
            == m.label_refs[i].pos && end == ref_end(m.label_refs[i]) && target == ref_target(
            m.label_refs[i],
            m.label_addrs,
        )
}

/// The code block that a branch encoder is handed: what the encoders before it left, with the
/// write position at the label reference.
pub open spec fn at_ref(before: CbModel, label_ref: LabelRef) -> CbModel {
    CbModel { write_pos: label_ref.pos as nat, ..before }
}

/// `trace` are the states of the code block `m` before the first branch was encoded and after
/// each one, and `results` says which of them could be encoded.
pub open spec fn is_trace(
    m: CbModel,
    trace: Seq<CbModel>,
    results: Seq<Result<(), ()>>,
) -> bool {
    &&& results.len() == m.label_refs.len()
    &&& trace.len() == m.label_refs.len() + 1
    &&& trace[0] == (CbModel { label_refs: Seq::empty(), ..unchecked(m) })
}

/// All branches could be encoded.
pub open spec fn all_ok(results: Seq<Result<(), ()>>) -> bool {
    forall|i: int| 0 <= i < results.len() ==> #[trigger] results[i] is Ok
}

/// The code block once its labels are linked, where the last encoder left `last`.
pub open spec fn linked(m: CbModel, last: CbModel) -> CbModel {
    CbModel {
        write_pos: m.write_pos,
        page_bounds_check: m.page_bounds_check,
        ..without_labels(last)
    }
}

/// Rewriting bytes that are mapped drops none, and changes those bytes only.
pub proof fn law_rewriting_drops_nothing(m: CbModel, bytes: Seq<u8>)
    requires
        code_block::shape_ok(m),
        !m.page_bounds_check,
        m.write_pos + bytes.len() <= m.mem.mapped_bytes,
    ensures
        ({
            let after = code_block::bytes_written(m, bytes);
            &&& after == (CbModel {
                mem: after.mem,
                write_pos: m.write_pos + bytes.len(),
                ..m
            })
            &&& after.mem == (crate::virtualmem::MemModel { bytes: after.mem.bytes, ..m.mem })
            &&& after.mem.bytes.len() == m.mem.bytes.len()
            &&& forall|i: int|
                0 <= i < m.mem.bytes.len() ==> #[trigger] after.mem.bytes[i] == if m.write_pos <= i
                    < m.write_pos + bytes.len() {
                    bytes[i - m.write_pos]
                } else {
                    m.mem.bytes[i]
                }
        }),
    decreases bytes.len(),
{
    if bytes.len() > 0 {
        let init = bytes.drop_last();
        law_rewriting_drops_nothing(m, init);
        let before = code_block::bytes_written(m, init);
        code_block::lemma_bytes_written(m, init);
        assert(crate::virtualmem::write_error(before.mem, before.write_pos) is None);
        assert(code_block::capacity_for(before, 1));
    }
}

impl CodeBlock {
    /// Allocate a new label with a given name. Use underscores in label names, not spaces.
    pub fn new_label(&mut self, name: String) -> (r: Label)
        requires
            old(self).wf(),
            !name@.contains(' '),
        ensures
            final(self).wf(),
            r == Label(old(self)@.label_addrs.len() as usize),
            final(self)@ == (CbModel {
                label_addrs: old(self)@.label_addrs.push(0),
                label_names: old(self)@.label_names.push(name@),
                ..old(self)@
            }),
    {
        vstd::pervasive::runtime_assert(!text::has_space(name.as_str()));
        // This label doesn't have an address yet
        self.label_addrs.push(0);
        self.label_names.push(name);
        assert(self@.label_names =~= old(self)@.label_names.push(name@));
        Label(self.label_addrs.len() - 1)
    }

    /// Write a label at the current address.
    pub fn write_label(&mut self, label: Label)
        requires
            old(self).wf(),
            label.0 < old(self)@.label_addrs.len(),
        ensures
            final(self).wf(),
            final(self)@ == (CbModel {
                label_addrs: old(self)@.label_addrs.update(
                    label.0 as int,
                    old(self)@.write_pos as usize,
                ),
                ..old(self)@
            }),
    {
        self.label_addrs[label.0] = self.write_pos;
    }

    /// Add a label reference at the current write position.
    pub fn label_ref(&mut self, label: Label, num_bytes: usize, encode: BranchEncoder)
        requires
            old(self).wf(),
            code_block::writable_here(old(self)@),
            label.0 < old(self)@.label_addrs.len(),
            code_block::capacity_for(old(self)@, num_bytes as nat) ==> num_bytes
                <= MAX_LABEL_REF_BYTES,
            old(self)@.write_pos + num_bytes <= usize::MAX,
        ensures
            final(self).wf(),
            code_block::writable_here(final(self)@),
            code_block::halves_ok(old(self)@) ==> code_block::halves_ok(final(self)@),
            final(self)@ == label_ref_added(old(self)@, label, num_bytes, encode),
    {
        vstd::pervasive::runtime_assert(label.0 < self.label_addrs.len());
        // Keep track of the reference
        self.label_refs.push(LabelRef { pos: self.write_pos, label, num_bytes, encode });
        // Move past however many bytes the instruction takes up.
        if self.has_capacity(num_bytes) {
            // Reserve the bytes by writing them rather than by moving the cursor over them.
            // Pages are mapped on first write, so a cursor bump alone leaves a page that cannot
            // be mapped.
            vstd::pervasive::runtime_assert(num_bytes <= MAX_LABEL_REF_BYTES);
            let reserved: Vec<u8> = vec![0u8; num_bytes];
            assert(reserved@ =~= placeholder(num_bytes as nat));
            self.write_bytes(reserved.as_slice());
        } else {
            self.dropped_bytes = true;  // retry emitting the Insn after next_page
        }
    }

    /// Number of label references recorded so far. Used to roll back an Insn to retry it on the
    /// next page.
    pub fn label_refs_len(&self) -> (r: usize)
        ensures
            r == self@.label_refs.len(),
    {
        self.label_refs.len()
    }

    /// Drop label references recorded after `len`. Used to roll back an Insn to retry it on the
    /// next page.
    pub fn truncate_label_refs(&mut self, len: usize)
        requires
            old(self).wf(),
        ensures
            final(self).wf(),
            final(self)@ == (CbModel {
                label_refs: if len < old(self)@.label_refs.len() {
                    old(self)@.label_refs.take(len as int)
                } else {
                    old(self)@.label_refs
                },
                ..old(self)@
            }),
    {
        self.label_refs.truncate(len);
    }

    /// Convert a Label to CodePtr.
    pub fn resolve_label(&self, label: Label) -> (r: CodePtr)
        requires
            self.wf(),
            label.0 < self@.label_addrs.len(),
        ensures
            r.0 == self@.label_addrs[label.0 as int],
    {
        self.get_ptr(self.label_addrs[label.0])
    }

    /// Forget all labels and references to them.
    pub fn clear_labels(&mut self)
        requires
            old(self).wf(),
        ensures
            final(self).wf(),
            final(self)@ == without_labels(old(self)@),
    {
        self.label_addrs.clear();
        self.label_names.clear();
        self.label_refs.clear();
        assert(self@.label_names =~= Seq::empty());
    }

    /// Call a given function without the page bounds check. For patching bytes that have been
    /// already reserved by a bounds-checked write.
    pub fn without_page_bounds_check<R, F: FnOnce(&mut CodeBlock) -> R>(&mut self, block: F) -> (r:
        R)
        requires
            forall|c: &mut CodeBlock|
                c@ == unchecked(old(self)@) && c.mem_size == old(self).mem_size
                    ==> #[trigger] call_requires(block, (c,)),
        ensures
            exists|c: &mut CodeBlock| #[trigger]
                call_ensures(block, (c,), r) && c@ == unchecked(old(self)@) && c.mem_size == old(
                    self,
                ).mem_size && final(self)@ == (CbModel {
                    page_bounds_check: old(self)@.page_bounds_check,
                    ..final(c)@
                }) && final(self).mem_size == final(c).mem_size,
    {
        let old_page_bounds_check: bool = self.page_bounds_check;
        self.page_bounds_check = false;
        let ret = block(self);
        self.page_bounds_check = old_page_bounds_check;
        ret
    }

    /// Invoke a callback with write_ptr temporarily adjusted to a given address. Returns the
    /// code range modified by the callback.
    pub fn with_write_ptr<F: Fn(&mut CodeBlock)>(&mut self, code_ptr: CodePtr, callback: F) -> (r:
        std::ops::Range<CodePtr>)
        requires
            old(self).wf(),
            forall|c: &mut CodeBlock|
                c.wf() && c@ == patching(old(self)@, code_ptr) ==> #[trigger] call_requires(
                    callback,
                    (c,),
                ),
            forall|c: &mut CodeBlock|
                c.wf() && c@ == patching(old(self)@, code_ptr) && #[trigger] call_ensures(
                    callback,
                    (c,),
                    (),
                ) ==> final(c).wf(),
        ensures
            final(self).wf(),
            exists|c: &mut CodeBlock| #[trigger]
                call_ensures(callback, (c,), ()) && c.wf() && c@ == patching(
                    old(self)@,
                    code_ptr,
                ) && final(c).wf() && r.start == code_ptr && r.end.0 == final(c)@.write_pos
                    && final(self)@ == (CbModel {
                    write_pos: old(self)@.write_pos,
                    dropped_bytes: old(self)@.dropped_bytes,
                    page_bounds_check: old(self)@.page_bounds_check,
                    ..final(c)@
                }),
    {
        // Temporarily update the write_pos. Ignore the dropped_bytes flag at the old address.
        let old_write_pos: usize = self.write_pos;
        let old_dropped_bytes: bool = self.dropped_bytes;
        let old_page_bounds_check: bool = self.page_bounds_check;
        self.set_write_ptr(code_ptr);
        self.dropped_bytes = false;
        // Invoke the callback. Patching rewrites bytes that are already written, so it's not
        // bounded by the current half page.
        self.page_bounds_check = false;
        callback(self);
        self.page_bounds_check = old_page_bounds_check;
        // Build a code range modified by the callback
        let ret = std::ops::Range { start: code_ptr, end: self.get_write_ptr() };
        // Restore the original write_pos and dropped_bytes flag.
        self.dropped_bytes = old_dropped_bytes;
        self.write_pos = old_write_pos;
        ret
    }

    /// Link internal label references. `encode` writes the branch instructions, each where its
    /// reference is, or says that a label is out of a branch's reach. Returns an error if any of
    /// them did.
    ///
    /// Label references rewrite bytes reserved by [`Self::label_ref`], which may be in either
    /// half, so this is done without the page bounds check.
    pub fn link_labels<F: Fn(BranchEncoder, &mut CodeBlock, i64, i64) -> Result<(), ()>>(
        &mut self,
        encode: F,
    ) -> (r: Result<(), ()>)
        requires
            old(self).wf(),
            forall|i: int|
                0 <= i < old(self)@.label_refs.len() ==> linkable(
                    old(self)@,
                    #[trigger] old(self)@.label_refs[i],
                ),
            forall|e: BranchEncoder, c: &mut CodeBlock, end: i64, target: i64|
                c.wf() && asked(old(self)@, e, c@, end, target) ==> #[trigger] call_requires(
                    encode,
                    (e, c, end, target),
                ),
            forall|e: BranchEncoder, c: &mut CodeBlock, end: i64, target: i64, r: Result<(), ()>|
                c.wf() && asked(old(self)@, e, c@, end, target) && #[trigger] call_ensures(
                    encode,
                    (e, c, end, target),
                    r,
                ) ==> final(c).wf() && handed(old(self)@, final(c)@) && (r is Ok
                    ==> final(c)@.write_pos == end),
        ensures
            final(self).wf(),
            exists|trace: Seq<CbModel>, results: Seq<Result<(), ()>>| #[trigger]
                is_trace(old(self)@, trace, results) && (forall|i: int|
                    0 <= i < old(self)@.label_refs.len() ==> (#[trigger] results[i] is Ok ==> trace[i
                        + 1].write_pos == ref_end(old(self)@.label_refs[i])) && exists|
                        c: &mut CodeBlock,
                    | #[trigger]
                        call_ensures(
                            encode,
                            (
                                old(self)@.label_refs[i].encode,
                                c,
                                ref_end(old(self)@.label_refs[i]),
                                ref_target(old(self)@.label_refs[i], old(self)@.label_addrs),
                            ),
                            results[i],
                        ) && c.wf() && c@ == at_ref(trace[i], old(self)@.label_refs[i]) && final(c)@
                            == trace[i + 1]) && final(self)@ == linked(old(self)@, trace.last())
                    && (r is Ok <==> all_ok(results)),
    {
        let ghost m = self@;
        let old_page_bounds_check: bool = self.page_bounds_check;
        self.page_bounds_check = false;
        let orig_pos: usize = self.write_pos;
        let mut link_result: Result<(), ()> = Ok(());
        let mut label_refs: Vec<LabelRef> = Vec::new();
        std::mem::swap(&mut label_refs, &mut self.label_refs);
        let ghost refs = m.label_refs;
        let ghost mut trace: Seq<CbModel> = seq![self@];
        let ghost mut results: Seq<Result<(), ()>> = Seq::empty();
        assert(self@ =~= CbModel { label_refs: Seq::empty(), ..unchecked(m) });
        let mut idx: usize = 0;
        // For each label reference
        while idx < label_refs.len()
            invariant
                idx <= refs.len(),
                label_refs@ == refs,
                refs == m.label_refs,
                m == old(self)@,
                self.wf(),
                handed(m, self@),
                trace.len() == idx + 1,
                results.len() == idx,
                trace[0] == (CbModel { label_refs: Seq::empty(), ..unchecked(m) }),
                self@ == trace.last(),
                forall|i: int| 0 <= i < refs.len() ==> linkable(m, #[trigger] refs[i]),
                forall|e: BranchEncoder, c: &mut CodeBlock, end: i64, target: i64|
                    c.wf() && asked(m, e, c@, end, target) ==> #[trigger] call_requires(
                        encode,
                        (e, c, end, target),
                    ),
                forall|
                    e: BranchEncoder,
                    c: &mut CodeBlock,
                    end: i64,
                    target: i64,
                    r: Result<(), ()>,
                |
                    c.wf() && asked(m, e, c@, end, target) && #[trigger] call_ensures(
                        encode,
                        (e, c, end, target),
                        r,
                    ) ==> final(c).wf() && handed(m, final(c)@) && (r is Ok
                        ==> final(c)@.write_pos == end),
                forall|i: int|
                    0 <= i < idx ==> (#[trigger] results[i] is Ok ==> trace[i + 1].write_pos
                        == ref_end(refs[i])) && exists|c: &mut CodeBlock| #[trigger]
                        call_ensures(
                            encode,
                            (refs[i].encode, c, ref_end(refs[i]), ref_target(refs[i], m.label_addrs)),
                            results[i],
                        ) && c.wf() && c@ == at_ref(trace[i], refs[i]) && final(c)@ == trace[i + 1],
                link_result is Ok <==> all_ok(results),
            decreases refs.len() - idx,
        {
            let label_ref: LabelRef = label_refs[idx];
            assert(linkable(m, refs[idx as int]));
            let label_addr: usize = self.label_addrs[label_ref.label.0];
            let end_pos: usize = label_ref.pos + label_ref.num_bytes;
            // Both are in the region.
            vstd::pervasive::runtime_assert(label_ref.pos < self.mem_size);
            vstd::pervasive::runtime_assert(label_addr < self.mem_size);
            self.write_pos = label_ref.pos;
            let ghost before = self@;
            assert(asked(
                m,
                refs[idx as int].encode,
                before,
                end_pos as i64,
                label_addr as i64,
            ));
            let encode_result: Result<(), ()> = encode(
                label_ref.encode,
                self,
                end_pos as i64,
                label_addr as i64,
            );
            assert(exists|c: &mut CodeBlock| #[trigger]
                call_ensures(
                    encode,
                    (label_ref.encode, c, end_pos as i64, label_addr as i64),
                    encode_result,
                ) && c.wf() && c@ == before && final(c)@ == self@);
            let ghost next_results = results.push(encode_result);
            let ghost next_trace = trace.push(self@);
            match encode_result {
                // Verify number of bytes written when the callback returns Ok
                Ok(_) => {
                    vstd::pervasive::runtime_assert(self.write_pos == end_pos);
                },
                Err(_) => {
                    link_result = Err(());
                },
            }
            proof {
                assert(before =~= at_ref(trace[idx as int], label_ref));
                assert forall|i: int| 0 <= i < idx + 1 implies (#[trigger] next_results[i] is Ok
                    ==> next_trace[i + 1].write_pos == ref_end(refs[i])) && exists|
                    c: &mut CodeBlock,
                | #[trigger]
                    call_ensures(
                        encode,
                        (refs[i].encode, c, ref_end(refs[i]), ref_target(refs[i], m.label_addrs)),
                        next_results[i],
                    ) && c.wf() && c@ == at_ref(next_trace[i], refs[i]) && final(c)@ == next_trace[i
                        + 1] by {
                    if i < idx {
                        assert(next_results[i] == results[i]);
                        assert(next_trace[i] == trace[i]);
                        assert(next_trace[i + 1] == trace[i + 1]);
                    } else {
                        assert(refs[i] == label_ref);
                        assert(ref_end(refs[i]) == end_pos as i64);
                        assert(ref_target(refs[i], m.label_addrs) == label_addr as i64);
                        assert(next_trace[i] == trace[i]);
                        assert(next_trace[i + 1] == self@);
                        assert(next_results[i] == encode_result);
                    }
                }
                if all_ok(next_results) {
                    assert(next_results[idx as int] is Ok);
                    assert forall|i: int| 0 <= i < results.len() implies #[trigger] results[i]
                        is Ok by {
                        assert(next_results[i] is Ok);
                    }
                }
                results = next_results;
                trace = next_trace;
            }
            idx = idx + 1;
        }
        self.write_pos = orig_pos;
        // Clear the label positions and references
        self.clear_labels();
        self.page_bounds_check = old_page_bounds_check;
        proof {
            assert(is_trace(m, trace, results));
            assert(self@ =~= linked(m, trace.last()));
        }
        link_result
    }
}

/// The code block without the page bounds check.
pub open spec fn unchecked(m: CbModel) -> CbModel {
    CbModel { page_bounds_check: false, ..m }
}

/// The code block while code at `code_ptr` is patched.
pub open spec fn patching(m: CbModel, code_ptr: CodePtr) -> CbModel {
    CbModel {
        write_pos: code_ptr.0 as nat,
        dropped_bytes: false,
        page_bounds_check: false,
        ..m
    }
}

/// The code block without labels.
pub open spec fn without_labels(m: CbModel) -> CbModel {
    CbModel {
        label_addrs: Seq::empty(),
        label_names: Seq::empty(),
        label_refs: Seq::empty(),
        ..m
    }
}

} // verus!
