//! Descriptors as they are built at compile time.

use vstd::prelude::*;

use crate::cruby;
use crate::cruby::{IseqPtr, VALUE};
use super::codec::Encoder;
use super::encoding;
use super::encoding::{DescModel, ExitLoc, LocModel, StackMapModel};
use super::encoding::{
    FLAG_RECOMPILE, FLAG_RECOMPILE_SELF, FLAG_STACK_MAP, FLAG_TRACE,
};

verus! {

/// The 64-bit word that a 32-bit immediate stands for.
pub open spec fn sign_extend(imm: i32) -> u64 {
    if imm >= 0 {
        imm as u64
    } else {
        (0x1_0000_0000_0000_0000 + imm) as u64
    }
}

/// Whether `word` is the sign extension of 32 bits.
pub open spec fn is_small(word: u64) -> bool {
    word <= 0x7fff_ffff || word >= 0xffff_ffff_8000_0000
}

/// The 64-bit word that a 32-bit immediate stands for.
pub fn widen(imm: i32) -> (word: u64)
    ensures
        word == sign_extend(imm),
{
    if imm >= 0 {
        imm as u64
    } else {
        u64::MAX - ((-(imm + 1)) as u64)
    }
}

/// Collects the immediates of a descriptor while it is being built.
pub struct ExitImms(pub Vec<u64>);

impl Default for ExitImms {
    fn default() -> (r: Self)
        ensures
            r.0@ == Seq::<u64>::empty(),
    {
        ExitImms(Vec::new())
    }
}

impl ExitImms {
    /// Location of a 64-bit immediate. `is_value` is true when it's a Ruby VALUE.
    ///
    /// A small immediate that is not a heap object is its own location. Any other is kept
    /// here.
    pub fn imm(&mut self, imm: u64, is_value: bool) -> (r: ExitLoc)
        requires
            old(self).0@.len() <= u32::MAX,
        ensures
            is_small(imm) && (!is_value || cruby::is_special_const(imm)) ==> {
                &&& r matches ExitLoc::SmallImm(small) && sign_extend(small) == imm
                &&& final(self).0@ == old(self).0@
            },
            !(is_small(imm) && (!is_value || cruby::is_special_const(imm))) ==> {
                &&& r == if is_value {
                    ExitLoc::Value(old(self).0@.len() as u32)
                } else {
                    ExitLoc::Imm(old(self).0@.len() as u32)
                }
                &&& final(self).0@ == old(self).0@.push(imm)
            },
    {
        if !is_value || VALUE(imm).special_const_p() {
            if imm <= 0x7fff_ffff {
                return ExitLoc::SmallImm(imm as i32);
            }
            if imm >= 0xffff_ffff_8000_0000 {
                return ExitLoc::SmallImm(-((u64::MAX - imm) as i32) - 1);
            }
        }
        vstd::pervasive::runtime_assert(self.0.len() as u64 <= u32::MAX as u64);
        let idx: u32 = self.0.len() as u32;
        self.0.push(imm);
        if is_value {
            ExitLoc::Value(idx)
        } else {
            ExitLoc::Imm(idx)
        }
    }
}

/// Values the exit handler stores into native stack slots for a stack map, and the
/// JITFrame it installs, so that older inlined frames can be rebuilt. The JITFrame's own
/// entries are written at compile time.
#[derive(Clone, Debug)]
pub struct ExitStackMap {
    /// (source, byte offset of the capture slot from the native base)
    pub captures: Vec<(ExitLoc, i32)>,
    /// Address of the JITFrame to install.
    pub jit_frame: u64,
    /// Byte offset from the native base of the slot the JITFrame pointer goes to.
    pub jit_frame_slot: i32,
}

/// Rarely used parts of a descriptor, boxed to keep [`ExitDescriptor`] small.
#[derive(Clone, Debug)]
pub struct ExitDescriptorExtra {
    pub stack_map: Option<ExitStackMap>,
    /// Address of the reason to record for a traced exit.
    pub trace_reason: Option<u64>,
}

impl Default for ExitDescriptorExtra {
    fn default() -> (r: Self)
        ensures
            r.stack_map is None,
            r.trace_reason is None,
    {
        ExitDescriptorExtra { stack_map: None, trace_reason: None }
    }
}

/// Everything a side exit does.
///
/// This is the compile-time form; the table stores it encoded by [`Self::encode`].
#[derive(Clone, Debug)]
pub struct ExitDescriptor {
    /// The pc the interpreter resumes at.
    pub pc: u64,
    /// The ISEQ of the exiting frame.
    pub iseq: IseqPtr,
    /// If not null, the compiled ISEQ to recompile. For an exit out of inlined code, this
    /// is the outer ISEQ, not `iseq`.
    pub recompile: IseqPtr,
    /// Ruby stack slots (the first `num_stack`) followed by locals.
    pub locs: Vec<ExitLoc>,
    pub num_stack: usize,
    /// 64-bit immediates referenced by [`ExitLoc::Imm`] and [`ExitLoc::Value`].
    pub imms: Vec<u64>,
    pub extra: Option<Box<ExitDescriptorExtra>>,
}

/// `locs` with their immediates looked up in `imms`.
pub open spec fn locs_model(locs: Seq<ExitLoc>, imms: Seq<u64>) -> Seq<LocModel> {
    Seq::new(locs.len(), |i: int| encoding::loc_model(locs[i], imms))
}

pub open spec fn captures_model(captures: Seq<(ExitLoc, i32)>, imms: Seq<u64>) -> Seq<
    (LocModel, i32),
> {
    Seq::new(captures.len(), |i: int| (encoding::loc_model(captures[i].0, imms), captures[i].1))
}

/// Whether `locs` fit the encoding and refer to immediates that are there.
pub open spec fn locs_valid(locs: Seq<ExitLoc>, imms: Seq<u64>) -> bool {
    forall|i: int|
        0 <= i < locs.len() ==> encoding::loc_encodable(#[trigger] locs[i])
            && encoding::loc_in_range(locs[i], imms.len())
}

pub open spec fn captures_valid(captures: Seq<(ExitLoc, i32)>, imms: Seq<u64>) -> bool {
    forall|i: int|
        0 <= i < captures.len() ==> encoding::loc_encodable((#[trigger] captures[i]).0)
            && encoding::loc_in_range(captures[i].0, imms.len())
}

impl ExitDescriptor {
    pub open spec fn spec_stack_map(self) -> Option<ExitStackMap> {
        match self.extra {
            Some(extra) => extra.stack_map,
            None => None,
        }
    }

    pub open spec fn spec_trace_reason(self) -> Option<u64> {
        match self.extra {
            Some(extra) => extra.trace_reason,
            None => None,
        }
    }

    /// What the descriptor says.
    pub open spec fn model(self) -> DescModel {
        DescModel {
            pc: self.pc,
            iseq: self.iseq,
            recompile: self.recompile,
            stack: locs_model(self.locs@.take(self.num_stack as int), self.imms@),
            locals: locs_model(self.locs@.skip(self.num_stack as int), self.imms@),
            stack_map: match self.spec_stack_map() {
                Some(map) => Some(
                    StackMapModel {
                        captures: captures_model(map.captures@, self.imms@),
                        jit_frame: map.jit_frame,
                        jit_frame_slot: map.jit_frame_slot,
                    },
                ),
                None => None,
            },
            trace_reason: self.spec_trace_reason(),
        }
    }

    /// Whether the descriptor can be encoded.
    pub open spec fn wf(self) -> bool {
        &&& self.num_stack <= self.locs@.len()
        &&& locs_valid(self.locs@, self.imms@)
        &&& self.spec_stack_map() matches Some(map) ==> captures_valid(
            map.captures@,
            self.imms@,
        )
    }

    pub fn new(
        pc: u64,
        iseq: IseqPtr,
        stack: Vec<ExitLoc>,
        locals: Vec<ExitLoc>,
        imms: ExitImms,
        recompile: IseqPtr,
        extra: Option<Box<ExitDescriptorExtra>>,
    ) -> (r: Self)
        ensures
            r.pc == pc,
            r.iseq == iseq,
            r.recompile == recompile,
            r.num_stack == stack@.len(),
            r.locs@ == stack@ + locals@,
            r.imms == imms.0,
            r.extra == extra,
    {
        let num_stack: usize = stack.len();
        let mut locs = stack;
        let mut locals = locals;
        locs.append(&mut locals);
        ExitDescriptor { pc, iseq, recompile, locs, num_stack, imms: imms.0, extra }
    }

    /// Where each Ruby stack slot is found, bottom first.
    pub fn stack(&self) -> (r: &[ExitLoc])
        requires
            self.num_stack <= self.locs@.len(),
        ensures
            r@ == self.locs@.take(self.num_stack as int),
    {
        vstd::slice::slice_subrange(self.locs.as_slice(), 0, self.num_stack)
    }

    /// Where each local is found.
    pub fn locals(&self) -> (r: &[ExitLoc])
        requires
            self.num_stack <= self.locs@.len(),
        ensures
            r@ == self.locs@.skip(self.num_stack as int),
    {
        vstd::slice::slice_subrange(self.locs.as_slice(), self.num_stack, self.locs.len())
    }

    pub fn stack_map(&self) -> (r: Option<&ExitStackMap>)
        ensures
            r == match self.spec_stack_map() {
                Some(map) => Some(&map),
                None => None,
            },
    {
        match &self.extra {
            Some(extra) => match &extra.stack_map {
                Some(map) => Some(map),
                None => None,
            },
            None => None,
        }
    }

    pub fn trace_reason(&self) -> (r: Option<u64>)
        ensures
            r == self.spec_trace_reason(),
    {
        match &self.extra {
            Some(extra) => extra.trace_reason,
            None => None,
        }
    }

    /// Encode this descriptor for the table.
    pub fn encode(&self) -> (r: Vec<u8>)
        requires
            self.wf(),
        ensures
            r@ == encoding::enc_desc(self.model()),
            encoding::desc_encodable(self.model()),
    {
        let ghost m = self.model();
        let mut enc = Encoder::new();
        enc.u64(self.pc);
        enc.u64(self.iseq);
        let mut flags: u8 = 0;
        if self.recompile == self.iseq {
            flags = flags + FLAG_RECOMPILE_SELF;
        } else if self.recompile != 0 {
            flags = flags + FLAG_RECOMPILE;
        }
        if self.stack_map().is_some() {
            flags = flags + FLAG_STACK_MAP;
        }
        if self.trace_reason().is_some() {
            flags = flags + FLAG_TRACE;
        }
        enc.u8(flags);
        if self.recompile != self.iseq && self.recompile != 0 {
            enc.u64(self.recompile);
        }
        enc.varint(self.num_stack as u64);
        enc.varint((self.locs.len() - self.num_stack) as u64);
        assert(enc.out@ =~= encoding::enc_header(m));
        let ghost all = locs_model(self.locs@, self.imms@);
        proof {
            assert(all =~= m.stack + m.locals);
            assert(encoding::enc_header(m) + encoding::enc_locs(all.take(0)) =~= encoding::enc_header(
                m,
            ));
        }
        let mut idx: usize = 0;
        while idx < self.locs.len()
            invariant
                self.wf(),
                idx <= self.locs@.len(),
                all == locs_model(self.locs@, self.imms@),
                enc.out@ == encoding::enc_header(m) + encoding::enc_locs(all.take(idx as int)),
            decreases self.locs@.len() - idx,
        {
            let ghost before = enc.out@;
            enc.loc(self.locs[idx], self.imms.as_slice());
            idx = idx + 1;
            proof {
                let now = all.take(idx as int);
                assert(now.drop_last() =~= all.take(idx - 1));
                assert(enc.out@ =~= encoding::enc_header(m) + encoding::enc_locs(now));
            }
        }
        assert(all.take(idx as int) =~= all);
        let ghost with_locs = enc.out@;
        if let Some(stack_map) = self.stack_map() {
            let ghost map = m.stack_map.unwrap();
            enc.u64(stack_map.jit_frame);
            enc.svarint(stack_map.jit_frame_slot as i64);
            enc.varint(stack_map.captures.len() as u64);
            let ghost head = enc.out@;
            assert(head + encoding::enc_captures(map.captures.take(0)) =~= head);
            let mut idx: usize = 0;
            while idx < stack_map.captures.len()
                invariant
                    captures_valid(stack_map.captures@, self.imms@),
                    idx <= stack_map.captures@.len(),
                    map.captures == captures_model(stack_map.captures@, self.imms@),
                    enc.out@ == head + encoding::enc_captures(map.captures.take(idx as int)),
                decreases stack_map.captures@.len() - idx,
            {
                let ghost before = enc.out@;
                let (loc, slot) = stack_map.captures[idx];
                enc.loc(loc, self.imms.as_slice());
                enc.svarint(slot as i64);
                idx = idx + 1;
                proof {
                    let now = map.captures.take(idx as int);
                    assert(now.drop_last() =~= map.captures.take(idx - 1));
                    assert(enc.out@ =~= head + encoding::enc_captures(now));
                }
            }
            proof {
                assert(map.captures.take(idx as int) =~= map.captures);
                assert(enc.out@ =~= with_locs + encoding::enc_stack_map(map));
            }
        }
        if let Some(reason) = self.trace_reason() {
            enc.u64(reason);
        }
        assert(enc.out@ =~= encoding::enc_desc(m));
        enc.out
    }

    /// Return all locations: stack, locals and stack-map captures.
    pub fn all_locs(&self) -> (r: Vec<ExitLoc>)
        ensures
            r@ == self.locs@ + match self.spec_stack_map() {
                Some(map) => map.captures@.map_values(|c: (ExitLoc, i32)| c.0),
                None => Seq::empty(),
            },
    {
        let mut all: Vec<ExitLoc> = Vec::new();
        all.extend_from_slice(self.locs.as_slice());
        assert(all@ =~= self.locs@);
        if let Some(stack_map) = self.stack_map() {
            let ghost firsts = stack_map.captures@.map_values(|c: (ExitLoc, i32)| c.0);
            let mut idx: usize = 0;
            while idx < stack_map.captures.len()
                invariant
                    idx <= stack_map.captures@.len(),
                    firsts == stack_map.captures@.map_values(|c: (ExitLoc, i32)| c.0),
                    all@ == self.locs@ + firsts.take(idx as int),
                decreases stack_map.captures@.len() - idx,
            {
                all.push(stack_map.captures[idx].0);
                idx = idx + 1;
                assert(firsts.take(idx as int) =~= firsts.take(idx - 1).push(firsts[idx - 1]));
            }
            assert(firsts.take(idx as int) =~= firsts);
        }
        all
    }

    pub fn has_stack_map(&self) -> (r: bool)
        ensures
            r == self.spec_stack_map() is Some,
    {
        self.stack_map().is_some()
    }

    pub fn has_trace_reason(&self) -> (r: bool)
        ensures
            r == self.spec_trace_reason() is Some,
    {
        self.trace_reason().is_some()
    }

    /// Resolve an immediate location.
    pub fn imm_value(&self, loc: ExitLoc) -> (r: Option<u64>)
        requires
            encoding::loc_in_range(loc, self.imms@.len()),
        ensures
            r == match encoding::loc_model(loc, self.imms@) {
                LocModel::SmallImm(imm) => Some(sign_extend(imm)),
                LocModel::Imm(word) => Some(word),
                LocModel::Value(word) => Some(word),
                _ => None,
            },
    {
        match loc {
            ExitLoc::SmallImm(imm) => Some(widen(imm)),
            ExitLoc::Imm(idx) => Some(self.imms[idx as usize]),
            ExitLoc::Value(idx) => Some(self.imms[idx as usize]),
            _ => None,
        }
    }
}

} // verus!
