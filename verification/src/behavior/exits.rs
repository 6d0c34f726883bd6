//! What a registered side exit does when it is taken.

use vstd::prelude::*;

use crate::assembler::code_block::CodeBlock;
use crate::cruby::VALUE;
use crate::exit_desc::descriptor::{ExitDescriptor, ExitStackMap};
use crate::exit_desc::encoding;
use crate::exit_desc::encoding::{DescModel, ExitLoc, LocModel};
use crate::exit_desc::fields;
use crate::exit_desc::gc;
use crate::exit_desc::laws;
use crate::exit_desc::plan;
use crate::exit_desc::plan::{ExitError, ExitPlan, ExitRegs, Source};
use crate::exit_desc::relocate;
use crate::exit_desc::table;
use crate::exit_desc::table::ExitDescriptorTable;
use crate::stats::Counters;
use crate::virtualmem::CodePtr;

verus! {

/// A descriptor registered for a code offset is found by the address that many bytes above the
/// code's base, modulo 2^64, at the offset where the table ended. Any other address leads where it
/// led before.
pub proof fn law_registered_address(
    before: &ExitDescriptorTable,
    t: &mut ExitDescriptorTable,
    off: u32,
    encoded: &[u8],
    counters: &mut Counters,
    after: &ExitDescriptorTable,
    end: u32,
    ret_addr: u64,
    was: Option<u32>,
    r: Option<u32>,
)
    requires
        before.wf(),
        before.bytes@.len() <= u32::MAX,
        call_ensures(ExitDescriptorTable::len, (before,), end),
        call_ensures(ExitDescriptorTable::lookup, (before, ret_addr), was),
        *t == *before,
        call_ensures(ExitDescriptorTable::register, (t, off, encoded, counters), ()),
        *after == *final(t),
        call_ensures(ExitDescriptorTable::lookup, (after, ret_addr), r),
    ensures
        ret_addr == (before.code_base_addr + off) % 0x1_0000_0000_0000_0000 ==> r == Some(end) && r
            == Some(before.bytes@.len() as u32),
        ret_addr != (before.code_base_addr + off) % 0x1_0000_0000_0000_0000 ==> r == was,
        after.code_base_addr == before.code_base_addr,
        after.bytes@ == before.bytes@ + encoded@,
        final(counters).exit_descriptor_count == old(counters).exit_descriptor_count.wrapping_add(
            1,
        ),
        final(counters).exit_descriptor_bytes == old(counters).exit_descriptor_bytes.wrapping_add(
            encoded@.len() as u64,
        ).wrapping_add(vstd::layout::size_of::<(u32, u32)>() as u64),
        final(counters).bg_compile_count == old(counters).bg_compile_count,
{
}

/// A table without entries leads nowhere.
pub proof fn law_empty_table(t: &ExitDescriptorTable, ret_addr: u64, r: Option<u32>)
    requires
        call_ensures(<ExitDescriptorTable as Default>::default, (), *t),
        call_ensures(ExitDescriptorTable::lookup, (t, ret_addr), r),
    ensures
        r is None,
{
}

/// An address leads to a descriptor only if the code's base is at most 2^32 - 1 bytes below it,
/// modulo 2^64, and an entry is for just that distance. It leads where that entry says.
pub proof fn law_lookup_finds_the_entry(t: &ExitDescriptorTable, ret_addr: u64, r: Option<u32>)
    requires
        t.wf(),
        call_ensures(ExitDescriptorTable::lookup, (t, ret_addr), r),
    ensures
        r is Some <==> exists|k: int|
            0 <= k < t.ret_addrs@.len() && ret_addr == (t.code_base_addr + (
            #[trigger] t.ret_addrs@[k]).0) % 0x1_0000_0000_0000_0000,
        forall|k: int|
            0 <= k < t.ret_addrs@.len() && ret_addr == (t.code_base_addr + (
            #[trigger] t.ret_addrs@[k]).0) % 0x1_0000_0000_0000_0000 ==> r == Some(
                t.ret_addrs@[k].1,
            ),
{
    let s = t.ret_addrs@;
    assert forall|k: int|
        0 <= k < s.len() && ret_addr == (t.code_base_addr + (#[trigger] s[k]).0)
            % 0x1_0000_0000_0000_0000 implies r == Some(s[k].1) by {
        assert(table::code_offset(ret_addr, t.code_base_addr) == Some(s[k].0));
        table::lemma_entry(s, k);
    }
    if r is Some {
        let off = table::code_offset(ret_addr, t.code_base_addr).unwrap();
        assert(table::listed(s, off));
        let k = choose|k: int| 0 <= k < s.len() && (#[trigger] s[k]).0 == off;
        assert(ret_addr == (t.code_base_addr + s[k].0) % 0x1_0000_0000_0000_0000);
    }
}

/// Whether a side exit can load a location, with `num_regs` registers saved.
pub open spec fn loadable(loc: ExitLoc, num_regs: nat) -> bool {
    match loc {
        ExitLoc::Reg { reg, bits } => reg < num_regs && 0 < bits <= 64,
        ExitLoc::NativeSlot { bits, .. } => bits == 8 || bits == 16 || bits == 32 || bits == 64,
        ExitLoc::Mem { base, bits, .. } => base < num_regs && (bits == 8 || bits == 16 || bits == 32
            || bits == 64),
        ExitLoc::StackIndirect { bits, .. } => bits == 8 || bits == 16 || bits == 32 || bits == 64,
        _ => true,
    }
}

/// What an object reference is once objects have moved: heap objects are where `to` says, and
/// anything else is what it was.
pub open spec fn moved(word: u64, to: spec_fn(u64) -> u64) -> u64 {
    if word % 8 == 0 && word != 0 {
        to(word)
    } else {
        word
    }
}

/// Whether loading `source` gives what is at `loc`, once objects have moved as `to` says.
pub open spec fn loads(
    source: Source,
    loc: ExitLoc,
    imms: Seq<u64>,
    to: spec_fn(u64) -> u64,
    regs: Seq<u64>,
    native_base: u64,
) -> bool {
    match loc {
        ExitLoc::Reg { reg, bits } => source matches Source::Word(word) && word == regs[reg as int]
            as nat % vstd::arithmetic::power2::pow2(bits as nat),
        ExitLoc::NativeSlot { disp, bits } => source matches Source::Mem { addr, bits: b } && b
            == bits && addr == (native_base + disp) % 0x1_0000_0000_0000_0000,
        ExitLoc::Mem { base, bits, disp } => source matches Source::Mem { addr, bits: b } && b
            == bits && addr == (regs[base as int] + disp) % 0x1_0000_0000_0000_0000,
        ExitLoc::StackIndirect { slot, disp, bits } => source matches Source::Indirect {
            slot_addr,
            disp: d,
            bits: b,
        } && b == bits && d == disp && slot_addr == (native_base + slot) % 0x1_0000_0000_0000_0000,
        ExitLoc::SmallImm(imm) => source matches Source::Word(word) && word == imm as int
            % 0x1_0000_0000_0000_0000,
        ExitLoc::Imm(idx) => source == Source::Word(imms[idx as int]),
        ExitLoc::Value(idx) => source == Source::Word(moved(imms[idx as int], to)),
    }
}

/// The stack map of a descriptor, if it has one.
pub open spec fn stack_map_of(desc: ExitDescriptor) -> Option<ExitStackMap> {
    match desc.extra {
        Some(extra) => extra.stack_map,
        None => None,
    }
}

/// Whether a side exit can load everything that `desc` lists.
pub open spec fn exit_loadable(desc: ExitDescriptor, num_regs: nat) -> bool {
    &&& forall|i: int| 0 <= i < desc.locs@.len() ==> loadable(#[trigger] desc.locs@[i], num_regs)
    &&& stack_map_of(desc) matches Some(map) ==> forall|i: int|
        0 <= i < map.captures@.len() ==> loadable((#[trigger] map.captures@[i]).0, num_regs)
}

/// Whether `plan` leaves the frame as `desc` says, with the registers as they were saved and
/// objects moved as `to` says. Each stack slot, each local, each capture and the JITFrame has its
/// own store, in that order.
pub open spec fn restores(
    plan: ExitPlan,
    desc: ExitDescriptor,
    to: spec_fn(u64) -> u64,
    regs: Seq<u64>,
    cfp: u64,
    sp: u64,
    native_base: u64,
) -> bool {
    let n = desc.num_stack as int;
    let locals = desc.locs@.len() - n;
    &&& plan.cfp == cfp
    &&& plan.pc == desc.pc
    &&& plan.sp == (sp + 8 * n) % 0x1_0000_0000_0000_0000
    &&& plan.iseq == to(desc.iseq)
    &&& plan.recompile == to(desc.recompile)
    &&& plan.trace_reason == match desc.extra {
        Some(extra) => extra.trace_reason,
        None => None,
    }
    &&& plan.clear_jit_return <==> plan.trace_reason is Some || plan.recompile != 0
    &&& plan.stores@.len() == desc.locs@.len() + match stack_map_of(desc) {
        Some(map) => map.captures@.len() + 1,
        None => 0,
    }
    &&& forall|i: int|
        0 <= i < n ==> (#[trigger] plan.stores@[i]).dst == (sp + 8 * i) % 0x1_0000_0000_0000_0000
            && loads(plan.stores@[i].source, desc.locs@[i], desc.imms@, to, regs, native_base)
    &&& forall|i: int|
        n <= i < n + locals ==> (#[trigger] plan.stores@[i]).dst == (sp - 8 * (locals + 3) + 8 * (i
            - n)) % 0x1_0000_0000_0000_0000 && loads(
            plan.stores@[i].source,
            desc.locs@[i],
            desc.imms@,
            to,
            regs,
            native_base,
        )
    &&& stack_map_of(desc) matches Some(map) ==> {
        &&& forall|i: int|
            n + locals <= i < n + locals + map.captures@.len() ==> (#[trigger] plan.stores@[i]).dst
                == (native_base + map.captures@[i - n - locals].1) % 0x1_0000_0000_0000_0000
                && loads(
                plan.stores@[i].source,
                map.captures@[i - n - locals].0,
                desc.imms@,
                to,
                regs,
                native_base,
            )
        &&& plan.stores@.last().dst == (native_base + map.jit_frame_slot)
            % 0x1_0000_0000_0000_0000
        &&& plan.stores@.last().source == Source::Word(map.jit_frame)
    }
}

/// A location of a descriptor is loaded from where it is.
proof fn lemma_loads(
    loc: ExitLoc,
    imms: Seq<u64>,
    to: spec_fn(u64) -> u64,
    regs: Seq<u64>,
    native_base: u64,
)
    ensures
        ({
            let model = relocate::moved_loc(encoding::loc_model(loc, imms), to);
            let source = plan::loc_source(model, regs, native_base);
            &&& source is Some <==> loadable(loc, regs.len())
            &&& source matches Some(s) ==> loads(s, loc, imms, to, regs, native_base)
        }),
{
    reveal(plan::wrap);
    if let ExitLoc::Reg { reg, bits } = loc {
        if reg < regs.len() && 0 < bits <= 64 {
            vstd::arithmetic::power2::lemma_pow2_pos(bits as nat);
            vstd::arithmetic::div_mod::lemma_mod_decreases(
                regs[reg as int] as nat,
                vstd::arithmetic::power2::pow2(bits as nat),
            );
        }
    }
}

/// Where nothing has moved, a descriptor says what it said.
proof fn lemma_unmoved(m: DescModel, to: spec_fn(u64) -> u64)
    requires
        forall|word: u64| #[trigger] to(word) == word,
    ensures
        relocate::moved_desc(m, to) == m,
{
    assert(relocate::moved_locs(m.stack, to) =~= m.stack);
    assert(relocate::moved_locs(m.locals, to) =~= m.locals);
    if let Some(map) = m.stack_map {
        assert(relocate::moved_captures(map.captures, to) =~= map.captures);
    }
}

/// The stores that a descriptor calls for.
proof fn lemma_restores(
    plan: ExitPlan,
    desc: ExitDescriptor,
    to: spec_fn(u64) -> u64,
    regs: Seq<u64>,
    cfp: u64,
    sp: u64,
    native_base: u64,
)
    requires
        desc.wf(),
        exit_loadable(desc, regs.len()),
        plan.cfp == cfp,
        plan.pc == desc.pc,
        plan.sp == plan::wrap(sp + 8 * desc.num_stack),
        plan.iseq == to(desc.iseq),
        plan.recompile == to(desc.recompile),
        plan.trace_reason == desc.model().trace_reason,
        plan.clear_jit_return == (plan.trace_reason is Some || plan.recompile != 0),
        plan.stores@ == plan::model_stores(
            relocate::moved_desc(desc.model(), to),
            sp,
            native_base,
            regs,
        ),
    ensures
        restores(plan, desc, to, regs, cfp, sp, native_base),
{
    reveal(plan::wrap);
    let m = relocate::moved_desc(desc.model(), to);
    let n = desc.num_stack as int;
    let all = m.stack + m.locals;
    assert(all.len() == desc.locs@.len());
    assert forall|i: int| 0 <= i < desc.locs@.len() implies all[i] == relocate::moved_loc(
        encoding::loc_model(#[trigger] desc.locs@[i], desc.imms@),
        to,
    ) by {
        if i < n {
            assert(desc.locs@.take(n)[i] == desc.locs@[i]);
        } else {
            assert(desc.locs@.skip(n)[i - n] == desc.locs@[i]);
        }
    }
    assert forall|i: int| 0 <= i < desc.locs@.len() implies loads(
        (#[trigger] plan.stores@[i]).source,
        desc.locs@[i],
        desc.imms@,
        to,
        regs,
        native_base,
    ) by {
        lemma_loads(desc.locs@[i], desc.imms@, to, regs, native_base);
    }
    if let Some(map) = stack_map_of(desc) {
        let count = desc.locs@.len() as int;
        assert forall|i: int| count <= i < count + map.captures@.len() implies (
        #[trigger] plan.stores@[i]).dst == (native_base + map.captures@[i - count].1)
            % 0x1_0000_0000_0000_0000 && loads(
            plan.stores@[i].source,
            map.captures@[i - count].0,
            desc.imms@,
            to,
            regs,
            native_base,
        ) by {
            lemma_loads(map.captures@[i - count].0, desc.imms@, to, regs, native_base);
        }
    }
}

/// Taking an exit whose descriptor was registered: at the address that many bytes above the code's
/// base, modulo 2^64, the exit restores just what the descriptor says. There is no plan only if
/// the descriptor lists something that cannot be loaded.
pub proof fn law_registered_exit(
    desc: &ExitDescriptor,
    bytes: Vec<u8>,
    encoded: &[u8],
    t: &mut ExitDescriptorTable,
    off: u32,
    counters: &mut Counters,
    after: &ExitDescriptorTable,
    regs: &[u64],
    exit_regs: ExitRegs,
    ret_addr: u64,
    r: Result<ExitPlan, ExitError>,
)
    requires
        desc.wf(),
        call_ensures(ExitDescriptor::encode, (desc,), bytes),
        encoded@ == bytes@,
        t.wf(),
        t.bytes@.len() <= u32::MAX,
        call_ensures(ExitDescriptorTable::register, (t, off, encoded, counters), ()),
        *after == *final(t),
        ret_addr == (t.code_base_addr + off) % 0x1_0000_0000_0000_0000,
        call_ensures(
            plan::rb_zjit_side_exit_descriptor,
            (after, regs, exit_regs, ret_addr),
            r,
        ),
    ensures
        r is Ok <==> exit_loadable(*desc, regs@.len()),
        r matches Err(e) ==> e == ExitError::BadLocation,
        r matches Ok(plan) ==> restores(
            plan,
            *desc,
            |word: u64| word,
            regs@,
            regs@[exit_regs.cfp as int],
            regs@[exit_regs.sp as int],
            regs@[exit_regs.native_base as int],
        ),
{
    let m = desc.model();
    let same = |word: u64| word;
    let pos = t.bytes@.len() as int;
    let sp = regs@[exit_regs.sp as int];
    let native_base = regs@[exit_regs.native_base as int];
    assert(after.spec_lookup(ret_addr) == Some(pos as u32));
    assert(after.bytes@.subrange(pos, pos + encoding::enc_desc(m).len()) =~= encoding::enc_desc(m));
    laws::law_desc_round_trip(after.bytes@, pos, m);
    lemma_unmoved(m, same);
    lemma_decoded_exit(*desc, same, after.bytes@, pos, sp, native_base, regs@);
    if let Ok(plan) = r {
        lemma_restores(plan, *desc, same, regs@, regs@[exit_regs.cfp as int], sp, native_base);
    }
}

/// What a decoded descriptor says of the exit.
proof fn lemma_decoded_exit(
    desc: ExitDescriptor,
    to: spec_fn(u64) -> u64,
    bytes: Seq<u8>,
    pos: int,
    sp: u64,
    native_base: u64,
    regs: Seq<u64>,
)
    requires
        desc.wf(),
        bytes.len() <= usize::MAX,
        encoding::parse_desc(bytes, pos) matches Some((d, _)) && encoding::decoded_model(bytes, d)
            == relocate::moved_desc(desc.model(), to) && laws::slots_match(
            d,
            relocate::moved_desc(desc.model(), to),
        ),
    ensures
        encoding::parse_desc(bytes, pos) matches Some((d, _)) && {
            &&& d.header.num_stack == desc.num_stack
            &&& plan::exit_stores(bytes, d, sp, native_base, regs) == plan::model_stores(
                relocate::moved_desc(desc.model(), to),
                sp,
                native_base,
                regs,
            )
            &&& plan::readable(bytes, d, regs) <==> exit_loadable(desc, regs.len())
        },
{
    let m = relocate::moved_desc(desc.model(), to);
    fields::lemma_value_span(bytes, pos);
    let (d, _) = encoding::parse_desc(bytes, pos).unwrap();
    let n = desc.num_stack as int;
    let all = encoding::decoded_locs_model(bytes, d.locs);
    let got = encoding::decoded_model(bytes, d);
    assert(got.stack.len() == d.header.num_stack);
    assert(m.stack.len() == n);
    assert(all =~= got.stack + got.locals);
    assert forall|i: int| 0 <= i < desc.locs@.len() implies (plan::loc_source(
        #[trigger] all[i],
        regs,
        0,
    ) is Some <==> loadable(desc.locs@[i], regs.len())) by {
        if i < n {
            assert(desc.locs@.take(n)[i] == desc.locs@[i]);
        } else {
            assert(desc.locs@.skip(n)[i - n] == desc.locs@[i]);
        }
        lemma_loads(desc.locs@[i], desc.imms@, to, regs, 0);
    }
    assert(all.len() == desc.locs@.len());
    assert(plan::locs_readable(all, regs) <==> forall|i: int|
        0 <= i < desc.locs@.len() ==> loadable(#[trigger] desc.locs@[i], regs.len())) by {
        if plan::locs_readable(all, regs) {
            assert forall|i: int| 0 <= i < desc.locs@.len() implies loadable(
                #[trigger] desc.locs@[i],
                regs.len(),
            ) by {
                assert(plan::loc_source(all[i], regs, 0) is Some);
            }
        }
    }
    if let Some(map) = stack_map_of(desc) {
        let dm = d.stack_map.unwrap();
        let want = m.stack_map.unwrap();
        let caps = plan::capture_locs(bytes, dm.captures);
        assert(caps.len() == map.captures@.len());
        assert forall|i: int| 0 <= i < map.captures@.len() implies #[trigger] caps[i]
            == want.captures[i].0 && (plan::loc_source(caps[i], regs, 0) is Some <==> loadable(
            map.captures@[i].0,
            regs.len(),
        )) by {
            assert(encoding::decoded_captures_model(bytes, dm.captures)[i] == want.captures[i]);
            lemma_loads(map.captures@[i].0, desc.imms@, to, regs, 0);
        }
        if plan::locs_readable(caps, regs) {
            assert forall|i: int| 0 <= i < map.captures@.len() implies loadable(
                (#[trigger] map.captures@[i]).0,
                regs.len(),
            ) by {
                assert(plan::loc_source(caps[i], regs, 0) is Some);
            }
        }
        assert(caps =~= want.captures.map_values(|c: (LocModel, i32)| c.0));
        assert(Seq::new(dm.captures.len(), |i: int| dm.captures[i].1)
            =~= want.captures.map_values(|c: (LocModel, i32)| c.1 as i64));
    }
    assert(plan::exit_stores(bytes, d, sp, native_base, regs) =~= plan::model_stores(
        m,
        sp,
        native_base,
        regs,
    ));
}

/// No exit can be taken at an address that no descriptor was registered for, and every address
/// that one was registered for leads to an exit or to a location that cannot be loaded.
pub proof fn law_unregistered_exit(
    t: &ExitDescriptorTable,
    regs: &[u64],
    exit_regs: ExitRegs,
    ret_addr: u64,
    found: Option<u32>,
    r: Result<ExitPlan, ExitError>,
)
    requires
        t.wf(),
        call_ensures(ExitDescriptorTable::lookup, (t, ret_addr), found),
        call_ensures(plan::rb_zjit_side_exit_descriptor, (t, regs, exit_regs, ret_addr), r),
    ensures
        (r matches Err(e) && e == ExitError::NoDescriptor) <==> found is None,
{
}

/// After compaction, the exit restores what the descriptor says, with each object where it has
/// gone. What is not a heap object stays what it was, whatever its word.
pub proof fn law_exit_after_compaction<F: Fn(VALUE) -> VALUE>(
    desc: &ExitDescriptor,
    bytes: Vec<u8>,
    encoded: &[u8],
    t: &mut ExitDescriptorTable,
    off: u32,
    counters: &mut Counters,
    u: &mut ExitDescriptorTable,
    range: &std::ops::Range<u32>,
    locate: F,
    to: spec_fn(u64) -> u64,
    after: &ExitDescriptorTable,
    regs: &[u64],
    exit_regs: ExitRegs,
    ret_addr: u64,
    r: Result<ExitPlan, ExitError>,
)
    requires
        desc.wf(),
        call_ensures(ExitDescriptor::encode, (desc,), bytes),
        encoded@ == bytes@,
        t.wf(),
        t.bytes@.len() <= u32::MAX,
        call_ensures(ExitDescriptorTable::register, (t, off, encoded, counters), ()),
        *u == *final(t),
        range.start == t.bytes@.len(),
        range.end == u.bytes@.len(),
        call_ensures(gc::update_references::<F>, (u, range, locate), ()),
        to(0) == 0,
        forall|object: VALUE, moved: VALUE|
            object.0 != 0 && #[trigger] call_ensures(locate, (object,), moved) ==> moved.0 == to(
                object.0,
            ),
        *after == *final(u),
        ret_addr == (t.code_base_addr + off) % 0x1_0000_0000_0000_0000,
        call_ensures(
            plan::rb_zjit_side_exit_descriptor,
            (after, regs, exit_regs, ret_addr),
            r,
        ),
    ensures
        r is Ok <==> exit_loadable(*desc, regs@.len()),
        r matches Err(e) ==> e == ExitError::BadLocation,
        r matches Ok(plan) ==> restores(
            plan,
            *desc,
            to,
            regs@,
            regs@[exit_regs.cfp as int],
            regs@[exit_regs.sp as int],
            regs@[exit_regs.native_base as int],
        ),
{
    let m = desc.model();
    let pos = t.bytes@.len() as int;
    let sp = regs@[exit_regs.sp as int];
    let native_base = regs@[exit_regs.native_base as int];
    let before = u.bytes@;
    let end = before.len() as int;
    table::law_append_descriptor(t.bytes@, pos, m);
    table::law_append_descriptor(t.bytes@, 0, m);
    let ds = encoding::parse_descs(before, pos, end).unwrap();
    let d = encoding::parse_desc(before, pos).unwrap().0;
    assert(before.subrange(pos, pos + encoding::enc_desc(m).len()) =~= encoding::enc_desc(m));
    laws::law_desc_round_trip(before, pos, m);
    assert(encoding::parse_descs(t.bytes@, pos, pos)
        == Some(Seq::<encoding::DecodedDesc>::empty()));
    assert(ds =~= seq![d]);
    let object_fields = fields::objects_fields(before, ds);
    let words = choose|words: Seq<u64>| #[trigger]
        gc::located(before, object_fields, locate, words) && after.bytes@ == relocate::patch_fields(
            before,
            object_fields,
            words,
        );
    gc::law_update_references(before, *range, locate, words, to);
    let models = encoding::decoded_models(before, ds);
    assert(models[0] == m);
    assert(encoding::decoded_models(after.bytes@, ds)[0] == relocate::moved_descs(models, to)[0]);
    assert(encoding::parse_descs(after.bytes@, pos, end) == Some(ds));
    assert(encoding::parse_desc(after.bytes@, pos).unwrap().0 == ds[0]);
    assert(after.spec_lookup(ret_addr) == Some(pos as u32));
    lemma_decoded_exit(*desc, to, after.bytes@, pos, sp, native_base, regs@);
    if let Ok(plan) = r {
        lemma_restores(plan, *desc, to, regs@, regs@[exit_regs.cfp as int], sp, native_base);
    }
}

/// Registering another descriptor changes nothing about the exits that were registered before,
/// except at its own address.
pub proof fn law_other_exits_stay(
    before: &ExitDescriptorTable,
    regs: &[u64],
    exit_regs: ExitRegs,
    ret_addr: u64,
    was: Result<ExitPlan, ExitError>,
    desc: &ExitDescriptor,
    bytes: Vec<u8>,
    encoded: &[u8],
    t: &mut ExitDescriptorTable,
    off: u32,
    counters: &mut Counters,
    after: &ExitDescriptorTable,
    is: Result<ExitPlan, ExitError>,
)
    requires
        before.wf(),
        before.bytes@.len() <= u32::MAX,
        desc.wf(),
        call_ensures(ExitDescriptor::encode, (desc,), bytes),
        encoded@ == bytes@,
        call_ensures(
            plan::rb_zjit_side_exit_descriptor,
            (before, regs, exit_regs, ret_addr),
            was,
        ),
        *t == *before,
        call_ensures(ExitDescriptorTable::register, (t, off, encoded, counters), ()),
        *after == *final(t),
        ret_addr != (before.code_base_addr + off) % 0x1_0000_0000_0000_0000,
        call_ensures(plan::rb_zjit_side_exit_descriptor, (after, regs, exit_regs, ret_addr), is),
    ensures
        was is Ok <==> is is Ok,
        was is Err ==> was->Err_0 == is->Err_0,
        was is Ok ==> {
            let p = was->Ok_0;
            let q = is->Ok_0;
            &&& p.cfp == q.cfp
            &&& p.pc == q.pc
            &&& p.sp == q.sp
            &&& p.iseq == q.iseq
            &&& p.stores@ == q.stores@
            &&& p.clear_jit_return == q.clear_jit_return
            &&& p.trace_reason == q.trace_reason
            &&& p.recompile == q.recompile
        },
{
    let m = desc.model();
    assert(after.spec_lookup(ret_addr) == before.spec_lookup(ret_addr));
    if let Some(at) = before.spec_lookup(ret_addr) {
        let pos = at as int;
        let b1 = before.bytes@;
        let b2 = after.bytes@;
        let offset = table::code_offset(ret_addr, before.code_base_addr).unwrap();
        assert(table::listed(before.ret_addrs@, offset));
        let k = choose|k: int|
            0 <= k < before.ret_addrs@.len() && (#[trigger] before.ret_addrs@[k]).0 == offset;
        table::lemma_entry(before.ret_addrs@, k);
        assert(fields::boundary(b1, pos));
        table::law_append_descriptor(b1, pos, m);
        let end = b1.len() as int;
        let ds = encoding::parse_descs(b1, pos, end).unwrap();
        let (d1, _) = encoding::parse_desc(b1, pos).unwrap();
        let (d2, _) = encoding::parse_desc(b2, pos).unwrap();
        assert(ds[0] == d1);
        assert(ds[0] == d2);
        assert(encoding::decoded_models(b1, ds)[0] == encoding::decoded_models(b2, ds)[0]);
        fields::lemma_value_span(b1, pos);
        let m1 = encoding::decoded_model(b1, d1);
        let m2 = encoding::decoded_model(b2, d1);
        let n = d1.header.num_stack as int;
        assert(encoding::decoded_locs_model(b1, d1.locs) =~= m1.stack + m1.locals);
        assert(encoding::decoded_locs_model(b2, d1.locs) =~= m2.stack + m2.locals);
        if let Some(map) = d1.stack_map {
            let c1 = encoding::decoded_captures_model(b1, map.captures);
            let c2 = encoding::decoded_captures_model(b2, map.captures);
            assert(c1 == c2);
            assert(plan::capture_locs(b1, map.captures) =~= plan::capture_locs(b2, map.captures))
                by {
                assert forall|i: int| 0 <= i < map.captures.len() implies plan::capture_locs(
                    b1,
                    map.captures,
                )[i] == plan::capture_locs(b2, map.captures)[i] by {
                    assert(c1[i] == c2[i]);
                }
            }
        }
    }
}

/// A descriptor is registered only for code that is run: code in the same region as the code block
/// that is. It is then registered at the offset of the return address, counted from the region's
/// start. Nothing happens otherwise.
pub proof fn law_only_running_code_is_registered(
    before: &ExitDescriptorTable,
    t: &mut ExitDescriptorTable,
    running: Option<&CodeBlock>,
    ret_ptr: CodePtr,
    cb: &CodeBlock,
    encoded: &[u8],
    counters: &mut Counters,
    after: &ExitDescriptorTable,
    end: u32,
    ret_addr: u64,
    r: Option<u32>,
)
    requires
        before.wf(),
        before.bytes@.len() <= u32::MAX,
        call_ensures(table::next_offset, (before,), end),
        *t == *before,
        call_ensures(table::register, (t, running, ret_ptr, cb, encoded, counters), ()),
        *after == *final(t),
        ret_addr == (cb.mem_block.base_addr + ret_ptr.0) % 0x1_0000_0000_0000_0000,
        call_ensures(ExitDescriptorTable::lookup, (after, ret_addr), r),
    ensures
        end == before.bytes@.len(),
        ({
            let run = running is Some && running.unwrap().mem_block.base_addr
                == cb.mem_block.base_addr;
            &&& run ==> {
                &&& r == Some(end)
                &&& after.bytes@ == before.bytes@ + encoded@
                &&& after.code_base_addr == cb.mem_block.base_addr
                &&& final(counters).exit_descriptor_count == old(
                    counters,
                ).exit_descriptor_count.wrapping_add(1)
                &&& final(counters).exit_descriptor_bytes == old(
                    counters,
                ).exit_descriptor_bytes.wrapping_add(encoded@.len() as u64).wrapping_add(
                    vstd::layout::size_of::<(u32, u32)>() as u64,
                )
            }
            &&& !run ==> *final(t) == *old(t) && *final(counters) == *old(counters)
        }),
{
}

/// Compaction rewrites objects in the range that it is asked for, and nothing outside of it. No
/// descriptor moves.
pub proof fn law_compaction_stays_in_range<F: Fn(VALUE) -> VALUE>(
    t: &mut ExitDescriptorTable,
    range: &std::ops::Range<u32>,
    locate: F,
    i: int,
    before: &ExitDescriptorTable,
    after: &ExitDescriptorTable,
    ret_addr: u64,
    was: Option<u32>,
    is: Option<u32>,
)
    requires
        before.wf(),
        gc::is_range(before.bytes@, *range),
        *t == *before,
        call_ensures(gc::update_references::<F>, (t, range, locate), ()),
        *after == *final(t),
        call_ensures(ExitDescriptorTable::lookup, (before, ret_addr), was),
        call_ensures(ExitDescriptorTable::lookup, (after, ret_addr), is),
    ensures
        after.bytes@.len() == before.bytes@.len(),
        0 <= i < before.bytes@.len() && !(range.start <= i < range.end) ==> after.bytes@[i]
            == before.bytes@[i],
        is == was,
{
    let b = before.bytes@;
    let start = range.start as int;
    let end = range.end as int;
    fields::lemma_boundaries(b, start, end);
    relocate::lemma_objects_fields(b, start, end);
    let ds = encoding::parse_descs(b, start, end).unwrap();
    let found = fields::objects_fields(b, ds);
    let words = choose|words: Seq<u64>| #[trigger]
        gc::located(b, found, locate, words) && after.bytes@ == relocate::patch_fields(
            b,
            found,
            words,
        );
    relocate::lemma_patch_fields(b, found, words, start, end);
    if 0 <= i < b.len() && !(start <= i < end) {
        if fields::covered(found, i) {
            let k = choose|k: int|
                0 <= k < found.len() && (#[trigger] found[k]) <= i < found[k] + 8;
            assert(start <= found[k] && found[k] + 8 <= end);
        }
    }
}

} // verus!
