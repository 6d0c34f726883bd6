//! What taking a side exit does.
//!
//! The exit trampoline saves every general-purpose register and calls the exit handler
//! with that save area and the return address of the exit's call. The return address
//! identifies a descriptor, and the descriptor says what the handler does. Here that is
//! worked out as a plan: a list of loads and stores, in order. The handler carries it out.

use vstd::prelude::*;

use crate::cruby::IseqPtr;
use super::codec;
use super::codec::Decoder;
use super::descriptor;
use super::encoding;
use super::encoding::{DecodedDesc, DecodedHeader, DecodedLoc, DescModel, ExitLoc, LocModel};
use super::encoding::{FLAG_STACK_MAP, FLAG_TRACE};
use super::fields;
use super::laws;
use super::table;
use super::table::ExitDescriptorTable;

verus! {

/// Number of environment words between the locals and the stack of a Ruby frame.
pub const VM_ENV_DATA_SIZE: u64 = 3;

/// Which machine registers hold the frame pointer, the stack pointer and the native base.
#[derive(Clone, Copy, Debug, PartialEq, Eq, Structural)]
pub struct ExitRegs {
    pub cfp: u8,
    pub sp: u8,
    pub native_base: u8,
}

/// What a store of the plan writes.
#[derive(Clone, Copy, Debug, PartialEq, Eq, Structural)]
pub enum Source {
    /// This word.
    Word(u64),
    /// The `bits`-wide integer at `addr`, zero-extended.
    Mem { addr: u64, bits: u8 },
    /// The `bits`-wide integer, zero-extended, that is `disp` bytes from the address that
    /// the 64-bit word at `slot_addr` holds. Addresses wrap around.
    Indirect { slot_addr: u64, disp: i32, bits: u8 },
}

/// One store of the plan: load `source`, then write the 64-bit word to `dst`.
#[derive(Clone, Copy, Debug, PartialEq, Eq, Structural)]
pub struct ExitStore {
    pub dst: u64,
    pub source: Source,
}

/// What the exit handler does: restore the frame at `cfp`, perform `stores` in order, clear
/// the frame's JIT return if `clear_jit_return`, record a traced exit for `trace_reason`,
/// and count the exit towards recompiling `recompile` unless it is null.
pub struct ExitPlan {
    pub cfp: u64,
    pub pc: u64,
    pub sp: u64,
    pub iseq: IseqPtr,
    pub stores: Vec<ExitStore>,
    pub clear_jit_return: bool,
    pub trace_reason: Option<u64>,
    pub recompile: IseqPtr,
}

/// Why there is no plan for an exit.
#[derive(Clone, Copy, Debug, PartialEq, Eq, Structural)]
pub enum ExitError {
    /// No descriptor is registered for the return address.
    NoDescriptor,
    /// A location has a size that cannot be loaded or a register that was not saved.
    BadLocation,
}

/// An address, modulo 2^64.
#[verifier::opaque]
pub open spec fn wrap(addr: int) -> u64 {
    (addr % 0x1_0000_0000_0000_0000) as u64
}

/// Sizes of memory operands.
pub open spec fn size_ok(bits: u8) -> bool {
    bits == 64 || bits == 32 || bits == 16 || bits == 8
}

/// Where the value of a location comes from, given the saved registers. None if it cannot be
/// loaded.
pub open spec fn loc_source(m: LocModel, regs: Seq<u64>, native_base: u64) -> Option<Source> {
    match m {
        LocModel::Reg { reg, bits } => if reg < regs.len() && 1 <= bits <= 64 {
            Some(Source::Word((regs[reg as int] as nat % vstd::arithmetic::power2::pow2(bits as nat)) as u64))
        } else {
            None
        },
        LocModel::NativeSlot { disp, bits } => if size_ok(bits) {
            Some(Source::Mem { addr: wrap(native_base + disp), bits })
        } else {
            None
        },
        LocModel::Mem { base, bits, disp } => if base < regs.len() && size_ok(bits) {
            Some(Source::Mem { addr: wrap(regs[base as int] + disp), bits })
        } else {
            None
        },
        LocModel::StackIndirect { slot, disp, bits } => if size_ok(bits) {
            Some(Source::Indirect { slot_addr: wrap(native_base + slot), disp, bits })
        } else {
            None
        },
        LocModel::SmallImm(imm) => Some(Source::Word(descriptor::sign_extend(imm))),
        LocModel::Imm(word) => Some(Source::Word(word)),
        LocModel::Value(word) => Some(Source::Word(word)),
    }
}

/// Address of the `i`-th of `num_stack` stack slots and `num_locals` locals of the frame
/// whose stack starts at `sp`. Stack slots are at `sp` and up, locals end below the
/// environment data that precedes `sp`.
pub open spec fn slot_addr(sp: u64, num_stack: nat, num_locals: nat, i: int) -> u64 {
    if i < num_stack {
        wrap(sp + 8 * i)
    } else {
        wrap(sp + 8 * (i - num_stack - num_locals - 3))
    }
}

/// Offset of local `i` of `n` below the environment pointer.
pub open spec fn local_ep_offset(n: nat, i: int) -> int {
    n - i - 1 + 3
}

/// Local `i` is where the interpreter looks for it: `local_ep_offset(n, i)` slots below the
/// environment pointer, which is one slot below `sp`.
pub proof fn law_local_addr(sp: u64, num_stack: nat, n: nat, i: int)
    requires
        0 <= i < n,
    ensures
        slot_addr(sp, num_stack, n, num_stack + i) == wrap(
            (sp - 8) - 8 * local_ep_offset(n, i),
        ),
{
}

pub open spec fn locs_readable(ms: Seq<LocModel>, regs: Seq<u64>) -> bool {
    forall|i: int| 0 <= i < ms.len() ==> loc_source(#[trigger] ms[i], regs, 0) is Some
}

/// Whether every location of a descriptor can be loaded, given the saved registers.
pub open spec fn readable(bytes: Seq<u8>, d: DecodedDesc, regs: Seq<u64>) -> bool {
    &&& locs_readable(encoding::decoded_locs_model(bytes, d.locs), regs)
    &&& d.stack_map matches Some(map) ==> locs_readable(
        capture_locs(bytes, map.captures),
        regs,
    )
}

pub open spec fn capture_locs(bytes: Seq<u8>, captures: Seq<(DecodedLoc, i64)>) -> Seq<LocModel> {
    Seq::new(captures.len(), |i: int| encoding::decoded_loc_model(bytes, captures[i].0))
}

/// The stores of the stack slots and locals.
pub open spec fn loc_stores(
    ms: Seq<LocModel>,
    num_stack: nat,
    sp: u64,
    native_base: u64,
    regs: Seq<u64>,
) -> Seq<ExitStore> {
    Seq::new(
        ms.len(),
        |i: int|
            ExitStore {
                dst: slot_addr(sp, num_stack, (ms.len() - num_stack) as nat, i),
                source: loc_source(ms[i], regs, native_base).unwrap(),
            },
    )
}

/// The stores of captures `ms` into `slots`, which are offsets from the native base.
pub open spec fn capture_stores(
    ms: Seq<LocModel>,
    slots: Seq<i64>,
    native_base: u64,
    regs: Seq<u64>,
) -> Seq<ExitStore> {
    Seq::new(
        ms.len(),
        |i: int|
            ExitStore {
                dst: wrap(native_base + slots[i]),
                source: loc_source(ms[i], regs, native_base).unwrap(),
            },
    )
}

/// All stores of an exit: stack slots from the bottom up, locals, captures, and last the
/// JITFrame.
pub open spec fn exit_stores(
    bytes: Seq<u8>,
    d: DecodedDesc,
    sp: u64,
    native_base: u64,
    regs: Seq<u64>,
) -> Seq<ExitStore> {
    loc_stores(
        encoding::decoded_locs_model(bytes, d.locs),
        d.header.num_stack as nat,
        sp,
        native_base,
        regs,
    ) + match d.stack_map {
        Some(map) => capture_stores(
            capture_locs(bytes, map.captures),
            Seq::new(map.captures.len(), |i: int| map.captures[i].1),
            native_base,
            regs,
        ).push(
            ExitStore {
                dst: wrap(native_base + map.jit_frame_slot),
                source: Source::Word(map.jit_frame),
            },
        ),
        None => Seq::empty(),
    }
}

/// The stores that leave the frame as `m` says.
pub open spec fn model_stores(m: DescModel, sp: u64, native_base: u64, regs: Seq<u64>) -> Seq<
    ExitStore,
> {
    loc_stores(m.stack + m.locals, m.stack.len(), sp, native_base, regs) + match m.stack_map {
        Some(map) => capture_stores(
            map.captures.map_values(|c: (LocModel, i32)| c.0),
            map.captures.map_values(|c: (LocModel, i32)| c.1 as i64),
            native_base,
            regs,
        ).push(
            ExitStore {
                dst: wrap(native_base + map.jit_frame_slot),
                source: Source::Word(map.jit_frame),
            },
        ),
        None => Seq::empty(),
    }
}

/// `base` moved by `disp` bytes.
fn offset_addr(base: u64, disp: i64) -> (r: u64)
    ensures
        r == wrap(base + disp),
{
    proof {
        reveal(wrap);
    }
    base.wrapping_add_signed(disp)
}

/// The low `bits` bits of `word`.
fn low_bits(word: u64, bits: u8) -> (r: u64)
    requires
        1 <= bits <= 64,
    ensures
        r == word as nat % vstd::arithmetic::power2::pow2(bits as nat),
{
    proof {
        vstd::arithmetic::power2::lemma2_to64();
    }
    if bits == 64 {
        word
    } else {
        proof {
            vstd::arithmetic::power2::lemma_pow2_strictly_increases(bits as nat, 64);
            vstd::arithmetic::power2::lemma_pow2_pos(bits as nat);
            vstd::bits::lemma_u64_shl_is_mul(1, bits as u64);
        }
        word % (1u64 << (bits as u64))
    }
}

/// Where the value at `loc` comes from, given the register save area `regs`. None if it
/// cannot be loaded.
pub fn read_loc(loc: DecodedLoc, bytes: &[u8], regs: &[u64], native_base: u64) -> (r: Option<
    Source,
>)
    requires
        fields::resolved(loc),
        loc matches DecodedLoc::Value(field) ==> field + 8 <= bytes@.len(),
    ensures
        r == loc_source(encoding::decoded_loc_model(bytes@, loc), regs@, native_base),
{
    let loc = match loc {
        DecodedLoc::Loc(loc) => loc,
        DecodedLoc::Imm(imm) => {
            return Some(Source::Word(imm));
        },
        DecodedLoc::Value(field) => {
            return Some(Source::Word(codec::read_field(bytes, field)));
        },
    };
    match loc {
        ExitLoc::Reg { reg, bits } => {
            if (reg as usize) < regs.len() && 1 <= bits && bits <= 64 {
                Some(Source::Word(low_bits(regs[reg as usize], bits)))
            } else {
                None
            }
        },
        ExitLoc::NativeSlot { disp, bits } => {
            if bits == 64 || bits == 32 || bits == 16 || bits == 8 {
                Some(Source::Mem { addr: offset_addr(native_base, disp as i64), bits })
            } else {
                None
            }
        },
        ExitLoc::Mem { base, bits, disp } => {
            if (base as usize) < regs.len() && (bits == 64 || bits == 32 || bits == 16 || bits
                == 8) {
                Some(Source::Mem { addr: offset_addr(regs[base as usize], disp as i64), bits })
            } else {
                None
            }
        },
        ExitLoc::StackIndirect { slot, disp, bits } => {
            if bits == 64 || bits == 32 || bits == 16 || bits == 8 {
                Some(
                    Source::Indirect {
                        slot_addr: offset_addr(native_base, slot as i64),
                        disp,
                        bits,
                    },
                )
            } else {
                None
            }
        },
        ExitLoc::SmallImm(imm) => Some(Source::Word(descriptor::widen(imm))),
        ExitLoc::Imm(_) => None,
        ExitLoc::Value(_) => None,
    }
}

/// Where a location can be loaded does not depend on where the native base is.
proof fn lemma_source_base(m: LocModel, regs: Seq<u64>, native_base: u64)
    ensures
        loc_source(m, regs, native_base) is Some <==> loc_source(m, regs, 0) is Some,
{
}

/// Address of slot `i`, as [`slot_addr`] says.
fn slot_addr_of(sp: u64, num_stack: u64, num_locals: u64, i: u64) -> (r: u64)
    requires
        i < num_stack + num_locals <= u64::MAX,
    ensures
        r == slot_addr(sp, num_stack as nat, num_locals as nat, i as int),
{
    if i < num_stack {
        slots_up(sp, i)
    } else {
        let base: u64 = slots_down(slots_down(sp, num_locals), VM_ENV_DATA_SIZE);
        proof {
            lemma_wrap(sp - 8 * num_locals, 24);
            lemma_wrap(sp - 8 * num_locals - 24, 8 * (i - num_stack));
            lemma_wrap(base as int, 8 * (i - num_stack));
            assert(sp - 8 * num_locals - 24 + 8 * (i - num_stack) == sp + 8 * (i - num_stack
                - num_locals - 3));
        }
        slots_up(base, i - num_stack)
    }
}

/// Address `n` slots above `base`.
fn slots_up(base: u64, n: u64) -> (r: u64)
    ensures
        r == wrap(base + 8 * n),
{
    proof {
        reveal(wrap);
        lemma_wrap(base as int, 8 * n);
    }
    base.wrapping_add(n.wrapping_mul(8))
}

/// Address `n` slots below `base`.
fn slots_down(base: u64, n: u64) -> (r: u64)
    ensures
        r == wrap(base - 8 * n),
{
    proof {
        reveal(wrap);
        lemma_wrap(base as int, 8 * n);
    }
    base.wrapping_sub(n.wrapping_mul(8))
}

/// Addresses can be added and subtracted modulo 2^64.
proof fn lemma_wrap(a: int, b: int)
    ensures
        wrap(wrap(a) + wrap(b)) == wrap(a + b),
        wrap(wrap(a) - wrap(b)) == wrap(a - b),
        0 <= a <= u64::MAX ==> wrap(a) == a,
        0 <= b <= u64::MAX ==> wrap(b) == b,
{
    reveal(wrap);
    vstd::arithmetic::div_mod::lemma_add_mod_noop(a, b, 0x1_0000_0000_0000_0000);
    vstd::arithmetic::div_mod::lemma_sub_mod_noop(a, b, 0x1_0000_0000_0000_0000);
}

/// Add the stores of the stack slots and locals to `stores`. Returns false if one of them
/// cannot be loaded.
fn plan_locs(
    decoder: &mut Decoder,
    header: &DecodedHeader,
    sp: u64,
    native_base: u64,
    regs: &[u64],
    stores: &mut Vec<ExitStore>,
) -> (r: bool)
    requires
        old(decoder).pos <= old(decoder).bytes@.len() <= usize::MAX,
        encoding::parse_locs(
            old(decoder).bytes@,
            old(decoder).pos as int,
            (header.num_stack + header.num_locals) as nat,
        ) is Some,
        old(stores)@.len() == 0,
    ensures
        final(decoder).bytes == old(decoder).bytes,
        encoding::parse_locs(
            old(decoder).bytes@,
            old(decoder).pos as int,
            (header.num_stack + header.num_locals) as nat,
        ) matches Some((locs, end)) && {
            let ms = encoding::decoded_locs_model(old(decoder).bytes@, locs);
            &&& r <==> locs_readable(ms, regs@)
            &&& r ==> final(decoder).pos == end
            &&& r ==> final(stores)@ == loc_stores(
                ms,
                header.num_stack as nat,
                sp,
                native_base,
                regs@,
            )
        },
{
    let bytes = decoder.bytes;
    let ghost start = decoder.pos as int;
    let ghost total = (header.num_stack + header.num_locals) as nat;
    let len: usize = bytes.len();
    proof {
        fields::lemma_locs_span(bytes@, start, total);
    }
    let ghost locs = encoding::parse_locs(bytes@, start, total).unwrap().0;
    let ghost ms = encoding::decoded_locs_model(bytes@, locs);
    let ghost want = loc_stores(ms, header.num_stack as nat, sp, native_base, regs@);
    let count: u64 = header.num_stack + header.num_locals;
    let mut idx: u64 = 0;
    while idx < count
        invariant
            idx <= count == total,
            total == header.num_stack + header.num_locals,
            0 <= start <= bytes@.len() <= usize::MAX,
            decoder.bytes == bytes,
            bytes == old(decoder).bytes,
            start == old(decoder).pos,
            encoding::parse_locs(bytes@, start, total) matches Some((all, _)) && all == locs,
            locs.len() == total,
            ms == encoding::decoded_locs_model(bytes@, locs),
            want == loc_stores(ms, header.num_stack as nat, sp, native_base, regs@),
            encoding::parse_locs(bytes@, start, idx as nat) matches Some((_, end)) && decoder.pos
                == end,
            stores@ == want.take(idx as int),
            forall|i: int| 0 <= i < idx ==> loc_source(#[trigger] ms[i], regs@, 0) is Some,
        decreases count - idx,
    {
        proof {
            encoding::lemma_locs_prefix(bytes@, start, (idx + 1) as nat, total);
            encoding::lemma_locs_prefix(bytes@, start, idx as nat, total);
            fields::lemma_loc_span(bytes@, decoder.pos as int);
        }
        let loc: DecodedLoc = decoder.loc();
        proof {
            assert(locs.take(idx + 1)[idx as int] == locs[idx as int]);
            assert(loc == locs[idx as int]);
            if let DecodedLoc::Value(field) = loc {
                assert(fields::loc_fields(loc)[0] == field);
            }
            lemma_source_base(ms[idx as int], regs@, native_base);
        }
        match read_loc(loc, bytes, regs, native_base) {
            Some(source) => {
                let dst: u64 = slot_addr_of(sp, header.num_stack, header.num_locals, idx);
                stores.push(ExitStore { dst, source });
            },
            None => {
                return false;
            },
        }
        idx = idx + 1;
        assert(want.take(idx as int) =~= want.take(idx - 1).push(want[idx - 1]));
    }
    assert(want.take(idx as int) =~= want);
    true
}

/// Add the stores of a stack map to `stores`, if the descriptor has one. Returns false if a
/// capture cannot be loaded.
fn plan_stack_map(
    decoder: &mut Decoder,
    flags: u8,
    native_base: u64,
    regs: &[u64],
    stores: &mut Vec<ExitStore>,
) -> (r: bool)
    requires
        old(decoder).pos <= old(decoder).bytes@.len() <= usize::MAX,
        encoding::parse_stack_map(old(decoder).bytes@, old(decoder).pos as int, flags) is Some,
    ensures
        final(decoder).bytes == old(decoder).bytes,
        encoding::parse_stack_map(
            old(decoder).bytes@,
            old(decoder).pos as int,
            flags,
        ) matches Some((stack_map, end)) && {
            &&& r ==> final(decoder).pos == end
            &&& stack_map is None ==> r && final(stores)@ == old(stores)@
            &&& stack_map matches Some(map) ==> {
                let ms = capture_locs(old(decoder).bytes@, map.captures);
                let slots = Seq::new(map.captures.len(), |i: int| map.captures[i].1);
                &&& r <==> locs_readable(ms, regs@)
                &&& r ==> final(stores)@ == old(stores)@ + capture_stores(
                    ms,
                    slots,
                    native_base,
                    regs@,
                ).push(
                    ExitStore {
                        dst: wrap(native_base + map.jit_frame_slot),
                        source: Source::Word(map.jit_frame),
                    },
                )
            }
        },
{
    let bytes = decoder.bytes;
    let ghost pos = decoder.pos as int;
    let ghost before = stores@;
    proof {
        reveal(encoding::parse_stack_map);
    }
    if (flags / FLAG_STACK_MAP) % 2 == 1 {
        let jit_frame: u64 = decoder.u64();
        let jit_frame_slot: i64 = decoder.svarint();
        let ghost p2 = decoder.pos as int;
        let count: u64 = decoder.varint();
        let ghost start = decoder.pos as int;
        proof {
            fields::lemma_varint_n_end(bytes@, pos + 8, encoding::MAX_VARINT_LEN as nat);
            fields::lemma_varint_n_end(bytes@, p2, encoding::MAX_VARINT_LEN as nat);
            fields::lemma_captures_span(bytes@, start, count as nat);
        }
        let ghost captures = encoding::parse_captures(bytes@, start, count as nat).unwrap().0;
        let ghost ms = capture_locs(bytes@, captures);
        let ghost slots = Seq::new(captures.len(), |i: int| captures[i].1);
        let ghost want = capture_stores(ms, slots, native_base, regs@);
        let mut idx: u64 = 0;
        assert(before + want.take(0) =~= before);
        while idx < count
            invariant
                idx <= count,
                0 <= start <= bytes@.len() <= usize::MAX,
                decoder.bytes == bytes,
                bytes == old(decoder).bytes,
                encoding::parse_stack_map(bytes@, old(decoder).pos as int, flags) matches Some(
                    (Some(map), _),
                ) && map.captures == captures,
                encoding::parse_captures(bytes@, start, count as nat) matches Some((all, _)) && all
                    == captures,
                captures.len() == count,
                ms == capture_locs(bytes@, captures),
                slots == Seq::new(captures.len(), |i: int| captures[i].1),
                want == capture_stores(ms, slots, native_base, regs@),
                encoding::parse_captures(bytes@, start, idx as nat) matches Some((_, end))
                    && decoder.pos == end,
                stores@ == before + want.take(idx as int),
                forall|i: int| 0 <= i < idx ==> loc_source(#[trigger] ms[i], regs@, 0) is Some,
            decreases count - idx,
        {
            proof {
                encoding::lemma_captures_prefix(bytes@, start, (idx + 1) as nat, count as nat);
                encoding::lemma_captures_prefix(bytes@, start, idx as nat, count as nat);
                fields::lemma_loc_span(bytes@, decoder.pos as int);
            }
            let loc: DecodedLoc = decoder.loc();
            let slot: i64 = decoder.svarint();
            proof {
                assert(captures.take(idx + 1)[idx as int] == captures[idx as int]);
                assert((loc, slot) == captures[idx as int]);
                if let DecodedLoc::Value(field) = loc {
                    assert(fields::loc_fields(loc)[0] == field);
                }
                lemma_source_base(ms[idx as int], regs@, native_base);
            }
            match read_loc(loc, bytes, regs, native_base) {
                Some(source) => {
                    stores.push(ExitStore { dst: offset_addr(native_base, slot), source });
                },
                None => {
                    return false;
                },
            }
            idx = idx + 1;
            assert(want.take(idx as int) =~= want.take(idx - 1).push(want[idx - 1]));
            assert(stores@ =~= before + want.take(idx as int));
        }
        assert(want.take(idx as int) =~= want);
        stores.push(
            ExitStore {
                dst: offset_addr(native_base, jit_frame_slot),
                source: Source::Word(jit_frame),
            },
        );
        assert(stores@ =~= before + want.push(stores@.last()));
    }
    true
}

/// What `plan` is for the descriptor `d` of the table `bytes`.
pub open spec fn is_plan(
    plan: ExitPlan,
    bytes: Seq<u8>,
    d: DecodedDesc,
    regs: Seq<u64>,
    exit_regs: ExitRegs,
) -> bool {
    let m = encoding::decoded_model(bytes, d);
    let sp = regs[exit_regs.sp as int];
    &&& plan.cfp == regs[exit_regs.cfp as int]
    &&& plan.pc == m.pc
    &&& plan.sp == wrap(sp + 8 * d.header.num_stack)
    &&& plan.iseq == m.iseq
    &&& plan.stores@ == exit_stores(bytes, d, sp, regs[exit_regs.native_base as int], regs)
    &&& plan.clear_jit_return == (m.trace_reason is Some || m.recompile != 0)
    &&& plan.trace_reason == m.trace_reason
    &&& plan.recompile == m.recompile
}

/// Work out what taking the side exit whose call returns to `ret_addr` does.
///
/// `regs` is the trampoline's save area, holding every general-purpose register as of the
/// exit, indexed by machine register number.
pub fn rb_zjit_side_exit_descriptor(
    table: &ExitDescriptorTable,
    regs: &[u64],
    exit_regs: ExitRegs,
    ret_addr: u64,
) -> (r: Result<ExitPlan, ExitError>)
    requires
        table.wf(),
        exit_regs.cfp < regs@.len(),
        exit_regs.sp < regs@.len(),
        exit_regs.native_base < regs@.len(),
    ensures
        match table.spec_lookup(ret_addr) {
            None => r is Err && r->Err_0 == ExitError::NoDescriptor,
            Some(pos) => encoding::parse_desc(table.bytes@, pos as int) matches Some((d, _))
                && if readable(table.bytes@, d, regs@) {
                r is Ok && is_plan(r->Ok_0, table.bytes@, d, regs@, exit_regs)
            } else {
                r is Err && r->Err_0 == ExitError::BadLocation
            },
        },
{
    let bytes = table.bytes.as_slice();
    let pos: usize = match table.lookup(ret_addr) {
        Some(offset) => offset as usize,
        None => {
            return Err(ExitError::NoDescriptor);
        },
    };
    let mut decoder = Decoder { bytes, pos };
    let ghost (d, end) = encoding::parse_desc(bytes@, pos as int).unwrap();
    proof {
        fields::lemma_header_span(bytes@, pos as int);
        fields::lemma_value_span(bytes@, pos as int);
        reveal(encoding::parse_rest);
    }
    let header: DecodedHeader = decoder.header();
    let sp: u64 = regs[exit_regs.sp as usize];
    let native_base: u64 = regs[exit_regs.native_base as usize];
    let mut stores: Vec<ExitStore> = Vec::new();
    proof {
        fields::lemma_locs_span(
            bytes@,
            decoder.pos as int,
            (header.num_stack + header.num_locals) as nat,
        );
    }
    if !plan_locs(&mut decoder, &header, sp, native_base, regs, &mut stores) {
        return Err(ExitError::BadLocation);
    }
    if !plan_stack_map(&mut decoder, header.flags, native_base, regs, &mut stores) {
        return Err(ExitError::BadLocation);
    }
    let trace_reason: Option<u64> = if (header.flags / FLAG_TRACE) % 2 == 1 {
        Some(decoder.u64())
    } else {
        None
    };
    let recompile: u64 = match header.recompile {
        Some(field) => codec::read_field(bytes, field),
        None => 0,
    };
    let plan = ExitPlan {
        cfp: regs[exit_regs.cfp as usize],
        pc: header.pc,
        sp: slots_up(sp, header.num_stack),
        iseq: codec::read_field(bytes, header.iseq),
        stores,
        clear_jit_return: trace_reason.is_some() || recompile != 0,
        trace_reason,
        recompile,
    };
    assert(plan.stores@ =~= exit_stores(bytes@, d, sp, native_base, regs@));
    Ok(plan)
}

/// Taking an exit through the encoding of a descriptor leaves the frame as the descriptor
/// says.
pub proof fn law_exit_restores_frame(
    bytes: Seq<u8>,
    pos: int,
    m: DescModel,
    sp: u64,
    native_base: u64,
    regs: Seq<u64>,
)
    requires
        bytes.len() <= usize::MAX,
        encoding::desc_encodable(m),
        encoding::has_at(bytes, pos, encoding::enc_desc(m)),
    ensures
        encoding::parse_desc(bytes, pos) matches Some((d, _)) && {
            &&& encoding::decoded_model(bytes, d) == m
            &&& d.header.num_stack == m.stack.len()
            &&& exit_stores(bytes, d, sp, native_base, regs) == model_stores(
                m,
                sp,
                native_base,
                regs,
            )
        },
{
    laws::law_desc_round_trip(bytes, pos, m);
    fields::lemma_value_span(bytes, pos);
    let (d, _) = encoding::parse_desc(bytes, pos).unwrap();
    let n = d.header.num_stack as int;
    let got = encoding::decoded_model(bytes, d);
    assert(got.stack.len() == n);
    assert(encoding::decoded_locs_model(bytes, d.locs) =~= got.stack + got.locals);
    if let Some(map) = d.stack_map {
        let want = m.stack_map.unwrap();
        assert(capture_locs(bytes, map.captures) =~= want.captures.map_values(
            |c: (LocModel, i32)| c.0,
        )) by {
            assert forall|i: int| 0 <= i < map.captures.len() implies capture_locs(
                bytes,
                map.captures,
            )[i] == want.captures[i].0 by {
                assert(encoding::decoded_captures_model(bytes, map.captures)[i]
                    == want.captures[i]);
            }
        }
        assert(Seq::new(map.captures.len(), |i: int| map.captures[i].1)
            =~= want.captures.map_values(|c: (LocModel, i32)| c.1 as i64));
    }
    assert(exit_stores(bytes, d, sp, native_base, regs) =~= model_stores(
        m,
        sp,
        native_base,
        regs,
    ));
}

} // verus!
