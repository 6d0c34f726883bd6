//! What a paused compilation is poisoned by.

use vstd::prelude::*;

use crate::bg_assume::{Assumption, Assumptions, Invariant};
use crate::cruby::IseqPtr;

verus! {

/// A snapshot that records a patch point is poisoned by the invalidation of each key and each
/// object that the patch point names, and by no other that did not poison it before.
pub proof fn law_patch_point_is_poisoned_by_what_it_names(
    before: &Assumptions,
    a: &mut Assumptions,
    inv: Invariant,
    b: &mut Assumptions,
    noted: Assumption,
    after: &Assumptions,
    was_assumed: bool,
    was_poisoned: bool,
    r: bool,
)
    requires
        before.wf(),
        *before == *a,
        call_ensures(Assumptions::assumes, (before, noted), was_assumed),
        call_ensures(Assumptions::is_poisoned, (before,), was_poisoned),
        call_ensures(Assumptions::add_invariant, (a, inv), ()),
        *b == *final(a),
        call_ensures(Assumptions::note, (b, noted), ()),
        *after == *final(b),
        call_ensures(Assumptions::is_poisoned, (after,), r),
    ensures
        r <==> was_poisoned || was_assumed || match inv {
            Invariant::BOPRedefined { klass, bop } => noted == Assumption::Bop(klass, bop),
            Invariant::MethodRedefined { klass, method, cme } => noted == Assumption::Cme(cme)
                || noted == Assumption::Klass(klass),
            Invariant::NoMethodOverride { klass, method, cme } => noted == Assumption::Cme(cme)
                || noted == Assumption::MethodLookup(method) || noted == Assumption::Klass(klass),
            Invariant::StableConstantNames { idlist } => exists|k: int|
                0 <= k < idlist@.len() && noted == Assumption::Constant(#[trigger] idlist@[k])
                    && forall|j: int| 0 <= j <= k ==> (#[trigger] idlist@[j]).0 != 0,
            Invariant::NoTracePoint => false,
            Invariant::NoNewObjHook => false,
            Invariant::SingleRactorMode => false,
            Invariant::RootBoxOnly => false,
            Invariant::NoEPEscape(iseq) => noted == Assumption::NoEpEscape(iseq) || (iseq != 0
                && noted == Assumption::Iseq(iseq)),
            Invariant::NoSingletonClass { klass } => noted == Assumption::NoSingletonClass(klass)
                || noted == Assumption::Klass(klass),
        },
{
    if let Invariant::StableConstantNames { idlist } = inv {
        let ids = idlist@;
        crate::bg_assume::lemma_names(ids);
        let n = crate::bg_assume::names_len(ids) as int;
        let mapped = ids.take(n).map_values(|id: crate::cruby::ID| Assumption::Constant(id));
        assert(crate::bg_assume::constants(ids.take(n)).contains(noted) <==> mapped.contains(noted));
        if mapped.contains(noted) {
            let k = choose|k: int| 0 <= k < mapped.len() && mapped[k] == noted;
            assert(noted == Assumption::Constant(ids[k]));
        }
        if exists|k: int|
            0 <= k < ids.len() && noted == Assumption::Constant(#[trigger] ids[k]) && forall|j: int|
                0 <= j <= k ==> (#[trigger] ids[j]).0 != 0 {
            let k = choose|k: int|
                0 <= k < ids.len() && noted == Assumption::Constant(#[trigger] ids[k]) && forall|
                    j: int,
                | 0 <= j <= k ==> (#[trigger] ids[j]).0 != 0;
            assert(k < n);
            assert(mapped[k] == noted);
        }
    }
}

/// A snapshot holds what was recorded, each thing once, whichever way it was recorded, and
/// recording something leaves it otherwise as it was.
pub proof fn law_recording_adds_what_is_named(
    before: &Assumptions,
    a: &mut Assumptions,
    inv: Invariant,
    after: &Assumptions,
    asked: Assumption,
    was_assumed: bool,
    is_assumed: bool,
    was_poisoned: bool,
    is_poisoned: bool,
)
    requires
        before.wf(),
        *before == *a,
        call_ensures(Assumptions::assumes, (before, asked), was_assumed),
        call_ensures(Assumptions::is_poisoned, (before,), was_poisoned),
        call_ensures(Assumptions::add_invariant, (a, inv), ()),
        *after == *final(a),
        call_ensures(Assumptions::assumes, (after, asked), is_assumed),
        call_ensures(Assumptions::is_poisoned, (after,), is_poisoned),
    ensures
        is_poisoned == was_poisoned,
        was_assumed ==> is_assumed,
        is_assumed && !was_assumed ==> match asked {
            Assumption::Bop(klass, bop) => inv == (Invariant::BOPRedefined { klass, bop }),
            Assumption::Cme(cme) => (inv matches Invariant::MethodRedefined { cme: c, .. } && c
                == cme) || (inv matches Invariant::NoMethodOverride { cme: c, .. } && c == cme),
            Assumption::MethodLookup(id) => inv matches Invariant::NoMethodOverride { method, .. }
                && method == id,
            Assumption::Constant(id) => inv matches Invariant::StableConstantNames { idlist }
                && idlist@.contains(id),
            Assumption::NoEpEscape(iseq) => inv == Invariant::NoEPEscape(iseq),
            Assumption::NoSingletonClass(klass) => inv == (Invariant::NoSingletonClass { klass }),
            Assumption::Iseq(iseq) => iseq != 0 && inv == Invariant::NoEPEscape(iseq),
            Assumption::Klass(klass) => (inv matches Invariant::MethodRedefined { klass: k, .. }
                && k == klass) || (inv matches Invariant::NoMethodOverride { klass: k, .. } && k
                == klass) || inv == (Invariant::NoSingletonClass { klass }),
        },
{
    if let Invariant::StableConstantNames { idlist } = inv {
        let ids = idlist@;
        crate::bg_assume::lemma_names(ids);
        let n = crate::bg_assume::names_len(ids) as int;
        let mapped = ids.take(n).map_values(|id: crate::cruby::ID| Assumption::Constant(id));
        if mapped.contains(asked) {
            let k = choose|k: int| 0 <= k < mapped.len() && mapped[k] == asked;
            assert(asked == Assumption::Constant(ids[k]));
            assert(ids.contains(ids[k]));
        }
    }
}

/// An ISEQ that a compilation holds a pointer to is recorded, unless there is none, and it
/// counts once.
pub proof fn law_held_iseq_is_recorded(
    before: &Assumptions,
    a: &mut Assumptions,
    iseq: IseqPtr,
    after: &Assumptions,
    asked: Assumption,
    was_assumed: bool,
    is_assumed: bool,
    known: bool,
    was: usize,
    now: usize,
)
    requires
        before.wf(),
        *before == *a,
        call_ensures(Assumptions::assumes, (before, asked), was_assumed),
        call_ensures(Assumptions::assumes, (before, Assumption::Iseq(iseq)), known),
        call_ensures(Assumptions::len, (before,), was),
        call_ensures(Assumptions::add_iseq, (a, iseq), ()),
        *after == *final(a),
        call_ensures(Assumptions::assumes, (after, asked), is_assumed),
        call_ensures(Assumptions::len, (after,), now),
    ensures
        is_assumed <==> was_assumed || (iseq != 0 && asked == Assumption::Iseq(iseq)),
        now == was + if iseq != 0 && !known {
            1int
        } else {
            0
        },
{
    let s = before@;
    if iseq == 0 {
        assert(after@ =~= s);
    } else {
        assert(after@ =~= s.insert(Assumption::Iseq(iseq)));
    }
}

/// A new snapshot assumes nothing and is not poisoned. Poison stays, whatever is noted or
/// recorded, and noting something does not change what is assumed.
pub proof fn law_poison_stays(
    fresh: Assumptions,
    s: &Assumptions,
    asked: Assumption,
    fresh_assumes: bool,
    fresh_poisoned: bool,
    fresh_len: usize,
    a: &mut Assumptions,
    poisoned: &Assumptions,
    b: &mut Assumptions,
    noted: Assumption,
    after: &Assumptions,
    was: bool,
    is: bool,
    still: bool,
)
    requires
        call_ensures(Assumptions::new, (), fresh),
        *s == fresh,
        call_ensures(Assumptions::assumes, (s, asked), fresh_assumes),
        call_ensures(Assumptions::is_poisoned, (s,), fresh_poisoned),
        call_ensures(Assumptions::len, (s,), fresh_len),
        call_ensures(Assumptions::poison, (a,), ()),
        *poisoned == *final(a),
        call_ensures(Assumptions::assumes, (poisoned, asked), was),
        *b == *poisoned,
        call_ensures(Assumptions::note, (b, noted), ()),
        *after == *final(b),
        call_ensures(Assumptions::assumes, (after, asked), is),
        call_ensures(Assumptions::is_poisoned, (after,), still),
    ensures
        !fresh_assumes,
        !fresh_poisoned,
        fresh_len == 0,
        still,
        is == was,
{
}

/// Different kinds of assumptions have different bits, and the same kind has the same bit.
pub proof fn law_kinds_have_their_own_bits(a: &Assumption, b: &Assumption, x: u16, y: u16)
    requires
        call_ensures(Assumption::kind_bit, (a,), x),
        call_ensures(Assumption::kind_bit, (b,), y),
    ensures
        x != 0,
        x & y != 0 <==> x == y,
        x == y <==> match (*a, *b) {
            (Assumption::Bop(_, _), Assumption::Bop(_, _)) => true,
            (Assumption::Cme(_), Assumption::Cme(_)) => true,
            (Assumption::MethodLookup(_), Assumption::MethodLookup(_)) => true,
            (Assumption::Constant(_), Assumption::Constant(_)) => true,
            (Assumption::NoEpEscape(_), Assumption::NoEpEscape(_)) => true,
            (Assumption::NoSingletonClass(_), Assumption::NoSingletonClass(_)) => true,
            (Assumption::Iseq(_), Assumption::Iseq(_)) => true,
            (Assumption::Klass(_), Assumption::Klass(_)) => true,
            _ => false,
        },
{
    assert(x & y != 0 <==> x == y) by (bit_vector)
        requires
            x == 1 || x == 2 || x == 4 || x == 8 || x == 16 || x == 32 || x == 64 || x == 128,
            y == 1 || y == 2 || y == 4 || y == 8 || y == 16 || y == 32 || y == 64 || y == 128,
    ;
}

} // verus!
