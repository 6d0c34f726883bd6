use zjit::bg_assume::{Assumption, Assumptions, Invariant};
use zjit::cruby::{ID, VALUE};

#[test]
fn patch_points_are_recorded_once() {
    let mut assumptions = Assumptions::new();
    assumptions.add_invariant(Invariant::BOPRedefined { klass: 1, bop: 2 });
    assumptions.add_invariant(Invariant::BOPRedefined { klass: 1, bop: 2 });
    assert_eq!(assumptions.len(), 1);
    assert!(assumptions.assumes(Assumption::Bop(1, 2)));
    assert!(!assumptions.assumes(Assumption::Bop(2, 1)));
}

#[test]
fn methods_need_their_entry_and_their_class() {
    let mut assumptions = Assumptions::default();
    assumptions.add_invariant(Invariant::MethodRedefined {
        klass: VALUE(8),
        method: ID(5),
        cme: 0x40,
    });
    assert_eq!(assumptions.len(), 2);
    assert!(assumptions.assumes(Assumption::Cme(0x40)));
    assert!(assumptions.assumes(Assumption::Klass(VALUE(8))));
    assert!(!assumptions.assumes(Assumption::MethodLookup(ID(5))));

    assumptions.add_invariant(Invariant::NoMethodOverride {
        klass: VALUE(8),
        method: ID(5),
        cme: 0x40,
    });
    assert_eq!(assumptions.len(), 3);
    assert!(assumptions.assumes(Assumption::MethodLookup(ID(5))));
}

#[test]
fn constant_names_end_at_zero() {
    let mut assumptions = Assumptions::new();
    assumptions.add_invariant(Invariant::StableConstantNames {
        idlist: vec![ID(3), ID(4), ID(0), ID(5)],
    });
    assert_eq!(assumptions.len(), 2);
    assert!(assumptions.assumes(Assumption::Constant(ID(3))));
    assert!(assumptions.assumes(Assumption::Constant(ID(4))));
    assert!(!assumptions.assumes(Assumption::Constant(ID(5))));
}

#[test]
fn environment_escape_and_singletons() {
    let mut assumptions = Assumptions::new();
    assumptions.add_invariant(Invariant::NoEPEscape(0x100));
    assumptions.add_invariant(Invariant::NoSingletonClass { klass: VALUE(16) });
    assert!(assumptions.assumes(Assumption::NoEpEscape(0x100)));
    assert!(assumptions.assumes(Assumption::Iseq(0x100)));
    assert!(assumptions.assumes(Assumption::NoSingletonClass(VALUE(16))));
    assert!(assumptions.assumes(Assumption::Klass(VALUE(16))));
    assert_eq!(assumptions.len(), 4);
}

#[test]
fn global_invariants_are_not_recorded() {
    let mut assumptions = Assumptions::new();
    assumptions.add_invariant(Invariant::NoTracePoint);
    assumptions.add_invariant(Invariant::NoNewObjHook);
    assumptions.add_invariant(Invariant::SingleRactorMode);
    assumptions.add_invariant(Invariant::RootBoxOnly);
    assumptions.add_iseq(0);
    assert_eq!(assumptions.len(), 0);
}

#[test]
fn only_what_was_assumed_poisons() {
    let mut assumptions = Assumptions::new();
    assumptions.add_iseq(0x100);
    assumptions.note(Assumption::Iseq(0x200));
    assumptions.note(Assumption::NoEpEscape(0x100));
    assert!(!assumptions.is_poisoned());
    assumptions.note(Assumption::Iseq(0x100));
    assert!(assumptions.is_poisoned());
    // Never cleared.
    assumptions.note(Assumption::Iseq(0x200));
    assert!(assumptions.is_poisoned());

    let mut poisoned = Assumptions::new();
    poisoned.poison();
    assert!(poisoned.is_poisoned());
}

#[test]
fn kinds_have_distinct_bits() {
    let kinds = [
        Assumption::Bop(0, 0),
        Assumption::Cme(0),
        Assumption::MethodLookup(ID(0)),
        Assumption::Constant(ID(0)),
        Assumption::NoEpEscape(0),
        Assumption::NoSingletonClass(VALUE(0)),
        Assumption::Iseq(0),
        Assumption::Klass(VALUE(0)),
    ];
    for (idx, kind) in kinds.iter().enumerate() {
        assert_eq!(kind.kind_bit(), 1 << idx);
    }
}
