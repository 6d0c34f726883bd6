//! What a paused compilation assumed about the VM, and how it learns that an assumption
//! stopped holding.
//!
//! The middle of each compilation runs while the application does, so anything that the
//! compiler read can change before its code is installed. What *can* change is exactly what
//! compiled code guards with patch points. Installed code survives a broken assumption by
//! being rewritten to side-exit; code that is not installed yet has to be thrown away
//! instead.
//!
//! Each invalidation hook calls [`Assumptions::note`] with the key it is invalidating,
//! which poisons the snapshot if that key is one it recorded. The install step then only
//! has to check one boolean. This makes the check exact in the direction that matters: a
//! compilation is discarded only if something it actually assumed changed.
//!
//! Four invariants are deliberately *not* recorded: `NoTracePoint`, `NoNewObjHook`,
//! `SingleRactorMode` and `RootBoxOnly`. Their hooks fire on events that are global and
//! rare, which discard every paused compilation.
//!
//! [`Assumption::Iseq`], [`Assumption::Cme`] and [`Assumption::Klass`] also stand for "this
//! object must still exist".

use vstd::prelude::*;

use crate::cruby::{BasicOperator, CmePtr, IseqPtr, RedefinitionFlag, ID, VALUE};

verus! {

/// One thing a paused compilation needs to still be true when it installs.
#[derive(Clone, Copy, PartialEq, Eq, Structural, Debug)]
pub enum Assumption {
    /// A basic operator is not redefined for a class.
    Bop(RedefinitionFlag, BasicOperator),
    /// A callable method entry is neither invalidated nor freed.
    Cme(CmePtr),
    /// Nothing has changed what a method name resolves to, anywhere.
    MethodLookup(ID),
    /// A constant name has not been written to.
    Constant(ID),
    /// An ISEQ has still never escaped its environment pointer.
    NoEpEscape(IseqPtr),
    /// No object of a class has a singleton class.
    NoSingletonClass(VALUE),
    /// An ISEQ the compilation holds a pointer to has not been freed.
    Iseq(IseqPtr),
    /// A class the compilation holds a pointer to has not been freed.
    Klass(VALUE),
}

/// What a patch point guards.
pub enum Invariant {
    /// A basic operator is not redefined for a class.
    BOPRedefined { klass: RedefinitionFlag, bop: BasicOperator },
    /// A method of a class is not redefined.
    MethodRedefined { klass: VALUE, method: ID, cme: CmePtr },
    /// A method of a class is neither redefined nor overridden below the class.
    NoMethodOverride { klass: VALUE, method: ID, cme: CmePtr },
    /// The constants in a list that ends at the first 0 are not written to.
    StableConstantNames { idlist: Vec<ID> },
    /// TracePoint is off.
    NoTracePoint,
    /// No hook on new objects is installed.
    NoNewObjHook,
    /// There is one ractor.
    SingleRactorMode,
    /// Only the root box runs code.
    RootBoxOnly,
    /// An ISEQ has never escaped its environment pointer.
    NoEPEscape(IseqPtr),
    /// No object of a class has a singleton class.
    NoSingletonClass { klass: VALUE },
}

/// The number of names in a list that ends at the first 0, or at its end.
pub open spec fn names_len(ids: Seq<ID>) -> nat
    decreases ids.len(),
{
    if ids.len() == 0 || ids[0].0 == 0 {
        0
    } else {
        1 + names_len(ids.skip(1))
    }
}

/// What a compilation assumes by carrying the patch point `inv`, including the
/// objects that have to outlive the compilation.
pub open spec fn assumed_by(inv: Invariant) -> Set<Assumption> {
    match inv {
        Invariant::BOPRedefined { klass, bop } => set![Assumption::Bop(klass, bop)],
        Invariant::MethodRedefined { klass, method, cme } => set![
            Assumption::Cme(cme),
            Assumption::Klass(klass),
        ],
        Invariant::NoMethodOverride { klass, method, cme } => set![
            Assumption::MethodLookup(method),
            Assumption::Cme(cme),
            Assumption::Klass(klass),
        ],
        Invariant::StableConstantNames { idlist } => constants(
            idlist@.take(names_len(idlist@) as int),
        ),
        Invariant::NoEPEscape(iseq) => set![Assumption::NoEpEscape(iseq)].union(
            iseq_alive(iseq),
        ),
        Invariant::NoSingletonClass { klass } => set![
            Assumption::NoSingletonClass(klass),
            Assumption::Klass(klass),
        ],
        Invariant::NoTracePoint => Set::empty(),
        Invariant::NoNewObjHook => Set::empty(),
        Invariant::SingleRactorMode => Set::empty(),
        Invariant::RootBoxOnly => Set::empty(),
    }
}

/// The constants of these names are not written to.
pub open spec fn constants(ids: Seq<ID>) -> Set<Assumption> {
    ids.map_values(|id: ID| Assumption::Constant(id)).to_set()
}

/// The ISEQ is not freed. Nothing is assumed of the null pointer.
pub open spec fn iseq_alive(iseq: IseqPtr) -> Set<Assumption> {
    if iseq == 0 {
        Set::empty()
    } else {
        set![Assumption::Iseq(iseq)]
    }
}

impl Assumption {
    /// The bit that stands for this kind of assumption.
    pub open spec fn spec_kind_bit(self) -> u16 {
        match self {
            Assumption::Bop(_, _) => 1,
            Assumption::Cme(_) => 2,
            Assumption::MethodLookup(_) => 4,
            Assumption::Constant(_) => 8,
            Assumption::NoEpEscape(_) => 16,
            Assumption::NoSingletonClass(_) => 32,
            Assumption::Iseq(_) => 64,
            Assumption::Klass(_) => 128,
        }
    }

    /// The bit that stands for this kind of assumption. Distinguishing kinds lets a hook
    /// reject a snapshot that assumed nothing of its kind without scanning the list.
    pub fn kind_bit(&self) -> (r: u16)
        ensures
            r == self.spec_kind_bit(),
    {
        match self {
            Assumption::Bop(_, _) => 1,
            Assumption::Cme(_) => 2,
            Assumption::MethodLookup(_) => 4,
            Assumption::Constant(_) => 8,
            Assumption::NoEpEscape(_) => 16,
            Assumption::NoSingletonClass(_) => 32,
            Assumption::Iseq(_) => 64,
            Assumption::Klass(_) => 128,
        }
    }
}

/// Everything one paused compilation assumed, plus whether it still holds.
#[derive(Debug)]
pub struct Assumptions {
    /// Deduplicated, in no particular order. A compiled ISEQ carries a handful to a few
    /// dozen of these, so a linear scan beats hashing.
    list: Vec<Assumption>,
    /// Union of [`Assumption::kind_bit`] over `list`.
    kinds: u16,
    /// Set once an invalidation landed that this snapshot assumed away. Never cleared.
    poisoned: bool,
}

/// Whether `kinds` is the union of the kind bits of `list`.
spec fn is_kinds(list: Seq<Assumption>, kinds: u16) -> bool {
    forall|a: Assumption|
        (kinds & (#[trigger] a.spec_kind_bit()) != 0) <==> has_kind(list, a.spec_kind_bit())
}

spec fn has_kind(list: Seq<Assumption>, bit: u16) -> bool {
    exists|i: int| 0 <= i < list.len() && (#[trigger] list[i]).spec_kind_bit() == bit
}

/// Adding a kind bit adds that kind and no other.
proof fn lemma_kinds_push(list: Seq<Assumption>, kinds: u16, a: Assumption)
    requires
        is_kinds(list, kinds),
    ensures
        is_kinds(list.push(a), kinds | a.spec_kind_bit()),
{
    let b = a.spec_kind_bit();
    let next = list.push(a);
    assert forall|x: Assumption|
        ((kinds | b) & (#[trigger] x.spec_kind_bit()) != 0) <==> has_kind(
            next,
            x.spec_kind_bit(),
        ) by {
        let c = x.spec_kind_bit();
        assert((kinds | b) & c != 0 <==> (kinds & c != 0 || b & c != 0)) by (bit_vector);
        assert(b & c != 0 <==> b == c) by (bit_vector)
            requires
                b == 1 || b == 2 || b == 4 || b == 8 || b == 16 || b == 32 || b == 64 || b == 128,
                c == 1 || c == 2 || c == 4 || c == 8 || c == 16 || c == 32 || c == 64 || c == 128,
        ;
        if has_kind(list, c) {
            let i = choose|i: int| 0 <= i < list.len() && (#[trigger] list[i]).spec_kind_bit() == c;
            assert(next[i].spec_kind_bit() == c);
        }
        if has_kind(next, c) {
            let i = choose|i: int| 0 <= i < next.len() && (#[trigger] next[i]).spec_kind_bit() == c;
            if i < list.len() {
                assert(list[i].spec_kind_bit() == c);
            }
        }
        assert(next[list.len() as int] == a);
    }
}

impl Default for Assumptions {
    fn default() -> (r: Self)
        ensures
            r.wf(),
            r@ == Set::<Assumption>::empty(),
            !r.poisoned_spec(),
    {
        let r = Assumptions { list: Vec::new(), kinds: 0, poisoned: false };
        proof {
            assert forall|a: Assumption|
                (r.kinds & (#[trigger] a.spec_kind_bit()) != 0) <==> has_kind(
                    r.list@,
                    a.spec_kind_bit(),
                ) by {
                let c = a.spec_kind_bit();
                assert(0u16 & c == 0) by (bit_vector);
            }
            assert(r.list@.to_set() =~= Set::empty());
        }
        r
    }
}

impl View for Assumptions {
    type V = Set<Assumption>;

    /// What is assumed.
    closed spec fn view(&self) -> Set<Assumption> {
        self.list@.to_set()
    }
}

impl Assumptions {
    /// Whether the snapshot has been invalidated.
    pub closed spec fn poisoned_spec(&self) -> bool {
        self.poisoned
    }

    /// Nothing is listed twice, and `kinds` is the union of the kinds of what is listed.
    pub closed spec fn wf(&self) -> bool {
        &&& self.list@.no_duplicates()
        &&& is_kinds(self.list@, self.kinds)
    }

    /// A snapshot that assumes nothing.
    pub fn new() -> (r: Self)
        ensures
            r.wf(),
            r@ == Set::<Assumption>::empty(),
            !r.poisoned_spec(),
    {
        Self::default()
    }

    pub fn is_poisoned(&self) -> (r: bool)
        ensures
            r == self.poisoned_spec(),
    {
        self.poisoned
    }

    pub fn poison(&mut self)
        requires
            old(self).wf(),
        ensures
            final(self).wf(),
            final(self)@ == old(self)@,
            final(self).poisoned_spec(),
    {
        self.poisoned = true;
    }

    /// How many different things are assumed.
    pub fn len(&self) -> (r: usize)
        requires
            self.wf(),
        ensures
            r == self@.len(),
            self@.finite(),
    {
        proof {
            self.list@.unique_seq_to_set();
        }
        self.list.len()
    }

    /// Whether `assumption` is listed.
    fn contains(&self, assumption: Assumption) -> (r: bool)
        ensures
            r == self@.contains(assumption),
    {
        let mut idx: usize = 0;
        while idx < self.list.len()
            invariant
                idx <= self.list@.len(),
                forall|i: int| 0 <= i < idx ==> self.list@[i] != assumption,
            decreases self.list@.len() - idx,
        {
            if self.list[idx] == assumption {
                assert(self.list@.contains(assumption));
                return true;
            }
            idx = idx + 1;
        }
        false
    }

    fn push(&mut self, assumption: Assumption)
        requires
            old(self).wf(),
        ensures
            final(self).wf(),
            final(self)@ == old(self)@.insert(assumption),
            final(self).poisoned_spec() == old(self).poisoned_spec(),
    {
        if self.contains(assumption) {
            assert(self@ =~= self@.insert(assumption));
            return;
        }
        let ghost before = self.list@;
        proof {
            lemma_kinds_push(self.list@, self.kinds, assumption);
        }
        self.kinds = self.kinds | assumption.kind_bit();
        self.list.push(assumption);
        proof {
            assert(!before.contains(assumption));
            assert(self.list@.no_duplicates());
            assert forall|a: Assumption|
                self.list@.contains(a) <==> before.contains(a) || a == assumption by {
                if before.contains(a) {
                    let i = choose|i: int| 0 <= i < before.len() && before[i] == a;
                    assert(self.list@[i] == a);
                }
                assert(self.list@[before.len() as int] == assumption);
            }
            assert(self@ =~= before.to_set().insert(assumption));
        }
    }

    /// Record an ISEQ this compilation holds a pointer to.
    pub fn add_iseq(&mut self, iseq: IseqPtr)
        requires
            old(self).wf(),
        ensures
            final(self).wf(),
            final(self)@ == old(self)@.union(iseq_alive(iseq)),
            final(self).poisoned_spec() == old(self).poisoned_spec(),
    {
        if iseq != 0 {
            self.push(Assumption::Iseq(iseq));
        }
        assert(self@ =~= old(self)@.union(iseq_alive(iseq)));
    }

    /// Record the constants named in a list that ends at the first 0.
    fn add_constants(&mut self, idlist: &Vec<ID>)
        requires
            old(self).wf(),
        ensures
            final(self).wf(),
            final(self)@ == old(self)@.union(constants(idlist@.take(names_len(idlist@) as int))),
            final(self).poisoned_spec() == old(self).poisoned_spec(),
    {
        let mut idx: usize = 0;
        proof {
            assert(idlist@.skip(0) =~= idlist@);
            assert(constants(idlist@.take(0)) =~= Set::empty());
            assert(self@ =~= old(self)@.union(constants(idlist@.take(0))));
        }
        while idx < idlist.len() && idlist[idx].0 != 0
            invariant
                idx <= idlist@.len(),
                names_len(idlist@) == idx + names_len(idlist@.skip(idx as int)),
                self.wf(),
                self@ == old(self)@.union(constants(idlist@.take(idx as int))),
                self.poisoned_spec() == old(self).poisoned_spec(),
            decreases idlist@.len() - idx,
        {
            let ghost before = self@;
            self.push(Assumption::Constant(idlist[idx]));
            idx = idx + 1;
            proof {
                assert(idlist@.skip(idx - 1).skip(1) =~= idlist@.skip(idx as int));
                lemma_constants_push(idlist@.take(idx - 1), idlist@[idx - 1]);
                assert(idlist@.take(idx - 1).push(idlist@[idx - 1]) =~= idlist@.take(idx as int));
                assert(self@ =~= old(self)@.union(constants(idlist@.take(idx as int))));
            }
        }
    }

    /// Record everything one patch point assumes, including the objects it needs to outlive
    /// the compilation.
    pub fn add_invariant(&mut self, inv: Invariant)
        requires
            old(self).wf(),
        ensures
            final(self).wf(),
            final(self)@ == old(self)@.union(assumed_by(inv)),
            final(self).poisoned_spec() == old(self).poisoned_spec(),
    {
        let ghost carried = inv;
        match inv {
            Invariant::BOPRedefined { klass, bop } => {
                self.push(Assumption::Bop(klass, bop));
            },
            Invariant::MethodRedefined { klass, method, cme } => {
                self.push(Assumption::Cme(cme));
                self.push(Assumption::Klass(klass));
            },
            Invariant::NoMethodOverride { klass, method, cme } => {
                // Two separate assumptions: the resolved entry is still valid, and nothing
                // below `klass` has started overriding `method`.
                self.push(Assumption::MethodLookup(method));
                self.push(Assumption::Cme(cme));
                self.push(Assumption::Klass(klass));
            },
            Invariant::StableConstantNames { idlist } => {
                self.add_constants(&idlist);
            },
            Invariant::NoTracePoint => {},
            Invariant::NoNewObjHook => {},
            Invariant::SingleRactorMode => {},
            Invariant::RootBoxOnly => {},
            Invariant::NoEPEscape(iseq) => {
                self.push(Assumption::NoEpEscape(iseq));
                self.add_iseq(iseq);
            },
            Invariant::NoSingletonClass { klass } => {
                self.push(Assumption::NoSingletonClass(klass));
                self.push(Assumption::Klass(klass));
            },
        }
        assert(self@ =~= old(self)@.union(assumed_by(carried)));
    }

    /// Whether `assumption` is one of ours. The kind check is the fast path.
    pub fn assumes(&self, assumption: Assumption) -> (r: bool)
        requires
            self.wf(),
        ensures
            r == self@.contains(assumption),
    {
        proof {
            if self.list@.contains(assumption) {
                let i = choose|i: int| 0 <= i < self.list@.len() && self.list@[i] == assumption;
                assert(has_kind(self.list@, assumption.spec_kind_bit()));
            }
        }
        self.kinds & assumption.kind_bit() != 0 && self.contains(assumption)
    }

    /// Poison if this snapshot assumed `assumption` away.
    pub fn note(&mut self, assumption: Assumption)
        requires
            old(self).wf(),
        ensures
            final(self).wf(),
            final(self)@ == old(self)@,
            final(self).poisoned_spec() == poisoned_by(
                old(self)@,
                old(self).poisoned_spec(),
                assumption,
            ),
    {
        if self.assumes(assumption) {
            self.poisoned = true;
        }
    }
}

proof fn lemma_constants_push(ids: Seq<ID>, id: ID)
    ensures
        constants(ids.push(id)) == constants(ids).insert(Assumption::Constant(id)),
{
    let f = |id: ID| Assumption::Constant(id);
    let a = ids.map_values(f);
    let b = ids.push(id).map_values(f);
    assert(b =~= a.push(Assumption::Constant(id)));
    assert forall|x: Assumption| b.contains(x) <==> a.contains(x) || x == Assumption::Constant(
        id,
    ) by {
        if a.contains(x) {
            let i = choose|i: int| 0 <= i < a.len() && a[i] == x;
            assert(b[i] == x);
        }
        assert(b[ids.len() as int] == Assumption::Constant(id));
    }
    assert(b.to_set() =~= a.to_set().insert(Assumption::Constant(id)));
}

/// Whether a snapshot that assumed `assumed` is poisoned once an invalidation took `noted` away.
pub open spec fn poisoned_by(assumed: Set<Assumption>, poisoned: bool, noted: Assumption) -> bool {
    poisoned || assumed.contains(noted)
}

/// Whether a snapshot that assumed `assumed` is poisoned once the invalidations `noted` have been
/// reported to [`Assumptions::note`], one after the other.
pub open spec fn poisoned_after(
    assumed: Set<Assumption>,
    poisoned: bool,
    noted: Seq<Assumption>,
) -> bool
    decreases noted.len(),
{
    if noted.len() == 0 {
        poisoned
    } else {
        poisoned_by(assumed, poisoned_after(assumed, poisoned, noted.drop_last()), noted.last())
    }
}

/// A snapshot is poisoned exactly if one of the invalidations that landed took away something
/// that it assumed. That is never undone, and what is unrelated does not matter.
pub proof fn law_poisoned_by_what_was_assumed(
    assumed: Set<Assumption>,
    poisoned: bool,
    noted: Seq<Assumption>,
)
    ensures
        poisoned_after(assumed, poisoned, noted) <==> poisoned || exists|i: int|
            0 <= i < noted.len() && assumed.contains(#[trigger] noted[i]),
    decreases noted.len(),
{
    if noted.len() > 0 {
        let init = noted.drop_last();
        law_poisoned_by_what_was_assumed(assumed, poisoned, init);
        assert(noted[noted.len() - 1] == noted.last());
        assert(forall|i: int| 0 <= i < init.len() ==> #[trigger] init[i] == noted[i]);
        if exists|i: int| 0 <= i < noted.len() && assumed.contains(#[trigger] noted[i]) {
            let i = choose|i: int| 0 <= i < noted.len() && assumed.contains(#[trigger] noted[i]);
            if i < init.len() {
                assert(assumed.contains(init[i]));
            }
        }
    }
}

/// Every patch point names something that its hook reports, except the four whose hooks
/// discard every paused compilation. A list of constant names may be empty.
pub proof fn law_only_global_invariants_are_unkeyed(inv: Invariant)
    ensures
        assumed_by(inv) == Set::<Assumption>::empty() <==> {
            ||| inv is NoTracePoint
            ||| inv is NoNewObjHook
            ||| inv is SingleRactorMode
            ||| inv is RootBoxOnly
            ||| inv matches Invariant::StableConstantNames { idlist } && names_len(idlist@)
                == 0
        },
{
    lemma_names_len(match inv {
        Invariant::StableConstantNames { idlist } => idlist@,
        _ => Seq::empty(),
    });
    match inv {
        Invariant::BOPRedefined { klass, bop } => {
            assert(assumed_by(inv).contains(Assumption::Bop(klass, bop)));
        },
        Invariant::MethodRedefined { klass, method, cme } => {
            assert(assumed_by(inv).contains(Assumption::Cme(cme)));
        },
        Invariant::NoMethodOverride { klass, method, cme } => {
            assert(assumed_by(inv).contains(Assumption::Cme(cme)));
        },
        Invariant::StableConstantNames { idlist } => {
            let names = idlist@.take(names_len(idlist@) as int);
            let mapped = names.map_values(|id: ID| Assumption::Constant(id));
            if names_len(idlist@) == 0 {
                assert(assumed_by(inv) =~= Set::empty());
            } else {
                assert(mapped.contains(mapped[0]));
                assert(assumed_by(inv).contains(mapped[0]));
            }
        },
        Invariant::NoEPEscape(iseq) => {
            assert(assumed_by(inv).contains(Assumption::NoEpEscape(iseq)));
        },
        Invariant::NoSingletonClass { klass } => {
            assert(assumed_by(inv).contains(Assumption::Klass(klass)));
        },
        _ => {},
    }
}

/// A list has at most as many names as entries.
proof fn lemma_names_len(ids: Seq<ID>)
    ensures
        names_len(ids) <= ids.len(),
    decreases ids.len(),
{
    lemma_names(ids);
}

/// The names in a list are those in front of the first 0.
pub proof fn lemma_names(ids: Seq<ID>)
    ensures
        names_len(ids) <= ids.len(),
        forall|i: int| 0 <= i < names_len(ids) ==> (#[trigger] ids[i]).0 != 0,
        names_len(ids) < ids.len() ==> ids[names_len(ids) as int].0 == 0,
    decreases ids.len(),
{
    if ids.len() > 0 && ids[0].0 != 0 {
        let rest = ids.skip(1);
        lemma_names(rest);
        assert forall|i: int| 0 <= i < names_len(ids) implies (#[trigger] ids[i]).0 != 0 by {
            if i > 0 {
                assert(rest[i - 1] == ids[i]);
            }
        }
        if names_len(ids) < ids.len() {
            assert(rest[names_len(rest) as int] == ids[names_len(ids) as int]);
        }
    }
}

} // verus!
