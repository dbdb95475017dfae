//! The scheduler for deferred checking steps. A step that cannot complete
//! because a placeholder is unresolved is stored in an arena and indexed
//! under the placeholder it waits on; when the unification table reports that
//! placeholder's transition, the step is taken out and re-attempted. A step
//! is a plain triple: the meta index of the blocked node, the placeholder it
//! waits on, and the field position it will look up once the owner's base
//! data is known.

use vstd::prelude::*;

verus! {

/// The generational arena the deferred steps live in, declared so its values
/// can stand in fields and signatures.
#[verifier::external_type_specification]
#[verifier::external_body]
#[verifier::reject_recursive_types(T)]
pub struct ExArena<T>(generational_arena::Arena<T>);

/// What the arena holds: a map from raw index pairs (slot and generation) to
/// the stored triples.
pub uninterp spec fn arena_ops(
    a: generational_arena::Arena<(usize, usize, usize)>,
) -> Map<(usize, u64), (usize, usize, usize)>;

/// Relies on generational_arena::Arena::new: a new arena holds nothing.
#[verifier::external_body]
fn arena_new() -> (out: generational_arena::Arena<(usize, usize, usize)>)
    ensures
        forall|k: (usize, u64)| !arena_ops(out).dom().contains(k),
{
    generational_arena::Arena::new()
}

/// Relies on generational_arena::Arena::insert and Index::into_raw_parts:
/// insert stores the value under a free slot and returns its index, whose
/// generation tag no currently stored value shares, so the raw pair is fresh.
#[verifier::external_body]
fn arena_insert(
    a: &mut generational_arena::Arena<(usize, usize, usize)>,
    v: (usize, usize, usize),
) -> (r: (usize, u64))
    ensures
        !arena_ops(*old(a)).dom().contains(r),
        arena_ops(*final(a)) == arena_ops(*old(a)).insert(r, v),
{
    a.insert(v).into_raw_parts()
}

/// Relies on generational_arena::Arena::remove and Index::from_raw_parts:
/// remove hands back what the index holds and frees the slot; a stale or
/// unknown index changes nothing and gives `None`.
#[verifier::external_body]
fn arena_remove(
    a: &mut generational_arena::Arena<(usize, usize, usize)>,
    i: (usize, u64),
) -> (r: Option<(usize, usize, usize)>)
    ensures
        arena_ops(*old(a)).dom().contains(i) ==> r == Some(arena_ops(*old(a))[i]) && arena_ops(
            *final(a),
        ) == arena_ops(*old(a)).remove(i),
        !arena_ops(*old(a)).dom().contains(i) ==> r is None && arena_ops(*final(a)) == arena_ops(
            *old(a),
        ),
{
    a.remove(generational_arena::Index::from_raw_parts(i.0, i.1))
}

/// Relies on generational_arena::Arena::is_empty: true exactly when no value
/// is stored.
#[verifier::external_body]
fn arena_is_empty(a: &generational_arena::Arena<(usize, usize, usize)>) -> (r: bool)
    ensures
        r == (arena_ops(*a).dom() =~= Set::<(usize, u64)>::empty()),
{
    a.is_empty()
}

/// The step indices a blocked-list table files under one placeholder.
spec fn filed_seq(b: Seq<Vec<(usize, u64)>>, var: int) -> Seq<(usize, u64)> {
    if 0 <= var < b.len() {
        b[var]@
    } else {
        Seq::empty()
    }
}

/// The scheduler: the arena of deferred steps and, per placeholder, the
/// indices of the steps waiting on it.
pub struct OpScheduler {
    ops: generational_arena::Arena<(usize, usize, usize)>,
    blocked: Vec<Vec<(usize, u64)>>,
}

impl OpScheduler {
    /// The deferred steps currently stored, by arena index.
    pub closed spec fn op_map(&self) -> Map<(usize, u64), (usize, usize, usize)> {
        arena_ops(self.ops)
    }

    /// The step indices filed under one placeholder, oldest first.
    pub closed spec fn filed_at(&self, var: int) -> Seq<(usize, u64)> {
        filed_seq(self.blocked@, var)
    }

    /// An empty scheduler.
    pub fn new() -> (r: OpScheduler)
        ensures
            forall|k: (usize, u64)| !r.op_map().dom().contains(k),
    {
        OpScheduler { ops: arena_new(), blocked: Vec::new() }
    }

    /// Whether no step is pending.
    pub fn is_idle(&self) -> (r: bool)
        ensures
            r == (self.op_map().dom() =~= Set::<(usize, u64)>::empty()),
    {
        arena_is_empty(&self.ops)
    }

    /// Stores the step `(node, var, field)` and files its fresh index under
    /// the placeholder `var` it waits on; other placeholders' files are left
    /// alone.
    #[verifier::loop_isolation(false)]
    pub fn register(&mut self, node: usize, var: usize, field: usize)
        ensures
            exists|k: (usize, u64)|
                !old(self).op_map().dom().contains(k) && final(self).op_map() == old(
                    self).op_map().insert(k, (node, var, field)) && final(self).filed_at(
                    var as int,
                ) == old(self).filed_at(var as int).push(k),
            forall|v2: int|
                v2 != var ==> #[trigger] final(self).filed_at(v2) == old(self).filed_at(v2),
    {
        let idx = arena_insert(&mut self.ops, (node, var, field));
        let ghost m = arena_ops(self.ops);
        let ghost b0 = old(self).blocked@;
        while self.blocked.len() <= var
            invariant
                arena_ops(self.ops) == m,
                b0.len() <= self.blocked@.len(),
                forall|v2: int| #[trigger] filed_seq(self.blocked@, v2) =~= filed_seq(b0, v2),
            decreases var + 1 - self.blocked@.len(),
        {
            let ghost bb = self.blocked@;
            let fresh: Vec<(usize, u64)> = Vec::new();
            self.blocked.push(fresh);
            proof {
                assert forall|v2: int| #[trigger] filed_seq(self.blocked@, v2) =~= filed_seq(
                    b0,
                    v2,
                ) by {
                    if 0 <= v2 < bb.len() {
                        assert(self.blocked@[v2] == bb[v2]);
                        assert(filed_seq(bb, v2) =~= filed_seq(b0, v2));
                    } else if v2 == bb.len() {
                        assert(filed_seq(self.blocked@, v2) =~= Seq::<(usize, u64)>::empty());
                        assert(filed_seq(b0, v2) =~= Seq::<(usize, u64)>::empty());
                    }
                }
            }
        }
        let ghost before = self.blocked@;
        let mut lst = self.blocked.remove(var);
        lst.push(idx);
        self.blocked.insert(var, lst);
        proof {
            assert(self.blocked@ =~= before.update(var as int, lst));
            assert(lst@ =~= filed_seq(before, var as int).push(idx));
            assert(filed_seq(self.blocked@, var as int) =~= filed_seq(b0, var as int).push(idx));
            assert forall|v2: int| v2 != var implies #[trigger] filed_seq(self.blocked@, v2)
                =~= filed_seq(b0, v2) by {
                assert(filed_seq(before, v2) =~= filed_seq(b0, v2));
            }
            assert(!old(self).op_map().dom().contains(idx) && self.op_map() == old(
                self).op_map().insert(idx, (node, var, field)) && self.filed_at(var as int) == old(
                self).filed_at(var as int).push(idx));
        }
    }

    /// Takes exactly the step indices filed under the placeholder `var`,
    /// oldest first, emptying that file and leaving every other one alone;
    /// the steps themselves stay stored until removed.
    pub fn take_blocked(&mut self, var: usize) -> (r: Vec<(usize, u64)>)
        ensures
            final(self).op_map() == old(self).op_map(),
            r@ == old(self).filed_at(var as int),
            final(self).filed_at(var as int) == Seq::<(usize, u64)>::empty(),
            forall|v2: int|
                v2 != var ==> #[trigger] final(self).filed_at(v2) == old(self).filed_at(v2),
    {
        if var < self.blocked.len() {
            let ghost before = self.blocked@;
            let out = self.blocked.remove(var);
            let fresh: Vec<(usize, u64)> = Vec::new();
            self.blocked.insert(var, fresh);
            proof {
                assert(self.blocked@ =~= before.update(var as int, fresh));
                assert(out@ =~= filed_seq(before, var as int));
                assert(self.filed_at(var as int) =~= Seq::<(usize, u64)>::empty());
                assert forall|v2: int| v2 != var implies #[trigger] filed_seq(self.blocked@, v2)
                    =~= filed_seq(before, v2) by {}
            }
            out
        } else {
            proof {
                assert(old(self).filed_at(var as int) =~= Seq::<(usize, u64)>::empty());
            }
            Vec::new()
        }
    }

    /// Removes and returns the step stored under `idx`, if it is still
    /// stored.
    pub fn remove(&mut self, idx: (usize, u64)) -> (r: Option<(usize, usize, usize)>)
        ensures
            old(self).op_map().dom().contains(idx) ==> r == Some(old(self).op_map()[idx]) && final(
                self).op_map() == old(self).op_map().remove(idx),
            !old(self).op_map().dom().contains(idx) ==> r is None && final(self).op_map() == old(
                self).op_map(),
    {
        arena_remove(&mut self.ops, idx)
    }
}

} // verus!
