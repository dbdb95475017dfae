//! The type-checking engine: walks one function body's HIR children-first,
//! assigns a type to every node, applies the family's hooks, defers steps
//! blocked on unresolved placeholders, and drives the scheduler to a
//! fixpoint. Mismatches are recorded as data and checking always completes
//! its results map; only a stuck scheduler aborts the pass.

use vstd::prelude::*;
use crate::hir::{EntityTable, Expr, FnBody, body_wf, expr_wf, table_wf};
use crate::intern::TyInterner;
use crate::ops::OpScheduler;
use crate::subst::{denote_all, lemma_subst_tree_closed, subst_tree, substitute};
use crate::ty::{
    Base, BaseData, BaseKind, DeclaredTy, Family, Perm, PermKind, Ty, TyTree, decl_fits,
    default_perm, denote, lemma_denote_prefix, spec_compose_owner, spec_default_perm, ty_rank,
};
use crate::unify::{
    UnificationTable, base_val, m_root, m_val, root_of, unify_success, val_of,
};
use vstd::set_lib::{lemma_int_range, lemma_len_subset, set_int_range};

verus! {

/// An error record: the meta index where a mismatch or assignability failure
/// was detected. No message text is produced here.
#[derive(Clone, Copy, Debug, PartialEq, Eq, Structural)]
pub struct Error {
    pub location: usize,
}

/// The fatal terminal state: deferred steps remain but none can make
/// progress, so the pass's results must not be trusted at all.
#[derive(Clone, Copy, Debug, PartialEq, Eq, Structural)]
pub struct StuckCycle;

/// The outcome of one pass: a type for every meta index, appended exactly
/// once during the pass, and the recorded error list.
pub struct TypeCheckResults {
    types: Vec<Option<Ty>>,
    errors: Vec<Error>,
}

impl TypeCheckResults {
    /// The per-index recorded types.
    pub closed spec fn tys(&self) -> Seq<Option<Ty>> {
        self.types@
    }

    /// The recorded errors, in recording order.
    pub closed spec fn errs(&self) -> Seq<Error> {
        self.errors@
    }

    /// An empty results map covering `n` meta indices, none recorded yet.
    pub fn new(n: usize) -> (r: TypeCheckResults)
        ensures
            r.tys().len() == n,
            forall|i: int| 0 <= i < n ==> r.tys()[i] is None,
            r.errs().len() == 0,
    {
        let mut types: Vec<Option<Ty>> = Vec::new();
        let mut i: usize = 0;
        while i < n
            invariant
                i <= n,
                types@.len() == i,
                forall|j: int| 0 <= j < i ==> types@[j] is None,
            decreases n - i,
        {
            types.push(None);
            i = i + 1;
        }
        TypeCheckResults { types, errors: Vec::new() }
    }

    /// Records the type of a meta index; each index is recorded exactly once.
    pub fn record_ty(&mut self, index: usize, ty: Ty)
        requires
            index < old(self).tys().len(),
            old(self).tys()[index as int] is None,
        ensures
            final(self).tys() == old(self).tys().update(index as int, Some(ty)),
            final(self).errs() == old(self).errs(),
    {
        self.types.set(index, Some(ty));
    }

    /// Replaces a recorded type with its resolved form.
    fn resolve_recorded(&mut self, index: usize, ty: Ty)
        requires
            index < old(self).tys().len(),
            old(self).tys()[index as int] is Some,
        ensures
            final(self).tys() == old(self).tys().update(index as int, Some(ty)),
            final(self).errs() == old(self).errs(),
    {
        self.types.set(index, Some(ty));
    }

    /// The recorded type of a meta index.
    pub fn ty(&self, index: usize) -> (r: Ty)
        requires
            index < self.tys().len(),
            self.tys()[index as int] is Some,
        ensures
            self.tys()[index as int] == Some(r),
    {
        match self.types[index] {
            Some(t) => t,
            None => vstd::pervasive::unreached(),
        }
    }

    /// Records an error at the given location.
    pub fn record_error(&mut self, location: usize)
        ensures
            final(self).errs() == old(self).errs().push((Error { location })),
            final(self).tys() == old(self).tys(),
    {
        self.errors.push(Error { location });
    }

    /// How many meta indices the map covers.
    pub fn num_types(&self) -> (r: usize)
        ensures
            r == self.tys().len(),
    {
        self.types.len()
    }

    /// Whether the given meta index has a recorded type.
    pub fn has_ty(&self, index: usize) -> (r: bool)
        requires
            index < self.tys().len(),
        ensures
            r == (self.tys()[index as int] is Some),
    {
        match self.types[index] {
            Some(_) => true,
            None => false,
        }
    }

    /// How many errors were recorded.
    pub fn num_errors(&self) -> (r: usize)
        ensures
            r == self.errs().len(),
    {
        self.errors.len()
    }

    /// The location of the `i`-th recorded error.
    pub fn error_location(&self, i: usize) -> (r: usize)
        requires
            i < self.errs().len(),
        ensures
            r == self.errs()[i as int].location,
    {
        self.errors[i].location
    }
}

impl Default for TypeCheckResults {
    /// An empty results map covering no meta index.
    fn default() -> (r: TypeCheckResults)
        ensures
            r.tys().len() == 0,
            r.errs().len() == 0,
    {
        TypeCheckResults { types: Vec::new(), errors: Vec::new() }
    }
}

/// Every resolved class points below `n`: the table never resolves to an
/// identity the interner has not handed out.
pub open spec fn vals_below(s: Seq<crate::unify::Cell>, n: int) -> bool {
    forall|w: int| (#[trigger] val_of(s, w)) matches Some(id) ==> id < n
}

/// Copies a list of types.
fn clone_tys(v: &Vec<Ty>) -> (r: Vec<Ty>)
    ensures
        r@ == v@,
{
    let mut out: Vec<Ty> = Vec::new();
    let mut i: usize = 0;
    while i < v.len()
        invariant
            i <= v@.len(),
            out@ == v@.take(i as int),
        decreases v@.len() - i,
    {
        out.push(v[i]);
        proof {
            assert(out@ =~= v@.take(i + 1 as int));
        }
        i = i + 1;
    }
    proof {
        assert(v@.take(v@.len() as int) =~= v@);
    }
    out
}

/// Distinct pairs of numbers below `n` cannot outnumber `n * n`.
proof fn lemma_distinct_pairs_bound(s: Seq<(usize, usize)>, n: int)
    requires
        0 <= n,
        s.no_duplicates(),
        forall|i: int| 0 <= i < s.len() ==> (#[trigger] s[i]).0 < n && s[i].1 < n,
    ensures
        s.len() <= n * n,
{
    let codes = s.map(|i: int, p: (usize, usize)| p.0 * n + p.1);
    assert forall|i: int, j: int| 0 <= i < j < codes.len() implies codes[i] != codes[j] by {
        assert(s[i] != s[j]);
        assert(codes[i] == s[i].0 * n + s[i].1);
        assert(codes[j] == s[j].0 * n + s[j].1);
        if s[i].0 == s[j].0 {
            assert(s[i].1 != s[j].1);
        } else {
            assert(s[i].0 * n + s[i].1 != s[j].0 * n + s[j].1) by (nonlinear_arith)
                requires
                    s[i].0 != s[j].0,
                    s[i].1 < n,
                    s[j].1 < n,
                    0 <= s[i].1,
                    0 <= s[j].1,
                    0 <= s[i].0,
                    0 <= s[j].0,
            ;
        }
    }
    assert(codes.no_duplicates());
    codes.unique_seq_to_set();
    assert forall|c: int| codes.to_set().contains(c) implies set_int_range(0, n * n).contains(
        c,
    ) by {
        let i = choose|i: int| 0 <= i < codes.len() && codes[i] == c;
        assert(s[i].0 * n + s[i].1 < n * n) by (nonlinear_arith)
            requires
                s[i].0 < n,
                s[i].1 < n,
                0 <= s[i].0,
                0 <= s[i].1,
        ;
    }
    lemma_int_range(0, n * n);
    lemma_len_subset(codes.to_set(), set_int_range(0, n * n));
}

/// Interns a base with no generic arguments under the family's default
/// permission.
fn intern_simple(fam: Family, interner: &mut TyInterner, kind: BaseKind) -> (r: Ty)
    requires
        old(interner).wf(),
    ensures
        final(interner).wf(),
        old(interner)@.len() <= final(interner)@.len(),
        forall|i: int| 0 <= i < old(interner)@.len() ==> final(interner)@[i] == old(interner)@[i],
        r.perm == spec_default_perm(fam),
        r.base matches Base::Known(id) && id < final(interner)@.len() && final(interner)@[
            r.base->Known_0 as int
        ].kind == kind && final(interner)@[r.base->Known_0 as int].generics@.len() == 0,
        ty_rank(r) <= final(interner)@.len(),
{
    let id = interner.intern(BaseData { kind, generics: Vec::new() });
    Ty { perm: default_perm(fam), base: Base::Known(id) }
}

/// The family's canonical boolean type: the expected type of conditions.
pub fn boolean_type(fam: Family, interner: &mut TyInterner, tab: &EntityTable) -> (r: Ty)
    requires
        old(interner).wf(),
    ensures
        final(interner).wf(),
        old(interner)@.len() <= final(interner)@.len(),
        forall|i: int| 0 <= i < old(interner)@.len() ==> final(interner)@[i] == old(interner)@[i],
        r.perm == spec_default_perm(fam),
        r.base matches Base::Known(id) && id < final(interner)@.len() && final(interner)@[
            r.base->Known_0 as int
        ].kind == BaseKind::Named(tab.boolean_def_id) && final(interner)@[
            r.base->Known_0 as int
        ].generics@.len() == 0,
        ty_rank(r) <= final(interner)@.len(),
{
    intern_simple(fam, interner, BaseKind::Named(tab.boolean_def_id))
}

/// The family's poison type: stands in after a reported mismatch so one
/// fault does not cascade.
pub fn error_type(fam: Family, interner: &mut TyInterner) -> (r: Ty)
    requires
        old(interner).wf(),
    ensures
        final(interner).wf(),
        old(interner)@.len() <= final(interner)@.len(),
        forall|i: int| 0 <= i < old(interner)@.len() ==> final(interner)@[i] == old(interner)@[i],
        r.perm == spec_default_perm(fam),
        r.base matches Base::Known(id) && id < final(interner)@.len() && final(interner)@[
            r.base->Known_0 as int
        ].kind == BaseKind::Error && final(interner)@[r.base->Known_0 as int].generics@.len() == 0,
        ty_rank(r) <= final(interner)@.len(),
{
    intern_simple(fam, interner, BaseKind::Error)
}

/// A fresh inference placeholder lifted to a type of the family.
pub fn new_infer_ty(fam: Family, table: &mut UnificationTable) -> (r: Ty)
    requires
        old(table).wf(),
    ensures
        final(table).wf(),
        final(table).slots().len() == old(table).slots().len() + 1,
        final(table).pending() == old(table).pending(),
        forall|w: int|
            0 <= w < old(table).slots().len() ==> #[trigger] root_of(final(table).slots(), w)
                == root_of(old(table).slots(), w) && val_of(final(table).slots(), w) == val_of(
                old(table).slots(),
                w,
            ),
        r.perm == spec_default_perm(fam),
        r.base == Base::Infer((old(table).slots().len() as usize)),
        val_of(final(table).slots(), old(table).slots().len() as int) is None,
        ty_rank(r) == 0,
{
    let v = table.new_placeholder();
    Ty { perm: default_perm(fam), base: Base::Infer(v) }
}

/// Lifts a place's type into a qualified type for a spelled-out permission
/// at the use site: the erased family ignores it, the declared family
/// composes it with the place's permission.
pub fn apply_user_perm(fam: Family, user: PermKind, place_ty: Ty) -> (r: Ty)
    ensures
        fam is Erased ==> r == place_ty,
        r.base == place_ty.base,
        fam is Declared ==> r.perm == spec_compose_owner(fam, place_ty.perm, user),
{
    match fam {
        Family::Erased => place_ty,
        Family::Declared => Ty {
            perm: crate::ty::compose_owner(fam, place_ty.perm, user),
            base: place_ty.base,
        },
    }
}

/// Both sides already resolved, to base data of different kinds: the
/// mismatch case of `equate_types`.
pub open spec fn resolved_mismatch(items: Seq<BaseData>, s: Seq<crate::unify::Cell>, t1: Ty, t2: Ty) -> bool {
    match (base_val(s, t1.base), base_val(s, t2.base)) {
        (Some(x), Some(y)) => x < items.len() && y < items.len() && items[x as int].kind
            != items[y as int].kind,
        _ => false,
    }
}

/// Both sides already resolved, to base data of one kind and without generic
/// arguments: nothing is merged and nothing can mismatch.
pub open spec fn resolved_same_simple(items: Seq<BaseData>, s: Seq<crate::unify::Cell>, t1: Ty, t2: Ty) -> bool {
    match (base_val(s, t1.base), base_val(s, t2.base)) {
        (Some(x), Some(y)) => x < items.len() && y < items.len() && items[x as int].kind
            == items[y as int].kind && items[x as int].generics@.len() == 0 && items[
            y as int
        ].generics@.len() == 0,
        _ => false,
    }
}

/// A base whose placeholder, if any, belongs to this pass's table.
pub open spec fn base_in(s: Seq<crate::unify::Cell>, b: Base) -> bool {
    b matches Base::Infer(v) ==> v < s.len()
}

/// Whether `w` shares a class with the placeholder behind the base, if any.
pub open spec fn side_hits(s: Seq<crate::unify::Cell>, b: Base, w: int) -> bool {
    b matches Base::Infer(v) && root_of(s, w) == root_of(s, v as int)
}

/// The value map after a mismatch between the two types is poisoned: every
/// class holding either side now resolves to the error identity `err`, all
/// others keep their value.
pub open spec fn poisoned_val(
    s: Seq<crate::unify::Cell>,
    t1: Ty,
    t2: Ty,
    err: usize,
    w: int,
) -> Option<usize> {
    if side_hits(s, t1.base, w) || side_hits(s, t2.base, w) {
        Some(err)
    } else {
        val_of(s, w)
    }
}

/// Mismatch containment: once both placeholder-borne sides of a mismatch
/// resolve to one error-kind identity without arguments, the same pair is in
/// the `resolved_same_simple` case of `equate_types`, which records nothing
/// and changes nothing — no cascading duplicate errors from the same pair.
pub proof fn lemma_mismatch_contained(
    items: Seq<BaseData>,
    s: Seq<crate::unify::Cell>,
    ty1: Ty,
    ty2: Ty,
    err: usize,
)
    requires
        err < items.len(),
        items[err as int].kind is Error,
        items[err as int].generics@.len() == 0,
        ty1.base is Infer,
        ty2.base is Infer,
        ty1.base matches Base::Infer(v) ==> val_of(s, v as int) == Some(err),
        ty2.base matches Base::Infer(v) ==> val_of(s, v as int) == Some(err),
    ensures
        resolved_same_simple(items, s, ty1, ty2),
{
}

/// Decides whether a pair sits in the seen list.
fn pair_seen(seen: &Vec<(usize, usize)>, x: usize, y: usize) -> (r: bool)
    ensures
        r == seen@.contains((x, y)),
{
    let mut i: usize = 0;
    while i < seen.len()
        invariant
            i <= seen@.len(),
            forall|j: int| 0 <= j < i ==> seen@[j] != (x, y),
        decreases seen@.len() - i,
    {
        let p = seen[i];
        if p.0 == x && p.1 == y {
            proof {
                assert(seen@[i as int] == (x, y));
            }
            return true;
        }
        i = i + 1;
    }
    proof {
        assert(!seen@.contains((x, y)));
    }
    false
}

/// Unifies the base components of the two types. On a kind mismatch exactly
/// one error is recorded at `cause` and both placeholder-borne sides are
/// poisoned: their classes resolve to the interned error kind, so the same
/// pair cannot mismatch again. On a kind match each pair of corresponding
/// generic arguments is equated in turn, every pair of identities at most
/// once, so one mismatching pair records one error per call. A placeholder
/// that does not belong to this pass's table is never touched.
#[verifier::loop_isolation(false)]
pub fn equate_types(
    interner: &mut TyInterner,
    table: &mut UnificationTable,
    results: &mut TypeCheckResults,
    cause: usize,
    ty1: Ty,
    ty2: Ty,
)
    requires
        old(interner).wf(),
        old(table).wf(),
        vals_below(old(table).slots(), old(interner)@.len() as int),
        ty_rank(ty1) <= old(interner)@.len(),
        ty_rank(ty2) <= old(interner)@.len(),
    ensures
        final(interner).wf(),
        old(interner)@.len() <= final(interner)@.len(),
        final(interner)@.len() <= old(interner)@.len() + 1,
        forall|i: int| 0 <= i < old(interner)@.len() ==> final(interner)@[i] == old(interner)@[i],
        final(table).wf(),
        final(table).slots().len() == old(table).slots().len(),
        final(table).budget() == old(table).budget(),
        vals_below(final(table).slots(), final(interner)@.len() as int),
        old(table).pending().len() <= final(table).pending().len(),
        forall|i: int|
            0 <= i < old(table).pending().len() ==> #[trigger] final(table).pending()[i] == old(
                table).pending()[i],
        final(results).tys() == old(results).tys(),
        old(results).errs().len() <= final(results).errs().len(),
        forall|i: int|
            0 <= i < final(results).errs().len() ==> #[trigger] final(results).errs()[i] == (if i
                < old(results).errs().len() {
                old(results).errs()[i]
            } else {
                Error { location: cause }
            }),
        resolved_mismatch(old(interner)@, old(table).slots(), ty1, ty2) ==> final(results).errs()
            == old(results).errs().push((Error { location: cause })) && (forall|w: int| #[trigger]
            root_of(final(table).slots(), w) == root_of(old(table).slots(), w)) && (exists|
            err: usize,
        |
            #![auto]
            err < final(interner)@.len() && final(interner)@[err as int].kind is Error && final(
                interner)@[err as int].generics@.len() == 0 && (forall|w: int| #[trigger]
                val_of(final(table).slots(), w) == poisoned_val(
                    old(table).slots(),
                    ty1,
                    ty2,
                    err,
                    w,
                )) && (ty1.base matches Base::Infer(v) ==> val_of(final(table).slots(), v as int)
                == Some(err)) && (ty2.base matches Base::Infer(v) ==> val_of(
                final(table).slots(),
                v as int,
            ) == Some(err))),
        resolved_same_simple(old(interner)@, old(table).slots(), ty1, ty2) ==> final(results).errs()
            == old(results).errs() && (forall|w: int| #[trigger]
            root_of(final(table).slots(), w) == root_of(old(table).slots(), w)) && (forall|w: int|
            #[trigger] val_of(final(table).slots(), w) == val_of(old(table).slots(), w)),
        unify_success(old(table).slots(), ty1.base, ty2.base) && base_in(
            old(table).slots(),
            ty1.base,
        ) && base_in(old(table).slots(), ty2.base) ==> final(results).errs() == old(results).errs()
            && (forall|w: int| #[trigger]
            root_of(final(table).slots(), w) == m_root(
                old(table).slots(),
                ty1.base,
                ty2.base,
                w,
            )) && (forall|w: int| #[trigger]
            val_of(final(table).slots(), w) == m_val(old(table).slots(), ty1.base, ty2.base, w)),
        base_val(old(table).slots(), ty1.base) is Some && base_val(old(table).slots(), ty1.base)
            == base_val(old(table).slots(), ty2.base) ==> final(results).errs() == old(
            results).errs() && (forall|w: int| #[trigger]
            root_of(final(table).slots(), w) == root_of(old(table).slots(), w)) && (forall|w: int|
            #[trigger] val_of(final(table).slots(), w) == val_of(old(table).slots(), w)),
{
    let ghost o = table.slots();
    let ghost e0 = results.errs();
    let ghost samev = base_val(o, ty1.base) is Some && base_val(o, ty1.base) == base_val(
        o,
        ty2.base,
    );
    // The poison identity, interned up front so the store is stable below.
    let err_id = interner.intern(BaseData { kind: BaseKind::Error, generics: Vec::new() });
    let ghost items = interner@;
    let ghost n = interner@.len() as int;
    let mut work: Vec<(Ty, Ty)> = Vec::new();
    let mut seen: Vec<(usize, usize)> = Vec::new();

    // The top pair, handled straight-line so its outcome is pinned exactly.
    let in1 = match ty1.base {
        Base::Infer(v) => v < table.num_vars(),
        Base::Known(_) => true,
    };
    let in2 = match ty2.base {
        Base::Infer(v) => v < table.num_vars(),
        Base::Known(_) => true,
    };
    if !in1 || !in2 {
        return ;
    }
    match table.unify(ty1.base, ty2.base) {
        Ok(()) => {},
        Err((x, y)) => {
            proof {
                assert(x < n && y < n);
            }
            let k1 = interner.lookup(x).kind;
            let k2 = interner.lookup(y).kind;
            if k1 != k2 {
                results.record_error(cause);
                seen.push((x, y));
                let ghost s_before = table.slots();
                match ty1.base {
                    Base::Infer(v) => {
                        proof {
                            assert(val_of(table.slots(), v as int) == Some(x));
                        }
                        table.poison(v, err_id);
                    },
                    Base::Known(_) => {},
                }
                let ghost s_mid = table.slots();
                match ty2.base {
                    Base::Infer(v) => {
                        proof {
                            assert(val_of(table.slots(), v as int) is Some);
                        }
                        table.poison(v, err_id);
                    },
                    Base::Known(_) => {},
                }
                proof {
                    assert forall|w: int| #[trigger]
                        val_of(table.slots(), w) == poisoned_val(o, ty1, ty2, err_id, w) by {
                        assert(val_of(s_before, w) == val_of(o, w));
                        assert(root_of(s_before, w) == root_of(o, w));
                    }
                }
            } else {
                seen.push((x, y));
                let len1 = interner.lookup(x).generics.len();
                let len2 = interner.lookup(y).generics.len();
                let m = if len1 < len2 {
                    len1
                } else {
                    len2
                };
                let ghost su = table.slots();
                let ghost pu = table.pending();
                let mut j: usize = 0;
                while j < m
                    invariant
                        j <= m,
                        work@.len() == j,
                        forall|q: int|
                            0 <= q < j ==> ty_rank((#[trigger] work@[q]).0) <= n && ty_rank(
                                work@[q].1,
                            ) <= n,
                        samev ==> (forall|q: int|
                            0 <= q < work@.len() ==> (#[trigger] work@[q]).0 == work@[q].1),
                        table.slots() == su,
                        table.pending() == pu,
                        results.errs() == e0,
                        results.tys() == old(results).tys(),
                    decreases m - j,
                {
                    let a = interner.lookup(x).generics[j];
                    let b = interner.lookup(y).generics[j];
                    work.push((a, b));
                    j = j + 1;
                }
            }
        },
    }

    proof {
        lemma_distinct_pairs_bound(seen@, n);
    }
    let ghost w0 = work@.len() as int;
    let ghost t1_slots = table.slots();
    let ghost t1_pending = table.pending();
    let ghost e1 = results.errs();

    while work.len() > 0
        invariant
            interner@ == items,
            table.wf(),
            table.slots().len() == o.len(),
            table.budget() == old(table).budget(),
            vals_below(table.slots(), n),
            old(table).pending().len() <= table.pending().len(),
            forall|i: int|
                0 <= i < old(table).pending().len() ==> #[trigger] table.pending()[i] == old(
                    table).pending()[i],
            results.tys() == old(results).tys(),
            e0.len() <= results.errs().len(),
            forall|i: int|
                0 <= i < results.errs().len() ==> #[trigger] results.errs()[i] == (if i < e0.len() {
                    e0[i]
                } else {
                    Error { location: cause }
                }),
            forall|q: int|
                0 <= q < work@.len() ==> ty_rank((#[trigger] work@[q]).0) <= n && ty_rank(
                    work@[q].1,
                ) <= n,
            seen@.no_duplicates(),
            forall|q: int| 0 <= q < seen@.len() ==> (#[trigger] seen@[q]).0 < n && seen@[q].1 < n,
            seen@.len() <= n * n,
            samev ==> (forall|q: int|
                0 <= q < work@.len() ==> (#[trigger] work@[q]).0 == work@[q].1) && results.errs()
                == e0 && (forall|w: int| #[trigger]
                root_of(table.slots(), w) == root_of(o, w)) && (forall|w: int| #[trigger]
                val_of(table.slots(), w) == val_of(o, w)),
            w0 == 0 ==> work@.len() == 0 && table.slots() == t1_slots && table.pending()
                == t1_pending && results.errs() == e1,
        decreases n * n - seen@.len(), work@.len(),
    {
        let pair = match work.pop() {
            Some(p) => p,
            None => vstd::pervasive::unreached(),
        };
        let (a, b) = pair;
        let ina = match a.base {
            Base::Infer(v) => v < table.num_vars(),
            Base::Known(_) => true,
        };
        let inb = match b.base {
            Base::Infer(v) => v < table.num_vars(),
            Base::Known(_) => true,
        };
        if ina && inb {
            match table.unify(a.base, b.base) {
                Ok(()) => {},
                Err((x, y)) => {
                    proof {
                        assert(x < n && y < n);
                    }
                    if !pair_seen(&seen, x, y) {
                        proof {
                            assert(seen@.push((x, y)).no_duplicates());
                            lemma_distinct_pairs_bound(seen@.push((x, y)), n);
                        }
                        seen.push((x, y));
                        let k1 = interner.lookup(x).kind;
                        let k2 = interner.lookup(y).kind;
                        if k1 != k2 {
                            results.record_error(cause);
                            match a.base {
                                Base::Infer(v) => {
                                    proof {
                                        assert(val_of(table.slots(), v as int) == Some(x));
                                    }
                                    table.poison(v, err_id);
                                },
                                Base::Known(_) => {},
                            }
                            match b.base {
                                Base::Infer(v) => {
                                    proof {
                                        assert(val_of(table.slots(), v as int) is Some);
                                    }
                                    table.poison(v, err_id);
                                },
                                Base::Known(_) => {},
                            }
                        } else {
                            let len1 = interner.lookup(x).generics.len();
                            let len2 = interner.lookup(y).generics.len();
                            let m = if len1 < len2 {
                                len1
                            } else {
                                len2
                            };
                            let ghost wbase = work@.len() as int;
                            let mut j: usize = 0;
                            while j < m
                                invariant
                                    j <= m,
                                    work@.len() == wbase + j,
                                    forall|q: int|
                                        0 <= q < work@.len() ==> ty_rank(
                                            (#[trigger] work@[q]).0,
                                        ) <= n && ty_rank(work@[q].1) <= n,
                                    samev ==> (forall|q: int|
                                        0 <= q < work@.len() ==> (#[trigger] work@[q]).0
                                            == work@[q].1) && results.errs() == e0 && (forall|
                                        w: int,
                                    | #[trigger]
                                        root_of(table.slots(), w) == root_of(o, w)) && (forall|
                                        w: int,
                                    | #[trigger]
                                        val_of(table.slots(), w) == val_of(o, w)),
                                    table.wf(),
                                    table.slots().len() == o.len(),
                                    table.budget() == old(table).budget(),
                                    vals_below(table.slots(), n),
                                    old(table).pending().len() <= table.pending().len(),
                                    forall|i: int|
                                        0 <= i < old(table).pending().len() ==> #[trigger] table.pending()[i]
                                            == old(table).pending()[i],
                                    results.tys() == old(results).tys(),
                                    e0.len() <= results.errs().len(),
                                    forall|i: int|
                                        0 <= i < results.errs().len() ==> #[trigger] results.errs()[i]
                                            == (if i < e0.len() {
                                            e0[i]
                                        } else {
                                            Error { location: cause }
                                        }),
                                decreases m - j,
                            {
                                let ga = interner.lookup(x).generics[j];
                                let gb = interner.lookup(y).generics[j];
                                work.push((ga, gb));
                                j = j + 1;
                            }
                        }
                    }
                },
            }
        }
    }
}

/// Assignability: the value's type must equate to the place's declared type.
/// On success the two are unified; on failure one error is recorded at
/// `expression`, both placeholder-borne sides are poisoned, and the caller
/// keeps the place's type, so the declaration wins.
pub fn require_assignable(
    interner: &mut TyInterner,
    table: &mut UnificationTable,
    results: &mut TypeCheckResults,
    expression: usize,
    value_ty: Ty,
    place_ty: Ty,
)
    requires
        old(interner).wf(),
        old(table).wf(),
        vals_below(old(table).slots(), old(interner)@.len() as int),
        ty_rank(value_ty) <= old(interner)@.len(),
        ty_rank(place_ty) <= old(interner)@.len(),
    ensures
        final(interner).wf(),
        old(interner)@.len() <= final(interner)@.len(),
        final(interner)@.len() <= old(interner)@.len() + 1,
        forall|i: int| 0 <= i < old(interner)@.len() ==> final(interner)@[i] == old(interner)@[i],
        final(table).wf(),
        final(table).slots().len() == old(table).slots().len(),
        final(table).budget() == old(table).budget(),
        vals_below(final(table).slots(), final(interner)@.len() as int),
        old(table).pending().len() <= final(table).pending().len(),
        forall|i: int|
            0 <= i < old(table).pending().len() ==> #[trigger] final(table).pending()[i] == old(
                table).pending()[i],
        final(results).tys() == old(results).tys(),
        old(results).errs().len() <= final(results).errs().len(),
        forall|i: int|
            0 <= i < final(results).errs().len() ==> #[trigger] final(results).errs()[i] == (if i
                < old(results).errs().len() {
                old(results).errs()[i]
            } else {
                Error { location: expression }
            }),
        resolved_mismatch(old(interner)@, old(table).slots(), value_ty, place_ty) ==> final(
            results).errs() == old(results).errs().push((Error { location: expression })),
        resolved_same_simple(old(interner)@, old(table).slots(), value_ty, place_ty) ==> final(
            results).errs() == old(results).errs() && (forall|w: int| #[trigger]
            root_of(final(table).slots(), w) == root_of(old(table).slots(), w)) && (forall|w: int|
            #[trigger] val_of(final(table).slots(), w) == val_of(old(table).slots(), w)),
        unify_success(old(table).slots(), value_ty.base, place_ty.base) && base_in(
            old(table).slots(),
            value_ty.base,
        ) && base_in(old(table).slots(), place_ty.base) ==> final(results).errs() == old(
            results).errs() && (forall|w: int| #[trigger]
            root_of(final(table).slots(), w) == m_root(
                old(table).slots(),
                value_ty.base,
                place_ty.base,
                w,
            )) && (forall|w: int| #[trigger]
            val_of(final(table).slots(), w) == m_val(
                old(table).slots(),
                value_ty.base,
                place_ty.base,
                w,
            )),
{
    equate_types(interner, table, results, expression, value_ty, place_ty)
}

/// The type of a conditional: the two arm types are equated — unifying them
/// on success, recording one mismatch at the conditional and poisoning the
/// placeholder-borne sides if they disagree — and the true arm's type is the
/// result either way, a deliberate continue-checking policy.
pub fn least_upper_bound(
    interner: &mut TyInterner,
    table: &mut UnificationTable,
    results: &mut TypeCheckResults,
    if_expression: usize,
    true_ty: Ty,
    false_ty: Ty,
) -> (r: Ty)
    requires
        old(interner).wf(),
        old(table).wf(),
        vals_below(old(table).slots(), old(interner)@.len() as int),
        ty_rank(true_ty) <= old(interner)@.len(),
        ty_rank(false_ty) <= old(interner)@.len(),
    ensures
        r == true_ty,
        final(interner).wf(),
        old(interner)@.len() <= final(interner)@.len(),
        final(interner)@.len() <= old(interner)@.len() + 1,
        forall|i: int| 0 <= i < old(interner)@.len() ==> final(interner)@[i] == old(interner)@[i],
        final(table).wf(),
        final(table).slots().len() == old(table).slots().len(),
        final(table).budget() == old(table).budget(),
        vals_below(final(table).slots(), final(interner)@.len() as int),
        old(table).pending().len() <= final(table).pending().len(),
        forall|i: int|
            0 <= i < old(table).pending().len() ==> #[trigger] final(table).pending()[i] == old(
                table).pending()[i],
        final(results).tys() == old(results).tys(),
        old(results).errs().len() <= final(results).errs().len(),
        forall|i: int|
            0 <= i < final(results).errs().len() ==> #[trigger] final(results).errs()[i] == (if i
                < old(results).errs().len() {
                old(results).errs()[i]
            } else {
                Error { location: if_expression }
            }),
        resolved_mismatch(old(interner)@, old(table).slots(), true_ty, false_ty) ==> final(
            results).errs() == old(results).errs().push((Error { location: if_expression })),
        resolved_same_simple(old(interner)@, old(table).slots(), true_ty, false_ty) ==> final(
            results).errs() == old(results).errs() && (forall|w: int| #[trigger]
            root_of(final(table).slots(), w) == root_of(old(table).slots(), w)) && (forall|w: int|
            #[trigger] val_of(final(table).slots(), w) == val_of(old(table).slots(), w)),
        unify_success(old(table).slots(), true_ty.base, false_ty.base) && base_in(
            old(table).slots(),
            true_ty.base,
        ) && base_in(old(table).slots(), false_ty.base) ==> final(results).errs() == old(
            results).errs() && (forall|w: int| #[trigger]
            root_of(final(table).slots(), w) == m_root(
                old(table).slots(),
                true_ty.base,
                false_ty.base,
                w,
            )) && (forall|w: int| #[trigger]
            val_of(final(table).slots(), w) == m_val(
                old(table).slots(),
                true_ty.base,
                false_ty.base,
                w,
            )),
{
    equate_types(interner, table, results, if_expression, true_ty, false_ty);
    true_ty
}

/// The type of a field access once the owner's base data is known: the
/// field's declared type instantiated with the owner's generic arguments and
/// permission. An owner of the error kind poisons the access silently; a
/// missing entity, field position or argument list records an error at
/// `node` and hands back the poison type.
fn field_ty(
    fam: Family,
    interner: &mut TyInterner,
    tab: &EntityTable,
    results: &mut TypeCheckResults,
    node: usize,
    owner_perm: Perm,
    id: usize,
    k: usize,
) -> (r: Ty)
    requires
        old(interner).wf(),
        table_wf(*tab),
        id < old(interner)@.len(),
    ensures
        final(interner).wf(),
        old(interner)@.len() <= final(interner)@.len(),
        forall|i: int| 0 <= i < old(interner)@.len() ==> final(interner)@[i] == old(interner)@[i],
        ty_rank(r) <= final(interner)@.len(),
        final(results).tys() == old(results).tys(),
        old(results).errs().len() <= final(results).errs().len(),
        forall|i: int|
            0 <= i < final(results).errs().len() ==> #[trigger] final(results).errs()[i] == (if i
                < old(results).errs().len() {
                old(results).errs()[i]
            } else {
                Error { location: node }
            }),
{
    let kind = interner.lookup(id).kind;
    match kind {
        BaseKind::Error => error_type(fam, interner),
        BaseKind::Named(e) => {
            if e < tab.defs.len() {
                let gens = clone_tys(&interner.lookup(id).generics);
                proof {
                    assert forall|j: int| 0 <= j < gens@.len() implies #[trigger] ty_rank(
                        gens@[j],
                    ) <= interner@.len() by {
                        assert(ty_rank(interner@[id as int].generics@[j]) <= id as int);
                    }
                }
                if k < tab.defs[e].fields.len() && decl_fits(&tab.defs[e].fields[k], gens.len()) {
                    substitute(fam, interner, owner_perm, &gens, &tab.defs[e].fields[k])
                } else {
                    results.record_error(node);
                    error_type(fam, interner)
                }
            } else {
                results.record_error(node);
                error_type(fam, interner)
            }
        },
    }
}

/// Checks one function body against the referenced signatures under the
/// given family. Every expression is assigned a type, children first;
/// assignability and arm agreement go through the unification table; a field
/// access whose owner is still unresolved is deferred and replayed when the
/// placeholder transitions. On completion the results map holds one resolved
/// type per meta index; a scheduler that can make no more progress while
/// steps remain is the fatal stuck state and yields no results at all.
#[verifier::loop_isolation(false)]
#[verifier::rlimit(100)]
pub fn check(
    fam: Family,
    interner: &mut TyInterner,
    body: &FnBody,
    tab: &EntityTable,
) -> (r: Result<TypeCheckResults, StuckCycle>)
    requires
        old(interner).wf(),
        body_wf(*body, *tab),
        table_wf(*tab),
    ensures
        final(interner).wf(),
        old(interner)@.len() <= final(interner)@.len(),
        forall|i: int| 0 <= i < old(interner)@.len() ==> final(interner)@[i] == old(interner)@[i],
        r matches Ok(res) ==> res.tys().len() == body.exprs@.len() && (forall|i: int|
            0 <= i < body.exprs@.len() ==> res.tys()[i] is Some),
        (forall|i: int| 0 <= i < body.exprs@.len() ==> !((#[trigger] body.exprs@[i]) is Field))
            ==> r is Ok,
        r matches Ok(res) ==> (forall|d: DeclaredTy|
            body.vars@[0] == Some(d) && body.exprs@.len() > 0 && d.fits(0)
                ==> res.tys()[body.exprs@.len() - 1] is Some && (res.tys()[body.exprs@.len()
                    - 1]->0).base is Known && denote(
                    final(interner)@,
                    res.tys()[body.exprs@.len() - 1]->0,
                ) == #[trigger] subst_tree(fam, spec_default_perm(fam), Seq::<TyTree>::empty(), d)),
{
    let ghost nofield = forall|i: int|
        0 <= i < body.exprs@.len() ==> !((#[trigger] body.exprs@[i]) is Field);
    let ghost d0 = choose|dd: DeclaredTy| body.vars@[0] == Some(dd);
    let ghost rootdecl = body.exprs@.len() > 0 && body.vars@[0] is Some && d0.fits(0);
    let ghost target = subst_tree(fam, spec_default_perm(fam), Seq::<TyTree>::empty(), d0);
    let nexprs = body.exprs.len();
    let nvars = body.vars.len();
    let mut table = UnificationTable::new();
    let mut sched = OpScheduler::new();
    let mut results = TypeCheckResults::new(nexprs);

    // The owning function's generic parameters, as fresh placeholders the
    // declared variable types are instantiated with.
    let mut fn_generics: Vec<Ty> = Vec::new();
    let mut gi: usize = 0;
    while gi < body.n_generics
        invariant
            gi <= body.n_generics,
            fn_generics@.len() == gi,
            table.wf(),
            table.pending().len() == 0,
            vals_below(table.slots(), interner@.len() as int),
            forall|q: int| 0 <= q < gi ==> ty_rank(#[trigger] fn_generics@[q]) == 0,
        decreases body.n_generics - gi,
    {
        let t = new_infer_ty(fam, &mut table);
        fn_generics.push(t);
        gi = gi + 1;
    }

    // Variable types: declared ones instantiated, the rest fresh
    // placeholders.
    let mut var_tys: Vec<Ty> = Vec::new();
    let mut vi: usize = 0;
    while vi < nvars
        invariant
            vi <= nvars,
            var_tys@.len() == vi,
            nvars == body.vars@.len(),
            fn_generics@.len() == body.n_generics,
            forall|q: int| 0 <= q < fn_generics@.len() ==> ty_rank(#[trigger] fn_generics@[q]) == 0,
            interner.wf(),
            old(interner)@.len() <= interner@.len(),
            forall|q: int| 0 <= q < old(interner)@.len() ==> interner@[q] == old(interner)@[q],
            table.wf(),
            vals_below(table.slots(), interner@.len() as int),
            forall|q: int|
                0 <= q < vi ==> ty_rank(#[trigger] var_tys@[q]) <= interner@.len(),
            rootdecl && vi > 0 ==> var_tys@[0].base is Known && denote(interner@, var_tys@[0])
                == target,
        decreases nvars - vi,
    {
        let ghost ib = interner@;
        let t = match &body.vars[vi] {
            Some(dd) => substitute(fam, interner, default_perm(fam), &fn_generics, dd),
            None => new_infer_ty(fam, &mut table),
        };
        var_tys.push(t);
        proof {
            if rootdecl {
                if vi == 0 {
                    assert(body.vars@[0] == Some(d0));
                    lemma_subst_tree_closed(
                        fam,
                        spec_default_perm(fam),
                        denote_all(ib, fn_generics@),
                        Seq::<TyTree>::empty(),
                        d0,
                    );
                    assert(d0 is Named);
                    assert(denote(interner@, var_tys@[0]) == target);
                } else {
                    lemma_denote_prefix(ib, interner@, var_tys@[0]);
                }
            }
        }
        vi = vi + 1;
    }

    // Traversal, children first: every expression gets its type; the last
    // one is the function's result and must be assignable to the return
    // slot, whose declared type wins.
    let mut i: usize = 0;
    while i < nexprs
        invariant
            i <= nexprs,
            nexprs == body.exprs@.len(),
            nvars == body.vars@.len(),
            var_tys@.len() == nvars,
            interner.wf(),
            old(interner)@.len() <= interner@.len(),
            forall|q: int| 0 <= q < old(interner)@.len() ==> interner@[q] == old(interner)@[q],
            table.wf(),
            vals_below(table.slots(), interner@.len() as int),
            forall|q: int|
                0 <= q < nvars ==> ty_rank(#[trigger] var_tys@[q]) <= interner@.len(),
            results.tys().len() == nexprs,
            forall|j: int| 0 <= j < nexprs ==> ((#[trigger] results.tys()[j] is Some) == (j < i)),
            forall|j: int|
                0 <= j < i ==> (#[trigger] results.tys()[j] matches Some(t) && ty_rank(t)
                    <= interner@.len()),
            forall|kk: (usize, u64)|
                sched.op_map().dom().contains(kk) ==> (#[trigger] sched.op_map()[kk]).0 < nexprs
                    && sched.op_map()[kk].1 < table.slots().len(),
            nofield ==> (forall|kk: (usize, u64)| !(#[trigger] sched.op_map().dom().contains(kk))),
            rootdecl ==> var_tys@[0].base is Known && denote(interner@, var_tys@[0]) == target,
            i == nexprs && nexprs > 0 ==> results.tys()[nexprs - 1] == Some(var_tys@[0]),
        decreases nexprs - i,
    {
        let ghost ib = interner@;
        proof {
            assert(expr_wf(body.exprs@[i as int], i as int, *body, *tab));
        }
        let tyi: Ty = type_of_expr(
            fam,
            interner,
            &mut table,
            &mut sched,
            &mut results,
            &var_tys,
            body,
            tab,
            i,
        );
        if i + 1 == nexprs {
            let rty = var_tys[0];
            require_assignable(interner, &mut table, &mut results, i, tyi, rty);
            results.record_ty(i, rty);
        } else {
            results.record_ty(i, tyi);
        }
        proof {
            if rootdecl {
                lemma_denote_prefix(ib, interner@, var_tys@[0]);
            }
        }
        i = i + 1;
    }

    // The scheduler's fixpoint: every slot transition wakes the steps filed
    // under it; a woken step completes or re-blocks on its current
    // representative. Each transition is looked at once, so the table's
    // budget bounds the loop.
    loop
        invariant
            nexprs == body.exprs@.len(),
            interner.wf(),
            old(interner)@.len() <= interner@.len(),
            forall|q: int| 0 <= q < old(interner)@.len() ==> interner@[q] == old(interner)@[q],
            table.wf(),
            vals_below(table.slots(), interner@.len() as int),
            results.tys().len() == nexprs,
            forall|j: int| 0 <= j < nexprs ==> (#[trigger] results.tys()[j]) is Some,
            forall|j: int|
                0 <= j < nexprs ==> (#[trigger] results.tys()[j] matches Some(t) && ty_rank(t)
                    <= interner@.len()),
            forall|kk: (usize, u64)|
                sched.op_map().dom().contains(kk) ==> (#[trigger] sched.op_map()[kk]).0 < nexprs
                    && sched.op_map()[kk].1 < table.slots().len(),
            nofield ==> (forall|kk: (usize, u64)| !(#[trigger] sched.op_map().dom().contains(kk))),
            rootdecl ==> var_tys@[0].base is Known && ty_rank(var_tys@[0]) <= interner@.len()
                && denote(interner@, var_tys@[0]) == target,
            rootdecl ==> results.tys()[nexprs - 1] == Some(var_tys@[0]),
        decreases table.budget(),
    {
        let ev = table.pop_event();
        match ev {
            None => {
                break ;
            },
            Some(v) => {
                let list = sched.take_blocked(v);
                let ghost b_after_pop = table.budget();
                let mut li: usize = 0;
                while li < list.len()
                    invariant
                        li <= list@.len(),
                        nexprs == body.exprs@.len(),
                        interner.wf(),
                        old(interner)@.len() <= interner@.len(),
                        forall|q: int|
                            0 <= q < old(interner)@.len() ==> interner@[q] == old(interner)@[q],
                        table.wf(),
                        table.budget() == b_after_pop,
                        vals_below(table.slots(), interner@.len() as int),
                        results.tys().len() == nexprs,
                        forall|j: int| 0 <= j < nexprs ==> (#[trigger] results.tys()[j]) is Some,
                        forall|j: int|
                            0 <= j < nexprs ==> (#[trigger] results.tys()[j] matches Some(t)
                                && ty_rank(t) <= interner@.len()),
                        forall|kk: (usize, u64)|
                            sched.op_map().dom().contains(kk) ==> (#[trigger] sched.op_map()[
                                kk
                            ]).0 < nexprs && sched.op_map()[kk].1 < table.slots().len(),
                        nofield ==> (forall|kk: (usize, u64)|
                            !(#[trigger] sched.op_map().dom().contains(kk))),
                        rootdecl ==> var_tys@[0].base is Known && ty_rank(var_tys@[0])
                            <= interner@.len() && denote(interner@, var_tys@[0]) == target,
                        rootdecl ==> results.tys()[nexprs - 1] == Some(var_tys@[0]),
                    decreases list@.len() - li,
                {
                    let ghost ib = interner@;
                    let idx = list[li];
                    match sched.remove(idx) {
                        None => {},
                        Some(op) => {
                            let found = table.find(op.1);
                            match found.1 {
                                None => {
                                    sched.register(op.0, found.0, op.2);
                                },
                                Some(id) => {
                                    let nty = results.ty(op.0);
                                    let fty = field_ty(
                                        fam,
                                        interner,
                                        tab,
                                        &mut results,
                                        op.0,
                                        nty.perm,
                                        id,
                                        op.2,
                                    );
                                    equate_types(interner, &mut table, &mut results, op.0, nty, fty);
                                },
                            }
                        },
                    }
                    proof {
                        if rootdecl {
                            lemma_denote_prefix(ib, interner@, var_tys@[0]);
                        }
                    }
                    li = li + 1;
                }
            },
        }
    }

    if !sched.is_idle() {
        proof {
            if nofield {
                assert(sched.op_map().dom() =~= Set::<(usize, u64)>::empty());
            }
        }
        return Err(StuckCycle);
    }

    // Resolve every recorded type through the table; a placeholder that
    // nothing constrained becomes the poison type and the node is flagged.
    let mut fi: usize = 0;
    while fi < nexprs
        invariant
            fi <= nexprs,
            nexprs == body.exprs@.len(),
            interner.wf(),
            old(interner)@.len() <= interner@.len(),
            forall|q: int| 0 <= q < old(interner)@.len() ==> interner@[q] == old(interner)@[q],
            table.wf(),
            vals_below(table.slots(), interner@.len() as int),
            results.tys().len() == nexprs,
            forall|j: int| 0 <= j < nexprs ==> (#[trigger] results.tys()[j]) is Some,
            forall|j: int|
                0 <= j < nexprs ==> (#[trigger] results.tys()[j] matches Some(t) && ty_rank(t)
                    <= interner@.len()),
            rootdecl ==> var_tys@[0].base is Known && ty_rank(var_tys@[0]) <= interner@.len()
                && denote(interner@, var_tys@[0]) == target,
            rootdecl ==> results.tys()[nexprs - 1] == Some(var_tys@[0]),
        decreases nexprs - fi,
    {
        let ghost ib = interner@;
        let t = results.ty(fi);
        match t.base {
            Base::Known(_) => {},
            Base::Infer(v) => {
                if v >= table.num_vars() {
                    results.record_error(fi);
                    let et = error_type(fam, interner);
                    results.resolve_recorded(fi, et);
                    proof {
                        if rootdecl {
                            lemma_denote_prefix(ib, interner@, var_tys@[0]);
                        }
                    }
                    fi = fi + 1;
                    continue ;
                }
                let found = table.find(v);
                match found.1 {
                    Some(id) => {
                        results.resolve_recorded(fi, Ty { perm: t.perm, base: Base::Known(id) });
                    },
                    None => {
                        results.record_error(fi);
                        let et = error_type(fam, interner);
                        results.resolve_recorded(fi, et);
                    },
                }
            },
        }
        proof {
            if rootdecl {
                lemma_denote_prefix(ib, interner@, var_tys@[0]);
            }
        }
        fi = fi + 1;
    }
    Ok(results)
}


/// Assigns a type to the expression at meta index `i`: literals and
/// operators get the named builtin kinds, calls instantiate the callee's
/// declared signature with fresh placeholders, a field access on an
/// unresolved owner defers a step on the owner's representative, and every
/// sub-expression requirement goes through the unification table.
#[verifier::loop_isolation(false)]
#[verifier::rlimit(100)]
fn type_of_expr(
    fam: Family,
    interner: &mut TyInterner,
    table: &mut UnificationTable,
    sched: &mut OpScheduler,
    results: &mut TypeCheckResults,
    var_tys: &Vec<Ty>,
    body: &FnBody,
    tab: &EntityTable,
    i: usize,
) -> (r: Ty)
    requires
        old(interner).wf(),
        body_wf(*body, *tab),
        table_wf(*tab),
        old(table).wf(),
        vals_below(old(table).slots(), old(interner)@.len() as int),
        i < body.exprs@.len(),
        var_tys@.len() == body.vars@.len(),
        forall|q: int|
            0 <= q < var_tys@.len() ==> ty_rank(#[trigger] var_tys@[q]) <= old(interner)@.len()
               ,
        old(results).tys().len() == body.exprs@.len(),
        forall|j: int|
            0 <= j < body.exprs@.len() ==> ((#[trigger] old(results).tys()[j] is Some) == (j < i)),
        forall|j: int|
            0 <= j < i ==> (#[trigger] old(results).tys()[j] matches Some(t) && ty_rank(t) <= old(
                interner)@.len()),
        forall|kk: (usize, u64)|
            old(sched).op_map().dom().contains(kk) ==> (#[trigger] old(sched).op_map()[kk]).0
                < body.exprs@.len() && old(sched).op_map()[kk].1 < old(table).slots().len(),
    ensures
        final(interner).wf(),
        old(interner)@.len() <= final(interner)@.len(),
        forall|q: int| 0 <= q < old(interner)@.len() ==> final(interner)@[q] == old(interner)@[q],
        final(table).wf(),
        old(table).slots().len() <= final(table).slots().len(),
        vals_below(final(table).slots(), final(interner)@.len() as int),
        final(results).tys() == old(results).tys(),
        ty_rank(r) <= final(interner)@.len(),
        forall|kk: (usize, u64)|
            final(sched).op_map().dom().contains(kk) ==> (#[trigger] final(sched).op_map()[kk]).0
                < body.exprs@.len() && final(sched).op_map()[kk].1 < final(table).slots().len(),
        !(body.exprs@[i as int] is Field) ==> final(sched).op_map() == old(sched).op_map(),
{
    proof {
        assert(expr_wf(body.exprs@[i as int], i as int, *body, *tab));
    }
    let r: Ty = match &body.exprs[i] {
            Expr::LitInt => intern_simple(fam, interner, BaseKind::Named(tab.int_def_id)),
            Expr::LitText => intern_simple(fam, interner, BaseKind::Named(tab.text_def_id)),
            Expr::VarRef(v, po) => {
                let t = var_tys[*v];
                match po {
                    Some(p) => apply_user_perm(fam, *p, t),
                    None => t,
                }
            },
            Expr::Binary(_, a, b) => {
                let int_ty = intern_simple(fam, interner, BaseKind::Named(tab.int_def_id));
                let ta = results.ty(*a);
                let tb = results.ty(*b);
                equate_types(interner, table, results, i, ta, int_ty);
                equate_types(interner, table, results, i, tb, int_ty);
                int_ty
            },
            Expr::If(c, a, b) => {
                let bool_ty = boolean_type(fam, interner, tab);
                let tc = results.ty(*c);
                equate_types(interner, table, results, i, tc, bool_ty);
                let ta = results.ty(*a);
                let tb = results.ty(*b);
                least_upper_bound(interner, table, results, i, ta, tb)
            },
            Expr::Call(d, args) => {
                let ng = tab.defs[*d].n_generics;
                let mut generics: Vec<Ty> = Vec::new();
                let mut g: usize = 0;
                while g < ng
                    invariant
                        g <= ng,
                        generics@.len() == g,
                        table.wf(),
                        old(table).slots().len() <= table.slots().len(),
                        results.tys() == old(results).tys(),
                        vals_below(table.slots(), interner@.len() as int),
                        forall|q: int|
                            0 <= q < g ==> ty_rank(#[trigger] generics@[q]) == 0,
                        forall|q: int|
                            0 <= q < var_tys@.len() ==> ty_rank(#[trigger] var_tys@[q]) <= interner@.len()
                               ,
                        forall|j: int|
                            0 <= j < i ==> (#[trigger] results.tys()[j] matches Some(t) && ty_rank(
                                t,
                            ) <= interner@.len()),
                        forall|kk: (usize, u64)|
                            sched.op_map().dom().contains(kk) ==> (#[trigger] sched.op_map()[
                                kk
                            ]).0 < body.exprs@.len() && sched.op_map()[kk].1 < table.slots().len(),
                    decreases ng - g,
                {
                    let t = new_infer_ty(fam, table);
                    generics.push(t);
                    g = g + 1;
                }
                match &tab.defs[*d].fn_sig {
                    Some(sig) => {
                        let mut j: usize = 0;
                        while j < args.len()
                            invariant
                                j <= args@.len(),
                                args@.len() == sig.inputs@.len(),
                                old(table).slots().len() <= table.slots().len(),
                                results.tys() == old(results).tys(),
                                generics@.len() == tab.defs@[*d as int].n_generics,
                                interner.wf(),
                                old(interner)@.len() <= interner@.len(),
                                forall|q: int|
                                    0 <= q < old(interner)@.len() ==> interner@[q] == old(
                                        interner,
                                    )@[q],
                                table.wf(),
                                vals_below(table.slots(), interner@.len() as int),
                                forall|q: int|
                                    0 <= q < generics@.len() ==> ty_rank(
                                        #[trigger] generics@[q],
                                    ) == 0,
                                forall|q: int|
                                    0 <= q < var_tys@.len() ==> ty_rank(#[trigger] var_tys@[q])
                                        <= interner@.len(),
                                results.tys().len() == body.exprs@.len(),
                                forall|jj: int|
                                    0 <= jj < body.exprs@.len() ==> ((#[trigger] results.tys()[jj] is Some)
                                        == (jj < i)),
                                forall|jj: int|
                                    0 <= jj < i ==> (#[trigger] results.tys()[jj] matches Some(t)
                                        && ty_rank(t) <= interner@.len()),
                                forall|kk: (usize, u64)|
                                    sched.op_map().dom().contains(kk) ==> (#[trigger] sched.op_map()[
                                        kk
                                    ]).0 < body.exprs@.len() && sched.op_map()[kk].1 < table.slots().len(),
                            decreases args@.len() - j,
                        {
                            let pty = substitute(
                                fam,
                                interner,
                                default_perm(fam),
                                &generics,
                                &sig.inputs[j],
                            );
                            let aty = results.ty(args[j]);
                            require_assignable(interner, table, results, args[j], aty, pty);
                            j = j + 1;
                        }
                        let out = substitute(fam, interner, default_perm(fam), &generics, &sig.output);
                        out
                    },
                    None => vstd::pervasive::unreached(),
                }
            },
            Expr::Field(o, kf) => {
                let oty = results.ty(*o);
                match oty.base {
                    Base::Known(id) => field_ty(fam, interner, tab, results, i, oty.perm, id, *kf),
                    Base::Infer(v) => {
                        if v >= table.num_vars() {
                            // A placeholder of another pass's table: not ours
                            // to resolve.
                            results.record_error(i);
                            return error_type(fam, interner);
                        }
                        let found = table.find(v);
                        match found.1 {
                            Some(id) => field_ty(
                                fam,
                                interner,
                                tab,
                                results,
                                i,
                                oty.perm,
                                id,
                                *kf,
                            ),
                            None => {
                                let t = new_infer_ty(fam, table);
                                sched.register(i, found.0, *kf);
                                t
                            },
                        }
                    },
                }
            },
            Expr::Sequence(_, b) => {
                let t = results.ty(*b);
                t
            },
    };
    r
}

} // verus!
