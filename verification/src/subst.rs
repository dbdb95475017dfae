//! The substitution engine: instantiates a declared (generic,
//! permission-parameterized) type at a use site. Every generic leaf is
//! replaced by the owner's corresponding argument and every permission leaf
//! is composed with the owner's permission under the target family's rule.
//! The result keeps the exact nested shape of its input, stated through the
//! denotation trees of `ty`.

use vstd::prelude::*;
use crate::intern::TyInterner;
use crate::ty::{
    BaseData, BaseKind, DeclaredTy, Family, Perm, Ty, TyTree, bd_eq, compose_owner, denote,
    denote_list, lemma_denote_list_index, lemma_denote_list_len, lemma_denote_prefix,
    spec_compose_owner, ty_rank, wf_items,
};

verus! {

/// The denotation of each type of a list.
pub open spec fn denote_all(items: Seq<BaseData>, gens: Seq<Ty>) -> Seq<TyTree> {
    Seq::new(gens.len(), |i: int| denote(items, gens[i]))
}

/// What substitution produces, as a denotation tree: generic leaves become
/// the owner's arguments, named nodes keep their shape with the owner's
/// permission composed in.
pub open spec fn subst_tree(fam: Family, owner_perm: Perm, owner: Seq<TyTree>, d: DeclaredTy) -> TyTree
    decreases d, 0int,
{
    match d {
        DeclaredTy::Generic(k) => if k < owner.len() {
            owner[k as int]
        } else {
            TyTree::Junk
        },
        DeclaredTy::Named(p, e, args) => TyTree::Node(
            spec_compose_owner(fam, owner_perm, p),
            BaseKind::Named(e),
            subst_tree_list(fam, owner_perm, owner, args@),
        ),
    }
}

/// List form of `subst_tree`.
pub open spec fn subst_tree_list(
    fam: Family,
    owner_perm: Perm,
    owner: Seq<TyTree>,
    args: Seq<DeclaredTy>,
) -> Seq<TyTree>
    decreases args, 1int,
{
    if args.len() == 0 {
        Seq::empty()
    } else {
        seq![subst_tree(fam, owner_perm, owner, args[0])] + subst_tree_list(
            fam,
            owner_perm,
            owner,
            args.drop_first(),
        )
    }
}

/// `subst_tree_list` is the pointwise substitution.
pub proof fn lemma_subst_tree_list_index(
    fam: Family,
    owner_perm: Perm,
    owner: Seq<TyTree>,
    args: Seq<DeclaredTy>,
    k: int,
)
    requires
        0 <= k < args.len(),
    ensures
        subst_tree_list(fam, owner_perm, owner, args).len() == args.len(),
        subst_tree_list(fam, owner_perm, owner, args)[k] == subst_tree(
            fam,
            owner_perm,
            owner,
            args[k],
        ),
    decreases args.len(),
{
    lemma_subst_tree_list_len(fam, owner_perm, owner, args);
    if k > 0 {
        lemma_subst_tree_list_index(fam, owner_perm, owner, args.drop_first(), k - 1);
    }
}

/// The substituted list keeps the length of its input.
pub proof fn lemma_subst_tree_list_len(
    fam: Family,
    owner_perm: Perm,
    owner: Seq<TyTree>,
    args: Seq<DeclaredTy>,
)
    ensures
        subst_tree_list(fam, owner_perm, owner, args).len() == args.len(),
    decreases args.len(),
{
    if args.len() != 0 {
        lemma_subst_tree_list_len(fam, owner_perm, owner, args.drop_first());
    }
}

/// A declared type without generic leaves substitutes the same against any
/// owner argument list.
pub proof fn lemma_subst_tree_closed(
    fam: Family,
    owner_perm: Perm,
    o1: Seq<TyTree>,
    o2: Seq<TyTree>,
    d: DeclaredTy,
)
    requires
        d.fits(0),
    ensures
        subst_tree(fam, owner_perm, o1, d) == subst_tree(fam, owner_perm, o2, d),
    decreases d, 0int,
{
    match d {
        DeclaredTy::Generic(_) => {},
        DeclaredTy::Named(_, _, args) => {
            lemma_subst_tree_list_closed(fam, owner_perm, o1, o2, args@);
        },
    }
}

/// List form of `lemma_subst_tree_closed`.
pub proof fn lemma_subst_tree_list_closed(
    fam: Family,
    owner_perm: Perm,
    o1: Seq<TyTree>,
    o2: Seq<TyTree>,
    args: Seq<DeclaredTy>,
)
    requires
        crate::ty::all_fit(args, 0),
    ensures
        subst_tree_list(fam, owner_perm, o1, args) == subst_tree_list(fam, owner_perm, o2, args),
    decreases args, 1int,
{
    if args.len() > 0 {
        lemma_subst_tree_closed(fam, owner_perm, o1, o2, args[0]);
        lemma_subst_tree_list_closed(fam, owner_perm, o1, o2, args.drop_first());
    }
}

/// Rewrites the declared type `d` into the target family: each generic leaf
/// becomes the owner's argument at that position, each named node is
/// interned with the owner's permission composed in, and the nested shape is
/// preserved exactly, as the denotation equation states. The interner only
/// grows; earlier identities keep their data.
#[verifier::loop_isolation(false)]
pub fn substitute(
    fam: Family,
    interner: &mut TyInterner,
    owner_perm: Perm,
    owner_generics: &Vec<Ty>,
    d: &DeclaredTy,
) -> (r: Ty)
    requires
        old(interner).wf(),
        d.fits(owner_generics@.len() as int),
        forall|j: int|
            0 <= j < owner_generics@.len() ==> #[trigger] ty_rank(owner_generics@[j]) <= old(
                interner,
            )@.len(),
    ensures
        final(interner).wf(),
        old(interner)@.len() <= final(interner)@.len(),
        forall|i: int| 0 <= i < old(interner)@.len() ==> final(interner)@[i] == old(interner)@[i],
        ty_rank(r) <= final(interner)@.len(),
        r.base is Infer ==> exists|q: int|
            0 <= q < owner_generics@.len() && owner_generics@[q] == r,
        denote(final(interner)@, r) == subst_tree(
            fam,
            owner_perm,
            denote_all(old(interner)@, owner_generics@),
            *d,
        ),
    decreases *d,
{
    match d {
        DeclaredTy::Generic(k) => {
            let t = owner_generics[*k];
            proof {
                assert(denote_all(old(interner)@, owner_generics@)[*k as int] == denote(
                    old(interner)@,
                    t,
                ));
            }
            t
        },
        DeclaredTy::Named(p, e, args) => {
            proof {
                assert(*d == DeclaredTy::Named(*p, *e, *args));
                crate::ty::lemma_all_fit(args@, owner_generics@.len() as int);
            }
            let ghost items0 = interner@;
            let ghost ownerd = denote_all(old(interner)@, owner_generics@);
            let mut gens2: Vec<Ty> = Vec::new();
            let mut i: usize = 0;
            while i < args.len()
                invariant
                    i <= args@.len(),
                    gens2@.len() == i,
                    interner.wf(),
                    old(interner)@.len() <= interner@.len(),
                    forall|q: int|
                        0 <= q < old(interner)@.len() ==> interner@[q] == old(interner)@[q],
                    forall|j: int|
                        0 <= j < i ==> #[trigger] ty_rank(gens2@[j]) <= interner@.len(),
                    forall|j: int|
                        0 <= j < i ==> #[trigger] denote(interner@, gens2@[j]) == subst_tree(
                            fam,
                            owner_perm,
                            ownerd,
                            args@[j],
                        ),
                decreases args@.len() - i,
            {
                proof {
                    assert(decreases_to!(*d => (*d)->Named_2));
                    assert((*d)->Named_2 == *args);
                    assert(decreases_to!(*d => args@[i as int]));
                }
                let ghost items_before = interner@;
                let g = substitute(fam, interner, owner_perm, owner_generics, &args[i]);
                proof {
                    // The owner arguments denote the same against the grown
                    // store, so the recursive result is stated against the
                    // original one.
                    assert forall|q: int|
                        0 <= q < owner_generics@.len() implies #[trigger] denote(
                        items_before,
                        owner_generics@[q],
                    ) == denote(old(interner)@, owner_generics@[q]) by {
                        lemma_denote_prefix(old(interner)@, items_before, owner_generics@[q]);
                    }
                    assert(denote_all(items_before, owner_generics@) =~= ownerd);
                    // Earlier results keep their denotation as the store grows.
                    assert forall|j: int| 0 <= j < i implies #[trigger] denote(
                        interner@,
                        gens2@[j],
                    ) == denote(items_before, gens2@[j]) by {
                        lemma_denote_prefix(items_before, interner@, gens2@[j]);
                    }
                }
                gens2.push(g);
                i = i + 1;
            }
            let ghost items1 = interner@;
            let perm = compose_owner(fam, owner_perm, *p);
            let id = interner.intern(BaseData { kind: BaseKind::Named(*e), generics: gens2 });
            let t = Ty { perm, base: crate::ty::Base::Known(id) };
            proof {
                let items2 = interner@;
                assert(bd_eq(
                    items2[id as int],
                    (BaseData { kind: BaseKind::Named(*e), generics: gens2 }),
                ));
                assert forall|j: int| 0 <= j < gens2@.len() implies #[trigger] denote(
                    items2,
                    gens2@[j],
                ) == subst_tree(fam, owner_perm, ownerd, args@[j]) by {
                    lemma_denote_prefix(items1, items2, gens2@[j]);
                }
                // Each stored generic's rank is bounded by the entry itself.
                assert(wf_items(items2));
                let stored = items2[id as int].generics@;
                assert(stored =~= gens2@);
                assert forall|j: int| 0 <= j < stored.len() implies #[trigger] ty_rank(
                    stored[j],
                ) <= id as int by {
                    assert(ty_rank(items2[id as int].generics@[j]) <= id as int);
                }
                assert forall|j: int| 0 <= j < stored.len() implies denote_list(
                    items2,
                    id as int,
                    stored,
                )[j] == #[trigger] subst_tree_list(fam, owner_perm, ownerd, args@)[j] by {
                    lemma_denote_list_index(items2, id as int, stored, j);
                    lemma_subst_tree_list_index(fam, owner_perm, ownerd, args@, j);
                }
                lemma_denote_list_len(items2, id as int, stored);
                lemma_subst_tree_list_len(fam, owner_perm, ownerd, args@);
                assert(denote_list(items2, id as int, stored) =~= subst_tree_list(
                    fam,
                    owner_perm,
                    ownerd,
                    args@,
                ));
            }
            t
        },
    }
}

} // verus!
