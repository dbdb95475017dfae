//! The structural representation of types shared by every checking pass:
//! permissions, base kinds, interned base data, the declared-family types
//! found in signatures, and the ghost denotation trees that the contracts
//! speak of.

use vstd::prelude::*;
use crate::ir::DefId;

verus! {

/// A permission qualifier on a type, tracked only by the declared family.
#[derive(Clone, Copy, Debug, PartialEq, Eq, Structural)]
pub enum PermKind {
    /// Full ownership of the value.
    Own,
    /// Shared read access.
    Share,
    /// Temporary borrowed access.
    Borrow,
}

/// Strictness level of a permission: a larger level grants more access.
pub open spec fn spec_perm_level(p: PermKind) -> int {
    match p {
        PermKind::Borrow => 0,
        PermKind::Share => 1,
        PermKind::Own => 2,
    }
}

/// The stricter of two permissions: the one granting less access.
pub open spec fn spec_stricter(a: PermKind, b: PermKind) -> PermKind {
    if spec_perm_level(a) <= spec_perm_level(b) {
        a
    } else {
        b
    }
}

/// Composition of an owner's permission with a declared permission: the
/// stricter of the two wins.
pub fn compose_perms(owner: PermKind, declared: PermKind) -> (r: PermKind)
    ensures
        r == spec_stricter(owner, declared),
{
    let lo: u8 = match owner {
        PermKind::Borrow => 0,
        PermKind::Share => 1,
        PermKind::Own => 2,
    };
    let ld: u8 = match declared {
        PermKind::Borrow => 0,
        PermKind::Share => 1,
        PermKind::Own => 2,
    };
    if lo <= ld {
        owner
    } else {
        declared
    }
}

/// The permission component of a type: absent in the erased family, a
/// concrete qualifier in the declared family.
#[derive(Clone, Copy, Debug, PartialEq, Eq, Structural)]
pub enum Perm {
    Erased,
    Granted(PermKind),
}

/// The two policies a checking pass can be instantiated with: the erased
/// family ignores permissions, the declared family composes them.
#[derive(Clone, Copy, Debug, PartialEq, Eq, Structural)]
pub enum Family {
    Erased,
    Declared,
}

/// How a family turns an owner's permission and a declared permission into
/// the permission of an instantiated type.
pub open spec fn spec_compose_owner(fam: Family, owner: Perm, declared: PermKind) -> Perm {
    match fam {
        Family::Erased => Perm::Erased,
        Family::Declared => match owner {
            Perm::Granted(p) => Perm::Granted(spec_stricter(p, declared)),
            Perm::Erased => Perm::Granted(declared),
        },
    }
}

/// Composes an owner's permission with a declared one under the given
/// family's rule: the erased family discards both, the declared family keeps
/// the stricter.
pub fn compose_owner(fam: Family, owner: Perm, declared: PermKind) -> (r: Perm)
    ensures
        r == spec_compose_owner(fam, owner, declared),
{
    match fam {
        Family::Erased => Perm::Erased,
        Family::Declared => match owner {
            Perm::Granted(p) => Perm::Granted(compose_perms(p, declared)),
            Perm::Erased => Perm::Granted(declared),
        },
    }
}

/// The permission a family gives to types it builds itself.
pub open spec fn spec_default_perm(fam: Family) -> Perm {
    match fam {
        Family::Erased => Perm::Erased,
        Family::Declared => Perm::Granted(PermKind::Own),
    }
}

/// The default permission of freshly built types of the given family.
pub fn default_perm(fam: Family) -> (r: Perm)
    ensures
        r == spec_default_perm(fam),
{
    match fam {
        Family::Erased => Perm::Erased,
        Family::Declared => Perm::Granted(PermKind::Own),
    }
}

/// The structural kind of base data: a named declaration or the poison kind
/// standing in after a reported mismatch.
#[derive(Clone, Copy, Debug, PartialEq, Eq, Structural)]
pub enum BaseKind {
    Named(DefId),
    Error,
}

/// The base component of a type: an inference placeholder or an interned
/// identity.
#[derive(Clone, Copy, Debug, PartialEq, Eq, Structural)]
pub enum Base {
    /// Handle into a pass's unification table.
    Infer(usize),
    /// Identity of canonical base data in the interner.
    Known(usize),
}

/// A type: its permission and its base component. Cheap to copy.
#[derive(Clone, Copy, Debug, PartialEq, Eq, Structural)]
pub struct Ty {
    pub perm: Perm,
    pub base: Base,
}

/// Canonicalized structural data of a type: its kind and its generic
/// arguments, in order.
#[derive(Debug)]
pub struct BaseData {
    pub kind: BaseKind,
    pub generics: Vec<Ty>,
}

/// Structural equality of base data.
pub open spec fn bd_eq(a: BaseData, b: BaseData) -> bool {
    a.kind == b.kind && a.generics@ =~= b.generics@
}

/// Decides structural equality of two base data values.
pub fn base_data_eq(a: &BaseData, b: &BaseData) -> (r: bool)
    ensures
        r == bd_eq(*a, *b),
{
    if a.kind != b.kind {
        return false;
    }
    if a.generics.len() != b.generics.len() {
        return false;
    }
    let mut i: usize = 0;
    while i < a.generics.len()
        invariant
            i <= a.generics@.len(),
            a.generics@.len() == b.generics@.len(),
            forall|j: int| 0 <= j < i ==> a.generics@[j] == b.generics@[j],
        decreases a.generics@.len() - i,
    {
        if a.generics[i] != b.generics[i] {
            return false;
        }
        i = i + 1;
    }
    true
}

/// A type of the declared family as signatures spell it: an arbitrarily
/// nested shape whose leaves are either generic parameters of the owner or
/// named entities carrying a declared permission.
#[derive(Debug)]
pub enum DeclaredTy {
    /// The owner's generic parameter with the given position.
    Generic(usize),
    /// A named entity with its declared permission and its arguments.
    Named(PermKind, DefId, Vec<DeclaredTy>),
}

impl DeclaredTy {
    /// All generic-parameter leaves point into an argument list of length
    /// `n`: the condition under which substitution is defined.
    pub open spec fn fits(self, n: int) -> bool
        decreases self, 0int,
    {
        match self {
            DeclaredTy::Generic(k) => k < n,
            DeclaredTy::Named(_, _, args) => all_fit(args@, n),
        }
    }
}

/// Every declared type of the list fits below `n`.
pub open spec fn all_fit(s: Seq<DeclaredTy>, n: int) -> bool
    decreases s, 1int,
{
    if s.len() == 0 {
        true
    } else {
        s[0].fits(n) && all_fit(s.drop_first(), n)
    }
}

/// `all_fit` is the pointwise condition.
pub proof fn lemma_all_fit(s: Seq<DeclaredTy>, n: int)
    ensures
        all_fit(s, n) == (forall|i: int| 0 <= i < s.len() ==> #[trigger] s[i].fits(n)),
    decreases s.len(),
{
    if s.len() == 0 {
    } else {
        lemma_all_fit(s.drop_first(), n);
        if all_fit(s, n) {
            assert forall|i: int| 0 <= i < s.len() implies #[trigger] s[i].fits(n) by {
                if i > 0 {
                    assert(s.drop_first()[i - 1].fits(n));
                }
            }
        } else {
            if s[0].fits(n) {
                let j = choose|j: int|
                    0 <= j < s.drop_first().len() && !(#[trigger] s.drop_first()[j].fits(n));
                assert(s[j + 1] == s.drop_first()[j]);
                assert(!s[j + 1].fits(n));
            }
        }
    }
}

/// Decides whether every generic leaf of `d` points below `n`.
#[verifier::loop_isolation(false)]
pub fn decl_fits(d: &DeclaredTy, n: usize) -> (r: bool)
    ensures
        r == d.fits(n as int),
    decreases *d,
{
    match d {
        DeclaredTy::Generic(k) => *k < n,
        DeclaredTy::Named(p, e, args) => {
            proof {
                assert(*d == DeclaredTy::Named(*p, *e, *args));
                lemma_all_fit(args@, n as int);
            }
            let mut i: usize = 0;
            while i < args.len()
                invariant
                    i <= args@.len(),
                    forall|j: int| 0 <= j < i ==> #[trigger] args@[j].fits(n as int),
                decreases args@.len() - i,
            {
                proof {
                    assert(decreases_to!(*d => (*d)->Named_2));
                    assert((*d)->Named_2 == *args);
                    assert(decreases_to!(*d => args@[i as int]));
                }
                if !decl_fits(&args[i], n) {
                    return false;
                }
                i = i + 1;
            }
            true
        },
    }
}

/// The denotation of a type once interner identities are unfolded: a pure
/// tree the contracts compare, independent of which identities were handed
/// out.
pub ghost enum TyTree {
    /// An inference placeholder.
    Leaf(nat),
    /// A structural node: permission, kind, denoted generic arguments.
    Node(Perm, BaseKind, Seq<TyTree>),
    /// A dangling interner reference; never produced under the invariants.
    Junk,
}

/// The rank a type's base takes in the interner ordering: interned data may
/// only reference strictly smaller ranks.
pub open spec fn ty_rank(t: Ty) -> int {
    match t.base {
        Base::Infer(_) => 0,
        Base::Known(id) => id + 1,
    }
}

/// An interner store is well formed when every entry's generic arguments
/// reference only strictly earlier entries: identities form no cycle.
pub open spec fn wf_items(items: Seq<BaseData>) -> bool {
    forall|i: int, j: int|
        0 <= i < items.len() && 0 <= j < items[i].generics@.len()
            ==> #[trigger] ty_rank(items[i].generics@[j]) <= i
}

/// Unfolds a type into its denotation tree against an interner store.
pub open spec fn denote(items: Seq<BaseData>, t: Ty) -> TyTree
    decreases ty_rank(t), 0int,
{
    match t.base {
        Base::Infer(v) => TyTree::Leaf(v as nat),
        Base::Known(id) => if id < items.len() {
            TyTree::Node(
                t.perm,
                items[id as int].kind,
                denote_list(items, id as int, items[id as int].generics@),
            )
        } else {
            TyTree::Junk
        },
    }
}

/// Unfolds a list of types whose ranks are bounded by `bound`.
pub open spec fn denote_list(items: Seq<BaseData>, bound: int, gens: Seq<Ty>) -> Seq<TyTree>
    decreases bound, gens.len() + 1,
{
    if bound < 0 || gens.len() == 0 {
        Seq::empty()
    } else {
        let first = if ty_rank(gens[0]) <= bound {
            denote(items, gens[0])
        } else {
            TyTree::Junk
        };
        seq![first] + denote_list(items, bound, gens.drop_first())
    }
}

/// Growing the interner store never changes the denotation of a type whose
/// rank the old store already covers.
pub proof fn lemma_denote_prefix(a: Seq<BaseData>, b: Seq<BaseData>, t: Ty)
    requires
        a.len() <= b.len(),
        forall|i: int| 0 <= i < a.len() ==> a[i] == b[i],
        ty_rank(t) <= a.len(),
    ensures
        denote(a, t) == denote(b, t),
    decreases ty_rank(t), 0int,
{
    match t.base {
        Base::Infer(_) => {},
        Base::Known(id) => {
            lemma_denote_list_prefix(a, b, id as int, a[id as int].generics@);
        },
    }
}

/// List form of `lemma_denote_prefix`.
pub proof fn lemma_denote_list_prefix(a: Seq<BaseData>, b: Seq<BaseData>, bound: int, gens: Seq<Ty>)
    requires
        a.len() <= b.len(),
        forall|i: int| 0 <= i < a.len() ==> a[i] == b[i],
        0 <= bound < a.len(),
    ensures
        denote_list(a, bound, gens) == denote_list(b, bound, gens),
    decreases bound, gens.len() + 1,
{
    if gens.len() == 0 {
    } else {
        if ty_rank(gens[0]) <= bound {
            lemma_denote_prefix(a, b, gens[0]);
        }
        lemma_denote_list_prefix(a, b, bound, gens.drop_first());
    }
}

/// The denotation list is the pointwise denotation: its length and each
/// element, for in-bound ranks.
pub proof fn lemma_denote_list_index(items: Seq<BaseData>, bound: int, gens: Seq<Ty>, k: int)
    requires
        0 <= bound,
        0 <= k < gens.len(),
        ty_rank(gens[k]) <= bound,
    ensures
        denote_list(items, bound, gens).len() == gens.len(),
        denote_list(items, bound, gens)[k] == denote(items, gens[k]),
    decreases gens.len(),
{
    lemma_denote_list_len(items, bound, gens);
    if k == 0 {
    } else {
        lemma_denote_list_index(items, bound, gens.drop_first(), k - 1);
    }
}

/// The denotation list keeps the length of its input.
pub proof fn lemma_denote_list_len(items: Seq<BaseData>, bound: int, gens: Seq<Ty>)
    requires
        0 <= bound,
    ensures
        denote_list(items, bound, gens).len() == gens.len(),
    decreases gens.len(),
{
    if gens.len() != 0 {
        lemma_denote_list_len(items, bound, gens.drop_first());
    }
}

} // verus!
