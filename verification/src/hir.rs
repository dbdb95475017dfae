//! The input of one checking pass: a function body whose expressions sit in
//! an arena ordered children-first, each addressed by its index (the meta
//! index results and errors are recorded under), plus the table of referenced
//! entities' declared signatures.

use vstd::prelude::*;
use crate::ir::{DefId, VarId};
use crate::ty::{DeclaredTy, PermKind};

verus! {

/// Declared signature data of one entity: its generic arity, its fields'
/// declared types, and, for callable entities, its function signature.
pub struct EntityDef {
    pub n_generics: usize,
    pub fields: Vec<DeclaredTy>,
    pub fn_sig: Option<FnSig>,
}

/// A callable entity's declared inputs and output.
pub struct FnSig {
    pub inputs: Vec<DeclaredTy>,
    pub output: DeclaredTy,
}

/// The referenced entities' declared signatures, plus the entities the
/// checker needs for literals, conditions and poison types.
pub struct EntityTable {
    pub int_def_id: DefId,
    pub text_def_id: DefId,
    pub boolean_def_id: DefId,
    pub defs: Vec<EntityDef>,
}

/// One HIR expression; children are expression indices smaller than the
/// expression's own index.
pub enum Expr {
    /// An integer literal.
    LitInt,
    /// A text literal.
    LitText,
    /// A read of a variable, optionally through a spelled-out permission.
    VarRef(VarId, Option<PermKind>),
    /// An arithmetic operation over two integer operands.
    Binary(crate::ir::BinOp, usize, usize),
    /// A conditional: boolean condition, true arm, false arm.
    If(usize, usize, usize),
    /// A call of a known entity with argument expressions.
    Call(DefId, Vec<usize>),
    /// A field access on an owner expression, by field position.
    Field(usize, usize),
    /// Two expressions in order; the second one's type is the result.
    Sequence(usize, usize),
}

/// One function body: the generic arity of the owning function, variable
/// declarations (the first one is the return slot; `None` leaves the type to
/// inference) and the expression arena. The last expression is the function's
/// result.
pub struct FnBody {
    pub n_generics: usize,
    pub vars: Vec<Option<DeclaredTy>>,
    pub exprs: Vec<Expr>,
}

/// A declared signature is well formed when every declared type's generic
/// leaves stay below the entity's own generic arity.
pub open spec fn def_wf(d: EntityDef) -> bool {
    &&& forall|i: int|
        0 <= i < d.fields@.len() ==> (#[trigger] d.fields@[i]).fits(d.n_generics as int)
    &&& (d.fn_sig matches Some(sig) ==> sig.output.fits(d.n_generics as int) && forall|i: int|
        0 <= i < sig.inputs@.len() ==> (#[trigger] sig.inputs@[i]).fits(d.n_generics as int))
}

/// The whole entity table is well formed.
pub open spec fn table_wf(t: EntityTable) -> bool {
    forall|i: int| 0 <= i < t.defs@.len() ==> def_wf(#[trigger] t.defs@[i])
}

/// One expression is well formed at position `i`: children come strictly
/// earlier, variables exist, and called entities have a signature whose
/// arity the call matches.
pub open spec fn expr_wf(e: Expr, i: int, body: FnBody, t: EntityTable) -> bool {
    match e {
        Expr::LitInt => true,
        Expr::LitText => true,
        Expr::VarRef(v, _) => v < body.vars@.len(),
        Expr::Binary(_, a, b) => a < i && b < i,
        Expr::If(c, a, b) => c < i && a < i && b < i,
        Expr::Call(d, args) => {
            &&& d < t.defs@.len()
            &&& t.defs@[d as int].fn_sig is Some
            &&& (t.defs@[d as int].fn_sig matches Some(sig) ==> args@.len() == sig.inputs@.len())
            &&& forall|j: int| 0 <= j < args@.len() ==> #[trigger] args@[j] < i
        },
        Expr::Field(o, _) => o < i,
        Expr::Sequence(a, b) => a < i && b < i,
    }
}

/// A body is well formed: at least the return slot is declared, declared
/// variable types use only the owning function's generic parameters, and
/// every expression is well formed at its position.
pub open spec fn body_wf(body: FnBody, t: EntityTable) -> bool {
    &&& body.vars@.len() >= 1
    &&& forall|v: int|
        0 <= v < body.vars@.len() ==> (body.vars@[v] matches Some(d) ==> (#[trigger] body.vars@[v])
            is Some && d.fits(body.n_generics as int))
    &&& forall|i: int| 0 <= i < body.exprs@.len() ==> expr_wf(#[trigger] body.exprs@[i], i, body, t)
}

} // verus!
