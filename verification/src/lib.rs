//! Type-checking core of a small compiler front end: a canonicalizing
//! interner for structural type terms, a union-find unification table over
//! inference placeholders, a scheduler for checking steps blocked on
//! unresolved placeholders, a substitution engine instantiating declared
//! generic signatures, and the checking pass itself, written once and
//! instantiated for two type families (permissions erased or tracked).
//! A separate module holds the MIR-style function representation that the
//! surrounding compiler lowers into.

pub mod hir;
pub mod intern;
pub mod ops;
pub mod subst;
pub mod typeck;
pub mod unify;
pub mod ir;
pub mod ty;
