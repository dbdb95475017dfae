use lark_typeck::hir::{EntityDef, EntityTable, Expr, FnBody, FnSig};
use lark_typeck::intern::TyInterner;
use lark_typeck::ir::BinOp;
use lark_typeck::subst::substitute;
use lark_typeck::ty::{Base, BaseData, BaseKind, DeclaredTy, Family, Perm, PermKind, Ty, compose_perms};
use lark_typeck::typeck::{TypeCheckResults, check, equate_types};
use lark_typeck::unify::UnificationTable;

const INT: usize = 2;
const TEXT: usize = 3;
const BOOL: usize = 4;
const CONTAINER: usize = 0;
const MAKER: usize = 1;

fn table() -> EntityTable {
    EntityTable {
        int_def_id: INT,
        text_def_id: TEXT,
        boolean_def_id: BOOL,
        defs: vec![
            EntityDef {
                n_generics: 0,
                fields: vec![DeclaredTy::Named(PermKind::Own, INT, vec![])],
                fn_sig: None,
            },
            EntityDef {
                n_generics: 0,
                fields: vec![],
                fn_sig: Some(FnSig {
                    inputs: vec![],
                    output: DeclaredTy::Named(PermKind::Own, CONTAINER, vec![]),
                }),
            },
        ],
    }
}

fn decl(entity: usize) -> Option<DeclaredTy> {
    Some(DeclaredTy::Named(PermKind::Own, entity, vec![]))
}

fn kind_of(interner: &TyInterner, t: Ty) -> BaseKind {
    match t.base {
        Base::Known(id) => interner.lookup(id).kind,
        Base::Infer(_) => panic!("type left unresolved"),
    }
}

#[test]
fn sum_of_two_integer_parameters_checks_cleanly() {
    let mut interner = TyInterner::new();
    let body = FnBody {
        n_generics: 0,
        vars: vec![decl(INT), decl(INT), decl(INT)],
        exprs: vec![
            Expr::VarRef(1, None),
            Expr::VarRef(2, None),
            Expr::Binary(BinOp::Add, 0, 1),
        ],
    };
    let res = check(Family::Erased, &mut interner, &body, &table()).unwrap();
    assert_eq!(res.num_errors(), 0);
    assert_eq!(kind_of(&interner, res.ty(2)), BaseKind::Named(INT));
}

#[test]
fn text_body_against_integer_return_records_one_assignability_failure() {
    let mut interner = TyInterner::new();
    let body = FnBody { n_generics: 0, vars: vec![decl(INT)], exprs: vec![Expr::LitText] };
    let res = check(Family::Erased, &mut interner, &body, &table()).unwrap();
    assert_eq!(res.num_errors(), 1);
    assert_eq!(res.error_location(0), 0);
    // The declared integer type wins at the return node.
    assert_eq!(kind_of(&interner, res.ty(0)), BaseKind::Named(INT));
}

#[test]
fn mismatched_conditional_arms_record_one_error_and_keep_the_true_arm() {
    let mut interner = TyInterner::new();
    let body = FnBody {
        n_generics: 0,
        vars: vec![decl(INT), decl(BOOL)],
        exprs: vec![
            Expr::VarRef(1, None),
            Expr::LitInt,
            Expr::LitText,
            Expr::If(0, 1, 2),
            Expr::Sequence(3, 3),
        ],
    };
    let res = check(Family::Erased, &mut interner, &body, &table()).unwrap();
    assert_eq!(res.num_errors(), 1);
    assert_eq!(res.error_location(0), 3);
    assert_eq!(kind_of(&interner, res.ty(3)), BaseKind::Named(INT));
}

#[test]
fn substituting_a_generic_through_a_nested_container_keeps_the_shape() {
    let mut interner = TyInterner::new();
    let int_id = interner.intern(BaseData { kind: BaseKind::Named(INT), generics: vec![] });
    let int_ty = Ty { perm: Perm::Erased, base: Base::Known(int_id) };
    let nested = DeclaredTy::Named(
        PermKind::Own,
        CONTAINER,
        vec![DeclaredTy::Named(PermKind::Own, CONTAINER, vec![DeclaredTy::Generic(0)])],
    );
    let owner = vec![int_ty];
    let r = substitute(Family::Erased, &mut interner, Perm::Erased, &owner, &nested);
    let outer = match r.base {
        Base::Known(id) => interner.lookup(id),
        _ => panic!("expected an interned base"),
    };
    assert_eq!(outer.kind, BaseKind::Named(CONTAINER));
    assert_eq!(outer.generics.len(), 1);
    let inner = match outer.generics[0].base {
        Base::Known(id) => interner.lookup(id),
        _ => panic!("expected an interned base"),
    };
    assert_eq!(inner.kind, BaseKind::Named(CONTAINER));
    assert_eq!(inner.generics.len(), 1);
    assert_eq!(inner.generics[0], int_ty);
}

#[test]
fn interning_equal_base_data_twice_returns_one_identity() {
    let mut interner = TyInterner::new();
    let a = interner.intern(BaseData { kind: BaseKind::Named(INT), generics: vec![] });
    let b = interner.intern(BaseData { kind: BaseKind::Named(INT), generics: vec![] });
    let c = interner.intern(BaseData { kind: BaseKind::Named(TEXT), generics: vec![] });
    assert_eq!(a, b);
    assert_ne!(a, c);
    assert_eq!(interner.lookup(a).kind, BaseKind::Named(INT));
}

#[test]
fn unify_is_symmetric_in_outcome_and_state() {
    let mut t1 = UnificationTable::new();
    let mut t2 = UnificationTable::new();
    for _ in 0..2 {
        t1.new_placeholder();
        t2.new_placeholder();
    }
    assert!(t1.unify(Base::Infer(0), Base::Infer(1)).is_ok());
    assert!(t2.unify(Base::Infer(1), Base::Infer(0)).is_ok());
    assert!(t1.unify(Base::Infer(0), Base::Known(5)).is_ok());
    assert!(t2.unify(Base::Infer(0), Base::Known(5)).is_ok());
    assert_eq!(t1.find(1), (0, Some(5)));
    assert_eq!(t2.find(1), (0, Some(5)));
    // Both sides resolved: the same pair comes back, in swapped order.
    assert_eq!(t1.unify(Base::Known(7), Base::Known(8)), Err((7, 8)));
    assert_eq!(t1.unify(Base::Known(8), Base::Known(7)), Err((8, 7)));
}

#[test]
fn kind_mismatch_records_exactly_one_error_at_the_cause() {
    let mut interner = TyInterner::new();
    let int_id = interner.intern(BaseData { kind: BaseKind::Named(INT), generics: vec![] });
    let text_id = interner.intern(BaseData { kind: BaseKind::Named(TEXT), generics: vec![] });
    let mut table = UnificationTable::new();
    let mut results = TypeCheckResults::new(0);
    let ti = Ty { perm: Perm::Erased, base: Base::Known(int_id) };
    let tt = Ty { perm: Perm::Erased, base: Base::Known(text_id) };
    equate_types(&mut interner, &mut table, &mut results, 9, ti, tt);
    assert_eq!(res_errors(&results), vec![9]);
    // Equal kinds record nothing.
    equate_types(&mut interner, &mut table, &mut results, 11, ti, ti);
    assert_eq!(res_errors(&results), vec![9]);
}

fn res_errors(r: &TypeCheckResults) -> Vec<usize> {
    let mut out = Vec::new();
    let mut i = 0;
    while i < r.num_errors() {
        out.push(r.error_location(i));
        i += 1;
    }
    out
}

#[test]
fn rerunning_check_on_identical_input_gives_identical_results() {
    let mut interner = TyInterner::new();
    let body = FnBody {
        n_generics: 0,
        vars: vec![decl(INT), decl(BOOL)],
        exprs: vec![
            Expr::VarRef(1, None),
            Expr::LitInt,
            Expr::LitText,
            Expr::If(0, 1, 2),
            Expr::Sequence(3, 3),
        ],
    };
    let r1 = check(Family::Erased, &mut interner, &body, &table()).unwrap();
    let r2 = check(Family::Erased, &mut interner, &body, &table()).unwrap();
    assert_eq!(res_errors(&r1), res_errors(&r2));
    assert_eq!(r1.num_types(), r2.num_types());
    let mut i = 0;
    while i < r1.num_types() {
        assert_eq!(r1.ty(i), r2.ty(i));
        i += 1;
    }
}

#[test]
fn deferred_field_access_resolves_once_the_owner_does() {
    let mut interner = TyInterner::new();
    let body = FnBody {
        n_generics: 0,
        vars: vec![decl(INT), None, decl(BOOL)],
        exprs: vec![
            Expr::VarRef(1, None),
            Expr::Field(0, 0),
            Expr::Call(MAKER, vec![]),
            Expr::VarRef(2, None),
            Expr::If(3, 0, 2),
            Expr::Sequence(4, 1),
        ],
    };
    let res = check(Family::Erased, &mut interner, &body, &table()).unwrap();
    assert_eq!(res_errors(&res), Vec::<usize>::new());
    // The owner resolved to the container, so the deferred access found the
    // integer field.
    assert_eq!(kind_of(&interner, res.ty(1)), BaseKind::Named(INT));
    assert_eq!(kind_of(&interner, res.ty(0)), BaseKind::Named(CONTAINER));
}

#[test]
fn a_field_access_nothing_can_resolve_is_stuck() {
    let mut interner = TyInterner::new();
    let body = FnBody {
        n_generics: 0,
        vars: vec![decl(INT), None],
        exprs: vec![Expr::VarRef(1, None), Expr::Field(0, 0), Expr::Sequence(1, 1)],
    };
    let r = check(Family::Erased, &mut interner, &body, &table());
    assert!(r.is_err());
}

#[test]
fn declared_family_composes_the_stricter_permission() {
    assert_eq!(compose_perms(PermKind::Own, PermKind::Share), PermKind::Share);
    assert_eq!(compose_perms(PermKind::Borrow, PermKind::Own), PermKind::Borrow);
    assert_eq!(compose_perms(PermKind::Share, PermKind::Share), PermKind::Share);

    let mut interner = TyInterner::new();
    let body = FnBody {
        n_generics: 0,
        vars: vec![decl(INT), decl(INT)],
        exprs: vec![Expr::VarRef(1, Some(PermKind::Share)), Expr::Sequence(0, 0)],
    };
    let res = check(Family::Declared, &mut interner, &body, &table()).unwrap();
    assert_eq!(res_errors(&res), Vec::<usize>::new());
    assert_eq!(res.ty(0).perm, Perm::Granted(PermKind::Share));
}

#[test]
fn a_mismatch_poisons_both_placeholder_sides_and_cannot_reerror() {
    let mut interner = TyInterner::new();
    let int_id = interner.intern(BaseData { kind: BaseKind::Named(INT), generics: vec![] });
    let text_id = interner.intern(BaseData { kind: BaseKind::Named(TEXT), generics: vec![] });
    let mut table = UnificationTable::new();
    table.new_placeholder();
    table.new_placeholder();
    assert!(table.unify(Base::Infer(0), Base::Known(int_id)).is_ok());
    assert!(table.unify(Base::Infer(1), Base::Known(text_id)).is_ok());
    let t0 = Ty { perm: Perm::Erased, base: Base::Infer(0) };
    let t1 = Ty { perm: Perm::Erased, base: Base::Infer(1) };
    let mut results = TypeCheckResults::new(0);
    equate_types(&mut interner, &mut table, &mut results, 5, t0, t1);
    assert_eq!(res_errors(&results), vec![5]);
    // Both sides now resolve to the error kind...
    let (_, v0) = table.find(0);
    let (_, v1) = table.find(1);
    assert_eq!(interner.lookup(v0.unwrap()).kind, BaseKind::Error);
    assert_eq!(interner.lookup(v1.unwrap()).kind, BaseKind::Error);
    // ...so the same pair records nothing more.
    equate_types(&mut interner, &mut table, &mut results, 6, t0, t1);
    assert_eq!(res_errors(&results), vec![5]);
}

#[test]
fn locals_may_use_the_functions_own_generic_parameters() {
    let mut interner = TyInterner::new();
    let body = FnBody {
        n_generics: 1,
        vars: vec![Some(DeclaredTy::Generic(0)), Some(DeclaredTy::Generic(0))],
        exprs: vec![Expr::VarRef(1, None)],
    };
    let res = check(Family::Erased, &mut interner, &body, &table()).unwrap();
    // Nothing ever constrains the generic parameter, so the unresolved node
    // is flagged and poisoned at resolution time.
    assert_eq!(res_errors(&res), vec![0]);
    assert_eq!(kind_of(&interner, res.ty(0)), BaseKind::Error);
}
