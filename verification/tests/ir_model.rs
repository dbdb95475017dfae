use lark_typeck::ir::{
    BasicBlock, BinOp, Context, Definition, Function, LocalDecl, Operand, Place, Rvalue,
    Statement, StatementKind, TerminatorKind, builtin_type,
};

#[test]
fn function_layout_puts_the_return_slot_first() {
    let args = vec![
        LocalDecl::new(builtin_type::I32, Some(String::from("a"))),
        LocalDecl::new(builtin_type::STRING, None),
    ];
    let mut f = Function::new(builtin_type::VOID, args);
    assert_eq!(f.arg_count, 2);
    assert_eq!(f.local_decls.len(), 3);
    assert_eq!(f.local_decls[0].ty, builtin_type::VOID);
    assert!(f.local_decls[0].name.is_none());
    assert_eq!(f.local_decls[1].ty, builtin_type::I32);
    assert_eq!(f.local_decls[1].name.as_deref(), Some("a"));
    let t = f.new_temp(builtin_type::I32);
    assert_eq!(t, 3);
    assert_eq!(f.local_decls.len(), 4);
    assert!(f.local_decls[3].name.is_none());
    f.push_block(BasicBlock::new());
    assert_eq!(f.basic_blocks.len(), 1);
}

#[test]
fn blocks_collect_statements_and_end_in_a_terminator() {
    let mut b = BasicBlock::new();
    assert!(b.terminator.is_none());
    b.push_stmt(StatementKind::Assign(
        Place::Local(0),
        Rvalue::Use(Operand::ConstantInt(7)),
    ));
    b.push_stmt(StatementKind::DebugPrint(Place::Local(0)));
    assert_eq!(b.statements.len(), 2);
    assert!(matches!(
        b.statements[0],
        Statement { kind: StatementKind::Assign(Place::Local(0), _), .. }
    ));
    b.terminate(TerminatorKind::Return);
    assert!(matches!(b.terminator.as_ref().unwrap().kind, TerminatorKind::Return));
}

#[test]
fn binary_rvalues_keep_their_operator() {
    let r = Rvalue::BinaryOp(BinOp::Sub, 1, 2);
    assert!(matches!(r, Rvalue::BinaryOp(BinOp::Sub, 1, 2)));
}

#[test]
fn the_context_is_seeded_with_builtins() {
    let mut ctx = Context::new();
    assert_eq!(ctx.definitions.len(), builtin_type::ERROR + 2);
    assert!(matches!(ctx.definitions[builtin_type::I32], Definition::Builtin));
    assert!(matches!(
        ctx.definitions[builtin_type::ERROR + 1],
        Definition::BuiltinFn(_)
    ));
    let f = Function::new(builtin_type::VOID, vec![]);
    let id = ctx.add_definition(Definition::Fn(f));
    assert_eq!(id, builtin_type::ERROR + 2);
    assert!(matches!(ctx.definitions[id], Definition::Fn(_)));
}
