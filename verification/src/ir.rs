//! MIR-style representation of lowered functions: basic blocks of statements
//! ending in a terminator, locals declared up front (return slot first, then
//! the arguments, then temporaries), and a context holding all definitions.

use vstd::prelude::*;

pub mod builtin_type;

verus! {

/// Identifier of a definition in a `Context`.
pub type DefId = usize;

/// Index of a local variable inside one function.
pub type VarId = usize;

/// Placeholder for source-location data attached to statements.
#[derive(Debug)]
pub struct SourceInfo;

/// One lowered function: its basic blocks and its local declarations.
#[derive(Debug)]
pub struct Function {
    pub basic_blocks: Vec<BasicBlock>,
    /// First local is the return value slot, followed by `arg_count`
    /// parameters, followed by user variables and temporaries.
    pub local_decls: Vec<LocalDecl>,
    pub arg_count: usize,
}

impl Function {
    /// Builds a function with no blocks yet: the return slot of type
    /// `return_ty` first, then the given argument declarations.
    pub fn new(return_ty: DefId, args: Vec<LocalDecl>) -> (r: Function)
        ensures
            r.basic_blocks@.len() == 0,
            r.arg_count == args@.len(),
            r.local_decls@.len() == args@.len() + 1,
            r.local_decls@[0].ty == return_ty,
            r.local_decls@[0].name is None,
            forall|i: int| 0 <= i < args@.len() ==> r.local_decls@[i + 1] == args@[i],
    {
        let mut args = args;
        let arg_count = args.len();
        let mut local_decls = vec![LocalDecl::new_return_place(return_ty)];
        local_decls.append(&mut args);

        Function { basic_blocks: vec![], local_decls, arg_count }
    }

    /// Declares a fresh unnamed temporary of type `ty` and returns its index.
    pub fn new_temp(&mut self, ty: DefId) -> (r: VarId)
        ensures
            r == old(self).local_decls@.len(),
            final(self).local_decls@ == old(self).local_decls@.push(
                (LocalDecl { ty, name: None }),
            ),
            final(self).basic_blocks == old(self).basic_blocks,
            final(self).arg_count == old(self).arg_count,
    {
        self.local_decls.push(LocalDecl::new_temp(ty));
        self.local_decls.len() - 1
    }

    /// Appends one basic block to the function.
    pub fn push_block(&mut self, block: BasicBlock)
        ensures
            final(self).basic_blocks@ == old(self).basic_blocks@.push(block),
            final(self).local_decls == old(self).local_decls,
            final(self).arg_count == old(self).arg_count,
    {
        self.basic_blocks.push(block);
    }
}

/// A straight-line run of statements ended by at most one terminator.
#[derive(Debug)]
pub struct BasicBlock {
    pub statements: Vec<Statement>,
    pub terminator: Option<Terminator>,
}

impl BasicBlock {
    /// An empty, unterminated block.
    pub fn new() -> (r: BasicBlock)
        ensures
            r.statements@.len() == 0,
            r.terminator is None,
    {
        BasicBlock { statements: vec![], terminator: None }
    }

    /// Appends one statement of the given kind.
    pub fn push_stmt(&mut self, kind: StatementKind)
        ensures
            final(self).statements@ == old(self).statements@.push(
                (Statement { source_info: SourceInfo, kind }),
            ),
            final(self).terminator == old(self).terminator,
    {
        self.statements.push(Statement { source_info: SourceInfo, kind });
    }

    /// Sets the block's terminator, replacing any earlier one.
    pub fn terminate(&mut self, terminator_kind: TerminatorKind)
        ensures
            final(self).terminator == (Some(
                Terminator { source_info: SourceInfo, kind: terminator_kind },
            )),
            final(self).statements == old(self).statements,
    {
        self.terminator = Some(Terminator { source_info: SourceInfo, kind: terminator_kind });
    }
}

/// One statement together with its source information.
#[derive(Debug)]
pub struct Statement {
    pub source_info: SourceInfo,
    pub kind: StatementKind,
}

/// The kinds of statement the MIR supports.
#[derive(Debug)]
pub enum StatementKind {
    Assign(Place, Rvalue),
    DebugPrint(Place),
}

/// The closing operation of a basic block.
#[derive(Debug)]
pub struct Terminator {
    pub source_info: SourceInfo,
    pub kind: TerminatorKind,
}

/// The kinds of terminator the MIR supports.
#[derive(Debug)]
pub enum TerminatorKind {
    Return,
}

/// A storage location an rvalue can be read from or assigned to.
#[derive(Debug)]
pub enum Place {
    Local(VarId),
    Static(DefId),
}

/// The right-hand side of an assignment.
#[derive(Debug)]
pub enum Rvalue {
    Use(Operand),
    BinaryOp(BinOp, VarId, VarId),
    Call(DefId, Vec<Operand>),
}

/// An argument of an rvalue: a place access or a constant.
#[derive(Debug)]
pub enum Operand {
    Copy(Place),
    Move(Place),
    ConstantInt(i32),
    ConstantString(String),
}

/// Built-in binary operators.
#[derive(Debug, Clone, Copy, PartialEq, Eq, Structural)]
pub enum BinOp {
    Add,
    Sub,
}

/// Declaration of one local: its type and, for user variables, its name.
#[derive(Debug)]
pub struct LocalDecl {
    pub ty: DefId,
    pub name: Option<String>,
}

impl LocalDecl {
    /// The unnamed slot holding the function's return value.
    pub fn new_return_place(return_ty: DefId) -> (r: LocalDecl)
        ensures
            r.ty == return_ty,
            r.name is None,
    {
        LocalDecl { ty: return_ty, name: None }
    }

    /// An unnamed temporary of type `ty`.
    pub fn new_temp(ty: DefId) -> (r: LocalDecl)
        ensures
            r.ty == ty,
            r.name is None,
    {
        LocalDecl { ty, name: None }
    }

    /// A local of type `ty`, named where the source names it.
    pub fn new(ty: DefId, name: Option<String>) -> (r: LocalDecl)
        ensures
            r.ty == ty,
            r.name == name,
    {
        LocalDecl { ty, name }
    }
}

/// Built-in functions the evaluator provides.
#[derive(Debug)]
pub enum BuiltinFn {
    StringInterpolate,
}

/// One entry of the definition table.
#[derive(Debug)]
pub enum Definition {
    Builtin,
    BuiltinFn(BuiltinFn),
    Fn(Function),
}

/// The program context: every definition, addressed by `DefId`.
#[derive(Debug)]
pub struct Context {
    pub definitions: Vec<Definition>,
}

impl Context {
    /// A context pre-seeded with the built-in type ids (all slots up to and
    /// including `builtin_type::ERROR`) and the built-in functions.
    pub fn new() -> (r: Context)
        ensures
            r.definitions@.len() == builtin_type::ERROR + 2,
            forall|i: int|
                0 <= i <= builtin_type::ERROR ==> r.definitions@[i] is Builtin,
            r.definitions@[builtin_type::ERROR + 1] is BuiltinFn,
    {
        let mut definitions: Vec<Definition> = vec![];

        for _i in 0..(builtin_type::ERROR + 1)
            invariant
                definitions@.len() == _i,
                forall|j: int| 0 <= j < _i ==> definitions@[j] is Builtin,
        {
            definitions.push(Definition::Builtin);
        }

        definitions.push(Definition::BuiltinFn(BuiltinFn::StringInterpolate));

        Context { definitions }
    }

    /// Appends a definition and returns its `DefId`.
    pub fn add_definition(&mut self, def: Definition) -> (r: usize)
        ensures
            r == old(self).definitions@.len(),
            final(self).definitions@ == old(self).definitions@.push(def),
    {
        self.definitions.push(def);
        self.definitions.len() - 1
    }
}

} // verus!
