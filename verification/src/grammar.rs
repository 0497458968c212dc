//! The syntax tree of a program, and what each node stands for.
use crate::lexer::{PosView, TokenPos};
use crate::natural::Natural;
use vstd::prelude::*;

verus! {

/// A program: its declarations, in order.
pub enum Program {
    Declarations(Vec<Decl>),
}

/// A top-level declaration: a statement, or a named procedure.
pub enum Decl {
    Statement(Stmt),
    Procedure { name: String, statement: Box<Stmt> },
}

/// A statement.
pub enum Stmt {
    VarAssignment { name: String, expr: Expr },
    Block(Vec<Stmt>),
    While { name: String, statement: Box<Stmt> },
    Procedure(String),
}

/// An expression: a literal, or one operator between two literals.
pub enum Expr {
    Literal(Literal),
    BinaryOp { left: Literal, operator: InfixOperator, right: Literal },
}

/// A number or a variable, with where it stands.
#[allow(inconsistent_fields)]
pub enum Literal {
    Number { content: Natural, pos: TokenPos },
    Identifier { content: String, pos: TokenPos },
}

/// `+` or `-`, with where it stands.
pub enum InfixOperator {
    Plus(TokenPos),
    Minus(TokenPos),
}

/// What a `Literal` stands for.
#[allow(inconsistent_fields)]
pub enum LitView {
    Number { content: nat, pos: PosView },
    Identifier { content: Seq<char>, pos: PosView },
}

/// What an `InfixOperator` stands for.
pub enum OpView {
    Plus(PosView),
    Minus(PosView),
}

/// What an `Expr` stands for.
pub enum ExprView {
    Literal(LitView),
    BinaryOp { left: LitView, operator: OpView, right: LitView },
}

/// What a `Stmt` stands for.
pub enum StmtView {
    VarAssignment { name: Seq<char>, expr: ExprView },
    Block(Seq<StmtView>),
    While { name: Seq<char>, statement: Box<StmtView> },
    Procedure(Seq<char>),
}

/// What a `Decl` stands for.
pub enum DeclView {
    Statement(StmtView),
    Procedure { name: Seq<char>, statement: StmtView },
}

impl View for Literal {
    type V = LitView;

    open spec fn view(&self) -> LitView {
        match self {
            Literal::Number { content, pos } => LitView::Number { content: content@, pos: pos@ },
            Literal::Identifier { content, pos } => LitView::Identifier {
                content: content@,
                pos: pos@,
            },
        }
    }
}

impl View for InfixOperator {
    type V = OpView;

    open spec fn view(&self) -> OpView {
        match self {
            InfixOperator::Plus(p) => OpView::Plus(p@),
            InfixOperator::Minus(p) => OpView::Minus(p@),
        }
    }
}

impl View for Expr {
    type V = ExprView;

    open spec fn view(&self) -> ExprView {
        match self {
            Expr::Literal(l) => ExprView::Literal(l@),
            Expr::BinaryOp { left, operator, right } => ExprView::BinaryOp {
                left: left@,
                operator: operator@,
                right: right@,
            },
        }
    }
}

/// What a statement stands for.
pub open spec fn stmt_view(s: Stmt) -> StmtView
    decreases s,
{
    match s {
        Stmt::VarAssignment { name, expr } => StmtView::VarAssignment { name: name@, expr: expr@ },
        Stmt::Block(v) => StmtView::Block(stmts_view(v@)),
        Stmt::While { name, statement } => StmtView::While {
            name: name@,
            statement: Box::new(stmt_view(*statement)),
        },
        Stmt::Procedure(name) => StmtView::Procedure(name@),
    }
}

/// What a sequence of statements stands for.
pub open spec fn stmts_view(s: Seq<Stmt>) -> Seq<StmtView>
    decreases s,
{
    if s.len() == 0 {
        Seq::empty()
    } else {
        stmts_view(s.drop_last()).push(stmt_view(s.last()))
    }
}

impl View for Stmt {
    type V = StmtView;

    open spec fn view(&self) -> StmtView {
        stmt_view(*self)
    }
}

impl View for Decl {
    type V = DeclView;

    open spec fn view(&self) -> DeclView {
        match self {
            Decl::Statement(s) => DeclView::Statement(s@),
            Decl::Procedure { name, statement } => DeclView::Procedure {
                name: name@,
                statement: stmt_view(**statement),
            },
        }
    }
}

/// What a sequence of declarations stands for.
pub open spec fn decls_view(s: Seq<Decl>) -> Seq<DeclView> {
    s.map_values(|d: Decl| d@)
}

impl View for Program {
    type V = Seq<DeclView>;

    open spec fn view(&self) -> Seq<DeclView> {
        match self {
            Program::Declarations(d) => decls_view(d@),
        }
    }
}

/// `stmts_view` keeps the length and views each statement in place.
pub proof fn lemma_stmts_view(s: Seq<Stmt>)
    ensures
        stmts_view(s).len() == s.len(),
        forall|i: int| 0 <= i < s.len() ==> (#[trigger] stmts_view(s)[i]) == stmt_view(s[i]),
    decreases s.len(),
{
    if s.len() > 0 {
        lemma_stmts_view(s.drop_last());
        assert forall|i: int| 0 <= i < s.len() implies (#[trigger] stmts_view(s)[i]) == stmt_view(
            s[i],
        ) by {
            if i < s.len() - 1 {
                assert(s.drop_last()[i] == s[i]);
            }
        }
    }
}

} // verus!
