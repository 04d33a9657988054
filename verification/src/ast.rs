//! The syntax tree of the surface language and its mathematical model.

use vstd::prelude::*;
use vstd::string::*;

verus! {

/// Operators with one operand.
#[derive(Clone, Copy, Debug, PartialEq, Eq, Structural)]
pub enum UnaryOp {
    Neg,
    Not,
}

/// Operators with two operands.
#[derive(Clone, Copy, Debug, PartialEq, Eq, Structural)]
pub enum BinaryOp {
    Add,
    Sub,
    Mul,
    Div,
    Mod,
    Eq,
    Neq,
    Lt,
    Leq,
    Gt,
    Geq,
    And,
    Or,
}

/// An expression.
#[derive(Debug)]
#[allow(inconsistent_fields)]
pub enum Expr {
    Unary { op: UnaryOp, rhs: Box<Expr> },
    Binary { lhs: Box<Expr>, op: BinaryOp, rhs: Box<Expr> },
    Number(u8),
    String(String),
    Identifier(String),
    Call { callee: Box<Expr>, args: Vec<Expr> },
}

/// A statement.
#[derive(Debug)]
pub enum Statement {
    FunctionDefinition { name: String, params: Vec<String>, body: Box<Statement> },
    VariableDefinition { name: String, initializer: Option<Expr> },
    Assignment { name: String, value: Expr },
    Return(Option<Expr>),
    Print(Expr),
    Block(Vec<Statement>),
    If { condition: Expr, then_branch: Box<Statement>, else_branch: Option<Box<Statement>> },
    While { condition: Expr, body: Box<Statement> },
}

/// A parsed program.
#[derive(Debug)]
pub struct Program {
    pub statements: Vec<Statement>,
}

/// An expression as plain data.
#[allow(inconsistent_fields)]
pub enum SpecExpr {
    Unary { op: UnaryOp, rhs: Box<SpecExpr> },
    Binary { lhs: Box<SpecExpr>, op: BinaryOp, rhs: Box<SpecExpr> },
    Number(u8),
    String(Seq<char>),
    Identifier(Seq<char>),
    Call { callee: Box<SpecExpr>, args: Seq<SpecExpr> },
}

/// A statement as plain data.
pub enum SpecStatement {
    FunctionDefinition { name: Seq<char>, params: Seq<Seq<char>>, body: Box<SpecStatement> },
    VariableDefinition { name: Seq<char>, initializer: Option<SpecExpr> },
    Assignment { name: Seq<char>, value: SpecExpr },
    Return(Option<SpecExpr>),
    Print(SpecExpr),
    Block(Seq<SpecStatement>),
    If { condition: SpecExpr, then_branch: Box<SpecStatement>, else_branch: Option<Box<SpecStatement>> },
    While { condition: SpecExpr, body: Box<SpecStatement> },
}

impl View for Expr {
    type V = SpecExpr;

    open spec fn view(&self) -> SpecExpr
        decreases self,
    {
        match self {
            Expr::Unary { op, rhs } => SpecExpr::Unary { op: *op, rhs: Box::new((**rhs).view()) },
            Expr::Binary { lhs, op, rhs } => SpecExpr::Binary {
                lhs: Box::new((**lhs).view()),
                op: *op,
                rhs: Box::new((**rhs).view()),
            },
            Expr::Number(n) => SpecExpr::Number(*n),
            Expr::String(s) => SpecExpr::String(s@),
            Expr::Identifier(s) => SpecExpr::Identifier(s@),
            Expr::Call { callee, args } => SpecExpr::Call {
                callee: Box::new((**callee).view()),
                args: exprs_view(args@),
            },
        }
    }
}

/// The model of an optional expression.
pub open spec fn expr_option_view(e: Option<Expr>) -> Option<SpecExpr> {
    match e {
        Some(e) => Some(e@),
        None => None,
    }
}

/// The names of a parameter list as plain data.
pub open spec fn names_view(names: Seq<String>) -> Seq<Seq<char>> {
    Seq::new(names.len(), |i: int| names[i]@)
}

impl View for Statement {
    type V = SpecStatement;

    open spec fn view(&self) -> SpecStatement
        decreases self,
    {
        match self {
            Statement::FunctionDefinition { name, params, body } => {
                SpecStatement::FunctionDefinition {
                    name: name@,
                    params: names_view(params@),
                    body: Box::new((**body).view()),
                }
            },
            Statement::VariableDefinition { name, initializer } => {
                SpecStatement::VariableDefinition {
                    name: name@,
                    initializer: expr_option_view(*initializer),
                }
            },
            Statement::Assignment { name, value } => SpecStatement::Assignment {
                name: name@,
                value: value@,
            },
            Statement::Return(e) => SpecStatement::Return(expr_option_view(*e)),
            Statement::Print(e) => SpecStatement::Print(e@),
            Statement::Block(stmts) => SpecStatement::Block(statements_view(stmts@)),
            Statement::If { condition, then_branch, else_branch } => SpecStatement::If {
                condition: condition@,
                then_branch: Box::new((**then_branch).view()),
                else_branch: match else_branch {
                    Some(b) => Some(Box::new((**b).view())),
                    None => None,
                },
            },
            Statement::While { condition, body } => SpecStatement::While {
                condition: condition@,
                body: Box::new((**body).view()),
            },
        }
    }
}

/// The statements of a list as plain data.
pub open spec fn statements_view(stmts: Seq<Statement>) -> Seq<SpecStatement>
    decreases stmts,
{
    if stmts.len() == 0 {
        Seq::empty()
    } else {
        statements_view(stmts.drop_last()).push(stmts.last().view())
    }
}

/// The expressions of a list as plain data.
pub open spec fn exprs_view(exprs: Seq<Expr>) -> Seq<SpecExpr>
    decreases exprs,
{
    if exprs.len() == 0 {
        Seq::empty()
    } else {
        exprs_view(exprs.drop_last()).push(exprs.last().view())
    }
}

/// The model of a statement list has the model of each statement at the
/// statement's place.
pub proof fn lemma_statements_view(stmts: Seq<Statement>)
    ensures
        statements_view(stmts).len() == stmts.len(),
        forall|i: int| 0 <= i < stmts.len() ==> (#[trigger] statements_view(stmts)[i]) == stmts[i]@,
    decreases stmts.len(),
{
    if stmts.len() > 0 {
        lemma_statements_view(stmts.drop_last());
        assert(statements_view(stmts) == statements_view(stmts.drop_last()).push(
            stmts.last().view(),
        ));
    } else {
        assert(statements_view(stmts) == Seq::<SpecStatement>::empty());
    }
}

impl View for Program {
    type V = Seq<SpecStatement>;

    open spec fn view(&self) -> Seq<SpecStatement> {
        statements_view(self.statements@)
    }
}

impl Program {
    /// A program made of `statements`.
    pub fn new(statements: Vec<Statement>) -> (p: Program)
        ensures
            p@ == statements_view(statements@),
    {
        Program { statements }
    }
}

impl BinaryOp {
    /// How tightly the operator binds; a higher number binds tighter.
    pub fn precedence(&self) -> (p: u8)
        ensures
            p == self.spec_precedence(),
    {
        match self {
            BinaryOp::Or => 1,
            BinaryOp::And => 2,
            BinaryOp::Eq | BinaryOp::Neq => 3,
            BinaryOp::Lt | BinaryOp::Leq | BinaryOp::Gt | BinaryOp::Geq => 4,
            BinaryOp::Add | BinaryOp::Sub => 5,
            BinaryOp::Mul | BinaryOp::Div | BinaryOp::Mod => 6,
        }
    }

    /// How tightly the operator binds.
    pub open spec fn spec_precedence(&self) -> u8 {
        match self {
            BinaryOp::Or => 1,
            BinaryOp::And => 2,
            BinaryOp::Eq | BinaryOp::Neq => 3,
            BinaryOp::Lt | BinaryOp::Leq | BinaryOp::Gt | BinaryOp::Geq => 4,
            BinaryOp::Add | BinaryOp::Sub => 5,
            BinaryOp::Mul | BinaryOp::Div | BinaryOp::Mod => 6,
        }
    }
}

} // verus!
