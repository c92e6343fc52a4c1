//! The abstract syntax the engine executes.
//!
//! An external parser produces these nodes; the engine only consumes
//! them. Identifiers and literal text are character vectors, matching
//! the engine's text representation.

use std::rc::Rc;

use vstd::prelude::*;

verus! {

/// A user-defined function: ordered parameter names and body
/// statements. Defined functions are shared, not copied, so a
/// definition statement carries its function behind a shared handle.
pub struct FunDef {
    pub params: Vec<Vec<char>>,
    pub body: Vec<Statement>,
}

/// Unary operators.
pub enum UnaryOp {
    /// Invert truthiness, yielding `1` or `0`.
    Not,
    /// Coerce to an integer and negate.
    Negate,
}

/// Binary operators.
pub enum BinOp {
    Add,
    Subtract,
    Multiply,
    Divide,
    Modulo,
    Equal,
    NotEqual,
    Less,
    LessEqual,
    Greater,
    GreaterEqual,
    And,
    Or,
    /// The match operator: left text against right pattern-or-text.
    Match,
}

/// Expressions.
#[allow(inconsistent_fields)]
pub enum Expr {
    /// Integer literal.
    IntLit(i64),
    /// Text literal.
    TextLit(Vec<char>),
    /// Pattern literal: the text of a regular expression.
    PatternLit(Vec<char>),
    /// Variable reference.
    Variable(Vec<char>),
    /// Binary operation.
    Binary { op: BinOp, left: Box<Expr>, right: Box<Expr> },
    /// Unary operation.
    Unary { op: UnaryOp, expr: Box<Expr> },
    /// Array literal.
    ArrayLit(Vec<Expr>),
    /// Indexing into an array (by position) or text (by character).
    Index { expr: Box<Expr>, index: Box<Expr> },
    /// Substitution: replace matches of `pat` by `repl` in the input,
    /// with flag characters `i`, `m`, `s` selecting modes and `g`
    /// selecting replace-all.
    Subst { pat: Vec<char>, repl: Vec<char>, flags: Vec<char>, input: Box<Expr> },
    /// Function call in expression position.
    Call { name: Vec<char>, args: Vec<Expr> },
}

/// Statements.
#[allow(inconsistent_fields)]
pub enum Statement {
    /// Bind the value of an expression to a variable.
    Assignment { var: Vec<char>, value: Expr },
    /// Overwrite one element of an array variable; out-of-bounds
    /// positions are silently ignored.
    IndexAssignment { var: Vec<char>, index: Expr, value: Expr },
    /// Conditional with `elseif` chain and optional `else`.
    If {
        condition: Expr,
        then_body: Vec<Statement>,
        elseif_parts: Vec<(Expr, Vec<Statement>)>,
        else_body: Option<Vec<Statement>>,
    },
    /// Loop while the condition is truthy.
    While { condition: Expr, body: Vec<Statement> },
    /// Formatted output: a literal fragment followed by rendered
    /// argument values, with escape substitution and a final newline.
    Printf { format: Vec<char>, args: Vec<Expr> },
    /// Read one line from the input stream into a variable.
    ReadLine { var: Vec<char> },
    /// Increment a variable by the value of an expression.
    Inc { var: Vec<char>, value: Expr },
    /// Decrement a variable by the value of an expression.
    Dec { var: Vec<char>, value: Expr },
    /// Append to an array variable.
    Push { array: Vec<char>, value: Expr },
    /// Remove the last element of an array variable.
    Pop { array: Vec<char> },
    /// Remove the first element of an array variable.
    Shift { array: Vec<char> },
    /// Prepend to an array variable.
    Unshift { array: Vec<char>, value: Expr },
    /// Open a named socket to a host and port.
    SockOpen { name: Vec<char>, host: Expr, port: Expr },
    /// Close a named socket.
    SockClose { name: Vec<char> },
    /// Write rendered text to a named socket.
    SockWrite { name: Vec<char>, data: Expr },
    /// Read from a named socket into a variable.
    SockRead { name: Vec<char>, var: Vec<char> },
    /// Load and run another source file against the same environment.
    Import { path: Vec<char> },
    /// Define (or redefine) a function.
    FunctionDef { name: Vec<char>, fun: Rc<FunDef> },
    /// Call a function in statement position.
    FunctionCall { name: Vec<char>, args: Vec<Expr> },
    /// Return from the enclosing function body.
    Return { expr: Option<Expr> },
}

/// Size of an expression tree, the evaluator's termination measure.
pub open spec fn expr_size(e: Expr) -> nat
    decreases e,
{
    match e {
        Expr::IntLit(_) => 1,
        Expr::TextLit(_) => 1,
        Expr::PatternLit(_) => 1,
        Expr::Variable(_) => 1,
        Expr::Binary { op: _, left, right } => 1 + expr_size(*left) + expr_size(*right),
        Expr::Unary { op: _, expr } => 1 + expr_size(*expr),
        Expr::ArrayLit(elems) => 1 + exprs_size(elems@),
        Expr::Index { expr, index } => 1 + expr_size(*expr) + expr_size(*index),
        Expr::Subst { pat: _, repl: _, flags: _, input } => 1 + expr_size(*input),
        Expr::Call { name: _, args } => 1 + exprs_size(args@),
    }
}

/// Total size of a sequence of expressions.
pub open spec fn exprs_size(es: Seq<Expr>) -> nat
    decreases es,
{
    if es.len() == 0 {
        0
    } else {
        expr_size(es[0]) + exprs_size(es.subrange(1, es.len() as int))
    }
}

/// Size of a statement tree.
pub open spec fn stmt_size(s: Statement) -> nat
    decreases s,
{
    match s {
        Statement::Assignment { var: _, value } => 1 + expr_size(value),
        Statement::IndexAssignment { var: _, index, value } => 1 + expr_size(index) + expr_size(
            value,
        ),
        Statement::If { condition, then_body, elseif_parts, else_body } => 1 + expr_size(condition)
            + stmts_size(then_body@) + pairs_size(elseif_parts@) + (match else_body {
            Some(ss) => 1 + stmts_size(ss@),
            None => 0,
        }),
        Statement::While { condition, body } => 1 + expr_size(condition) + stmts_size(body@),
        Statement::Printf { format: _, args } => 1 + exprs_size(args@),
        Statement::ReadLine { var: _ } => 1,
        Statement::Inc { var: _, value } => 1 + expr_size(value),
        Statement::Dec { var: _, value } => 1 + expr_size(value),
        Statement::Push { array: _, value } => 1 + expr_size(value),
        Statement::Pop { array: _ } => 1,
        Statement::Shift { array: _ } => 1,
        Statement::Unshift { array: _, value } => 1 + expr_size(value),
        Statement::SockOpen { name: _, host, port } => 1 + expr_size(host) + expr_size(port),
        Statement::SockClose { name: _ } => 1,
        Statement::SockWrite { name: _, data } => 1 + expr_size(data),
        Statement::SockRead { name: _, var: _ } => 1,
        Statement::Import { path: _ } => 1,
        Statement::FunctionDef { name: _, fun: _ } => 1,
        Statement::FunctionCall { name: _, args } => 1 + exprs_size(args@),
        Statement::Return { expr } => 1 + (match expr {
            Some(e) => expr_size(e),
            None => 0,
        }),
    }
}

/// Total size of a sequence of statements.
pub open spec fn stmts_size(ss: Seq<Statement>) -> nat
    decreases ss,
{
    if ss.len() == 0 {
        0
    } else {
        stmt_size(ss[0]) + stmts_size(ss.subrange(1, ss.len() as int))
    }
}

/// Size of one `elseif` part.
pub open spec fn pair_size(p: (Expr, Vec<Statement>)) -> nat
    decreases p,
{
    expr_size(p.0) + stmts_size(p.1@)
}

/// Total size of the `elseif` parts.
pub open spec fn pairs_size(ps: Seq<(Expr, Vec<Statement>)>) -> nat
    decreases ps,
{
    if ps.len() == 0 {
        0
    } else {
        pair_size(ps[0]) + pairs_size(ps.subrange(1, ps.len() as int))
    }
}

/// Every statement has positive size.
pub proof fn lemma_stmt_size_pos(s: Statement)
    ensures
        stmt_size(s) >= 1,
{
}

/// A sequence is at least as large as each of its statements.
pub proof fn lemma_stmts_size_elem(ss: Seq<Statement>, i: int)
    requires
        0 <= i < ss.len(),
    ensures
        stmts_size(ss) >= stmt_size(ss[i]),
    decreases ss.len(),
{
    if i > 0 {
        lemma_stmts_size_elem(ss.subrange(1, ss.len() as int), i - 1);
    }
}

/// A sequence is at least as large as each of its expressions.
pub proof fn lemma_exprs_size_elem(es: Seq<Expr>, i: int)
    requires
        0 <= i < es.len(),
    ensures
        exprs_size(es) >= expr_size(es[i]),
    decreases es.len(),
{
    if i > 0 {
        lemma_exprs_size_elem(es.subrange(1, es.len() as int), i - 1);
    }
}

/// The `elseif` parts are at least as large as each part.
pub proof fn lemma_pairs_size_elem(ps: Seq<(Expr, Vec<Statement>)>, i: int)
    requires
        0 <= i < ps.len(),
    ensures
        pairs_size(ps) >= pair_size(ps[i]),
    decreases ps.len(),
{
    if i > 0 {
        lemma_pairs_size_elem(ps.subrange(1, ps.len() as int), i - 1);
    }
}

} // verus!
