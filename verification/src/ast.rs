//! The part of a Solidity syntax tree that instrumentation reads.
use vstd::prelude::*;
use vstd::utf8::is_char_boundary;

verus! {

/// A place in a source: its bytes, and the lines that it begins and ends on, counted from zero.
#[derive(Clone, Copy, Debug, PartialEq, Eq, Structural)]
pub struct Span {
    pub lo: usize,
    pub hi: usize,
    pub first_line: u32,
    pub last_line: u32,
}

/// An expression.
#[derive(Debug)]
pub struct Expr {
    pub span: Span,
    pub kind: ExprKind,
}

/// What an expression is, as far as it has paths or is a call of `require`.
#[derive(Debug)]
pub enum ExprKind {
    /// A name.
    Ident(String),
    /// A call of the callee with arguments.
    Call(Box<Expr>, Vec<Expr>),
    /// An expression in parentheses.
    Paren(Box<Expr>),
    /// A disjunction: the second operand counts only where the first does not hold.
    Or(Box<Expr>, Box<Expr>),
    /// A conjunction: the second operand counts only where the first holds.
    And(Box<Expr>, Box<Expr>),
    /// A condition, and what counts where it holds and where it does not.
    Ternary(Box<Expr>, Box<Expr>, Box<Expr>),
    /// Any other expression, with the expressions in it.
    Other(Vec<Expr>),
}

/// Assembly statements in braces.
#[derive(Debug)]
pub struct YulBlock {
    pub span: Span,
    pub stmts: Vec<YulStmt>,
}

/// An assembly statement.
#[derive(Debug)]
pub struct YulStmt {
    pub span: Span,
    pub kind: YulStmtKind,
}

/// What an assembly statement is.
#[derive(Debug)]
pub enum YulStmtKind {
    /// A statement without statements in it.
    Plain,
    Block(YulBlock),
    /// The block for a condition that holds.
    If(YulBlock),
    /// The blocks of the cases.
    Switch(Vec<YulBlock>),
    /// What comes before the loop, what follows each round, and the body.
    For(YulBlock, YulBlock, YulBlock),
    /// The body of a function.
    Function(YulBlock),
}

/// Statements in braces.
#[derive(Debug)]
pub struct Block {
    pub span: Span,
    pub stmts: Vec<Stmt>,
}

/// A statement.
#[derive(Debug)]
pub struct Stmt {
    pub span: Span,
    pub kind: StmtKind,
}

/// What a statement is, with the expressions in it.
#[derive(Debug)]
pub enum StmtKind {
    Assembly(YulBlock),
    DeclSingle(Vec<Expr>),
    DeclMulti(Vec<Expr>),
    Block(Block),
    Break,
    Continue,
    /// A body and the condition that follows it.
    DoWhile(Box<Stmt>, Expr),
    Emit(Vec<Expr>),
    Expr(Expr),
    /// The condition and the step of a counting loop, as far as they are there, and the body.
    For(Vec<Expr>, Box<Stmt>),
    /// A condition, the statement for where it holds, and the one for where it does not.
    If(Expr, Box<Stmt>, Option<Box<Stmt>>),
    Return(Vec<Expr>),
    Revert(Vec<Expr>),
    /// A call and the blocks of the clauses.
    Try(Expr, Vec<Block>),
    UncheckedBlock(Block),
    /// A condition and the body that follows it.
    While(Expr, Box<Stmt>),
    /// The place of the function's body in a modifier.
    Placeholder,
}

/// What a function is.
#[derive(Clone, Copy, Debug, PartialEq, Eq, Structural)]
pub enum FunctionKind {
    Constructor,
    Function,
    Fallback,
    Receive,
    Modifier,
}

/// A function.
#[derive(Debug)]
pub struct ItemFunction {
    /// Where the function begins.
    pub start: usize,
    pub kind: FunctionKind,
    pub name: Option<String>,
    /// The function is declared `pure`.
    pub is_pure: bool,
    /// The arguments of its modifiers and base constructors.
    pub arguments: Vec<Expr>,
    pub body: Option<Block>,
}

/// An item of a source or a contract.
#[derive(Debug)]
pub enum Item {
    /// A contract: its name and its items.
    Contract(String, Vec<Item>),
    Function(ItemFunction),
    /// Any other item.
    Other,
}

/// A source.
#[derive(Debug)]
pub struct SourceUnit {
    pub items: Vec<Item>,
}

/// The span lies in the source, begins and ends between characters, and its lines can be counted.
pub open spec fn span_ok(source: Seq<u8>, span: Span) -> bool {
    &&& span.lo <= span.hi <= source.len()
    &&& is_char_boundary(source, span.lo as int)
    &&& is_char_boundary(source, span.hi as int)
    &&& span.first_line + 1 <= u32::MAX
    &&& span.last_line + 2 <= u32::MAX
}

/// All spans of an expression are in order.
pub open spec fn expr_ok(source: Seq<u8>, expr: Expr) -> bool
    decreases expr, 0nat,
{
    span_ok(source, expr.span) && match expr.kind {
        ExprKind::Ident(_) => true,
        ExprKind::Call(callee, args) => expr_ok(source, *callee) && exprs_ok(source, args, args@.len()),
        ExprKind::Paren(inner) => expr_ok(source, *inner),
        ExprKind::Or(left, right) => expr_ok(source, *left) && expr_ok(source, *right),
        ExprKind::And(left, right) => expr_ok(source, *left) && expr_ok(source, *right),
        ExprKind::Ternary(cond, holds, fails) => expr_ok(source, *cond) && expr_ok(source, *holds) && expr_ok(
            source,
            *fails,
        ),
        ExprKind::Other(parts) => exprs_ok(source, parts, parts@.len()),
    }
}

/// All spans of the first `n` expressions are in order.
pub open spec fn exprs_ok(source: Seq<u8>, exprs: Vec<Expr>, n: nat) -> bool
    decreases exprs, n,
{
    n == 0 || n > exprs@.len() || (exprs_ok(source, exprs, (n - 1) as nat) && expr_ok(source, exprs[n - 1]))
}

/// All spans of an assembly statement are in order.
pub open spec fn yul_ok(source: Seq<u8>, stmt: YulStmt) -> bool
    decreases stmt, 0nat,
{
    span_ok(source, stmt.span) && match stmt.kind {
        YulStmtKind::Plain => true,
        YulStmtKind::Block(block) => yul_block_ok(source, block),
        YulStmtKind::If(block) => yul_block_ok(source, block),
        YulStmtKind::Switch(cases) => cases_ok(source, cases, cases@.len()),
        YulStmtKind::For(init, step, body) => yul_block_ok(source, init) && yul_block_ok(source, step) && yul_block_ok(
            source,
            body,
        ),
        YulStmtKind::Function(body) => yul_block_ok(source, body),
    }
}

/// All spans of an assembly block are in order.
pub open spec fn yul_block_ok(source: Seq<u8>, block: YulBlock) -> bool
    decreases block, 0nat,
{
    span_ok(source, block.span) && yuls_ok(source, block.stmts, block.stmts@.len())
}

/// All spans of the first `n` assembly statements are in order.
pub open spec fn yuls_ok(source: Seq<u8>, stmts: Vec<YulStmt>, n: nat) -> bool
    decreases stmts, n,
{
    n == 0 || n > stmts@.len() || (yuls_ok(source, stmts, (n - 1) as nat) && yul_ok(source, stmts[n - 1]))
}

/// All spans of the first `n` cases are in order.
pub open spec fn cases_ok(source: Seq<u8>, cases: Vec<YulBlock>, n: nat) -> bool
    decreases cases, n,
{
    n == 0 || n > cases@.len() || (cases_ok(source, cases, (n - 1) as nat) && yul_block_ok(source, cases[n - 1]))
}

/// All spans of a statement are in order.
pub open spec fn stmt_ok(source: Seq<u8>, stmt: Stmt) -> bool
    decreases stmt, 0nat,
{
    span_ok(source, stmt.span) && match stmt.kind {
        StmtKind::Assembly(block) => yul_block_ok(source, block),
        StmtKind::DeclSingle(exprs) => exprs_ok(source, exprs, exprs@.len()),
        StmtKind::DeclMulti(exprs) => exprs_ok(source, exprs, exprs@.len()),
        StmtKind::Emit(exprs) => exprs_ok(source, exprs, exprs@.len()),
        StmtKind::Return(exprs) => exprs_ok(source, exprs, exprs@.len()),
        StmtKind::Revert(exprs) => exprs_ok(source, exprs, exprs@.len()),
        StmtKind::Expr(expr) => expr_ok(source, expr),
        StmtKind::Block(block) => span_ok(source, block.span) && stmts_ok(source, block.stmts, block.stmts@.len()),
        StmtKind::UncheckedBlock(block) => span_ok(source, block.span) && stmts_ok(
            source,
            block.stmts,
            block.stmts@.len(),
        ),
        StmtKind::DoWhile(body, cond) => stmt_ok(source, *body) && expr_ok(source, cond),
        StmtKind::While(cond, body) => expr_ok(source, cond) && stmt_ok(source, *body),
        StmtKind::For(exprs, body) => exprs_ok(source, exprs, exprs@.len()) && stmt_ok(source, *body),
        StmtKind::If(cond, body, None) => expr_ok(source, cond) && stmt_ok(source, *body),
        StmtKind::If(cond, body, Some(other)) => expr_ok(source, cond) && stmt_ok(source, *body) && stmt_ok(
            source,
            *other,
        ),
        StmtKind::Try(call, clauses) => expr_ok(source, call) && clauses_ok(source, clauses, clauses@.len()),
        _ => true,
    }
}

/// All spans of the first `n` statements are in order.
pub open spec fn stmts_ok(source: Seq<u8>, stmts: Vec<Stmt>, n: nat) -> bool
    decreases stmts, n,
{
    n == 0 || n > stmts@.len() || (stmts_ok(source, stmts, (n - 1) as nat) && stmt_ok(source, stmts[n - 1]))
}

/// All spans of the first `n` clauses are in order.
pub open spec fn clauses_ok(source: Seq<u8>, clauses: Vec<Block>, n: nat) -> bool
    decreases clauses, n,
{
    n == 0 || n > clauses@.len() || (clauses_ok(source, clauses, (n - 1) as nat) && span_ok(
        source,
        clauses[n - 1].span,
    ) && stmts_ok(source, clauses[n - 1].stmts, clauses[n - 1].stmts@.len()))
}

/// All spans of a function are in order, and it has a name wherever its kind does not give it one.
pub open spec fn function_ok(source: Seq<u8>, func: ItemFunction) -> bool {
    &&& func.start <= source.len()
    &&& exprs_ok(source, func.arguments, func.arguments@.len())
    &&& func.name is None ==> func.kind != FunctionKind::Function && func.kind != FunctionKind::Modifier
    &&& func.body is Some ==> span_ok(source, func.body->0.span) && stmts_ok(
        source,
        func.body->0.stmts,
        func.body->0.stmts@.len(),
    )
}

/// All functions of an item are in order.
pub open spec fn item_ok(source: Seq<u8>, item: Item) -> bool
    decreases item, 0nat,
{
    match item {
        Item::Contract(_, items) => items_ok(source, items, items@.len()),
        Item::Function(func) => function_ok(source, func),
        Item::Other => true,
    }
}

/// All functions of the first `n` items are in order.
pub open spec fn items_ok(source: Seq<u8>, items: Vec<Item>, n: nat) -> bool
    decreases items, n,
{
    n == 0 || n > items@.len() || (items_ok(source, items, (n - 1) as nat) && item_ok(source, items[n - 1]))
}

/// The expression without the parentheses around it.
pub open spec fn peeled(expr: Expr) -> Expr
    decreases expr,
{
    match expr.kind {
        ExprKind::Paren(inner) => peeled(*inner),
        _ => expr,
    }
}

/// The expression is a call of `require`.
pub open spec fn calls_require(expr: Expr) -> bool {
    match peeled(expr).kind {
        ExprKind::Call(callee, _) => match peeled(*callee).kind {
            ExprKind::Ident(name) => name@ == "require"@,
            _ => false,
        },
        _ => false,
    }
}

/// The statement is a call of `require`.
pub open spec fn stmt_calls_require(stmt: Stmt) -> bool {
    match stmt.kind {
        StmtKind::Expr(expr) => calls_require(expr),
        _ => false,
    }
}

impl Expr {
    /// The expression without the parentheses around it.
    pub fn peel_parens(&self) -> (inner: &Expr)
        ensures
            *inner == peeled(*self),
        decreases self,
    {
        match &self.kind {
            ExprKind::Paren(inner) => inner.peel_parens(),
            _ => self,
        }
    }
}

}
