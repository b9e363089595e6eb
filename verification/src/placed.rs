//! Every probe stands for something in its source.
use crate::ast::{
    calls_require, Block, Expr, ExprKind, FunctionKind, Item, ItemFunction, SourceUnit, Span, Stmt, StmtKind, YulBlock,
    YulStmt, YulStmtKind,
};
use crate::collector::{
    closed_up, condition_closed, condition_opened, entered, function_name, has_own_probes, mode_of, opened,
    operand_closed, operand_opened, passed_over, probe_for, probed, required, statement_end, visited_body,
    visited_cases, visited_clauses, visited_expr, visited_exprs, visited_function, visited_item, visited_items,
    visited_operand, visited_parts, visited_stmt, visited_stmts, visited_yul, visited_yuls, with_branch, yul_entered,
    yul_probed, Collected, Context, ProbeMode,
};
use crate::instrumentation::collected_from;
use crate::probes::{ProbeKindView, ProbeView};
use crate::reached::{
    gets_probes, inside, is_body, is_chain, is_end, is_expr_chain, is_expr_of, is_item_chain, is_item_of, is_listed,
    is_part, is_probe_of, is_simple, is_yul_chain, is_yul_child, is_yul_of, only_space_is_trimmed,
};
use crate::version::Version;
use vstd::prelude::*;

verus! {

/// The place of a path of a branch.
pub open spec fn is_path(kind: ProbeKindView, path: int) -> bool {
    match kind {
        ProbeKindView::Branch { path_id, .. } => path_id == path as u32,
        _ => false,
    }
}

/// The place of the body of a loop or of an `if`: a block without what may stand before its brace.
pub open spec fn body_span(body: Stmt) -> Span {
    match body.kind {
        StmtKind::Block(block) => block.span,
        StmtKind::UncheckedBlock(block) => block.span,
        _ => body.span,
    }
}

/// A statement calls for a probe of a kind at a place.
pub open spec fn stmt_needs(stmt: Stmt, kind: ProbeKindView, span: Span) -> bool {
    match stmt.kind {
        StmtKind::If(_, body, other) => {
            ||| is_path(kind, 0) && span == body_span(*body)
            ||| is_path(kind, 1) && span == (match other {
                Some(other) => body_span(*other),
                None => body.span,
            })
        },
        StmtKind::Try(_, clauses) => exists|k: int|
            0 <= k < clauses@.len() && is_path(kind, k) && span == (#[trigger] clauses@[k]).span,
        StmtKind::While(_, body) => kind is Statement && span == body_span(*body),
        StmtKind::DoWhile(body, _) => kind is Statement && span == body_span(*body),
        StmtKind::For(_, body) => kind is Statement && span == body_span(*body),
        StmtKind::Expr(expr) if calls_require(expr) => (kind is RequirePre || kind is RequirePost) && span == stmt.span,
        _ => is_simple(stmt) && kind is Statement && span == stmt.span,
    }
}

/// An expression calls for a probe of a kind at a place.
pub open spec fn expr_needs(expr: Expr, kind: ProbeKindView, span: Span) -> bool {
    match expr.kind {
        ExprKind::Or(left, right) => is_path(kind, 0) && span == left.span || is_path(kind, 1) && span == right.span,
        ExprKind::And(left, right) => is_path(kind, 0) && span == left.span || is_path(kind, 1) && span == right.span,
        ExprKind::Ternary(_, holds, fails) => is_path(kind, 0) && span == holds.span || is_path(kind, 1) && span
            == fails.span,
        _ => false,
    }
}

/// An assembly statement calls for a probe of a kind at a place.
pub open spec fn yul_needs(yul: YulStmt, kind: ProbeKindView, span: Span) -> bool {
    match yul.kind {
        YulStmtKind::Plain => kind is Statement && span == yul.span,
        YulStmtKind::If(block) => is_path(kind, 0) && span == block.span,
        YulStmtKind::Switch(cases) => exists|k: int|
            0 <= k < cases@.len() && is_path(kind, k) && span == (#[trigger] cases@[k]).span,
        YulStmtKind::For(_, _, body) => kind is Statement && span == body.span,
        _ => false,
    }
}

/// The probe is one of those that are called for: it has the byte range and the line range of a place, and the names
/// of the source and the contract around it.
pub open spec fn is_called_for(cx: Context, probe: ProbeView, needs: spec_fn(ProbeKindView, Span) -> bool) -> bool {
    exists|span: Span| needs(probe.kind, span) && #[trigger] is_probe_of(cx, probe, probe.kind, span)
}

/// The probes that were added are called for.
pub open spec fn adds(cx: Context, d: Collected, c: Collected, needs: spec_fn(ProbeKindView, Span) -> bool) -> bool {
    &&& c.probes.len() <= d.probes.len()
    &&& forall|i: int| 0 <= i < c.probes.len() ==> #[trigger] d.probes[i] == c.probes[i]
    &&& forall|i: int| c.probes.len() <= i < d.probes.len() ==> is_called_for(cx, #[trigger] d.probes[i], needs)
}

proof fn adds_on(cx: Context, e: Collected, d: Collected, c: Collected, needs: spec_fn(ProbeKindView, Span) -> bool)
    requires
        adds(cx, d, c, needs),
        adds(cx, e, d, needs),
    ensures
        adds(cx, e, c, needs),
{
    assert forall|i: int| 0 <= i < c.probes.len() implies #[trigger] e.probes[i] == c.probes[i] by {
        assert(d.probes[i] == c.probes[i]);
        assert(e.probes[i] == d.probes[i]);
    }
    assert forall|i: int| c.probes.len() <= i < e.probes.len() implies is_called_for(cx, #[trigger] e.probes[i], needs) by {
        if i < d.probes.len() {
            assert(e.probes[i] == d.probes[i]);
            assert(is_called_for(cx, d.probes[i], needs));
        }
    }
}

/// Everything that is called for in an expression is in what is called for.
spec fn expr_within(expr: Expr, needs: spec_fn(ProbeKindView, Span) -> bool) -> bool {
    forall|chain: Seq<Expr>, kind: ProbeKindView, span: Span|
        is_expr_chain(chain) && chain[0] == expr && #[trigger] expr_needs(chain.last(), kind, span) ==> needs(kind, span)
}

proof fn part_is_within(part: Expr, expr: Expr, needs: spec_fn(ProbeKindView, Span) -> bool)
    requires
        expr_within(expr, needs),
        is_part(part, expr),
    ensures
        expr_within(part, needs),
{
    assert forall|chain: Seq<Expr>, kind: ProbeKindView, span: Span|
        is_expr_chain(chain) && chain[0] == part && #[trigger] expr_needs(chain.last(), kind, span) implies needs(
        kind,
        span,
    ) by {
        let longer = seq![expr] + chain;
        assert(longer.last() == chain.last());
        assert forall|i: int| 0 <= i < longer.len() - 1 implies is_part(#[trigger] longer[i + 1], longer[i]) by {
            assert(longer[i + 1] == chain[i]);
            if i > 0 {
                assert(longer[i] == chain[i - 1]);
                assert(is_part(chain[(i - 1) + 1], chain[i - 1]));
            }
        }
        assert(expr_needs(longer.last(), kind, span));
    }
}

proof fn expr_itself(expr: Expr, kind: ProbeKindView, span: Span, needs: spec_fn(ProbeKindView, Span) -> bool)
    requires
        expr_within(expr, needs),
        expr_needs(expr, kind, span),
    ensures
        needs(kind, span),
{
    let chain = seq![expr];
    assert(chain.last() == expr);
    assert(is_expr_chain(chain));
    assert(expr_needs(chain.last(), kind, span));
}

/// Everything that is called for in an assembly statement is in what is called for.
spec fn yul_within(yul: YulStmt, needs: spec_fn(ProbeKindView, Span) -> bool) -> bool {
    forall|chain: Seq<YulStmt>, kind: ProbeKindView, span: Span|
        is_yul_chain(chain) && chain[0] == yul && #[trigger] yul_needs(chain.last(), kind, span) ==> needs(kind, span)
}

proof fn yul_child_is_within(inner: YulStmt, outer: YulStmt, needs: spec_fn(ProbeKindView, Span) -> bool)
    requires
        yul_within(outer, needs),
        is_yul_child(inner, outer),
    ensures
        yul_within(inner, needs),
{
    assert forall|chain: Seq<YulStmt>, kind: ProbeKindView, span: Span|
        is_yul_chain(chain) && chain[0] == inner && #[trigger] yul_needs(chain.last(), kind, span) implies needs(
        kind,
        span,
    ) by {
        let longer = seq![outer] + chain;
        assert(longer.last() == chain.last());
        assert forall|i: int| 0 <= i < longer.len() - 1 implies is_yul_child(#[trigger] longer[i + 1], longer[i]) by {
            assert(longer[i + 1] == chain[i]);
            if i > 0 {
                assert(longer[i] == chain[i - 1]);
                assert(is_yul_child(chain[(i - 1) + 1], chain[i - 1]));
            }
        }
        assert(yul_needs(longer.last(), kind, span));
    }
}

proof fn yul_itself(yul: YulStmt, kind: ProbeKindView, span: Span, needs: spec_fn(ProbeKindView, Span) -> bool)
    requires
        yul_within(yul, needs),
        yul_needs(yul, kind, span),
    ensures
        needs(kind, span),
{
    let chain = seq![yul];
    assert(chain.last() == yul);
    assert(is_yul_chain(chain));
    assert(yul_needs(chain.last(), kind, span));
}

/// Everything that is called for in a statement is in what is called for.
spec fn stmt_within(cx: Context, stmt: Stmt, needs: spec_fn(ProbeKindView, Span) -> bool) -> bool {
    forall|chain: Seq<Stmt>| #[trigger]
        is_chain(chain) && chain[0] == stmt ==> last_is_within(cx, chain.last(), needs)
}

/// So is everything that a statement, its expressions and its assembly call for.
spec fn last_is_within(cx: Context, stmt: Stmt, needs: spec_fn(ProbeKindView, Span) -> bool) -> bool {
    &&& forall|kind: ProbeKindView, span: Span| #[trigger] stmt_needs(stmt, kind, span) ==> needs(kind, span)
    &&& forall|expr: Expr| #[trigger] is_expr_of(expr, stmt) ==> expr_within(expr, needs)
    &&& cx.mode == ProbeMode::Direct ==> forall|yul: YulStmt| #[trigger] is_yul_of(yul, stmt) ==> yul_within(yul, needs)
}

proof fn child_is_within(cx: Context, inner: Stmt, outer: Stmt, needs: spec_fn(ProbeKindView, Span) -> bool)
    requires
        stmt_within(cx, outer, needs),
        is_body(inner, outer) || is_listed(inner, outer),
    ensures
        stmt_within(cx, inner, needs),
{
    assert forall|chain: Seq<Stmt>| #[trigger] is_chain(chain) && chain[0] == inner implies last_is_within(
        cx,
        chain.last(),
        needs,
    ) by {
        let longer = seq![outer] + chain;
        assert(longer.last() == chain.last());
        assert forall|i: int| 0 <= i < longer.len() - 1 implies is_body(#[trigger] longer[i + 1], longer[i]) || is_listed(
            longer[i + 1],
            longer[i],
        ) by {
            assert(longer[i + 1] == chain[i]);
            if i > 0 {
                assert(longer[i] == chain[i - 1]);
                assert(is_body(chain[(i - 1) + 1], chain[i - 1]) || is_listed(chain[(i - 1) + 1], chain[i - 1]));
            }
        }
        assert(is_chain(longer));
    }
}

proof fn stmt_itself(cx: Context, stmt: Stmt, needs: spec_fn(ProbeKindView, Span) -> bool)
    requires
        stmt_within(cx, stmt, needs),
    ensures
        last_is_within(cx, stmt, needs),
{
    let chain = seq![stmt];
    assert(is_chain(chain));
    assert(chain.last() == stmt);
}

/// A probe that was made for a place is called for if the place calls for it.
proof fn probe_is_called_for(
    cx: Context,
    probe: ProbeView,
    span: Span,
    needs: spec_fn(ProbeKindView, Span) -> bool,
)
    requires
        probe == probe_for(cx, probe.kind, span, probe.tag),
        needs(probe.kind, span),
    ensures
        is_called_for(cx, probe, needs),
{
    if span.lo < span.hi && cx.source[span.hi - 1] == 0x3b {
        only_space_is_trimmed(cx.source, span.lo as int, span.hi - 1);
    }
    assert(is_end(cx.source, span, statement_end(cx.source, span)));
    assert(is_probe_of(cx, probe, probe.kind, span));
}

proof fn probed_adds(
    cx: Context,
    c: Collected,
    kind: ProbeKindView,
    span: Span,
    needs: spec_fn(ProbeKindView, Span) -> bool,
)
    requires
        needs(kind, span),
    ensures
        adds(cx, probed(cx, c, kind, span), c, needs),
{
    let d = probed(cx, c, kind, span);
    if d.probes.len() > c.probes.len() {
        probe_is_called_for(cx, d.probes.last(), span, needs);
    }
}

proof fn opened_adds(
    cx: Context,
    c: Collected,
    kind: ProbeKindView,
    span: Span,
    needs: spec_fn(ProbeKindView, Span) -> bool,
)
    requires
        needs(kind, span),
    ensures
        adds(cx, opened(cx, c, kind, span), c, needs),
{
    let d = opened(cx, c, kind, span);
    if d.probes.len() > c.probes.len() {
        probe_is_called_for(cx, d.probes.last(), span, needs);
    }
}

proof fn passed_over_adds(
    cx: Context,
    c: Collected,
    kind: ProbeKindView,
    span: Span,
    needs: spec_fn(ProbeKindView, Span) -> bool,
)
    requires
        needs(kind, span),
    ensures
        adds(cx, passed_over(cx, c, kind, span), c, needs),
{
    let d = passed_over(cx, c, kind, span);
    if d.probes.len() > c.probes.len() {
        probe_is_called_for(cx, d.probes.last(), span, needs);
    }
}

proof fn entered_adds(
    cx: Context,
    c: Collected,
    kind: ProbeKindView,
    span: Span,
    needs: spec_fn(ProbeKindView, Span) -> bool,
)
    requires
        needs(kind, span),
    ensures
        adds(cx, entered(cx, c, kind, span), c, needs),
{
    let d = entered(cx, c, kind, span);
    if d.probes.len() > c.probes.len() {
        probe_is_called_for(cx, d.probes.last(), span, needs);
    }
}

proof fn yul_entered_adds(
    cx: Context,
    c: Collected,
    kind: ProbeKindView,
    span: Span,
    needs: spec_fn(ProbeKindView, Span) -> bool,
)
    requires
        needs(kind, span),
    ensures
        adds(cx, yul_entered(cx, c, kind, span), c, needs),
{
    let d = yul_entered(cx, c, kind, span);
    if d.probes.len() > c.probes.len() {
        probe_is_called_for(cx, d.probes.last(), span, needs);
    }
}

proof fn yul_probed_adds(cx: Context, c: Collected, span: Span, needs: spec_fn(ProbeKindView, Span) -> bool)
    requires
        needs(ProbeKindView::Statement, span),
    ensures
        adds(cx, yul_probed(cx, c, span), c, needs),
{
    let d = yul_probed(cx, c, span);
    if d.probes.len() > c.probes.len() {
        probe_is_called_for(cx, d.probes.last(), span, needs);
    }
}

proof fn operand_opened_adds(
    cx: Context,
    c: Collected,
    is_or: bool,
    kind: ProbeKindView,
    span: Span,
    needs: spec_fn(ProbeKindView, Span) -> bool,
)
    requires
        needs(kind, span),
    ensures
        adds(cx, operand_opened(cx, c, is_or, kind, span), c, needs),
{
    let d = operand_opened(cx, c, is_or, kind, span);
    if d.probes.len() > c.probes.len() {
        probe_is_called_for(cx, d.probes.last(), span, needs);
    }
}

proof fn required_adds(cx: Context, c: Collected, span: Span, needs: spec_fn(ProbeKindView, Span) -> bool)
    requires
        forall|branch_id: u32| needs(#[trigger] pre(branch_id), span) && needs(post(branch_id), span),
    ensures
        adds(cx, required(cx, c, span), c, needs),
{
    let d = required(cx, c, span);
    let n = c.probes.len() as int;
    if d.probes.len() > n {
        let b = c.branches as u32;
        assert(needs(pre(b), span) && needs(post(b), span));
        probe_is_called_for(cx, d.probes[n], span, needs);
        probe_is_called_for(cx, d.probes[n + 1], span, needs);
    }
}

spec fn pre(branch_id: u32) -> ProbeKindView {
    ProbeKindView::RequirePre { branch_id }
}

spec fn post(branch_id: u32) -> ProbeKindView {
    ProbeKindView::RequirePost { branch_id }
}

proof fn condition_closed_adds(
    cx: Context,
    c: Collected,
    cond: Span,
    holds: Span,
    fails: Span,
    branch_id: u32,
    needs: spec_fn(ProbeKindView, Span) -> bool,
)
    requires
        needs(ProbeKindView::Branch { branch_id, path_id: 0 }, holds),
        needs(ProbeKindView::Branch { branch_id, path_id: 1 }, fails),
    ensures
        adds(cx, condition_closed(cx, c, cond, holds, fails, branch_id), c, needs),
{
    let d = condition_closed(cx, c, cond, holds, fails, branch_id);
    let n = c.probes.len() as int;
    probe_is_called_for(cx, d.probes[n], holds, needs);
    probe_is_called_for(cx, d.probes[n + 1], fails, needs);
}

proof fn expr_adds(cx: Context, c: Collected, expr: Expr, needs: spec_fn(ProbeKindView, Span) -> bool)
    requires
        expr_within(expr, needs),
    ensures
        adds(cx, visited_expr(cx, c, expr), c, needs),
    decreases expr, 0nat,
{
    let d = visited_expr(cx, c, expr);
    match expr.kind {
        ExprKind::Ident(_) => {},
        ExprKind::Call(callee, args) => {
            let called = visited_expr(cx, c, *callee);
            part_is_within(*callee, expr, needs);
            expr_adds(cx, c, *callee, needs);
            assert forall|i: int| 0 <= i < args@.len() implies expr_within(#[trigger] args@[i], needs) by {
                part_is_within(args@[i], expr, needs);
            }
            exprs_add(cx, called, args, args@.len(), needs);
            adds_on(cx, d, called, c, needs);
        },
        ExprKind::Paren(inner) => {
            part_is_within(*inner, expr, needs);
            expr_adds(cx, c, *inner, needs);
        },
        ExprKind::Or(left, right) => {
            let b = c.branches as u32;
            let first = visited_operand(cx, with_branch(c), *left, true, b, 0);
            part_is_within(*left, expr, needs);
            part_is_within(*right, expr, needs);
            expr_itself(expr, ProbeKindView::Branch { branch_id: b, path_id: 0 }, left.span, needs);
            expr_itself(expr, ProbeKindView::Branch { branch_id: b, path_id: 1 }, right.span, needs);
            operand_adds(cx, with_branch(c), *left, true, b, 0, needs);
            operand_adds(cx, first, *right, true, b, 1, needs);
            adds_on(cx, first, with_branch(c), c, needs);
            adds_on(cx, d, first, c, needs);
        },
        ExprKind::And(left, right) => {
            let b = c.branches as u32;
            let first = visited_operand(cx, with_branch(c), *left, false, b, 0);
            part_is_within(*left, expr, needs);
            part_is_within(*right, expr, needs);
            expr_itself(expr, ProbeKindView::Branch { branch_id: b, path_id: 0 }, left.span, needs);
            expr_itself(expr, ProbeKindView::Branch { branch_id: b, path_id: 1 }, right.span, needs);
            operand_adds(cx, with_branch(c), *left, false, b, 0, needs);
            operand_adds(cx, first, *right, false, b, 1, needs);
            adds_on(cx, first, with_branch(c), c, needs);
            adds_on(cx, d, first, c, needs);
        },
        ExprKind::Ternary(cond, holds, fails) => {
            let b = c.branches as u32;
            let start = condition_opened(with_branch(c), cond.span);
            let tested = visited_expr(cx, start, *cond);
            let decided = condition_closed(cx, tested, cond.span, holds.span, fails.span, b);
            let held = visited_expr(cx, decided, *holds);
            part_is_within(*cond, expr, needs);
            part_is_within(*holds, expr, needs);
            part_is_within(*fails, expr, needs);
            expr_itself(expr, ProbeKindView::Branch { branch_id: b, path_id: 0 }, holds.span, needs);
            expr_itself(expr, ProbeKindView::Branch { branch_id: b, path_id: 1 }, fails.span, needs);
            assert(adds(cx, start, c, needs));
            expr_adds(cx, start, *cond, needs);
            adds_on(cx, tested, start, c, needs);
            condition_closed_adds(cx, tested, cond.span, holds.span, fails.span, b, needs);
            adds_on(cx, decided, tested, c, needs);
            expr_adds(cx, decided, *holds, needs);
            adds_on(cx, held, decided, c, needs);
            expr_adds(cx, held, *fails, needs);
            adds_on(cx, d, held, c, needs);
        },
        ExprKind::Other(parts) => {
            assert forall|i: int| 0 <= i < parts@.len() implies expr_within(#[trigger] parts@[i], needs) by {
                part_is_within(parts@[i], expr, needs);
            }
            exprs_add(cx, c, parts, parts@.len(), needs);
        },
    }
}

proof fn operand_adds(
    cx: Context,
    c: Collected,
    operand: Expr,
    is_or: bool,
    branch_id: u32,
    path_id: u32,
    needs: spec_fn(ProbeKindView, Span) -> bool,
)
    requires
        expr_within(operand, needs),
        needs(ProbeKindView::Branch { branch_id, path_id }, operand.span),
    ensures
        adds(cx, visited_operand(cx, c, operand, is_or, branch_id, path_id), c, needs),
    decreases operand, 1nat,
{
    let kind = ProbeKindView::Branch { branch_id, path_id };
    let start = operand_opened(cx, c, is_or, kind, operand.span);
    let mid = visited_expr(cx, start, operand);
    let d = operand_closed(cx, mid, operand.span);
    operand_opened_adds(cx, c, is_or, kind, operand.span, needs);
    expr_adds(cx, start, operand, needs);
    adds_on(cx, mid, start, c, needs);
    assert(adds(cx, d, mid, needs));
    adds_on(cx, d, mid, c, needs);
}

proof fn exprs_add(
    cx: Context,
    c: Collected,
    exprs: Vec<Expr>,
    n: nat,
    needs: spec_fn(ProbeKindView, Span) -> bool,
)
    requires
        forall|i: int| 0 <= i < exprs@.len() ==> expr_within(#[trigger] exprs@[i], needs),
    ensures
        adds(cx, visited_exprs(cx, c, exprs, n), c, needs),
    decreases exprs, n,
{
    if n != 0 && n <= exprs@.len() {
        let before = visited_exprs(cx, c, exprs, (n - 1) as nat);
        exprs_add(cx, c, exprs, (n - 1) as nat, needs);
        assert(expr_within(exprs@[n - 1], needs));
        expr_adds(cx, before, exprs[n - 1], needs);
        adds_on(cx, visited_exprs(cx, c, exprs, n), before, c, needs);
    }
}

/// All assembly statements of a list call for nothing but what is called for.
spec fn yuls_within(stmts: Seq<YulStmt>, needs: spec_fn(ProbeKindView, Span) -> bool) -> bool {
    forall|i: int| 0 <= i < stmts.len() ==> yul_within(#[trigger] stmts[i], needs)
}

proof fn children_are_within(stmts: Seq<YulStmt>, outer: YulStmt, needs: spec_fn(ProbeKindView, Span) -> bool)
    requires
        yul_within(outer, needs),
        forall|i: int| 0 <= i < stmts.len() ==> is_yul_child(#[trigger] stmts[i], outer),
    ensures
        yuls_within(stmts, needs),
{
    assert forall|i: int| 0 <= i < stmts.len() implies yul_within(#[trigger] stmts[i], needs) by {
        yul_child_is_within(stmts[i], outer, needs);
    }
}

proof fn yul_adds(cx: Context, c: Collected, stmt: YulStmt, needs: spec_fn(ProbeKindView, Span) -> bool)
    requires
        yul_within(stmt, needs),
    ensures
        adds(cx, visited_yul(cx, c, stmt), c, needs),
    decreases stmt, 0nat,
{
    let d = visited_yul(cx, c, stmt);
    match stmt.kind {
        YulStmtKind::Plain => {
            yul_itself(stmt, ProbeKindView::Statement, stmt.span, needs);
            yul_probed_adds(cx, c, stmt.span, needs);
        },
        YulStmtKind::Block(block) => {
            children_are_within(block.stmts@, stmt, needs);
            yuls_add(cx, c, block.stmts, block.stmts@.len(), needs);
        },
        YulStmtKind::If(block) => {
            let kind = ProbeKindView::Branch { branch_id: c.branches as u32, path_id: 0 };
            let start = yul_entered(cx, with_branch(c), kind, block.span);
            yul_itself(stmt, kind, block.span, needs);
            yul_entered_adds(cx, with_branch(c), kind, block.span, needs);
            adds_on(cx, start, with_branch(c), c, needs);
            children_are_within(block.stmts@, stmt, needs);
            yuls_add(cx, start, block.stmts, block.stmts@.len(), needs);
            adds_on(cx, d, start, c, needs);
        },
        YulStmtKind::Switch(cases) => {
            let b = c.branches as u32;
            assert forall|k: int| 0 <= k < cases@.len() implies yuls_within((#[trigger] cases@[k]).stmts@, needs)
                && needs(ProbeKindView::Branch { branch_id: b, path_id: k as u32 }, cases@[k].span) by {
                children_are_within(cases@[k].stmts@, stmt, needs);
                yul_itself(stmt, ProbeKindView::Branch { branch_id: b, path_id: k as u32 }, cases@[k].span, needs);
            }
            cases_add(cx, with_branch(c), cases, b, cases@.len(), needs);
            assert(adds(cx, with_branch(c), c, needs));
            adds_on(cx, d, with_branch(c), c, needs);
        },
        YulStmtKind::For(init, step, body) => {
            let before = visited_yuls(cx, c, init.stmts, init.stmts@.len());
            let after = visited_yuls(cx, before, step.stmts, step.stmts@.len());
            let start = yul_entered(cx, after, ProbeKindView::Statement, body.span);
            children_are_within(init.stmts@, stmt, needs);
            children_are_within(step.stmts@, stmt, needs);
            children_are_within(body.stmts@, stmt, needs);
            yul_itself(stmt, ProbeKindView::Statement, body.span, needs);
            yuls_add(cx, c, init.stmts, init.stmts@.len(), needs);
            yuls_add(cx, before, step.stmts, step.stmts@.len(), needs);
            adds_on(cx, after, before, c, needs);
            yul_entered_adds(cx, after, ProbeKindView::Statement, body.span, needs);
            adds_on(cx, start, after, c, needs);
            yuls_add(cx, start, body.stmts, body.stmts@.len(), needs);
            adds_on(cx, d, start, c, needs);
        },
        YulStmtKind::Function(body) => {
            children_are_within(body.stmts@, stmt, needs);
            yuls_add(cx, c, body.stmts, body.stmts@.len(), needs);
        },
    }
}

proof fn yuls_add(
    cx: Context,
    c: Collected,
    stmts: Vec<YulStmt>,
    n: nat,
    needs: spec_fn(ProbeKindView, Span) -> bool,
)
    requires
        yuls_within(stmts@, needs),
    ensures
        adds(cx, visited_yuls(cx, c, stmts, n), c, needs),
    decreases stmts, n,
{
    if n != 0 && n <= stmts@.len() {
        let before = visited_yuls(cx, c, stmts, (n - 1) as nat);
        yuls_add(cx, c, stmts, (n - 1) as nat, needs);
        assert(yul_within(stmts@[n - 1], needs));
        yul_adds(cx, before, stmts[n - 1], needs);
        adds_on(cx, visited_yuls(cx, c, stmts, n), before, c, needs);
    }
}

proof fn cases_add(
    cx: Context,
    c: Collected,
    cases: Vec<YulBlock>,
    branch_id: u32,
    n: nat,
    needs: spec_fn(ProbeKindView, Span) -> bool,
)
    requires
        forall|k: int|
            0 <= k < cases@.len() ==> yuls_within((#[trigger] cases@[k]).stmts@, needs) && needs(
                ProbeKindView::Branch { branch_id, path_id: k as u32 },
                cases@[k].span,
            ),
    ensures
        adds(cx, visited_cases(cx, c, cases, branch_id, n), c, needs),
    decreases cases, n,
{
    if n != 0 && n <= cases@.len() {
        let before = visited_cases(cx, c, cases, branch_id, (n - 1) as nat);
        let kind = ProbeKindView::Branch { branch_id, path_id: (n - 1) as u32 };
        let case = cases@[n - 1];
        let start = yul_entered(cx, before, kind, case.span);
        cases_add(cx, c, cases, branch_id, (n - 1) as nat, needs);
        yul_entered_adds(cx, before, kind, case.span, needs);
        adds_on(cx, start, before, c, needs);
        yuls_add(cx, start, case.stmts, case.stmts@.len(), needs);
        adds_on(cx, visited_cases(cx, c, cases, branch_id, n), start, c, needs);
    }
}

proof fn own_exprs_are_within(
    cx: Context,
    exprs: Seq<Expr>,
    stmt: Stmt,
    needs: spec_fn(ProbeKindView, Span) -> bool,
)
    requires
        last_is_within(cx, stmt, needs),
        forall|i: int| 0 <= i < exprs.len() ==> is_expr_of(#[trigger] exprs[i], stmt),
    ensures
        forall|i: int| 0 <= i < exprs.len() ==> expr_within(#[trigger] exprs[i], needs),
{
}

proof fn parts_add(cx: Context, c: Collected, stmt: Stmt, needs: spec_fn(ProbeKindView, Span) -> bool)
    requires
        last_is_within(cx, stmt, needs),
    ensures
        adds(cx, visited_parts(cx, c, stmt), c, needs),
{
    match stmt.kind {
        StmtKind::Assembly(block) => {
            if cx.mode == ProbeMode::Direct {
                assert forall|i: int| 0 <= i < block.stmts@.len() implies yul_within(
                    #[trigger] block.stmts@[i],
                    needs,
                ) by {
                    assert(is_yul_of(block.stmts@[i], stmt));
                }
                yuls_add(cx, c, block.stmts, block.stmts@.len(), needs);
            }
        },
        StmtKind::DeclSingle(exprs) => {
            own_exprs_are_within(cx, exprs@, stmt, needs);
            exprs_add(cx, c, exprs, exprs@.len(), needs);
        },
        StmtKind::DeclMulti(exprs) => {
            own_exprs_are_within(cx, exprs@, stmt, needs);
            exprs_add(cx, c, exprs, exprs@.len(), needs);
        },
        StmtKind::Emit(exprs) => {
            own_exprs_are_within(cx, exprs@, stmt, needs);
            exprs_add(cx, c, exprs, exprs@.len(), needs);
        },
        StmtKind::Return(exprs) => {
            own_exprs_are_within(cx, exprs@, stmt, needs);
            exprs_add(cx, c, exprs, exprs@.len(), needs);
        },
        StmtKind::Revert(exprs) => {
            own_exprs_are_within(cx, exprs@, stmt, needs);
            exprs_add(cx, c, exprs, exprs@.len(), needs);
        },
        StmtKind::Expr(expr) => {
            assert(is_expr_of(expr, stmt));
            expr_adds(cx, c, expr, needs);
        },
        _ => {},
    }
}

/// All statements of a list call for nothing but what is called for.
spec fn stmts_within(cx: Context, stmts: Seq<Stmt>, needs: spec_fn(ProbeKindView, Span) -> bool) -> bool {
    forall|i: int| 0 <= i < stmts.len() ==> stmt_within(cx, #[trigger] stmts[i], needs)
}

proof fn listed_are_within(cx: Context, stmts: Seq<Stmt>, outer: Stmt, needs: spec_fn(ProbeKindView, Span) -> bool)
    requires
        stmt_within(cx, outer, needs),
        forall|i: int| 0 <= i < stmts.len() ==> is_listed(#[trigger] stmts[i], outer),
    ensures
        stmts_within(cx, stmts, needs),
{
    assert forall|i: int| 0 <= i < stmts.len() implies stmt_within(cx, #[trigger] stmts[i], needs) by {
        child_is_within(cx, stmts[i], outer, needs);
    }
}

proof fn stmt_adds(cx: Context, c: Collected, stmt: Stmt, needs: spec_fn(ProbeKindView, Span) -> bool)
    requires
        stmt_within(cx, stmt, needs),
    ensures
        adds(cx, visited_stmt(cx, c, stmt), c, needs),
    decreases stmt, 0nat,
{
    let d = visited_stmt(cx, c, stmt);
    stmt_itself(cx, stmt, needs);
    match stmt.kind {
        StmtKind::Placeholder => {},
        StmtKind::Expr(expr) => {
            let start = if calls_require(expr) {
                required(cx, c, stmt.span)
            } else {
                probed(cx, c, ProbeKindView::Statement, stmt.span)
            };
            if calls_require(expr) {
                assert forall|branch_id: u32| needs(#[trigger] pre(branch_id), stmt.span) && needs(
                    post(branch_id),
                    stmt.span,
                ) by {
                    assert(stmt_needs(stmt, pre(branch_id), stmt.span));
                    assert(stmt_needs(stmt, post(branch_id), stmt.span));
                }
                required_adds(cx, c, stmt.span, needs);
            } else {
                assert(stmt_needs(stmt, ProbeKindView::Statement, stmt.span));
                probed_adds(cx, c, ProbeKindView::Statement, stmt.span, needs);
            }
            parts_add(cx, start, stmt, needs);
            adds_on(cx, d, start, c, needs);
        },
        StmtKind::Block(block) => {
            listed_are_within(cx, block.stmts@, stmt, needs);
            stmts_add(cx, c, block.stmts, block.stmts@.len(), needs);
        },
        StmtKind::UncheckedBlock(block) => {
            listed_are_within(cx, block.stmts@, stmt, needs);
            stmts_add(cx, c, block.stmts, block.stmts@.len(), needs);
        },
        StmtKind::If(cond, body, other) => {
            let tested = visited_expr(cx, c, cond);
            let branch_id = tested.branches as u32;
            let kind = ProbeKindView::Branch { branch_id, path_id: 0 };
            let kind1 = ProbeKindView::Branch { branch_id, path_id: 1 };
            let start = with_branch(tested);
            let taken = visited_body(cx, start, *body, kind);
            assert(is_expr_of(cond, stmt));
            expr_adds(cx, c, cond, needs);
            assert(adds(cx, start, tested, needs));
            adds_on(cx, start, tested, c, needs);
            child_is_within(cx, *body, stmt, needs);
            assert(stmt_needs(stmt, kind, body_span(*body)));
            body_adds(cx, start, *body, kind, needs);
            adds_on(cx, taken, start, c, needs);
            match other {
                Some(other) => {
                    child_is_within(cx, *other, stmt, needs);
                    assert(stmt_needs(stmt, kind1, body_span(*other)));
                    body_adds(cx, taken, *other, kind1, needs);
                },
                None => {
                    assert(stmt_needs(stmt, kind1, body.span));
                    passed_over_adds(cx, taken, kind1, body.span, needs);
                },
            }
            adds_on(cx, d, taken, c, needs);
        },
        StmtKind::Try(call, clauses) => {
            let called = visited_expr(cx, c, call);
            let b = called.branches as u32;
            let start = with_branch(called);
            assert(is_expr_of(call, stmt));
            expr_adds(cx, c, call, needs);
            assert(adds(cx, start, called, needs));
            adds_on(cx, start, called, c, needs);
            assert forall|k: int| 0 <= k < clauses@.len() implies stmts_within(
                cx,
                (#[trigger] clauses@[k]).stmts@,
                needs,
            ) && needs(ProbeKindView::Branch { branch_id: b, path_id: k as u32 }, clauses@[k].span) by {
                let kind = ProbeKindView::Branch { branch_id: b, path_id: k as u32 };
                listed_are_within(cx, clauses@[k].stmts@, stmt, needs);
                assert(is_path(kind, k));
                assert(stmt_needs(stmt, kind, clauses@[k].span));
            }
            clauses_add(cx, start, clauses, b, clauses@.len(), needs);
            adds_on(cx, d, start, c, needs);
        },
        StmtKind::While(cond, body) => {
            let tested = visited_expr(cx, c, cond);
            assert(is_expr_of(cond, stmt));
            expr_adds(cx, c, cond, needs);
            child_is_within(cx, *body, stmt, needs);
            assert(stmt_needs(stmt, ProbeKindView::Statement, body_span(*body)));
            body_adds(cx, tested, *body, ProbeKindView::Statement, needs);
            adds_on(cx, d, tested, c, needs);
        },
        StmtKind::DoWhile(body, cond) => {
            let done = visited_body(cx, c, *body, ProbeKindView::Statement);
            child_is_within(cx, *body, stmt, needs);
            assert(stmt_needs(stmt, ProbeKindView::Statement, body_span(*body)));
            body_adds(cx, c, *body, ProbeKindView::Statement, needs);
            assert(is_expr_of(cond, stmt));
            expr_adds(cx, done, cond, needs);
            adds_on(cx, d, done, c, needs);
        },
        StmtKind::For(exprs, body) => {
            let stepped = visited_exprs(cx, c, exprs, exprs@.len());
            own_exprs_are_within(cx, exprs@, stmt, needs);
            exprs_add(cx, c, exprs, exprs@.len(), needs);
            child_is_within(cx, *body, stmt, needs);
            assert(stmt_needs(stmt, ProbeKindView::Statement, body_span(*body)));
            body_adds(cx, stepped, *body, ProbeKindView::Statement, needs);
            adds_on(cx, d, stepped, c, needs);
        },
        _ => {
            let start = probed(cx, c, ProbeKindView::Statement, stmt.span);
            assert(stmt_needs(stmt, ProbeKindView::Statement, stmt.span));
            probed_adds(cx, c, ProbeKindView::Statement, stmt.span, needs);
            parts_add(cx, start, stmt, needs);
            adds_on(cx, d, start, c, needs);
        },
    }
}

proof fn stmts_add(
    cx: Context,
    c: Collected,
    stmts: Vec<Stmt>,
    n: nat,
    needs: spec_fn(ProbeKindView, Span) -> bool,
)
    requires
        stmts_within(cx, stmts@, needs),
    ensures
        adds(cx, visited_stmts(cx, c, stmts, n), c, needs),
    decreases stmts, n,
{
    if n != 0 && n <= stmts@.len() {
        let before = visited_stmts(cx, c, stmts, (n - 1) as nat);
        stmts_add(cx, c, stmts, (n - 1) as nat, needs);
        assert(stmt_within(cx, stmts@[n - 1], needs));
        stmt_adds(cx, before, stmts[n - 1], needs);
        adds_on(cx, visited_stmts(cx, c, stmts, n), before, c, needs);
    }
}

proof fn body_adds(
    cx: Context,
    c: Collected,
    stmt: Stmt,
    kind: ProbeKindView,
    needs: spec_fn(ProbeKindView, Span) -> bool,
)
    requires
        stmt_within(cx, stmt, needs),
        needs(kind, body_span(stmt)),
    ensures
        adds(cx, visited_body(cx, c, stmt, kind), c, needs),
    decreases stmt, 1nat,
{
    let d = visited_body(cx, c, stmt, kind);
    match stmt.kind {
        StmtKind::Block(block) => {
            let start = entered(cx, c, kind, block.span);
            entered_adds(cx, c, kind, block.span, needs);
            stmt_adds(cx, start, stmt, needs);
            adds_on(cx, d, start, c, needs);
        },
        StmtKind::UncheckedBlock(block) => {
            let start = entered(cx, c, kind, block.span);
            entered_adds(cx, c, kind, block.span, needs);
            stmt_adds(cx, start, stmt, needs);
            adds_on(cx, d, start, c, needs);
        },
        _ => {
            let start = opened(cx, c, kind, stmt.span);
            let mid = if has_own_probes(stmt) { visited_stmt(cx, start, stmt) } else { visited_parts(cx, start, stmt) };
            opened_adds(cx, c, kind, stmt.span, needs);
            stmt_adds(cx, start, stmt, needs);
            stmt_itself(cx, stmt, needs);
            parts_add(cx, start, stmt, needs);
            adds_on(cx, mid, start, c, needs);
            assert(adds(cx, closed_up(cx, mid, stmt.span), mid, needs));
            adds_on(cx, d, mid, c, needs);
        },
    }
}

proof fn clauses_add(
    cx: Context,
    c: Collected,
    clauses: Vec<Block>,
    branch_id: u32,
    n: nat,
    needs: spec_fn(ProbeKindView, Span) -> bool,
)
    requires
        forall|k: int|
            0 <= k < clauses@.len() ==> stmts_within(cx, (#[trigger] clauses@[k]).stmts@, needs) && needs(
                ProbeKindView::Branch { branch_id, path_id: k as u32 },
                clauses@[k].span,
            ),
    ensures
        adds(cx, visited_clauses(cx, c, clauses, branch_id, n), c, needs),
    decreases clauses, n,
{
    if n != 0 && n <= clauses@.len() {
        let before = visited_clauses(cx, c, clauses, branch_id, (n - 1) as nat);
        let kind = ProbeKindView::Branch { branch_id, path_id: (n - 1) as u32 };
        let clause = clauses@[n - 1];
        let start = entered(cx, before, kind, clause.span);
        clauses_add(cx, c, clauses, branch_id, (n - 1) as nat, needs);
        entered_adds(cx, before, kind, clause.span, needs);
        adds_on(cx, start, before, c, needs);
        stmts_add(cx, start, clause.stmts, clause.stmts@.len(), needs);
        adds_on(cx, visited_clauses(cx, c, clauses, branch_id, n), start, c, needs);
    }
}

/// A function calls for a probe of a kind at a place: at its body, or for something that can be reached in it.
pub open spec fn function_needs(func: ItemFunction, kind: ProbeKindView, span: Span) -> bool {
    ||| kind is Function && span == func.body->0.span && (func.name is Some ==> kind->Function_name == func.name->0@)
    ||| exists|chain: Seq<Stmt>| #[trigger]
        is_chain(chain) && func.body->0.stmts@.contains(chain[0]) && calls_for(func, chain.last(), kind, span)
    ||| exists|exprs: Seq<Expr>| #[trigger]
        is_expr_chain(exprs) && func.arguments@.contains(exprs[0]) && expr_needs(exprs.last(), kind, span)
}

/// A statement calls for a probe of a kind at a place, by itself or for an expression in it, or for assembly if the
/// function may read the state.
pub open spec fn calls_for(func: ItemFunction, stmt: Stmt, kind: ProbeKindView, span: Span) -> bool {
    ||| stmt_needs(stmt, kind, span)
    ||| exists|exprs: Seq<Expr>| #[trigger]
        is_expr_chain(exprs) && is_expr_of(exprs[0], stmt) && expr_needs(exprs.last(), kind, span)
    ||| !func.is_pure && func.kind != FunctionKind::Modifier && exists|yuls: Seq<YulStmt>| #[trigger]
        is_yul_chain(yuls) && is_yul_of(yuls[0], stmt) && yul_needs(yuls.last(), kind, span)
}

proof fn function_adds(cx: Context, c: Collected, func: ItemFunction)
    ensures
        adds(
            inside(cx, func),
            visited_function(cx, c, func),
            c,
            |kind: ProbeKindView, span: Span| function_needs(func, kind, span),
        ),
        visited_function(cx, c, func).probes.len() > c.probes.len() ==> gets_probes(cx.source, func),
{
    let needs = |kind: ProbeKindView, span: Span| function_needs(func, kind, span);
    let d = visited_function(cx, c, func);
    if gets_probes(cx.source, func) {
        let body = func.body->0;
        let inner = inside(cx, func);
        assert(inner == Context { mode: mode_of(func), ..cx });
        let kind = ProbeKindView::Function { name: function_name(func) };
        let start = entered(inner, c, kind, body.span);
        let called = visited_exprs(inner, start, func.arguments, func.arguments@.len());
        entered_adds(inner, c, kind, body.span, needs);
        assert forall|i: int| 0 <= i < func.arguments@.len() implies expr_within(
            #[trigger] func.arguments@[i],
            needs,
        ) by {
            assert forall|exprs: Seq<Expr>, kind: ProbeKindView, span: Span|
                is_expr_chain(exprs) && exprs[0] == func.arguments@[i] && #[trigger] expr_needs(
                    exprs.last(),
                    kind,
                    span,
                ) implies needs(kind, span) by {
                assert(func.arguments@.contains(exprs[0]));
                assert(function_needs(func, kind, span));
            }
        }
        exprs_add(inner, start, func.arguments, func.arguments@.len(), needs);
        adds_on(inner, called, start, c, needs);
        assert forall|i: int| 0 <= i < body.stmts@.len() implies stmt_within(
            inner,
            #[trigger] body.stmts@[i],
            needs,
        ) by {
            body_stmt_is_within(inner, func, i);
        }
        stmts_add(inner, called, body.stmts, body.stmts@.len(), needs);
        adds_on(inner, d, called, c, needs);
    }
}

proof fn body_stmt_is_within(inner: Context, func: ItemFunction, i: int)
    requires
        func.body is Some,
        0 <= i < func.body->0.stmts@.len(),
        inner.mode == ProbeMode::Direct ==> !func.is_pure && func.kind != FunctionKind::Modifier,
    ensures
        stmt_within(
            inner,
            func.body->0.stmts@[i],
            |kind: ProbeKindView, span: Span| function_needs(func, kind, span),
        ),
{
    let needs = |kind: ProbeKindView, span: Span| function_needs(func, kind, span);
    let stmts = func.body->0.stmts@;
    assert forall|chain: Seq<Stmt>| #[trigger] is_chain(chain) && chain[0] == stmts[i] implies last_is_within(
        inner,
        chain.last(),
        needs,
    ) by {
        let stmt = chain.last();
        assert(stmts.contains(chain[0]));
        assert forall|kind: ProbeKindView, span: Span| #[trigger] stmt_needs(stmt, kind, span) implies needs(
            kind,
            span,
        ) by {
            assert(calls_for(func, stmt, kind, span));
        }
        assert forall|expr: Expr| #[trigger] is_expr_of(expr, stmt) implies expr_within(expr, needs) by {
            assert forall|exprs: Seq<Expr>, kind: ProbeKindView, span: Span|
                is_expr_chain(exprs) && exprs[0] == expr && #[trigger] expr_needs(exprs.last(), kind, span) implies needs(
                kind,
                span,
            ) by {
                assert(calls_for(func, stmt, kind, span));
            }
        }
        if inner.mode == ProbeMode::Direct {
            assert forall|yul: YulStmt| #[trigger] is_yul_of(yul, stmt) implies yul_within(yul, needs) by {
                assert forall|yuls: Seq<YulStmt>, kind: ProbeKindView, span: Span|
                    is_yul_chain(yuls) && yuls[0] == yul && #[trigger] yul_needs(yuls.last(), kind, span) implies needs(
                    kind,
                    span,
                ) by {
                    assert(calls_for(func, stmt, kind, span));
                }
            }
        }
    }
}

/// The probe is called for by a function that gets probes and is the last of a chain of items.
pub open spec fn is_called_for_by(
    path: Seq<char>,
    source: Seq<u8>,
    version: Version,
    probe: ProbeView,
    items: Seq<Item>,
) -> bool {
    match items.last() {
        Item::Function(func) => {
            &&& gets_probes(source, func)
            &&& is_called_for(
                crate::reached::context_of(path, source, version, items, func),
                probe,
                |kind: ProbeKindView, span: Span| function_needs(func, kind, span),
            )
        },
        _ => false,
    }
}

/// Every probe that was added is called for by a function behind a chain that leads to the items.
spec fn items_add(cx: Context, d: Collected, c: Collected, before: Seq<Item>, items: Seq<Item>) -> bool {
    &&& c.probes.len() <= d.probes.len()
    &&& forall|i: int| 0 <= i < c.probes.len() ==> #[trigger] d.probes[i] == c.probes[i]
    &&& forall|i: int|
        c.probes.len() <= i < d.probes.len() ==> has_source(cx, #[trigger] d.probes[i], before, items)
}

spec fn has_source(cx: Context, probe: ProbeView, before: Seq<Item>, items: Seq<Item>) -> bool {
    exists|chain: Seq<Item>| #[trigger]
        is_item_chain(before + chain) && chain.len() > 0 && items.contains(chain[0]) && is_called_for_by(
            cx.path,
            cx.source,
            cx.version,
            probe,
            before + chain,
        )
}

proof fn all_items_add(cx: Context, c: Collected, items: Vec<Item>, n: nat, before: Seq<Item>)
    requires
        n <= items@.len(),
        cx.mode == ProbeMode::Direct,
        before.len() == 0 ==> cx.contract == Seq::<char>::empty(),
        before.len() > 0 ==> is_item_chain(before) && before.last() is Contract && before.last()->Contract_1 == items
            && cx.contract == before.last()->Contract_0@,
    ensures
        items_add(cx, visited_items(cx, c, items, n), c, before, items@),
    decreases items, n,
{
    if n > 0 {
        let was = visited_items(cx, c, items, (n - 1) as nat);
        let d = visited_items(cx, c, items, n);
        let item = items@[n - 1];
        all_items_add(cx, c, items, (n - 1) as nat, before);
        assert(d == visited_item(cx, was, items[n - 1]));
        assert(items@.contains(item));
        let longer = before + seq![item];
        assert(is_item_chain(longer)) by {
            assert forall|i: int| 0 <= i < longer.len() - 1 implies is_item_of(#[trigger] longer[i + 1], longer[i]) by {
                if i + 1 < before.len() {
                    assert(longer[i + 1] == before[i + 1] && longer[i] == before[i]);
                } else {
                    assert(longer[i] == before.last());
                    assert(longer[i + 1] == item);
                }
            }
        }
        match item {
            Item::Contract(name, inner) => {
                let cx1 = Context { contract: name@, ..cx };
                assert(longer.last() == item);
                all_items_add(cx1, was, inner, inner@.len(), longer);
                assert forall|i: int| c.probes.len() <= i < d.probes.len() implies has_source(
                    cx,
                    #[trigger] d.probes[i],
                    before,
                    items@,
                ) by {
                    if i < was.probes.len() {
                        assert(d.probes[i] == was.probes[i]);
                        assert(has_source(cx, was.probes[i], before, items@));
                    } else {
                        let chain = choose|chain: Seq<Item>| #[trigger]
                            is_item_chain(longer + chain) && chain.len() > 0 && inner@.contains(chain[0])
                                && is_called_for_by(cx1.path, cx1.source, cx1.version, d.probes[i], longer + chain);
                        let more = seq![item] + chain;
                        assert(before + more =~= longer + chain);
                        assert(more[0] == item);
                        assert(is_item_chain(before + more));
                    }
                }
                assert forall|i: int| 0 <= i < c.probes.len() implies #[trigger] d.probes[i] == c.probes[i] by {
                    assert(was.probes[i] == c.probes[i]);
                    assert(d.probes[i] == was.probes[i]);
                }
            },
            Item::Function(func) => {
                function_adds(cx, was, func);
                assert(longer.last() == item);
                let own = crate::reached::context_of(cx.path, cx.source, cx.version, longer, func);
                assert(crate::reached::contract_around(longer) == cx.contract) by {
                    if before.len() > 0 {
                        assert(longer[longer.len() - 2] == before.last());
                    }
                }
                assert(own == inside(cx, func));
                assert forall|i: int| c.probes.len() <= i < d.probes.len() implies has_source(
                    cx,
                    #[trigger] d.probes[i],
                    before,
                    items@,
                ) by {
                    if i < was.probes.len() {
                        assert(d.probes[i] == was.probes[i]);
                        assert(has_source(cx, was.probes[i], before, items@));
                    } else {
                        let chain = seq![item];
                        assert(chain[0] == item);
                        assert(is_called_for_by(cx.path, cx.source, cx.version, d.probes[i], before + chain));
                        assert(is_item_chain(before + chain));
                    }
                }
                assert forall|i: int| 0 <= i < c.probes.len() implies #[trigger] d.probes[i] == c.probes[i] by {
                    assert(was.probes[i] == c.probes[i]);
                    assert(d.probes[i] == was.probes[i]);
                }
            },
            Item::Other => {},
        }
    }
}

/// Every probe of a source is called for: by the body of a function that gets probes, or by a statement, an expression
/// or an assembly statement that can be reached in it.
pub proof fn every_probe_is_called_for(
    path: Seq<char>,
    source: Seq<u8>,
    version: Version,
    unit: SourceUnit,
    i: int,
) -> (items: Seq<Item>)
    requires
        0 <= i < collected_from(path, source, version, unit).probes.len(),
    ensures
        is_item_chain(items),
        unit.items@.contains(items[0]),
        is_called_for_by(path, source, version, collected_from(path, source, version, unit).probes[i], items),
{
    let cx = Context { version, path, source, contract: Seq::empty(), mode: ProbeMode::Direct };
    let none = Collected { updates: Seq::empty(), probes: Seq::empty(), branches: 0 };
    all_items_add(cx, none, unit.items, unit.items@.len(), Seq::empty());
    let probe = collected_from(path, source, version, unit).probes[i];
    assert(has_source(cx, probe, Seq::empty(), unit.items@));
    let chain = choose|chain: Seq<Item>| #[trigger]
        is_item_chain(Seq::<Item>::empty() + chain) && chain.len() > 0 && unit.items@.contains(chain[0])
            && is_called_for_by(path, source, version, probe, Seq::<Item>::empty() + chain);
    assert(Seq::<Item>::empty() + chain =~= chain);
    chain
}

}
