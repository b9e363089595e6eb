//! How the probes and branches of a source are numbered.
use crate::ast::{
    calls_require, Block, Expr, ExprKind, Item, ItemFunction, SourceUnit, Span, Stmt, StmtKind, YulBlock, YulStmt,
    YulStmtKind,
};
use crate::collector::{
    body_adds_branches, cases_add_branches, clauses_add_branches, closed_up, condition_closed, condition_opened,
    entered, expr_adds_branches, expr_branches, exprs_add_branches, exprs_branches, function_name, has_text,
    has_own_probes, item_adds_branches, items_add_branches, items_branches, mode_of, opened, operand_adds_branches,
    operand_closed, operand_opened, parts_add_branches, passed_over, probed, required, statement_end,
    stmt_adds_branches, stmts_add_branches, tag_of, tag_payload, visited_body, visited_cases, visited_clauses,
    visited_expr, visited_exprs, visited_function, visited_item, visited_items, visited_operand, visited_parts,
    visited_stmt, visited_stmts, visited_yul, visited_yuls, with_branch, yul_adds_branches, yul_entered, yul_probed,
    yuls_add_branches, Collected, Context, ProbeMode,
};
use crate::instrumentation::collected_from;
use crate::probes::{ProbeKindView, ProbeView};
use crate::text::{decimal, decimal_has_digits, decimal_injective};
use crate::version::Version;
use vstd::prelude::*;

verus! {

/// The branch of a requirement, if the probe stands on one of its sides.
pub open spec fn requirement_of(probe: ProbeView) -> Option<u32> {
    match probe.kind {
        ProbeKindView::RequirePre { branch_id } => Some(branch_id),
        ProbeKindView::RequirePost { branch_id } => Some(branch_id),
        _ => None,
    }
}

/// The branch of a path, if the probe stands at the beginning of one.
pub open spec fn path_branch_of(probe: ProbeView) -> Option<u32> {
    branch_of_kind(probe.kind)
}

/// The branch of a path, if a probe of this kind stands at the beginning of one.
pub open spec fn branch_of_kind(kind: ProbeKindView) -> Option<u32> {
    match kind {
        ProbeKindView::Branch { branch_id, .. } => Some(branch_id),
        _ => None,
    }
}

/// The number of a branch is below the count of branches, if there is one.
pub open spec fn below(branch: Option<u32>, branches: nat) -> bool {
    branch is Some ==> branch->0 < branches
}

/// No requirement has the branch.
pub open spec fn is_free(c: Collected, branch: Option<u32>) -> bool {
    branch is Some ==> forall|i: int|
        0 <= i < c.probes.len() ==> requirement_of(#[trigger] c.probes[i]) != branch
}

/// The `i`th probe is the first of two for a requirement, and the next one is the second.
pub open spec fn opens_requirement(probes: Seq<ProbeView>, i: int) -> bool {
    &&& probes[i].kind is RequirePre
    &&& i + 1 < probes.len()
    &&& probes[i + 1].kind == (ProbeKindView::RequirePost { branch_id: probes[i].kind->RequirePre_branch_id })
    &&& probes[i + 1].bytes == probes[i].bytes
    &&& probes[i + 1].lines == probes[i].lines
}

/// The tag of the `i`th probe is the digest of a payload with the number `i`.
pub open spec fn has_own_tag(cx: Context, probe: ProbeView, i: int) -> bool {
    exists|start: int| #[trigger] tag_of(cx, start, i as nat) == probe.tag
}

/// Branches are numbered below their count, no requirement shares its branch with another requirement or
/// with the paths of another branch, the two probes of a requirement follow each other, and every probe
/// has a tag with its own number.
pub open spec fn well_numbered(cx: Context, c: Collected) -> bool {
    &&& forall|i: int| 0 <= i < c.probes.len() ==> below(requirement_of(#[trigger] c.probes[i]), c.branches)
    &&& forall|i: int| 0 <= i < c.probes.len() ==> below(path_branch_of(#[trigger] c.probes[i]), c.branches)
    &&& forall|i: int, j: int|
        0 <= i < c.probes.len() && 0 <= j < c.probes.len() && requirement_of(#[trigger] c.probes[i]) is Some
            ==> requirement_of(c.probes[i]) != path_branch_of(#[trigger] c.probes[j])
    &&& forall|i: int, j: int|
        0 <= i < j < c.probes.len() && (#[trigger] c.probes[i]).kind is RequirePre && (
        #[trigger] c.probes[j]).kind is RequirePre ==> requirement_of(c.probes[i]) != requirement_of(c.probes[j])
    &&& forall|i: int|
        0 <= i < c.probes.len() && (#[trigger] c.probes[i]).kind is RequirePre ==> opens_requirement(c.probes, i)
    &&& forall|i: int| 0 <= i < c.probes.len() ==> has_own_tag(cx, #[trigger] c.probes[i], i)
}

/// What is collected later keeps what was collected before; requirements that come later have branches
/// that come later.
pub open spec fn follows(d: Collected, c: Collected) -> bool {
    &&& c.branches <= d.branches
    &&& c.probes.len() <= d.probes.len()
    &&& forall|i: int| 0 <= i < c.probes.len() ==> #[trigger] d.probes[i] == c.probes[i]
    &&& forall|i: int|
        c.probes.len() <= i < d.probes.len() && requirement_of(#[trigger] d.probes[i]) is Some ==> requirement_of(
            d.probes[i],
        )->0 >= c.branches
}

proof fn follows_on(e: Collected, d: Collected, c: Collected)
    requires
        follows(d, c),
        follows(e, d),
    ensures
        follows(e, c),
{
    assert forall|i: int| 0 <= i < c.probes.len() implies #[trigger] e.probes[i] == c.probes[i] by {
        assert(e.probes[i] == d.probes[i]);
    }
    assert forall|i: int| c.probes.len() <= i < e.probes.len() && requirement_of(
        #[trigger] e.probes[i],
    ) is Some implies requirement_of(e.probes[i])->0 >= c.branches by {
        if i < d.probes.len() {
            assert(e.probes[i] == d.probes[i]);
        }
    }
}

proof fn stays_free(d: Collected, c: Collected, branch: Option<u32>)
    requires
        follows(d, c),
        is_free(c, branch),
        below(branch, c.branches),
    ensures
        is_free(d, branch),
        below(branch, d.branches),
{
    if branch is Some {
        assert forall|i: int| 0 <= i < d.probes.len() implies requirement_of(#[trigger] d.probes[i]) != branch by {
            if i < c.probes.len() {
                assert(d.probes[i] == c.probes[i]);
            }
        }
    }
}

/// Adding a probe that is not one of a requirement.
proof fn plain_probe(cx: Context, c: Collected, d: Collected)
    requires
        well_numbered(cx, c),
        d.branches == c.branches,
        d.probes.len() == c.probes.len() + 1,
        d.probes == c.probes.push(d.probes.last()),
        requirement_of(d.probes.last()) is None,
        has_own_tag(cx, d.probes.last(), c.probes.len() as int),
        is_free(c, path_branch_of(d.probes.last())),
        below(path_branch_of(d.probes.last()), c.branches),
    ensures
        well_numbered(cx, d),
        follows(d, c),
{
    let n = c.probes.len() as int;
    assert forall|i: int| 0 <= i < n implies #[trigger] d.probes[i] == c.probes[i] by {}
    assert forall|i: int| 0 <= i < d.probes.len() && (#[trigger] d.probes[i]).kind is RequirePre implies opens_requirement(
        d.probes,
        i,
    ) by {
        assert(opens_requirement(c.probes, i));
    }
    assert forall|i: int, j: int|
        0 <= i < d.probes.len() && 0 <= j < d.probes.len() && requirement_of(
            #[trigger] d.probes[i],
        ) is Some implies requirement_of(d.probes[i]) != path_branch_of(#[trigger] d.probes[j]) by {
        assert(d.probes[i] == c.probes[i]);
        if j < n {
            assert(d.probes[j] == c.probes[j]);
        }
    }
}

proof fn probed_numbered(cx: Context, c: Collected, stmt: Stmt)
    requires
        well_numbered(cx, c),
    ensures
        well_numbered(cx, probed(cx, c, ProbeKindView::Statement, stmt.span)),
        follows(probed(cx, c, ProbeKindView::Statement, stmt.span), c),
{
    let d = probed(cx, c, ProbeKindView::Statement, stmt.span);
    if d != c {
        let n = c.probes.len() as int;
        assert(tag_of(cx, stmt.span.lo as int, n as nat) == d.probes.last().tag);
        plain_probe(cx, c, d);
    }
}

proof fn opened_numbered(cx: Context, c: Collected, kind: ProbeKindView, stmt: Stmt)
    requires
        well_numbered(cx, c),
        !(kind is RequirePre) && !(kind is RequirePost),
        is_free(c, branch_of_kind(kind)),
        below(branch_of_kind(kind), c.branches),
    ensures
        well_numbered(cx, opened(cx, c, kind, stmt.span)),
        follows(opened(cx, c, kind, stmt.span), c),
{
    let d = opened(cx, c, kind, stmt.span);
    if d != c {
        let n = c.probes.len() as int;
        assert(tag_of(cx, stmt.span.lo as int, n as nat) == d.probes.last().tag);
        plain_probe(cx, c, d);
    }
}

proof fn passed_over_numbered(cx: Context, c: Collected, kind: ProbeKindView, stmt: Stmt)
    requires
        well_numbered(cx, c),
        !(kind is RequirePre) && !(kind is RequirePost),
        is_free(c, branch_of_kind(kind)),
        below(branch_of_kind(kind), c.branches),
    ensures
        well_numbered(cx, passed_over(cx, c, kind, stmt.span)),
        follows(passed_over(cx, c, kind, stmt.span), c),
{
    let d = passed_over(cx, c, kind, stmt.span);
    if d != c {
        let n = c.probes.len() as int;
        assert(tag_of(cx, stmt.span.lo as int, n as nat) == d.probes.last().tag);
        plain_probe(cx, c, d);
    }
}

/// Adding insertions alone.
proof fn same_probes_numbered(cx: Context, c: Collected, d: Collected)
    requires
        well_numbered(cx, c),
        d.probes == c.probes,
        d.branches == c.branches,
    ensures
        well_numbered(cx, d),
        follows(d, c),
{
    assert forall|i: int| 0 <= i < d.probes.len() && (#[trigger] d.probes[i]).kind is RequirePre implies opens_requirement(
        d.probes,
        i,
    ) by {
        assert(opens_requirement(c.probes, i));
    }
}

proof fn entered_numbered(cx: Context, c: Collected, kind: ProbeKindView, block: Block)
    requires
        well_numbered(cx, c),
        !(kind is RequirePre) && !(kind is RequirePost),
        is_free(c, branch_of_kind(kind)),
        below(branch_of_kind(kind), c.branches),
    ensures
        well_numbered(cx, entered(cx, c, kind, block.span)),
        follows(entered(cx, c, kind, block.span), c),
{
    let d = entered(cx, c, kind, block.span);
    if d != c {
        let n = c.probes.len() as int;
        assert(tag_of(cx, block.span.lo as int, n as nat) == d.probes.last().tag);
        plain_probe(cx, c, d);
    }
}

proof fn required_numbered(cx: Context, c: Collected, stmt: Stmt)
    requires
        well_numbered(cx, c),
        required(cx, c, stmt.span).branches <= u32::MAX,
    ensures
        well_numbered(cx, required(cx, c, stmt.span)),
        follows(required(cx, c, stmt.span), c),
{
    let d = required(cx, c, stmt.span);
    let n = c.probes.len() as int;
    if d != c {
        assert(d.probes.len() == n + 2);
        assert forall|i: int| 0 <= i < n implies #[trigger] d.probes[i] == c.probes[i] by {}
        assert(d.branches == c.branches + 1);
        assert(requirement_of(d.probes[n]) == Some(c.branches as u32));
        assert(requirement_of(d.probes[n + 1]) == Some(c.branches as u32));
        assert forall|i: int| 0 <= i < d.probes.len() && (
        #[trigger] d.probes[i]).kind is RequirePre implies opens_requirement(d.probes, i) by {
            if i < n {
                assert(opens_requirement(c.probes, i));
            }
        }
        assert(has_own_tag(cx, d.probes[n], n)) by {
            assert(tag_of(cx, stmt.span.lo as int, n as nat) == d.probes[n].tag);
        }
        assert(has_own_tag(cx, d.probes[n + 1], n + 1)) by {
            let end = statement_end(cx.source, stmt.span);
            assert(tag_of(cx, end, (n + 1) as nat) == d.probes[n + 1].tag);
        }
        assert forall|i: int| 0 <= i < d.probes.len() implies has_own_tag(cx, #[trigger] d.probes[i], i) by {}
        assert forall|i: int, j: int|
            0 <= i < d.probes.len() && 0 <= j < d.probes.len() && requirement_of(
                #[trigger] d.probes[i],
            ) is Some implies requirement_of(d.probes[i]) != path_branch_of(#[trigger] d.probes[j]) by {
            if j < n {
                assert(below(path_branch_of(c.probes[j]), c.branches));
                if i < n {
                    assert(d.probes[i] == c.probes[i]);
                }
            }
        }
        assert forall|i: int, j: int|
            0 <= i < j < d.probes.len() && (#[trigger] d.probes[i]).kind is RequirePre && (
            #[trigger] d.probes[j]).kind is RequirePre implies requirement_of(d.probes[i]) != requirement_of(
            d.probes[j],
        ) by {
            assert(below(requirement_of(c.probes[i]), c.branches));
        }
    }
}

proof fn with_branch_numbered(cx: Context, c: Collected)
    requires
        well_numbered(cx, c),
        c.branches < u32::MAX,
    ensures
        well_numbered(cx, with_branch(c)),
        follows(with_branch(c), c),
        is_free(with_branch(c), Some(c.branches as u32)),
{
    assert forall|i: int| 0 <= i < c.probes.len() implies requirement_of(#[trigger] c.probes[i]) != Some(
        c.branches as u32,
    ) by {
        assert(below(requirement_of(c.probes[i]), c.branches));
    }
    assert forall|i: int| 0 <= i < c.probes.len() && (#[trigger] c.probes[i]).kind is RequirePre implies opens_requirement(
        with_branch(c).probes,
        i,
    ) by {
        assert(opens_requirement(c.probes, i));
    }
}

proof fn operand_opened_numbered(cx: Context, c: Collected, is_or: bool, kind: ProbeKindView, span: Span)
    requires
        well_numbered(cx, c),
        !(kind is RequirePre) && !(kind is RequirePost),
        is_free(c, branch_of_kind(kind)),
        below(branch_of_kind(kind), c.branches),
    ensures
        well_numbered(cx, operand_opened(cx, c, is_or, kind, span)),
        follows(operand_opened(cx, c, is_or, kind, span), c),
{
    let d = operand_opened(cx, c, is_or, kind, span);
    if d != c {
        let n = c.probes.len() as int;
        assert(tag_of(cx, span.lo as int, n as nat) == d.probes.last().tag);
        plain_probe(cx, c, d);
    }
}

proof fn condition_closed_numbered(cx: Context, c: Collected, cond: Span, holds: Span, fails: Span, branch_id: u32)
    requires
        well_numbered(cx, c),
        is_free(c, Some(branch_id)),
        branch_id < c.branches,
    ensures
        well_numbered(cx, condition_closed(cx, c, cond, holds, fails, branch_id)),
        follows(condition_closed(cx, c, cond, holds, fails, branch_id), c),
{
    let n = c.probes.len() as int;
    let d = condition_closed(cx, c, cond, holds, fails, branch_id);
    let first = Collected { probes: c.probes.push(d.probes[n]), ..c };
    assert(tag_of(cx, holds.lo as int, n as nat) == d.probes[n].tag);
    assert(tag_of(cx, fails.lo as int, (n + 1) as nat) == d.probes[n + 1].tag);
    plain_probe(cx, c, first);
    stays_free(first, c, Some(branch_id));
    assert(d.probes =~= first.probes.push(d.probes.last()));
    plain_probe(cx, first, d);
    follows_on(d, first, c);
}

proof fn expr_numbered(cx: Context, c: Collected, expr: Expr)
    requires
        well_numbered(cx, c),
        visited_expr(cx, c, expr).branches <= u32::MAX,
    ensures
        well_numbered(cx, visited_expr(cx, c, expr)),
        follows(visited_expr(cx, c, expr), c),
    decreases expr, 0nat,
{
    match expr.kind {
        ExprKind::Ident(_) => {},
        ExprKind::Call(callee, args) => {
            let called = visited_expr(cx, c, *callee);
            exprs_add_branches(cx, called, args, args@.len());
            expr_numbered(cx, c, *callee);
            exprs_numbered(cx, called, args, args@.len());
            follows_on(visited_expr(cx, c, expr), called, c);
        },
        ExprKind::Paren(inner) => expr_numbered(cx, c, *inner),
        ExprKind::Or(left, right) => {
            let b = c.branches as u32;
            let start = with_branch(c);
            let first = visited_operand(cx, start, *left, true, b, 0);
            operand_adds_branches(cx, start, *left, true, b, 0);
            operand_adds_branches(cx, first, *right, true, b, 1);
            with_branch_numbered(cx, c);
            operand_numbered(cx, start, *left, true, b, 0);
            follows_on(first, start, c);
            stays_free(first, start, Some(b));
            operand_numbered(cx, first, *right, true, b, 1);
            follows_on(visited_expr(cx, c, expr), first, c);
        },
        ExprKind::And(left, right) => {
            let b = c.branches as u32;
            let start = with_branch(c);
            let first = visited_operand(cx, start, *left, false, b, 0);
            operand_adds_branches(cx, start, *left, false, b, 0);
            operand_adds_branches(cx, first, *right, false, b, 1);
            with_branch_numbered(cx, c);
            operand_numbered(cx, start, *left, false, b, 0);
            follows_on(first, start, c);
            stays_free(first, start, Some(b));
            operand_numbered(cx, first, *right, false, b, 1);
            follows_on(visited_expr(cx, c, expr), first, c);
        },
        ExprKind::Ternary(cond, holds, fails) => {
            let b = c.branches as u32;
            let start = condition_opened(with_branch(c), cond.span);
            let tested = visited_expr(cx, start, *cond);
            let decided = condition_closed(cx, tested, cond.span, holds.span, fails.span, b);
            let held = visited_expr(cx, decided, *holds);
            expr_adds_branches(cx, start, *cond);
            expr_adds_branches(cx, decided, *holds);
            expr_adds_branches(cx, held, *fails);
            with_branch_numbered(cx, c);
            same_probes_numbered(cx, with_branch(c), start);
            follows_on(start, with_branch(c), c);
            stays_free(start, with_branch(c), Some(b));
            expr_numbered(cx, start, *cond);
            follows_on(tested, start, c);
            stays_free(tested, start, Some(b));
            condition_closed_numbered(cx, tested, cond.span, holds.span, fails.span, b);
            follows_on(decided, tested, c);
            expr_numbered(cx, decided, *holds);
            follows_on(held, decided, c);
            expr_numbered(cx, held, *fails);
            follows_on(visited_expr(cx, c, expr), held, c);
        },
        ExprKind::Other(parts) => exprs_numbered(cx, c, parts, parts@.len()),
    }
}

proof fn operand_numbered(cx: Context, c: Collected, operand: Expr, is_or: bool, branch_id: u32, path_id: u32)
    requires
        well_numbered(cx, c),
        is_free(c, Some(branch_id)),
        branch_id < c.branches,
        visited_operand(cx, c, operand, is_or, branch_id, path_id).branches <= u32::MAX,
    ensures
        well_numbered(cx, visited_operand(cx, c, operand, is_or, branch_id, path_id)),
        follows(visited_operand(cx, c, operand, is_or, branch_id, path_id), c),
    decreases operand, 1nat,
{
    let kind = ProbeKindView::Branch { branch_id, path_id };
    let start = operand_opened(cx, c, is_or, kind, operand.span);
    let visited = visited_expr(cx, start, operand);
    operand_opened_numbered(cx, c, is_or, kind, operand.span);
    expr_numbered(cx, start, operand);
    follows_on(visited, start, c);
    same_probes_numbered(cx, visited, operand_closed(cx, visited, operand.span));
    follows_on(operand_closed(cx, visited, operand.span), visited, c);
}

proof fn exprs_numbered(cx: Context, c: Collected, exprs: Vec<Expr>, n: nat)
    requires
        well_numbered(cx, c),
        visited_exprs(cx, c, exprs, n).branches <= u32::MAX,
    ensures
        well_numbered(cx, visited_exprs(cx, c, exprs, n)),
        follows(visited_exprs(cx, c, exprs, n), c),
    decreases exprs, n,
{
    if n != 0 && n <= exprs@.len() {
        let before = visited_exprs(cx, c, exprs, (n - 1) as nat);
        expr_adds_branches(cx, before, exprs[n - 1]);
        exprs_numbered(cx, c, exprs, (n - 1) as nat);
        expr_numbered(cx, before, exprs[n - 1]);
        follows_on(visited_exprs(cx, c, exprs, n), before, c);
    }
}

/// Every operand in the expression is more than a semicolon.
pub open spec fn has_operands(source: Seq<u8>, expr: Expr) -> bool
    decreases expr, 0nat,
{
    match expr.kind {
        ExprKind::Ident(_) => true,
        ExprKind::Call(callee, args) => has_operands(source, *callee) && all_have_operands(source, args, args@.len()),
        ExprKind::Paren(inner) => has_operands(source, *inner),
        ExprKind::Or(left, right) => has_text(source, left.span) && has_text(source, right.span) && has_operands(
            source,
            *left,
        ) && has_operands(source, *right),
        ExprKind::And(left, right) => has_text(source, left.span) && has_text(source, right.span) && has_operands(
            source,
            *left,
        ) && has_operands(source, *right),
        ExprKind::Ternary(cond, holds, fails) => has_operands(source, *cond) && has_operands(source, *holds)
            && has_operands(source, *fails),
        ExprKind::Other(parts) => all_have_operands(source, parts, parts@.len()),
    }
}

/// Every operand in the first `n` expressions is more than a semicolon.
pub open spec fn all_have_operands(source: Seq<u8>, exprs: Vec<Expr>, n: nat) -> bool
    decreases exprs, n,
{
    n == 0 || n > exprs@.len() || (all_have_operands(source, exprs, (n - 1) as nat) && has_operands(
        source,
        exprs[n - 1],
    ))
}

/// A disjunction, a conjunction and a choice each have two paths, wherever they stand in an expression: its
/// probes are twice as many as its branches.
pub proof fn expressions_have_two_paths(cx: Context, c: Collected, expr: Expr)
    requires
        has_operands(cx.source, expr),
    ensures
        visited_expr(cx, c, expr).probes.len() == c.probes.len() + 2 * expr_branches(expr),
        visited_expr(cx, c, expr).branches == c.branches + expr_branches(expr),
    decreases expr, 0nat,
{
    expr_adds_branches(cx, c, expr);
    match expr.kind {
        ExprKind::Ident(_) => {},
        ExprKind::Call(callee, args) => {
            expressions_have_two_paths(cx, c, *callee);
            all_have_two_paths(cx, visited_expr(cx, c, *callee), args, args@.len());
        },
        ExprKind::Paren(inner) => expressions_have_two_paths(cx, c, *inner),
        ExprKind::Or(left, right) => {
            let b = c.branches as u32;
            let first = visited_operand(cx, with_branch(c), *left, true, b, 0);
            operand_has_a_path(cx, with_branch(c), *left, true, b, 0);
            operand_has_a_path(cx, first, *right, true, b, 1);
        },
        ExprKind::And(left, right) => {
            let b = c.branches as u32;
            let first = visited_operand(cx, with_branch(c), *left, false, b, 0);
            operand_has_a_path(cx, with_branch(c), *left, false, b, 0);
            operand_has_a_path(cx, first, *right, false, b, 1);
        },
        ExprKind::Ternary(cond, holds, fails) => {
            let start = condition_opened(with_branch(c), cond.span);
            let tested = visited_expr(cx, start, *cond);
            let decided = condition_closed(cx, tested, cond.span, holds.span, fails.span, c.branches as u32);
            expressions_have_two_paths(cx, start, *cond);
            expressions_have_two_paths(cx, decided, *holds);
            expressions_have_two_paths(cx, visited_expr(cx, decided, *holds), *fails);
        },
        ExprKind::Other(parts) => all_have_two_paths(cx, c, parts, parts@.len()),
    }
}

proof fn operand_has_a_path(cx: Context, c: Collected, operand: Expr, is_or: bool, branch_id: u32, path_id: u32)
    requires
        has_text(cx.source, operand.span),
        has_operands(cx.source, operand),
    ensures
        visited_operand(cx, c, operand, is_or, branch_id, path_id).probes.len() == c.probes.len() + 1 + 2
            * expr_branches(operand),
    decreases operand, 1nat,
{
    let kind = ProbeKindView::Branch { branch_id, path_id };
    expressions_have_two_paths(cx, operand_opened(cx, c, is_or, kind, operand.span), operand);
}

proof fn all_have_two_paths(cx: Context, c: Collected, exprs: Vec<Expr>, n: nat)
    requires
        all_have_operands(cx.source, exprs, n),
    ensures
        visited_exprs(cx, c, exprs, n).probes.len() == c.probes.len() + 2 * exprs_branches(exprs, n),
    decreases exprs, n,
{
    if n != 0 && n <= exprs@.len() {
        all_have_two_paths(cx, c, exprs, (n - 1) as nat);
        expressions_have_two_paths(cx, visited_exprs(cx, c, exprs, (n - 1) as nat), exprs[n - 1]);
    }
}

proof fn yul_probed_numbered(cx: Context, c: Collected, span: Span)
    requires
        well_numbered(cx, c),
    ensures
        well_numbered(cx, yul_probed(cx, c, span)),
        follows(yul_probed(cx, c, span), c),
{
    let d = yul_probed(cx, c, span);
    if d != c {
        let n = c.probes.len() as int;
        assert(tag_of(cx, span.lo as int, n as nat) == d.probes.last().tag);
        plain_probe(cx, c, d);
    }
}

proof fn yul_entered_numbered(cx: Context, c: Collected, kind: ProbeKindView, span: Span)
    requires
        well_numbered(cx, c),
        !(kind is RequirePre) && !(kind is RequirePost),
        is_free(c, branch_of_kind(kind)),
        below(branch_of_kind(kind), c.branches),
    ensures
        well_numbered(cx, yul_entered(cx, c, kind, span)),
        follows(yul_entered(cx, c, kind, span), c),
{
    let d = yul_entered(cx, c, kind, span);
    if d != c {
        let n = c.probes.len() as int;
        assert(tag_of(cx, span.lo as int, n as nat) == d.probes.last().tag);
        plain_probe(cx, c, d);
    }
}

proof fn yul_numbered(cx: Context, c: Collected, stmt: YulStmt)
    requires
        well_numbered(cx, c),
        visited_yul(cx, c, stmt).branches <= u32::MAX,
    ensures
        well_numbered(cx, visited_yul(cx, c, stmt)),
        follows(visited_yul(cx, c, stmt), c),
    decreases stmt, 0nat,
{
    match stmt.kind {
        YulStmtKind::Plain => yul_probed_numbered(cx, c, stmt.span),
        YulStmtKind::Block(block) => yuls_numbered(cx, c, block.stmts, block.stmts@.len()),
        YulStmtKind::If(block) => {
            let kind = ProbeKindView::Branch { branch_id: c.branches as u32, path_id: 0 };
            let start = with_branch(c);
            let d = yul_entered(cx, start, kind, block.span);
            yuls_add_branches(cx, d, block.stmts, block.stmts@.len());
            with_branch_numbered(cx, c);
            yul_entered_numbered(cx, start, kind, block.span);
            follows_on(d, start, c);
            yuls_numbered(cx, d, block.stmts, block.stmts@.len());
            follows_on(visited_yul(cx, c, stmt), d, c);
        },
        YulStmtKind::Switch(cases) => {
            let start = with_branch(c);
            cases_add_branches(cx, start, cases, c.branches as u32, cases@.len());
            with_branch_numbered(cx, c);
            cases_numbered(cx, start, cases, c.branches as u32, cases@.len());
            follows_on(visited_yul(cx, c, stmt), start, c);
        },
        YulStmtKind::For(init, step, body) => {
            let before = visited_yuls(cx, c, init.stmts, init.stmts@.len());
            let after = visited_yuls(cx, before, step.stmts, step.stmts@.len());
            let start = yul_entered(cx, after, ProbeKindView::Statement, body.span);
            yuls_add_branches(cx, before, step.stmts, step.stmts@.len());
            yuls_add_branches(cx, start, body.stmts, body.stmts@.len());
            yuls_numbered(cx, c, init.stmts, init.stmts@.len());
            yuls_numbered(cx, before, step.stmts, step.stmts@.len());
            follows_on(after, before, c);
            yul_entered_numbered(cx, after, ProbeKindView::Statement, body.span);
            follows_on(start, after, c);
            yuls_numbered(cx, start, body.stmts, body.stmts@.len());
            follows_on(visited_yul(cx, c, stmt), start, c);
        },
        YulStmtKind::Function(body) => yuls_numbered(cx, c, body.stmts, body.stmts@.len()),
    }
}

proof fn yuls_numbered(cx: Context, c: Collected, stmts: Vec<YulStmt>, n: nat)
    requires
        well_numbered(cx, c),
        visited_yuls(cx, c, stmts, n).branches <= u32::MAX,
    ensures
        well_numbered(cx, visited_yuls(cx, c, stmts, n)),
        follows(visited_yuls(cx, c, stmts, n), c),
    decreases stmts, n,
{
    if n != 0 && n <= stmts@.len() {
        let before = visited_yuls(cx, c, stmts, (n - 1) as nat);
        yul_adds_branches(cx, before, stmts[n - 1]);
        yuls_numbered(cx, c, stmts, (n - 1) as nat);
        yul_numbered(cx, before, stmts[n - 1]);
        follows_on(visited_yuls(cx, c, stmts, n), before, c);
    }
}

proof fn cases_numbered(cx: Context, c: Collected, cases: Vec<YulBlock>, branch_id: u32, n: nat)
    requires
        well_numbered(cx, c),
        is_free(c, Some(branch_id)),
        branch_id < c.branches,
        visited_cases(cx, c, cases, branch_id, n).branches <= u32::MAX,
    ensures
        well_numbered(cx, visited_cases(cx, c, cases, branch_id, n)),
        follows(visited_cases(cx, c, cases, branch_id, n), c),
    decreases cases, n,
{
    if n != 0 && n <= cases@.len() {
        let before = visited_cases(cx, c, cases, branch_id, (n - 1) as nat);
        let kind = ProbeKindView::Branch { branch_id, path_id: (n - 1) as u32 };
        let case = cases[n - 1];
        let d = yul_entered(cx, before, kind, case.span);
        yuls_add_branches(cx, d, case.stmts, case.stmts@.len());
        cases_numbered(cx, c, cases, branch_id, (n - 1) as nat);
        stays_free(before, c, Some(branch_id));
        yul_entered_numbered(cx, before, kind, case.span);
        yuls_numbered(cx, d, case.stmts, case.stmts@.len());
        follows_on(d, before, c);
        follows_on(visited_cases(cx, c, cases, branch_id, n), d, c);
    }
}

proof fn parts_numbered(cx: Context, c: Collected, stmt: Stmt)
    requires
        well_numbered(cx, c),
        visited_parts(cx, c, stmt).branches <= u32::MAX,
    ensures
        well_numbered(cx, visited_parts(cx, c, stmt)),
        follows(visited_parts(cx, c, stmt), c),
{
    match stmt.kind {
        StmtKind::Assembly(block) => if cx.mode == ProbeMode::Direct {
            yuls_numbered(cx, c, block.stmts, block.stmts@.len());
        },
        StmtKind::DeclSingle(exprs) => exprs_numbered(cx, c, exprs, exprs@.len()),
        StmtKind::DeclMulti(exprs) => exprs_numbered(cx, c, exprs, exprs@.len()),
        StmtKind::Emit(exprs) => exprs_numbered(cx, c, exprs, exprs@.len()),
        StmtKind::Return(exprs) => exprs_numbered(cx, c, exprs, exprs@.len()),
        StmtKind::Revert(exprs) => exprs_numbered(cx, c, exprs, exprs@.len()),
        StmtKind::Expr(expr) => expr_numbered(cx, c, expr),
        _ => {},
    }
}

proof fn stmt_numbered(cx: Context, c: Collected, stmt: Stmt)
    requires
        well_numbered(cx, c),
        visited_stmt(cx, c, stmt).branches <= u32::MAX,
    ensures
        well_numbered(cx, visited_stmt(cx, c, stmt)),
        follows(visited_stmt(cx, c, stmt), c),
    decreases stmt, 0nat,
{
    match stmt.kind {
        StmtKind::Placeholder => {},
        StmtKind::Expr(expr) => {
            if calls_require(expr) {
                let start = required(cx, c, stmt.span);
                parts_add_branches(cx, start, stmt);
                required_numbered(cx, c, stmt);
                parts_numbered(cx, start, stmt);
                follows_on(visited_stmt(cx, c, stmt), start, c);
            } else {
                simple_numbered(cx, c, stmt);
            }
        },
        StmtKind::Block(block) => stmts_numbered(cx, c, block.stmts, block.stmts@.len()),
        StmtKind::UncheckedBlock(block) => stmts_numbered(cx, c, block.stmts, block.stmts@.len()),
        StmtKind::If(cond, body, other) => {
            let tested = visited_expr(cx, c, cond);
            let b = tested.branches as u32;
            let kind = ProbeKindView::Branch { branch_id: b, path_id: 0 };
            let kind1 = ProbeKindView::Branch { branch_id: b, path_id: 1 };
            let start = with_branch(tested);
            let taken = visited_body(cx, start, *body, kind);
            body_adds_branches(cx, start, *body, kind);
            if let Some(other) = other {
                body_adds_branches(cx, taken, *other, kind1);
            }
            expr_numbered(cx, c, cond);
            with_branch_numbered(cx, tested);
            follows_on(start, tested, c);
            body_numbered(cx, start, *body, kind);
            follows_on(taken, start, c);
            stays_free(taken, start, Some(b));
            match other {
                Some(other) => body_numbered(cx, taken, *other, kind1),
                None => passed_over_numbered(cx, taken, kind1, *body),
            }
            follows_on(visited_stmt(cx, c, stmt), taken, c);
        },
        StmtKind::Try(call, clauses) => {
            let called = visited_expr(cx, c, call);
            let start = with_branch(called);
            clauses_add_branches(cx, start, clauses, called.branches as u32, clauses@.len());
            expr_numbered(cx, c, call);
            with_branch_numbered(cx, called);
            follows_on(start, called, c);
            clauses_numbered(cx, start, clauses, called.branches as u32, clauses@.len());
            follows_on(visited_stmt(cx, c, stmt), start, c);
        },
        StmtKind::While(cond, body) => {
            let tested = visited_expr(cx, c, cond);
            body_adds_branches(cx, tested, *body, ProbeKindView::Statement);
            expr_numbered(cx, c, cond);
            body_numbered(cx, tested, *body, ProbeKindView::Statement);
            follows_on(visited_stmt(cx, c, stmt), tested, c);
        },
        StmtKind::DoWhile(body, cond) => {
            let done = visited_body(cx, c, *body, ProbeKindView::Statement);
            expr_adds_branches(cx, done, cond);
            body_numbered(cx, c, *body, ProbeKindView::Statement);
            expr_numbered(cx, done, cond);
            follows_on(visited_stmt(cx, c, stmt), done, c);
        },
        StmtKind::For(exprs, body) => {
            let stepped = visited_exprs(cx, c, exprs, exprs@.len());
            body_adds_branches(cx, stepped, *body, ProbeKindView::Statement);
            exprs_numbered(cx, c, exprs, exprs@.len());
            body_numbered(cx, stepped, *body, ProbeKindView::Statement);
            follows_on(visited_stmt(cx, c, stmt), stepped, c);
        },
        _ => simple_numbered(cx, c, stmt),
    }
}

/// A statement with a probe before it.
proof fn simple_numbered(cx: Context, c: Collected, stmt: Stmt)
    requires
        well_numbered(cx, c),
        visited_parts(cx, probed(cx, c, ProbeKindView::Statement, stmt.span), stmt).branches <= u32::MAX,
    ensures
        well_numbered(cx, visited_parts(cx, probed(cx, c, ProbeKindView::Statement, stmt.span), stmt)),
        follows(visited_parts(cx, probed(cx, c, ProbeKindView::Statement, stmt.span), stmt), c),
{
    let start = probed(cx, c, ProbeKindView::Statement, stmt.span);
    probed_numbered(cx, c, stmt);
    parts_numbered(cx, start, stmt);
    follows_on(visited_parts(cx, start, stmt), start, c);
}

proof fn stmts_numbered(cx: Context, c: Collected, stmts: Vec<Stmt>, n: nat)
    requires
        well_numbered(cx, c),
        visited_stmts(cx, c, stmts, n).branches <= u32::MAX,
    ensures
        well_numbered(cx, visited_stmts(cx, c, stmts, n)),
        follows(visited_stmts(cx, c, stmts, n), c),
    decreases stmts, n,
{
    if n != 0 && n <= stmts@.len() {
        let before = visited_stmts(cx, c, stmts, (n - 1) as nat);
        stmt_adds_branches(cx, before, stmts[n - 1]);
        stmts_numbered(cx, c, stmts, (n - 1) as nat);
        stmt_numbered(cx, before, stmts[n - 1]);
        follows_on(visited_stmts(cx, c, stmts, n), before, c);
    }
}

proof fn body_numbered(cx: Context, c: Collected, stmt: Stmt, kind: ProbeKindView)
    requires
        well_numbered(cx, c),
        !(kind is RequirePre) && !(kind is RequirePost),
        is_free(c, branch_of_kind(kind)),
        below(branch_of_kind(kind), c.branches),
        visited_body(cx, c, stmt, kind).branches <= u32::MAX,
    ensures
        well_numbered(cx, visited_body(cx, c, stmt, kind)),
        follows(visited_body(cx, c, stmt, kind), c),
    decreases stmt, 1nat,
{
    match stmt.kind {
        StmtKind::Block(block) => {
            let d = entered(cx, c, kind, block.span);
            entered_numbered(cx, c, kind, block);
            stmt_numbered(cx, d, stmt);
            follows_on(visited_body(cx, c, stmt, kind), d, c);
        },
        StmtKind::UncheckedBlock(block) => {
            let d = entered(cx, c, kind, block.span);
            entered_numbered(cx, c, kind, block);
            stmt_numbered(cx, d, stmt);
            follows_on(visited_body(cx, c, stmt, kind), d, c);
        },
        _ => {
            let d = opened(cx, c, kind, stmt.span);
            opened_numbered(cx, c, kind, stmt);
            if has_own_probes(stmt) {
                let e = visited_stmt(cx, d, stmt);
                stmt_numbered(cx, d, stmt);
                follows_on(e, d, c);
                same_probes_numbered(cx, e, closed_up(cx, e, stmt.span));
                follows_on(visited_body(cx, c, stmt, kind), e, c);
            } else {
                let e = visited_parts(cx, d, stmt);
                parts_numbered(cx, d, stmt);
                follows_on(e, d, c);
                same_probes_numbered(cx, e, closed_up(cx, e, stmt.span));
                follows_on(visited_body(cx, c, stmt, kind), e, c);
            }
        },
    }
}

proof fn clauses_numbered(cx: Context, c: Collected, clauses: Vec<Block>, branch_id: u32, n: nat)
    requires
        well_numbered(cx, c),
        is_free(c, Some(branch_id)),
        branch_id < c.branches,
        visited_clauses(cx, c, clauses, branch_id, n).branches <= u32::MAX,
    ensures
        well_numbered(cx, visited_clauses(cx, c, clauses, branch_id, n)),
        follows(visited_clauses(cx, c, clauses, branch_id, n), c),
    decreases clauses, n,
{
    if n != 0 && n <= clauses@.len() {
        let before = visited_clauses(cx, c, clauses, branch_id, (n - 1) as nat);
        let kind = ProbeKindView::Branch { branch_id, path_id: (n - 1) as u32 };
        let clause = clauses[n - 1];
        let d = entered(cx, before, kind, clause.span);
        stmts_add_branches(cx, d, clause.stmts, clause.stmts@.len());
        clauses_numbered(cx, c, clauses, branch_id, (n - 1) as nat);
        stays_free(before, c, Some(branch_id));
        entered_numbered(cx, before, kind, clause);
        stmts_numbered(cx, d, clause.stmts, clause.stmts@.len());
        follows_on(d, before, c);
        follows_on(visited_clauses(cx, c, clauses, branch_id, n), d, c);
    }
}

/// Neither the contract nor the way of reporting matters for how probes are numbered.
proof fn numbering_ignores_place(cx: Context, other: Context, c: Collected)
    requires
        well_numbered(cx, c),
        other.version == cx.version,
        other.path == cx.path,
    ensures
        well_numbered(other, c),
{
    assert forall|i: int| 0 <= i < c.probes.len() implies has_own_tag(other, #[trigger] c.probes[i], i) by {
        assert(has_own_tag(cx, c.probes[i], i));
        let start = choose|start: int| #[trigger] tag_of(cx, start, i as nat) == c.probes[i].tag;
        assert(tag_of(other, start, i as nat) == c.probes[i].tag);
    }
}

proof fn function_numbered(cx: Context, c: Collected, func: ItemFunction)
    requires
        well_numbered(cx, c),
        visited_function(cx, c, func).branches <= u32::MAX,
    ensures
        well_numbered(cx, visited_function(cx, c, func)),
        follows(visited_function(cx, c, func), c),
{
    if visited_function(cx, c, func) != c {
        let body = func.body->0;
        let inner = Context { mode: mode_of(func), ..cx };
        let kind = ProbeKindView::Function { name: function_name(func) };
        let d = entered(inner, c, kind, body.span);
        numbering_ignores_place(cx, inner, c);
        entered_numbered(inner, c, kind, body);
        let e = visited_exprs(inner, d, func.arguments, func.arguments@.len());
        stmts_add_branches(inner, e, body.stmts, body.stmts@.len());
        exprs_numbered(inner, d, func.arguments, func.arguments@.len());
        follows_on(e, d, c);
        stmts_numbered(inner, e, body.stmts, body.stmts@.len());
        follows_on(visited_function(cx, c, func), e, c);
        numbering_ignores_place(inner, cx, visited_function(cx, c, func));
    }
}

proof fn item_numbered(cx: Context, c: Collected, item: Item)
    requires
        well_numbered(cx, c),
        visited_item(cx, c, item).branches <= u32::MAX,
    ensures
        well_numbered(cx, visited_item(cx, c, item)),
        follows(visited_item(cx, c, item), c),
    decreases item, 0nat,
{
    match item {
        Item::Contract(name, items) => {
            let inner = Context { contract: name@, ..cx };
            numbering_ignores_place(cx, inner, c);
            items_numbered(inner, c, items, items@.len());
            numbering_ignores_place(inner, cx, visited_item(cx, c, item));
        },
        Item::Function(func) => function_numbered(cx, c, func),
        Item::Other => {},
    }
}

proof fn items_numbered(cx: Context, c: Collected, items: Vec<Item>, n: nat)
    requires
        well_numbered(cx, c),
        visited_items(cx, c, items, n).branches <= u32::MAX,
    ensures
        well_numbered(cx, visited_items(cx, c, items, n)),
        follows(visited_items(cx, c, items, n), c),
    decreases items, n,
{
    if n != 0 && n <= items@.len() {
        let before = visited_items(cx, c, items, (n - 1) as nat);
        item_adds_branches(cx, before, items[n - 1]);
        items_numbered(cx, c, items, (n - 1) as nat);
        item_numbered(cx, before, items[n - 1]);
        follows_on(visited_items(cx, c, items, n), before, c);
    }
}

/// The probes of a source are well numbered: every requirement has a branch of its own, with its two probes
/// side by side, and every probe has a tag with its own number.
pub proof fn source_is_well_numbered(path: Seq<char>, source: Seq<u8>, version: Version, unit: SourceUnit)
    requires
        items_branches(source, unit.items, unit.items@.len()) <= u32::MAX,
    ensures
        well_numbered(
            Context { version, path, source, contract: Seq::empty(), mode: ProbeMode::Direct },
            collected_from(path, source, version, unit),
        ),
{
    let cx = Context { version, path, source, contract: Seq::empty(), mode: ProbeMode::Direct };
    let c = Collected { updates: Seq::empty(), probes: Seq::empty(), branches: 0 };
    items_add_branches(cx, c, unit.items, unit.items@.len());
    items_numbered(cx, c, unit.items, unit.items@.len());
}

/// No two probes of a source have tags with the same payload.
pub proof fn payloads_differ(a: Context, s: int, m: nat, b: Context, t: int, n: nat)
    requires
        m != n,
    ensures
        tag_payload(a, s, m) != tag_payload(b, t, n),
{
    let p = tag_payload(a, s, m);
    let q = tag_payload(b, t, n);
    if p == q {
        reveal_strlit(":");
        decimal_has_digits(m);
        decimal_has_digits(n);
        let x = decimal(m);
        let y = decimal(n);
        assert(forall|i: int| 0 <= i < x.len() ==> #[trigger] x[i] != ':');
        assert(forall|i: int| 0 <= i < y.len() ==> #[trigger] y[i] != ':');
        assert(p[p.len() - x.len() - 1] == ':');
        assert(q[q.len() - y.len() - 1] == ':');
        if x.len() < y.len() {
            assert(q[q.len() - x.len() - 1] == y[y.len() - x.len() - 1]);
        } else if y.len() < x.len() {
            assert(p[p.len() - y.len() - 1] == x[x.len() - y.len() - 1]);
        } else {
            assert(p.skip(p.len() - x.len()) =~= x);
            assert(q.skip(q.len() - y.len()) =~= y);
            decimal_injective(m, n);
        }
    }
}

}
