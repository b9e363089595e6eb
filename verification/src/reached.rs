//! Everything in a source that can be run has its probe.
use crate::ast::{
    calls_require, peeled, Block, Expr, ExprKind, FunctionKind, Item, ItemFunction, SourceUnit, Span, Stmt, StmtKind,
    YulBlock, YulStmt, YulStmtKind,
};
use crate::collector::{
    brace_at, closed_up, condition_closed, condition_opened, condition_text, entered, function_name, has_own_probes,
    has_text, hit_call, hit_function, is_skipped, mode_of, opened, operand_closed, operand_opened, operand_text,
    passed_over, probe_for, probe_text, probed, required, scratch_name, space_len, statement_end, trimmed, visited_body,
    visited_cases, visited_clauses, visited_expr, visited_exprs, visited_function, visited_item, visited_items,
    visited_operand, visited_parts, visited_stmt, visited_stmts, visited_yul, visited_yuls, with_branch, yul_entered,
    yul_probe_text, yul_probed, Collected, Context, Insertion, ProbeMode,
};
use crate::inspector::FOUNDRY_COVERAGE_ADDRESS;
use crate::instrumentation::collected_from;
use crate::probes::{ProbeKindView, ProbeView};
use crate::text::{hex, hex_shows_every_byte};
use crate::version::Version;
use vstd::prelude::*;
use vstd::utf8::{encode_utf8, is_ascii_chars_encode_utf8};

verus! {

/// The place in the source begins with a character that can be seen and is not a semicolon.
pub open spec fn is_visible(source: Seq<u8>, span: Span) -> bool {
    &&& span.lo < span.hi <= source.len()
    &&& 0x21 <= source[span.lo as int] <= 0x7e
    &&& source[span.lo as int] != 0x3b
}

/// The first opening brace of a place stands at an offset.
pub open spec fn opens_at(source: Seq<u8>, span: Span, at: int) -> bool {
    &&& is_visible(source, span)
    &&& span.lo <= at < span.hi
    &&& source[at] == 0x7b
    &&& forall|i: int| span.lo <= i < at ==> #[trigger] source[i] != 0x7b
}

/// The text reports a tag: the digits of the tag are in it.
pub open spec fn mentions(text: Seq<char>, tag: Seq<u8>) -> bool {
    exists|k: int|
        0 <= k && k + hex(tag).len() <= text.len() && #[trigger] text.subrange(k, k + hex(tag).len()) == hex(tag)
}

/// There is a probe of a kind for a place, and code that reports it is inserted at an offset.
pub open spec fn has_probe(cx: Context, c: Collected, kind: ProbeKindView, span: Span, at: int) -> bool {
    exists|i: int, u: int|
        0 <= i < c.probes.len() && 0 <= u < c.updates.len() && #[trigger] is_probe_of(cx, c.probes[i], kind, span)
            && #[trigger] reports_at(c.updates[u], c.probes[i], at)
}

/// The statement ends at an offset: at the end of its place, or before the semicolon there and the white space before
/// that.
pub open spec fn is_end(source: Seq<u8>, span: Span, end: int) -> bool {
    if span.lo < span.hi && source[span.hi - 1] == 0x3b {
        &&& span.lo <= end < span.hi
        &&& forall|i: int| end <= i < span.hi - 1 ==> !(0x21 <= #[trigger] source[i] <= 0x7e)
        &&& span.lo < end ==> source[end - 1] != 0x20 && !(0x09 <= source[end - 1] <= 0x0d)
    } else {
        end == span.hi
    }
}

/// The probe is one of a kind for a place: it has the byte range of the place without a semicolon at its end, the
/// line range, and the names of the source and the contract around it.
pub open spec fn is_probe_of(cx: Context, probe: ProbeView, kind: ProbeKindView, span: Span) -> bool {
    &&& probe.kind == kind
    &&& probe.bytes.0 == span.lo as u32
    &&& exists|end: int| #[trigger] is_end(cx.source, span, end) && probe.bytes.1 == end as u32
    &&& probe.lines.0 == (span.first_line + 1) as u32
    &&& probe.lines.1 == (span.last_line + 2) as u32
    &&& probe.version == cx.version
    &&& probe.path == cx.path
    &&& probe.contract_name == cx.contract
}

/// The insertion is made at an offset and reports the probe.
pub open spec fn reports_at(update: Insertion, probe: ProbeView, at: int) -> bool {
    update.at == at && mentions(update.text, probe.tag)
}

/// What was collected is still there.
pub open spec fn grows(d: Collected, c: Collected) -> bool {
    &&& c.probes.len() <= d.probes.len()
    &&& c.updates.len() <= d.updates.len()
    &&& forall|i: int| 0 <= i < c.probes.len() ==> #[trigger] d.probes[i] == c.probes[i]
    &&& forall|i: int| 0 <= i < c.updates.len() ==> #[trigger] d.updates[i] == c.updates[i]
}

proof fn grows_on(e: Collected, d: Collected, c: Collected)
    requires
        grows(d, c),
        grows(e, d),
    ensures
        grows(e, c),
{
    assert forall|i: int| 0 <= i < c.probes.len() implies #[trigger] e.probes[i] == c.probes[i] by {
        assert(d.probes[i] == c.probes[i]);
    }
    assert forall|i: int| 0 <= i < c.updates.len() implies #[trigger] e.updates[i] == c.updates[i] by {
        assert(d.updates[i] == c.updates[i]);
    }
}

proof fn probe_stays(cx: Context, d: Collected, c: Collected, kind: ProbeKindView, span: Span, at: int)
    requires
        grows(d, c),
        has_probe(cx, c, kind, span, at),
    ensures
        has_probe(cx, d, kind, span, at),
{
    let (i, u) = choose|i: int, u: int|
        0 <= i < c.probes.len() && 0 <= u < c.updates.len() && #[trigger] is_probe_of(cx, c.probes[i], kind, span)
            && #[trigger] reports_at(c.updates[u], c.probes[i], at);
    assert(is_probe_of(cx, d.probes[i], kind, span) && reports_at(d.updates[u], d.probes[i], at));
}

proof fn visible_has_text(source: Seq<u8>, span: Span)
    requires
        is_visible(source, span),
    ensures
        has_text(source, span),
{
    if source[span.hi - 1] == 0x3b {
        visible_is_kept(source, span.lo as int, span.hi - 1);
    }
}

proof fn visible_is_kept(source: Seq<u8>, lo: int, end: int)
    requires
        lo < end <= source.len(),
        0 <= lo,
        0x21 <= source[lo] <= 0x7e,
    ensures
        lo < trimmed(source, lo, end),
    decreases end - lo,
{
    let n = space_len(source, lo, end);
    if n != 0 {
        assert(lo < end - n) by {
            if n == 1 && end - 1 == lo {
                assert(source[end - 1] == source[lo]);
            }
            if n == 2 && end - 2 == lo {
                assert(source[end - 2] == source[lo]);
            }
            if n == 3 && end - 3 == lo {
                assert(source[end - 3] == source[lo]);
            }
        }
        visible_is_kept(source, lo, end - n);
    }
}

pub(crate) proof fn only_space_is_trimmed(source: Seq<u8>, lo: int, end: int)
    requires
        lo <= end,
    ensures
        lo <= trimmed(source, lo, end) <= end,
        forall|i: int| trimmed(source, lo, end) <= i < end ==> !(0x21 <= #[trigger] source[i] <= 0x7e),
        lo < trimmed(source, lo, end) ==> ({
            let last = source[trimmed(source, lo, end) - 1];
            last != 0x20 && !(0x09 <= last <= 0x0d)
        }),
    decreases end - lo,
{
    let n = space_len(source, lo, end);
    if n != 0 && end > lo {
        only_space_is_trimmed(source, lo, end - n);
        assert forall|i: int| end - n <= i < end implies !(0x21 <= #[trigger] source[i] <= 0x7e) by {
            assert(i == end - 1 || i == end - 2 || i == end - 3);
        }
    }
}

proof fn all_space_is_trimmed(source: Seq<u8>, lo: int, at: int, end: int)
    requires
        lo < at <= end,
        0x21 <= source[at - 1] <= 0x7e,
        forall|i: int| at <= i < end ==> #[trigger] source[i] == 0x20 || 0x09 <= source[i] <= 0x0d,
    ensures
        trimmed(source, lo, end) == at,
    decreases end - at,
{
    if at < end {
        assert(source[end - 1] == 0x20 || 0x09 <= source[end - 1] <= 0x0d);
        all_space_is_trimmed(source, lo, at, end - 1);
    }
}

proof fn first_brace(source: Seq<u8>, lo: int, hi: int, at: int)
    requires
        0 <= lo <= at < hi <= source.len(),
        source[at] == 0x7b,
        forall|i: int| lo <= i < at ==> #[trigger] source[i] != 0x7b,
    ensures
        brace_at(source, lo, hi) == Some(at),
    decreases at - lo,
{
    if lo < at {
        assert(source[lo] != 0x7b);
        first_brace(source, lo + 1, hi, at);
    }
}

proof fn mention(before: Seq<char>, tag: Seq<u8>, behind: Seq<char>)
    ensures
        mentions(before + hex(tag) + behind, tag),
{
    let text = before + hex(tag) + behind;
    let k = before.len() as int;
    assert(text.subrange(k, k + hex(tag).len()) =~= hex(tag));
}

proof fn mention_inside(before: Seq<char>, text: Seq<char>, behind: Seq<char>, tag: Seq<u8>)
    requires
        mentions(text, tag),
    ensures
        mentions(before + text + behind, tag),
{
    let k = choose|k: int|
        0 <= k && k + hex(tag).len() <= text.len() && #[trigger] text.subrange(k, k + hex(tag).len()) == hex(tag);
    let all = before + text + behind;
    let m = before.len() + k;
    assert(all.subrange(m, m + hex(tag).len()) =~= text.subrange(k, k + hex(tag).len()));
}

proof fn texts_mention(cx: Context, tag: Seq<u8>, other: Seq<u8>)
    ensures
        mentions(probe_text(cx.mode, tag), tag),
        mentions("{ "@ + probe_text(cx.mode, tag), tag),
        mentions(" else { "@ + probe_text(cx.mode, tag) + " }"@, tag),
        mentions(operand_text(true, tag), tag),
        mentions(operand_text(false, tag), tag),
        mentions(condition_text(tag, other), tag),
        mentions(condition_text(other, tag), tag),
        mentions(yul_probe_text(cx.source, tag), tag),
{
    let text = probe_text(cx.mode, tag);
    match cx.mode {
        ProbeMode::Direct => mention(
            "/// @solidity memory-safe-assembly\nassembly { mstore(0x00, 0x"@,
            tag,
            ") pop(staticcall(gas(), 0xc0bEc0BEc0BeC0bEC0beC0bEC0bEC0beC0beC0BE, 0x00, 0x20, 0, 0)) }\n"@,
        ),
        ProbeMode::Library => mention("__FoundryCoverage.sendHit(0x"@, tag, "); "@),
    }
    mention_inside("{ "@, text, Seq::empty(), tag);
    assert("{ "@ + text + Seq::<char>::empty() =~= "{ "@ + text);
    mention_inside(" else { "@, text, " }"@, tag);
    mention(hit_function(true), tag, ")"@);
    mention(hit_function(false), tag, ")"@);
    mention_inside("("@, hit_call(false, tag), " || "@, tag);
    mention_inside("("@, hit_call(true, tag), " && "@, tag);
    let a = hit_call(true, tag);
    let b = hit_call(false, other);
    mention_inside(") ? "@, a, " : "@ + b + ")"@, tag);
    assert(condition_text(tag, other) =~= ") ? "@ + a + (" : "@ + b + ")"@));
    let a = hit_call(true, other);
    let b = hit_call(false, tag);
    mention_inside(") ? "@ + a + " : "@, b, ")"@, tag);
    assert(condition_text(other, tag) =~= (") ? "@ + a + " : "@) + b + ")"@);
    let name = scratch_name(cx.source);
    let head = "{ let "@ + name + " := mload(0x00) mstore(0x00, 0x"@;
    let tail = ") pop(staticcall(gas(), 0xc0bEc0BEc0BeC0bEC0beC0bEC0bEC0beC0beC0BE, 0x00, 0x20, 0, 0)) mstore(0x00, "@
        + name + ") } "@;
    mention(head, tag, tail);
    assert(yul_probe_text(cx.source, tag) =~= head + hex(tag) + tail);
}

/// A probe and an insertion that reports it.
proof fn probe_is_there(cx: Context, c: Collected, i: int, u: int, kind: ProbeKindView, span: Span, at: int)
    requires
        0 <= i < c.probes.len(),
        0 <= u < c.updates.len(),
        c.probes[i] == probe_for(cx, kind, span, c.probes[i].tag),
        reports_at(c.updates[u], c.probes[i], at),
    ensures
        has_probe(cx, c, kind, span, at),
{
    if span.lo < span.hi && cx.source[span.hi - 1] == 0x3b {
        only_space_is_trimmed(cx.source, span.lo as int, span.hi - 1);
    }
    assert(is_end(cx.source, span, statement_end(cx.source, span)));
    assert(is_probe_of(cx, c.probes[i], kind, span));
}

proof fn probed_has(cx: Context, c: Collected, kind: ProbeKindView, span: Span)
    ensures
        grows(probed(cx, c, kind, span), c),
        is_visible(cx.source, span) ==> has_probe(cx, probed(cx, c, kind, span), kind, span, span.lo as int),
{
    let d = probed(cx, c, kind, span);
    if has_text(cx.source, span) {
        texts_mention(cx, d.probes.last().tag, d.probes.last().tag);
        probe_is_there(cx, d, c.probes.len() as int, c.updates.len() as int, kind, span, span.lo as int);
    } else if is_visible(cx.source, span) {
        visible_has_text(cx.source, span);
    }
}

proof fn opened_has(cx: Context, c: Collected, kind: ProbeKindView, span: Span)
    ensures
        grows(opened(cx, c, kind, span), c),
        is_visible(cx.source, span) ==> has_probe(cx, opened(cx, c, kind, span), kind, span, span.lo as int),
{
    let d = opened(cx, c, kind, span);
    if has_text(cx.source, span) {
        texts_mention(cx, d.probes.last().tag, d.probes.last().tag);
        probe_is_there(cx, d, c.probes.len() as int, c.updates.len() as int, kind, span, span.lo as int);
    } else if is_visible(cx.source, span) {
        visible_has_text(cx.source, span);
    }
}

proof fn passed_over_has(cx: Context, c: Collected, kind: ProbeKindView, span: Span)
    ensures
        grows(passed_over(cx, c, kind, span), c),
        is_visible(cx.source, span) ==> has_probe(cx, passed_over(cx, c, kind, span), kind, span, span.hi as int),
{
    let d = passed_over(cx, c, kind, span);
    if has_text(cx.source, span) {
        texts_mention(cx, d.probes.last().tag, d.probes.last().tag);
        probe_is_there(cx, d, c.probes.len() as int, c.updates.len() as int, kind, span, span.hi as int);
    } else if is_visible(cx.source, span) {
        visible_has_text(cx.source, span);
    }
}

proof fn entered_has(cx: Context, c: Collected, kind: ProbeKindView, span: Span)
    ensures
        grows(entered(cx, c, kind, span), c),
        forall|at: int| #[trigger]
            opens_at(cx.source, span, at) ==> has_probe(cx, entered(cx, c, kind, span), kind, span, at + 1),
{
    let d = entered(cx, c, kind, span);
    assert forall|at: int| #[trigger] opens_at(cx.source, span, at) implies has_probe(cx, d, kind, span, at + 1) by {
        visible_has_text(cx.source, span);
        first_brace(cx.source, span.lo as int, span.hi as int, at);
        texts_mention(cx, d.probes.last().tag, d.probes.last().tag);
        probe_is_there(cx, d, c.probes.len() as int, c.updates.len() as int, kind, span, at + 1);
    }
}

proof fn yul_entered_has(cx: Context, c: Collected, kind: ProbeKindView, span: Span)
    ensures
        grows(yul_entered(cx, c, kind, span), c),
        forall|at: int| #[trigger]
            opens_at(cx.source, span, at) ==> has_probe(cx, yul_entered(cx, c, kind, span), kind, span, at + 1),
{
    let d = yul_entered(cx, c, kind, span);
    assert forall|at: int| #[trigger] opens_at(cx.source, span, at) implies has_probe(cx, d, kind, span, at + 1) by {
        visible_has_text(cx.source, span);
        first_brace(cx.source, span.lo as int, span.hi as int, at);
        texts_mention(cx, d.probes.last().tag, d.probes.last().tag);
        probe_is_there(cx, d, c.probes.len() as int, c.updates.len() as int, kind, span, at + 1);
    }
}

proof fn yul_probed_has(cx: Context, c: Collected, span: Span)
    ensures
        grows(yul_probed(cx, c, span), c),
        is_visible(cx.source, span) ==> has_probe(
            cx,
            yul_probed(cx, c, span),
            ProbeKindView::Statement,
            span,
            span.lo as int,
        ),
{
    let d = yul_probed(cx, c, span);
    if has_text(cx.source, span) {
        texts_mention(cx, d.probes.last().tag, d.probes.last().tag);
        let kind = ProbeKindView::Statement;
        probe_is_there(cx, d, c.probes.len() as int, c.updates.len() as int, kind, span, span.lo as int);
    } else if is_visible(cx.source, span) {
        visible_has_text(cx.source, span);
    }
}

proof fn operand_opened_has(cx: Context, c: Collected, is_or: bool, kind: ProbeKindView, span: Span)
    ensures
        grows(operand_opened(cx, c, is_or, kind, span), c),
        is_visible(cx.source, span) ==> has_probe(
            cx,
            operand_opened(cx, c, is_or, kind, span),
            kind,
            span,
            span.lo as int,
        ),
{
    let d = operand_opened(cx, c, is_or, kind, span);
    if has_text(cx.source, span) {
        texts_mention(cx, d.probes.last().tag, d.probes.last().tag);
        probe_is_there(cx, d, c.probes.len() as int, c.updates.len() as int, kind, span, span.lo as int);
    } else if is_visible(cx.source, span) {
        visible_has_text(cx.source, span);
    }
}

proof fn required_has(cx: Context, c: Collected, span: Span)
    ensures
        grows(required(cx, c, span), c),
        is_visible(cx.source, span) ==> requirement_is_probed(cx, required(cx, c, span), span),
{
    let d = required(cx, c, span);
    if has_text(cx.source, span) {
        let n = c.probes.len() as int;
        let m = c.updates.len() as int;
        let b = c.branches as u32;
        texts_mention(cx, d.probes[n].tag, d.probes[n].tag);
        texts_mention(cx, d.probes[n + 1].tag, d.probes[n + 1].tag);
        probe_is_there(cx, d, n, m, ProbeKindView::RequirePre { branch_id: b }, span, span.lo as int);
        probe_is_there(cx, d, n + 1, m + 1, ProbeKindView::RequirePost { branch_id: b }, span, span.hi as int);
        assert(has_probe(cx, d, ProbeKindView::RequirePre { branch_id: b }, span, span.lo as int));
    } else if is_visible(cx.source, span) {
        visible_has_text(cx.source, span);
    }
}

/// A requirement has a probe before it and one behind it, with the same branch.
pub open spec fn requirement_is_probed(cx: Context, c: Collected, span: Span) -> bool {
    exists|branch_id: u32| #[trigger]
        has_probe(cx, c, ProbeKindView::RequirePre { branch_id }, span, span.lo as int) && has_probe(
            cx,
            c,
            ProbeKindView::RequirePost { branch_id },
            span,
            span.hi as int,
        )
}

proof fn requirement_stays(cx: Context, d: Collected, c: Collected, span: Span)
    requires
        grows(d, c),
        requirement_is_probed(cx, c, span),
    ensures
        requirement_is_probed(cx, d, span),
{
    let b = choose|branch_id: u32| #[trigger]
        has_probe(cx, c, ProbeKindView::RequirePre { branch_id }, span, span.lo as int) && has_probe(
            cx,
            c,
            ProbeKindView::RequirePost { branch_id },
            span,
            span.hi as int,
        );
    probe_stays(cx, d, c, ProbeKindView::RequirePre { branch_id: b }, span, span.lo as int);
    probe_stays(cx, d, c, ProbeKindView::RequirePost { branch_id: b }, span, span.hi as int);
}

proof fn expr_grows(cx: Context, c: Collected, expr: Expr)
    ensures
        grows(visited_expr(cx, c, expr), c),
    decreases expr, 0nat,
{
    match expr.kind {
        ExprKind::Ident(_) => {},
        ExprKind::Call(callee, args) => {
            expr_grows(cx, c, *callee);
            exprs_grow(cx, visited_expr(cx, c, *callee), args, args@.len());
            grows_on(visited_expr(cx, c, expr), visited_expr(cx, c, *callee), c);
        },
        ExprKind::Paren(inner) => expr_grows(cx, c, *inner),
        ExprKind::Or(left, right) => {
            let b = c.branches as u32;
            let first = visited_operand(cx, with_branch(c), *left, true, b, 0);
            operand_grows(cx, with_branch(c), *left, true, b, 0);
            operand_grows(cx, first, *right, true, b, 1);
            grows_on(first, with_branch(c), c);
            grows_on(visited_expr(cx, c, expr), first, c);
        },
        ExprKind::And(left, right) => {
            let b = c.branches as u32;
            let first = visited_operand(cx, with_branch(c), *left, false, b, 0);
            operand_grows(cx, with_branch(c), *left, false, b, 0);
            operand_grows(cx, first, *right, false, b, 1);
            grows_on(first, with_branch(c), c);
            grows_on(visited_expr(cx, c, expr), first, c);
        },
        ExprKind::Ternary(cond, holds, fails) => {
            let b = c.branches as u32;
            let start = condition_opened(with_branch(c), cond.span);
            let tested = visited_expr(cx, start, *cond);
            let decided = condition_closed(cx, tested, cond.span, holds.span, fails.span, b);
            let held = visited_expr(cx, decided, *holds);
            assert(grows(start, c));
            expr_grows(cx, start, *cond);
            grows_on(tested, start, c);
            assert(grows(decided, tested));
            grows_on(decided, tested, c);
            expr_grows(cx, decided, *holds);
            grows_on(held, decided, c);
            expr_grows(cx, held, *fails);
            grows_on(visited_expr(cx, c, expr), held, c);
        },
        ExprKind::Other(parts) => exprs_grow(cx, c, parts, parts@.len()),
    }
}

proof fn operand_grows(cx: Context, c: Collected, operand: Expr, is_or: bool, branch_id: u32, path_id: u32)
    ensures
        grows(visited_operand(cx, c, operand, is_or, branch_id, path_id), c),
    decreases operand, 1nat,
{
    let kind = ProbeKindView::Branch { branch_id, path_id };
    let start = operand_opened(cx, c, is_or, kind, operand.span);
    let mid = visited_expr(cx, start, operand);
    operand_opened_has(cx, c, is_or, kind, operand.span);
    expr_grows(cx, start, operand);
    grows_on(mid, start, c);
    assert(grows(operand_closed(cx, mid, operand.span), mid));
    grows_on(operand_closed(cx, mid, operand.span), mid, c);
}

proof fn exprs_grow(cx: Context, c: Collected, exprs: Vec<Expr>, n: nat)
    ensures
        grows(visited_exprs(cx, c, exprs, n), c),
    decreases exprs, n,
{
    if n != 0 && n <= exprs@.len() {
        let before = visited_exprs(cx, c, exprs, (n - 1) as nat);
        exprs_grow(cx, c, exprs, (n - 1) as nat);
        expr_grows(cx, before, exprs[n - 1]);
        grows_on(visited_exprs(cx, c, exprs, n), before, c);
    }
}

proof fn yul_grows(cx: Context, c: Collected, stmt: YulStmt)
    ensures
        grows(visited_yul(cx, c, stmt), c),
    decreases stmt, 0nat,
{
    match stmt.kind {
        YulStmtKind::Plain => yul_probed_has(cx, c, stmt.span),
        YulStmtKind::Block(block) => yuls_grow(cx, c, block.stmts, block.stmts@.len()),
        YulStmtKind::If(block) => {
            let kind = ProbeKindView::Branch { branch_id: c.branches as u32, path_id: 0 };
            let start = yul_entered(cx, with_branch(c), kind, block.span);
            yul_entered_has(cx, with_branch(c), kind, block.span);
            grows_on(start, with_branch(c), c);
            yuls_grow(cx, start, block.stmts, block.stmts@.len());
            grows_on(visited_yul(cx, c, stmt), start, c);
        },
        YulStmtKind::Switch(cases) => {
            cases_grow(cx, with_branch(c), cases, c.branches as u32, cases@.len());
            grows_on(visited_yul(cx, c, stmt), with_branch(c), c);
        },
        YulStmtKind::For(init, step, body) => {
            let before = visited_yuls(cx, c, init.stmts, init.stmts@.len());
            let after = visited_yuls(cx, before, step.stmts, step.stmts@.len());
            let start = yul_entered(cx, after, ProbeKindView::Statement, body.span);
            yuls_grow(cx, c, init.stmts, init.stmts@.len());
            yuls_grow(cx, before, step.stmts, step.stmts@.len());
            grows_on(after, before, c);
            yul_entered_has(cx, after, ProbeKindView::Statement, body.span);
            grows_on(start, after, c);
            yuls_grow(cx, start, body.stmts, body.stmts@.len());
            grows_on(visited_yul(cx, c, stmt), start, c);
        },
        YulStmtKind::Function(body) => yuls_grow(cx, c, body.stmts, body.stmts@.len()),
    }
}

proof fn yuls_grow(cx: Context, c: Collected, stmts: Vec<YulStmt>, n: nat)
    ensures
        grows(visited_yuls(cx, c, stmts, n), c),
    decreases stmts, n,
{
    if n != 0 && n <= stmts@.len() {
        let before = visited_yuls(cx, c, stmts, (n - 1) as nat);
        yuls_grow(cx, c, stmts, (n - 1) as nat);
        yul_grows(cx, before, stmts[n - 1]);
        grows_on(visited_yuls(cx, c, stmts, n), before, c);
    }
}

proof fn cases_grow(cx: Context, c: Collected, cases: Vec<YulBlock>, branch_id: u32, n: nat)
    ensures
        grows(visited_cases(cx, c, cases, branch_id, n), c),
    decreases cases, n,
{
    if n != 0 && n <= cases@.len() {
        let before = visited_cases(cx, c, cases, branch_id, (n - 1) as nat);
        let kind = ProbeKindView::Branch { branch_id, path_id: (n - 1) as u32 };
        let case = cases[n - 1];
        let start = yul_entered(cx, before, kind, case.span);
        cases_grow(cx, c, cases, branch_id, (n - 1) as nat);
        yul_entered_has(cx, before, kind, case.span);
        grows_on(start, before, c);
        yuls_grow(cx, start, case.stmts, case.stmts@.len());
        grows_on(visited_cases(cx, c, cases, branch_id, n), start, c);
    }
}

proof fn parts_grow(cx: Context, c: Collected, stmt: Stmt)
    ensures
        grows(visited_parts(cx, c, stmt), c),
{
    match stmt.kind {
        StmtKind::Assembly(block) => yuls_grow(cx, c, block.stmts, block.stmts@.len()),
        StmtKind::DeclSingle(exprs) => exprs_grow(cx, c, exprs, exprs@.len()),
        StmtKind::DeclMulti(exprs) => exprs_grow(cx, c, exprs, exprs@.len()),
        StmtKind::Emit(exprs) => exprs_grow(cx, c, exprs, exprs@.len()),
        StmtKind::Return(exprs) => exprs_grow(cx, c, exprs, exprs@.len()),
        StmtKind::Revert(exprs) => exprs_grow(cx, c, exprs, exprs@.len()),
        StmtKind::Expr(expr) => expr_grows(cx, c, expr),
        _ => {},
    }
}

proof fn stmt_grows(cx: Context, c: Collected, stmt: Stmt)
    ensures
        grows(visited_stmt(cx, c, stmt), c),
    decreases stmt, 0nat,
{
    let d = visited_stmt(cx, c, stmt);
    match stmt.kind {
        StmtKind::Placeholder => {},
        StmtKind::Expr(expr) => {
            let start = if calls_require(expr) {
                required(cx, c, stmt.span)
            } else {
                probed(cx, c, ProbeKindView::Statement, stmt.span)
            };
            required_has(cx, c, stmt.span);
            probed_has(cx, c, ProbeKindView::Statement, stmt.span);
            parts_grow(cx, start, stmt);
            grows_on(d, start, c);
        },
        StmtKind::Block(block) => stmts_grow(cx, c, block.stmts, block.stmts@.len()),
        StmtKind::UncheckedBlock(block) => stmts_grow(cx, c, block.stmts, block.stmts@.len()),
        StmtKind::If(cond, body, other) => {
            let tested = visited_expr(cx, c, cond);
            let branch_id = tested.branches as u32;
            let kind = ProbeKindView::Branch { branch_id, path_id: 0 };
            let kind1 = ProbeKindView::Branch { branch_id, path_id: 1 };
            let start = with_branch(tested);
            let taken = visited_body(cx, start, *body, kind);
            expr_grows(cx, c, cond);
            grows_on(start, tested, c);
            body_grows(cx, start, *body, kind);
            grows_on(taken, start, c);
            match other {
                Some(other) => body_grows(cx, taken, *other, kind1),
                None => passed_over_has(cx, taken, kind1, body.span),
            }
            grows_on(d, taken, c);
        },
        StmtKind::Try(call, clauses) => {
            let called = visited_expr(cx, c, call);
            let start = with_branch(called);
            expr_grows(cx, c, call);
            grows_on(start, called, c);
            clauses_grow(cx, start, clauses, called.branches as u32, clauses@.len());
            grows_on(d, start, c);
        },
        StmtKind::While(cond, body) => {
            let tested = visited_expr(cx, c, cond);
            expr_grows(cx, c, cond);
            body_grows(cx, tested, *body, ProbeKindView::Statement);
            grows_on(d, tested, c);
        },
        StmtKind::DoWhile(body, cond) => {
            let done = visited_body(cx, c, *body, ProbeKindView::Statement);
            body_grows(cx, c, *body, ProbeKindView::Statement);
            expr_grows(cx, done, cond);
            grows_on(d, done, c);
        },
        StmtKind::For(exprs, body) => {
            let stepped = visited_exprs(cx, c, exprs, exprs@.len());
            exprs_grow(cx, c, exprs, exprs@.len());
            body_grows(cx, stepped, *body, ProbeKindView::Statement);
            grows_on(d, stepped, c);
        },
        _ => {
            let start = probed(cx, c, ProbeKindView::Statement, stmt.span);
            probed_has(cx, c, ProbeKindView::Statement, stmt.span);
            parts_grow(cx, start, stmt);
            grows_on(d, start, c);
        },
    }
}

proof fn stmts_grow(cx: Context, c: Collected, stmts: Vec<Stmt>, n: nat)
    ensures
        grows(visited_stmts(cx, c, stmts, n), c),
    decreases stmts, n,
{
    if n != 0 && n <= stmts@.len() {
        let before = visited_stmts(cx, c, stmts, (n - 1) as nat);
        stmts_grow(cx, c, stmts, (n - 1) as nat);
        stmt_grows(cx, before, stmts[n - 1]);
        grows_on(visited_stmts(cx, c, stmts, n), before, c);
    }
}

proof fn body_grows(cx: Context, c: Collected, stmt: Stmt, kind: ProbeKindView)
    ensures
        grows(visited_body(cx, c, stmt, kind), c),
    decreases stmt, 1nat,
{
    let d = visited_body(cx, c, stmt, kind);
    match stmt.kind {
        StmtKind::Block(block) => {
            let start = entered(cx, c, kind, block.span);
            entered_has(cx, c, kind, block.span);
            stmt_grows(cx, start, stmt);
            grows_on(d, start, c);
        },
        StmtKind::UncheckedBlock(block) => {
            let start = entered(cx, c, kind, block.span);
            entered_has(cx, c, kind, block.span);
            stmt_grows(cx, start, stmt);
            grows_on(d, start, c);
        },
        _ => {
            let start = opened(cx, c, kind, stmt.span);
            let mid = if has_own_probes(stmt) { visited_stmt(cx, start, stmt) } else { visited_parts(cx, start, stmt) };
            opened_has(cx, c, kind, stmt.span);
            stmt_grows(cx, start, stmt);
            parts_grow(cx, start, stmt);
            grows_on(mid, start, c);
            assert(grows(closed_up(cx, mid, stmt.span), mid));
            grows_on(d, mid, c);
        },
    }
}

proof fn clauses_grow(cx: Context, c: Collected, clauses: Vec<Block>, branch_id: u32, n: nat)
    ensures
        grows(visited_clauses(cx, c, clauses, branch_id, n), c),
    decreases clauses, n,
{
    if n != 0 && n <= clauses@.len() {
        let before = visited_clauses(cx, c, clauses, branch_id, (n - 1) as nat);
        let kind = ProbeKindView::Branch { branch_id, path_id: (n - 1) as u32 };
        let clause = clauses[n - 1];
        let start = entered(cx, before, kind, clause.span);
        clauses_grow(cx, c, clauses, branch_id, (n - 1) as nat);
        entered_has(cx, before, kind, clause.span);
        grows_on(start, before, c);
        stmts_grow(cx, start, clause.stmts, clause.stmts@.len());
        grows_on(visited_clauses(cx, c, clauses, branch_id, n), start, c);
    }
}

proof fn stmts_grow_between(cx: Context, c: Collected, stmts: Vec<Stmt>, m: nat, n: nat)
    requires
        m <= n <= stmts@.len(),
    ensures
        grows(visited_stmts(cx, c, stmts, n), visited_stmts(cx, c, stmts, m)),
    decreases n,
{
    if m < n {
        let before = visited_stmts(cx, c, stmts, (n - 1) as nat);
        stmts_grow_between(cx, c, stmts, m, (n - 1) as nat);
        stmt_grows(cx, before, stmts[n - 1]);
        grows_on(visited_stmts(cx, c, stmts, n), before, visited_stmts(cx, c, stmts, m));
    }
}

proof fn clauses_grow_between(cx: Context, c: Collected, clauses: Vec<Block>, branch_id: u32, m: nat, n: nat)
    requires
        m <= n <= clauses@.len(),
    ensures
        grows(visited_clauses(cx, c, clauses, branch_id, n), visited_clauses(cx, c, clauses, branch_id, m)),
    decreases n,
{
    if m < n {
        let before = visited_clauses(cx, c, clauses, branch_id, (n - 1) as nat);
        let kind = ProbeKindView::Branch { branch_id, path_id: (n - 1) as u32 };
        let clause = clauses[n - 1];
        let start = entered(cx, before, kind, clause.span);
        clauses_grow_between(cx, c, clauses, branch_id, m, (n - 1) as nat);
        entered_has(cx, before, kind, clause.span);
        stmts_grow(cx, start, clause.stmts, clause.stmts@.len());
        grows_on(visited_clauses(cx, c, clauses, branch_id, n), start, before);
        grows_on(
            visited_clauses(cx, c, clauses, branch_id, n),
            before,
            visited_clauses(cx, c, clauses, branch_id, m),
        );
    }
}

/// A statement is run under a condition or again and again: it is the body of a loop or of an `if`.
pub open spec fn is_body(inner: Stmt, outer: Stmt) -> bool {
    match outer.kind {
        StmtKind::If(_, body, other) => *body == inner || (other is Some && *other->0 == inner),
        StmtKind::While(_, body) => *body == inner,
        StmtKind::DoWhile(body, _) => *body == inner,
        StmtKind::For(_, body) => *body == inner,
        _ => false,
    }
}

/// A statement is one of those in a block, checked or unchecked, or in a clause.
pub open spec fn is_listed(inner: Stmt, outer: Stmt) -> bool {
    match outer.kind {
        StmtKind::Block(block) => block.stmts@.contains(inner),
        StmtKind::UncheckedBlock(block) => block.stmts@.contains(inner),
        StmtKind::Try(_, clauses) => exists|k: int|
            0 <= k < clauses@.len() && (#[trigger] clauses@[k]).stmts@.contains(inner),
        _ => false,
    }
}

/// Every statement of the chain but the first is directly inside the one before it.
pub open spec fn is_chain(chain: Seq<Stmt>) -> bool {
    &&& chain.len() > 0
    &&& forall|i: int|
        0 <= i < chain.len() - 1 ==> is_body(#[trigger] chain[i + 1], chain[i]) || is_listed(chain[i + 1], chain[i])
}

/// The statement is one without statements in it.
pub open spec fn is_simple(stmt: Stmt) -> bool {
    match stmt.kind {
        StmtKind::Placeholder => false,
        StmtKind::Block(_) => false,
        StmtKind::UncheckedBlock(_) => false,
        StmtKind::If(..) => false,
        StmtKind::Try(..) => false,
        StmtKind::While(..) => false,
        StmtKind::DoWhile(..) => false,
        StmtKind::For(..) => false,
        _ => true,
    }
}

/// What is collected after a statement in a list, or after one that is a body.
spec fn visited_as(cx: Context, c: Collected, stmt: Stmt, kind: Option<ProbeKindView>) -> Collected {
    match kind {
        None => visited_stmt(cx, c, stmt),
        Some(kind) => visited_body(cx, c, stmt, kind),
    }
}

/// The last statement of a chain is visited while the first one is.
proof fn last_is_visited(cx: Context, c: Collected, chain: Seq<Stmt>, kind: Option<ProbeKindView>) -> (found: (
    Collected,
    Option<ProbeKindView>,
))
    requires
        is_chain(chain),
    ensures
        grows(visited_as(cx, c, chain[0], kind), visited_as(cx, found.0, chain.last(), found.1)),
        chain.len() == 1 ==> found.1 == kind,
        chain.len() > 1 && is_listed(chain.last(), chain[chain.len() - 2]) && !is_body(
            chain.last(),
            chain[chain.len() - 2],
        ) ==> found.1 is None,
    decreases chain.len(), (if kind is None { 0nat } else { 1nat }),
{
    let outer = chain[0];
    let whole = visited_as(cx, c, outer, kind);
    if chain.len() == 1 {
        (c, kind)
    } else if kind is Some {
        let k = kind->0;
        assert(is_body(chain[0int + 1], chain[0]) || is_listed(chain[0int + 1], chain[0]));
        match outer.kind {
            StmtKind::Block(block) => {
                let start = entered(cx, c, k, block.span);
                last_is_visited(cx, start, chain, None)
            },
            StmtKind::UncheckedBlock(block) => {
                let start = entered(cx, c, k, block.span);
                last_is_visited(cx, start, chain, None)
            },
            _ => {
                let start = opened(cx, c, k, outer.span);
                let mid = visited_stmt(cx, start, outer);
                assert(has_own_probes(outer));
                let found = last_is_visited(cx, start, chain, None);
                assert(grows(closed_up(cx, mid, outer.span), mid));
                grows_on(whole, mid, visited_as(cx, found.0, chain.last(), found.1));
                found
            },
        }
    } else {
        let rest = chain.skip(1);
        let inner = chain[1];
        assert(rest[0] == inner && rest.last() == chain.last());
        assert forall|i: int| 0 <= i < rest.len() - 1 implies is_body(#[trigger] rest[i + 1], rest[i]) || is_listed(
            rest[i + 1],
            rest[i],
        ) by {
            assert(rest[i + 1] == chain[(i + 1) + 1] && rest[i] == chain[i + 1]);
        }
        if rest.len() > 1 {
            assert(rest[rest.len() - 2] == chain[chain.len() - 2]);
        }
        assert(is_body(chain[0int + 1], chain[0]) || is_listed(chain[0int + 1], chain[0]));
        match outer.kind {
            StmtKind::Block(block) => last_in_list(cx, c, block.stmts, rest),
            StmtKind::UncheckedBlock(block) => last_in_list(cx, c, block.stmts, rest),
            StmtKind::If(cond, body, other) => {
                let tested = visited_expr(cx, c, cond);
                let branch_id = tested.branches as u32;
                let kind0 = ProbeKindView::Branch { branch_id, path_id: 0 };
                let kind1 = ProbeKindView::Branch { branch_id, path_id: 1 };
                let start = with_branch(tested);
                let taken = visited_body(cx, start, *body, kind0);
                if *body == inner {
                    let found = last_is_visited(cx, start, rest, Some(kind0));
                    match other {
                        Some(other) => body_grows(cx, taken, *other, kind1),
                        None => passed_over_has(cx, taken, kind1, body.span),
                    }
                    grows_on(whole, taken, visited_as(cx, found.0, chain.last(), found.1));
                    found
                } else {
                    last_is_visited(cx, taken, rest, Some(kind1))
                }
            },
            StmtKind::Try(call, clauses) => {
                let called = visited_expr(cx, c, call);
                let k = choose|k: int| 0 <= k < clauses@.len() && (#[trigger] clauses@[k]).stmts@.contains(inner);
                let branch_id = called.branches as u32;
                let before = visited_clauses(cx, with_branch(called), clauses, branch_id, k as nat);
                let path = ProbeKindView::Branch { branch_id, path_id: k as u32 };
                let clause = clauses[k];
                let start = entered(cx, before, path, clause.span);
                let found = last_in_list(cx, start, clause.stmts, rest);
                let now = visited_clauses(cx, with_branch(called), clauses, branch_id, (k + 1) as nat);
                assert(now == visited_stmts(cx, start, clause.stmts, clause.stmts@.len()));
                clauses_grow_between(
                    cx,
                    with_branch(called),
                    clauses,
                    branch_id,
                    (k + 1) as nat,
                    clauses@.len(),
                );
                grows_on(whole, now, visited_as(cx, found.0, chain.last(), found.1));
                found
            },
            StmtKind::While(cond, body) => last_is_visited(
                cx,
                visited_expr(cx, c, cond),
                rest,
                Some(ProbeKindView::Statement),
            ),
            StmtKind::DoWhile(body, cond) => {
                let found = last_is_visited(cx, c, rest, Some(ProbeKindView::Statement));
                let done = visited_body(cx, c, *body, ProbeKindView::Statement);
                expr_grows(cx, done, cond);
                grows_on(whole, done, visited_as(cx, found.0, chain.last(), found.1));
                found
            },
            StmtKind::For(exprs, body) => last_is_visited(
                cx,
                visited_exprs(cx, c, exprs, exprs@.len()),
                rest,
                Some(ProbeKindView::Statement),
            ),
            _ => (c, kind),
        }
    }
}

proof fn last_in_list(cx: Context, c: Collected, stmts: Vec<Stmt>, chain: Seq<Stmt>) -> (found: (
    Collected,
    Option<ProbeKindView>,
))
    requires
        is_chain(chain),
        stmts@.contains(chain[0]),
    ensures
        grows(visited_stmts(cx, c, stmts, stmts@.len()), visited_as(cx, found.0, chain.last(), found.1)),
        chain.len() == 1 ==> found.1 is None,
        chain.len() > 1 && is_listed(chain.last(), chain[chain.len() - 2]) && !is_body(
            chain.last(),
            chain[chain.len() - 2],
        ) ==> found.1 is None,
    decreases chain.len(), 2nat,
{
    let k = choose|k: int| 0 <= k < stmts@.len() && stmts@[k] == chain[0];
    let before = visited_stmts(cx, c, stmts, k as nat);
    let found = last_is_visited(cx, before, chain, None);
    let now = visited_stmts(cx, c, stmts, (k + 1) as nat);
    assert(now == visited_stmt(cx, before, stmts[k]));
    stmts_grow_between(cx, c, stmts, (k + 1) as nat, stmts@.len());
    grows_on(visited_stmts(cx, c, stmts, stmts@.len()), now, visited_as(cx, found.0, chain.last(), found.1));
    found
}

/// A text is inserted at an offset.
pub open spec fn has_insertion(c: Collected, at: int, text: Seq<char>) -> bool {
    exists|u: int| 0 <= u < c.updates.len() && (#[trigger] c.updates[u]).at == at && c.updates[u].text == text
}

proof fn insertion_stays(d: Collected, c: Collected, at: int, text: Seq<char>)
    requires
        grows(d, c),
        has_insertion(c, at, text),
    ensures
        has_insertion(d, at, text),
{
    let u = choose|u: int| 0 <= u < c.updates.len() && (#[trigger] c.updates[u]).at == at && c.updates[u].text == text;
    assert(d.updates[u] == c.updates[u]);
}

/// The body of a loop or of an `if` has a probe of a kind: a block behind its brace, any other statement before it,
/// with a brace behind it that closes what the probe opens.
pub open spec fn body_is_probed(cx: Context, c: Collected, body: Stmt, kind: ProbeKindView) -> bool {
    match body.kind {
        StmtKind::Block(block) => block_is_probed(cx, c, block.span, kind),
        StmtKind::UncheckedBlock(block) => block_is_probed(cx, c, block.span, kind),
        _ => is_visible(cx.source, body.span) ==> has_probe(cx, c, kind, body.span, body.span.lo as int)
            && has_insertion(c, body.span.hi as int, " }"@),
    }
}

/// A block has a probe of a kind behind its brace.
pub open spec fn block_is_probed(cx: Context, c: Collected, span: Span, kind: ProbeKindView) -> bool {
    forall|at: int| #[trigger] opens_at(cx.source, span, at) ==> has_probe(cx, c, kind, span, at + 1)
}

/// The two ways that an `if` can go have probes with the same branch.
pub open spec fn choice_is_probed(cx: Context, c: Collected, body: Stmt, other: Option<Box<Stmt>>, branch_id: u32) -> bool {
    let second = ProbeKindView::Branch { branch_id, path_id: 1 };
    &&& body_is_probed(cx, c, body, ProbeKindView::Branch { branch_id, path_id: 0 })
    &&& match other {
        Some(other) => body_is_probed(cx, c, *other, second),
        None => is_visible(cx.source, body.span) ==> has_probe(cx, c, second, body.span, body.span.hi as int),
    }
}

/// The clauses of a `try` have probes with the same branch, each with the number of the clause.
pub open spec fn clauses_are_probed(cx: Context, c: Collected, clauses: Seq<Block>, branch_id: u32) -> bool {
    forall|k: int|
        0 <= k < clauses.len() ==> block_is_probed(
            cx,
            c,
            (#[trigger] clauses[k]).span,
            ProbeKindView::Branch { branch_id, path_id: k as u32 },
        )
}

/// A statement has the probes that it needs: one before it if it is simple, two around it if it is a requirement,
/// one in every way that it can go.
pub open spec fn stmt_is_probed(cx: Context, c: Collected, stmt: Stmt, is_in_list: bool) -> bool {
    &&& is_simple(stmt) && is_visible(cx.source, stmt.span) ==> match stmt.kind {
        StmtKind::Expr(expr) if calls_require(expr) => requirement_is_probed(cx, c, stmt.span),
        _ => if is_in_list {
            has_probe(cx, c, ProbeKindView::Statement, stmt.span, stmt.span.lo as int)
        } else {
            exists|kind: ProbeKindView| #[trigger] has_probe(cx, c, kind, stmt.span, stmt.span.lo as int)
        },
    }
    &&& match stmt.kind {
        StmtKind::If(_, body, other) => exists|branch_id: u32| #[trigger]
            choice_is_probed(cx, c, *body, other, branch_id),
        StmtKind::Try(_, clauses) => exists|branch_id: u32| #[trigger]
            clauses_are_probed(cx, c, clauses@, branch_id),
        StmtKind::While(_, body) => body_is_probed(cx, c, *body, ProbeKindView::Statement),
        StmtKind::DoWhile(body, _) => body_is_probed(cx, c, *body, ProbeKindView::Statement),
        StmtKind::For(_, body) => body_is_probed(cx, c, *body, ProbeKindView::Statement),
        _ => true,
    }
}

proof fn block_stays(cx: Context, d: Collected, c: Collected, span: Span, kind: ProbeKindView)
    requires
        grows(d, c),
        block_is_probed(cx, c, span, kind),
    ensures
        block_is_probed(cx, d, span, kind),
{
    assert forall|at: int| #[trigger] opens_at(cx.source, span, at) implies has_probe(cx, d, kind, span, at + 1) by {
        probe_stays(cx, d, c, kind, span, at + 1);
    }
}

proof fn body_stays(cx: Context, d: Collected, c: Collected, body: Stmt, kind: ProbeKindView)
    requires
        grows(d, c),
        body_is_probed(cx, c, body, kind),
    ensures
        body_is_probed(cx, d, body, kind),
{
    match body.kind {
        StmtKind::Block(block) => block_stays(cx, d, c, block.span, kind),
        StmtKind::UncheckedBlock(block) => block_stays(cx, d, c, block.span, kind),
        _ => {
            if is_visible(cx.source, body.span) {
                probe_stays(cx, d, c, kind, body.span, body.span.lo as int);
                insertion_stays(d, c, body.span.hi as int, " }"@);
            }
        },
    }
}

proof fn body_has(cx: Context, c: Collected, body: Stmt, kind: ProbeKindView)
    ensures
        body_is_probed(cx, visited_body(cx, c, body, kind), body, kind),
{
    let d = visited_body(cx, c, body, kind);
    match body.kind {
        StmtKind::Block(block) => {
            let start = entered(cx, c, kind, block.span);
            entered_has(cx, c, kind, block.span);
            stmt_grows(cx, start, body);
            block_stays(cx, d, start, block.span, kind);
        },
        StmtKind::UncheckedBlock(block) => {
            let start = entered(cx, c, kind, block.span);
            entered_has(cx, c, kind, block.span);
            stmt_grows(cx, start, body);
            block_stays(cx, d, start, block.span, kind);
        },
        _ => {
            let start = opened(cx, c, kind, body.span);
            let mid = if has_own_probes(body) { visited_stmt(cx, start, body) } else { visited_parts(cx, start, body) };
            opened_has(cx, c, kind, body.span);
            stmt_grows(cx, start, body);
            parts_grow(cx, start, body);
            assert(grows(closed_up(cx, mid, body.span), mid));
            grows_on(d, mid, start);
            if is_visible(cx.source, body.span) {
                probe_stays(cx, d, start, kind, body.span, body.span.lo as int);
                visible_has_text(cx.source, body.span);
                assert(d.updates[mid.updates.len() as int].at == body.span.hi);
            }
        },
    }
}

proof fn clauses_have(cx: Context, c: Collected, clauses: Vec<Block>, branch_id: u32, n: nat, k: int)
    requires
        0 <= k < n <= clauses@.len(),
    ensures
        block_is_probed(
            cx,
            visited_clauses(cx, c, clauses, branch_id, n),
            clauses@[k].span,
            ProbeKindView::Branch { branch_id, path_id: k as u32 },
        ),
{
    let before = visited_clauses(cx, c, clauses, branch_id, k as nat);
    let kind = ProbeKindView::Branch { branch_id, path_id: k as u32 };
    let clause = clauses[k];
    let start = entered(cx, before, kind, clause.span);
    let now = visited_clauses(cx, c, clauses, branch_id, (k + 1) as nat);
    entered_has(cx, before, kind, clause.span);
    stmts_grow(cx, start, clause.stmts, clause.stmts@.len());
    assert(now == visited_stmts(cx, start, clause.stmts, clause.stmts@.len()));
    clauses_grow_between(cx, c, clauses, branch_id, (k + 1) as nat, n);
    grows_on(visited_clauses(cx, c, clauses, branch_id, n), now, start);
    block_stays(cx, visited_clauses(cx, c, clauses, branch_id, n), start, clause.span, kind);
}

/// What a statement in a list has once it is visited.
proof fn visited_stmt_has(cx: Context, c: Collected, stmt: Stmt)
    ensures
        stmt_is_probed(cx, visited_stmt(cx, c, stmt), stmt, true),
{
    let d = visited_stmt(cx, c, stmt);
    match stmt.kind {
        StmtKind::Expr(expr) => {
            let start = if calls_require(expr) {
                required(cx, c, stmt.span)
            } else {
                probed(cx, c, ProbeKindView::Statement, stmt.span)
            };
            required_has(cx, c, stmt.span);
            probed_has(cx, c, ProbeKindView::Statement, stmt.span);
            parts_grow(cx, start, stmt);
            if is_visible(cx.source, stmt.span) {
                if calls_require(expr) {
                    requirement_stays(cx, d, start, stmt.span);
                } else {
                    probe_stays(cx, d, start, ProbeKindView::Statement, stmt.span, stmt.span.lo as int);
                }
            }
        },
        StmtKind::If(cond, body, other) => {
            let tested = visited_expr(cx, c, cond);
            let branch_id = tested.branches as u32;
            let kind = ProbeKindView::Branch { branch_id, path_id: 0 };
            let kind1 = ProbeKindView::Branch { branch_id, path_id: 1 };
            let taken = visited_body(cx, with_branch(tested), *body, kind);
            body_has(cx, with_branch(tested), *body, kind);
            match other {
                Some(other) => {
                    body_grows(cx, taken, *other, kind1);
                    body_has(cx, taken, *other, kind1);
                },
                None => passed_over_has(cx, taken, kind1, body.span),
            }
            body_stays(cx, d, taken, *body, kind);
            assert(choice_is_probed(cx, d, *body, other, branch_id));
        },
        StmtKind::Try(call, clauses) => {
            let called = visited_expr(cx, c, call);
            let branch_id = called.branches as u32;
            assert forall|k: int| 0 <= k < clauses@.len() implies block_is_probed(
                cx,
                d,
                (#[trigger] clauses@[k]).span,
                ProbeKindView::Branch { branch_id, path_id: k as u32 },
            ) by {
                clauses_have(cx, with_branch(called), clauses, branch_id, clauses@.len(), k);
            }
            assert(clauses_are_probed(cx, d, clauses@, branch_id));
        },
        StmtKind::While(cond, body) => body_has(cx, visited_expr(cx, c, cond), *body, ProbeKindView::Statement),
        StmtKind::DoWhile(body, cond) => {
            let done = visited_body(cx, c, *body, ProbeKindView::Statement);
            body_has(cx, c, *body, ProbeKindView::Statement);
            expr_grows(cx, done, cond);
            body_stays(cx, d, done, *body, ProbeKindView::Statement);
        },
        StmtKind::For(exprs, body) => body_has(
            cx,
            visited_exprs(cx, c, exprs, exprs@.len()),
            *body,
            ProbeKindView::Statement,
        ),
        StmtKind::Placeholder => {},
        StmtKind::Block(_) => {},
        StmtKind::UncheckedBlock(_) => {},
        _ => {
            let start = probed(cx, c, ProbeKindView::Statement, stmt.span);
            probed_has(cx, c, ProbeKindView::Statement, stmt.span);
            parts_grow(cx, start, stmt);
            if is_visible(cx.source, stmt.span) {
                probe_stays(cx, d, start, ProbeKindView::Statement, stmt.span, stmt.span.lo as int);
            }
        },
    }
}

proof fn stmt_stays(cx: Context, d: Collected, c: Collected, stmt: Stmt, is_in_list: bool)
    requires
        grows(d, c),
        stmt_is_probed(cx, c, stmt, is_in_list),
    ensures
        stmt_is_probed(cx, d, stmt, is_in_list),
        stmt_is_probed(cx, d, stmt, false),
{
    let span = stmt.span;
    match stmt.kind {
        StmtKind::If(_, body, other) => {
            let b = choose|branch_id: u32| #[trigger] choice_is_probed(cx, c, *body, other, branch_id);
            body_stays(cx, d, c, *body, ProbeKindView::Branch { branch_id: b, path_id: 0 });
            let second = ProbeKindView::Branch { branch_id: b, path_id: 1 };
            match other {
                Some(other) => body_stays(cx, d, c, *other, second),
                None => {
                    if is_visible(cx.source, body.span) {
                        probe_stays(cx, d, c, second, body.span, body.span.hi as int);
                    }
                },
            }
            assert(choice_is_probed(cx, d, *body, other, b));
        },
        StmtKind::Try(_, clauses) => {
            let b = choose|branch_id: u32| #[trigger] clauses_are_probed(cx, c, clauses@, branch_id);
            assert forall|k: int| 0 <= k < clauses@.len() implies block_is_probed(
                cx,
                d,
                (#[trigger] clauses@[k]).span,
                ProbeKindView::Branch { branch_id: b, path_id: k as u32 },
            ) by {
                block_stays(
                    cx,
                    d,
                    c,
                    clauses@[k].span,
                    ProbeKindView::Branch { branch_id: b, path_id: k as u32 },
                );
            }
            assert(clauses_are_probed(cx, d, clauses@, b));
        },
        StmtKind::While(_, body) => body_stays(cx, d, c, *body, ProbeKindView::Statement),
        StmtKind::DoWhile(body, _) => body_stays(cx, d, c, *body, ProbeKindView::Statement),
        StmtKind::For(_, body) => body_stays(cx, d, c, *body, ProbeKindView::Statement),
        _ => {},
    }
    if is_simple(stmt) && is_visible(cx.source, span) {
        let is_requirement = stmt.kind is Expr && calls_require(stmt.kind->Expr_0);
        if is_requirement {
            requirement_stays(cx, d, c, span);
        } else if is_in_list {
            probe_stays(cx, d, c, ProbeKindView::Statement, span, span.lo as int);
            assert(has_probe(cx, d, ProbeKindView::Statement, span, span.lo as int));
        } else {
            let kind = choose|kind: ProbeKindView| #[trigger] has_probe(cx, c, kind, span, span.lo as int);
            probe_stays(cx, d, c, kind, span, span.lo as int);
        }
    }
}

proof fn visited_as_has(cx: Context, c: Collected, stmt: Stmt, kind: Option<ProbeKindView>)
    ensures
        stmt_is_probed(cx, visited_as(cx, c, stmt, kind), stmt, kind is None),
{
    match kind {
        None => visited_stmt_has(cx, c, stmt),
        Some(kind) => {
            let d = visited_body(cx, c, stmt, kind);
            body_has(cx, c, stmt, kind);
            match stmt.kind {
                StmtKind::Block(block) => {
                    visited_stmt_has(cx, entered(cx, c, kind, block.span), stmt);
                },
                StmtKind::UncheckedBlock(block) => {
                    visited_stmt_has(cx, entered(cx, c, kind, block.span), stmt);
                },
                _ => {
                    let start = opened(cx, c, kind, stmt.span);
                    if has_own_probes(stmt) {
                        let mid = visited_stmt(cx, start, stmt);
                        visited_stmt_has(cx, start, stmt);
                        assert(grows(d, mid));
                        stmt_stays(cx, d, mid, stmt, true);
                    } else if is_visible(cx.source, stmt.span) {
                        assert(has_probe(cx, d, kind, stmt.span, stmt.span.lo as int));
                    }
                },
            }
        },
    }
}

/// An expression is directly in another one.
pub open spec fn is_part(inner: Expr, outer: Expr) -> bool {
    match outer.kind {
        ExprKind::Ident(_) => false,
        ExprKind::Call(callee, args) => *callee == inner || args@.contains(inner),
        ExprKind::Paren(only) => *only == inner,
        ExprKind::Or(left, right) => *left == inner || *right == inner,
        ExprKind::And(left, right) => *left == inner || *right == inner,
        ExprKind::Ternary(cond, holds, fails) => *cond == inner || *holds == inner || *fails == inner,
        ExprKind::Other(parts) => parts@.contains(inner),
    }
}

/// Every expression of the chain but the first is directly in the one before it.
pub open spec fn is_expr_chain(chain: Seq<Expr>) -> bool {
    &&& chain.len() > 0
    &&& forall|i: int| 0 <= i < chain.len() - 1 ==> is_part(#[trigger] chain[i + 1], chain[i])
}

/// The expression is evaluated by the statement itself, and not by a statement inside it.
pub open spec fn is_expr_of(expr: Expr, stmt: Stmt) -> bool {
    match stmt.kind {
        StmtKind::DeclSingle(exprs) => exprs@.contains(expr),
        StmtKind::DeclMulti(exprs) => exprs@.contains(expr),
        StmtKind::Emit(exprs) => exprs@.contains(expr),
        StmtKind::Return(exprs) => exprs@.contains(expr),
        StmtKind::Revert(exprs) => exprs@.contains(expr),
        StmtKind::Expr(own) => own == expr,
        StmtKind::If(cond, _, _) => cond == expr,
        StmtKind::Try(call, _) => call == expr,
        StmtKind::While(cond, _) => cond == expr,
        StmtKind::DoWhile(_, cond) => cond == expr,
        StmtKind::For(exprs, _) => exprs@.contains(expr),
        _ => false,
    }
}

/// The two ways that a disjunction, a conjunction or a choice can go have probes with the same branch. The condition of
/// a choice has parentheses before it.
pub open spec fn expr_is_probed(cx: Context, c: Collected, expr: Expr) -> bool {
    match expr.kind {
        ExprKind::Or(left, right) => exists|branch_id: u32| #[trigger]
            operands_are_probed(cx, c, left.span, right.span, branch_id),
        ExprKind::And(left, right) => exists|branch_id: u32| #[trigger]
            operands_are_probed(cx, c, left.span, right.span, branch_id),
        ExprKind::Ternary(cond, holds, fails) => exists|branch_id: u32| #[trigger]
            has_probe(cx, c, ProbeKindView::Branch { branch_id, path_id: 0 }, holds.span, cond.span.hi as int) && has_probe(
                cx,
                c,
                ProbeKindView::Branch { branch_id, path_id: 1 },
                fails.span,
                cond.span.hi as int,
            ) && has_insertion(c, cond.span.lo as int, "(("@),
        _ => true,
    }
}

/// Both operands have probes before them, with the same branch, and parentheses behind them.
pub open spec fn operands_are_probed(cx: Context, c: Collected, left: Span, right: Span, branch_id: u32) -> bool {
    &&& is_visible(cx.source, left) ==> has_probe(
        cx,
        c,
        ProbeKindView::Branch { branch_id, path_id: 0 },
        left,
        left.lo as int,
    ) && has_insertion(c, left.hi as int, ")"@)
    &&& is_visible(cx.source, right) ==> has_probe(
        cx,
        c,
        ProbeKindView::Branch { branch_id, path_id: 1 },
        right,
        right.lo as int,
    ) && has_insertion(c, right.hi as int, ")"@)
}

proof fn expr_stays(cx: Context, d: Collected, c: Collected, expr: Expr)
    requires
        grows(d, c),
        expr_is_probed(cx, c, expr),
    ensures
        expr_is_probed(cx, d, expr),
{
    match expr.kind {
        ExprKind::Or(left, right) => {
            let b = choose|branch_id: u32| #[trigger] operands_are_probed(cx, c, left.span, right.span, branch_id);
            operands_stay(cx, d, c, left.span, right.span, b);
        },
        ExprKind::And(left, right) => {
            let b = choose|branch_id: u32| #[trigger] operands_are_probed(cx, c, left.span, right.span, branch_id);
            operands_stay(cx, d, c, left.span, right.span, b);
        },
        ExprKind::Ternary(cond, holds, fails) => {
            let b = choose|branch_id: u32| #[trigger]
                has_probe(cx, c, ProbeKindView::Branch { branch_id, path_id: 0 }, holds.span, cond.span.hi as int)
                    && has_probe(
                    cx,
                    c,
                    ProbeKindView::Branch { branch_id, path_id: 1 },
                    fails.span,
                    cond.span.hi as int,
                ) && has_insertion(c, cond.span.lo as int, "(("@);
            insertion_stays(d, c, cond.span.lo as int, "(("@);
            probe_stays(cx, d, c, ProbeKindView::Branch { branch_id: b, path_id: 0 }, holds.span, cond.span.hi as int);
            probe_stays(cx, d, c, ProbeKindView::Branch { branch_id: b, path_id: 1 }, fails.span, cond.span.hi as int);
        },
        _ => {},
    }
}

proof fn operands_stay(cx: Context, d: Collected, c: Collected, left: Span, right: Span, branch_id: u32)
    requires
        grows(d, c),
        operands_are_probed(cx, c, left, right, branch_id),
    ensures
        operands_are_probed(cx, d, left, right, branch_id),
{
    if is_visible(cx.source, left) {
        probe_stays(cx, d, c, ProbeKindView::Branch { branch_id, path_id: 0 }, left, left.lo as int);
        insertion_stays(d, c, left.hi as int, ")"@);
    }
    if is_visible(cx.source, right) {
        probe_stays(cx, d, c, ProbeKindView::Branch { branch_id, path_id: 1 }, right, right.lo as int);
        insertion_stays(d, c, right.hi as int, ")"@);
    }
}

proof fn operand_has(cx: Context, c: Collected, operand: Expr, is_or: bool, branch_id: u32, path_id: u32)
    ensures
        is_visible(cx.source, operand.span) ==> has_probe(
            cx,
            visited_operand(cx, c, operand, is_or, branch_id, path_id),
            ProbeKindView::Branch { branch_id, path_id },
            operand.span,
            operand.span.lo as int,
        ) && has_insertion(
            visited_operand(cx, c, operand, is_or, branch_id, path_id),
            operand.span.hi as int,
            ")"@,
        ),
{
    let kind = ProbeKindView::Branch { branch_id, path_id };
    let start = operand_opened(cx, c, is_or, kind, operand.span);
    let mid = visited_expr(cx, start, operand);
    let d = operand_closed(cx, mid, operand.span);
    operand_opened_has(cx, c, is_or, kind, operand.span);
    expr_grows(cx, start, operand);
    assert(grows(d, mid));
    grows_on(d, mid, start);
    if is_visible(cx.source, operand.span) {
        probe_stays(cx, d, start, kind, operand.span, operand.span.lo as int);
        visible_has_text(cx.source, operand.span);
        assert(d.updates[mid.updates.len() as int].at == operand.span.hi);
    }
}

proof fn operands_have(cx: Context, c: Collected, left: Expr, right: Expr, is_or: bool)
    ensures
        ({
            let b = c.branches as u32;
            let first = visited_operand(cx, with_branch(c), left, is_or, b, 0);
            operands_are_probed(cx, visited_operand(cx, first, right, is_or, b, 1), left.span, right.span, b)
        }),
{
    let b = c.branches as u32;
    let first = visited_operand(cx, with_branch(c), left, is_or, b, 0);
    let d = visited_operand(cx, first, right, is_or, b, 1);
    operand_has(cx, with_branch(c), left, is_or, b, 0);
    operand_has(cx, first, right, is_or, b, 1);
    operand_grows(cx, first, right, is_or, b, 1);
    if is_visible(cx.source, left.span) {
        probe_stays(cx, d, first, ProbeKindView::Branch { branch_id: b, path_id: 0 }, left.span, left.span.lo as int);
        insertion_stays(d, first, left.span.hi as int, ")"@);
    }
}

proof fn visited_expr_has(cx: Context, c: Collected, expr: Expr)
    ensures
        expr_is_probed(cx, visited_expr(cx, c, expr), expr),
{
    let d = visited_expr(cx, c, expr);
    let b = c.branches as u32;
    match expr.kind {
        ExprKind::Or(left, right) => operands_have(cx, c, *left, *right, true),
        ExprKind::And(left, right) => operands_have(cx, c, *left, *right, false),
        ExprKind::Ternary(cond, holds, fails) => {
            let start = condition_opened(with_branch(c), cond.span);
            let tested = visited_expr(cx, start, *cond);
            let decided = condition_closed(cx, tested, cond.span, holds.span, fails.span, b);
            let held = visited_expr(cx, decided, *holds);
            let n = tested.probes.len() as int;
            let u = tested.updates.len() as int;
            let at = cond.span.hi as int;
            let kind0 = ProbeKindView::Branch { branch_id: b, path_id: 0 };
            let kind1 = ProbeKindView::Branch { branch_id: b, path_id: 1 };
            texts_mention(cx, decided.probes[n].tag, decided.probes[n + 1].tag);
            texts_mention(cx, decided.probes[n + 1].tag, decided.probes[n].tag);
            probe_is_there(cx, decided, n, u, kind0, holds.span, at);
            probe_is_there(cx, decided, n + 1, u, kind1, fails.span, at);
            expr_grows(cx, decided, *holds);
            expr_grows(cx, held, *fails);
            grows_on(d, held, decided);
            assert(start.updates[c.updates.len() as int].at == cond.span.lo);
            assert(has_insertion(start, cond.span.lo as int, "(("@));
            expr_grows(cx, start, *cond);
            assert(grows(decided, tested));
            grows_on(decided, tested, start);
            grows_on(d, decided, start);
            insertion_stays(d, start, cond.span.lo as int, "(("@);
            probe_stays(cx, d, decided, kind0, holds.span, at);
            probe_stays(cx, d, decided, kind1, fails.span, at);
        },
        _ => {},
    }
}

proof fn exprs_grow_between(cx: Context, c: Collected, exprs: Vec<Expr>, m: nat, n: nat)
    requires
        m <= n <= exprs@.len(),
    ensures
        grows(visited_exprs(cx, c, exprs, n), visited_exprs(cx, c, exprs, m)),
    decreases n,
{
    if m < n {
        let before = visited_exprs(cx, c, exprs, (n - 1) as nat);
        exprs_grow_between(cx, c, exprs, m, (n - 1) as nat);
        expr_grows(cx, before, exprs[n - 1]);
        grows_on(visited_exprs(cx, c, exprs, n), before, visited_exprs(cx, c, exprs, m));
    }
}

/// The last expression of a chain is probed once the first one is visited.
proof fn last_expr_has(cx: Context, c: Collected, chain: Seq<Expr>)
    requires
        is_expr_chain(chain),
    ensures
        expr_is_probed(cx, visited_expr(cx, c, chain[0]), chain.last()),
    decreases chain.len(), 0nat,
{
    let outer = chain[0];
    let d = visited_expr(cx, c, outer);
    if chain.len() == 1 {
        visited_expr_has(cx, c, outer);
    } else {
        let rest = chain.skip(1);
        let inner = chain[1];
        assert(rest[0] == inner && rest.last() == chain.last());
        assert forall|i: int| 0 <= i < rest.len() - 1 implies is_part(#[trigger] rest[i + 1], rest[i]) by {
            assert(rest[i + 1] == chain[(i + 1) + 1] && rest[i] == chain[i + 1]);
        }
        assert(is_part(chain[0int + 1], chain[0]));
        let last = chain.last();
        match outer.kind {
            ExprKind::Ident(_) => {},
            ExprKind::Call(callee, args) => {
                let called = visited_expr(cx, c, *callee);
                if *callee == inner {
                    last_expr_has(cx, c, rest);
                    exprs_grow(cx, called, args, args@.len());
                    expr_stays(cx, d, called, last);
                } else {
                    last_expr_in_list(cx, called, args, rest);
                }
            },
            ExprKind::Paren(_) => last_expr_has(cx, c, rest),
            ExprKind::Or(left, right) => last_in_operands(cx, c, *left, *right, true, rest),
            ExprKind::And(left, right) => last_in_operands(cx, c, *left, *right, false, rest),
            ExprKind::Ternary(cond, holds, fails) => {
                let b = c.branches as u32;
                let start = condition_opened(with_branch(c), cond.span);
                let tested = visited_expr(cx, start, *cond);
                let decided = condition_closed(cx, tested, cond.span, holds.span, fails.span, b);
                let held = visited_expr(cx, decided, *holds);
                assert(grows(decided, tested));
                expr_grows(cx, decided, *holds);
                expr_grows(cx, held, *fails);
                grows_on(held, decided, tested);
                grows_on(d, held, tested);
                if *cond == inner {
                    last_expr_has(cx, start, rest);
                    expr_stays(cx, d, tested, last);
                } else if *holds == inner {
                    last_expr_has(cx, decided, rest);
                    expr_stays(cx, d, held, last);
                } else {
                    last_expr_has(cx, held, rest);
                }
            },
            ExprKind::Other(parts) => last_expr_in_list(cx, c, parts, rest),
        }
    }
}

proof fn last_in_operands(cx: Context, c: Collected, left: Expr, right: Expr, is_or: bool, chain: Seq<Expr>)
    requires
        is_expr_chain(chain),
        chain[0] == left || chain[0] == right,
    ensures
        ({
            let b = c.branches as u32;
            let first = visited_operand(cx, with_branch(c), left, is_or, b, 0);
            expr_is_probed(cx, visited_operand(cx, first, right, is_or, b, 1), chain.last())
        }),
    decreases chain.len(), 1nat,
{
    let b = c.branches as u32;
    let first = visited_operand(cx, with_branch(c), left, is_or, b, 0);
    let d = visited_operand(cx, first, right, is_or, b, 1);
    if chain[0] == left {
        let kind = ProbeKindView::Branch { branch_id: b, path_id: 0 };
        let start = operand_opened(cx, with_branch(c), is_or, kind, left.span);
        let mid = visited_expr(cx, start, left);
        last_expr_has(cx, start, chain);
        assert(grows(first, mid));
        operand_grows(cx, first, right, is_or, b, 1);
        grows_on(d, first, mid);
        expr_stays(cx, d, mid, chain.last());
    } else {
        let kind = ProbeKindView::Branch { branch_id: b, path_id: 1 };
        let start = operand_opened(cx, first, is_or, kind, right.span);
        let mid = visited_expr(cx, start, right);
        last_expr_has(cx, start, chain);
        assert(grows(d, mid));
        expr_stays(cx, d, mid, chain.last());
    }
}

proof fn last_expr_in_list(cx: Context, c: Collected, exprs: Vec<Expr>, chain: Seq<Expr>)
    requires
        is_expr_chain(chain),
        exprs@.contains(chain[0]),
    ensures
        expr_is_probed(cx, visited_exprs(cx, c, exprs, exprs@.len()), chain.last()),
    decreases chain.len(), 1nat,
{
    let k = choose|k: int| 0 <= k < exprs@.len() && exprs@[k] == chain[0];
    let before = visited_exprs(cx, c, exprs, k as nat);
    let now = visited_exprs(cx, c, exprs, (k + 1) as nat);
    last_expr_has(cx, before, chain);
    assert(now == visited_expr(cx, before, exprs[k]));
    exprs_grow_between(cx, c, exprs, (k + 1) as nat, exprs@.len());
    expr_stays(cx, visited_exprs(cx, c, exprs, exprs@.len()), now, chain.last());
}

proof fn parts_have_exprs(cx: Context, c: Collected, stmt: Stmt, chain: Seq<Expr>)
    requires
        is_expr_chain(chain),
        is_expr_of(chain[0], stmt),
        is_simple(stmt),
    ensures
        expr_is_probed(cx, visited_parts(cx, c, stmt), chain.last()),
{
    match stmt.kind {
        StmtKind::DeclSingle(exprs) => last_expr_in_list(cx, c, exprs, chain),
        StmtKind::DeclMulti(exprs) => last_expr_in_list(cx, c, exprs, chain),
        StmtKind::Emit(exprs) => last_expr_in_list(cx, c, exprs, chain),
        StmtKind::Return(exprs) => last_expr_in_list(cx, c, exprs, chain),
        StmtKind::Revert(exprs) => last_expr_in_list(cx, c, exprs, chain),
        StmtKind::Expr(expr) => last_expr_has(cx, c, chain),
        _ => {},
    }
}

proof fn stmt_has_exprs(cx: Context, c: Collected, stmt: Stmt, chain: Seq<Expr>)
    requires
        is_expr_chain(chain),
        is_expr_of(chain[0], stmt),
    ensures
        expr_is_probed(cx, visited_stmt(cx, c, stmt), chain.last()),
{
    let d = visited_stmt(cx, c, stmt);
    let last = chain.last();
    match stmt.kind {
        StmtKind::Expr(expr) => {
            let start = if calls_require(expr) {
                required(cx, c, stmt.span)
            } else {
                probed(cx, c, ProbeKindView::Statement, stmt.span)
            };
            parts_have_exprs(cx, start, stmt, chain);
        },
        StmtKind::If(cond, body, other) => {
            let tested = visited_expr(cx, c, cond);
            let branch_id = tested.branches as u32;
            let kind = ProbeKindView::Branch { branch_id, path_id: 0 };
            let kind1 = ProbeKindView::Branch { branch_id, path_id: 1 };
            let start = with_branch(tested);
            let taken = visited_body(cx, start, *body, kind);
            last_expr_has(cx, c, chain);
            body_grows(cx, start, *body, kind);
            match other {
                Some(other) => body_grows(cx, taken, *other, kind1),
                None => passed_over_has(cx, taken, kind1, body.span),
            }
            grows_on(d, taken, start);
            assert(grows(start, tested));
            grows_on(d, start, tested);
            expr_stays(cx, d, tested, last);
        },
        StmtKind::Try(call, clauses) => {
            let called = visited_expr(cx, c, call);
            last_expr_has(cx, c, chain);
            clauses_grow(cx, with_branch(called), clauses, called.branches as u32, clauses@.len());
            assert(grows(with_branch(called), called));
            grows_on(d, with_branch(called), called);
            expr_stays(cx, d, called, last);
        },
        StmtKind::While(cond, body) => {
            let tested = visited_expr(cx, c, cond);
            last_expr_has(cx, c, chain);
            body_grows(cx, tested, *body, ProbeKindView::Statement);
            expr_stays(cx, d, tested, last);
        },
        StmtKind::DoWhile(body, cond) => {
            last_expr_has(cx, visited_body(cx, c, *body, ProbeKindView::Statement), chain);
        },
        StmtKind::For(exprs, body) => {
            let stepped = visited_exprs(cx, c, exprs, exprs@.len());
            last_expr_in_list(cx, c, exprs, chain);
            body_grows(cx, stepped, *body, ProbeKindView::Statement);
            expr_stays(cx, d, stepped, last);
        },
        StmtKind::Placeholder => {},
        StmtKind::Block(_) => {},
        StmtKind::UncheckedBlock(_) => {},
        _ => parts_have_exprs(cx, probed(cx, c, ProbeKindView::Statement, stmt.span), stmt, chain),
    }
}

proof fn visited_as_has_exprs(
    cx: Context,
    c: Collected,
    stmt: Stmt,
    kind: Option<ProbeKindView>,
    chain: Seq<Expr>,
)
    requires
        is_expr_chain(chain),
        is_expr_of(chain[0], stmt),
    ensures
        expr_is_probed(cx, visited_as(cx, c, stmt, kind), chain.last()),
{
    match kind {
        None => stmt_has_exprs(cx, c, stmt, chain),
        Some(kind) => {
            let d = visited_body(cx, c, stmt, kind);
            match stmt.kind {
                StmtKind::Block(_) => {},
                StmtKind::UncheckedBlock(_) => {},
                _ => {
                    let start = opened(cx, c, kind, stmt.span);
                    if has_own_probes(stmt) {
                        let mid = visited_stmt(cx, start, stmt);
                        stmt_has_exprs(cx, start, stmt, chain);
                        assert(grows(d, mid));
                        expr_stays(cx, d, mid, chain.last());
                    } else {
                        let mid = visited_parts(cx, start, stmt);
                        parts_have_exprs(cx, start, stmt, chain);
                        assert(grows(d, mid));
                        expr_stays(cx, d, mid, chain.last());
                    }
                },
            }
        },
    }
}

/// An assembly statement is directly inside another one.
pub open spec fn is_yul_child(inner: YulStmt, outer: YulStmt) -> bool {
    match outer.kind {
        YulStmtKind::Plain => false,
        YulStmtKind::Block(block) => block.stmts@.contains(inner),
        YulStmtKind::If(block) => block.stmts@.contains(inner),
        YulStmtKind::Switch(cases) => exists|k: int|
            0 <= k < cases@.len() && (#[trigger] cases@[k]).stmts@.contains(inner),
        YulStmtKind::For(init, step, body) => init.stmts@.contains(inner) || step.stmts@.contains(inner)
            || body.stmts@.contains(inner),
        YulStmtKind::Function(body) => body.stmts@.contains(inner),
    }
}

/// Every assembly statement of the chain but the first is directly inside the one before it.
pub open spec fn is_yul_chain(chain: Seq<YulStmt>) -> bool {
    &&& chain.len() > 0
    &&& forall|i: int| 0 <= i < chain.len() - 1 ==> is_yul_child(#[trigger] chain[i + 1], chain[i])
}

/// An assembly statement has the probes that it needs.
pub open spec fn yul_is_probed(cx: Context, c: Collected, stmt: YulStmt) -> bool {
    match stmt.kind {
        YulStmtKind::Plain => is_visible(cx.source, stmt.span) ==> has_probe(
            cx,
            c,
            ProbeKindView::Statement,
            stmt.span,
            stmt.span.lo as int,
        ),
        YulStmtKind::If(block) => exists|branch_id: u32|
            #[trigger] block_is_probed(cx, c, block.span, ProbeKindView::Branch { branch_id, path_id: 0 }),
        YulStmtKind::Switch(cases) => exists|branch_id: u32| #[trigger] cases_are_probed(cx, c, cases@, branch_id),
        YulStmtKind::For(_, _, body) => block_is_probed(cx, c, body.span, ProbeKindView::Statement),
        _ => true,
    }
}

/// The cases of a selection have probes with the same branch, each with the number of the case.
pub open spec fn cases_are_probed(cx: Context, c: Collected, cases: Seq<YulBlock>, branch_id: u32) -> bool {
    forall|k: int|
        0 <= k < cases.len() ==> block_is_probed(
            cx,
            c,
            (#[trigger] cases[k]).span,
            ProbeKindView::Branch { branch_id, path_id: k as u32 },
        )
}

proof fn yul_stays(cx: Context, d: Collected, c: Collected, stmt: YulStmt)
    requires
        grows(d, c),
        yul_is_probed(cx, c, stmt),
    ensures
        yul_is_probed(cx, d, stmt),
{
    match stmt.kind {
        YulStmtKind::Plain => {
            if is_visible(cx.source, stmt.span) {
                probe_stays(cx, d, c, ProbeKindView::Statement, stmt.span, stmt.span.lo as int);
            }
        },
        YulStmtKind::If(block) => {
            let b = choose|branch_id: u32|
                #[trigger] block_is_probed(cx, c, block.span, ProbeKindView::Branch { branch_id, path_id: 0 });
            block_stays(cx, d, c, block.span, ProbeKindView::Branch { branch_id: b, path_id: 0 });
        },
        YulStmtKind::Switch(cases) => {
            let b = choose|branch_id: u32| #[trigger] cases_are_probed(cx, c, cases@, branch_id);
            assert forall|k: int| 0 <= k < cases@.len() implies block_is_probed(
                cx,
                d,
                (#[trigger] cases@[k]).span,
                ProbeKindView::Branch { branch_id: b, path_id: k as u32 },
            ) by {
                block_stays(cx, d, c, cases@[k].span, ProbeKindView::Branch { branch_id: b, path_id: k as u32 });
            }
            assert(cases_are_probed(cx, d, cases@, b));
        },
        YulStmtKind::For(_, _, body) => block_stays(cx, d, c, body.span, ProbeKindView::Statement),
        _ => {},
    }
}

proof fn yuls_grow_between(cx: Context, c: Collected, stmts: Vec<YulStmt>, m: nat, n: nat)
    requires
        m <= n <= stmts@.len(),
    ensures
        grows(visited_yuls(cx, c, stmts, n), visited_yuls(cx, c, stmts, m)),
    decreases n,
{
    if m < n {
        let before = visited_yuls(cx, c, stmts, (n - 1) as nat);
        yuls_grow_between(cx, c, stmts, m, (n - 1) as nat);
        yul_grows(cx, before, stmts[n - 1]);
        grows_on(visited_yuls(cx, c, stmts, n), before, visited_yuls(cx, c, stmts, m));
    }
}

proof fn cases_grow_between(cx: Context, c: Collected, cases: Vec<YulBlock>, branch_id: u32, m: nat, n: nat)
    requires
        m <= n <= cases@.len(),
    ensures
        grows(visited_cases(cx, c, cases, branch_id, n), visited_cases(cx, c, cases, branch_id, m)),
    decreases n,
{
    if m < n {
        let before = visited_cases(cx, c, cases, branch_id, (n - 1) as nat);
        let kind = ProbeKindView::Branch { branch_id, path_id: (n - 1) as u32 };
        let case = cases[n - 1];
        let start = yul_entered(cx, before, kind, case.span);
        cases_grow_between(cx, c, cases, branch_id, m, (n - 1) as nat);
        yul_entered_has(cx, before, kind, case.span);
        yuls_grow(cx, start, case.stmts, case.stmts@.len());
        grows_on(visited_cases(cx, c, cases, branch_id, n), start, before);
        grows_on(visited_cases(cx, c, cases, branch_id, n), before, visited_cases(cx, c, cases, branch_id, m));
    }
}

proof fn visited_yul_has(cx: Context, c: Collected, stmt: YulStmt)
    ensures
        yul_is_probed(cx, visited_yul(cx, c, stmt), stmt),
{
    let d = visited_yul(cx, c, stmt);
    match stmt.kind {
        YulStmtKind::Plain => yul_probed_has(cx, c, stmt.span),
        YulStmtKind::If(block) => {
            let kind = ProbeKindView::Branch { branch_id: c.branches as u32, path_id: 0 };
            let start = yul_entered(cx, with_branch(c), kind, block.span);
            yul_entered_has(cx, with_branch(c), kind, block.span);
            yuls_grow(cx, start, block.stmts, block.stmts@.len());
            block_stays(cx, d, start, block.span, kind);
        },
        YulStmtKind::Switch(cases) => {
            let b = c.branches as u32;
            assert forall|k: int| 0 <= k < cases@.len() implies block_is_probed(
                cx,
                d,
                (#[trigger] cases@[k]).span,
                ProbeKindView::Branch { branch_id: b, path_id: k as u32 },
            ) by {
                let before = visited_cases(cx, with_branch(c), cases, b, k as nat);
                let kind = ProbeKindView::Branch { branch_id: b, path_id: k as u32 };
                let case = cases[k];
                let start = yul_entered(cx, before, kind, case.span);
                let now = visited_cases(cx, with_branch(c), cases, b, (k + 1) as nat);
                yul_entered_has(cx, before, kind, case.span);
                yuls_grow(cx, start, case.stmts, case.stmts@.len());
                assert(now == visited_yuls(cx, start, case.stmts, case.stmts@.len()));
                cases_grow_between(cx, with_branch(c), cases, b, (k + 1) as nat, cases@.len());
                grows_on(d, now, start);
                block_stays(cx, d, start, case.span, kind);
            }
            assert(cases_are_probed(cx, d, cases@, b));
        },
        YulStmtKind::For(init, step, body) => {
            let before = visited_yuls(cx, c, init.stmts, init.stmts@.len());
            let after = visited_yuls(cx, before, step.stmts, step.stmts@.len());
            let start = yul_entered(cx, after, ProbeKindView::Statement, body.span);
            yul_entered_has(cx, after, ProbeKindView::Statement, body.span);
            yuls_grow(cx, start, body.stmts, body.stmts@.len());
            block_stays(cx, d, start, body.span, ProbeKindView::Statement);
        },
        _ => {},
    }
}

proof fn last_yul_has(cx: Context, c: Collected, chain: Seq<YulStmt>)
    requires
        is_yul_chain(chain),
    ensures
        yul_is_probed(cx, visited_yul(cx, c, chain[0]), chain.last()),
    decreases chain.len(), 0nat,
{
    let outer = chain[0];
    let d = visited_yul(cx, c, outer);
    let last = chain.last();
    if chain.len() == 1 {
        visited_yul_has(cx, c, outer);
    } else {
        let rest = chain.skip(1);
        let inner = chain[1];
        assert(rest[0] == inner && rest.last() == last);
        assert forall|i: int| 0 <= i < rest.len() - 1 implies is_yul_child(#[trigger] rest[i + 1], rest[i]) by {
            assert(rest[i + 1] == chain[(i + 1) + 1] && rest[i] == chain[i + 1]);
        }
        assert(is_yul_child(chain[0int + 1], chain[0]));
        match outer.kind {
            YulStmtKind::Plain => {},
            YulStmtKind::Block(block) => last_yul_in_list(cx, c, block.stmts, rest),
            YulStmtKind::If(block) => {
                let kind = ProbeKindView::Branch { branch_id: c.branches as u32, path_id: 0 };
                last_yul_in_list(cx, yul_entered(cx, with_branch(c), kind, block.span), block.stmts, rest);
            },
            YulStmtKind::Switch(cases) => {
                let b = c.branches as u32;
                let k = choose|k: int| 0 <= k < cases@.len() && (#[trigger] cases@[k]).stmts@.contains(inner);
                let before = visited_cases(cx, with_branch(c), cases, b, k as nat);
                let kind = ProbeKindView::Branch { branch_id: b, path_id: k as u32 };
                let case = cases[k];
                let start = yul_entered(cx, before, kind, case.span);
                let now = visited_cases(cx, with_branch(c), cases, b, (k + 1) as nat);
                last_yul_in_list(cx, start, case.stmts, rest);
                assert(now == visited_yuls(cx, start, case.stmts, case.stmts@.len()));
                cases_grow_between(cx, with_branch(c), cases, b, (k + 1) as nat, cases@.len());
                yul_stays(cx, d, now, last);
            },
            YulStmtKind::For(init, step, body) => {
                let before = visited_yuls(cx, c, init.stmts, init.stmts@.len());
                let after = visited_yuls(cx, before, step.stmts, step.stmts@.len());
                let start = yul_entered(cx, after, ProbeKindView::Statement, body.span);
                yul_entered_has(cx, after, ProbeKindView::Statement, body.span);
                yuls_grow(cx, before, step.stmts, step.stmts@.len());
                yuls_grow(cx, start, body.stmts, body.stmts@.len());
                grows_on(d, start, after);
                grows_on(d, after, before);
                if init.stmts@.contains(inner) {
                    last_yul_in_list(cx, c, init.stmts, rest);
                    yul_stays(cx, d, before, last);
                } else if step.stmts@.contains(inner) {
                    last_yul_in_list(cx, before, step.stmts, rest);
                    yul_stays(cx, d, after, last);
                } else {
                    last_yul_in_list(cx, start, body.stmts, rest);
                }
            },
            YulStmtKind::Function(body) => last_yul_in_list(cx, c, body.stmts, rest),
        }
    }
}

proof fn last_yul_in_list(cx: Context, c: Collected, stmts: Vec<YulStmt>, chain: Seq<YulStmt>)
    requires
        is_yul_chain(chain),
        stmts@.contains(chain[0]),
    ensures
        yul_is_probed(cx, visited_yuls(cx, c, stmts, stmts@.len()), chain.last()),
    decreases chain.len(), 1nat,
{
    let k = choose|k: int| 0 <= k < stmts@.len() && stmts@[k] == chain[0];
    let before = visited_yuls(cx, c, stmts, k as nat);
    let now = visited_yuls(cx, c, stmts, (k + 1) as nat);
    last_yul_has(cx, before, chain);
    assert(now == visited_yul(cx, before, stmts[k]));
    yuls_grow_between(cx, c, stmts, (k + 1) as nat, stmts@.len());
    yul_stays(cx, visited_yuls(cx, c, stmts, stmts@.len()), now, chain.last());
}

/// The assembly statement is one of those directly in a statement.
pub open spec fn is_yul_of(yul: YulStmt, stmt: Stmt) -> bool {
    match stmt.kind {
        StmtKind::Assembly(block) => block.stmts@.contains(yul),
        _ => false,
    }
}

proof fn visited_as_has_yul(
    cx: Context,
    c: Collected,
    stmt: Stmt,
    kind: Option<ProbeKindView>,
    chain: Seq<YulStmt>,
)
    requires
        cx.mode == ProbeMode::Direct,
        is_yul_chain(chain),
        is_yul_of(chain[0], stmt),
    ensures
        yul_is_probed(cx, visited_as(cx, c, stmt, kind), chain.last()),
{
    let block = stmt.kind->Assembly_0;
    match kind {
        None => {
            last_yul_in_list(cx, probed(cx, c, ProbeKindView::Statement, stmt.span), block.stmts, chain);
        },
        Some(kind) => {
            let start = opened(cx, c, kind, stmt.span);
            let mid = visited_parts(cx, start, stmt);
            last_yul_in_list(cx, start, block.stmts, chain);
            let d = visited_body(cx, c, stmt, kind);
            assert(grows(d, mid));
            yul_stays(cx, d, mid, chain.last());
        },
    }
}

/// The function gets probes: it has a body, does more than receive, and no comment leaves it out.
pub open spec fn gets_probes(source: Seq<u8>, func: ItemFunction) -> bool {
    func.body is Some && !is_skipped(source, func)
}

/// The context inside a function: code in it reports by assembly, unless it must not read the state or is put into
/// functions that must not.
pub open spec fn inside(cx: Context, func: ItemFunction) -> Context {
    Context {
        mode: if func.is_pure || func.kind == FunctionKind::Modifier {
            ProbeMode::Library
        } else {
            ProbeMode::Direct
        },
        ..cx
    }
}

/// An item is directly in another one.
pub open spec fn is_item_of(inner: Item, outer: Item) -> bool {
    match outer {
        Item::Contract(_, items) => items@.contains(inner),
        _ => false,
    }
}

/// Every item of the chain but the first is directly in the one before it.
pub open spec fn is_item_chain(chain: Seq<Item>) -> bool {
    &&& chain.len() > 0
    &&& forall|i: int| 0 <= i < chain.len() - 1 ==> is_item_of(#[trigger] chain[i + 1], chain[i])
}

/// The name of the contract directly around the last item of a chain.
pub open spec fn contract_around(chain: Seq<Item>) -> Seq<char> {
    if chain.len() < 2 {
        Seq::empty()
    } else {
        match chain[chain.len() - 2] {
            Item::Contract(name, _) => name@,
            _ => Seq::empty(),
        }
    }
}

proof fn function_grows(cx: Context, c: Collected, func: ItemFunction)
    ensures
        grows(visited_function(cx, c, func), c),
{
    if visited_function(cx, c, func) != c {
        let body = func.body->0;
        let inner = Context { mode: mode_of(func), ..cx };
        let kind = ProbeKindView::Function { name: function_name(func) };
        let start = entered(inner, c, kind, body.span);
        let called = visited_exprs(inner, start, func.arguments, func.arguments@.len());
        entered_has(inner, c, kind, body.span);
        exprs_grow(inner, start, func.arguments, func.arguments@.len());
        stmts_grow(inner, called, body.stmts, body.stmts@.len());
        grows_on(called, start, c);
        grows_on(visited_function(cx, c, func), called, c);
    }
}

proof fn item_grows(cx: Context, c: Collected, item: Item)
    ensures
        grows(visited_item(cx, c, item), c),
    decreases item, 0nat,
{
    match item {
        Item::Contract(name, items) => items_grow(Context { contract: name@, ..cx }, c, items, items@.len()),
        Item::Function(func) => function_grows(cx, c, func),
        Item::Other => {},
    }
}

proof fn items_grow(cx: Context, c: Collected, items: Vec<Item>, n: nat)
    ensures
        grows(visited_items(cx, c, items, n), c),
    decreases items, n,
{
    if n != 0 && n <= items@.len() {
        let before = visited_items(cx, c, items, (n - 1) as nat);
        items_grow(cx, c, items, (n - 1) as nat);
        item_grows(cx, before, items[n - 1]);
        grows_on(visited_items(cx, c, items, n), before, c);
    }
}

proof fn items_grow_between(cx: Context, c: Collected, items: Vec<Item>, m: nat, n: nat)
    requires
        m <= n <= items@.len(),
    ensures
        grows(visited_items(cx, c, items, n), visited_items(cx, c, items, m)),
    decreases n,
{
    if m < n {
        let before = visited_items(cx, c, items, (n - 1) as nat);
        items_grow_between(cx, c, items, m, (n - 1) as nat);
        item_grows(cx, before, items[n - 1]);
        grows_on(visited_items(cx, c, items, n), before, visited_items(cx, c, items, m));
    }
}

/// The last item of a chain is visited while the items that hold the first one are.
proof fn last_item_is_visited(cx: Context, c: Collected, items: Vec<Item>, chain: Seq<Item>) -> (from: Collected)
    requires
        is_item_chain(chain),
        items@.contains(chain[0]),
    ensures
        grows(
            visited_items(cx, c, items, items@.len()),
            visited_item(
                Context { contract: if chain.len() < 2 { cx.contract } else { contract_around(chain) }, ..cx },
                from,
                chain.last(),
            ),
        ),
    decreases chain.len(),
{
    let k = choose|k: int| 0 <= k < items@.len() && items@[k] == chain[0];
    let before = visited_items(cx, c, items, k as nat);
    let now = visited_items(cx, c, items, (k + 1) as nat);
    let whole = visited_items(cx, c, items, items@.len());
    assert(now == visited_item(cx, before, items[k]));
    items_grow_between(cx, c, items, (k + 1) as nat, items@.len());
    if chain.len() == 1 {
        before
    } else {
        let rest = chain.skip(1);
        assert(rest[0] == chain[0int + 1] && rest.last() == chain.last());
        assert(is_item_of(chain[0int + 1], chain[0]));
        assert forall|i: int| 0 <= i < rest.len() - 1 implies is_item_of(#[trigger] rest[i + 1], rest[i]) by {
            assert(rest[i + 1] == chain[(i + 1) + 1] && rest[i] == chain[i + 1]);
        }
        match chain[0] {
            Item::Contract(name, inner) => {
                assert(inner@.contains(chain[0int + 1]));
                let cx1 = Context { contract: name@, ..cx };
                let from = last_item_is_visited(cx1, before, inner, rest);
                if rest.len() >= 2 {
                    assert(rest[rest.len() - 2] == chain[chain.len() - 2]);
                }
                let cx2 = Context { contract: contract_around(chain), ..cx };
                assert(cx2 == Context {
                    contract: if rest.len() < 2 { cx1.contract } else { contract_around(rest) },
                    ..cx1
                });
                grows_on(whole, now, visited_item(cx2, from, chain.last()));
                from
            },
            _ => {
                assert(false);
                before
            },
        }
    }
}

/// The context of a function of a source.
pub open spec fn context_of(
    path: Seq<char>,
    source: Seq<u8>,
    version: Version,
    items: Seq<Item>,
    func: ItemFunction,
) -> Context {
    inside(
        Context { version, path, source, contract: contract_around(items), mode: ProbeMode::Direct },
        func,
    )
}

/// The body of a function is visited while its source is.
proof fn body_is_visited(
    path: Seq<char>,
    source: Seq<u8>,
    version: Version,
    unit: SourceUnit,
    items: Seq<Item>,
    func: ItemFunction,
) -> (from: Collected)
    requires
        is_item_chain(items),
        unit.items@.contains(items[0]),
        items.last() == Item::Function(func),
        gets_probes(source, func),
    ensures
        ({
            let cx = context_of(path, source, version, items, func);
            let all = collected_from(path, source, version, unit);
            let kind = ProbeKindView::Function { name: function_name(func) };
            let start = entered(cx, from, kind, func.body->0.span);
            let called = visited_exprs(cx, start, func.arguments, func.arguments@.len());
            &&& grows(all, visited_stmts(cx, called, func.body->0.stmts, func.body->0.stmts@.len()))
            &&& grows(all, called)
            &&& grows(all, start)
        }),
{
    let outer = Context { version, path, source, contract: Seq::empty(), mode: ProbeMode::Direct };
    let none = Collected { updates: Seq::empty(), probes: Seq::empty(), branches: 0 };
    let all = collected_from(path, source, version, unit);
    let from = last_item_is_visited(outer, none, unit.items, items);
    let around = Context { contract: contract_around(items), ..outer };
    assert(contract_around(items) == (if items.len() < 2 { outer.contract } else { contract_around(items) }));
    let cx = context_of(path, source, version, items, func);
    assert(cx == Context { mode: mode_of(func), ..around });
    let kind = ProbeKindView::Function { name: function_name(func) };
    let body = func.body->0;
    let start = entered(cx, from, kind, body.span);
    let called = visited_exprs(cx, start, func.arguments, func.arguments@.len());
    let done = visited_stmts(cx, called, body.stmts, body.stmts@.len());
    assert(visited_item(around, from, items.last()) == done);
    stmts_grow(cx, called, body.stmts, body.stmts@.len());
    exprs_grow(cx, start, func.arguments, func.arguments@.len());
    grows_on(all, done, called);
    grows_on(all, called, start);
    from
}

/// Every function that gets probes has one behind the brace of its body, with its name and byte range and the name
/// of the contract around it. A constructor and a fallback function have the word for them as a name.
pub proof fn every_function_is_probed(
    path: Seq<char>,
    source: Seq<u8>,
    version: Version,
    unit: SourceUnit,
    items: Seq<Item>,
    func: ItemFunction,
) -> (name: Seq<char>)
    requires
        is_item_chain(items),
        unit.items@.contains(items[0]),
        items.last() == Item::Function(func),
        gets_probes(source, func),
    ensures
        block_is_probed(
            context_of(path, source, version, items, func),
            collected_from(path, source, version, unit),
            func.body->0.span,
            ProbeKindView::Function { name },
        ),
        func.name is Some ==> name == func.name->0@,
        func.name is None && func.kind == FunctionKind::Constructor ==> name == "constructor"@,
        func.name is None && func.kind == FunctionKind::Fallback ==> name == "fallback"@,
{
    let cx = context_of(path, source, version, items, func);
    let all = collected_from(path, source, version, unit);
    let name = function_name(func);
    let kind = ProbeKindView::Function { name };
    let from = body_is_visited(path, source, version, unit, items, func);
    entered_has(cx, from, kind, func.body->0.span);
    block_stays(cx, all, entered(cx, from, kind, func.body->0.span), func.body->0.span, kind);
    name
}

/// A function is left out only if it receives, or if the comment that says so comes before it with nothing that can
/// be seen between.
pub proof fn left_out_for_a_reason(source: Seq<u8>, func: ItemFunction) -> (at: int)
    requires
        func.start <= source.len(),
        func.body is Some,
        !gets_probes(source, func),
    ensures
        func.kind == FunctionKind::Receive || {
            let comment = encode_utf8("// istanbul ignore next"@);
            &&& 0 <= at && at + comment.len() <= func.start
            &&& source.subrange(at, at + comment.len()) == comment
            &&& forall|i: int| at + comment.len() <= i < func.start ==> !(0x21 <= #[trigger] source[i] <= 0x7e)
        },
{
    only_space_is_trimmed(source, 0, func.start as int);
    trimmed(source, 0, func.start as int) - encode_utf8("// istanbul ignore next"@).len()
}

/// A function that receives is left out, and so is one with the comment before it and nothing but blanks and line
/// breaks between.
pub proof fn comment_leaves_out(source: Seq<u8>, func: ItemFunction, at: int)
    requires
        func.start <= source.len(),
        func.kind == FunctionKind::Receive || {
            let comment = encode_utf8("// istanbul ignore next"@);
            &&& 0 <= at && at + comment.len() <= func.start
            &&& source.subrange(at, at + comment.len()) == comment
            &&& forall|i: int|
                at + comment.len() <= i < func.start ==> #[trigger] source[i] == 0x20 || 0x09 <= source[i] <= 0x0d
        },
    ensures
        !gets_probes(source, func),
{
    if func.kind != FunctionKind::Receive {
        let comment = encode_utf8("// istanbul ignore next"@);
        let end = at + comment.len();
        reveal_strlit("// istanbul ignore next");
        let chars = "// istanbul ignore next"@;
        is_ascii_chars_encode_utf8(chars);
        assert(comment.len() == 23);
        assert(chars[22] == 't');
        assert(comment[22] == 0x74);
        assert(source.subrange(at, end)[22] == source[end - 1]);
        all_space_is_trimmed(source, 0, end, func.start as int);
    }
}

/// What is inserted in an expression leaves its value as it is: an operand of a disjunction is put behind a call that
/// gives `false`, one of a conjunction behind a call that gives `true`, and a condition is given back by the call that
/// reports it.
pub proof fn inserted_calls_keep_values(tag: Seq<u8>, other: Seq<u8>)
    ensures
        operand_text(true, tag) == "(__FoundryCoverage.hitFalse(0x"@ + hex(tag) + ") || "@,
        operand_text(false, tag) == "(__FoundryCoverage.hitTrue(0x"@ + hex(tag) + ") && "@,
        condition_text(tag, other) == ") ? __FoundryCoverage.hitTrue(0x"@ + hex(tag)
            + ") : __FoundryCoverage.hitFalse(0x"@ + hex(other) + "))"@,
{
    reveal_strlit("(");
    reveal_strlit(")");
    reveal_strlit("))");
    reveal_strlit(" || ");
    reveal_strlit(" && ");
    reveal_strlit(") || ");
    reveal_strlit(") && ");
    reveal_strlit(") ? ");
    reveal_strlit(" : ");
    reveal_strlit("__FoundryCoverage.hitTrue(0x");
    reveal_strlit("__FoundryCoverage.hitFalse(0x");
    reveal_strlit("(__FoundryCoverage.hitTrue(0x");
    reveal_strlit("(__FoundryCoverage.hitFalse(0x");
    reveal_strlit(") ? __FoundryCoverage.hitTrue(0x");
    reveal_strlit(") : __FoundryCoverage.hitFalse(0x");
    assert(operand_text(true, tag) =~= "(__FoundryCoverage.hitFalse(0x"@ + hex(tag) + ") || "@);
    assert(operand_text(false, tag) =~= "(__FoundryCoverage.hitTrue(0x"@ + hex(tag) + ") && "@);
    assert(condition_text(tag, other) =~= ") ? __FoundryCoverage.hitTrue(0x"@ + hex(tag)
        + ") : __FoundryCoverage.hitFalse(0x"@ + hex(other) + "))"@);
}

/// The letter as a small one.
pub open spec fn small_letter(c: char) -> char {
    if c == 'B' {
        'b'
    } else if c == 'C' {
        'c'
    } else if c == 'E' {
        'e'
    } else {
        c
    }
}

/// From an offset on the text stores a tag and sends it to the address that the collector of hits listens to, by a static
/// call with the thirty-two bytes of the tag.
pub open spec fn sends_tag_at(text: Seq<char>, k: int, tag: Seq<u8>) -> bool {
    let stored = "mstore(0x00, 0x"@ + hex(tag) + ") pop(staticcall(gas(), 0x"@;
    let sent = ", 0x00, 0x20, 0, 0))"@;
    let m = k + stored.len();
    &&& 0 <= k && m + 40 + sent.len() <= text.len()
    &&& text.subrange(k, m) == stored
    &&& forall|i: int| 0 <= i < 40 ==> small_letter(#[trigger] text[m + i]) == hex(FOUNDRY_COVERAGE_ADDRESS@)[i]
    &&& text.subrange(m + 40, m + 40 + sent.len()) == sent
}

/// A probe that reports by assembly, between statements or between assembly statements, sends its tag to the address
/// that the collector of hits listens to.
pub proof fn probes_call_where_hits_are_collected(source: Seq<u8>, tag: Seq<u8>)
    ensures
        exists|k: int| sends_tag_at(probe_text(ProbeMode::Direct, tag), k, tag),
        exists|k: int| sends_tag_at(yul_probe_text(source, tag), k, tag),
{
    let head = "/// @solidity memory-safe-assembly\nassembly { mstore(0x00, 0x"@;
    let tail = ") pop(staticcall(gas(), 0xc0bEc0BEc0BeC0bEC0beC0bEC0bEC0beC0beC0BE, 0x00, 0x20, 0, 0)) }\n"@;
    reveal_strlit("/// @solidity memory-safe-assembly\nassembly { mstore(0x00, 0x");
    reveal_strlit(") pop(staticcall(gas(), 0xc0bEc0BEc0BeC0bEC0beC0bEC0bEC0beC0beC0BE, 0x00, 0x20, 0, 0)) }\n");
    reveal_strlit("mstore(0x00, 0x");
    reveal_strlit(") pop(staticcall(gas(), 0xc0bEc0BEc0BeC0bEC0beC0bEC0bEC0beC0beC0BE, 0x00, 0x20, 0, 0))");
    let k = head.len() - 15;
    assert forall|i: int| 0 <= i < 15 implies #[trigger] head[k + i] == "mstore(0x00, 0x"@[i] by {}
    sending_text(head, k, tag, tail);
    assert(sends_tag_at(probe_text(ProbeMode::Direct, tag), head.len() - 15, tag));
    let name = scratch_name(source);
    let store = " := mload(0x00) mstore(0x00, 0x"@;
    let head = "{ let "@ + name + store;
    let begin = ") pop(staticcall(gas(), 0xc0bEc0BEc0BeC0bEC0beC0bEC0bEC0beC0beC0BE, 0x00, 0x20, 0, 0)) mstore(0x00, "@;
    let tail = begin + name + ") } "@;
    reveal_strlit(" := mload(0x00) mstore(0x00, 0x");
    reveal_strlit(") pop(staticcall(gas(), 0xc0bEc0BEc0BeC0bEC0beC0bEC0bEC0beC0beC0BE, 0x00, 0x20, 0, 0)) mstore(0x00, ");
    assert forall|i: int| 0 <= i < 31 implies #[trigger] head[head.len() - 31 + i] == store[i] by {}
    assert forall|i: int| 0 <= i < begin.len() implies #[trigger] tail[i] == begin[i] by {}
    assert(yul_probe_text(source, tag) =~= head + hex(tag) + tail);
    let k = head.len() - 15;
    assert forall|i: int| 0 <= i < 15 implies #[trigger] head[k + i] == "mstore(0x00, 0x"@[i] by {
        assert(head[head.len() - 31 + (16 + i)] == store[16 + i]);
        assert(store[16 + i] == "mstore(0x00, 0x"@[i]);
    }
    sending_text(head, k, tag, tail);
    assert(sends_tag_at(yul_probe_text(source, tag), head.len() - 15, tag));
}

proof fn sending_text(head: Seq<char>, k: int, tag: Seq<u8>, tail: Seq<char>)
    requires
        k == head.len() - 15,
        k >= 0,
        tail.len() >= 86,
        ({
            let stored = "mstore(0x00, 0x"@;
            forall|i: int| 0 <= i < 15 ==> #[trigger] head[k + i] == stored[i]
        }),
        ({
            let sent = ") pop(staticcall(gas(), 0xc0bEc0BEc0BeC0bEC0beC0bEC0bEC0beC0beC0BE, 0x00, 0x20, 0, 0))"@;
            forall|i: int| 0 <= i < 86 ==> #[trigger] tail[i] == sent[i]
        }),
    ensures
        sends_tag_at(head + hex(tag) + tail, k, tag),
{
    let sending = ") pop(staticcall(gas(), 0xc0bEc0BEc0BeC0bEC0beC0bEC0bEC0beC0beC0BE, 0x00, 0x20, 0, 0))"@;
    let stored = "mstore(0x00, 0x"@ + hex(tag) + ") pop(staticcall(gas(), 0x"@;
    let sent = ", 0x00, 0x20, 0, 0))"@;
    let text = head + hex(tag) + tail;
    reveal_strlit("mstore(0x00, 0x");
    reveal_strlit(") pop(staticcall(gas(), 0x");
    reveal_strlit(", 0x00, 0x20, 0, 0))");
    reveal_strlit(") pop(staticcall(gas(), 0xc0bEc0BEc0BeC0bEC0beC0bEC0bEC0beC0beC0BE, 0x00, 0x20, 0, 0))");
    let m = k + stored.len();
    let n = head.len() + hex(tag).len();
    let part = text.subrange(k, m);
    assert forall|i: int| 0 <= i < stored.len() implies #[trigger] part[i] == stored[i] by {
        assert(part[i] == text[k + i]);
        if i < 15 {
            assert(head[k + i] == "mstore(0x00, 0x"@[i]);
        } else if i < 15 + hex(tag).len() {
            assert(text[k + i] == hex(tag)[i - 15]);
        } else {
            let j = i - 15 - hex(tag).len();
            assert(text[k + i] == tail[j]);
            assert(tail[j] == sending[j]);
            assert(sending[j] == ") pop(staticcall(gas(), 0x"@[j]);
        }
    }
    assert(part =~= stored);
    address_letters();
    assert forall|i: int| 0 <= i < 40 implies small_letter(#[trigger] text[m + i]) == hex(FOUNDRY_COVERAGE_ADDRESS@)[i] by {
        assert(text[m + i] == tail[26 + i]);
        assert(tail[26 + i] == sending[26 + i]);
    }
    let rest = text.subrange(m + 40, m + 40 + sent.len());
    assert forall|i: int| 0 <= i < 20 implies #[trigger] rest[i] == sent[i] by {
        assert(rest[i] == text[m + 40 + i]);
        assert(text[m + 40 + i] == tail[66 + i]);
        assert(tail[66 + i] == sending[66 + i]);
        assert(sending[66 + i] == sent[i]);
    }
    assert(rest =~= sent);
}

proof fn address_letters()
    ensures
        ({
            let sending = ") pop(staticcall(gas(), 0xc0bEc0BEc0BeC0bEC0beC0bEC0bEC0beC0beC0BE, 0x00, 0x20, 0, 0))"@;
            forall|i: int|
                0 <= i < 40 ==> small_letter(#[trigger] sending[26 + i]) == hex(FOUNDRY_COVERAGE_ADDRESS@)[i]
        }),
{
    let sending = ") pop(staticcall(gas(), 0xc0bEc0BEc0BeC0bEC0beC0bEC0bEC0beC0beC0BE, 0x00, 0x20, 0, 0))"@;
    reveal_strlit(") pop(staticcall(gas(), 0xc0bEc0BEc0BeC0bEC0beC0bEC0bEC0beC0beC0BE, 0x00, 0x20, 0, 0))");
    let address = FOUNDRY_COVERAGE_ADDRESS@;
    hex_shows_every_byte(address);
    assert forall|i: int| 0 <= i < 20 implies #[trigger] address[i] == (if i % 2 == 0 { 0xc0u8 } else { 0xbeu8 }) by {
        assert(FOUNDRY_COVERAGE_ADDRESS[i] == (if i % 2 == 0 { 0xc0u8 } else { 0xbeu8 }));
    }
    let letters = |i: int|
        if i % 4 == 0 {
            'c'
        } else if i % 4 == 1 {
            '0'
        } else if i % 4 == 2 {
            'b'
        } else {
            'e'
        };
    assert forall|i: int| 0 <= i < 40 implies #[trigger] hex(address)[i] == letters(i) by {
        let j = i / 2;
        assert(address[j] == (if j % 2 == 0 { 0xc0u8 } else { 0xbeu8 }));
        assert(i == 2 * j || i == 2 * j + 1);
    }
    assert forall|i: int| 0 <= i < 40 implies small_letter(#[trigger] sending[26 + i]) == letters(i) by {}
}

/// A call is one of `require` by the name of what is called, and parentheses change nothing.
pub proof fn requirements_are_told_by_name(expr: Expr)
    ensures
        match expr.kind {
            ExprKind::Paren(inner) => calls_require(expr) == calls_require(*inner),
            ExprKind::Call(callee, args) => match callee.kind {
                ExprKind::Ident(name) => calls_require(expr) == (name@ == "require"@),
                ExprKind::Paren(inner) => calls_require(expr) == calls_require(
                    (Expr { span: expr.span, kind: ExprKind::Call(inner, args) }),
                ),
                _ => !calls_require(expr),
            },
            _ => !calls_require(expr),
        },
{
    match expr.kind {
        ExprKind::Call(callee, args) => match callee.kind {
            ExprKind::Paren(inner) => {
                let same = Expr { span: expr.span, kind: ExprKind::Call(inner, args) };
                assert(peeled(same) == same && peeled(expr) == expr);
                assert(peeled(*callee) == peeled(*inner));
            },
            _ => {
                assert(peeled(*callee) == *callee);
            },
        },
        _ => {},
    }
}

/// Every statement that can be reached in the body of a function that gets probes, through blocks of any kind, bodies
/// of loops and of `if`, and clauses, has the probes that it needs, and code that reports them is inserted.
pub proof fn every_statement_is_probed(
    path: Seq<char>,
    source: Seq<u8>,
    version: Version,
    unit: SourceUnit,
    items: Seq<Item>,
    func: ItemFunction,
    chain: Seq<Stmt>,
)
    requires
        is_item_chain(items),
        unit.items@.contains(items[0]),
        items.last() == Item::Function(func),
        gets_probes(source, func),
        is_chain(chain),
        func.body->0.stmts@.contains(chain[0]),
    ensures
        stmt_is_probed(
            context_of(path, source, version, items, func),
            collected_from(path, source, version, unit),
            chain.last(),
            chain.len() == 1 || !is_body(chain.last(), chain[chain.len() - 2]),
        ),
{
    let cx = context_of(path, source, version, items, func);
    let all = collected_from(path, source, version, unit);
    let found = statement_is_visited(path, source, version, unit, items, func, chain);
    visited_as_has(cx, found.0, chain.last(), found.1);
    stmt_stays(cx, all, visited_as(cx, found.0, chain.last(), found.1), chain.last(), found.1 is None);
}

proof fn statement_is_visited(
    path: Seq<char>,
    source: Seq<u8>,
    version: Version,
    unit: SourceUnit,
    items: Seq<Item>,
    func: ItemFunction,
    chain: Seq<Stmt>,
) -> (found: (Collected, Option<ProbeKindView>))
    requires
        is_item_chain(items),
        unit.items@.contains(items[0]),
        items.last() == Item::Function(func),
        gets_probes(source, func),
        is_chain(chain),
        func.body->0.stmts@.contains(chain[0]),
    ensures
        grows(
            collected_from(path, source, version, unit),
            visited_as(context_of(path, source, version, items, func), found.0, chain.last(), found.1),
        ),
        chain.len() == 1 || !is_body(chain.last(), chain[chain.len() - 2]) ==> found.1 is None,
{
    let cx = context_of(path, source, version, items, func);
    let all = collected_from(path, source, version, unit);
    let from = body_is_visited(path, source, version, unit, items, func);
    let kind = ProbeKindView::Function { name: function_name(func) };
    let start = entered(cx, from, kind, func.body->0.span);
    let called = visited_exprs(cx, start, func.arguments, func.arguments@.len());
    let stmts = func.body->0.stmts;
    let found = last_in_list(cx, called, stmts, chain);
    if chain.len() > 1 {
        let n = chain.len() - 2;
        assert(is_body(chain[n + 1], chain[n]) || is_listed(chain[n + 1], chain[n]));
    }
    grows_on(all, visited_stmts(cx, called, stmts, stmts@.len()), visited_as(cx, found.0, chain.last(), found.1));
    found
}

/// Every disjunction, conjunction and choice in an expression of a statement that can be reached has a probe for
/// either way that it can go.
pub proof fn every_expression_is_probed(
    path: Seq<char>,
    source: Seq<u8>,
    version: Version,
    unit: SourceUnit,
    items: Seq<Item>,
    func: ItemFunction,
    chain: Seq<Stmt>,
    exprs: Seq<Expr>,
)
    requires
        is_item_chain(items),
        unit.items@.contains(items[0]),
        items.last() == Item::Function(func),
        gets_probes(source, func),
        is_chain(chain),
        func.body->0.stmts@.contains(chain[0]),
        is_expr_chain(exprs),
        is_expr_of(exprs[0], chain.last()),
    ensures
        expr_is_probed(
            context_of(path, source, version, items, func),
            collected_from(path, source, version, unit),
            exprs.last(),
        ),
{
    let cx = context_of(path, source, version, items, func);
    let all = collected_from(path, source, version, unit);
    let found = statement_is_visited(path, source, version, unit, items, func, chain);
    visited_as_has_exprs(cx, found.0, chain.last(), found.1, exprs);
    expr_stays(cx, all, visited_as(cx, found.0, chain.last(), found.1), exprs.last());
}

/// So has every one in the arguments of a function's modifiers and base constructors.
pub proof fn every_argument_is_probed(
    path: Seq<char>,
    source: Seq<u8>,
    version: Version,
    unit: SourceUnit,
    items: Seq<Item>,
    func: ItemFunction,
    exprs: Seq<Expr>,
)
    requires
        is_item_chain(items),
        unit.items@.contains(items[0]),
        items.last() == Item::Function(func),
        gets_probes(source, func),
        is_expr_chain(exprs),
        func.arguments@.contains(exprs[0]),
    ensures
        expr_is_probed(
            context_of(path, source, version, items, func),
            collected_from(path, source, version, unit),
            exprs.last(),
        ),
{
    let cx = context_of(path, source, version, items, func);
    let all = collected_from(path, source, version, unit);
    let from = body_is_visited(path, source, version, unit, items, func);
    let kind = ProbeKindView::Function { name: function_name(func) };
    let start = entered(cx, from, kind, func.body->0.span);
    last_expr_in_list(cx, start, func.arguments, exprs);
    expr_stays(cx, all, visited_exprs(cx, start, func.arguments, func.arguments@.len()), exprs.last());
}

/// Every assembly statement that can be reached in a function that may read the state has the probes that it needs.
pub proof fn every_assembly_statement_is_probed(
    path: Seq<char>,
    source: Seq<u8>,
    version: Version,
    unit: SourceUnit,
    items: Seq<Item>,
    func: ItemFunction,
    chain: Seq<Stmt>,
    yuls: Seq<YulStmt>,
)
    requires
        is_item_chain(items),
        unit.items@.contains(items[0]),
        items.last() == Item::Function(func),
        gets_probes(source, func),
        !func.is_pure && func.kind != FunctionKind::Modifier,
        is_chain(chain),
        func.body->0.stmts@.contains(chain[0]),
        is_yul_chain(yuls),
        is_yul_of(yuls[0], chain.last()),
    ensures
        yul_is_probed(
            context_of(path, source, version, items, func),
            collected_from(path, source, version, unit),
            yuls.last(),
        ),
{
    let cx = context_of(path, source, version, items, func);
    let all = collected_from(path, source, version, unit);
    let found = statement_is_visited(path, source, version, unit, items, func, chain);
    visited_as_has_yul(cx, found.0, chain.last(), found.1, yuls);
    yul_stays(cx, all, visited_as(cx, found.0, chain.last(), found.1), yuls.last());
}

}
