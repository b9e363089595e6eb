//! Collects the probes of a source and the insertions that report them.
use crate::ast::{
    calls_require, cases_ok, clauses_ok, expr_ok, exprs_ok, function_ok, item_ok, items_ok, span_ok, stmt_calls_require,
    stmt_ok, stmts_ok, yul_block_ok, yul_ok, yuls_ok, Block, Expr, ExprKind, FunctionKind, Item, ItemFunction, Span,
    Stmt, StmtKind, YulBlock, YulStmt, YulStmtKind,
};
use crate::order::Keyed;
use crate::probes::{probe_views, InstrumentedCoverageProbe, InstrumentedCoverageProbeKind, ProbeKindView, ProbeView};
use crate::text::{decimal, has_bytes, has_bytes_at, hex, occurs, push_decimal, push_hex, repeated, stands_at};
use crate::version::{version_text, Version};
use vstd::prelude::*;
use vstd::string::*;
use vstd::utf8::{
    encode_utf8, encode_utf8_valid_utf8, is_char_boundary, is_char_boundary_iff_not_is_continuation_byte,
    is_continuation_byte, is_leading_byte_width_1, length_of_first_scalar, pop_first_scalar, valid_utf8,
};

verus! {

/// The Keccak-256 digest of bytes.
pub uninterp spec fn keccak256_of(bytes: Seq<u8>) -> Seq<u8>;

/// `alloy_primitives::keccak256`: the digest of the bytes, a function of the bytes alone.
#[verifier::external_body]
fn keccak256(bytes: &[u8]) -> (digest: [u8; 32])
    ensures
        digest@ == keccak256_of(bytes@),
{
    alloy_primitives::keccak256(bytes).0
}

/// How a probe reports its tag.
#[derive(Clone, Copy, Debug, PartialEq, Eq, Structural)]
pub enum ProbeMode {
    /// By inline assembly.
    Direct,
    /// By a call of the coverage library.
    Library,
}

/// Text to be inserted at a byte offset.
#[derive(Debug)]
pub struct SourceUpdate {
    pub at: usize,
    pub text: String,
}

/// Text to be inserted at a byte offset, as a sequence of characters.
pub struct Insertion {
    pub at: int,
    pub text: Seq<char>,
}

impl View for SourceUpdate {
    type V = Insertion;

    open spec fn view(&self) -> Insertion {
        Insertion { at: self.at as int, text: self.text@ }
    }
}

/// Insertions are ordered by offset.
impl Keyed for SourceUpdate {
    open spec fn sort_key(&self) -> Seq<u64> {
        seq![self.at as u64]
    }

    fn make_key(&self) -> (key: Vec<u64>) {
        let key = vec![self.at as u64];
        assert(key@ =~= self.sort_key());
        key
    }
}

/// What a collector walks through.
pub struct Context {
    pub version: Version,
    pub path: Seq<char>,
    pub source: Seq<u8>,
    pub contract: Seq<char>,
    pub mode: ProbeMode,
}

/// What was collected: insertions, probes, and the number of branches.
pub struct Collected {
    pub updates: Seq<Insertion>,
    pub probes: Seq<ProbeView>,
    pub branches: nat,
}

/// How many bytes the white space character that ends at `end` has; zero if there is none.
pub open spec fn space_len(source: Seq<u8>, lo: int, end: int) -> int {
    if end - 1 >= lo && ((9 <= source[end - 1] && source[end - 1] <= 13) || source[end - 1] == 32) {
        1
    } else if end - 2 >= lo && source[end - 2] == 0xc2 && (source[end - 1] == 0x85 || source[end - 1] == 0xa0) {
        2
    } else if end - 3 >= lo && is_wide_space(source[end - 3], source[end - 2], source[end - 1]) {
        3
    } else {
        0
    }
}

/// The three bytes are one of the white space characters U+1680, U+2000 to U+200A, U+2028, U+2029,
/// U+202F, U+205F and U+3000.
pub open spec fn is_wide_space(a: u8, b: u8, c: u8) -> bool {
    ||| a == 0xe1 && b == 0x9a && c == 0x80
    ||| a == 0xe2 && b == 0x80 && (0x80 <= c && c <= 0x8a || c == 0xa8 || c == 0xa9 || c == 0xaf)
    ||| a == 0xe2 && b == 0x81 && c == 0x9f
    ||| a == 0xe3 && b == 0x80 && c == 0x80
}

/// The end of the text from `lo` to `end` without the white space behind it.
pub open spec fn trimmed(source: Seq<u8>, lo: int, end: int) -> int
    decreases end - lo,
{
    let n = space_len(source, lo, end);
    if n == 0 || end <= lo { end } else { trimmed(source, lo, end - n) }
}

/// The end of a statement without a semicolon and the white space before it.
pub open spec fn statement_end(source: Seq<u8>, span: Span) -> int {
    if span.lo < span.hi && source[span.hi - 1] == 0x3b {
        trimmed(source, span.lo as int, span.hi - 1)
    } else {
        span.hi as int
    }
}

/// The statement is more than a semicolon.
pub open spec fn has_text(source: Seq<u8>, span: Span) -> bool {
    span.lo < statement_end(source, span)
}

/// The offset of the first opening brace from `lo` to `hi`.
pub open spec fn brace_at(source: Seq<u8>, lo: int, hi: int) -> Option<int>
    decreases hi - lo,
{
    if lo >= hi {
        None
    } else if source[lo] == 0x7b {
        Some(lo)
    } else {
        brace_at(source, lo + 1, hi)
    }
}

/// The tag of the `n`th probe of a source, counted from zero, that begins at `start`.
pub open spec fn tag_of(cx: Context, start: int, n: nat) -> Seq<u8> {
    keccak256_of(encode_utf8(tag_payload(cx, start, n)))
}

/// What the tag of a probe is the digest of.
pub open spec fn tag_payload(cx: Context, start: int, n: nat) -> Seq<char> {
    "foundry-coverage:"@ + version_text(cx.version) + ":"@ + cx.path + ":"@ + decimal(start as nat) + ":"@ + decimal(n)
}

/// The code that reports a tag. That the assembly respects the memory model is said by a comment, which every
/// compiler knows.
pub open spec fn probe_text(mode: ProbeMode, tag: Seq<u8>) -> Seq<char> {
    match mode {
        ProbeMode::Direct => "/// @solidity memory-safe-assembly\nassembly { mstore(0x00, 0x"@ + hex(tag)
            + ") pop(staticcall(gas(), 0xc0bEc0BEc0BeC0bEC0beC0bEC0bEC0beC0beC0BE, 0x00, 0x20, 0, 0)) }\n"@,
        ProbeMode::Library => "__FoundryCoverage.sendHit(0x"@ + hex(tag) + "); "@,
    }
}

/// The name of the library function that reports a tag in an expression and gives a value.
pub open spec fn hit_function(value: bool) -> Seq<char> {
    if value { "__FoundryCoverage.hitTrue(0x"@ } else { "__FoundryCoverage.hitFalse(0x"@ }
}

/// The call that reports a tag in an expression and gives a value.
pub open spec fn hit_call(value: bool, tag: Seq<u8>) -> Seq<char> {
    hit_function(value) + hex(tag) + ")"@
}

/// What is put before an operand: a call that reports the tag and leaves the operand's value as it is.
pub open spec fn operand_text(is_or: bool, tag: Seq<u8>) -> Seq<char> {
    "("@ + hit_call(!is_or, tag) + (if is_or { " || "@ } else { " && "@ })
}

/// What is put behind a condition: calls that report the tag of the path and give back the condition.
pub open spec fn condition_text(holds: Seq<u8>, fails: Seq<u8>) -> Seq<char> {
    ") ? "@ + hit_call(true, holds) + " : "@ + hit_call(false, fails) + ")"@
}

/// A name for a local variable, made longer `k` times.
pub open spec fn scratch_name_of(k: nat) -> Seq<char> {
    "__foundry_coverage_scratch"@ + repeated('_', k)
}

/// The first of the names, from the `k`th on, that does not occur in the source.
pub open spec fn scratch_name_from(source: Seq<u8>, k: nat) -> Seq<char>
    decreases source.len() - k,
{
    if k >= source.len() || !occurs(source, encode_utf8(scratch_name_of(k))) {
        scratch_name_of(k)
    } else {
        scratch_name_from(source, k + 1)
    }
}

/// A name for a local variable that does not occur in the source.
pub open spec fn scratch_name(source: Seq<u8>) -> Seq<char> {
    scratch_name_from(source, 0)
}

/// The code that reports a tag between assembly statements. It leaves the memory as it was.
pub open spec fn yul_probe_text(source: Seq<u8>, tag: Seq<u8>) -> Seq<char> {
    "{ let "@ + scratch_name(source) + " := mload(0x00) mstore(0x00, 0x"@ + hex(tag)
        + ") pop(staticcall(gas(), 0xc0bEc0BEc0BeC0bEC0beC0bEC0bEC0beC0beC0BE, 0x00, 0x20, 0, 0)) mstore(0x00, "@
        + scratch_name(source) + ") } "@
}

/// The probe of a kind for a statement or block.
pub open spec fn probe_for(cx: Context, kind: ProbeKindView, span: Span, tag: Seq<u8>) -> ProbeView {
    ProbeView {
        version: cx.version,
        path: cx.path,
        contract_name: cx.contract,
        tag,
        kind,
        bytes: (span.lo as u32, statement_end(cx.source, span) as u32),
        lines: ((span.first_line + 1) as u32, (span.last_line + 2) as u32),
    }
}

/// A probe before a statement.
pub open spec fn probed(cx: Context, c: Collected, kind: ProbeKindView, span: Span) -> Collected {
    let tag = tag_of(cx, span.lo as int, c.probes.len());
    if has_text(cx.source, span) {
        Collected {
            updates: c.updates.push(Insertion { at: span.lo as int, text: probe_text(cx.mode, tag) }),
            probes: c.probes.push(probe_for(cx, kind, span, tag)),
            branches: c.branches,
        }
    } else {
        c
    }
}

/// An opening brace and a probe before a statement.
pub open spec fn opened(cx: Context, c: Collected, kind: ProbeKindView, span: Span) -> Collected {
    let tag = tag_of(cx, span.lo as int, c.probes.len());
    if has_text(cx.source, span) {
        Collected {
            updates: c.updates.push(
                Insertion { at: span.lo as int, text: "{ "@ + probe_text(cx.mode, tag) },
            ),
            probes: c.probes.push(probe_for(cx, kind, span, tag)),
            branches: c.branches,
        }
    } else {
        c
    }
}

/// The closing brace behind a statement. It comes behind everything that was put there for the statement.
pub open spec fn closed_up(cx: Context, c: Collected, span: Span) -> Collected {
    if has_text(cx.source, span) {
        Collected { updates: c.updates.push(Insertion { at: span.hi as int, text: " }"@ }), ..c }
    } else {
        c
    }
}

/// A probe for the path that passes over the statement of an `if` without an `else`.
pub open spec fn passed_over(cx: Context, c: Collected, kind: ProbeKindView, span: Span) -> Collected {
    let tag = tag_of(cx, span.lo as int, c.probes.len());
    if has_text(cx.source, span) {
        Collected {
            updates: c.updates.push(
                Insertion {
                    at: span.hi as int,
                    text: " else { "@ + probe_text(cx.mode, tag) + " }"@,
                },
            ),
            probes: c.probes.push(probe_for(cx, kind, span, tag)),
            branches: c.branches,
        }
    } else {
        c
    }
}

/// A probe behind the opening brace of a block.
pub open spec fn entered(cx: Context, c: Collected, kind: ProbeKindView, span: Span) -> Collected {
    let tag = tag_of(cx, span.lo as int, c.probes.len());
    let brace = brace_at(cx.source, span.lo as int, span.hi as int);
    if has_text(cx.source, span) && brace is Some {
        Collected {
            updates: c.updates.push(Insertion { at: brace->0 + 1, text: probe_text(cx.mode, tag) }),
            probes: c.probes.push(probe_for(cx, kind, span, tag)),
            branches: c.branches,
        }
    } else {
        c
    }
}

/// A probe before a requirement and one behind it, with a branch of its own.
pub open spec fn required(cx: Context, c: Collected, span: Span) -> Collected {
    let n = c.probes.len();
    let pre = tag_of(cx, span.lo as int, n);
    let post = tag_of(cx, statement_end(cx.source, span), n + 1);
    let branch_id = c.branches as u32;
    if has_text(cx.source, span) {
        Collected {
            updates: c.updates.push(Insertion { at: span.lo as int, text: probe_text(cx.mode, pre) }).push(
                Insertion { at: span.hi as int, text: probe_text(cx.mode, post) },
            ),
            probes: c.probes.push(probe_for(cx, ProbeKindView::RequirePre { branch_id }, span, pre)).push(
                probe_for(cx, ProbeKindView::RequirePost { branch_id }, span, post),
            ),
            branches: c.branches + 1,
        }
    } else {
        c
    }
}

/// A call before an operand that reports when the operand is evaluated.
pub open spec fn operand_opened(cx: Context, c: Collected, is_or: bool, kind: ProbeKindView, span: Span) -> Collected {
    let tag = tag_of(cx, span.lo as int, c.probes.len());
    if has_text(cx.source, span) {
        Collected {
            updates: c.updates.push(Insertion { at: span.lo as int, text: operand_text(is_or, tag) }),
            probes: c.probes.push(probe_for(cx, kind, span, tag)),
            branches: c.branches,
        }
    } else {
        c
    }
}

/// The parenthesis behind an operand.
pub open spec fn operand_closed(cx: Context, c: Collected, span: Span) -> Collected {
    if has_text(cx.source, span) {
        Collected { updates: c.updates.push(Insertion { at: span.hi as int, text: ")"@ }), ..c }
    } else {
        c
    }
}

/// The parentheses before a condition.
pub open spec fn condition_opened(c: Collected, cond: Span) -> Collected {
    Collected { updates: c.updates.push(Insertion { at: cond.lo as int, text: "(("@ }), ..c }
}

/// The calls behind a condition that report which of the two expressions is evaluated.
pub open spec fn condition_closed(
    cx: Context,
    c: Collected,
    cond: Span,
    holds: Span,
    fails: Span,
    branch_id: u32,
) -> Collected {
    let n = c.probes.len();
    let first = tag_of(cx, holds.lo as int, n);
    let second = tag_of(cx, fails.lo as int, n + 1);
    Collected {
        updates: c.updates.push(Insertion { at: cond.hi as int, text: condition_text(first, second) }),
        probes: c.probes.push(probe_for(cx, ProbeKindView::Branch { branch_id, path_id: 0 }, holds, first)).push(
            probe_for(cx, ProbeKindView::Branch { branch_id, path_id: 1 }, fails, second),
        ),
        branches: c.branches,
    }
}

/// A probe before an assembly statement.
pub open spec fn yul_probed(cx: Context, c: Collected, span: Span) -> Collected {
    let tag = tag_of(cx, span.lo as int, c.probes.len());
    if has_text(cx.source, span) {
        Collected {
            updates: c.updates.push(Insertion { at: span.lo as int, text: yul_probe_text(cx.source, tag) }),
            probes: c.probes.push(probe_for(cx, ProbeKindView::Statement, span, tag)),
            branches: c.branches,
        }
    } else {
        c
    }
}

/// A probe behind the opening brace of an assembly block.
pub open spec fn yul_entered(cx: Context, c: Collected, kind: ProbeKindView, span: Span) -> Collected {
    let tag = tag_of(cx, span.lo as int, c.probes.len());
    let brace = brace_at(cx.source, span.lo as int, span.hi as int);
    if has_text(cx.source, span) && brace is Some {
        Collected {
            updates: c.updates.push(Insertion { at: brace->0 + 1, text: yul_probe_text(cx.source, tag) }),
            probes: c.probes.push(probe_for(cx, kind, span, tag)),
            branches: c.branches,
        }
    } else {
        c
    }
}

/// What is collected after an expression. A disjunction or conjunction has a path for each operand, a
/// condition one for each of the two expressions.
pub open spec fn visited_expr(cx: Context, c: Collected, expr: Expr) -> Collected
    decreases expr, 0nat,
{
    match expr.kind {
        ExprKind::Ident(_) => c,
        ExprKind::Call(callee, args) => visited_exprs(cx, visited_expr(cx, c, *callee), args, args@.len()),
        ExprKind::Paren(inner) => visited_expr(cx, c, *inner),
        ExprKind::Or(left, right) => {
            let b = c.branches as u32;
            visited_operand(cx, visited_operand(cx, with_branch(c), *left, true, b, 0), *right, true, b, 1)
        },
        ExprKind::And(left, right) => {
            let b = c.branches as u32;
            visited_operand(cx, visited_operand(cx, with_branch(c), *left, false, b, 0), *right, false, b, 1)
        },
        ExprKind::Ternary(cond, holds, fails) => {
            let b = c.branches as u32;
            let tested = visited_expr(cx, condition_opened(with_branch(c), cond.span), *cond);
            let decided = condition_closed(cx, tested, cond.span, holds.span, fails.span, b);
            visited_expr(cx, visited_expr(cx, decided, *holds), *fails)
        },
        ExprKind::Other(parts) => visited_exprs(cx, c, parts, parts@.len()),
    }
}

/// What is collected after an operand.
pub open spec fn visited_operand(
    cx: Context,
    c: Collected,
    operand: Expr,
    is_or: bool,
    branch_id: u32,
    path_id: u32,
) -> Collected
    decreases operand, 1nat,
{
    let start = operand_opened(cx, c, is_or, ProbeKindView::Branch { branch_id, path_id }, operand.span);
    operand_closed(cx, visited_expr(cx, start, operand), operand.span)
}

/// What is collected after the first `n` expressions.
pub open spec fn visited_exprs(cx: Context, c: Collected, exprs: Vec<Expr>, n: nat) -> Collected
    decreases exprs, n,
{
    if n == 0 || n > exprs@.len() {
        c
    } else {
        visited_expr(cx, visited_exprs(cx, c, exprs, (n - 1) as nat), exprs[n - 1])
    }
}

/// What is collected after an assembly statement. A condition has one path, a selection one for each case.
pub open spec fn visited_yul(cx: Context, c: Collected, stmt: YulStmt) -> Collected
    decreases stmt, 0nat,
{
    match stmt.kind {
        YulStmtKind::Plain => yul_probed(cx, c, stmt.span),
        YulStmtKind::Block(block) => visited_yuls(cx, c, block.stmts, block.stmts@.len()),
        YulStmtKind::If(block) => {
            let kind = ProbeKindView::Branch { branch_id: c.branches as u32, path_id: 0 };
            visited_yuls(cx, yul_entered(cx, with_branch(c), kind, block.span), block.stmts, block.stmts@.len())
        },
        YulStmtKind::Switch(cases) => visited_cases(cx, with_branch(c), cases, c.branches as u32, cases@.len()),
        YulStmtKind::For(init, step, body) => {
            let before = visited_yuls(cx, c, init.stmts, init.stmts@.len());
            let after = visited_yuls(cx, before, step.stmts, step.stmts@.len());
            let start = yul_entered(cx, after, ProbeKindView::Statement, body.span);
            visited_yuls(cx, start, body.stmts, body.stmts@.len())
        },
        YulStmtKind::Function(body) => visited_yuls(cx, c, body.stmts, body.stmts@.len()),
    }
}

/// What is collected after the first `n` assembly statements.
pub open spec fn visited_yuls(cx: Context, c: Collected, stmts: Vec<YulStmt>, n: nat) -> Collected
    decreases stmts, n,
{
    if n == 0 || n > stmts@.len() {
        c
    } else {
        visited_yul(cx, visited_yuls(cx, c, stmts, (n - 1) as nat), stmts[n - 1])
    }
}

/// What is collected after the first `n` cases of a selection, each a path of its branch.
pub open spec fn visited_cases(cx: Context, c: Collected, cases: Vec<YulBlock>, branch_id: u32, n: nat) -> Collected
    decreases cases, n,
{
    if n == 0 || n > cases@.len() {
        c
    } else {
        let before = visited_cases(cx, c, cases, branch_id, (n - 1) as nat);
        let kind = ProbeKindView::Branch { branch_id, path_id: (n - 1) as u32 };
        let case = cases[n - 1];
        visited_yuls(cx, yul_entered(cx, before, kind, case.span), case.stmts, case.stmts@.len())
    }
}

/// One more branch.
pub open spec fn with_branch(c: Collected) -> Collected {
    Collected { branches: c.branches + 1, ..c }
}

/// What is collected after the expressions and the assembly in a statement. Assembly in a function that
/// may not read the state has no probes inside it.
pub open spec fn visited_parts(cx: Context, c: Collected, stmt: Stmt) -> Collected {
    match stmt.kind {
        StmtKind::Assembly(block) => if cx.mode == ProbeMode::Direct {
            visited_yuls(cx, c, block.stmts, block.stmts@.len())
        } else {
            c
        },
        StmtKind::DeclSingle(exprs) => visited_exprs(cx, c, exprs, exprs@.len()),
        StmtKind::DeclMulti(exprs) => visited_exprs(cx, c, exprs, exprs@.len()),
        StmtKind::Emit(exprs) => visited_exprs(cx, c, exprs, exprs@.len()),
        StmtKind::Return(exprs) => visited_exprs(cx, c, exprs, exprs@.len()),
        StmtKind::Revert(exprs) => visited_exprs(cx, c, exprs, exprs@.len()),
        StmtKind::Expr(expr) => visited_expr(cx, c, expr),
        _ => c,
    }
}

/// What is collected after a statement.
pub open spec fn visited_stmt(cx: Context, c: Collected, stmt: Stmt) -> Collected
    decreases stmt, 0nat,
{
    match stmt.kind {
        StmtKind::Placeholder => c,
        StmtKind::Expr(expr) => visited_parts(
            cx,
            if calls_require(expr) {
                required(cx, c, stmt.span)
            } else {
                probed(cx, c, ProbeKindView::Statement, stmt.span)
            },
            stmt,
        ),
        StmtKind::Block(block) => visited_stmts(cx, c, block.stmts, block.stmts@.len()),
        StmtKind::UncheckedBlock(block) => visited_stmts(cx, c, block.stmts, block.stmts@.len()),
        StmtKind::If(cond, body, other) => {
            let tested = visited_expr(cx, c, cond);
            let branch_id = tested.branches as u32;
            let taken = visited_body(
                cx,
                with_branch(tested),
                *body,
                ProbeKindView::Branch { branch_id, path_id: 0 },
            );
            match other {
                Some(other) => visited_body(cx, taken, *other, ProbeKindView::Branch { branch_id, path_id: 1 }),
                None => passed_over(cx, taken, ProbeKindView::Branch { branch_id, path_id: 1 }, body.span),
            }
        },
        StmtKind::Try(call, clauses) => {
            let called = visited_expr(cx, c, call);
            visited_clauses(cx, with_branch(called), clauses, called.branches as u32, clauses@.len())
        },
        StmtKind::While(cond, body) => visited_body(cx, visited_expr(cx, c, cond), *body, ProbeKindView::Statement),
        StmtKind::DoWhile(body, cond) => visited_expr(
            cx,
            visited_body(cx, c, *body, ProbeKindView::Statement),
            cond,
        ),
        StmtKind::For(exprs, body) => visited_body(
            cx,
            visited_exprs(cx, c, exprs, exprs@.len()),
            *body,
            ProbeKindView::Statement,
        ),
        _ => visited_parts(cx, probed(cx, c, ProbeKindView::Statement, stmt.span), stmt),
    }
}

/// What is collected after the first `n` statements.
pub open spec fn visited_stmts(cx: Context, c: Collected, stmts: Vec<Stmt>, n: nat) -> Collected
    decreases stmts, n,
{
    if n == 0 || n > stmts@.len() {
        c
    } else {
        visited_stmt(cx, visited_stmts(cx, c, stmts, (n - 1) as nat), stmts[n - 1])
    }
}

/// The statement has statements of its own, or is a call of `require`: it gets probes of its own also where
/// it is run under a condition.
pub open spec fn has_own_probes(stmt: Stmt) -> bool {
    match stmt.kind {
        StmtKind::DoWhile(..) => true,
        StmtKind::For(..) => true,
        StmtKind::If(..) => true,
        StmtKind::Try(..) => true,
        StmtKind::While(..) => true,
        _ => stmt_calls_require(stmt),
    }
}

/// What is collected after a statement that is run under a condition. A block gets its probe behind
/// the brace, any other statement is put in braces with its probe.
pub open spec fn visited_body(cx: Context, c: Collected, stmt: Stmt, kind: ProbeKindView) -> Collected
    decreases stmt, 1nat,
{
    match stmt.kind {
        StmtKind::Block(block) => visited_stmt(cx, entered(cx, c, kind, block.span), stmt),
        StmtKind::UncheckedBlock(block) => visited_stmt(cx, entered(cx, c, kind, block.span), stmt),
        _ => {
            let start = opened(cx, c, kind, stmt.span);
            closed_up(
                cx,
                if has_own_probes(stmt) {
                    visited_stmt(cx, start, stmt)
                } else {
                    visited_parts(cx, start, stmt)
                },
                stmt.span,
            )
        },
    }
}

/// What is collected after the first `n` clauses of a `try` statement, each a path of its branch.
pub open spec fn visited_clauses(cx: Context, c: Collected, clauses: Vec<Block>, branch_id: u32, n: nat) -> Collected
    decreases clauses, n,
{
    if n == 0 || n > clauses@.len() {
        c
    } else {
        let before = visited_clauses(cx, c, clauses, branch_id, (n - 1) as nat);
        let kind = ProbeKindView::Branch { branch_id, path_id: (n - 1) as u32 };
        let clause = clauses[n - 1];
        visited_stmts(cx, entered(cx, before, kind, clause.span), clause.stmts, clause.stmts@.len())
    }
}

/// The name that a function is reported under.
pub open spec fn function_name(func: ItemFunction) -> Seq<char> {
    match func.name {
        Some(name) => name@,
        None => match func.kind {
            FunctionKind::Constructor => "constructor"@,
            FunctionKind::Fallback => "fallback"@,
            _ => "receive"@,
        },
    }
}

/// How probes report in a function: by the library where the function may not read the state, or
/// where it is not known whether it may.
pub open spec fn mode_of(func: ItemFunction) -> ProbeMode {
    if func.kind == FunctionKind::Modifier || func.is_pure { ProbeMode::Library } else { ProbeMode::Direct }
}

/// The comment that leaves out the function that follows it.
pub open spec fn ignore_next() -> Seq<u8> {
    encode_utf8("// istanbul ignore next"@)
}

/// The function is left out: the comment comes right before it, with nothing but white space between.
pub open spec fn is_ignored(source: Seq<u8>, start: int) -> bool {
    stands_at(source, trimmed(source, 0, start) - ignore_next().len(), ignore_next())
}

/// The function gets no probes: it only receives, or it is left out.
pub open spec fn is_skipped(source: Seq<u8>, func: ItemFunction) -> bool {
    func.kind == FunctionKind::Receive || is_ignored(source, func.start as int)
}

/// What is collected after a function.
pub open spec fn visited_function(cx: Context, c: Collected, func: ItemFunction) -> Collected {
    match func.body {
        Some(body) => if is_skipped(cx.source, func) {
            c
        } else {
            let inner = Context { mode: mode_of(func), ..cx };
            let kind = ProbeKindView::Function { name: function_name(func) };
            let start = entered(inner, c, kind, body.span);
            let called = visited_exprs(inner, start, func.arguments, func.arguments@.len());
            visited_stmts(inner, called, body.stmts, body.stmts@.len())
        },
        None => c,
    }
}

/// What is collected after an item.
pub open spec fn visited_item(cx: Context, c: Collected, item: Item) -> Collected
    decreases item, 0nat,
{
    match item {
        Item::Contract(name, items) => visited_items(Context { contract: name@, ..cx }, c, items, items@.len()),
        Item::Function(func) => visited_function(cx, c, func),
        Item::Other => c,
    }
}

/// What is collected after the first `n` items.
pub open spec fn visited_items(cx: Context, c: Collected, items: Vec<Item>, n: nat) -> Collected
    decreases items, n,
{
    if n == 0 || n > items@.len() {
        c
    } else {
        visited_item(cx, visited_items(cx, c, items, (n - 1) as nat), items[n - 1])
    }
}

/// How many branches an expression has.
pub open spec fn expr_branches(expr: Expr) -> nat
    decreases expr, 0nat,
{
    match expr.kind {
        ExprKind::Ident(_) => 0,
        ExprKind::Call(callee, args) => expr_branches(*callee) + exprs_branches(args, args@.len()),
        ExprKind::Paren(inner) => expr_branches(*inner),
        ExprKind::Or(left, right) => 1 + expr_branches(*left) + expr_branches(*right),
        ExprKind::And(left, right) => 1 + expr_branches(*left) + expr_branches(*right),
        ExprKind::Ternary(cond, holds, fails) => 1 + expr_branches(*cond) + expr_branches(*holds) + expr_branches(
            *fails,
        ),
        ExprKind::Other(parts) => exprs_branches(parts, parts@.len()),
    }
}

/// How many branches the first `n` expressions have.
pub open spec fn exprs_branches(exprs: Vec<Expr>, n: nat) -> nat
    decreases exprs, n,
{
    if n == 0 || n > exprs@.len() {
        0
    } else {
        exprs_branches(exprs, (n - 1) as nat) + expr_branches(exprs[n - 1])
    }
}

/// How many branches an assembly statement has.
pub open spec fn yul_branches(stmt: YulStmt) -> nat
    decreases stmt, 0nat,
{
    match stmt.kind {
        YulStmtKind::Plain => 0,
        YulStmtKind::Block(block) => yuls_branches(block.stmts, block.stmts@.len()),
        YulStmtKind::If(block) => 1 + yuls_branches(block.stmts, block.stmts@.len()),
        YulStmtKind::Switch(cases) => 1 + cases_branches(cases, cases@.len()),
        YulStmtKind::For(init, step, body) => yuls_branches(init.stmts, init.stmts@.len()) + yuls_branches(
            step.stmts,
            step.stmts@.len(),
        ) + yuls_branches(body.stmts, body.stmts@.len()),
        YulStmtKind::Function(body) => yuls_branches(body.stmts, body.stmts@.len()),
    }
}

/// How many branches the first `n` assembly statements have.
pub open spec fn yuls_branches(stmts: Vec<YulStmt>, n: nat) -> nat
    decreases stmts, n,
{
    if n == 0 || n > stmts@.len() {
        0
    } else {
        yuls_branches(stmts, (n - 1) as nat) + yul_branches(stmts[n - 1])
    }
}

/// How many branches the first `n` cases have.
pub open spec fn cases_branches(cases: Vec<YulBlock>, n: nat) -> nat
    decreases cases, n,
{
    if n == 0 || n > cases@.len() {
        0
    } else {
        cases_branches(cases, (n - 1) as nat) + yuls_branches(cases[n - 1].stmts, cases[n - 1].stmts@.len())
    }
}

/// How many branches the expressions and the assembly in a statement have.
pub open spec fn parts_branches(mode: ProbeMode, stmt: Stmt) -> nat {
    match stmt.kind {
        StmtKind::Assembly(block) => if mode == ProbeMode::Direct {
            yuls_branches(block.stmts, block.stmts@.len())
        } else {
            0
        },
        StmtKind::DeclSingle(exprs) => exprs_branches(exprs, exprs@.len()),
        StmtKind::DeclMulti(exprs) => exprs_branches(exprs, exprs@.len()),
        StmtKind::Emit(exprs) => exprs_branches(exprs, exprs@.len()),
        StmtKind::Return(exprs) => exprs_branches(exprs, exprs@.len()),
        StmtKind::Revert(exprs) => exprs_branches(exprs, exprs@.len()),
        StmtKind::Expr(expr) => expr_branches(expr),
        _ => 0,
    }
}

/// How many branches a statement has.
pub open spec fn stmt_branches(source: Seq<u8>, mode: ProbeMode, stmt: Stmt) -> nat
    decreases stmt, 0nat,
{
    match stmt.kind {
        StmtKind::Expr(expr) => expr_branches(expr) + (if calls_require(expr) && has_text(source, stmt.span) {
            1nat
        } else {
            0
        }),
        StmtKind::Block(block) => stmts_branches(source, mode, block.stmts, block.stmts@.len()),
        StmtKind::UncheckedBlock(block) => stmts_branches(source, mode, block.stmts, block.stmts@.len()),
        StmtKind::If(cond, body, None) => 1 + expr_branches(cond) + stmt_branches(source, mode, *body),
        StmtKind::If(cond, body, Some(other)) => 1 + expr_branches(cond) + stmt_branches(source, mode, *body)
            + stmt_branches(source, mode, *other),
        StmtKind::Try(call, clauses) => 1 + expr_branches(call) + clauses_branches(
            source,
            mode,
            clauses,
            clauses@.len(),
        ),
        StmtKind::While(cond, body) => expr_branches(cond) + stmt_branches(source, mode, *body),
        StmtKind::DoWhile(body, cond) => stmt_branches(source, mode, *body) + expr_branches(cond),
        StmtKind::For(exprs, body) => exprs_branches(exprs, exprs@.len()) + stmt_branches(source, mode, *body),
        _ => parts_branches(mode, stmt),
    }
}

/// How many branches the first `n` statements have.
pub open spec fn stmts_branches(source: Seq<u8>, mode: ProbeMode, stmts: Vec<Stmt>, n: nat) -> nat
    decreases stmts, n,
{
    if n == 0 || n > stmts@.len() {
        0
    } else {
        stmts_branches(source, mode, stmts, (n - 1) as nat) + stmt_branches(source, mode, stmts[n - 1])
    }
}

/// How many branches the first `n` clauses have.
pub open spec fn clauses_branches(source: Seq<u8>, mode: ProbeMode, clauses: Vec<Block>, n: nat) -> nat
    decreases clauses, n,
{
    if n == 0 || n > clauses@.len() {
        0
    } else {
        clauses_branches(source, mode, clauses, (n - 1) as nat) + stmts_branches(
            source,
            mode,
            clauses[n - 1].stmts,
            clauses[n - 1].stmts@.len(),
        )
    }
}

/// How many branches an item has; functions without probes do not count.
pub open spec fn item_branches(source: Seq<u8>, item: Item) -> nat
    decreases item, 0nat,
{
    match item {
        Item::Contract(_, items) => items_branches(source, items, items@.len()),
        Item::Function(func) => match func.body {
            Some(body) => if is_skipped(source, func) {
                0
            } else {
                exprs_branches(func.arguments, func.arguments@.len()) + stmts_branches(
                    source,
                    mode_of(func),
                    body.stmts,
                    body.stmts@.len(),
                )
            },
            None => 0,
        },
        Item::Other => 0,
    }
}

/// How many branches the first `n` items have.
pub open spec fn items_branches(source: Seq<u8>, items: Vec<Item>, n: nat) -> nat
    decreases items, n,
{
    if n == 0 || n > items@.len() {
        0
    } else {
        items_branches(source, items, (n - 1) as nat) + item_branches(source, items[n - 1])
    }
}

pub(crate) proof fn expr_adds_branches(cx: Context, c: Collected, expr: Expr)
    ensures
        visited_expr(cx, c, expr).branches == c.branches + expr_branches(expr),
    decreases expr, 0nat,
{
    match expr.kind {
        ExprKind::Ident(_) => {},
        ExprKind::Call(callee, args) => {
            expr_adds_branches(cx, c, *callee);
            exprs_add_branches(cx, visited_expr(cx, c, *callee), args, args@.len());
        },
        ExprKind::Paren(inner) => expr_adds_branches(cx, c, *inner),
        ExprKind::Or(left, right) => {
            let b = c.branches as u32;
            operand_adds_branches(cx, with_branch(c), *left, true, b, 0);
            operand_adds_branches(cx, visited_operand(cx, with_branch(c), *left, true, b, 0), *right, true, b, 1);
        },
        ExprKind::And(left, right) => {
            let b = c.branches as u32;
            operand_adds_branches(cx, with_branch(c), *left, false, b, 0);
            operand_adds_branches(cx, visited_operand(cx, with_branch(c), *left, false, b, 0), *right, false, b, 1);
        },
        ExprKind::Ternary(cond, holds, fails) => {
            let b = c.branches as u32;
            let start = condition_opened(with_branch(c), cond.span);
            let tested = visited_expr(cx, start, *cond);
            let decided = condition_closed(cx, tested, cond.span, holds.span, fails.span, b);
            expr_adds_branches(cx, start, *cond);
            expr_adds_branches(cx, decided, *holds);
            expr_adds_branches(cx, visited_expr(cx, decided, *holds), *fails);
        },
        ExprKind::Other(parts) => exprs_add_branches(cx, c, parts, parts@.len()),
    }
}

pub(crate) proof fn operand_adds_branches(
    cx: Context,
    c: Collected,
    operand: Expr,
    is_or: bool,
    branch_id: u32,
    path_id: u32,
)
    ensures
        visited_operand(cx, c, operand, is_or, branch_id, path_id).branches == c.branches + expr_branches(operand),
    decreases operand, 1nat,
{
    let kind = ProbeKindView::Branch { branch_id, path_id };
    expr_adds_branches(cx, operand_opened(cx, c, is_or, kind, operand.span), operand);
}

pub(crate) proof fn exprs_add_branches(cx: Context, c: Collected, exprs: Vec<Expr>, n: nat)
    ensures
        visited_exprs(cx, c, exprs, n).branches == c.branches + exprs_branches(exprs, n),
    decreases exprs, n,
{
    if n != 0 && n <= exprs@.len() {
        exprs_add_branches(cx, c, exprs, (n - 1) as nat);
        expr_adds_branches(cx, visited_exprs(cx, c, exprs, (n - 1) as nat), exprs[n - 1]);
    }
}

pub(crate) proof fn yul_adds_branches(cx: Context, c: Collected, stmt: YulStmt)
    ensures
        visited_yul(cx, c, stmt).branches == c.branches + yul_branches(stmt),
    decreases stmt, 0nat,
{
    match stmt.kind {
        YulStmtKind::Plain => {},
        YulStmtKind::Block(block) => yuls_add_branches(cx, c, block.stmts, block.stmts@.len()),
        YulStmtKind::If(block) => {
            let kind = ProbeKindView::Branch { branch_id: c.branches as u32, path_id: 0 };
            let start = yul_entered(cx, with_branch(c), kind, block.span);
            yuls_add_branches(cx, start, block.stmts, block.stmts@.len());
        },
        YulStmtKind::Switch(cases) => {
            cases_add_branches(cx, with_branch(c), cases, c.branches as u32, cases@.len());
        },
        YulStmtKind::For(init, step, body) => {
            let before = visited_yuls(cx, c, init.stmts, init.stmts@.len());
            let after = visited_yuls(cx, before, step.stmts, step.stmts@.len());
            let start = yul_entered(cx, after, ProbeKindView::Statement, body.span);
            yuls_add_branches(cx, c, init.stmts, init.stmts@.len());
            yuls_add_branches(cx, before, step.stmts, step.stmts@.len());
            yuls_add_branches(cx, start, body.stmts, body.stmts@.len());
        },
        YulStmtKind::Function(body) => yuls_add_branches(cx, c, body.stmts, body.stmts@.len()),
    }
}

pub(crate) proof fn yuls_add_branches(cx: Context, c: Collected, stmts: Vec<YulStmt>, n: nat)
    ensures
        visited_yuls(cx, c, stmts, n).branches == c.branches + yuls_branches(stmts, n),
    decreases stmts, n,
{
    if n != 0 && n <= stmts@.len() {
        yuls_add_branches(cx, c, stmts, (n - 1) as nat);
        yul_adds_branches(cx, visited_yuls(cx, c, stmts, (n - 1) as nat), stmts[n - 1]);
    }
}

pub(crate) proof fn cases_add_branches(cx: Context, c: Collected, cases: Vec<YulBlock>, branch_id: u32, n: nat)
    ensures
        visited_cases(cx, c, cases, branch_id, n).branches == c.branches + cases_branches(cases, n),
    decreases cases, n,
{
    if n != 0 && n <= cases@.len() {
        cases_add_branches(cx, c, cases, branch_id, (n - 1) as nat);
        let before = visited_cases(cx, c, cases, branch_id, (n - 1) as nat);
        let kind = ProbeKindView::Branch { branch_id, path_id: (n - 1) as u32 };
        let case = cases[n - 1];
        yuls_add_branches(cx, yul_entered(cx, before, kind, case.span), case.stmts, case.stmts@.len());
    }
}

pub(crate) proof fn parts_add_branches(cx: Context, c: Collected, stmt: Stmt)
    ensures
        visited_parts(cx, c, stmt).branches == c.branches + parts_branches(cx.mode, stmt),
{
    match stmt.kind {
        StmtKind::Assembly(block) => yuls_add_branches(cx, c, block.stmts, block.stmts@.len()),
        StmtKind::DeclSingle(exprs) => exprs_add_branches(cx, c, exprs, exprs@.len()),
        StmtKind::DeclMulti(exprs) => exprs_add_branches(cx, c, exprs, exprs@.len()),
        StmtKind::Emit(exprs) => exprs_add_branches(cx, c, exprs, exprs@.len()),
        StmtKind::Return(exprs) => exprs_add_branches(cx, c, exprs, exprs@.len()),
        StmtKind::Revert(exprs) => exprs_add_branches(cx, c, exprs, exprs@.len()),
        StmtKind::Expr(expr) => expr_adds_branches(cx, c, expr),
        _ => {},
    }
}

pub(crate) proof fn stmt_adds_branches(cx: Context, c: Collected, stmt: Stmt)
    ensures
        visited_stmt(cx, c, stmt).branches == c.branches + stmt_branches(cx.source, cx.mode, stmt),
    decreases stmt, 0nat,
{
    parts_add_branches(cx, probed(cx, c, ProbeKindView::Statement, stmt.span), stmt);
    match stmt.kind {
        StmtKind::Expr(expr) => parts_add_branches(cx, required(cx, c, stmt.span), stmt),
        StmtKind::Block(block) => stmts_add_branches(cx, c, block.stmts, block.stmts@.len()),
        StmtKind::UncheckedBlock(block) => stmts_add_branches(cx, c, block.stmts, block.stmts@.len()),
        StmtKind::If(cond, body, other) => {
            let tested = visited_expr(cx, c, cond);
            let branch_id = tested.branches as u32;
            let kind = ProbeKindView::Branch { branch_id, path_id: 0 };
            let taken = visited_body(cx, with_branch(tested), *body, kind);
            expr_adds_branches(cx, c, cond);
            body_adds_branches(cx, with_branch(tested), *body, kind);
            if let Some(other) = other {
                body_adds_branches(cx, taken, *other, ProbeKindView::Branch { branch_id, path_id: 1 });
            }
        },
        StmtKind::Try(call, clauses) => {
            let called = visited_expr(cx, c, call);
            expr_adds_branches(cx, c, call);
            clauses_add_branches(cx, with_branch(called), clauses, called.branches as u32, clauses@.len());
        },
        StmtKind::While(cond, body) => {
            expr_adds_branches(cx, c, cond);
            body_adds_branches(cx, visited_expr(cx, c, cond), *body, ProbeKindView::Statement);
        },
        StmtKind::DoWhile(body, cond) => {
            body_adds_branches(cx, c, *body, ProbeKindView::Statement);
            expr_adds_branches(cx, visited_body(cx, c, *body, ProbeKindView::Statement), cond);
        },
        StmtKind::For(exprs, body) => {
            exprs_add_branches(cx, c, exprs, exprs@.len());
            body_adds_branches(cx, visited_exprs(cx, c, exprs, exprs@.len()), *body, ProbeKindView::Statement);
        },
        _ => {},
    }
}

pub(crate) proof fn stmts_add_branches(cx: Context, c: Collected, stmts: Vec<Stmt>, n: nat)
    ensures
        visited_stmts(cx, c, stmts, n).branches == c.branches + stmts_branches(cx.source, cx.mode, stmts, n),
    decreases stmts, n,
{
    if n != 0 && n <= stmts@.len() {
        stmts_add_branches(cx, c, stmts, (n - 1) as nat);
        stmt_adds_branches(cx, visited_stmts(cx, c, stmts, (n - 1) as nat), stmts[n - 1]);
    }
}

pub(crate) proof fn body_adds_branches(cx: Context, c: Collected, stmt: Stmt, kind: ProbeKindView)
    ensures
        visited_body(cx, c, stmt, kind).branches == c.branches + stmt_branches(cx.source, cx.mode, stmt),
    decreases stmt, 1nat,
{
    stmt_adds_branches(cx, opened(cx, c, kind, stmt.span), stmt);
    parts_add_branches(cx, opened(cx, c, kind, stmt.span), stmt);
    match stmt.kind {
        StmtKind::Block(block) => stmt_adds_branches(cx, entered(cx, c, kind, block.span), stmt),
        StmtKind::UncheckedBlock(block) => stmt_adds_branches(cx, entered(cx, c, kind, block.span), stmt),
        _ => {},
    }
}

pub(crate) proof fn clauses_add_branches(cx: Context, c: Collected, clauses: Vec<Block>, branch_id: u32, n: nat)
    ensures
        visited_clauses(cx, c, clauses, branch_id, n).branches == c.branches + clauses_branches(cx.source, cx.mode, clauses, n),
    decreases clauses, n,
{
    if n != 0 && n <= clauses@.len() {
        clauses_add_branches(cx, c, clauses, branch_id, (n - 1) as nat);
        let before = visited_clauses(cx, c, clauses, branch_id, (n - 1) as nat);
        let kind = ProbeKindView::Branch { branch_id, path_id: (n - 1) as u32 };
        let clause = clauses[n - 1];
        stmts_add_branches(cx, entered(cx, before, kind, clause.span), clause.stmts, clause.stmts@.len());
    }
}

/// With more expressions come no fewer branches.
proof fn exprs_prefix_branches(cx: Context, c: Collected, exprs: Vec<Expr>, n: nat, m: nat)
    requires
        n <= m <= exprs@.len(),
    ensures
        visited_exprs(cx, c, exprs, n).branches <= visited_exprs(cx, c, exprs, m).branches,
    decreases m,
{
    if n < m {
        exprs_prefix_branches(cx, c, exprs, n, (m - 1) as nat);
        expr_adds_branches(cx, visited_exprs(cx, c, exprs, (m - 1) as nat), exprs[m - 1]);
    }
}

/// With more assembly statements come no fewer branches.
proof fn yuls_prefix_branches(cx: Context, c: Collected, stmts: Vec<YulStmt>, n: nat, m: nat)
    requires
        n <= m <= stmts@.len(),
    ensures
        visited_yuls(cx, c, stmts, n).branches <= visited_yuls(cx, c, stmts, m).branches,
    decreases m,
{
    if n < m {
        yuls_prefix_branches(cx, c, stmts, n, (m - 1) as nat);
        yul_adds_branches(cx, visited_yuls(cx, c, stmts, (m - 1) as nat), stmts[m - 1]);
    }
}

/// With more cases come no fewer branches.
proof fn cases_prefix_branches(cx: Context, c: Collected, cases: Vec<YulBlock>, branch_id: u32, n: nat, m: nat)
    requires
        n <= m <= cases@.len(),
    ensures
        visited_cases(cx, c, cases, branch_id, n).branches <= visited_cases(cx, c, cases, branch_id, m).branches,
    decreases m,
{
    if n < m {
        cases_prefix_branches(cx, c, cases, branch_id, n, (m - 1) as nat);
        let before = visited_cases(cx, c, cases, branch_id, (m - 1) as nat);
        let kind = ProbeKindView::Branch { branch_id, path_id: (m - 1) as u32 };
        let case = cases[m - 1];
        yuls_add_branches(cx, yul_entered(cx, before, kind, case.span), case.stmts, case.stmts@.len());
    }
}

/// With more statements come no fewer branches.
proof fn stmts_prefix_branches(cx: Context, c: Collected, stmts: Vec<Stmt>, n: nat, m: nat)
    requires
        n <= m <= stmts@.len(),
    ensures
        visited_stmts(cx, c, stmts, n).branches <= visited_stmts(cx, c, stmts, m).branches,
    decreases m,
{
    if n < m {
        stmts_prefix_branches(cx, c, stmts, n, (m - 1) as nat);
        stmt_adds_branches(cx, visited_stmts(cx, c, stmts, (m - 1) as nat), stmts[m - 1]);
    }
}

/// With more clauses come no fewer branches.
proof fn clauses_prefix_branches(cx: Context, c: Collected, clauses: Vec<Block>, branch_id: u32, n: nat, m: nat)
    requires
        n <= m <= clauses@.len(),
    ensures
        visited_clauses(cx, c, clauses, branch_id, n).branches <= visited_clauses(
            cx,
            c,
            clauses,
            branch_id,
            m,
        ).branches,
    decreases m,
{
    if n < m {
        clauses_prefix_branches(cx, c, clauses, branch_id, n, (m - 1) as nat);
        let before = visited_clauses(cx, c, clauses, branch_id, (m - 1) as nat);
        let kind = ProbeKindView::Branch { branch_id, path_id: (m - 1) as u32 };
        let clause = clauses[m - 1];
        stmts_add_branches(cx, entered(cx, before, kind, clause.span), clause.stmts, clause.stmts@.len());
    }
}

pub(crate) proof fn item_adds_branches(cx: Context, c: Collected, item: Item)
    ensures
        visited_item(cx, c, item).branches == c.branches + item_branches(cx.source, item),
    decreases item, 0nat,
{
    match item {
        Item::Contract(name, items) => {
            items_add_branches(Context { contract: name@, ..cx }, c, items, items@.len());
        },
        Item::Function(func) => {
            if let Some(body) = func.body {
                let inner = Context { mode: mode_of(func), ..cx };
                let kind = ProbeKindView::Function { name: function_name(func) };
                let start = entered(inner, c, kind, body.span);
                let called = visited_exprs(inner, start, func.arguments, func.arguments@.len());
                exprs_add_branches(inner, start, func.arguments, func.arguments@.len());
                stmts_add_branches(inner, called, body.stmts, body.stmts@.len());
            }
        },
        Item::Other => {},
    }
}

pub(crate) proof fn items_add_branches(cx: Context, c: Collected, items: Vec<Item>, n: nat)
    ensures
        visited_items(cx, c, items, n).branches == c.branches + items_branches(cx.source, items, n),
    decreases items, n,
{
    if n != 0 && n <= items@.len() {
        items_add_branches(cx, c, items, (n - 1) as nat);
        item_adds_branches(cx, visited_items(cx, c, items, (n - 1) as nat), items[n - 1]);
    }
}

/// With more items come no fewer branches.
proof fn items_prefix_branches(cx: Context, c: Collected, items: Vec<Item>, n: nat, m: nat)
    requires
        n <= m <= items@.len(),
    ensures
        visited_items(cx, c, items, n).branches <= visited_items(cx, c, items, m).branches,
    decreases m,
{
    if n < m {
        items_prefix_branches(cx, c, items, n, (m - 1) as nat);
        item_adds_branches(cx, visited_items(cx, c, items, (m - 1) as nat), items[m - 1]);
    }
}

proof fn trimmed_inside(source: Seq<u8>, lo: int, end: int)
    requires
        lo <= end,
    ensures
        lo <= trimmed(source, lo, end) <= end,
    decreases end - lo,
{
    let n = space_len(source, lo, end);
    if n != 0 && end > lo {
        trimmed_inside(source, lo, end - n);
    }
}

proof fn exprs_prefix_ok(source: Seq<u8>, exprs: Vec<Expr>, n: nat, m: nat)
    requires
        n < m <= exprs@.len(),
        exprs_ok(source, exprs, m),
    ensures
        expr_ok(source, exprs[n as int]),
    decreases m,
{
    if n + 1 < m {
        exprs_prefix_ok(source, exprs, n, (m - 1) as nat);
    }
}

proof fn yuls_prefix_ok(source: Seq<u8>, stmts: Vec<YulStmt>, n: nat, m: nat)
    requires
        n < m <= stmts@.len(),
        yuls_ok(source, stmts, m),
    ensures
        yul_ok(source, stmts[n as int]),
    decreases m,
{
    if n + 1 < m {
        yuls_prefix_ok(source, stmts, n, (m - 1) as nat);
    }
}

proof fn cases_prefix_ok(source: Seq<u8>, cases: Vec<YulBlock>, n: nat, m: nat)
    requires
        n < m <= cases@.len(),
        cases_ok(source, cases, m),
    ensures
        yul_block_ok(source, cases[n as int]),
    decreases m,
{
    if n + 1 < m {
        cases_prefix_ok(source, cases, n, (m - 1) as nat);
    }
}

proof fn stmts_prefix_ok(source: Seq<u8>, stmts: Vec<Stmt>, n: nat, m: nat)
    requires
        n < m <= stmts@.len(),
        stmts_ok(source, stmts, m),
    ensures
        stmt_ok(source, stmts[n as int]),
    decreases m,
{
    if n + 1 < m {
        stmts_prefix_ok(source, stmts, n, (m - 1) as nat);
    }
}

proof fn clauses_prefix_ok(source: Seq<u8>, clauses: Vec<Block>, n: nat, m: nat)
    requires
        n < m <= clauses@.len(),
        clauses_ok(source, clauses, m),
    ensures
        span_ok(source, clauses[n as int].span),
        stmts_ok(source, clauses[n as int].stmts, clauses[n as int].stmts@.len()),
    decreases m,
{
    if n + 1 < m {
        clauses_prefix_ok(source, clauses, n, (m - 1) as nat);
    }
}

proof fn items_prefix_ok(source: Seq<u8>, items: Vec<Item>, n: nat, m: nat)
    requires
        n < m <= items@.len(),
        items_ok(source, items, m),
    ensures
        item_ok(source, items[n as int]),
    decreases m,
{
    if n + 1 < m {
        items_prefix_ok(source, items, n, (m - 1) as nat);
    }
}

/// Writes the code that reports a tag.
pub fn make_probe_text(mode: ProbeMode, tag: &[u8; 32]) -> (text: String)
    ensures
        text@ == probe_text(mode, tag@),
{
    let mut text = String::new();
    match mode {
        ProbeMode::Direct => {
            text.append("/// @solidity memory-safe-assembly\nassembly { mstore(0x00, 0x");
            push_hex(&mut text, tag.as_slice());
            text.append(
                ") pop(staticcall(gas(), 0xc0bEc0BEc0BeC0bEC0beC0bEC0bEC0beC0beC0BE, 0x00, 0x20, 0, 0)) }\n",
            );
        },
        ProbeMode::Library => {
            text.append("__FoundryCoverage.sendHit(0x");
            push_hex(&mut text, tag.as_slice());
            text.append("); ");
        },
    }
    assert(text@ =~= probe_text(mode, tag@));
    text
}

proof fn encoding_is_no_shorter(text: Seq<char>)
    ensures
        encode_utf8(text).len() >= text.len(),
    decreases text.len(),
{
    if text.len() > 0 {
        encoding_is_no_shorter(text.drop_first());
    }
}

proof fn later_names_are_new(source: Seq<u8>, k: nat)
    ensures
        !occurs(source, encode_utf8(scratch_name_from(source, k))),
    decreases source.len() - k,
{
    if k >= source.len() {
        reveal_strlit("__foundry_coverage_scratch");
        encoding_is_no_shorter(scratch_name_of(k));
    } else if occurs(source, encode_utf8(scratch_name_of(k))) {
        later_names_are_new(source, k + 1);
    }
}

/// The name that assembly probes give to their local variable does not occur in the source.
pub proof fn scratch_name_is_new(source: Seq<u8>)
    ensures
        !occurs(source, encode_utf8(scratch_name(source))),
{
    later_names_are_new(source, 0);
}

/// Writes the call that reports a tag in an expression and gives a value.
fn push_hit_call(text: &mut String, value: bool, tag: &[u8; 32])
    ensures
        final(text)@ == old(text)@ + hit_call(value, tag@),
{
    if value {
        text.append("__FoundryCoverage.hitTrue(0x");
    } else {
        text.append("__FoundryCoverage.hitFalse(0x");
    }
    push_hex(text, tag.as_slice());
    text.append(")");
    assert(text@ =~= old(text)@ + hit_call(value, tag@));
}

/// Writes what is put before an operand.
pub fn make_operand_text(is_or: bool, tag: &[u8; 32]) -> (text: String)
    ensures
        text@ == operand_text(is_or, tag@),
{
    let mut text = "(".to_owned();
    push_hit_call(&mut text, !is_or, tag);
    if is_or {
        text.append(" || ");
    } else {
        text.append(" && ");
    }
    assert(text@ =~= operand_text(is_or, tag@));
    text
}

/// Writes what is put behind a condition.
pub fn make_condition_text(holds: &[u8; 32], fails: &[u8; 32]) -> (text: String)
    ensures
        text@ == condition_text(holds@, fails@),
{
    let mut text = ") ? ".to_owned();
    push_hit_call(&mut text, true, holds);
    text.append(" : ");
    push_hit_call(&mut text, false, fails);
    text.append(")");
    assert(text@ =~= condition_text(holds@, fails@));
    text
}

/// A name for a local variable that does not occur in the source.
pub fn find_scratch_name(source: &[u8]) -> (name: String)
    ensures
        name@ == scratch_name(source@),
{
    let mut name = "__foundry_coverage_scratch".to_owned();
    let mut k: usize = 0;
    assert(name@ =~= scratch_name_of(0));
    while k < source.len()
        invariant
            k <= source@.len(),
            name@ == scratch_name_of(k as nat),
            scratch_name(source@) == scratch_name_from(source@, k as nat),
        decreases source@.len() - k,
    {
        if !has_bytes(source, name.as_str().as_bytes()) {
            return name;
        }
        name.push('_');
        k += 1;
        assert(name@ =~= scratch_name_of(k as nat));
    }
    name
}

/// Every insertion lies in the source, between two characters.
pub open spec fn between_characters(source: Seq<u8>, updates: Seq<SourceUpdate>) -> bool {
    forall|i: int|
        0 <= i < updates.len() ==> (#[trigger] updates[i]).at <= source.len() && is_char_boundary(
            source,
            updates[i].at as int,
        )
}

/// Behind a byte that is a character of its own another character begins.
proof fn boundary_behind_ascii(bytes: Seq<u8>, i: int)
    requires
        valid_utf8(bytes),
        0 <= i < bytes.len(),
        bytes[i] < 0x80,
    ensures
        is_char_boundary(bytes, i + 1),
{
    let b = bytes[i];
    assert(!is_continuation_byte(b)) by (bit_vector)
        requires
            b < 0x80u8,
    ;
    is_char_boundary_iff_not_is_continuation_byte(bytes, i);
    boundary_behind_boundary(bytes, i);
}

proof fn boundary_behind_boundary(bytes: Seq<u8>, i: int)
    requires
        valid_utf8(bytes),
        0 <= i < bytes.len(),
        bytes[i] < 0x80,
        is_char_boundary(bytes, i),
    ensures
        is_char_boundary(bytes, i + 1),
    decreases bytes.len(),
{
    if i == 0 {
        let b = bytes[0];
        assert(is_leading_byte_width_1(b)) by (bit_vector)
            requires
                b < 0x80u8,
        ;
        reveal_with_fuel(is_char_boundary, 2);
    } else {
        boundary_behind_boundary(pop_first_scalar(bytes), i - length_of_first_scalar(bytes));
    }
}

/// Collects the probes of a source.
pub struct StatementCollector<'a> {
    path: &'a str,
    source: &'a str,
    version: &'a Version,
    updates: Vec<SourceUpdate>,
    probes: Vec<InstrumentedCoverageProbe>,
    next_branch: u32,
    contract_name: String,
    probe_mode: ProbeMode,
    scratch: String,
}

impl<'a> StatementCollector<'a> {
    /// The offsets of the source can be held by a probe, every insertion lies between characters, and the
    /// name for a local variable is new.
    pub closed spec fn wf(&self) -> bool {
        &&& self.scratch@ == scratch_name(self.source.spec_bytes())
        &&& self.source.spec_bytes().len() <= u32::MAX
        &&& between_characters(self.source.spec_bytes(), self.updates@)
    }

    /// What the collector walks through.
    pub closed spec fn context(&self) -> Context {
        Context {
            version: *self.version,
            path: self.path@,
            source: self.source.spec_bytes(),
            contract: self.contract_name@,
            mode: self.probe_mode,
        }
    }

    /// What was collected.
    pub closed spec fn collected(&self) -> Collected {
        Collected {
            updates: self.updates@.map_values(|update: SourceUpdate| update@),
            probes: probe_views(self.probes@),
            branches: self.next_branch as nat,
        }
    }

    /// A collector at the beginning of a source, outside any contract.
    pub(crate) fn new(path: &'a str, source: &'a str, version: &'a Version) -> (collector: Self)
        requires
            source.spec_bytes().len() <= u32::MAX,
        ensures
            collector.wf(),
            collector.context() == (Context {
                version: *version,
                path: path@,
                source: source.spec_bytes(),
                contract: Seq::empty(),
                mode: ProbeMode::Direct,
            }),
            collector.collected() == (Collected { updates: Seq::empty(), probes: Seq::empty(), branches: 0 }),
    {
        let collector = StatementCollector {
            path,
            source,
            version,
            updates: Vec::new(),
            probes: Vec::new(),
            next_branch: 0,
            contract_name: String::new(),
            probe_mode: ProbeMode::Direct,
            scratch: find_scratch_name(source.as_bytes()),
        };
        assert(collector.collected().updates =~= Seq::empty());
        assert(collector.collected().probes =~= Seq::empty());
        collector
    }

    /// The insertions and probes.
    pub(crate) fn finish(self) -> (parts: (Vec<SourceUpdate>, Vec<InstrumentedCoverageProbe>))
        requires
            self.wf(),
        ensures
            between_characters(self.context().source, parts.0@),
            parts.0@.map_values(|update: SourceUpdate| update@) == self.collected().updates,
            probe_views(parts.1@) == self.collected().probes,
    {
        (self.updates, self.probes)
    }

    /// The end of a statement without a semicolon and the white space before it.
    fn trim_statement_span(&self, span: Span) -> (end: usize)
        requires
            span_ok(self.context().source, span),
        ensures
            end == statement_end(self.context().source, span),
            span.lo <= end <= span.hi,
    {
        let bytes = self.source.as_bytes();
        if span.lo < span.hi && bytes[span.hi - 1] == 0x3b {
            self.trim_space(span.lo, span.hi - 1)
        } else {
            span.hi
        }
    }

    /// The end of the text from `lo` to `hi` without the white space behind it.
    fn trim_space(&self, lo: usize, hi: usize) -> (end: usize)
        requires
            lo <= hi <= self.context().source.len(),
        ensures
            end == trimmed(self.context().source, lo as int, hi as int),
            lo <= end <= hi,
    {
        let bytes = self.source.as_bytes();
        let mut end: usize = hi;
        while end > lo
            invariant
                bytes@ == self.context().source,
                lo <= end <= hi <= bytes@.len(),
                trimmed(bytes@, lo as int, hi as int) == trimmed(bytes@, lo as int, end as int),
            decreases end,
        {
            let a: u8 = bytes[end - 1];
            let two = end - lo >= 2;
            let three = end - lo >= 3;
            if (9 <= a && a <= 13) || a == 32 {
                end -= 1;
            } else if two && bytes[end - 2] == 0xc2 && (a == 0x85 || a == 0xa0) {
                end -= 2;
            } else if three && Self::is_wide_space(bytes[end - 3], bytes[end - 2], a) {
                end -= 3;
            } else {
                return end;
            }
        }
        end
    }

    fn is_wide_space(a: u8, b: u8, c: u8) -> (wide: bool)
        ensures
            wide == is_wide_space(a, b, c),
    {
        (a == 0xe1 && b == 0x9a && c == 0x80) || (a == 0xe2 && b == 0x80 && ((0x80 <= c && c <= 0x8a) || c == 0xa8 || c
            == 0xa9 || c == 0xaf)) || (a == 0xe2 && b == 0x81 && c == 0x9f) || (a == 0xe3 && b == 0x80 && c == 0x80)
    }

    /// The offset of the first opening brace in a span.
    fn find_brace(&self, span: Span) -> (brace: Option<usize>)
        requires
            span_ok(self.context().source, span),
        ensures
            brace is Some <==> brace_at(self.context().source, span.lo as int, span.hi as int) is Some,
            brace is Some ==> brace->0 == brace_at(self.context().source, span.lo as int, span.hi as int)->0
                && brace->0 < span.hi && is_char_boundary(self.context().source, brace->0 + 1),
    {
        let bytes = self.source.as_bytes();
        proof {
            encode_utf8_valid_utf8(self.source@);
        }
        let mut at: usize = span.lo;
        while at < span.hi
            invariant
                bytes@ == self.context().source,
                valid_utf8(bytes@),
                span_ok(bytes@, span),
                span.lo <= at <= span.hi,
                brace_at(bytes@, span.lo as int, span.hi as int) == brace_at(bytes@, at as int, span.hi as int),
            decreases span.hi - at,
        {
            if bytes[at] == 0x7b {
                proof {
                    boundary_behind_ascii(bytes@, at as int);
                }
                return Some(at);
            }
            at += 1;
        }
        None
    }

    /// The tag of the next probe, which begins at `start`.
    fn make_tag(&self, start: usize) -> (tag: [u8; 32])
        ensures
            tag@ == tag_of(self.context(), start as int, self.collected().probes.len()),
    {
        let mut payload = String::new();
        payload.append("foundry-coverage:");
        self.version.push_text(&mut payload);
        payload.append(":");
        payload.append(self.path);
        payload.append(":");
        push_decimal(&mut payload, start as u64);
        payload.append(":");
        push_decimal(&mut payload, self.probes.len() as u64);
        assert(payload@ =~= tag_payload(self.context(), start as int, self.collected().probes.len()));
        keccak256(payload.as_str().as_bytes())
    }

    /// The code that reports a tag.
    fn probe_text(&self, tag: &[u8; 32]) -> (text: String)
        ensures
            text@ == probe_text(self.context().mode, tag@),
    {
        make_probe_text(self.probe_mode, tag)
    }

    fn push_update(&mut self, at: usize, text: String)
        requires
            old(self).wf(),
            at <= old(self).context().source.len(),
            is_char_boundary(old(self).context().source, at as int),
        ensures
            final(self).wf(),
            final(self).context() == old(self).context(),
            final(self).collected() == (Collected {
                updates: old(self).collected().updates.push(Insertion { at: at as int, text: text@ }),
                ..old(self).collected()
            }),
    {
        self.updates.push(SourceUpdate { at, text });
        assert(self.collected().updates =~= old(self).collected().updates.push(
            Insertion { at: at as int, text: text@ },
        ));
    }

    /// Records a probe for a statement or block that ends at `end`.
    fn record_probe(&mut self, kind: InstrumentedCoverageProbeKind, span: Span, end: usize, tag: [u8; 32])
        requires
            old(self).wf(),
            span_ok(old(self).context().source, span),
            end == statement_end(old(self).context().source, span),
            end <= span.hi,
        ensures
            final(self).wf(),
            final(self).context() == old(self).context(),
            final(self).collected() == (Collected {
                probes: old(self).collected().probes.push(probe_for(old(self).context(), kind@, span, tag@)),
                ..old(self).collected()
            }),
    {
        let probe = InstrumentedCoverageProbe {
            version: self.version.clone(),
            path: self.path.to_owned(),
            contract_name: self.contract_name.clone(),
            tag,
            kind,
            bytes: span.lo as u32..end as u32,
            lines: span.first_line + 1..span.last_line + 2,
        };
        assert(probe@ == probe_for(old(self).context(), kind@, span, tag@));
        self.probes.push(probe);
        assert(self.collected().probes =~= old(self).collected().probes.push(probe@));
    }

    /// Puts a probe before a statement.
    fn push_probe_kind(&mut self, kind: InstrumentedCoverageProbeKind, span: Span)
        requires
            old(self).wf(),
            span_ok(old(self).context().source, span),
        ensures
            final(self).wf(),
            final(self).context() == old(self).context(),
            final(self).collected() == probed(old(self).context(), old(self).collected(), kind@, span),
    {
        let end = self.trim_statement_span(span);
        if end == span.lo {
            return ;
        }
        let tag = self.make_tag(span.lo);
        let text = self.probe_text(&tag);
        self.push_update(span.lo, text);
        self.record_probe(kind, span, end, tag);
    }

    /// Puts a statement probe before a statement.
    fn push_probe(&mut self, span: Span)
        requires
            old(self).wf(),
            span_ok(old(self).context().source, span),
        ensures
            final(self).wf(),
            final(self).context() == old(self).context(),
            final(self).collected() == probed(
                old(self).context(),
                old(self).collected(),
                ProbeKindView::Statement,
                span,
            ),
    {
        self.push_probe_kind(InstrumentedCoverageProbeKind::Statement, span);
    }

    /// Puts a probe before a requirement and one behind it.
    fn push_require_branch(&mut self, span: Span)
        requires
            old(self).wf(),
            span_ok(old(self).context().source, span),
            required(old(self).context(), old(self).collected(), span).branches <= u32::MAX,
        ensures
            final(self).wf(),
            final(self).context() == old(self).context(),
            final(self).collected() == required(old(self).context(), old(self).collected(), span),
    {
        let end = self.trim_statement_span(span);
        if end == span.lo {
            return ;
        }
        let branch_id = self.next_branch_id();
        let pre = self.make_tag(span.lo);
        let text = self.probe_text(&pre);
        self.push_update(span.lo, text);
        self.record_probe(InstrumentedCoverageProbeKind::RequirePre { branch_id }, span, end, pre);
        let post = self.make_tag(end);
        let text = self.probe_text(&post);
        self.push_update(span.hi, text);
        self.record_probe(InstrumentedCoverageProbeKind::RequirePost { branch_id }, span, end, post);
    }

    /// Puts an opening brace and a probe before a statement.
    fn open_and_probe(&mut self, span: Span, kind: InstrumentedCoverageProbeKind)
        requires
            old(self).wf(),
            span_ok(old(self).context().source, span),
        ensures
            final(self).wf(),
            final(self).context() == old(self).context(),
            final(self).collected() == opened(old(self).context(), old(self).collected(), kind@, span),
    {
        let end = self.trim_statement_span(span);
        if end == span.lo {
            return ;
        }
        let tag = self.make_tag(span.lo);
        let mut text = "{ ".to_owned();
        let probe = self.probe_text(&tag);
        text.append(probe.as_str());
        self.push_update(span.lo, text);
        self.record_probe(kind, span, end, tag);
    }

    /// Puts the closing brace behind a statement.
    fn close_up(&mut self, span: Span)
        requires
            old(self).wf(),
            span_ok(old(self).context().source, span),
        ensures
            final(self).wf(),
            final(self).context() == old(self).context(),
            final(self).collected() == closed_up(old(self).context(), old(self).collected(), span),
    {
        let end = self.trim_statement_span(span);
        if end == span.lo {
            return ;
        }
        self.push_update(span.hi, " }".to_owned());
    }

    /// Adds the path that passes over the statement of an `if` without an `else`, with a probe in it.
    fn push_else_probe(&mut self, span: Span, kind: InstrumentedCoverageProbeKind)
        requires
            old(self).wf(),
            span_ok(old(self).context().source, span),
        ensures
            final(self).wf(),
            final(self).context() == old(self).context(),
            final(self).collected() == passed_over(old(self).context(), old(self).collected(), kind@, span),
    {
        let end = self.trim_statement_span(span);
        if end == span.lo {
            return ;
        }
        let tag = self.make_tag(span.lo);
        let mut text = " else { ".to_owned();
        let probe = self.probe_text(&tag);
        text.append(probe.as_str());
        text.append(" }");
        self.push_update(span.hi, text);
        self.record_probe(kind, span, end, tag);
    }

    /// Puts a probe behind the opening brace of a block.
    fn push_block_entry_probe(&mut self, span: Span, kind: InstrumentedCoverageProbeKind)
        requires
            old(self).wf(),
            span_ok(old(self).context().source, span),
        ensures
            final(self).wf(),
            final(self).context() == old(self).context(),
            final(self).collected() == entered(old(self).context(), old(self).collected(), kind@, span),
    {
        let end = self.trim_statement_span(span);
        if end == span.lo {
            return ;
        }
        let brace: usize = match self.find_brace(span) {
            Some(brace) => brace,
            None => {
                return ;
            },
        };
        let tag = self.make_tag(span.lo);
        let text = self.probe_text(&tag);
        self.push_update(brace + 1, text);
        self.record_probe(kind, span, end, tag);
    }

    /// Puts a call before an operand that reports when the operand is evaluated.
    fn open_operand(&mut self, is_or: bool, kind: InstrumentedCoverageProbeKind, span: Span)
        requires
            old(self).wf(),
            span_ok(old(self).context().source, span),
        ensures
            final(self).wf(),
            final(self).context() == old(self).context(),
            final(self).collected() == operand_opened(old(self).context(), old(self).collected(), is_or, kind@, span),
    {
        let end = self.trim_statement_span(span);
        if end == span.lo {
            return ;
        }
        let tag = self.make_tag(span.lo);
        self.push_update(span.lo, make_operand_text(is_or, &tag));
        self.record_probe(kind, span, end, tag);
    }

    /// Puts the parenthesis behind an operand.
    fn close_operand(&mut self, span: Span)
        requires
            old(self).wf(),
            span_ok(old(self).context().source, span),
        ensures
            final(self).wf(),
            final(self).context() == old(self).context(),
            final(self).collected() == operand_closed(old(self).context(), old(self).collected(), span),
    {
        let end = self.trim_statement_span(span);
        if end == span.lo {
            return ;
        }
        self.push_update(span.hi, ")".to_owned());
    }

    /// Puts calls behind a condition that report which of the two expressions is evaluated.
    fn close_condition(&mut self, cond: Span, holds: Span, fails: Span, branch_id: u32)
        requires
            old(self).wf(),
            span_ok(old(self).context().source, cond),
            span_ok(old(self).context().source, holds),
            span_ok(old(self).context().source, fails),
        ensures
            final(self).wf(),
            final(self).context() == old(self).context(),
            final(self).collected() == condition_closed(
                old(self).context(),
                old(self).collected(),
                cond,
                holds,
                fails,
                branch_id,
            ),
    {
        let first = self.make_tag(holds.lo);
        let end = self.trim_statement_span(holds);
        self.record_probe(InstrumentedCoverageProbeKind::Branch { branch_id, path_id: 0 }, holds, end, first);
        let second = self.make_tag(fails.lo);
        let end = self.trim_statement_span(fails);
        self.record_probe(InstrumentedCoverageProbeKind::Branch { branch_id, path_id: 1 }, fails, end, second);
        self.push_update(cond.hi, make_condition_text(&first, &second));
    }

    /// The code that reports a tag between assembly statements.
    fn yul_probe_text(&self, tag: &[u8; 32]) -> (text: String)
        requires
            self.wf(),
        ensures
            text@ == yul_probe_text(self.context().source, tag@),
    {
        let mut text = "{ let ".to_owned();
        text.append(self.scratch.as_str());
        text.append(" := mload(0x00) mstore(0x00, 0x");
        push_hex(&mut text, tag.as_slice());
        text.append(
            ") pop(staticcall(gas(), 0xc0bEc0BEc0BeC0bEC0beC0bEC0bEC0beC0beC0BE, 0x00, 0x20, 0, 0)) mstore(0x00, ",
        );
        text.append(self.scratch.as_str());
        text.append(") } ");
        assert(text@ =~= yul_probe_text(self.context().source, tag@));
        text
    }

    /// Puts a probe before an assembly statement.
    fn push_yul_probe(&mut self, span: Span)
        requires
            old(self).wf(),
            span_ok(old(self).context().source, span),
        ensures
            final(self).wf(),
            final(self).context() == old(self).context(),
            final(self).collected() == yul_probed(old(self).context(), old(self).collected(), span),
    {
        let end = self.trim_statement_span(span);
        if end == span.lo {
            return ;
        }
        let tag = self.make_tag(span.lo);
        let text = self.yul_probe_text(&tag);
        self.push_update(span.lo, text);
        self.record_probe(InstrumentedCoverageProbeKind::Statement, span, end, tag);
    }

    /// Puts a probe behind the opening brace of an assembly block.
    fn push_yul_entry_probe(&mut self, span: Span, kind: InstrumentedCoverageProbeKind)
        requires
            old(self).wf(),
            span_ok(old(self).context().source, span),
        ensures
            final(self).wf(),
            final(self).context() == old(self).context(),
            final(self).collected() == yul_entered(old(self).context(), old(self).collected(), kind@, span),
    {
        let end = self.trim_statement_span(span);
        if end == span.lo {
            return ;
        }
        let brace: usize = match self.find_brace(span) {
            Some(brace) => brace,
            None => {
                return ;
            },
        };
        let tag = self.make_tag(span.lo);
        let text = self.yul_probe_text(&tag);
        self.push_update(brace + 1, text);
        self.record_probe(kind, span, end, tag);
    }

    /// The number of the next branch.
    fn next_branch_id(&mut self) -> (branch_id: u32)
        requires
            old(self).wf(),
            old(self).collected().branches < u32::MAX,
        ensures
            branch_id == old(self).collected().branches,
            final(self).wf(),
            final(self).context() == old(self).context(),
            final(self).collected() == with_branch(old(self).collected()),
    {
        let branch_id = self.next_branch;
        self.next_branch = branch_id + 1;
        branch_id
    }

    /// Whether an expression is a call of `require`.
    pub fn is_require_expr(expr: &Expr) -> (is_require: bool)
        ensures
            is_require == calls_require(*expr),
    {
        match &expr.peel_parens().kind {
            ExprKind::Call(callee, _) => match &callee.peel_parens().kind {
                ExprKind::Ident(name) => *name == "require".to_owned(),
                _ => false,
            },
            _ => false,
        }
    }

    /// Whether a statement is a call of `require`.
    pub fn is_require_stmt(stmt: &Stmt) -> (is_require: bool)
        ensures
            is_require == stmt_calls_require(*stmt),
    {
        match &stmt.kind {
            StmtKind::Expr(expr) => Self::is_require_expr(expr),
            _ => false,
        }
    }

    /// The name that a function is reported under.
    pub fn function_name(func: &ItemFunction) -> (name: String)
        requires
            func.name is None ==> func.kind != FunctionKind::Function && func.kind != FunctionKind::Modifier,
        ensures
            name@ == function_name(*func),
    {
        match &func.name {
            Some(name) => name.clone(),
            None => match func.kind {
                FunctionKind::Constructor => "constructor".to_owned(),
                FunctionKind::Fallback => "fallback".to_owned(),
                _ => "receive".to_owned(),
            },
        }
    }

    /// Whether a function gets probes: it has a body and does more than receive.
    pub fn should_instrument_function(func: &ItemFunction) -> (should: bool)
        ensures
            should == (func.kind != FunctionKind::Receive && func.body is Some),
    {
        func.kind != FunctionKind::Receive && func.body.is_some()
    }

    /// Whether a comment leaves out what begins at `start`.
    fn is_ignored(&self, start: usize) -> (ignored: bool)
        requires
            start <= self.context().source.len(),
        ensures
            ignored == is_ignored(self.context().source, start as int),
    {
        let bytes = self.source.as_bytes();
        let comment = "// istanbul ignore next".as_bytes();
        let end = self.trim_space(0, start);
        end >= comment.len() && has_bytes_at(bytes, end - comment.len(), comment)
    }

    /// Visits an expression.
    fn visit_expr(&mut self, expr: &Expr)
        requires
            old(self).wf(),
            expr_ok(old(self).context().source, *expr),
            visited_expr(old(self).context(), old(self).collected(), *expr).branches <= u32::MAX,
        ensures
            final(self).wf(),
            final(self).context() == old(self).context(),
            final(self).collected() == visited_expr(old(self).context(), old(self).collected(), *expr),
        decreases expr, 0nat,
    {
        let ghost cx = self.context();
        let ghost c = self.collected();
        match &expr.kind {
            ExprKind::Ident(_) => {},
            ExprKind::Call(callee, args) => {
                proof {
                    exprs_add_branches(cx, visited_expr(cx, c, **callee), *args, args@.len());
                }
                self.visit_expr(callee);
                self.visit_exprs(args);
            },
            ExprKind::Paren(inner) => self.visit_expr(inner),
            ExprKind::Or(left, right) => {
                proof {
                    let b = c.branches as u32;
                    operand_adds_branches(cx, with_branch(c), **left, true, b, 0);
                    let first = visited_operand(cx, with_branch(c), **left, true, b, 0);
                    operand_adds_branches(cx, first, **right, true, b, 1);
                }
                let branch_id = self.next_branch_id();
                self.visit_operand(left, true, branch_id, 0);
                self.visit_operand(right, true, branch_id, 1);
            },
            ExprKind::And(left, right) => {
                proof {
                    let b = c.branches as u32;
                    operand_adds_branches(cx, with_branch(c), **left, false, b, 0);
                    let first = visited_operand(cx, with_branch(c), **left, false, b, 0);
                    operand_adds_branches(cx, first, **right, false, b, 1);
                }
                let branch_id = self.next_branch_id();
                self.visit_operand(left, false, branch_id, 0);
                self.visit_operand(right, false, branch_id, 1);
            },
            ExprKind::Ternary(cond, holds, fails) => {
                proof {
                    let start = condition_opened(with_branch(c), cond.span);
                    let tested = visited_expr(cx, start, **cond);
                    let b = c.branches as u32;
                    let decided = condition_closed(cx, tested, cond.span, holds.span, fails.span, b);
                    expr_adds_branches(cx, start, **cond);
                    expr_adds_branches(cx, decided, **holds);
                    expr_adds_branches(cx, visited_expr(cx, decided, **holds), **fails);
                    assert(expr_ok(cx.source, **cond) && expr_ok(cx.source, **holds) && expr_ok(cx.source, **fails));
                }
                let branch_id = self.next_branch_id();
                self.push_update(cond.span.lo, "((".to_owned());
                self.visit_expr(cond);
                self.close_condition(cond.span, holds.span, fails.span, branch_id);
                self.visit_expr(holds);
                self.visit_expr(fails);
            },
            ExprKind::Other(parts) => self.visit_exprs(parts),
        }
    }

    /// Visits an operand, which is a path of its branch.
    fn visit_operand(&mut self, operand: &Expr, is_or: bool, branch_id: u32, path_id: u32)
        requires
            old(self).wf(),
            expr_ok(old(self).context().source, *operand),
            visited_operand(old(self).context(), old(self).collected(), *operand, is_or, branch_id, path_id).branches
                <= u32::MAX,
        ensures
            final(self).wf(),
            final(self).context() == old(self).context(),
            final(self).collected() == visited_operand(
                old(self).context(),
                old(self).collected(),
                *operand,
                is_or,
                branch_id,
                path_id,
            ),
        decreases operand, 1nat,
    {
        assert(span_ok(self.context().source, operand.span));
        self.open_operand(is_or, InstrumentedCoverageProbeKind::Branch { branch_id, path_id }, operand.span);
        self.visit_expr(operand);
        self.close_operand(operand.span);
    }

    /// Visits expressions in turn.
    fn visit_exprs(&mut self, exprs: &Vec<Expr>)
        requires
            old(self).wf(),
            exprs_ok(old(self).context().source, *exprs, exprs@.len()),
            visited_exprs(old(self).context(), old(self).collected(), *exprs, exprs@.len()).branches <= u32::MAX,
        ensures
            final(self).wf(),
            final(self).context() == old(self).context(),
            final(self).collected() == visited_exprs(
                old(self).context(),
                old(self).collected(),
                *exprs,
                exprs@.len(),
            ),
        decreases exprs, exprs@.len(),
    {
        let ghost cx = self.context();
        let ghost c = self.collected();
        let mut n: usize = 0;
        while n < exprs.len()
            invariant
                n <= exprs@.len(),
                self.wf(),
                self.context() == cx,
                exprs_ok(cx.source, *exprs, exprs@.len()),
                visited_exprs(cx, c, *exprs, exprs@.len()).branches <= u32::MAX,
                self.collected() == visited_exprs(cx, c, *exprs, n as nat),
            decreases exprs@.len() - n,
        {
            proof {
                exprs_prefix_ok(cx.source, *exprs, n as nat, exprs@.len());
                exprs_prefix_branches(cx, c, *exprs, (n + 1) as nat, exprs@.len());
            }
            self.visit_expr(&exprs[n]);
            n += 1;
        }
    }

    /// Visits an assembly statement.
    fn visit_yul(&mut self, stmt: &YulStmt)
        requires
            old(self).wf(),
            yul_ok(old(self).context().source, *stmt),
            visited_yul(old(self).context(), old(self).collected(), *stmt).branches <= u32::MAX,
        ensures
            final(self).wf(),
            final(self).context() == old(self).context(),
            final(self).collected() == visited_yul(old(self).context(), old(self).collected(), *stmt),
        decreases stmt, 0nat,
    {
        let ghost cx = self.context();
        let ghost c = self.collected();
        match &stmt.kind {
            YulStmtKind::Plain => self.push_yul_probe(stmt.span),
            YulStmtKind::Block(block) | YulStmtKind::Function(block) => {
                assert(yul_block_ok(cx.source, *block));
                self.visit_yuls(&block.stmts);
            },
            YulStmtKind::If(block) => {
                proof {
                    let kind = ProbeKindView::Branch { branch_id: c.branches as u32, path_id: 0 };
                    let start = yul_entered(cx, with_branch(c), kind, block.span);
                    yuls_add_branches(cx, start, block.stmts, block.stmts@.len());
                    assert(yul_block_ok(cx.source, *block));
                }
                let branch_id = self.next_branch_id();
                let kind = InstrumentedCoverageProbeKind::Branch { branch_id, path_id: 0 };
                self.push_yul_entry_probe(block.span, kind);
                self.visit_yuls(&block.stmts);
            },
            YulStmtKind::Switch(cases) => {
                proof {
                    cases_add_branches(cx, with_branch(c), *cases, c.branches as u32, cases@.len());
                }
                let branch_id = self.next_branch_id();
                self.visit_cases(cases, branch_id);
            },
            YulStmtKind::For(init, step, body) => {
                proof {
                    let before = visited_yuls(cx, c, init.stmts, init.stmts@.len());
                    let after = visited_yuls(cx, before, step.stmts, step.stmts@.len());
                    let start = yul_entered(cx, after, ProbeKindView::Statement, body.span);
                    yuls_add_branches(cx, before, step.stmts, step.stmts@.len());
                    yuls_add_branches(cx, start, body.stmts, body.stmts@.len());
                    assert(yul_block_ok(cx.source, *init) && yul_block_ok(cx.source, *step) && yul_block_ok(
                        cx.source,
                        *body,
                    ));
                }
                self.visit_yuls(&init.stmts);
                self.visit_yuls(&step.stmts);
                self.push_yul_entry_probe(body.span, InstrumentedCoverageProbeKind::Statement);
                self.visit_yuls(&body.stmts);
            },
        }
    }

    /// Visits assembly statements in turn.
    fn visit_yuls(&mut self, stmts: &Vec<YulStmt>)
        requires
            old(self).wf(),
            yuls_ok(old(self).context().source, *stmts, stmts@.len()),
            visited_yuls(old(self).context(), old(self).collected(), *stmts, stmts@.len()).branches <= u32::MAX,
        ensures
            final(self).wf(),
            final(self).context() == old(self).context(),
            final(self).collected() == visited_yuls(old(self).context(), old(self).collected(), *stmts, stmts@.len()),
        decreases stmts, stmts@.len(),
    {
        let ghost cx = self.context();
        let ghost c = self.collected();
        let mut n: usize = 0;
        while n < stmts.len()
            invariant
                n <= stmts@.len(),
                self.wf(),
                self.context() == cx,
                yuls_ok(cx.source, *stmts, stmts@.len()),
                visited_yuls(cx, c, *stmts, stmts@.len()).branches <= u32::MAX,
                self.collected() == visited_yuls(cx, c, *stmts, n as nat),
            decreases stmts@.len() - n,
        {
            proof {
                yuls_prefix_ok(cx.source, *stmts, n as nat, stmts@.len());
                yuls_prefix_branches(cx, c, *stmts, (n + 1) as nat, stmts@.len());
            }
            self.visit_yul(&stmts[n]);
            n += 1;
        }
    }

    /// Visits the cases of a selection, each a path of its branch.
    fn visit_cases(&mut self, cases: &Vec<YulBlock>, branch_id: u32)
        requires
            old(self).wf(),
            cases_ok(old(self).context().source, *cases, cases@.len()),
            visited_cases(old(self).context(), old(self).collected(), *cases, branch_id, cases@.len()).branches
                <= u32::MAX,
        ensures
            final(self).wf(),
            final(self).context() == old(self).context(),
            final(self).collected() == visited_cases(
                old(self).context(),
                old(self).collected(),
                *cases,
                branch_id,
                cases@.len(),
            ),
        decreases cases, cases@.len(),
    {
        let ghost cx = self.context();
        let ghost c = self.collected();
        let mut n: usize = 0;
        while n < cases.len()
            invariant
                n <= cases@.len(),
                self.wf(),
                self.context() == cx,
                cases_ok(cx.source, *cases, cases@.len()),
                visited_cases(cx, c, *cases, branch_id, cases@.len()).branches <= u32::MAX,
                self.collected() == visited_cases(cx, c, *cases, branch_id, n as nat),
            decreases cases@.len() - n,
        {
            let case = &cases[n];
            proof {
                cases_prefix_ok(cx.source, *cases, n as nat, cases@.len());
                cases_prefix_branches(cx, c, *cases, branch_id, (n + 1) as nat, cases@.len());
            }
            let kind = InstrumentedCoverageProbeKind::Branch { branch_id, path_id: n as u32 };
            self.push_yul_entry_probe(case.span, kind);
            self.visit_yuls(&case.stmts);
            n += 1;
        }
    }

    /// Visits the expressions and the assembly in a statement.
    fn visit_parts(&mut self, stmt: &Stmt)
        requires
            old(self).wf(),
            stmt_ok(old(self).context().source, *stmt),
            visited_parts(old(self).context(), old(self).collected(), *stmt).branches <= u32::MAX,
        ensures
            final(self).wf(),
            final(self).context() == old(self).context(),
            final(self).collected() == visited_parts(old(self).context(), old(self).collected(), *stmt),
    {
        match &stmt.kind {
            StmtKind::Assembly(block) => {
                if self.probe_mode == ProbeMode::Direct {
                    assert(yul_block_ok(self.context().source, *block));
                    self.visit_yuls(&block.stmts);
                }
            },
            StmtKind::DeclSingle(exprs) | StmtKind::DeclMulti(exprs) | StmtKind::Emit(exprs) | StmtKind::Return(exprs)
            | StmtKind::Revert(exprs) => self.visit_exprs(exprs),
            StmtKind::Expr(expr) => self.visit_expr(expr),
            _ => {},
        }
    }

    /// Visits a statement.
    pub(crate) fn visit_stmt(&mut self, stmt: &Stmt)
        requires
            old(self).wf(),
            stmt_ok(old(self).context().source, *stmt),
            visited_stmt(old(self).context(), old(self).collected(), *stmt).branches <= u32::MAX,
        ensures
            final(self).wf(),
            final(self).context() == old(self).context(),
            final(self).collected() == visited_stmt(old(self).context(), old(self).collected(), *stmt),
        decreases stmt, 0nat,
    {
        let ghost cx = self.context();
        let ghost c = self.collected();
        match &stmt.kind {
            StmtKind::Placeholder => {},
            StmtKind::Expr(expr) => {
                proof {
                    parts_add_branches(cx, required(cx, c, stmt.span), *stmt);
                }
                if Self::is_require_expr(expr) {
                    self.push_require_branch(stmt.span);
                } else {
                    self.push_probe(stmt.span);
                }
                self.visit_parts(stmt);
            },
            StmtKind::Block(block) | StmtKind::UncheckedBlock(block) => {
                self.visit_stmts(&block.stmts);
            },
            StmtKind::If(cond, body, other) => {
                let ghost tested = visited_expr(cx, c, *cond);
                proof {
                    let branch_id = tested.branches as u32;
                    let kind = ProbeKindView::Branch { branch_id, path_id: 0 };
                    let taken = visited_body(cx, with_branch(tested), **body, kind);
                    body_adds_branches(cx, with_branch(tested), **body, kind);
                    if let Some(other) = other {
                        body_adds_branches(cx, taken, **other, ProbeKindView::Branch { branch_id, path_id: 1 });
                    }
                }
                self.visit_expr(cond);
                let branch_id = self.next_branch_id();
                self.visit_control_body(body, InstrumentedCoverageProbeKind::Branch { branch_id, path_id: 0 });
                let kind = InstrumentedCoverageProbeKind::Branch { branch_id, path_id: 1 };
                match other {
                    Some(other) => self.visit_control_body(other, kind),
                    None => {
                        assert(stmt_ok(cx.source, **body));
                        self.push_else_probe(body.span, kind)
                    },
                }
            },
            StmtKind::Try(call, clauses) => {
                let ghost called = visited_expr(cx, c, *call);
                proof {
                    let branch_id = called.branches as u32;
                    clauses_add_branches(cx, with_branch(called), *clauses, branch_id, clauses@.len());
                }
                self.visit_expr(call);
                let branch_id = self.next_branch_id();
                self.visit_clauses(clauses, branch_id);
            },
            StmtKind::While(cond, body) => {
                proof {
                    body_adds_branches(cx, visited_expr(cx, c, *cond), **body, ProbeKindView::Statement);
                }
                self.visit_expr(cond);
                self.visit_control_body(body, InstrumentedCoverageProbeKind::Statement);
            },
            StmtKind::DoWhile(body, cond) => {
                proof {
                    expr_adds_branches(cx, visited_body(cx, c, **body, ProbeKindView::Statement), *cond);
                }
                self.visit_control_body(body, InstrumentedCoverageProbeKind::Statement);
                self.visit_expr(cond);
            },
            StmtKind::For(exprs, body) => {
                proof {
                    let stepped = visited_exprs(cx, c, *exprs, exprs@.len());
                    body_adds_branches(cx, stepped, **body, ProbeKindView::Statement);
                }
                self.visit_exprs(exprs);
                self.visit_control_body(body, InstrumentedCoverageProbeKind::Statement);
            },
            _ => {
                self.push_probe(stmt.span);
                self.visit_parts(stmt);
            },
        }
    }

    /// Visits the clauses of a `try` statement, each a path of its branch.
    fn visit_clauses(&mut self, clauses: &Vec<Block>, branch_id: u32)
        requires
            old(self).wf(),
            clauses_ok(old(self).context().source, *clauses, clauses@.len()),
            visited_clauses(old(self).context(), old(self).collected(), *clauses, branch_id, clauses@.len()).branches
                <= u32::MAX,
        ensures
            final(self).wf(),
            final(self).context() == old(self).context(),
            final(self).collected() == visited_clauses(
                old(self).context(),
                old(self).collected(),
                *clauses,
                branch_id,
                clauses@.len(),
            ),
        decreases clauses, clauses@.len(),
    {
        let ghost cx = self.context();
        let ghost c = self.collected();
        let mut n: usize = 0;
        while n < clauses.len()
            invariant
                n <= clauses@.len(),
                self.wf(),
                self.context() == cx,
                clauses_ok(cx.source, *clauses, clauses@.len()),
                visited_clauses(cx, c, *clauses, branch_id, clauses@.len()).branches <= u32::MAX,
                self.collected() == visited_clauses(cx, c, *clauses, branch_id, n as nat),
            decreases clauses@.len() - n,
        {
            let clause = &clauses[n];
            proof {
                clauses_prefix_ok(cx.source, *clauses, n as nat, clauses@.len());
                clauses_prefix_branches(cx, c, *clauses, branch_id, (n + 1) as nat, clauses@.len());
            }
            let kind = InstrumentedCoverageProbeKind::Branch { branch_id, path_id: n as u32 };
            self.push_block_entry_probe(clause.span, kind);
            self.visit_try_block(clause);
            n += 1;
        }
    }

    /// Visits statements in turn.
    fn visit_stmts(&mut self, stmts: &Vec<Stmt>)
        requires
            old(self).wf(),
            stmts_ok(old(self).context().source, *stmts, stmts@.len()),
            visited_stmts(old(self).context(), old(self).collected(), *stmts, stmts@.len()).branches <= u32::MAX,
        ensures
            final(self).wf(),
            final(self).context() == old(self).context(),
            final(self).collected() == visited_stmts(
                old(self).context(),
                old(self).collected(),
                *stmts,
                stmts@.len(),
            ),
        decreases stmts, stmts@.len(),
    {
        let ghost cx = self.context();
        let ghost c = self.collected();
        let mut n: usize = 0;
        while n < stmts.len()
            invariant
                n <= stmts@.len(),
                self.wf(),
                self.context() == cx,
                stmts_ok(cx.source, *stmts, stmts@.len()),
                visited_stmts(cx, c, *stmts, stmts@.len()).branches <= u32::MAX,
                self.collected() == visited_stmts(cx, c, *stmts, n as nat),
            decreases stmts@.len() - n,
        {
            proof {
                stmts_prefix_ok(cx.source, *stmts, n as nat, stmts@.len());
                stmts_prefix_branches(cx, c, *stmts, (n + 1) as nat, stmts@.len());
            }
            self.visit_stmt(&stmts[n]);
            n += 1;
        }
    }

    /// Visits a statement that is run under a condition.
    fn visit_control_body(&mut self, stmt: &Stmt, kind: InstrumentedCoverageProbeKind)
        requires
            old(self).wf(),
            stmt_ok(old(self).context().source, *stmt),
            visited_body(old(self).context(), old(self).collected(), *stmt, kind@).branches <= u32::MAX,
        ensures
            final(self).wf(),
            final(self).context() == old(self).context(),
            final(self).collected() == visited_body(old(self).context(), old(self).collected(), *stmt, kind@),
        decreases stmt, 1nat,
    {
        match &stmt.kind {
            StmtKind::Block(block) | StmtKind::UncheckedBlock(block) => {
                self.push_block_entry_probe(block.span, kind);
                self.visit_stmt(stmt);
            },
            _ => {
                self.open_and_probe(stmt.span, kind);
                let own = match &stmt.kind {
                    StmtKind::DoWhile(..) => true,
                    StmtKind::For(..) => true,
                    StmtKind::If(..) => true,
                    StmtKind::Try(..) => true,
                    StmtKind::While(..) => true,
                    _ => Self::is_require_stmt(stmt),
                };
                if own {
                    self.visit_stmt(stmt);
                } else {
                    self.visit_parts(stmt);
                }
                self.close_up(stmt.span);
            },
        }
    }

    /// Visits the statements of a clause of a `try` statement.
    fn visit_try_block(&mut self, block: &Block)
        requires
            old(self).wf(),
            stmts_ok(old(self).context().source, block.stmts, block.stmts@.len()),
            visited_stmts(old(self).context(), old(self).collected(), block.stmts, block.stmts@.len()).branches
                <= u32::MAX,
        ensures
            final(self).wf(),
            final(self).context() == old(self).context(),
            final(self).collected() == visited_stmts(
                old(self).context(),
                old(self).collected(),
                block.stmts,
                block.stmts@.len(),
            ),
        decreases block, 0nat,
    {
        self.visit_stmts(&block.stmts);
    }

    /// Visits a function.
    fn visit_function(&mut self, func: &ItemFunction)
        requires
            old(self).wf(),
            function_ok(old(self).context().source, *func),
            visited_function(old(self).context(), old(self).collected(), *func).branches <= u32::MAX,
        ensures
            final(self).wf(),
            final(self).context() == old(self).context(),
            final(self).collected() == visited_function(old(self).context(), old(self).collected(), *func),
    {
        if !Self::should_instrument_function(func) || self.is_ignored(func.start) {
            return ;
        }
        let previous = self.probe_mode;
        self.probe_mode = if func.kind == FunctionKind::Modifier || func.is_pure {
            ProbeMode::Library
        } else {
            ProbeMode::Direct
        };
        assert(self.context() == (Context { mode: mode_of(*func), ..old(self).context() }));
        if let Some(body) = &func.body {
            let name = Self::function_name(func);
            proof {
                let inner = self.context();
                let kind = ProbeKindView::Function { name: name@ };
                let start = entered(inner, self.collected(), kind, body.span);
                let called = visited_exprs(inner, start, func.arguments, func.arguments@.len());
                stmts_add_branches(inner, called, body.stmts, body.stmts@.len());
            }
            self.push_block_entry_probe(body.span, InstrumentedCoverageProbeKind::Function { name });
            self.visit_exprs(&func.arguments);
            self.visit_stmts(&body.stmts);
        }
        self.probe_mode = previous;
        assert(self.context() == old(self).context());
    }

    /// Visits an item.
    pub(crate) fn visit_item(&mut self, item: &Item)
        requires
            old(self).wf(),
            item_ok(old(self).context().source, *item),
            visited_item(old(self).context(), old(self).collected(), *item).branches <= u32::MAX,
        ensures
            final(self).wf(),
            final(self).context() == old(self).context(),
            final(self).collected() == visited_item(old(self).context(), old(self).collected(), *item),
        decreases item, 0nat,
    {
        match item {
            Item::Contract(name, items) => self.visit_item_contract(name, items),
            Item::Function(func) => self.visit_function(func),
            Item::Other => {},
        }
    }

    /// Visits a contract: its probes carry its name.
    fn visit_item_contract(&mut self, name: &String, items: &Vec<Item>)
        requires
            old(self).wf(),
            items_ok(old(self).context().source, *items, items@.len()),
            visited_items(
                (Context { contract: name@, ..old(self).context() }),
                old(self).collected(),
                *items,
                items@.len(),
            ).branches <= u32::MAX,
        ensures
            final(self).wf(),
            final(self).context() == old(self).context(),
            final(self).collected() == visited_items(
                (Context { contract: name@, ..old(self).context() }),
                old(self).collected(),
                *items,
                items@.len(),
            ),
        decreases items, items@.len() + 1,
    {
        let previous = self.contract_name.clone();
        self.contract_name = name.clone();
        assert(self.context() == (Context { contract: name@, ..old(self).context() }));
        self.visit_items(items);
        self.contract_name = previous;
        assert(self.context() == old(self).context());
    }

    /// Visits items in turn.
    pub(crate) fn visit_items(&mut self, items: &Vec<Item>)
        requires
            old(self).wf(),
            items_ok(old(self).context().source, *items, items@.len()),
            visited_items(old(self).context(), old(self).collected(), *items, items@.len()).branches <= u32::MAX,
        ensures
            final(self).wf(),
            final(self).context() == old(self).context(),
            final(self).collected() == visited_items(
                old(self).context(),
                old(self).collected(),
                *items,
                items@.len(),
            ),
        decreases items, items@.len(),
    {
        let ghost cx = self.context();
        let ghost c = self.collected();
        let mut n: usize = 0;
        while n < items.len()
            invariant
                n <= items@.len(),
                self.wf(),
                self.context() == cx,
                items_ok(cx.source, *items, items@.len()),
                visited_items(cx, c, *items, items@.len()).branches <= u32::MAX,
                self.collected() == visited_items(cx, c, *items, n as nat),
            decreases items@.len() - n,
        {
            proof {
                items_prefix_ok(cx.source, *items, n as nat, items@.len());
                items_prefix_branches(cx, c, *items, (n + 1) as nat, items@.len());
            }
            self.visit_item(&items[n]);
            n += 1;
        }
    }
}

}
