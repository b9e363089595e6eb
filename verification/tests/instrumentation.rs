use forge_coverage::ast::{
    Block, Expr, ExprKind, FunctionKind, Item, ItemFunction, SourceUnit, Span, Stmt, StmtKind, YulBlock, YulStmt,
    YulStmtKind,
};
use forge_coverage::collector::{find_scratch_name, make_probe_text, ProbeMode, SourceUpdate};
use forge_coverage::instrumentation::{
    instrument_source, is_left_out, splice, CoverageInstrumentationPreprocessor, InputSource, COVERAGE_IMPORT,
    COVERAGE_LIBRARY_PATH, COVERAGE_LIBRARY_SOURCE,
};
use forge_coverage::instrumented::{prepare, CompiledSource, InstrumentedCoverageTagIndex, SourceFile};
use forge_coverage::item_hits::add_hits;
use forge_coverage::lcov::LcovReporter;
use forge_coverage::paths::{is_same_path, make_path_key, path_has_extension, relative_path};
use forge_coverage::probes::{
    InstrumentedCoverageMetadata, InstrumentedCoverageProbe, InstrumentedCoverageProbeKind,
};
use forge_coverage::report::CoverageReport;
use forge_coverage::summary::CoverageSummaryReporter;
use forge_coverage::table::Table;
use forge_coverage::tags::InstrumentedHitMaps;
use forge_coverage::version::Version;
use solar::interface::source_map::FileName;
use solar::interface::{Session, SourceMap, SpannedOption};
use solar::sema::Compiler;
use std::path::PathBuf;

fn to_span(map: &SourceMap, span: solar::interface::Span) -> Span {
    let range = map.span_to_source(span).unwrap().data;
    let lines = map.span_to_lines(span).unwrap().data;
    Span {
        lo: range.start,
        hi: range.end,
        first_line: lines.first().unwrap().line_index as u32,
        last_line: lines.last().unwrap().line_index as u32,
    }
}

fn to_expr(map: &SourceMap, expr: &solar::ast::Expr<'_>) -> Expr {
    let parts = |parts: Vec<&solar::ast::Expr<'_>>| -> Vec<Expr> { parts.into_iter().map(|part| to_expr(map, part)).collect() };
    let part = |part: &solar::ast::Expr<'_>| Box::new(to_expr(map, part));
    let kind = match &expr.kind {
        solar::ast::ExprKind::Ident(name) => ExprKind::Ident(name.as_str().to_string()),
        solar::ast::ExprKind::Call(callee, args) => ExprKind::Call(part(callee), parts(args.exprs().collect())),
        solar::ast::ExprKind::Binary(left, op, right) => match op.kind {
            solar::ast::BinOpKind::Or => ExprKind::Or(part(left), part(right)),
            solar::ast::BinOpKind::And => ExprKind::And(part(left), part(right)),
            _ => ExprKind::Other(parts(vec![left, right])),
        },
        solar::ast::ExprKind::Ternary(cond, holds, fails) => ExprKind::Ternary(part(cond), part(holds), part(fails)),
        solar::ast::ExprKind::Tuple(items) => {
            let items: Vec<&solar::ast::Expr<'_>> = items
                .iter()
                .filter_map(|item| match item {
                    SpannedOption::Some(item) => Some(&**item),
                    SpannedOption::None(_) => None,
                })
                .collect();
            match expr.peel_parens() {
                inner if std::ptr::eq(inner, expr) => ExprKind::Other(parts(items)),
                _ => ExprKind::Paren(part(items[0])),
            }
        }
        solar::ast::ExprKind::Array(items) => ExprKind::Other(parts(items.iter().map(|item| &**item).collect())),
        solar::ast::ExprKind::Assign(left, _, right) => ExprKind::Other(parts(vec![left, right])),
        solar::ast::ExprKind::CallOptions(callee, options) => {
            let mut items: Vec<&solar::ast::Expr<'_>> = vec![callee];
            items.extend(options.iter().map(|option| &*option.value));
            ExprKind::Other(parts(items))
        }
        solar::ast::ExprKind::Index(base, index) => {
            let (first, second) = match index {
                solar::ast::IndexKind::Index(at) => (at.as_deref(), None),
                solar::ast::IndexKind::Range(from, to) => (from.as_deref(), to.as_deref()),
            };
            let mut items: Vec<&solar::ast::Expr<'_>> = vec![base];
            items.extend(first);
            items.extend(second);
            ExprKind::Other(parts(items))
        }
        solar::ast::ExprKind::Delete(inner) | solar::ast::ExprKind::Member(inner, _) | solar::ast::ExprKind::Unary(_, inner) => {
            ExprKind::Other(parts(vec![inner]))
        }
        solar::ast::ExprKind::Payable(args) => ExprKind::Other(parts(args.exprs().collect())),
        solar::ast::ExprKind::Lit(..) | solar::ast::ExprKind::New(_) | solar::ast::ExprKind::TypeCall(_) | solar::ast::ExprKind::Type(_) => {
            ExprKind::Other(Vec::new())
        }
    };
    Expr { span: to_span(map, expr.span), kind }
}

fn to_yul_block(map: &SourceMap, block: &solar::ast::yul::Block<'_>) -> YulBlock {
    YulBlock { span: to_span(map, block.span), stmts: block.stmts.iter().map(|stmt| to_yul_stmt(map, stmt)).collect() }
}

fn to_yul_stmt(map: &SourceMap, stmt: &solar::ast::yul::Stmt<'_>) -> YulStmt {
    let kind = match &stmt.kind {
        solar::ast::yul::StmtKind::Block(block) => YulStmtKind::Block(to_yul_block(map, block)),
        solar::ast::yul::StmtKind::If(_, block) => YulStmtKind::If(to_yul_block(map, block)),
        solar::ast::yul::StmtKind::Switch(switch) => {
            YulStmtKind::Switch(switch.cases.iter().map(|case| to_yul_block(map, &case.body)).collect())
        }
        solar::ast::yul::StmtKind::For(for_) => YulStmtKind::For(
            to_yul_block(map, &for_.init),
            to_yul_block(map, &for_.step),
            to_yul_block(map, &for_.body),
        ),
        solar::ast::yul::StmtKind::FunctionDef(func) => YulStmtKind::Function(to_yul_block(map, &func.body)),
        _ => YulStmtKind::Plain,
    };
    YulStmt { span: to_span(map, stmt.span), kind }
}

fn to_block(map: &SourceMap, block: &solar::ast::Block<'_>) -> Block {
    Block { span: to_span(map, block.span), stmts: block.stmts.iter().map(|stmt| to_stmt(map, stmt)).collect() }
}

/// The expressions that a simple statement evaluates.
fn to_stmt_exprs(map: &SourceMap, stmt: &solar::ast::Stmt<'_>) -> Vec<Expr> {
    match &stmt.kind {
        solar::ast::StmtKind::DeclSingle(var) => var.initializer.iter().map(|expr| to_expr(map, expr)).collect(),
        solar::ast::StmtKind::DeclMulti(_, expr) | solar::ast::StmtKind::Expr(expr) => vec![to_expr(map, expr)],
        solar::ast::StmtKind::Return(expr) => expr.iter().map(|expr| to_expr(map, expr)).collect(),
        solar::ast::StmtKind::Emit(_, args) | solar::ast::StmtKind::Revert(_, args) => {
            args.exprs().map(|expr| to_expr(map, expr)).collect()
        }
        _ => Vec::new(),
    }
}

fn to_stmt(map: &SourceMap, stmt: &solar::ast::Stmt<'_>) -> Stmt {
    let exprs = to_stmt_exprs(map, stmt);
    let kind = match &stmt.kind {
        solar::ast::StmtKind::Assembly(assembly) => StmtKind::Assembly(to_yul_block(map, &assembly.block)),
        solar::ast::StmtKind::DeclSingle(_) => StmtKind::DeclSingle(exprs),
        solar::ast::StmtKind::DeclMulti(..) => StmtKind::DeclMulti(exprs),
        solar::ast::StmtKind::Block(block) => StmtKind::Block(to_block(map, block)),
        solar::ast::StmtKind::Break => StmtKind::Break,
        solar::ast::StmtKind::Continue => StmtKind::Continue,
        solar::ast::StmtKind::DoWhile(body, cond) => StmtKind::DoWhile(Box::new(to_stmt(map, body)), to_expr(map, cond)),
        solar::ast::StmtKind::Emit(..) => StmtKind::Emit(exprs),
        solar::ast::StmtKind::Expr(expr) => StmtKind::Expr(to_expr(map, expr)),
        solar::ast::StmtKind::For { cond, next, body, .. } => {
            let mut header: Vec<Expr> = cond.iter().map(|cond| to_expr(map, cond)).collect();
            header.extend(next.iter().map(|next| to_expr(map, next)));
            StmtKind::For(header, Box::new(to_stmt(map, body)))
        }
        solar::ast::StmtKind::If(cond, body, other) => StmtKind::If(
            to_expr(map, cond),
            Box::new(to_stmt(map, body)),
            other.as_ref().map(|other| Box::new(to_stmt(map, other))),
        ),
        solar::ast::StmtKind::Return(_) => StmtKind::Return(exprs),
        solar::ast::StmtKind::Revert(..) => StmtKind::Revert(exprs),
        solar::ast::StmtKind::Try(try_) => StmtKind::Try(
            to_expr(map, &try_.expr),
            try_.clauses.iter().map(|clause| to_block(map, &clause.block)).collect(),
        ),
        solar::ast::StmtKind::UncheckedBlock(block) => StmtKind::UncheckedBlock(to_block(map, block)),
        solar::ast::StmtKind::While(cond, body) => StmtKind::While(to_expr(map, cond), Box::new(to_stmt(map, body))),
        solar::ast::StmtKind::Placeholder => StmtKind::Placeholder,
    };
    Stmt { span: to_span(map, stmt.span), kind }
}

fn to_item(map: &SourceMap, item: &solar::ast::Item<'_>) -> Item {
    match &item.kind {
        solar::ast::ItemKind::Contract(contract) => Item::Contract(
            contract.name.as_str().to_string(),
            contract.body.iter().map(|item| to_item(map, item)).collect(),
        ),
        solar::ast::ItemKind::Function(func) => Item::Function(ItemFunction {
            start: to_span(map, item.span).lo,
            kind: match func.kind {
                solar::ast::FunctionKind::Constructor => FunctionKind::Constructor,
                solar::ast::FunctionKind::Function => FunctionKind::Function,
                solar::ast::FunctionKind::Fallback => FunctionKind::Fallback,
                solar::ast::FunctionKind::Receive => FunctionKind::Receive,
                solar::ast::FunctionKind::Modifier => FunctionKind::Modifier,
            },
            name: func.header.name.as_ref().map(|name| name.as_str().to_string()),
            is_pure: matches!(func.header.state_mutability(), solar::ast::StateMutability::Pure),
            arguments: func
                .header
                .modifiers
                .iter()
                .flat_map(|modifier| modifier.arguments.exprs())
                .map(|expr| to_expr(map, expr))
                .collect(),
            body: func.body.as_ref().map(|body| to_block(map, body)),
        }),
        _ => Item::Other,
    }
}

/// Parses a source and reads the part of its syntax tree that instrumentation needs.
fn parse(source: &str) -> SourceUnit {
    let path = PathBuf::from("Test.sol");
    let sess = Session::builder().with_buffer_emitter(Default::default()).build();
    let mut compiler = Compiler::new(sess);
    let unit = compiler.enter_mut(|compiler| {
        let src_file = compiler
            .sess()
            .source_map()
            .new_source_file(FileName::from(path.clone()), source.to_owned())
            .expect("failed to create source file");
        let mut pcx = compiler.parse();
        pcx.add_file(src_file);
        pcx.parse();
        let gcx = compiler.gcx();
        let (_, ast_source) = gcx.get_ast_source(&path).expect("missing ast source");
        let ast = ast_source.ast.as_ref().expect("missing ast");
        let map = gcx.sess.source_map();
        SourceUnit { items: ast.items.iter().map(|item| to_item(map, item)).collect() }
    });
    if let Some(Err(diags)) = compiler.sess().emitted_errors() {
        panic!("input source failed to parse:\n{diags}");
    }
    unit
}

fn instrument(source: &str) -> (String, Vec<InstrumentedCoverageProbe>) {
    let version = Version::new(0, 8, 25);
    let unit = parse(source);
    instrument_source("Test.sol", source, &version, &unit).expect("instrumentation produced no output")
}

/// Checks that an instrumented source can be parsed.
fn assert_reparses(instrumented: &str) {
    let sess = Session::builder().with_buffer_emitter(Default::default()).build();
    let mut compiler = Compiler::new(sess);
    compiler.enter_mut(|compiler| {
        let source_map = compiler.sess().source_map();
        let lib_file = source_map
            .new_source_file(
                FileName::from(PathBuf::from(COVERAGE_LIBRARY_PATH)),
                COVERAGE_LIBRARY_SOURCE.to_owned(),
            )
            .expect("failed to create library source file");
        let src_file = source_map
            .new_source_file(FileName::from(PathBuf::from("Reparse.sol")), instrumented.to_owned())
            .expect("failed to create source file");
        let mut pcx = compiler.parse();
        pcx.add_file(lib_file);
        pcx.add_file(src_file);
        pcx.parse();
    });
    if let Some(Err(diags)) = compiler.sess().emitted_errors() {
        panic!("instrumented source failed to re-parse:\n{diags}\n---\n{instrumented}");
    }
}

fn count_kind(
    probes: &[InstrumentedCoverageProbe],
    pred: impl Fn(&InstrumentedCoverageProbeKind) -> bool,
) -> usize {
    probes.iter().filter(|p| pred(&p.kind)).count()
}

fn tag_text(tag: &[u8; 32]) -> String {
    format!("{}", alloy_primitives::B256::from(*tag))
}

#[test]
fn instruments_basic_statement() {
    let (out, probes) = instrument(
        r#"
contract C {
    function f(uint256 x) external pure returns (uint256) {
        return x + 1;
    }
}
"#,
    );
    assert_reparses(&out);
    assert_eq!(count_kind(&probes, |k| matches!(k, InstrumentedCoverageProbeKind::Function { .. })), 1);
    assert!(count_kind(&probes, |k| matches!(k, InstrumentedCoverageProbeKind::Statement)) >= 1);
}

#[test]
fn instruments_require_branch() {
    let (out, probes) = instrument(
        r#"
contract C {
    function f(uint256 x) external pure {
        require(x > 0, "nonzero");
    }
}
"#,
    );
    assert_reparses(&out);
    assert_eq!(count_kind(&probes, |k| matches!(k, InstrumentedCoverageProbeKind::RequirePre { .. })), 1);
    assert_eq!(count_kind(&probes, |k| matches!(k, InstrumentedCoverageProbeKind::RequirePost { .. })), 1);
}

#[test]
fn instruments_if_else_branches() {
    let (out, probes) = instrument(
        r#"
contract C {
    function f(bool b) external pure returns (uint256 r) {
        if (b) {
            r = 1;
        } else {
            r = 2;
        }
    }
}
"#,
    );
    assert_reparses(&out);
    assert_eq!(count_kind(&probes, |k| matches!(k, InstrumentedCoverageProbeKind::Branch { .. })), 2);
}

#[test]
fn probes_are_placed_and_tagged_in_order() {
    let source = "contract C {\n    function f() external {\n        x = 1 ;\n        require(x > 0);\n    }\n}\n";
    let (out, probes) = instrument(source);
    assert_reparses(&out);
    assert_eq!(probes.len(), 4);
    let starts = [source.find("{\n        x").unwrap(), source.find("x = 1").unwrap(), source.find("require").unwrap()];
    let require_end = source.find("require(x > 0)").unwrap() + "require(x > 0)".len();
    let payload_starts = [starts[0], starts[1], starts[2], require_end];
    for (n, probe) in probes.iter().enumerate() {
        let payload = format!("foundry-coverage:0.8.25:Test.sol:{}:{}", payload_starts[n], n);
        assert_eq!(probe.tag, alloy_primitives::keccak256(payload).0);
        assert_eq!(probe.contract_name, "C");
        assert_eq!(probe.path, "Test.sol");
    }
    assert!(matches!(&probes[0].kind, InstrumentedCoverageProbeKind::Function { name } if name == "f"));
    assert!(matches!(probes[1].kind, InstrumentedCoverageProbeKind::Statement));
    assert_eq!(probes[1].bytes, starts[1] as u32..starts[1] as u32 + 5);
    assert_eq!(probes[1].lines, 3..4);
    assert!(matches!(probes[2].kind, InstrumentedCoverageProbeKind::RequirePre { branch_id: 0 }));
    assert!(matches!(probes[3].kind, InstrumentedCoverageProbeKind::RequirePost { branch_id: 0 }));
    let code = |n: usize| {
        format!(
            "/// @solidity memory-safe-assembly\nassembly {{ mstore(0x00, {}) pop(staticcall(gas(), 0xc0bEc0BEc0BeC0bEC0beC0bEC0bEC0beC0beC0BE, 0x00, 0x20, 0, 0)) }}\n",
            tag_text(&probes[n].tag)
        )
    };
    let expected = format!(
        "contract C {{\n    function f() external {{{}\n        {}x = 1 ;\n        {}require(x > 0);{}\n    }}\n}}\n\n{}\n",
        code(0),
        code(1),
        code(2),
        code(3),
        COVERAGE_IMPORT
    );
    assert_eq!(out, expected);
}

#[test]
fn control_bodies_are_wrapped_and_numbered() {
    let source = "contract C {\n    modifier m() {\n        if (a) return;\n        else if (b) require(c);\n        _;\n        try this.f() { x; } catch { y; }\n        while (a) x++;\n    }\n    receive() external payable { x; }\n    constructor() {}\n}\n";
    let (out, probes) = instrument(source);
    assert_reparses(&out);
    let kinds: Vec<String> = probes.iter().map(|probe| format!("{:?}", probe.kind)).collect();
    assert_eq!(
        kinds,
        vec![
            "Function { name: \"m\" }",
            "Branch { branch_id: 0, path_id: 0 }",
            "Branch { branch_id: 0, path_id: 1 }",
            "Branch { branch_id: 1, path_id: 0 }",
            "RequirePre { branch_id: 2 }",
            "RequirePost { branch_id: 2 }",
            "Branch { branch_id: 1, path_id: 1 }",
            "Branch { branch_id: 3, path_id: 0 }",
            "Statement",
            "Branch { branch_id: 3, path_id: 1 }",
            "Statement",
            "Statement",
            "Function { name: \"constructor\" }",
        ]
    );
    assert!(out.contains("{ __FoundryCoverage.sendHit(0x"));
    assert!(out.contains("return; }"));
}

#[test]
fn bare_if_has_two_paths() {
    let source = "contract C {\n    function pick(bool flag) external pure returns (uint256) {\n        if (flag) {\n            return 1;\n        }\n        return 2;\n    }\n}\n";
    let (out, probes) = instrument(source);
    assert_reparses(&out);
    let paths: Vec<_> = probes
        .iter()
        .filter_map(|probe| match probe.kind {
            InstrumentedCoverageProbeKind::Branch { branch_id, path_id } => {
                Some((branch_id, path_id, probe.lines.clone()))
            }
            _ => None,
        })
        .collect();
    assert_eq!(paths, vec![(0, 0, 3..6), (0, 1, 3..6)]);
    assert!(out.contains("        } else { __FoundryCoverage.sendHit(0x"));
}

#[test]
fn braceless_bodies_keep_their_probes_inside() {
    let source = "contract C {\n    function f(bool a, uint256 x) external pure {\n        if (a) require(x > 0); else require(x > 1);\n        for (uint256 i = 0; i < x; i++) if (a) require(i < x);\n    }\n}\n";
    let (out, probes) = instrument(source);
    assert_reparses(&out);
    assert_eq!(count_kind(&probes, |k| matches!(k, InstrumentedCoverageProbeKind::RequirePost { .. })), 3);
    assert!(out.contains("require(x > 0);__FoundryCoverage.sendHit(0x"));
    let post = out.find("require(x > 0);").unwrap();
    let rest = &out[post..];
    assert!(rest.find("sendHit").unwrap() < rest.find('}').unwrap());
    assert!(rest.find('}').unwrap() < rest.find("else").unwrap());
}

#[test]
fn source_without_places_is_left_alone() {
    let source = "contract C {\n    uint256 x;\n    function f() external;\n}\n";
    assert!(instrument_source("Test.sol", source, &Version::new(0, 8, 25), &parse(source)).is_none());
}

#[test]
fn splicing_keeps_the_order_of_insertions() {
    let updates = vec![
        SourceUpdate { at: 3, text: "<b>".to_string() },
        SourceUpdate { at: 0, text: "<a>".to_string() },
        SourceUpdate { at: 3, text: "<c>".to_string() },
        SourceUpdate { at: 6, text: "<d>".to_string() },
    ];
    assert_eq!(splice("xéyz!", updates), "<a>xé<b><c>yz!<d>");
}

#[test]
fn probe_text_depends_on_the_mode() {
    let tag = [0xabu8; 32];
    let digits = "ab".repeat(32);
    assert_eq!(
        make_probe_text(ProbeMode::Library, &tag),
        format!("__FoundryCoverage.sendHit(0x{digits}); ")
    );
    let start = format!("/// @solidity memory-safe-assembly\nassembly {{ mstore(0x00, 0x{digits})");
    assert!(make_probe_text(ProbeMode::Direct, &tag).starts_with(&start));
}

fn preprocessor(excluded: Option<&str>) -> CoverageInstrumentationPreprocessor {
    CoverageInstrumentationPreprocessor::new(
        InstrumentedCoverageMetadata::new(),
        false,
        true,
        excluded.map(|pattern| regex::Regex::new(pattern).unwrap()),
    )
}

#[test]
fn sources_are_selected() {
    let all = preprocessor(None);
    assert!(all.should_instrument(&"/p/src/A.sol".to_string(), false, false, "/p"));
    assert!(!all.should_instrument(&"/p/src/A.vy".to_string(), false, false, "/p"));
    assert!(!all.should_instrument(&"/p/lib/A.sol".to_string(), true, false, "/p"));
    assert!(!all.should_instrument(&"/p/test/A.t.sol".to_string(), false, true, "/p"));
    assert!(!all.should_instrument(&COVERAGE_LIBRARY_PATH.to_string(), false, false, "/p"));
    let some = preprocessor(Some("^src/A"));
    assert!(!some.should_instrument(&"/p/src/A.sol".to_string(), false, false, "/p"));
    assert!(some.should_instrument(&"/p/src/B.sol".to_string(), false, false, "/p"));
    assert!(some.should_instrument(&"/q/src/A.sol".to_string(), false, false, "/p"));
    assert!(!some.should_instrument_given(&"/p/src/B.sol".to_string(), false, false, true));
    assert!(some.should_instrument_given(&"/p/src/B.sol".to_string(), false, false, false));
}

#[test]
fn relative_paths() {
    assert_eq!(relative_path("/p/src/A.sol", "/p"), "src/A.sol");
    assert_eq!(relative_path("/p/src/A.sol", "/p/"), "src/A.sol");
    assert_eq!(relative_path("/pq/A.sol", "/p"), "/pq/A.sol");
    assert_eq!(relative_path("src/A.sol", ""), "src/A.sol");
    let paths = [
        "", "/", ".", "./", "/.", "a", "a/", "a/.", "a//b", "./a", "./a/./b//", "/p//src/A.sol", "/p/./src/A.sol/",
        "/p/../x", "/pq", "p/.hidden", "a.sol/", "a.sol/..", "..", "../a", ".a/b", "a./b.", "!a", "a b/c", "é/x", "a/../b",
    ];
    let roots = ["", "/", ".", "/p", "/p/", "/p//", "/./p", "a", "./a", "a/", "..", "p"];
    for path in paths {
        let std_path = std::path::Path::new(path);
        for root in roots {
            let expected = std_path.strip_prefix(root).unwrap_or(std_path);
            assert_eq!(relative_path(path, root), expected.to_str().unwrap(), "{path:?} in {root:?}");
            assert_eq!(is_same_path(path, root), std_path == std::path::Path::new(root), "{path:?} and {root:?}");
        }
        for other in paths {
            let order = make_path_key(path).cmp(&make_path_key(other));
            assert_eq!(order, std_path.cmp(std::path::Path::new(other)), "{path:?} and {other:?}");
        }
        let is_solidity = std_path.extension().and_then(|ext| ext.to_str()) == Some("sol");
        assert_eq!(path_has_extension(path, "sol"), is_solidity, "{path:?}");
    }
}

#[test]
fn preprocessing_rewrites_sources_and_adds_the_library() {
    let source = "contract C { function f() external { x = 1; } }\n";
    let input = |path: &str, content: &str, in_library: bool| InputSource {
        path: path.to_string(),
        content: content.to_string(),
        in_library,
        is_test: false,
        unit: Some(parse(content)),
    };
    let mut sources: Table<InputSource> = Table::new();
    sources.put(input("src/B.sol", source, false));
    sources.put(input("lib/A.sol", source, true));
    let version = Version::new(0, 8, 25);

    let mut preprocessor = preprocessor(None);
    preprocessor.preprocess_solc(&mut sources, "", &version, false);
    assert_eq!(sources.entries.len(), 2);
    assert_eq!(preprocessor.metadata.probes.len(), 0);

    preprocessor.preprocess_solc(&mut sources, "", &version, true);
    let paths: Vec<&str> = sources.entries.iter().map(|entry| entry.path.as_str()).collect();
    assert_eq!(paths, vec![COVERAGE_LIBRARY_PATH, "lib/A.sol", "src/B.sol"]);
    assert_eq!(sources.entries[0].content, COVERAGE_LIBRARY_SOURCE);
    assert_eq!(sources.entries[1].content, source);
    assert!(sources.entries[2].content.ends_with(&format!("}}\n\n{COVERAGE_IMPORT}\n")));
    assert_eq!(preprocessor.metadata.probes.len(), 2);
}

/// Instruments a source and prepares its report, with the probes and the index of their tags.
fn prepared(source: &str) -> (CoverageReport, InstrumentedCoverageTagIndex, Vec<InstrumentedCoverageProbe>) {
    let (out, probes) = instrument(source);
    assert_reparses(&out);
    let files = vec![SourceFile {
        path: "Test.sol".to_string(),
        in_library: false,
        is_test: false,
        sources: vec![CompiledSource { build_id: "b".to_string(), version: Version::new(0, 8, 25), id: 0 }],
    }];
    let metadata = InstrumentedCoverageMetadata { probes };
    let (report, index) = prepare(&files, &metadata, false, true);
    (report, index, metadata.probes)
}

fn counts(source: &str) -> (usize, usize, usize, usize) {
    let (report, _, _) = prepared(source);
    let mut reporter = CoverageSummaryReporter::new();
    reporter.report(&report);
    let total = reporter.total;
    (total.line_count, total.statement_count, total.branch_count, total.function_count)
}

#[test]
fn instrumented_lcov_report() {
    let source = "// SPDX-License-Identifier: MIT\npragma solidity ^0.8.0;\n\ncontract Target {\n    function pick(bool flag) external pure returns (uint256) {\n        if (flag) {\n            return 1;\n        }\n        return 2;\n    }\n}\n";
    let (mut report, index, probes) = prepared(source);
    let mut hits = InstrumentedHitMaps::new();
    for (probe, count) in probes.iter().zip([2, 1, 1, 1, 1]) {
        for _ in 0..count {
            hits.hit(probe.tag);
        }
    }
    add_hits(&mut report, &index, &hits);
    assert_eq!(
        LcovReporter::new("lcov.info".to_string(), Version::new(1, 0, 0)).report(&report),
        "TN:\nSF:Test.sol\nDA:5,2\nFN:5,Target.pick\nFNDA:2,Target.pick\nDA:6,1\nBRDA:6,0,0,1\nBRDA:6,0,1,1\nDA:7,1\nDA:9,1\nFNF:1\nFNH:1\nLF:4\nLH:4\nBRF:2\nBRH:2\nend_of_record\n"
    );
}

#[test]
fn instrumented_if_else_if_chain() {
    let source = r#"
contract Target {
    function classify(uint256 x) external pure returns (uint256) {
        if (x == 0) {
            return 1;
        } else if (x == 1) {
            return 2;
        } else {
            return 3;
        }
    }
}
"#;
    assert_eq!(counts(source), (8, 3, 4, 1));
}

#[test]
fn instrumented_for_loop_variants() {
    let source = r#"
contract Target {
    function standard(uint256 n) external pure returns (uint256 sum) {
        for (uint256 i = 0; i < n; i++) {
            sum += i;
        }
    }

    function noInit(uint256 n) external pure returns (uint256 sum) {
        uint256 i = 0;
        for (; i < n; i++) {
            sum += i;
        }
    }

    function singleStatementBody(uint256 n) external pure returns (uint256 sum) {
        for (uint256 i = 0; i < n; i++) sum += i;
    }
}
"#;
    assert_eq!(counts(source), (9, 6, 0, 3));
}

#[test]
fn instrumented_while_and_do_while() {
    let source = r#"
contract Target {
    function whileLoop(uint256 n) external pure returns (uint256 count) {
        while (count < n) {
            count++;
        }
    }

    function doWhileLoop(uint256 n) external pure returns (uint256 count) {
        do {
            count++;
        } while (count < n);
    }

    function whileSingleStatement(uint256 n) external pure returns (uint256 count) {
        while (count < n) count++;
    }
}
"#;
    assert_eq!(counts(source), (8, 5, 0, 3));
    let single = r#"
contract Target {
    function countdown(uint256 n) external pure returns (uint256 steps) {
        do steps++; while (steps < n);
    }
}
"#;
    assert_eq!(counts(single), (2, 1, 0, 1));
}

#[test]
fn instrumented_try_catch_panic_and_raw() {
    let source = r#"
contract Callee {
    function compute(uint256 mode) external pure returns (uint256) {
        if (mode == 1) {
            assert(false);
        }
        if (mode == 2) {
            revert("custom");
        }
        return 7;
    }
}

contract Target {
    Callee callee = new Callee();

    function run(uint256 mode) external returns (uint256) {
        try callee.compute(mode) returns (uint256 value) {
            return value;
        } catch Panic(uint256) {
            return 1;
        } catch (bytes memory) {
            return 2;
        }
    }
}
"#;
    assert_eq!(counts(source), (13, 6, 7, 2));
}

#[test]
fn instrumented_constructors_modifiers_and_fallback() {
    let constructor = r#"
contract Target {
    uint256 public value;

    constructor(uint256 initial) {
        value = initial;
    }

    function addOne(uint256 x) external pure returns (uint256 result) {
        assembly {
            result := add(x, 1)
        }
    }
}
"#;
    assert_eq!(counts(constructor), (4, 2, 0, 2));
    let modifiers = r#"
contract Target {
    modifier nonZero(uint256 x) {
        require(x != 0, "zero");
        _;
    }

    modifier underCap(uint256 x) {
        require(x < 100, "too big");
        _;
    }

    function f(uint256 x) external nonZero(x) underCap(x) returns (uint256) {
        return x;
    }
}
"#;
    assert_eq!(counts(modifiers), (6, 3, 4, 3));
    let fallback = r#"
contract Target {
    uint256 public calls;

    fallback() external payable {
        calls++;
    }

    receive() external payable {
        calls++;
    }
}
"#;
    assert_eq!(counts(fallback), (2, 1, 0, 1));
}

/// The report of a source after its probes were hit, each as often as given; the rest not at all.
fn branch_hits(source: &str, hits: &[u64]) -> (usize, usize) {
    let (mut report, index, probes) = prepared(source);
    let mut maps = InstrumentedHitMaps::new();
    for (probe, count) in probes.iter().zip(hits) {
        for _ in 0..*count {
            maps.hit(probe.tag);
        }
    }
    add_hits(&mut report, &index, &maps);
    let mut reporter = CoverageSummaryReporter::new();
    reporter.report(&report);
    let total = reporter.total;
    (total.branch_hits, total.branch_count)
}

#[test]
fn instrumented_logical_branches() {
    for op in ["||", "&&"] {
        let source = format!(
            "contract Target {{\n    function f(bool a, bool b) external pure returns (bool) {{\n        return a {op} b;\n    }}\n}}\n"
        );
        assert_eq!(counts(&source), (2, 1, 2, 1));
        // The function, the statement and the first operand: the second one was not evaluated.
        assert_eq!(branch_hits(&source, &[1, 1, 1, 0]), (1, 2));
        assert_eq!(branch_hits(&source, &[2, 2, 2, 1]), (2, 2));
    }
}

#[test]
fn instrumented_ternary_branches() {
    let source = "contract Target {\n    function pick(bool flag) external pure returns (uint256) {\n        return flag ? 1 : 2;\n    }\n}\n";
    assert_eq!(counts(source), (2, 1, 2, 1));
    assert_eq!(branch_hits(source, &[1, 1, 1, 0]), (1, 2));
    assert_eq!(branch_hits(source, &[1, 1, 0, 1]), (1, 2));
    assert_eq!(branch_hits(source, &[2, 2, 1, 1]), (2, 2));
    let nested = "contract Target {\n    function classify(uint256 x) external pure returns (uint256) {\n        return x == 0 ? 0 : (x < 10 ? 1 : 2);\n    }\n}\n";
    assert_eq!(counts(nested), (2, 1, 4, 1));
    let with_if = "contract Target {\n    function classify(uint256 x) external pure returns (uint256) {\n        if (x == 0) {\n            return 1;\n        }\n        return x > 10 ? 2 : 3;\n    }\n}\n";
    assert_eq!(counts(with_if), (4, 2, 4, 1));
}

#[test]
fn expressions_are_rewritten_in_place() {
    let source = "contract C {\n    function f(bool a, bool b) external pure returns (bool) {\n        return (a || b) && a ? b : a;\n    }\n}\n";
    let (out, probes) = instrument(source);
    assert_reparses(&out);
    let kinds: Vec<String> = probes.iter().skip(2).map(|probe| format!("{:?}", probe.kind)).collect();
    assert_eq!(
        kinds,
        vec![
            "Branch { branch_id: 1, path_id: 0 }",
            "Branch { branch_id: 2, path_id: 0 }",
            "Branch { branch_id: 2, path_id: 1 }",
            "Branch { branch_id: 1, path_id: 1 }",
            "Branch { branch_id: 0, path_id: 0 }",
            "Branch { branch_id: 0, path_id: 1 }",
        ]
    );
    let hit = |value: &str, n: usize| format!("__FoundryCoverage.hit{value}({})", tag_text(&probes[n].tag));
    // The operands of the inner disjunction stand in parentheses of their own inside those of the source.
    let left = format!("(({} || a) || ({} || b))", hit("False", 3), hit("False", 4));
    let condition = format!("({} && {left}) && ({} && a)", hit("True", 2), hit("True", 5));
    let expected = format!("return (({condition}) ? {} : {}) ? b : a;", hit("True", 6), hit("False", 7));
    assert!(out.contains(&expected), "{out}\n{expected}");
}

#[test]
fn instrumented_mixed_constructs() {
    let source = r#"
contract AContract {
    function guarded(uint256 value) external pure returns (uint256) {
        require(value > 1, "small");
        return value;
    }

    function addFive(uint256 value) external pure returns (uint256 result) {
        assembly {
            result := add(value, 5)
        }
    }

    function choose(bool flag) external pure returns (uint256) {
        return flag ? 1 : 2;
    }

    function either(bool left, bool right) external pure returns (bool) {
        return left || right;
    }
}
    "#;
    assert_eq!(counts(source), (9, 5, 6, 4));
}

#[test]
fn instrumented_viair_all_constructs() {
    let source = r#"
contract AllConstructs {
    uint256 public state;

    modifier nonZero(uint256 x) {
        require(x != 0, "zero");
        _;
    }

    constructor(uint256 v) {
        state = v;
    }

    function ifElseIf(uint256 x) external pure returns (uint256) {
        if (x == 0) {
            return 1;
        } else if (x == 1) {
            return 2;
        }
        return 3;
    }

    function bareIf(uint256 x) external pure returns (uint256 r) {
        r = 10;
        if (x > 5) r = 20;
    }

    function loops(uint256 n) external pure returns (uint256 sum) {
        for (uint256 i = 0; i < n; i++) sum += i;
        while (sum < 100) sum += 1;
        do { sum += 1; } while (sum < 110);
    }

    function ternary(bool a) external pure returns (uint256) {
        return a ? 1 : 2;
    }

    function logical(bool a, bool b) external pure returns (bool) {
        return a || b;
    }

    function guarded(uint256 x) external nonZero(x) returns (uint256) {
        state = x;
        return x;
    }

    function asmFn(uint256 x) external pure returns (uint256 r) {
        assembly {
            r := add(x, 1)
        }
    }

    function req(uint256 x) external pure returns (uint256) {
        require(x > 0, "nonpositive");
        return x;
    }
}
"#;
    assert_eq!(counts(source), (29, 17, 14, 10));
}

#[test]
fn instrumented_yul_assembly_coverage() {
    let source = r#"
contract Target {
    uint256 public stored;

    function compute(uint256 x) external returns (uint256 r) {
        assembly {
            let a := add(x, 5)
            let b := mul(a, 2)
            if gt(x, 100) {
                b := add(b, 1)
            }
            r := add(a, b)
            sstore(0, r)
        }
    }
}
"#;
    assert_eq!(counts(source), (8, 6, 1, 1));
    let pure_source = source.replace("external returns", "external pure returns");
    assert_eq!(counts(&pure_source), (2, 1, 0, 1));
}

#[test]
fn instrumented_preserves_returndata() {
    let source = r#"
contract Returner {
    function get() external pure returns (uint256, uint256) {
        return (111, 222);
    }
}

contract RetData {
    Returner r = new Returner();
    uint256 public marker;

    function callThenDecode() external returns (uint256 a, uint256 b) {
        (bool ok, bytes memory data) = address(r).staticcall(abi.encodeWithSignature("get()"));
        require(ok, "call failed");
        marker = 7;
        (a, b) = abi.decode(data, (uint256, uint256));
    }

    function emptyAccountReturndata() external returns (uint256 size) {
        (bool ok,) = address(0xdead).staticcall("");
        require(ok);
        marker = 9;
        assembly {
            size := returndatasize()
        }
    }
}
"#;
    assert_eq!(counts(source), (13, 10, 4, 3));
}

#[test]
fn assembly_probes_stand_in_their_blocks() {
    let source = "contract C {\n    function f(uint256 x) external returns (uint256 r) {\n        assembly {\n            for { let i := 0 } lt(i, x) { i := add(i, 1) } { r := i }\n            switch x\n            case 0 { r := 1 }\n            default { { r := 2 } }\n            function g() -> z { leave }\n        }\n    }\n}\n";
    let (out, probes) = instrument(source);
    assert_reparses(&out);
    let kinds: Vec<String> = probes.iter().map(|probe| format!("{:?}", probe.kind)).collect();
    assert_eq!(
        kinds,
        vec![
            "Function { name: \"f\" }",
            "Statement",
            "Statement",
            "Statement",
            "Statement",
            "Statement",
            "Branch { branch_id: 0, path_id: 0 }",
            "Statement",
            "Branch { branch_id: 0, path_id: 1 }",
            "Statement",
            "Statement",
        ]
    );
    let text = format!(
        "{{ let __foundry_coverage_scratch := mload(0x00) mstore(0x00, {}) pop(staticcall(gas(), 0xc0bEc0BEc0BeC0bEC0beC0bEC0bEC0beC0beC0BE, 0x00, 0x20, 0, 0)) mstore(0x00, __foundry_coverage_scratch) }} leave",
        tag_text(&probes[10].tag)
    );
    assert!(out.contains(&text));
}

#[test]
fn instrumented_yul_local_names() {
    let source = r#"
contract Target {
    function value() external view returns (uint256 result) {
        assembly {
            let _cov := 3
            let __foundry_coverage_scratch := 5
            result := add(_cov, __foundry_coverage_scratch)
        }
    }
}
"#;
    let (out, _) = instrument(source);
    assert_reparses(&out);
    assert!(out.contains("{ let __foundry_coverage_scratch_ := mload(0x00)"));
    assert_eq!(find_scratch_name(source.as_bytes()), "__foundry_coverage_scratch_");
    assert_eq!(find_scratch_name(b""), "__foundry_coverage_scratch");
}

#[test]
fn instrumented_ignore_file_directive() {
    let ignored = "\n// forge coverage ignore file\ncontract Ignored {\n    function neverCalled() external pure returns (uint256) {\n        return 1;\n    }\n}\n";
    let covered = "\ncontract Target {\n    function covered() external pure returns (uint256) {\n        return 2;\n    }\n}\n";
    assert!(is_left_out(ignored));
    assert!(!is_left_out(covered));
    let mut sources: Table<InputSource> = Table::new();
    for (path, content) in [("src/Ignored.sol", ignored), ("src/Target.sol", covered)] {
        sources.put(InputSource {
            path: path.to_string(),
            content: content.to_string(),
            in_library: false,
            is_test: false,
            unit: Some(parse(content)),
        });
    }
    let mut preprocessor = preprocessor(None);
    preprocessor.preprocess_solc(&mut sources, "", &Version::new(0, 8, 25), true);
    assert!(preprocessor.metadata.probes.iter().all(|probe| probe.path == "src/Target.sol"));
    assert_eq!(preprocessor.metadata.probes.len(), 2);
    let kept = sources.entries.iter().find(|entry| entry.path == "src/Ignored.sol").unwrap();
    assert_eq!(kept.content, ignored);
}

#[test]
fn instrumented_ignore_next_directive() {
    let source = r#"
contract Target {
    function covered() external pure returns (uint256) {
        return 1;
    }

    // istanbul ignore next
    function ignored() external pure returns (uint256) {
        return 2;
    }
}
"#;
    assert_eq!(counts(source), (2, 1, 0, 1));
}

#[test]
fn arguments_of_modifiers_have_paths() {
    let source = "contract C {\n    modifier m(bool x) { _; }\n    function f(bool a, bool b) external m(a || b) {\n        if (a) emit E(a && b);\n    }\n}\n";
    let (out, probes) = instrument(source);
    assert_reparses(&out);
    let kinds: Vec<String> = probes.iter().map(|probe| format!("{:?}", probe.kind)).collect();
    assert_eq!(
        kinds,
        vec![
            "Function { name: \"m\" }",
            "Function { name: \"f\" }",
            "Branch { branch_id: 0, path_id: 0 }",
            "Branch { branch_id: 0, path_id: 1 }",
            "Branch { branch_id: 1, path_id: 0 }",
            "Branch { branch_id: 2, path_id: 0 }",
            "Branch { branch_id: 2, path_id: 1 }",
            "Branch { branch_id: 1, path_id: 1 }",
        ]
    );
    assert!(out.contains(&format!("m((__FoundryCoverage.hitFalse({}) || a)", tag_text(&probes[2].tag))));
}
