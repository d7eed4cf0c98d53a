use special::model::analysis::{ArchitectureDuplicateItem, ModuleItemKind};
use special::modules::analyze::duplication::{OwnedDuplicateItem, summarize_duplicate_items};

fn owned(module: &str, file: &str, name: &str, kind: ModuleItemKind, keys: &[&str]) -> OwnedDuplicateItem {
    OwnedDuplicateItem {
        module_id: module.to_string(),
        source_path: format!("/repo/{file}"),
        name: name.to_string(),
        kind,
        duplicate_keys: keys.iter().map(|key| key.to_string()).collect(),
    }
}

fn row(item: &ArchitectureDuplicateItem) -> (String, String, String, ModuleItemKind, usize) {
    (item.module_id.clone(), item.path.clone(), item.name.clone(), item.kind, item.duplicate_peer_count)
}

#[test]
fn duplicate_items_merge_copies_and_take_most_peers() {
    let items = vec![
        owned("M1", "src/a.rs", "f", ModuleItemKind::Function, &["concrete:k1", "normalized:k2"]),
        owned("M2", "src/b.rs", "g", ModuleItemKind::Method, &["concrete:k1"]),
        owned("M1", "src/c.rs", "h", ModuleItemKind::Function, &["normalized:k2"]),
        owned("M1", "src/c.rs", "h", ModuleItemKind::Function, &["concrete:k1"]),
        owned("M3", "src/e.rs", "z", ModuleItemKind::Function, &["concrete:k3"]),
    ];
    let report = summarize_duplicate_items("/repo", &items);
    let rows: Vec<_> = report.iter().map(row).collect();
    assert_eq!(
        rows,
        vec![
            ("M1".to_string(), "src/a.rs".to_string(), "f".to_string(), ModuleItemKind::Function, 2),
            ("M1".to_string(), "src/c.rs".to_string(), "h".to_string(), ModuleItemKind::Function, 2),
            ("M2".to_string(), "src/b.rs".to_string(), "g".to_string(), ModuleItemKind::Method, 2),
        ]
    );
}

#[test]
fn duplicate_items_sort_most_peers_first() {
    let items = vec![
        owned("A", "src/x.rs", "x", ModuleItemKind::Function, &["pair"]),
        owned("A", "src/y.rs", "y", ModuleItemKind::Function, &["pair"]),
        owned("Z", "src/p.rs", "p", ModuleItemKind::Function, &["triple"]),
        owned("Z", "src/q.rs", "q", ModuleItemKind::Function, &["triple"]),
        owned("Z", "src/r.rs", "r", ModuleItemKind::Method, &["triple"]),
    ];
    let report = summarize_duplicate_items("/repo", &items);
    let rows: Vec<_> = report.iter().map(row).collect();
    assert_eq!(
        rows,
        vec![
            ("Z".to_string(), "src/p.rs".to_string(), "p".to_string(), ModuleItemKind::Function, 2),
            ("Z".to_string(), "src/q.rs".to_string(), "q".to_string(), ModuleItemKind::Function, 2),
            ("Z".to_string(), "src/r.rs".to_string(), "r".to_string(), ModuleItemKind::Method, 2),
            ("A".to_string(), "src/x.rs".to_string(), "x".to_string(), ModuleItemKind::Function, 1),
            ("A".to_string(), "src/y.rs".to_string(), "y".to_string(), ModuleItemKind::Function, 1),
        ]
    );
}

#[test]
fn duplicate_items_empty_without_repeated_keys() {
    let items = vec![
        owned("A", "src/x.rs", "x", ModuleItemKind::Function, &["one"]),
        owned("B", "src/y.rs", "y", ModuleItemKind::Function, &["two"]),
        owned("C", "src/z.rs", "z", ModuleItemKind::Function, &[]),
    ];
    assert!(summarize_duplicate_items("/repo", &items).is_empty());
}

use special::model::analysis::ArchitectureRepoSignalsSummary;
use special::modules::analyze::duplication::{apply_duplicate_item_summary, duplication_keys, owned_duplicate_items};
use special::source_items::{
    CallSyntaxKind, SourceCall, SourceInvocation, SourceInvocationKind, SourceItem, SourceItemKind, SourceSpan};

fn source_item(name: &str, shape: &str, nodes: usize, calls: Vec<SourceCall>, fingerprints: &[&str]) -> SourceItem {
    SourceItem {
        source_path: "/repo/src/lib.rs".to_string(),
        stable_id: format!("src/lib.rs:{name}"),
        name: name.to_string(),
        shape_fingerprint: shape.to_string(),
        normalized_fingerprints: fingerprints.iter().map(|f| f.to_string()).collect(),
        shape_node_count: nodes,
        kind: SourceItemKind::Method,
        span: SourceSpan { start_line: 1, end_line: 1, start_column: 0, end_column: 0, start_byte: 0, end_byte: 0 },
        public: true,
        root_visible: true,
        is_test: false,
        calls,
        invocations: Vec::new(),
    }
}

fn call(name: &str, qualifier: Option<&str>, syntax: CallSyntaxKind) -> SourceCall {
    SourceCall { name: name.to_string(), qualifier: qualifier.map(|q| q.to_string()), syntax }
}

#[test]
fn duplication_keys_sort_and_dedup_concrete_and_normalized_keys() {
    let mut item = source_item(
        "f",
        "(let_declaration(if_expression)(for_expression))",
        30,
        vec![call("bar", Some("Foo"), CallSyntaxKind::ScopedIdentifier), call("baz", None, CallSyntaxKind::Identifier)],
        &["abc", "0", "abc"],
    );
    item.invocations.push(SourceInvocation {
        kind: SourceInvocationKind::LocalCargoBinary { binary_name: "tool".to_string() },
    });
    assert_eq!(
        duplication_keys(&item, false),
        vec![
            "concrete:(let_declaration(if_expression)(for_expression))#calls:Foo::bar|baz#invoke:cargo-bin:tool".to_string(),
            "normalized:0".to_string(),
            "normalized:abc".to_string(),
        ]
    );
}

#[test]
fn duplication_keys_skip_tests_and_test_paths() {
    let mut item = source_item("f", "let_declaration", 30, Vec::new(), &["abc"]);
    assert!(duplication_keys(&item, true).is_empty());
    item.is_test = true;
    assert!(duplication_keys(&item, false).is_empty());
}

#[test]
fn duplication_keys_need_size_score_and_state_for_concrete_key() {
    let calls = || vec![call("a", None, CallSyntaxKind::Field), call("b", None, CallSyntaxKind::Identifier)];
    // Large and substantive: two calls, a field call, a branch and a binding.
    let item = source_item("f", "if_expression let_declaration", 24, calls(), &[]);
    assert_eq!(duplication_keys(&item, false), vec!["concrete:if_expression let_declaration#calls:a|b#invoke:".to_string()]);
    // Too few shape nodes.
    let item = source_item("f", "if_expression let_declaration", 23, calls(), &[]);
    assert!(duplication_keys(&item, false).is_empty());
    // Enough score but no loop, binding or closure.
    let item = source_item("f", "if_expressionif_expression match_expression", 40, calls(), &[]);
    assert!(duplication_keys(&item, false).is_empty());
    // State but too little work.
    let item = source_item("f", "let_declaration", 40, Vec::new(), &["n"]);
    assert_eq!(duplication_keys(&item, false), vec!["normalized:n".to_string()]);
}

#[test]
fn owned_duplicate_items_keep_items_with_keys() {
    let items = vec![
        source_item("a", "", 0, Vec::new(), &["x"]),
        source_item("b", "", 0, Vec::new(), &[]),
        source_item("c", "", 0, Vec::new(), &["y"]),
    ];
    let owned = owned_duplicate_items("DEMO", &items, &vec![false, false, true]);
    assert_eq!(owned.len(), 1);
    assert_eq!(owned[0].module_id, "DEMO");
    assert_eq!(owned[0].name, "a");
    assert_eq!(owned[0].kind, ModuleItemKind::Method);
    assert_eq!(owned[0].duplicate_keys, vec!["normalized:x".to_string()]);
}

#[test]
fn apply_duplicate_item_summary_records_count_and_details() {
    let items = vec![
        owned("A", "src/x.rs", "x", ModuleItemKind::Function, &["pair"]),
        owned("A", "src/y.rs", "y", ModuleItemKind::Function, &["pair"]),
    ];
    let mut coverage = ArchitectureRepoSignalsSummary {
        unowned_items: 3,
        unowned_item_details: Vec::new(),
        duplicate_items: 0,
        duplicate_item_details: Vec::new(),
        long_exact_prose_assertions: 1,
        long_exact_prose_assertion_details: Vec::new(),
        ..ArchitectureRepoSignalsSummary::default()
    };
    apply_duplicate_item_summary("/repo", &items, &mut coverage);
    assert_eq!(coverage.duplicate_items, 2);
    assert_eq!(coverage.duplicate_item_details[1].path, "src/y.rs");
    assert_eq!(coverage.unowned_items, 3);
    assert_eq!(coverage.long_exact_prose_assertions, 1);
}
