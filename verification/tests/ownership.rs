use special::language_packs::typescript::analyze::{collect_context_items, collect_repo_items};
use special::model::analysis::ModuleItemKind;
use special::model::architecture::ImplementRef;
use special::model::core_types::SourceLocation;
use special::modules::analyze::ownership::{index_file_ownership, line_count, owned_module_ids_for_path};
use special::source_items::{SourceItem, SourceItemKind, SourceSpan};

fn implement(module_id: &str, path: &str, item_scoped: bool) -> ImplementRef {
    ImplementRef {
        module_id: module_id.to_string(),
        location: SourceLocation { path: path.to_string(), line: 1 },
        body_location: if item_scoped { Some(SourceLocation { path: path.to_string(), line: 5 }) } else { None },
        body: None,
    }
}

fn parsed(name: &str, kind: SourceItemKind, public: bool, is_test: bool) -> SourceItem {
    SourceItem {
        source_path: String::new(),
        stable_id: format!("id:{name}"),
        name: name.to_string(),
        shape_fingerprint: String::new(),
        normalized_fingerprints: Vec::new(),
        shape_node_count: 0,
        kind,
        span: SourceSpan { start_line: 1, end_line: 1, start_column: 0, end_column: 0, start_byte: 0, end_byte: 0 },
        public,
        root_visible: public,
        is_test,
        calls: Vec::new(),
        invocations: Vec::new(),
    }
}

#[test]
fn file_ownership_splits_file_and_item_attachments() {
    let implements = vec![
        implement("APP", "src/app.ts", false),
        implement("CORE", "src/app.ts", true),
        implement("APP", "src/app.ts", true),
        implement("UTIL", "src/util.ts", false),
    ];
    let ownership = index_file_ownership(&implements);
    let app = ownership.get("src/app.ts").unwrap();
    assert_eq!(app.file_scoped.len(), 1);
    assert_eq!(app.item_scoped.len(), 2);
    assert_eq!(app.item_scoped[0].module_id, "CORE");
    assert_eq!(owned_module_ids_for_path(&ownership, "src/app.ts"), vec!["APP".to_string(), "CORE".to_string()]);
    assert_eq!(owned_module_ids_for_path(&ownership, "src/util.ts"), vec!["UTIL".to_string()]);
    assert!(owned_module_ids_for_path(&ownership, "src/none.ts").is_empty());
}

#[test]
fn line_count_counts_lines_and_at_least_one() {
    assert_eq!(line_count(""), 1);
    assert_eq!(line_count("a"), 1);
    assert_eq!(line_count("a\nb"), 2);
    assert_eq!(line_count("a\nb\n"), 2);
    assert_eq!(line_count("\n\n\n"), 3);
}

#[test]
fn traceability_items_are_sorted_by_path_name_and_kind() {
    let implements = vec![implement("APP", "src/b.ts", false)];
    let ownership = index_file_ownership(&implements);
    let graphs = vec![
        (
            "src/b.ts".to_string(),
            vec![
                parsed("zeta", SourceItemKind::Function, true, false),
                parsed("alpha", SourceItemKind::Method, false, false),
                parsed("alpha", SourceItemKind::Function, false, false),
                parsed("main", SourceItemKind::Function, false, false),
            ],
        ),
        ("src/a.test.ts".to_string(), vec![parsed("case", SourceItemKind::Function, false, true), parsed("helper", SourceItemKind::Function, true, false)]),
    ];
    let repo = collect_repo_items(&graphs, &ownership);
    let listed: Vec<_> = repo.iter().map(|item| (item.path.clone(), item.name.clone(), item.kind)).collect();
    assert_eq!(
        listed,
        vec![
            ("src/a.test.ts".to_string(), "helper".to_string(), ModuleItemKind::Function),
            ("src/b.ts".to_string(), "alpha".to_string(), ModuleItemKind::Function),
            ("src/b.ts".to_string(), "alpha".to_string(), ModuleItemKind::Method),
            ("src/b.ts".to_string(), "main".to_string(), ModuleItemKind::Function),
            ("src/b.ts".to_string(), "zeta".to_string(), ModuleItemKind::Function),
        ]
    );
    assert!(repo[0].test_file && !repo[0].review_surface);
    assert!(repo[3].review_surface);
    assert!(repo[4].review_surface);
    assert!(!repo[1].review_surface);
    assert_eq!(repo[1].module_ids, vec!["APP".to_string()]);
    assert!(repo[0].module_ids.is_empty());
    let context = collect_context_items(&graphs, &ownership);
    assert_eq!(context.len(), 6);
    assert_eq!(context[0].name, "case");
}
