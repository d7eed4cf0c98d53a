use special::model::core_types::{NodeKind, PlanState, SourceLocation};
use special::model::spec::{ParsedRepo, SpecDecl, VerifyRef};
use special::modules::analyze::traceability_core::supports::build_root_supports;
use special::source_items::{SourceItem, SourceItemKind, SourceSpan};

fn at(path: &str, line: usize) -> SourceLocation {
    SourceLocation { path: path.to_string(), line }
}

fn spec(id: &str, plan: PlanState, deprecated: bool) -> SpecDecl {
    SpecDecl::new(id.to_string(), NodeKind::Spec, String::new(), plan, deprecated, None, at("specs.md", 1)).unwrap()
}

fn verify(spec_id: &str, path: &str, body_line: Option<usize>) -> VerifyRef {
    VerifyRef {
        spec_id: spec_id.to_string(),
        location: at(path, body_line.unwrap_or(1)),
        body_location: body_line.map(|line| at(path, line)),
        body: body_line.map(|_| "test body".to_string()),
    }
}

fn test_item(name: &str, line: usize, is_test: bool) -> SourceItem {
    SourceItem {
        source_path: "src/app.test.ts".to_string(),
        stable_id: format!("src/app.test.ts:{name}"),
        name: name.to_string(),
        shape_fingerprint: String::new(),
        normalized_fingerprints: Vec::new(),
        shape_node_count: 0,
        kind: SourceItemKind::Function,
        span: SourceSpan { start_line: line, end_line: line + 3, start_column: 0, end_column: 0, start_byte: 0, end_byte: 0 },
        public: false,
        root_visible: false,
        is_test,
        calls: Vec::new(),
        invocations: Vec::new(),
    }
}

fn ids(set: &special::ids::IdSet) -> Vec<String> {
    set.ids().clone()
}

#[test]
fn root_supports_join_item_and_file_verifications() {
    let mut repo = ParsedRepo::new();
    repo.specs.push(spec("APP.CURRENT", PlanState::Current, false));
    repo.specs.push(spec("APP.LATER", PlanState::Planned { release: None }, false));
    repo.specs.push(spec("APP.OLD", PlanState::Current, true));
    repo.verifies.push(verify("APP.CURRENT", "src/app.test.ts", Some(10)));
    repo.verifies.push(verify("APP.LATER", "src/app.test.ts", Some(20)));
    repo.verifies.push(verify("APP.OLD", "src/app.test.ts", None));
    repo.verifies.push(verify("APP.UNKNOWN", "src/app.test.ts", Some(10)));
    let graphs = vec![(
        "src/app.test.ts".to_string(),
        vec![test_item("first", 12, true), test_item("second", 30, true), test_item("helper", 12, false)],
    )];
    // The first body's test starts on its third line, the second's is not found.
    let starts = vec![Some(3), None, None, Some(1)];
    let supports = build_root_supports(&repo, &graphs, &starts);
    let keys: Vec<String> = supports.entries().iter().map(|(key, _)| key.clone()).collect();
    assert_eq!(keys, vec!["src/app.test.ts:first".to_string(), "src/app.test.ts:second".to_string()]);
    let first = supports.get("src/app.test.ts:first").unwrap();
    assert_eq!(first.name, "first");
    assert!(first.has_item_scoped_support);
    assert!(first.has_file_scoped_support);
    assert_eq!(ids(&first.current_specs), vec!["APP.CURRENT".to_string()]);
    assert!(first.planned_specs.is_empty());
    assert_eq!(ids(&first.deprecated_specs), vec!["APP.OLD".to_string()]);
    let second = supports.get("src/app.test.ts:second").unwrap();
    assert!(!second.has_item_scoped_support);
    assert!(second.has_file_scoped_support);
    assert!(second.current_specs.is_empty());
    assert_eq!(ids(&second.deprecated_specs), vec!["APP.OLD".to_string()]);
}
