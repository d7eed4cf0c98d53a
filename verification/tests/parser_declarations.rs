use special::model::core_types::{BlockLine, CommentBlock, NodeKind};
use special::model::spec::ParsedRepo;
use special::parser::block::{ParseDialect, ParseRules, parse_block};

fn source_block(lines: &[&str]) -> CommentBlock {
    CommentBlock {
        path: "src/example.rs".to_string(),
        lines: lines
            .iter()
            .enumerate()
            .map(|(index, text)| BlockLine { line: index + 1, text: text.to_string() })
            .collect(),
        owned_item: None,
        source_body: None,
    }
}

fn parse_with(block: &CommentBlock, dialect: ParseDialect) -> ParsedRepo {
    let mut parsed = ParsedRepo::new();
    parse_block(block, &mut parsed, ParseRules::for_dialect(dialect));
    parsed
}

fn parse_current(block: &CommentBlock) -> ParsedRepo {
    parse_with(block, ParseDialect::CurrentV1)
}

fn parse_legacy(block: &CommentBlock) -> ParsedRepo {
    parse_with(block, ParseDialect::CompatibilityV0)
}

#[test]
fn records_planned_on_the_owning_spec_for_each_supported_version() {
    let legacy = source_block(&["@spec EXPORT.LEGACY", "Legacy planned behavior.", "@planned"]);
    let current = source_block(&["@spec EXPORT.CURRENT", "@planned", "Current planned behavior."]);
    let legacy_parsed = parse_legacy(&legacy);
    let current_parsed = parse_current(&current);
    assert!(legacy_parsed.specs[0].is_planned());
    assert!(current_parsed.specs[0].is_planned());
    assert_eq!(legacy_parsed.specs[0].planned_release(), None);
    assert_eq!(current_parsed.specs[0].planned_release(), None);
}

#[test]
fn version_1_requires_local_planned_ownership() {
    let accepted = source_block(&["@spec EXPORT.CURRENT", "@planned", "Current planned behavior."]);
    let rejected = source_block(&["@spec EXPORT.OLD", "Old planned behavior.", "@planned"]);
    let accepted_parsed = parse_current(&accepted);
    let rejected_parsed = parse_current(&rejected);
    assert!(accepted_parsed.specs[0].is_planned());
    assert!(accepted_parsed.diagnostics.is_empty());
    assert!(!rejected_parsed.specs[0].is_planned());
    assert_eq!(rejected_parsed.diagnostics.len(), 1);
}

#[test]
fn parses_inline_planned_in_version_1() {
    let parsed = parse_current(&source_block(&["@spec EXPORT.METADATA @planned", "Exports include provenance metadata."]));
    assert_eq!(parsed.specs.len(), 1);
    assert_eq!(parsed.specs[0].kind(), NodeKind::Spec);
    assert!(parsed.specs[0].is_planned());
    assert_eq!(parsed.specs[0].planned_release(), None);
    assert_eq!(parsed.specs[0].text, "Exports include provenance metadata.");
    assert!(parsed.diagnostics.is_empty());
}

#[test]
fn rejects_fuzzy_inline_planned_markers_in_version_1() {
    let parsed = parse_current(&source_block(&["@spec EXPORT.METADATA @plannedness"]));
    assert!(parsed.specs.is_empty());
    assert_eq!(parsed.diagnostics.len(), 1);
    assert_eq!(parsed.diagnostics[0].path, "src/example.rs");
    assert_eq!(parsed.diagnostics[0].line, 1);
    assert!(parsed.diagnostics[0].message.contains("unexpected trailing content after spec id"));
}

#[test]
fn rejects_fuzzy_standalone_planned_markers_in_version_1() {
    let parsed = parse_current(&source_block(&["@spec EXPORT.METADATA", "@plannedness", "Exports include provenance metadata."]));
    assert_eq!(parsed.specs.len(), 1);
    assert!(!parsed.specs[0].is_planned());
    assert_eq!(parsed.diagnostics.len(), 1);
    assert!(parsed.diagnostics[0].message.contains("exact standalone `@planned` marker"));
}

#[test]
fn parses_adjacent_next_line_planned_in_version_1() {
    let parsed = parse_current(&source_block(&["@spec EXPORT.METADATA", "@planned", "Exports include provenance metadata."]));
    assert_eq!(parsed.specs.len(), 1);
    assert!(parsed.specs[0].is_planned());
    assert_eq!(parsed.specs[0].planned_release(), None);
    assert_eq!(parsed.specs[0].text, "Exports include provenance metadata.");
    assert!(parsed.diagnostics.is_empty());
}

#[test]
fn rejects_duplicate_inline_and_adjacent_planned_markers_in_version_1() {
    let parsed = parse_current(&source_block(&[
        "@spec EXPORT.METADATA @planned 0.4.0",
        "@planned 0.5.0",
        "Exports include provenance metadata.",
    ]));
    assert_eq!(parsed.specs.len(), 1);
    assert!(parsed.specs[0].is_planned());
    assert_eq!(parsed.specs[0].planned_release(), Some("0.4.0"));
    assert_eq!(parsed.diagnostics.len(), 1);
    assert!(parsed.diagnostics[0].message.contains("@planned must appear only once"));
}

#[test]
fn preserves_legacy_planned_association_without_version() {
    let parsed = parse_legacy(&source_block(&["@spec EXPORT.METADATA", "Exports include provenance metadata.", "@planned"]));
    assert_eq!(parsed.specs.len(), 1);
    assert!(parsed.specs[0].is_planned());
    assert_eq!(parsed.specs[0].planned_release(), None);
    assert!(parsed.diagnostics.is_empty());
}

#[test]
fn rejects_inline_planned_syntax_in_compatibility_mode() {
    let parsed = parse_legacy(&source_block(&["@spec EXPORT.METADATA @planned"]));
    assert!(parsed.specs.is_empty());
    assert_eq!(parsed.diagnostics.len(), 1);
    assert!(parsed.diagnostics[0].message.contains("compatibility parsing does not allow inline lifecycle markers"));
}

#[test]
fn parses_planned_release_metadata_in_supported_forms() {
    let legacy = source_block(&["@spec EXPORT.LEGACY", "Legacy planned behavior.", "@planned 0.3.0"]);
    let inline_v1 = source_block(&["@spec EXPORT.INLINE @planned 0.4.0", "Inline planned behavior."]);
    let next_line_v1 = source_block(&["@spec EXPORT.NEXT", "@planned 0.5.0", "Next-line planned behavior."]);
    assert_eq!(parse_legacy(&legacy).specs[0].planned_release(), Some("0.3.0"));
    assert_eq!(parse_current(&inline_v1).specs[0].planned_release(), Some("0.4.0"));
    assert_eq!(parse_current(&next_line_v1).specs[0].planned_release(), Some("0.5.0"));
}

#[test]
fn records_deprecated_on_the_owning_spec_for_each_supported_version() {
    let legacy = source_block(&["@spec EXPORT.LEGACY", "Legacy deprecated behavior.", "@deprecated"]);
    let current = source_block(&["@spec EXPORT.CURRENT", "@deprecated", "Current deprecated behavior."]);
    let legacy_parsed = parse_legacy(&legacy);
    let current_parsed = parse_current(&current);
    assert!(legacy_parsed.specs[0].is_deprecated());
    assert!(current_parsed.specs[0].is_deprecated());
    assert_eq!(legacy_parsed.specs[0].deprecated_release(), None);
    assert_eq!(current_parsed.specs[0].deprecated_release(), None);
}

#[test]
fn parses_deprecated_release_metadata_in_supported_forms() {
    let legacy = source_block(&["@spec EXPORT.LEGACY", "Legacy deprecated behavior.", "@deprecated 0.6.0"]);
    let inline_v1 = source_block(&["@spec EXPORT.INLINE @deprecated 0.7.0", "Inline deprecated behavior."]);
    let next_line_v1 = source_block(&["@spec EXPORT.NEXT", "@deprecated 0.8.0", "Next-line deprecated behavior."]);
    assert_eq!(parse_legacy(&legacy).specs[0].deprecated_release(), Some("0.6.0"));
    assert_eq!(parse_current(&inline_v1).specs[0].deprecated_release(), Some("0.7.0"));
    assert_eq!(parse_current(&next_line_v1).specs[0].deprecated_release(), Some("0.8.0"));
}

#[test]
fn keeps_the_spec_when_inline_planned_conflicts_with_adjacent_deprecated() {
    let parsed = parse_current(&source_block(&[
        "@spec EXPORT.CONFLICT @planned 0.4.0",
        "@deprecated 0.6.0",
        "Conflicting lifecycle behavior.",
    ]));
    assert_eq!(parsed.specs.len(), 1);
    assert!(parsed.specs[0].is_planned());
    assert_eq!(parsed.specs[0].planned_release(), Some("0.4.0"));
    assert!(!parsed.specs[0].is_deprecated());
    assert_eq!(parsed.specs[0].deprecated_release(), None);
    assert_eq!(parsed.diagnostics.len(), 1);
    assert!(parsed.diagnostics[0].message.contains("@spec may not be both planned and deprecated"));
}

#[test]
fn parses_group_declarations() {
    let parsed = parse_current(&source_block(&["@group EXPORT", "Export-related claims."]));
    assert_eq!(parsed.specs.len(), 1);
    assert_eq!(parsed.specs[0].kind(), NodeKind::Group);
    assert!(!parsed.specs[0].is_planned());
    assert!(parsed.diagnostics.is_empty());
}

#[test]
fn rejects_inline_planned_on_group_nodes() {
    let parsed = parse_current(&source_block(&["@group AUTH @planned"]));
    assert_eq!(parsed.specs.len(), 1);
    assert!(!parsed.specs[0].is_planned());
    assert_eq!(parsed.diagnostics.len(), 1);
    assert!(parsed.diagnostics[0].message.contains("@planned may only apply to @spec, not @group"));
}

#[test]
fn rejects_planned_outside_spec_declaration() {
    let parsed = parse_current(&source_block(&["@planned"]));
    assert_eq!(parsed.specs.len(), 0);
    assert_eq!(parsed.diagnostics.len(), 1);
    assert!(parsed.diagnostics[0].message.contains("@planned must be adjacent to exactly one owning @spec"));
}

#[test]
fn rejects_non_adjacent_planned_in_version_1() {
    let parsed = parse_current(&source_block(&["@spec EXPORT.METADATA", "Exports include provenance metadata.", "@planned"]));
    assert_eq!(parsed.specs.len(), 1);
    assert!(!parsed.specs[0].is_planned());
    assert_eq!(parsed.diagnostics.len(), 1);
    assert!(parsed.diagnostics[0].message.contains("backward-looking form is not allowed in version 1"));
}

#[test]
fn rejects_planned_on_group_nodes() {
    let parsed = parse_current(&source_block(&["@group EXPORT", "@planned"]));
    assert_eq!(parsed.specs.len(), 1);
    assert_eq!(parsed.diagnostics.len(), 1);
    assert!(parsed.diagnostics[0].message.contains("@planned may only apply to @spec"));
}
