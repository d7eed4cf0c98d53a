use special::model::core_types::{BlockLine, CommentBlock, NodeKind, OwnedItem, SourceLocation};
use special::model::spec::{AttestScope, ParsedRepo};
use special::parser::block::{ParseDialect, ParseRules, parse_block};
use special::syntax::normalize_markdown_annotation_line;

fn block(path: &str, lines: &[&str], owned_item: Option<OwnedItem>, source_body: Option<&str>) -> CommentBlock {
    CommentBlock {
        path: path.to_string(),
        lines: lines
            .iter()
            .enumerate()
            .map(|(index, text)| BlockLine { line: index + 1, text: text.to_string() })
            .collect(),
        owned_item,
        source_body: source_body.map(|s| s.to_string()),
    }
}

fn source_block(lines: &[&str]) -> CommentBlock {
    block("src/example.rs", lines, None, None)
}

fn source_block_with_owned_item(lines: &[&str], item_line: usize, body: &str) -> CommentBlock {
    block(
        "src/example.rs",
        lines,
        Some(OwnedItem {
            location: SourceLocation { path: "src/example.rs".to_string(), line: item_line },
            body: body.to_string(),
        }),
        None,
    )
}

fn parse_with(block: &CommentBlock, dialect: ParseDialect) -> ParsedRepo {
    let mut parsed = ParsedRepo::new();
    parse_block(block, &mut parsed, ParseRules::for_dialect(dialect));
    parsed
}

fn parse_current(block: &CommentBlock) -> ParsedRepo {
    parse_with(block, ParseDialect::CurrentV1)
}

#[test]
fn normalize_markdown_annotation_line_preserves_inline_code_at_line_start() {
    assert_eq!(
        normalize_markdown_annotation_line("`paypal config` manages `paypal.env.yaml` against linked remote apps."),
        Some("`paypal config` manages `paypal.env.yaml` against linked remote apps.")
    );
}

#[test]
fn normalize_markdown_annotation_line_treats_whole_line_code_span_as_literal() {
    assert_eq!(normalize_markdown_annotation_line("`@spec DEMO.CMD`"), None);
}

#[test]
fn parses_mixed_annotation_kinds() {
    let parsed = parse_current(&source_block(&["@spec EXPORT", "@planned", "Exports data."]));
    assert_eq!(parsed.specs.len(), 1);
    assert_eq!(parsed.specs[0].id, "EXPORT");
    assert_eq!(parsed.specs[0].kind(), NodeKind::Spec);
    assert!(parsed.specs[0].is_planned());
    assert_eq!(parsed.specs[0].text, "Exports data.");
    assert!(parsed.verifies.is_empty());
    assert!(parsed.attests.is_empty());
    assert!(parsed.diagnostics.is_empty());
}

#[test]
fn parses_reserved_annotations_from_mixed_purpose_comment_blocks() {
    let parsed = parse_current(&source_block(&[
        "Human overview for maintainers.",
        "@spec EXPORT.CSV",
        "CSV exports include a header row.",
    ]));
    assert_eq!(parsed.specs.len(), 1);
    assert_eq!(parsed.specs[0].id, "EXPORT.CSV");
    assert_eq!(parsed.specs[0].text, "CSV exports include a header row.");
    assert!(parsed.diagnostics.is_empty());
}

#[test]
fn ignores_foreign_line_start_tags() {
    let parsed = parse_current(&source_block(&["@param file output path", "\\returns csv text"]));
    assert!(parsed.specs.is_empty());
    assert!(parsed.verifies.is_empty());
    assert!(parsed.attests.is_empty());
    assert!(parsed.diagnostics.is_empty());
}

#[test]
fn ignores_reserved_tag_text_when_it_does_not_begin_the_line() {
    let parsed = parse_current(&source_block(&["Human note mentioning @spec EXPORT.CSV inline."]));
    assert!(parsed.specs.is_empty());
    assert!(parsed.verifies.is_empty());
    assert!(parsed.attests.is_empty());
    assert!(parsed.diagnostics.is_empty());
}

#[test]
fn reports_malformed_reserved_tags_instead_of_treating_them_as_foreign() {
    let parsed = parse_current(&source_block(&["@spec", "@verifies", "@attests", "@fileverifies", "@fileattests"]));
    assert_eq!(parsed.diagnostics.len(), 5);
    assert!(parsed.diagnostics[0].message.contains("missing spec id after @spec"));
    assert!(parsed.diagnostics[1].message.contains("missing spec id after @verifies"));
    assert!(parsed.diagnostics[2].message.contains("missing spec id after @attests"));
    assert!(parsed.diagnostics[3].message.contains("missing spec id after @fileverifies"));
    assert!(parsed.diagnostics[4].message.contains("missing spec id after @fileattests"));
}

#[test]
fn reserved_support_annotations_reject_trailing_tokens() {
    let parsed = parse_current(&source_block(&[
        "@verifies APP.ROOT trailing",
        "@attests APP.ROOT trailing",
        "@fileverifies APP.ROOT trailing",
        "@fileattests APP.ROOT trailing",
    ]));
    assert_eq!(parsed.diagnostics.len(), 4);
    assert!(parsed.diagnostics[0].message.contains("unexpected trailing content after @verifies spec id"));
    assert!(parsed.diagnostics[1].message.contains("unexpected trailing content after @attests spec id"));
    assert!(parsed.diagnostics[2].message.contains("unexpected trailing content after @fileverifies spec id"));
    assert!(parsed.diagnostics[3].message.contains("unexpected trailing content after @fileattests spec id"));
}

#[test]
fn foreign_tag_lines_stop_attached_spec_text() {
    let parsed = parse_current(&source_block(&[
        "@spec EXPORT.CSV",
        "CSV exports include a header row.",
        "@param file output path",
    ]));
    assert_eq!(parsed.specs.len(), 1);
    assert_eq!(parsed.specs[0].text, "CSV exports include a header row.");
    assert!(parsed.diagnostics.is_empty());
}

#[test]
fn ignores_reserved_architecture_annotations() {
    let parsed = parse_current(&source_block(&[
        "@implements SPECIAL.PARSER",
        "@module SPECIAL.PARSER.PLANNED",
        "@area SPECIAL.PARSER",
        "@fileimplements SPECIAL.PARSER",
    ]));
    assert!(parsed.diagnostics.is_empty());
    assert!(parsed.specs.is_empty());
    assert!(parsed.verifies.is_empty());
    assert!(parsed.attests.is_empty());
}

#[test]
fn parses_single_verify_reference() {
    let block = source_block_with_owned_item(&["@verifies EXPORT.DOESNTCRASH"], 2, "fn verifies_export_doesnt_crash() {}");
    let parsed = parse_current(&block);
    assert_eq!(parsed.verifies.len(), 1);
    assert_eq!(parsed.verifies[0].spec_id, "EXPORT.DOESNTCRASH");
    assert_eq!(parsed.verifies[0].body.as_deref(), Some("fn verifies_export_doesnt_crash() {}"));
    assert!(parsed.diagnostics.is_empty());
}

#[test]
fn parses_file_verify_reference() {
    let content = "// @fileverifies EXPORT.DOESNTCRASH\nfn verifies_export_doesnt_crash() {}\n";
    let block = block("special-fileverify.rs", &["@fileverifies EXPORT.DOESNTCRASH"], None, Some(content));
    let parsed = parse_current(&block);
    assert_eq!(parsed.verifies.len(), 1);
    assert_eq!(parsed.verifies[0].spec_id, "EXPORT.DOESNTCRASH");
    assert!(parsed.verifies[0].body_location.is_none());
    assert_eq!(parsed.verifies[0].body.as_deref(), Some(content.trim_end()));
    assert!(parsed.diagnostics.is_empty());
}

#[test]
fn rejects_multiple_verifies_in_one_block() {
    let block = source_block_with_owned_item(&["@verifies AUTH.ONE", "@verifies AUTH.TWO"], 3, "fn verifies_auth() {}");
    let parsed = parse_current(&block);
    assert_eq!(parsed.verifies.len(), 1);
    assert_eq!(parsed.diagnostics.len(), 1);
    assert!(parsed.diagnostics[0].message.contains("only one @verifies"));
}

#[test]
fn rejects_orphan_verifies_blocks() {
    let parsed = parse_current(&source_block(&["@verifies EXPORT.ORPHAN"]));
    assert!(parsed.verifies.is_empty());
    assert_eq!(parsed.diagnostics.len(), 1);
    assert!(parsed.diagnostics[0].message.contains("@verifies must attach to the next supported item"));
}

#[test]
fn parses_attestation_blocks() {
    let parsed = parse_current(&source_block(&[
        "@attests AUTH",
        "artifact: docs/auth.md",
        "owner: security",
        "last_reviewed: 2026-04-12",
    ]));
    assert_eq!(parsed.attests.len(), 1);
    assert_eq!(parsed.attests[0].scope, AttestScope::Block);
    assert!(parsed.attests[0].body.as_deref().expect("attest body should be present").contains("@attests AUTH"));
    assert!(parsed.diagnostics.is_empty());
}

#[test]
fn requires_attestation_metadata() {
    let parsed = parse_current(&source_block(&["@attests AUTH", "artifact:"]));
    assert_eq!(parsed.attests.len(), 0);
    assert_eq!(parsed.diagnostics.len(), 3);
    let messages: Vec<&str> = parsed.diagnostics.iter().map(|d| d.message.as_str()).collect();
    let lines: Vec<usize> = parsed.diagnostics.iter().map(|d| d.line).collect();
    assert!(messages.iter().any(|m| m.contains("missing required attestation metadata `artifact`")));
    assert!(messages.iter().any(|m| m.contains("missing required attestation metadata `last_reviewed`")));
    assert!(messages.iter().any(|m| m.contains("missing required attestation metadata `owner`")));
    assert_eq!(lines, vec![2, 1, 1]);
}

#[test]
fn parses_file_scoped_attestation_blocks() {
    let content = "// @fileattests AUTH\n// artifact: docs/auth-review.md\n// owner: security\n// last_reviewed: 2026-04-16\nfn helper() {}\n";
    let block = block(
        "special-parser-file-attests.rs",
        &["@fileattests AUTH", "artifact: docs/auth-review.md", "owner: security", "last_reviewed: 2026-04-16"],
        None,
        Some(content),
    );
    let parsed = parse_current(&block);
    assert_eq!(parsed.attests.len(), 1);
    assert_eq!(parsed.attests[0].scope, AttestScope::File);
    assert!(parsed.attests[0].body.as_deref().expect("attest body should be present").contains("fn helper() {}"));
    assert!(parsed.diagnostics.is_empty());
}

#[test]
fn rejects_duplicate_attestation_metadata_keys() {
    let parsed = parse_current(&source_block(&[
        "@attests EXPORT.CSV_HEADER",
        "artifact: cargo test",
        "artifact: cargo test --release",
        "owner: qa@example.com",
        "last_reviewed: 2026-04-13",
    ]));
    assert!(parsed.attests.is_empty());
    assert!(parsed.diagnostics.iter().any(|d| d.message.contains("duplicate attestation metadata `artifact`")));
}

#[test]
fn rejects_unknown_attestation_metadata_keys() {
    let parsed = parse_current(&source_block(&[
        "@attests AUTH",
        "artifact: docs/auth.md",
        "owner: security",
        "last_reviewed: 2026-04-12",
        "reviewed_by: qa",
    ]));
    assert!(parsed.attests.is_empty());
    assert_eq!(parsed.diagnostics.len(), 1);
    assert_eq!(parsed.diagnostics[0].line, 5);
    assert!(parsed.diagnostics[0].message.contains("unknown attestation metadata `reviewed_by`"));
}

#[test]
fn requires_attestation_dates_in_iso_format() {
    let parsed = parse_current(&source_block(&[
        "@attests AUTH",
        "artifact: docs/auth.md",
        "owner: security",
        "last_reviewed: 04-12-2026",
    ]));
    assert_eq!(parsed.attests.len(), 0);
    assert_eq!(parsed.diagnostics.len(), 1);
    assert_eq!(parsed.diagnostics[0].line, 4);
    assert!(parsed.diagnostics[0].message.contains("last_reviewed must use YYYY-MM-DD format"));
}

#[test]
fn requires_numeric_attestation_review_interval() {
    let parsed = parse_current(&source_block(&[
        "@attests AUTH",
        "artifact: docs/auth.md",
        "owner: security",
        "last_reviewed: 2026-04-12",
        "review_interval_days: thirty",
    ]));
    assert_eq!(parsed.attests.len(), 0);
    assert_eq!(parsed.diagnostics.len(), 1);
    assert_eq!(parsed.diagnostics[0].line, 5);
    assert!(parsed.diagnostics[0].message.contains("review_interval_days must be a positive integer"));
}

#[test]
fn requires_positive_attestation_review_interval() {
    let parsed = parse_current(&source_block(&[
        "@attests AUTH",
        "artifact: docs/auth.md",
        "owner: security",
        "last_reviewed: 2026-04-12",
        "review_interval_days: 0",
    ]));
    assert_eq!(parsed.attests.len(), 0);
    assert_eq!(parsed.diagnostics.len(), 1);
    assert_eq!(parsed.diagnostics[0].line, 5);
    assert!(parsed.diagnostics[0].message.contains("review_interval_days must be a positive integer"));
}
