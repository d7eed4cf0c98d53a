use special::model::core_types::{BlockLine, CommentBlock, OwnedItem, SourceLocation};
use special::model::spec::{AttestScope, ParsedRepo};
use special::modules::lint::build_module_lint_report as lint_parsed;
use special::modules::parse::{normalized_annotation_line, parse_implements_refs};
use special::modules::parse_markdown::parse_markdown_architecture_block;
use special::modules::{build_module_lint_report, parse_architecture};
use special::model::architecture::{ParsedArchitecture, PatternStrictness};
use special::model::core_types::ArchitectureKind;
use special::parser::block::{ParseDialect, ParseRules};
use special::parser::markdown::{markdown_source_block, numbered_lines, parse_markdown_source};
use special::parser::{MarkdownSource, parse_repo};

fn parse_markdown_fixture(markdown: &str) -> ParsedRepo {
    let mut parsed = ParsedRepo::new();
    parse_markdown_source("specs.md", markdown, &mut parsed, ParseRules::for_dialect(ParseDialect::CurrentV1));
    parsed
}

#[test]
fn markdown_rejects_invalid_trailing_deprecated_suffix_with_neutral_message() {
    let parsed = parse_markdown_fixture("### @spec APP.BAD @deprecatedx\nBroken.\n");
    assert!(parsed.specs.is_empty());
    assert_eq!(parsed.diagnostics.len(), 1);
    assert!(parsed.diagnostics[0].message.contains("`@planned` or `@deprecated`"));
}

#[test]
fn markdown_accepts_bare_spec_declaration_lines() {
    let parsed = parse_markdown_fixture("@spec APP.BARE\nBare declaration.\n");
    assert_eq!(parsed.specs.len(), 1);
    assert_eq!(parsed.specs[0].id, "APP.BARE");
    assert_eq!(parsed.specs[0].text, "Bare declaration.");
    assert!(parsed.diagnostics.is_empty());
}

#[test]
fn markdown_does_not_materialize_list_or_blockquote_declarations() {
    let parsed = parse_markdown_fixture("- @spec APP.LIST\n> @spec APP.QUOTE\n");
    assert!(parsed.specs.is_empty());
    assert!(parsed.diagnostics.is_empty());
}

#[test]
fn markdown_does_not_materialize_fenced_declaration_examples() {
    let parsed = parse_markdown_fixture("```text\n@group APP\nApp.\n\n@spec APP.EXAMPLE\nExample.\n```\n");
    assert!(parsed.specs.is_empty());
    assert!(parsed.diagnostics.is_empty());
}

#[test]
fn markdown_rejects_duplicate_inline_and_adjacent_planned_markers() {
    let parsed = parse_markdown_fixture("### @spec APP.BAD @planned 0.4.0\n### @planned 0.5.0\nPlanned.\n");
    assert_eq!(parsed.specs.len(), 1);
    assert!(parsed.specs[0].is_planned());
    assert_eq!(parsed.specs[0].planned_release(), Some("0.4.0"));
    assert_eq!(parsed.diagnostics.len(), 1);
    assert!(parsed.diagnostics[0].message.contains("@planned must appear only once"));
}

#[test]
fn markdown_rejects_duplicate_inline_and_adjacent_deprecated_markers() {
    let parsed = parse_markdown_fixture("### @spec APP.BAD @deprecated 0.6.0\n### @deprecated 0.7.0\nDeprecated.\n");
    assert_eq!(parsed.specs.len(), 1);
    assert!(parsed.specs[0].is_deprecated());
    assert_eq!(parsed.specs[0].deprecated_release(), Some("0.6.0"));
    assert_eq!(parsed.diagnostics.len(), 1);
    assert!(parsed.diagnostics[0].message.contains("@deprecated must appear only once"));
}

#[test]
fn markdown_rejects_adjacent_planned_and_deprecated_combination() {
    let parsed = parse_markdown_fixture("### @spec APP.BAD\n### @planned 0.4.0\n### @deprecated 0.6.0\nConflicting.\n");
    assert_eq!(parsed.specs.len(), 1);
    assert!(parsed.specs[0].is_planned());
    assert!(!parsed.specs[0].is_deprecated());
    assert_eq!(parsed.specs[0].planned_release(), Some("0.4.0"));
    assert_eq!(parsed.diagnostics.len(), 1);
    assert!(parsed.diagnostics[0].message.contains("@spec may not be both planned and deprecated"));
}

#[test]
fn markdown_rejects_reverse_order_adjacent_deprecated_and_planned_combination() {
    let parsed = parse_markdown_fixture("### @spec APP.BAD\n### @deprecated 0.6.0\n### @planned 0.4.0\nConflicting.\n");
    assert_eq!(parsed.specs.len(), 1);
    assert!(parsed.specs[0].is_deprecated());
    assert!(!parsed.specs[0].is_planned());
    assert_eq!(parsed.specs[0].deprecated_release(), Some("0.6.0"));
    assert_eq!(parsed.diagnostics.len(), 1);
    assert!(parsed.diagnostics[0].message.contains("@spec may not be both planned and deprecated"));
}

#[test]
fn markdown_reports_floating_lifecycle_markers() {
    let parsed = parse_markdown_fixture("Intro.\n\n@planned\n");
    assert!(parsed.specs.is_empty());
    assert_eq!(parsed.diagnostics.len(), 1);
    assert_eq!(parsed.diagnostics[0].line, 3);
    assert!(parsed.diagnostics[0].message.contains("@planned must be adjacent to exactly one owning @spec or @module"));
}

#[test]
fn markdown_file_attests_cover_the_whole_document() {
    let content = "# Review\n\n@fileattests APP.DOC\nartifact: docs/review.md\nowner: docs\nlast_reviewed: 2026-01-02\n\nBody text.\n";
    let parsed = parse_markdown_fixture(content);
    assert_eq!(parsed.attests.len(), 1);
    assert_eq!(parsed.attests[0].scope, AttestScope::File);
    assert_eq!(parsed.attests[0].spec_id, "APP.DOC");
    assert_eq!(parsed.attests[0].body.as_deref(), Some(content.trim_end()));
    assert!(parsed.diagnostics.is_empty());
}

#[test]
fn markdown_without_annotations_adds_nothing() {
    let parsed = parse_markdown_fixture("# Title\n\nJust prose about `@spec` usage.\n");
    assert!(parsed.specs.is_empty() && parsed.diagnostics.is_empty() && parsed.attests.is_empty());
}

#[test]
fn numbered_lines_follow_str_lines() {
    let lines = numbered_lines("a\r\nb\n\nc");
    let texts: Vec<&str> = lines.iter().map(|l| l.text.as_str()).collect();
    assert_eq!(texts, "a\r\nb\n\nc".lines().collect::<Vec<_>>());
    assert_eq!(lines.iter().map(|l| l.line).collect::<Vec<_>>(), vec![1, 2, 3, 4]);
    assert!(numbered_lines("").is_empty());
    assert_eq!(numbered_lines("x\n").len(), 1);
}

#[test]
fn normalized_annotation_line_preserves_inline_code_at_line_start() {
    assert_eq!(
        normalized_annotation_line(Some("`paypal config` manages `paypal.env.yaml` against linked remote apps.")),
        Some("`paypal config` manages `paypal.env.yaml` against linked remote apps.")
    );
}

#[test]
fn normalized_annotation_line_unwraps_whole_line_code_span() {
    assert_eq!(normalized_annotation_line(Some("`@module APP.CORE`")), Some("@module APP.CORE"));
}

fn architecture(content: &str) -> ParsedArchitecture {
    let mut parsed = ParsedArchitecture::default();
    parse_markdown_architecture_block(&markdown_source_block("ARCHITECTURE.md", content), &mut parsed);
    parsed
}

#[test]
fn parses_modules_areas_and_descriptions() {
    let parsed = architecture("# Architecture\n\n### `@area APP`\nApp root.\n\n### `@module APP.CORE`\nCore logic.\n- more detail\n\n## Next\n");
    assert!(parsed.diagnostics.is_empty());
    assert_eq!(parsed.modules.len(), 2);
    assert_eq!(parsed.modules[0].id, "APP");
    assert_eq!(parsed.modules[0].kind(), ArchitectureKind::Area);
    assert_eq!(parsed.modules[0].text, "App root.");
    assert_eq!(parsed.modules[1].id, "APP.CORE");
    assert_eq!(parsed.modules[1].text, "Core logic. more detail");
    assert_eq!(parsed.modules[1].location.line, 6);
}

#[test]
fn planned_modules_take_the_adjacent_marker_and_areas_refuse_it() {
    let parsed = architecture("@module APP.NEXT\n@planned 2.0\nComing later.\n\n@area APP @planned\n");
    assert_eq!(parsed.modules.len(), 1);
    assert!(parsed.modules[0].is_planned());
    assert_eq!(parsed.modules[0].plan().release(), Some("2.0"));
    assert_eq!(parsed.modules[0].text, "Coming later.");
    assert_eq!(parsed.diagnostics.len(), 1);
    assert!(parsed.diagnostics[0].message.contains("@planned may only apply to @module, not @area"));
}

#[test]
fn patterns_read_strictness_and_applications_own_sections() {
    let parsed = architecture(
        "@pattern CACHE\n@strictness high\nCache results.\n\n## Usage\n@applies CACHE\nText under usage.\n## Other\nMore.\n",
    );
    assert!(parsed.diagnostics.is_empty());
    assert_eq!(parsed.patterns.len(), 1);
    assert_eq!(parsed.patterns[0].pattern_id, "CACHE");
    assert_eq!(parsed.patterns[0].strictness, PatternStrictness::High);
    assert_eq!(parsed.patterns[0].text, "Cache results.");
    assert_eq!(parsed.pattern_applications.len(), 1);
    let app = &parsed.pattern_applications[0];
    assert_eq!(app.location.line, 6);
    assert_eq!(app.body_location.as_ref().map(|l| l.line), Some(5));
    assert_eq!(app.body.as_deref(), Some("## Usage\nText under usage."));
}

#[test]
fn item_scoped_implements_needs_a_heading_section() {
    let parsed = architecture("@implements APP.CORE\nNo heading here.\n");
    assert!(parsed.implements.is_empty());
    assert_eq!(parsed.diagnostics.len(), 1);
    assert!(parsed.diagnostics[0].message.contains("@implements must attach to a markdown heading section"));
}

fn comment_block(lines: &[&str], owned: bool) -> CommentBlock {
    CommentBlock {
        path: "src/lib.rs".to_string(),
        lines: lines.iter().enumerate().map(|(i, t)| BlockLine { line: i + 1, text: t.to_string() }).collect(),
        owned_item: if owned {
            Some(OwnedItem { location: SourceLocation { path: "src/lib.rs".to_string(), line: 9 }, body: "fn f() {}".to_string() })
        } else {
            None
        },
        source_body: None,
    }
}

#[test]
fn source_implements_attach_to_the_documented_item() {
    let mut parsed = ParsedArchitecture::default();
    parse_implements_refs(&comment_block(&["@implements APP.CORE"], true), &mut parsed);
    parse_implements_refs(&comment_block(&["@fileimplements APP.CORE extra"], false), &mut parsed);
    parse_implements_refs(&comment_block(&["@implements APP.CORE"], false), &mut parsed);
    assert_eq!(parsed.implements.len(), 1);
    assert_eq!(parsed.implements[0].body.as_deref(), Some("fn f() {}"));
    assert_eq!(parsed.diagnostics.len(), 2);
    assert!(parsed.diagnostics[0].message.contains("unexpected trailing content after @fileimplements module id"));
    assert!(parsed.diagnostics[1].message.contains("@implements must attach to the next supported item"));
}

#[test]
fn module_lint_reports_rule_findings_sorted_once() {
    let blocks = vec![comment_block(&["@implements APP.AREA", "@implements APP.GHOST"], true)];
    let markdown = vec![MarkdownSource {
        path: "ARCHITECTURE.md".to_string(),
        content: "@area APP.AREA\nArea.\n\n@module APP.CORE.DEEP\nDeep.\n\n@module APP.CORE.DEEP\nAgain.\n\n@fileapplies NOPE\n".to_string(),
    }];
    let report = build_module_lint_report(&blocks, &markdown);
    let messages: Vec<(String, usize, String)> =
        report.diagnostics.iter().map(|d| (d.path.clone(), d.line, d.message.clone())).collect();
    assert!(report.has_errors());
    assert!(messages.contains(&("ARCHITECTURE.md".to_string(), 7, "duplicate module id `APP.CORE.DEEP`; first declared on line 4".to_string())));
    assert!(messages.contains(&("ARCHITECTURE.md".to_string(), 4, "missing intermediate module `APP`".to_string())));
    assert!(messages.contains(&("ARCHITECTURE.md".to_string(), 4, "missing intermediate module `APP.CORE`".to_string())));
    assert!(messages.contains(&("src/lib.rs".to_string(), 2, "unknown module id `APP.GHOST` referenced by @implements or @fileimplements".to_string())));
    assert!(messages.contains(&(
        "src/lib.rs".to_string(),
        1,
        "@implements and @fileimplements may only reference @module ids; `APP.AREA` is declared as @area".to_string()
    )));
    assert!(messages.contains(&(
        "src/lib.rs".to_string(),
        2,
        "duplicate @implements for attached item starting on line 9; first declared on line 1".to_string()
    )));
    assert!(messages.contains(&("ARCHITECTURE.md".to_string(), 10, "unknown pattern id `NOPE` referenced by @applies".to_string())));
    assert!(messages.iter().any(|(_, _, m)| m.contains("current module `APP.CORE.DEEP` has no ownership")));
    let mut sorted = messages.clone();
    sorted.sort();
    sorted.dedup();
    assert_eq!(sorted, messages);
}

#[test]
fn lint_of_a_clean_architecture_is_empty() {
    let blocks = vec![comment_block(&["@fileimplements APP"], false)];
    let markdown = vec![MarkdownSource { path: "ARCHITECTURE.md".to_string(), content: "@module APP\nThe app.\n".to_string() }];
    let parsed = parse_architecture(&blocks, &markdown);
    assert_eq!(parsed.modules.len(), 1);
    assert!(lint_parsed(&parsed).diagnostics.is_empty());
}

#[test]
fn parse_repo_reads_blocks_then_markdown() {
    let blocks = vec![comment_block(&["@spec APP.ONE", "First."], false)];
    let markdown = vec![MarkdownSource { path: "specs.md".to_string(), content: "@spec APP.TWO\nSecond.\n".to_string() }];
    let parsed = parse_repo(&blocks, &markdown, ParseDialect::CurrentV1);
    assert_eq!(parsed.specs.iter().map(|s| s.id.as_str()).collect::<Vec<_>>(), vec!["APP.ONE", "APP.TWO"]);
    assert!(parsed.diagnostics.is_empty());
}
