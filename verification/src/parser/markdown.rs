//! Declarative markdown annotations: `@group`, `@spec`, their adjacent
//! lifecycle markers, and `@fileattests`, read from ordinary markdown text.
//! Item-scoped verifies and attests belong to source comments, not here.
use vstd::prelude::*;
use vstd::string::*;

use crate::model::core_types::{BlockLine, CommentBlock, DeprecatedRelease, NodeKind, PlannedRelease, SourceLocation};
use crate::model::spec::{AttestRef, AttestScope, ParsedRepo, SpecDecl};
use crate::parser::attestation::{attestation_valid, meta_record, metadata_ok, parse_attestation_metadata};
use crate::parser::block::{
    BlockState, BlockWalk, ParseRules, at_sign, block_diag, block_file_body, diag_lines, lemma_diag_lines_push,
    attest_push, attest_views, lemma_reserved_rest_at, push_opt, spec_views, verify_views, walk_here, walk_start,
};
use crate::model::spec::lifecycle_error;
use crate::parser::decls::decl_from_parts;
use crate::parser::lines::join;
use crate::planned_syntax::{DeclHeaderView, header_view};
use crate::model::spec::SpecDeclView;
use crate::parser::decls::{
    AdjacentLifecycle, SpecLifecycleMarkers, adjacent_marker_spec, build_spec_decl, opt_string_view,
    parse_adjacent_spec_deprecated, parse_adjacent_spec_planned, parse_spec_decl_header,
    spec_header_spec,
};
use crate::parser::diag::{error_at, keeps_errors};
use crate::parser::growth::{
    block_growth, file_body, lemma_diag_growth, lemma_growth_refl, lemma_growth_trans,
};
use crate::parser::lines::join_strings;
use crate::planned_syntax::{ParsedDeclHeader, PlannedSyntax};
use crate::syntax::{
    ReservedSpecialAnnotation, fence_line, is_any_tag_boundary, markdown_annotation_text,
    markdown_declaration_text, normalize_markdown_annotation_line,
    normalize_markdown_declaration_line, reserved_annotation_of, reserved_rest,
    reserved_special_annotation, reserved_special_annotation_rest, skip_blank, starts_markdown_fence,
    tag_boundary,
};
use crate::text::{WordError, owned, single_word, single_word_str, trim, trim_end};

verus! {

/// Index of the line feed that ends the line starting at `from`, or the
/// end of the text.
pub open spec fn line_end(s: Seq<char>, from: int) -> int
    decreases s.len() - from,
{
    if from < 0 || from >= s.len() || s[from] == '\n' {
        from
    } else {
        line_end(s, from + 1)
    }
}

/// A line without its trailing carriage return.
pub open spec fn strip_cr(l: Seq<char>) -> Seq<char> {
    if l.len() > 0 && l.last() == '\r' {
        l.drop_last()
    } else {
        l
    }
}

/// The lines of `s` from index `from` on, split at line feeds, each without
/// a trailing carriage return; a final line feed ends the last line rather
/// than starting an empty one.
pub open spec fn lines_from(s: Seq<char>, from: int) -> Seq<Seq<char>>
    decreases s.len() - from,
{
    if from < 0 || from >= s.len() {
        Seq::empty()
    } else {
        let e = line_end(s, from);
        if e < from {
            Seq::empty()
        } else if e >= s.len() {
            seq![strip_cr(s.subrange(from, e))]
        } else {
            seq![strip_cr(s.subrange(from, e))] + lines_from(s, e + 1)
        }
    }
}

/// The lines of a text, as `str::lines` reads them.
pub open spec fn text_lines(s: Seq<char>) -> Seq<Seq<char>> {
    lines_from(s, 0)
}

/// The texts of numbered lines.
pub open spec fn block_texts(lines: Seq<BlockLine>) -> Seq<Seq<char>> {
    lines.map_values(|l: BlockLine| l.text@)
}

proof fn lemma_line_end(s: Seq<char>, from: int, e: int)
    requires
        0 <= from <= e <= s.len(),
        forall|k: int| from <= k < e ==> s[k] != '\n',
        e == s.len() || s[e] == '\n',
    ensures
        line_end(s, from) == e,
    decreases e - from,
{
    if from < e {
        lemma_line_end(s, from + 1, e);
    }
}

/// The numbered lines of a text: the `i`-th line carries number `i + 1`.
pub fn numbered_lines(content: &str) -> (r: Vec<BlockLine>)
    ensures
        block_texts(r@) == text_lines(content@),
        forall|i: int| 0 <= i < r@.len() ==> (#[trigger] r@[i]).line == i + 1,
{
    let len = content.unicode_len();
    let ghost s = content@;
    let mut out: Vec<BlockLine> = Vec::new();
    let mut from: usize = 0;
    while from < len
        invariant
            len == s.len(),
            s == content@,
            from <= len,
            out@.len() <= from,
            block_texts(out@) + lines_from(s, from as int) == lines_from(s, 0),
            forall|i: int| 0 <= i < out@.len() ==> (#[trigger] out@[i]).line == i + 1,
        decreases len - from,
    {
        let mut e = from;
        while e < len && content.get_char(e) != '\n'
            invariant
                len == s.len(),
                s == content@,
                from <= e <= len,
                forall|k: int| from <= k < e ==> s[k] != '\n',
            decreases len - e,
        {
            e = e + 1;
        }
        proof {
            lemma_line_end(s, from as int, e as int);
        }
        let end = if e > from && content.get_char(e - 1) == '\r' {
            e - 1
        } else {
            e
        };
        let text = content.substring_char(from, end);
        proof {
            assert(text@ =~= strip_cr(s.subrange(from as int, e as int)));
        }
        let ghost before = out@;
        let number = out.len() + 1;
        out.push(BlockLine { line: number, text: owned(text) });
        proof {
            assert(block_texts(out@) =~= block_texts(before).push(text@));
        }
        if e >= len {
            proof {
                assert(lines_from(s, from as int) == seq![text@]);
                assert(block_texts(out@) =~= block_texts(before) + lines_from(s, from as int));
            }
            return out;
        }
        proof {
            assert(lines_from(s, from as int) == seq![text@] + lines_from(s, e + 1));
            assert(block_texts(out@) + lines_from(s, e + 1) =~= block_texts(before) + lines_from(s, from as int));
        }
        from = e + 1;
    }
    proof {
        assert(lines_from(s, from as int) =~= Seq::<Seq<char>>::empty());
        assert(block_texts(out@) =~= block_texts(out@) + lines_from(s, from as int));
    }
    out
}

/// A markdown file as one block: its numbered lines, and its text as the
/// body of file-scoped attachments.
pub fn markdown_source_block(path: &str, content: &str) -> (r: CommentBlock)
    ensures
        r.path@ == path@,
        block_texts(r.lines@) == text_lines(content@),
        forall|i: int| 0 <= i < r.lines@.len() ==> (#[trigger] r.lines@[i]).line == i + 1,
        r.owned_item is None,
        opt_string_view(r.source_body) == Some(content@),
{
    CommentBlock {
        path: owned(path),
        lines: numbered_lines(content),
        owned_item: None,
        source_body: Some(owned(content)),
    }
}

/// The declaration a markdown line opens: `@spec` or `@group` with the
/// text after the tag, read from the line without its heading marker.
pub open spec fn markdown_spec_decl(raw: Seq<char>) -> Option<(NodeKind, Seq<char>)> {
    match markdown_declaration_text(raw) {
        None => None,
        Some(d) => match reserved_rest(d, ReservedSpecialAnnotation::Spec) {
            Some(rest) => Some((NodeKind::Spec, rest)),
            None => match reserved_rest(d, ReservedSpecialAnnotation::Group) {
                Some(rest) => Some((NodeKind::Group, rest)),
                None => None,
            },
        },
    }
}

/// Reads a markdown line as a `@spec` or `@group` declaration.
pub fn parse_markdown_spec_decl(line: &str) -> (r: Option<(NodeKind, &str)>)
    ensures
        match r {
            Some((k, rest)) => markdown_spec_decl(line@) == Some((k, rest@)),
            None => markdown_spec_decl(line@) is None,
        },
{
    let trimmed = match normalize_markdown_declaration_line(line) {
        Some(t) => t,
        None => return None,
    };
    if let Some(rest) = reserved_special_annotation_rest(trimmed, ReservedSpecialAnnotation::Spec) {
        Some((NodeKind::Spec, rest))
    } else {
        match reserved_special_annotation_rest(trimmed, ReservedSpecialAnnotation::Group) {
            Some(rest) => Some((NodeKind::Group, rest)),
            None => None,
        }
    }
}

/// The text after `@fileattests` on a markdown declaration line.
pub open spec fn markdown_file_attest(raw: Seq<char>) -> Option<Seq<char>> {
    match markdown_declaration_text(raw) {
        None => None,
        Some(d) => reserved_rest(d, ReservedSpecialAnnotation::FileAttests),
    }
}

/// Reads a markdown line as a `@fileattests` declaration.
pub fn parse_markdown_file_attest(line: &str) -> (r: Option<&str>)
    ensures
        match r {
            Some(rest) => markdown_file_attest(line@) == Some(rest@),
            None => markdown_file_attest(line@) is None,
        },
{
    match normalize_markdown_declaration_line(line) {
        Some(t) => reserved_special_annotation_rest(t, ReservedSpecialAnnotation::FileAttests),
        None => None,
    }
}

/// The reserved annotation that a markdown line declares, if any.
pub open spec fn markdown_annotation_kind(raw: Seq<char>) -> Option<ReservedSpecialAnnotation> {
    match markdown_declaration_text(raw) {
        None => None,
        Some(d) => reserved_annotation_of(d),
    }
}

fn markdown_annotation_kind_of(line: &str) -> (r: Option<ReservedSpecialAnnotation>)
    ensures
        r == markdown_annotation_kind(line@),
{
    match normalize_markdown_declaration_line(line) {
        Some(t) => reserved_special_annotation(t),
        None => None,
    }
}

pub open spec fn floating_planned_message() -> Seq<char> {
    "@planned must be adjacent to exactly one owning @spec or @module"@
}

pub open spec fn floating_deprecated_message() -> Seq<char> {
    "@deprecated must be adjacent to exactly one owning @spec"@
}

/// A lifecycle marker with no declaration on the line before it is
/// reported; one right after a declaration is read with that declaration.
pub open spec fn floating_message(lines: Seq<Seq<char>>, index: int) -> Option<Seq<char>> {
    let msg = match markdown_annotation_kind(lines[index]) {
        Some(ReservedSpecialAnnotation::Planned) => Some(floating_planned_message()),
        Some(ReservedSpecialAnnotation::Deprecated) => Some(floating_deprecated_message()),
        _ => None,
    };
    let owned_by_previous = index > 0 && match markdown_annotation_kind(lines[index - 1]) {
        Some(ReservedSpecialAnnotation::Spec) | Some(ReservedSpecialAnnotation::Group)
        | Some(ReservedSpecialAnnotation::Module) | Some(ReservedSpecialAnnotation::Area) => true,
        _ => false,
    };
    if owned_by_previous {
        None
    } else {
        msg
    }
}

/// The message for a floating lifecycle marker at `index`, if it is one.
pub fn floating_markdown_lifecycle_message(lines: &Vec<BlockLine>, index: usize) -> (r: Option<&'static str>)
    requires
        index < lines@.len(),
    ensures
        match r {
            Some(m) => floating_message(block_texts(lines@), index as int) == Some(m@),
            None => floating_message(block_texts(lines@), index as int) is None,
        },
{
    proof {
        reveal_strlit("@planned must be adjacent to exactly one owning @spec or @module");
        reveal_strlit("@deprecated must be adjacent to exactly one owning @spec");
    }
    let message = match markdown_annotation_kind_of(lines[index].text.as_str()) {
        Some(ReservedSpecialAnnotation::Planned) => "@planned must be adjacent to exactly one owning @spec or @module",
        Some(ReservedSpecialAnnotation::Deprecated) => "@deprecated must be adjacent to exactly one owning @spec",
        _ => return None,
    };
    if index > 0 {
        match markdown_annotation_kind_of(lines[index - 1].text.as_str()) {
            Some(ReservedSpecialAnnotation::Spec) | Some(ReservedSpecialAnnotation::Group)
            | Some(ReservedSpecialAnnotation::Module) | Some(ReservedSpecialAnnotation::Area) => {
                return None;
            },
            _ => {},
        }
    }
    Some(message)
}

/// Index of the first non-blank line at or after `cursor`.
pub fn skip_blank_lines(lines: &Vec<BlockLine>, cursor: usize) -> (r: usize)
    requires
        cursor <= lines@.len(),
    ensures
        r == skip_blank(block_texts(lines@), cursor as int),
        cursor <= r <= lines@.len(),
{
    let ghost texts = block_texts(lines@);
    let mut c = cursor;
    while c < lines.len() && crate::text::is_blank_str(lines[c].text.as_str())
        invariant
            cursor <= c <= lines@.len(),
            texts == block_texts(lines@),
            skip_blank(texts, cursor as int) == skip_blank(texts, c as int),
        decreases lines@.len() - c,
    {
        proof {
            assert(texts[c as int] == lines@[c as int].text@);
        }
        c = c + 1;
    }
    proof {
        if c < lines@.len() {
            assert(texts[c as int] == lines@[c as int].text@);
        }
    }
    c
}

/// A markdown line holds no annotation: its declaration text, if any, does
/// not begin with `@`.
pub open spec fn plain_markdown_line(raw: Seq<char>) -> bool {
    markdown_declaration_text(raw) matches Some(d) ==> !at_sign(d)
}

pub open spec fn no_markdown_annotations(block: CommentBlock) -> bool {
    forall|i: int| 0 <= i < block.lines@.len() ==> plain_markdown_line(#[trigger] block.lines@[i].text@)
}

proof fn lemma_annotation_kind_at(raw: Seq<char>)
    requires
        markdown_annotation_kind(raw) is Some,
    ensures
        !plain_markdown_line(raw),
{
    let d = markdown_declaration_text(raw)->0;
    let k = reserved_annotation_of(d)->0;
    assert(reserved_rest(d, k) is Some);
    lemma_reserved_rest_at(d, k);
}

proof fn lemma_marker_at(kind: NodeKind, text: Seq<char>, syntax: PlannedSyntax, planned: bool)
    requires
        adjacent_marker_spec(kind, text, syntax, planned).0 != AdjacentLifecycle::Absent,
    ensures
        at_sign(text),
{
    reveal_strlit("@planned");
    reveal_strlit("@deprecated");
    let tag = crate::parser::decls::marker_tag(planned);
    assert(tag.is_prefix_of(text));
    assert(text[0] == tag[0]);
}

/// The marker that the line at `cursor` holds for a declaration of `kind`:
/// `Absent` past the end or on a line with no declaration text.
pub open spec fn marker_at(
    lines: Seq<BlockLine>,
    cursor: int,
    kind: NodeKind,
    syntax: PlannedSyntax,
    planned: bool,
) -> (AdjacentLifecycle, Option<Seq<char>>, Option<Seq<char>>) {
    if 0 <= cursor < lines.len() {
        match markdown_declaration_text(lines[cursor].text@) {
            Some(a) => adjacent_marker_spec(kind, a, syntax, planned),
            None => (AdjacentLifecycle::Absent, None, None),
        }
    } else {
        (AdjacentLifecycle::Absent, None, None)
    }
}

/// Reading the run of lifecycle markers after a markdown declaration of
/// kind `k` with header `h`, from line `c`, with the markers read so far and
/// the diagnostics so far: the markers, the line where the run stops, and the
/// diagnostics.
pub open spec fn lifecycle_run(
    lines: Seq<BlockLine>,
    syntax: PlannedSyntax,
    k: NodeKind,
    h: DeclHeaderView,
    c: int,
    p: bool,
    pr: Option<Seq<char>>,
    d: bool,
    dr: Option<Seq<char>>,
    diags: Seq<(usize, Seq<char>)>,
) -> (bool, Option<Seq<char>>, bool, Option<Seq<char>>, int, Seq<(usize, Seq<char>)>)
    decreases lines.len() - c,
{
    if c < 0 || c >= lines.len() {
        (p, pr, d, dr, c, diags)
    } else {
        let next = skip_blank(block_texts(lines), c + 1);
        let line = lines[c].line;
        let pm = marker_at(lines, c, k, syntax, true);
        let dm = marker_at(lines, c, k, syntax, false);
        if !(c < next <= lines.len()) {
            (p, pr, d, dr, c, diags)
        } else if pm.0 != AdjacentLifecycle::Absent {
            if pm.0 == AdjacentLifecycle::Parsed {
                if h.planned || p {
                    lifecycle_run(lines, syntax, k, h, next, p, pr, d, dr,
                        diags.push((line, "@planned must appear only once per owning @spec"@)))
                } else if h.deprecated || d {
                    lifecycle_run(lines, syntax, k, h, next, p, pr, d, dr,
                        diags.push((line, "@spec may not be both planned and deprecated"@)))
                } else {
                    lifecycle_run(lines, syntax, k, h, next, true, pm.1, d, dr, diags)
                }
            } else {
                lifecycle_run(lines, syntax, k, h, next, p, pr, d, dr, push_opt(diags, match pm.2 {
                    Some(m) => Some((line, m)),
                    None => None,
                }))
            }
        } else if dm.0 != AdjacentLifecycle::Absent {
            if dm.0 == AdjacentLifecycle::Parsed {
                if h.deprecated || d {
                    lifecycle_run(lines, syntax, k, h, next, p, pr, d, dr,
                        diags.push((line, "@deprecated must appear only once per owning @spec"@)))
                } else if h.planned || p {
                    lifecycle_run(lines, syntax, k, h, next, p, pr, d, dr,
                        diags.push((line, "@spec may not be both planned and deprecated"@)))
                } else {
                    lifecycle_run(lines, syntax, k, h, next, p, pr, true, dm.1, diags)
                }
            } else {
                lifecycle_run(lines, syntax, k, h, next, p, pr, d, dr, push_opt(diags, match dm.2 {
                    Some(m) => Some((line, m)),
                    None => None,
                }))
            }
        } else {
            (p, pr, d, dr, c, diags)
        }
    }
}

/// Reads an adjacent `@planned` marker at `cursor`. A parsed or invalid
/// marker is consumed with the blank lines after it; an invalid one is
/// reported.
fn maybe_consume_markdown_planned(
    kind: NodeKind,
    block: &CommentBlock,
    cursor: usize,
    parsed: &mut ParsedRepo,
    syntax: PlannedSyntax,
    Ghost(start): Ghost<ParsedRepo>,
) -> (r: (bool, Option<PlannedRelease>, usize))
    requires
        cursor <= block.lines@.len(),
        block_growth(start, *old(parsed), *block),
    ensures
        block_growth(start, *final(parsed), *block),
        final(parsed).specs == old(parsed).specs,
        final(parsed).verifies == old(parsed).verifies,
        final(parsed).attests == old(parsed).attests,
        marker_at(block.lines@, cursor as int, kind, syntax, true).0 == AdjacentLifecycle::Absent
            ==> r.2 == cursor && !r.0 && *final(parsed) == *old(parsed),
        marker_at(block.lines@, cursor as int, kind, syntax, true).0 != AdjacentLifecycle::Absent
            ==> r.2 == skip_blank(block_texts(block.lines@), cursor + 1) && cursor < r.2 <= block.lines@.len()
            && !plain_markdown_line(block.lines@[cursor as int].text@),
        r.0 == (marker_at(block.lines@, cursor as int, kind, syntax, true).0 == AdjacentLifecycle::Parsed),
        r.0 ==> crate::model::core_types::planned_release_view(r.1) == marker_at(block.lines@, cursor as int, kind, syntax, true).1,
        diag_lines(final(parsed).diagnostics@) == (if marker_at(block.lines@, cursor as int, kind, syntax, true).0
            == AdjacentLifecycle::Invalid {
            push_opt(diag_lines(old(parsed).diagnostics@), match marker_at(block.lines@, cursor as int, kind, syntax, true).2 {
                Some(m) => Some((block.lines@[cursor as int].line, m)),
                None => None,
            })
        } else {
            diag_lines(old(parsed).diagnostics@)
        }),
{
    if cursor >= block.lines.len() {
        return (false, None, cursor);
    }
    let annotation = match normalize_markdown_declaration_line(block.lines[cursor].text.as_str()) {
        Some(a) => a,
        None => return (false, None, cursor),
    };
    let (state, release, message) = parse_adjacent_spec_planned(kind, annotation, syntax);
    match state {
        AdjacentLifecycle::Absent => (false, None, cursor),
        AdjacentLifecycle::Parsed => {
            proof {
                lemma_marker_at(kind, annotation@, syntax, true);
            }
            (true, release, skip_blank_lines(&block.lines, cursor + 1))
        },
        AdjacentLifecycle::Invalid => {
            proof {
                lemma_marker_at(kind, annotation@, syntax, true);
            }
            if let Some(m) = message {
                block_diag(parsed, block, block.lines[cursor].line, m, Ghost(start));
            }
            (false, None, skip_blank_lines(&block.lines, cursor + 1))
        },
    }
}

/// Reads an adjacent `@deprecated` marker at `cursor`, as the planned one.
fn maybe_consume_markdown_deprecated(
    kind: NodeKind,
    block: &CommentBlock,
    cursor: usize,
    parsed: &mut ParsedRepo,
    syntax: PlannedSyntax,
    Ghost(start): Ghost<ParsedRepo>,
) -> (r: (bool, Option<DeprecatedRelease>, usize))
    requires
        cursor <= block.lines@.len(),
        block_growth(start, *old(parsed), *block),
    ensures
        block_growth(start, *final(parsed), *block),
        final(parsed).specs == old(parsed).specs,
        final(parsed).verifies == old(parsed).verifies,
        final(parsed).attests == old(parsed).attests,
        marker_at(block.lines@, cursor as int, kind, syntax, false).0 == AdjacentLifecycle::Absent
            ==> r.2 == cursor && !r.0 && *final(parsed) == *old(parsed),
        marker_at(block.lines@, cursor as int, kind, syntax, false).0 != AdjacentLifecycle::Absent
            ==> r.2 == skip_blank(block_texts(block.lines@), cursor + 1) && cursor < r.2 <= block.lines@.len()
            && !plain_markdown_line(block.lines@[cursor as int].text@),
        r.0 == (marker_at(block.lines@, cursor as int, kind, syntax, false).0 == AdjacentLifecycle::Parsed),
        r.0 ==> crate::model::core_types::deprecated_release_view(r.1) == marker_at(block.lines@, cursor as int, kind, syntax, false).1,
        diag_lines(final(parsed).diagnostics@) == (if marker_at(block.lines@, cursor as int, kind, syntax, false).0
            == AdjacentLifecycle::Invalid {
            push_opt(diag_lines(old(parsed).diagnostics@), match marker_at(block.lines@, cursor as int, kind, syntax, false).2 {
                Some(m) => Some((block.lines@[cursor as int].line, m)),
                None => None,
            })
        } else {
            diag_lines(old(parsed).diagnostics@)
        }),
{
    if cursor >= block.lines.len() {
        return (false, None, cursor);
    }
    let annotation = match normalize_markdown_declaration_line(block.lines[cursor].text.as_str()) {
        Some(a) => a,
        None => return (false, None, cursor),
    };
    let (state, release, message) = parse_adjacent_spec_deprecated(kind, annotation, syntax);
    match state {
        AdjacentLifecycle::Absent => (false, None, cursor),
        AdjacentLifecycle::Parsed => {
            proof {
                lemma_marker_at(kind, annotation@, syntax, false);
            }
            (true, release, skip_blank_lines(&block.lines, cursor + 1))
        },
        AdjacentLifecycle::Invalid => {
            proof {
                lemma_marker_at(kind, annotation@, syntax, false);
            }
            if let Some(m) = message {
                block_diag(parsed, block, block.lines[cursor].line, m, Ghost(start));
            }
            (false, None, skip_blank_lines(&block.lines, cursor + 1))
        },
    }
}

/// The lifecycle markers read after a markdown declaration, and where the
/// reading stopped.
struct MarkdownLifecycleState {
    planned: bool,
    planned_release: Option<PlannedRelease>,
    deprecated: bool,
    deprecated_release: Option<DeprecatedRelease>,
    cursor: usize,
}

/// Reads the run of adjacent lifecycle markers after a declaration. A
/// repeated marker, or one that conflicts with a marker already read, is
/// reported and dropped.
fn consume_markdown_lifecycle_markers(
    kind: NodeKind,
    block: &CommentBlock,
    start_cursor: usize,
    parsed: &mut ParsedRepo,
    syntax: PlannedSyntax,
    header: &ParsedDeclHeader,
    Ghost(start): Ghost<ParsedRepo>,
) -> (r: MarkdownLifecycleState)
    requires
        start_cursor <= block.lines@.len(),
        block_growth(start, *old(parsed), *block),
    ensures
        block_growth(start, *final(parsed), *block),
        final(parsed).specs == old(parsed).specs,
        final(parsed).verifies == old(parsed).verifies,
        final(parsed).attests == old(parsed).attests,
        start_cursor <= r.cursor <= block.lines@.len(),
        r.planned ==> !header.planned && !header.deprecated && !r.deprecated,
        r.deprecated ==> !header.planned && !header.deprecated && !r.planned,
        no_markdown_annotations(*block) ==> *final(parsed) == *old(parsed) && r.cursor == start_cursor
            && !r.planned && !r.deprecated,
        ({
            let run = lifecycle_run(
                block.lines@,
                syntax,
                kind,
                header_view(*header),
                start_cursor as int,
                false,
                None,
                false,
                None,
                diag_lines(old(parsed).diagnostics@),
            );
            &&& r.planned == run.0
            &&& crate::model::core_types::planned_release_view(r.planned_release) == run.1
            &&& r.deprecated == run.2
            &&& crate::model::core_types::deprecated_release_view(r.deprecated_release) == run.3
            &&& r.cursor == run.4
            &&& diag_lines(final(parsed).diagnostics@) == run.5
        }),
{
    let ghost entry = *parsed;
    let mut cursor = start_cursor;
    let mut planned = false;
    let mut planned_release: Option<PlannedRelease> = None;
    let mut deprecated = false;
    let mut deprecated_release: Option<DeprecatedRelease> = None;
    loop
        invariant
            start_cursor <= cursor <= block.lines@.len(),
            block_growth(start, *parsed, *block),
            parsed.specs == entry.specs,
            parsed.verifies == entry.verifies,
            parsed.attests == entry.attests,
            entry == *old(parsed),
            planned ==> !header.planned && !header.deprecated && !deprecated,
            deprecated ==> !header.planned && !header.deprecated && !planned,
            no_markdown_annotations(*block) ==> *parsed == entry && cursor == start_cursor && !planned
                && !deprecated,
            lifecycle_run(
                block.lines@,
                syntax,
                kind,
                header_view(*header),
                start_cursor as int,
                false,
                None,
                false,
                None,
                diag_lines(entry.diagnostics@),
            ) == lifecycle_run(
                block.lines@,
                syntax,
                kind,
                header_view(*header),
                cursor as int,
                planned,
                crate::model::core_types::planned_release_view(planned_release),
                deprecated,
                crate::model::core_types::deprecated_release_view(deprecated_release),
                diag_lines(parsed.diagnostics@),
            ),
        ensures
            cursor >= block.lines@.len() || (marker_at(block.lines@, cursor as int, kind, syntax, true).0
                == AdjacentLifecycle::Absent && marker_at(block.lines@, cursor as int, kind, syntax, false).0
                == AdjacentLifecycle::Absent),
        decreases block.lines@.len() - cursor,
    {
        let (candidate, candidate_release, next) = maybe_consume_markdown_planned(
            kind,
            block,
            cursor,
            parsed,
            syntax,
            Ghost(start),
        );
        if next != cursor {
            if candidate {
                if header.planned || planned {
                    block_diag(
                        parsed,
                        block,
                        block.lines[cursor].line,
                        "@planned must appear only once per owning @spec",
                        Ghost(start),
                    );
                } else if header.deprecated || deprecated {
                    block_diag(
                        parsed,
                        block,
                        block.lines[cursor].line,
                        "@spec may not be both planned and deprecated",
                        Ghost(start),
                    );
                } else {
                    planned = true;
                    planned_release = candidate_release;
                }
            }
            cursor = next;
            continue;
        }
        let (candidate, candidate_release, next) = maybe_consume_markdown_deprecated(
            kind,
            block,
            cursor,
            parsed,
            syntax,
            Ghost(start),
        );
        if next != cursor {
            if candidate {
                if header.deprecated || deprecated {
                    block_diag(
                        parsed,
                        block,
                        block.lines[cursor].line,
                        "@deprecated must appear only once per owning @spec",
                        Ghost(start),
                    );
                } else if header.planned || planned {
                    block_diag(
                        parsed,
                        block,
                        block.lines[cursor].line,
                        "@spec may not be both planned and deprecated",
                        Ghost(start),
                    );
                } else {
                    deprecated = true;
                    deprecated_release = candidate_release;
                }
            }
            cursor = next;
            continue;
        }
        break;
    }
    MarkdownLifecycleState { planned, planned_release, deprecated, deprecated_release, cursor }
}

/// The description after a markdown declaration from line `c`: the text of
/// the lines up to the first blank line once text has started, the next
/// declaration, or the next tag; fenced lines and fences are skipped, and a
/// line that is a literal code span adds nothing. Also gives the index
/// where the description ends.
pub open spec fn markdown_description_from(
    lines: Seq<BlockLine>,
    c: int,
    fence: bool,
    started: bool,
) -> (Seq<Seq<char>>, int)
    decreases lines.len() - c,
{
    if c < 0 || c >= lines.len() {
        (Seq::empty(), c)
    } else {
        let raw = lines[c].text@;
        if fence_line(raw) {
            markdown_description_from(lines, c + 1, !fence, started)
        } else if fence {
            markdown_description_from(lines, c + 1, fence, started)
        } else if trim(raw).len() == 0 {
            if started {
                (Seq::empty(), c)
            } else {
                markdown_description_from(lines, c + 1, fence, started)
            }
        } else if markdown_spec_decl(raw) is Some || (markdown_annotation_text(raw) matches Some(t)
            && tag_boundary(t)) {
            (Seq::empty(), c)
        } else {
            match markdown_annotation_text(raw) {
                Some(t) => {
                    let (d, e) = markdown_description_from(lines, c + 1, fence, true);
                    (seq![t] + d, e)
                },
                None => markdown_description_from(lines, c + 1, fence, started),
            }
        }
    }
}

/// Collects the description lines that start at `cursor`.
fn collect_markdown_description_lines(lines: &Vec<BlockLine>, cursor: usize) -> (r: (Vec<String>, usize))
    requires
        cursor <= lines@.len(),
    ensures
        markdown_description_from(lines@, cursor as int, false, false) == (
            crate::parser::lines::string_views(r.0@),
            r.1 as int,
        ),
        cursor <= r.1 <= lines@.len(),
{
    let mut out: Vec<String> = Vec::new();
    let mut c = cursor;
    let mut in_code_fence = false;
    while c < lines.len()
        invariant
            cursor <= c <= lines@.len(),
            markdown_description_from(lines@, cursor as int, false, false) == (
                crate::parser::lines::string_views(out@) + markdown_description_from(
                    lines@,
                    c as int,
                    in_code_fence,
                    out@.len() > 0,
                ).0,
                markdown_description_from(lines@, c as int, in_code_fence, out@.len() > 0).1,
            ),
        ensures
            cursor <= c <= lines@.len(),
            markdown_description_from(lines@, cursor as int, false, false) == (
                crate::parser::lines::string_views(out@) + markdown_description_from(
                    lines@,
                    c as int,
                    in_code_fence,
                    out@.len() > 0,
                ).0,
                markdown_description_from(lines@, c as int, in_code_fence, out@.len() > 0).1,
            ),
            markdown_description_from(lines@, c as int, in_code_fence, out@.len() > 0) == (
                Seq::<Seq<char>>::empty(),
                c as int,
            ),
        decreases lines@.len() - c,
    {
        let raw = lines[c].text.as_str();
        let ghost before = out@;
        let ghost started = out@.len() > 0;
        if starts_markdown_fence(raw) {
            in_code_fence = !in_code_fence;
            c = c + 1;
            continue;
        }
        if in_code_fence {
            c = c + 1;
            continue;
        }
        if crate::text::is_blank_str(raw) {
            if out.len() > 0 {
                break;
            }
            c = c + 1;
            continue;
        }
        if parse_markdown_spec_decl(raw).is_some() {
            break;
        }
        match normalize_markdown_annotation_line(raw) {
            Some(t) => {
                if is_any_tag_boundary(t) {
                    break;
                }
                out.push(owned(t));
                proof {
                    let tail = markdown_description_from(lines@, c + 1, in_code_fence, true);
                    assert(crate::parser::lines::string_views(out@) + tail.0 =~= crate::parser::lines::string_views(before) + (seq![t@] + tail.0));
                }
            },
            None => {},
        }
        c = c + 1;
    }
    proof {
        assert(crate::parser::lines::string_views(out@) + Seq::<Seq<char>>::empty() =~= crate::parser::lines::string_views(out@));
    }
    (out, c)
}

/// Handles a markdown `@fileattests` line: one spec id, then metadata. A
/// valid record attests the whole file. Gives the index after the record.
fn handle_markdown_file_attest(
    block: &CommentBlock,
    parsed: &mut ParsedRepo,
    index: usize,
    rest: &str,
    Ghost(start): Ghost<ParsedRepo>,
) -> (r: usize)
    requires
        index < block.lines@.len(),
        block_growth(start, *old(parsed), *block),
    ensures
        block_growth(start, *final(parsed), *block),
        final(parsed).specs == old(parsed).specs,
        final(parsed).verifies == old(parsed).verifies,
        old(parsed).attests@.len() <= final(parsed).attests@.len() <= old(parsed).attests@.len() + 1,
        old(parsed).attests@.is_prefix_of(final(parsed).attests@),
        forall|i: int| old(parsed).attests@.len() <= i < final(parsed).attests@.len() ==> (#[trigger] final(parsed).attests@[i]).scope
            == AttestScope::File,
        index < r <= block.lines@.len(),
        match single_word(rest@) {
            Err(WordError::Missing) => r == index + 1 && final(parsed).attests == old(parsed).attests && diag_lines(final(parsed).diagnostics@) == diag_lines(
                old(parsed).diagnostics@,
            ).push((block.lines@[index as int].line, "missing spec id after @fileattests"@)),
            Err(WordError::Trailing) => r == index + 1 && final(parsed).attests == old(parsed).attests && diag_lines(final(parsed).diagnostics@) == diag_lines(
                old(parsed).diagnostics@,
            ).push((block.lines@[index as int].line, "unexpected trailing content after @fileattests spec id"@)),
            Ok(id) => r as int == md_meta_end(block.lines@, skip_blank(block_texts(block.lines@), index + 1))
                && attest_views(final(parsed).attests@) == attest_push(
                attest_views(old(parsed).attests@),
                (id, block.path@, block.lines@[index as int].line, AttestScope::File, meta_record(
                    block.lines@,
                    skip_blank(block_texts(block.lines@), index + 1),
                    md_meta_end(block.lines@, skip_blank(block_texts(block.lines@), index + 1)),
                    true,
                )),
                metadata_ok(
                    block.lines@,
                    skip_blank(block_texts(block.lines@), index + 1),
                    md_meta_end(block.lines@, skip_blank(block_texts(block.lines@), index + 1)),
                    true,
                ),
            ),
        },
        single_word(rest@) is Err ==> first_new_error(
            *old(parsed),
            *final(parsed),
            block.path@,
            block.lines@[index as int].line,
            if single_word(rest@) == Err::<Seq<char>, WordError>(WordError::Missing) {
                "missing spec id after @fileattests"@
            } else {
                "unexpected trailing content after @fileattests spec id"@
            },
        ),
{
    let count = block.lines.len();
    let line_number = block.lines[index].line;
    let id = match single_word_str(rest) {
        Ok(id) => id,
        Err(WordError::Missing) => {
            block_diag(parsed, block, line_number, "missing spec id after @fileattests", Ghost(start));
            return index + 1;
        },
        Err(WordError::Trailing) => {
            block_diag(
                parsed,
                block,
                line_number,
                "unexpected trailing content after @fileattests spec id",
                Ghost(start),
            );
            return index + 1;
        },
    };
    proof {
        crate::text::lemma_single_word_shape(rest@);
    }
    let metadata_start = skip_blank_lines(&block.lines, index + 1);
    let ghost before = *parsed;
    let (fields, cursor) = parse_attestation_metadata(
        parsed,
        block.path.as_str(),
        line_number,
        &block.lines,
        metadata_start,
        true,
    );
    proof {
        lemma_diag_growth(before, *parsed, *block);
        lemma_growth_trans(start, before, *parsed, *block);
        lemma_md_meta_end(block.lines@, metadata_start as int, cursor as int);
    }
    proof {
        assert(parsed.attests@.take(parsed.attests@.len() as int) =~= parsed.attests@);
    }
    if let Some(f) = fields {
        let a = AttestRef {
            spec_id: owned(id),
            artifact: f.artifact,
            owner: f.owner,
            last_reviewed: f.last_reviewed,
            review_interval_days: f.review_interval_days,
            scope: AttestScope::File,
            location: SourceLocation { path: block.path.clone(), line: line_number },
            body: block_file_body(block),
        };
        let ghost mid = *parsed;
        parsed.attests.push(a);
        proof {
            assert(parsed.attests@.take(mid.attests@.len() as int) =~= mid.attests@);
            assert(block_growth(mid, *parsed, *block)) by {
                assert(mid.diagnostics@.take(mid.diagnostics@.len() as int) =~= mid.diagnostics@);
                assert(mid.verifies@.take(mid.verifies@.len() as int) =~= mid.verifies@);
                assert(parsed.attests@.take(mid.attests@.len() as int) =~= mid.attests@);
            }
            lemma_growth_trans(start, mid, *parsed, *block);
        }
    }
    cursor
}

/// Pushes a well-formed spec declared in the block.
fn push_block_spec(parsed: &mut ParsedRepo, block: &CommentBlock, spec: SpecDecl, Ghost(start): Ghost<ParsedRepo>)
    requires
        block_growth(start, *old(parsed), *block),
        spec@.valid(),
        spec@.path == block.path@,
    ensures
        block_growth(start, *final(parsed), *block),
        final(parsed).verifies == old(parsed).verifies,
        final(parsed).attests == old(parsed).attests,
        final(parsed).specs@ == old(parsed).specs@.push(spec),
        final(parsed).diagnostics == old(parsed).diagnostics,
{
    let ghost before = *parsed;
    parsed.specs.push(spec);
    proof {
        assert(before.diagnostics@.take(before.diagnostics@.len() as int) =~= before.diagnostics@);
        assert(block_growth(before, *parsed, *block)) by {
            assert(before.verifies@.take(before.verifies@.len() as int) =~= before.verifies@);
            assert(before.attests@.take(before.attests@.len() as int) =~= before.attests@);
            assert forall|i: int| 0 <= i < before.specs@.len() implies #[trigger] parsed.specs@[i]
                == before.specs@[i] by {}
        }
        lemma_growth_trans(start, before, *parsed, *block);
    }
}

/// New attestations from `from` on are file-scoped.
pub open spec fn file_scoped_from(attests: Seq<AttestRef>, from: int) -> bool {
    forall|i: int| from <= i < attests.len() ==> (#[trigger] attests[i]).scope == AttestScope::File
}

/// The index of the first line from `i` on that carries an annotation,
/// when no code fence comes before it.
pub open spec fn first_markdown_annotation(lines: Seq<BlockLine>, i: int) -> Option<int>
    decreases lines.len() - i,
{
    if i < 0 || i >= lines.len() {
        None
    } else if fence_line(lines[i].text@) {
        None
    } else if !plain_markdown_line(lines[i].text@) {
        Some(i)
    } else {
        first_markdown_annotation(lines, i + 1)
    }
}

proof fn lemma_first_markdown_annotation(lines: Seq<BlockLine>, i: int, k: int)
    requires
        0 <= i,
        first_markdown_annotation(lines, i) == Some(k),
    ensures
        i <= k < lines.len(),
        !fence_line(lines[k].text@),
        !plain_markdown_line(lines[k].text@),
        forall|j: int| i <= j < k ==> !fence_line(#[trigger] lines[j].text@) && plain_markdown_line(lines[j].text@),
    decreases lines.len() - i,
{
    if plain_markdown_line(lines[i].text@) {
        lemma_first_markdown_annotation(lines, i + 1, k);
    }
}

/// The refusal that line `k`, the first annotation of a file, draws: a
/// lifecycle marker with no declaration to own it, or a `@spec` or
/// `@group` whose header is refused.
pub open spec fn markdown_refusal(block: CommentBlock, k: int, syntax: PlannedSyntax) -> Option<Seq<char>> {
    let raw = block.lines@[k].text@;
    if markdown_file_attest(raw) is Some {
        None
    } else {
        match floating_message(block_texts(block.lines@), k) {
            Some(m) => Some(m),
            None => match markdown_spec_decl(raw) {
                Some((kind, rest)) => match spec_header_spec(kind, rest, syntax) {
                    Err(m) => Some(m),
                    Ok(_) => None,
                },
                None => None,
            },
        }
    }
}

/// The first diagnostic that `new` adds past `old` is the error `m` at
/// `path:line`.
pub open spec fn first_new_error(old: ParsedRepo, new: ParsedRepo, path: Seq<char>, line: usize, m: Seq<char>) -> bool {
    &&& new.diagnostics@.len() > old.diagnostics@.len()
    &&& error_at(new.diagnostics@[old.diagnostics@.len() as int], path, line, m)
}

proof fn lemma_first_error_persists(
    start: ParsedRepo,
    before: ParsedRepo,
    after: ParsedRepo,
    block: CommentBlock,
    first: Option<int>,
    syntax: PlannedSyntax,
    at: int,
)
    requires
        block_growth(before, after, block),
        first is Some && at > first->0 && markdown_refusal(block, first->0, syntax) is Some ==> first_new_error(
            start,
            before,
            block.path@,
            block.lines@[first->0].line,
            markdown_refusal(block, first->0, syntax)->0,
        ),
    ensures
        first is Some && at > first->0 && markdown_refusal(block, first->0, syntax) is Some ==> first_new_error(
            start,
            after,
            block.path@,
            block.lines@[first->0].line,
            markdown_refusal(block, first->0, syntax)->0,
        ),
{
    if first is Some && at > first->0 && markdown_refusal(block, first->0, syntax) is Some {
        let n = start.diagnostics@.len() as int;
        assert(after.diagnostics@.take(before.diagnostics@.len() as int) =~= before.diagnostics@);
        assert(after.diagnostics@[n] == after.diagnostics@.take(before.diagnostics@.len() as int)[n]);
    }
}

/// The index of the first line from `i` on that ends the metadata section
/// of a markdown attestation.
pub open spec fn md_meta_end(lines: Seq<BlockLine>, i: int) -> int
    decreases lines.len() - i,
{
    if i < 0 || i >= lines.len() {
        i
    } else if crate::parser::attestation::ends_metadata(lines[i].text@, true) {
        i
    } else {
        md_meta_end(lines, i + 1)
    }
}

proof fn lemma_md_meta_end(lines: Seq<BlockLine>, i: int, e: int)
    requires
        0 <= i,
        crate::parser::attestation::metadata_extent(lines, i, e, true),
    ensures
        md_meta_end(lines, i) == e,
    decreases lines.len() - i,
{
    if i < e {
        lemma_md_meta_end(lines, i + 1, e);
    }
}

/// Reading a markdown `@spec` or `@group` at `index` whose header `h`
/// parsed: the header's message, the markers after it, then the declaration
/// with its description or the lifecycle conflict that refuses it; and the
/// index to read next.
#[verifier::opaque]
pub open spec fn md_decl_step(
    block: CommentBlock,
    syntax: PlannedSyntax,
    index: int,
    k: NodeKind,
    h: DeclHeaderView,
    hd: Option<Seq<char>>,
    w: BlockWalk,
) -> (int, BlockWalk) {
    let line = block.lines@[index].line;
    let d0 = match hd {
        Some(m) => w.diags.push((line, m)),
        None => w.diags,
    };
    let run = lifecycle_run(block.lines@, syntax, k, h, index + 1, false, None, false, None, d0);
    let (desc, end) = markdown_description_from(block.lines@, run.4, false, false);
    let d = decl_from_parts(h, k, join(desc, " "@), run.0, run.1, run.2, run.3, block.path@, line);
    let next = if end > index {
        end
    } else {
        index + 1
    };
    match lifecycle_error(d.kind, d.planned, d.deprecated, d.deprecated_release is Some) {
        None => (next, BlockWalk { specs: w.specs.push(d), diags: run.5, ..w }),
        Some(m) => (next, BlockWalk { diags: run.5.push((line, m)), ..w }),
    }
}

/// Reading line `index` of a markdown file: the index to read next and the
/// new state.
#[verifier::opaque]
pub open spec fn md_step(block: CommentBlock, syntax: PlannedSyntax, index: int, w: BlockWalk) -> (int, BlockWalk) {
    let raw = block.lines@[index].text@;
    let line = block.lines@[index].line;
    if fence_line(raw) {
        (index + 1, BlockWalk { fence: !w.fence, ..w })
    } else if w.fence {
        (index + 1, w)
    } else {
        match markdown_file_attest(raw) {
            Some(rest) => match single_word(rest) {
                Err(WordError::Missing) => (index + 1, BlockWalk {
                    diags: w.diags.push((line, "missing spec id after @fileattests"@)),
                    ..w
                }),
                Err(WordError::Trailing) => (index + 1, BlockWalk {
                    diags: w.diags.push((line, "unexpected trailing content after @fileattests spec id"@)),
                    ..w
                }),
                Ok(id) => (md_meta_end(block.lines@, skip_blank(block_texts(block.lines@), index + 1)), BlockWalk {
                    exact: false,
                    attests: attest_push(w.attests, (id, block.path@, line, AttestScope::File, meta_record(
                        block.lines@,
                        skip_blank(block_texts(block.lines@), index + 1),
                        md_meta_end(block.lines@, skip_blank(block_texts(block.lines@), index + 1)),
                        true,
                    )), metadata_ok(
                        block.lines@,
                        skip_blank(block_texts(block.lines@), index + 1),
                        md_meta_end(block.lines@, skip_blank(block_texts(block.lines@), index + 1)),
                        true,
                    )),
                    ..w
                }),
            },
            None => match floating_message(block_texts(block.lines@), index) {
                Some(m) => (index + 1, BlockWalk { diags: w.diags.push((line, m)), ..w }),
                None => match markdown_spec_decl(raw) {
                    Some((k, rest)) => match spec_header_spec(k, rest, syntax) {
                        Err(m) => (index + 1, BlockWalk { diags: w.diags.push((line, m)), ..w }),
                        Ok((h, hd)) => md_decl_step(block, syntax, index, k, h, hd, w),
                    },
                    None => (index + 1, w),
                },
            },
        }
    }
}

/// Reading a markdown file from line `index` on.
#[verifier::opaque]
pub open spec fn md_walk(block: CommentBlock, syntax: PlannedSyntax, index: int, w: BlockWalk) -> BlockWalk
    decreases block.lines@.len() - index,
{
    if index < 0 || index >= block.lines@.len() {
        w
    } else {
        let (next, w2) = md_step(block, syntax, index, w);
        if index < next <= block.lines@.len() {
            md_walk(block, syntax, next, w2)
        } else {
            w
        }
    }
}

/// The declarations and diagnostics that reading a whole markdown file gives
/// after earlier results, and whether the diagnostics are known exactly.
pub open spec fn md_result(
    block: CommentBlock,
    syntax: PlannedSyntax,
    specs: Seq<SpecDeclView>,
    diags: Seq<(usize, Seq<char>)>,
    verifies: Seq<(Seq<char>, Seq<char>, usize, bool)>,
    attests: Seq<(Seq<char>, Seq<char>, usize, AttestScope, (Seq<char>, Seq<char>, Seq<char>, Option<u32>))>,
) -> BlockWalk {
    md_walk(block, syntax, 0, walk_start(specs, diags, verifies, attests))
}

/// Reading a markdown file records no verify reference.
pub proof fn lemma_md_walk_verifies(block: CommentBlock, syntax: PlannedSyntax, index: int, w: BlockWalk)
    ensures
        md_walk(block, syntax, index, w).verifies == w.verifies,
    decreases block.lines@.len() - index,
{
    reveal(md_walk);
    if 0 <= index < block.lines@.len() {
        let (n, w2) = md_step(block, syntax, index, w);
        assert(w2.verifies == w.verifies) by {
            reveal(md_step);
            reveal(md_decl_step);
        }
        if index < n <= block.lines@.len() {
            lemma_md_walk_verifies(block, syntax, n, w2);
        }
    }
}

proof fn lemma_run_frame(
    lines: Seq<BlockLine>,
    syntax: PlannedSyntax,
    k: NodeKind,
    h: DeclHeaderView,
    c: int,
    p: bool,
    pr: Option<Seq<char>>,
    d: bool,
    dr: Option<Seq<char>>,
    a: Seq<(usize, Seq<char>)>,
    b: Seq<(usize, Seq<char>)>,
)
    ensures
        ({
            let ra = lifecycle_run(lines, syntax, k, h, c, p, pr, d, dr, a);
            let rb = lifecycle_run(lines, syntax, k, h, c, p, pr, d, dr, b);
            ra.0 == rb.0 && ra.1 == rb.1 && ra.2 == rb.2 && ra.3 == rb.3 && ra.4 == rb.4
        }),
    decreases lines.len() - c,
{
    if 0 <= c < lines.len() {
        let next = skip_blank(block_texts(lines), c + 1);
        let line = lines[c].line;
        let pm = marker_at(lines, c, k, syntax, true);
        let dm = marker_at(lines, c, k, syntax, false);
        if c < next <= lines.len() {
            if pm.0 != AdjacentLifecycle::Absent {
                if pm.0 == AdjacentLifecycle::Parsed {
                    if h.planned || p {
                        lemma_run_frame(lines, syntax, k, h, next, p, pr, d, dr,
                            a.push((line, "@planned must appear only once per owning @spec"@)),
                            b.push((line, "@planned must appear only once per owning @spec"@)));
                    } else if h.deprecated || d {
                        lemma_run_frame(lines, syntax, k, h, next, p, pr, d, dr,
                            a.push((line, "@spec may not be both planned and deprecated"@)),
                            b.push((line, "@spec may not be both planned and deprecated"@)));
                    } else {
                        lemma_run_frame(lines, syntax, k, h, next, true, pm.1, d, dr, a, b);
                    }
                } else {
                    let o = match pm.2 {
                        Some(m) => Some((line, m)),
                        None => None,
                    };
                    lemma_run_frame(lines, syntax, k, h, next, p, pr, d, dr, push_opt(a, o), push_opt(b, o));
                }
            } else if dm.0 != AdjacentLifecycle::Absent {
                if dm.0 == AdjacentLifecycle::Parsed {
                    if h.deprecated || d {
                        lemma_run_frame(lines, syntax, k, h, next, p, pr, d, dr,
                            a.push((line, "@deprecated must appear only once per owning @spec"@)),
                            b.push((line, "@deprecated must appear only once per owning @spec"@)));
                    } else if h.planned || p {
                        lemma_run_frame(lines, syntax, k, h, next, p, pr, d, dr,
                            a.push((line, "@spec may not be both planned and deprecated"@)),
                            b.push((line, "@spec may not be both planned and deprecated"@)));
                    } else {
                        lemma_run_frame(lines, syntax, k, h, next, p, pr, true, dm.1, a, b);
                    }
                } else {
                    let o = match dm.2 {
                        Some(m) => Some((line, m)),
                        None => None,
                    };
                    lemma_run_frame(lines, syntax, k, h, next, p, pr, d, dr, push_opt(a, o), push_opt(b, o));
                }
            }
        }
    }
}

/// The declarations a markdown walk ends with, and whether it loses track of
/// the diagnostics, do not depend on the diagnostics it starts with.
pub proof fn lemma_md_walk_specs(block: CommentBlock, syntax: PlannedSyntax, index: int, a: BlockWalk, b: BlockWalk)
    requires
        a.state == b.state,
        a.seen == b.seen,
        a.fence == b.fence,
        a.specs == b.specs,
        a.attests == b.attests,
        !b.exact ==> !a.exact,
    ensures
        md_walk(block, syntax, index, a).specs == md_walk(block, syntax, index, b).specs,
        md_walk(block, syntax, index, a).attests == md_walk(block, syntax, index, b).attests,
        !md_walk(block, syntax, index, b).exact ==> !md_walk(block, syntax, index, a).exact,
        !a.exact ==> !md_walk(block, syntax, index, a).exact,
    decreases block.lines@.len() - index,
{
    reveal(md_step);
    reveal(md_walk);
    reveal(md_decl_step);
    if 0 <= index < block.lines@.len() {
        let raw = block.lines@[index].text@;
        if let Some((k, rest)) = markdown_spec_decl(raw) {
            if let Ok((h, hd)) = spec_header_spec(k, rest, syntax) {
                let line = block.lines@[index].line;
                let da = match hd {
                    Some(m) => a.diags.push((line, m)),
                    None => a.diags,
                };
                let db = match hd {
                    Some(m) => b.diags.push((line, m)),
                    None => b.diags,
                };
                lemma_run_frame(block.lines@, syntax, k, h, index + 1, false, None, false, None, da, db);
            }
        }
        let (na, a2) = md_step(block, syntax, index, a);
        let (nb, b2) = md_step(block, syntax, index, b);
        assert(na == nb);
        assert(a2.state == b2.state && a2.seen == b2.seen && a2.fence == b2.fence && a2.specs == b2.specs && a2.attests == b2.attests);
        assert(!b2.exact ==> !a2.exact);
        assert(!a.exact ==> !a2.exact);
        if index < na <= block.lines@.len() {
            lemma_md_walk_specs(block, syntax, na, a2, b2);
        }
    }
}

proof fn lemma_md_walk_advance(
    block: CommentBlock,
    syntax: PlannedSyntax,
    index: int,
    n: int,
    cur: BlockWalk,
    next: BlockWalk,
    w0: BlockWalk,
)
    requires
        0 <= index < n <= block.lines@.len(),
        md_step(block, syntax, index, cur).0 == n,
        ({
            let c2 = md_step(block, syntax, index, cur).1;
            &&& c2.state == next.state
            &&& c2.seen == next.seen
            &&& c2.fence == next.fence
            &&& c2.specs == next.specs
            &&& c2.verifies == next.verifies
            &&& c2.attests == next.attests
            &&& c2.exact == next.exact
            &&& c2.exact ==> c2.diags == next.diags
        }),
        w0.specs == md_walk(block, syntax, index, cur).specs,
        w0.attests == md_walk(block, syntax, index, cur).attests,
        cur.exact ==> w0 == md_walk(block, syntax, index, cur),
        !cur.exact ==> !w0.exact,
    ensures
        w0.specs == md_walk(block, syntax, n, next).specs,
        w0.attests == md_walk(block, syntax, n, next).attests,
        next.exact ==> w0 == md_walk(block, syntax, n, next),
        !next.exact ==> !w0.exact,
{
    let c2 = md_step(block, syntax, index, cur).1;
    assert(md_walk(block, syntax, index, cur) == md_walk(block, syntax, n, c2)) by {
        reveal(md_walk);
    }
    lemma_md_walk_specs(block, syntax, n, next, c2);
    lemma_md_walk_specs(block, syntax, n, c2, c2);
    if next.exact {
        assert(c2.exact ==> cur.exact) by {
            reveal(md_step);
            reveal(md_decl_step);
        }
        assert(next == c2);
    }
}

proof fn lemma_md_step_exact(block: CommentBlock, syntax: PlannedSyntax, index: int, c: BlockWalk, e: bool)
    requires
        c.exact,
    ensures
        md_step(block, syntax, index, BlockWalk { exact: e, ..c }).0 == md_step(block, syntax, index, c).0,
        md_step(block, syntax, index, BlockWalk { exact: e, ..c }).1 == (BlockWalk {
            exact: e && md_step(block, syntax, index, c).1.exact,
            ..md_step(block, syntax, index, c).1
        }),
{
    reveal(md_step);
    reveal(md_decl_step);
}

/// The block state that reading a markdown file does not use.
pub open spec fn no_decl_state() -> BlockState {
    BlockState { last_decl_idx: None, last_decl_kind: None, last_decl_line: None }
}

/// Reads line `index` of a markdown file: what `md_step` says, and what the
/// file's contract needs of a line.
#[verifier::rlimit(100)]
#[verifier::spinoff_prover]
fn read_markdown_line(
    block: &CommentBlock,
    parsed: &mut ParsedRepo,
    in_code_fence: &mut bool,
    index: usize,
    rules: ParseRules,
) -> (n: usize)
    requires
        index < block.lines@.len(),
    ensures
        index < n <= block.lines@.len(),
        block_growth(*old(parsed), *final(parsed), *block),
        final(parsed).verifies == old(parsed).verifies,
        file_scoped_from(final(parsed).attests@, old(parsed).attests@.len() as int),
        ({
            let (n2, c2) = md_step(
                *block,
                rules.planned,
                index as int,
                walk_here(*old(parsed), no_decl_state(), false, *old(in_code_fence), true),
            );
            &&& n as int == n2
            &&& c2.state == no_decl_state()
            &&& !c2.seen
            &&& *final(in_code_fence) == c2.fence
            &&& spec_views(final(parsed).specs@) == c2.specs
            &&& c2.verifies == verify_views(old(parsed).verifies@)
            &&& c2.attests == attest_views(final(parsed).attests@)
            &&& c2.exact ==> diag_lines(final(parsed).diagnostics@) == c2.diags
        }),
        plain_markdown_line(block.lines@[index as int].text@) ==> *final(parsed) == *old(parsed),
        !fence_line(block.lines@[index as int].text@) && plain_markdown_line(block.lines@[index as int].text@)
            && !*old(in_code_fence) ==> *final(in_code_fence) == *old(in_code_fence) && n == index + 1,
        !*old(in_code_fence) && !fence_line(block.lines@[index as int].text@) ==> (markdown_refusal(
            *block,
            index as int,
            rules.planned,
        ) matches Some(m) ==> first_new_error(*old(parsed), *final(parsed), block.path@, block.lines@[index as int].line, m)),
{
    let ghost before = *parsed;
    let ghost at = index as int;
    let ghost cur = walk_here(*parsed, no_decl_state(), false, *in_code_fence, true);
    proof {
        lemma_growth_refl(before, *block);
        reveal(md_step);
    }
    let count = block.lines.len();
    let raw = block.lines[index].text.as_str();
    if starts_markdown_fence(raw) {
        *in_code_fence = !*in_code_fence;
        return index + 1;
    }
    if *in_code_fence {
        return index + 1;
    }
    if let Some(rest) = parse_markdown_file_attest(raw) {
        proof {
            let d = markdown_declaration_text(raw@)->0;
            lemma_reserved_rest_at(d, ReservedSpecialAnnotation::FileAttests);
        }
        let n = handle_markdown_file_attest(block, parsed, index, rest, Ghost(before));
        proof {
            assert(spec_views(parsed.specs@) == spec_views(before.specs@));
        }
        return n;
    }
    if let Some(message) = floating_markdown_lifecycle_message(&block.lines, index) {
        proof {
            assert(block_texts(block.lines@)[index as int] == block.lines@[index as int].text@);
            lemma_annotation_kind_at(block.lines@[index as int].text@);
        }
        block_diag(parsed, block, block.lines[index].line, message, Ghost(before));
        proof {
            assert(parsed.attests@.take(before.attests@.len() as int) =~= parsed.attests@);
        }
        return index + 1;
    }
    let (kind, rest) = match parse_markdown_spec_decl(raw) {
        Some(found) => found,
        None => {
            return index + 1;
        },
    };
    proof {
        let d = markdown_declaration_text(raw@)->0;
        if kind == NodeKind::Spec {
            lemma_reserved_rest_at(d, ReservedSpecialAnnotation::Spec);
        } else {
            lemma_reserved_rest_at(d, ReservedSpecialAnnotation::Group);
        }
    }
    let line_number = block.lines[index].line;
    let (header, header_diag) = match parse_spec_decl_header(kind, rest, rules.planned) {
        Ok(h) => h,
        Err(message) => {
            block_diag(parsed, block, line_number, message.as_str(), Ghost(before));
            proof {
                assert(parsed.attests@.take(before.attests@.len() as int) =~= parsed.attests@);
            }
            return index + 1;
        },
    };
    let ghost h = header_view(header);
    let ghost hd = opt_string_view(header_diag);
    if let Some(message) = header_diag {
        block_diag(parsed, block, line_number, message.as_str(), Ghost(before));
    }
    let ghost d0 = diag_lines(parsed.diagnostics@);
    assert(d0 == match hd {
        Some(m) => cur.diags.push((line_number, m)),
        None => cur.diags,
    });
    let state = consume_markdown_lifecycle_markers(
        kind,
        block,
        index + 1,
        parsed,
        rules.planned,
        &header,
        Ghost(before),
    );
    let (description_lines, cursor) = collect_markdown_description_lines(&block.lines, state.cursor);
    let text = join_strings(&description_lines, " ");
    let location = SourceLocation { path: block.path.clone(), line: line_number };
    let lifecycle = SpecLifecycleMarkers {
        planned: state.planned,
        planned_release: state.planned_release,
        deprecated: state.deprecated,
        deprecated_release: state.deprecated_release,
    };
    let ghost mid = *parsed;
    match build_spec_decl(header, kind, text, lifecycle, location) {
        Ok(spec) => {
            push_block_spec(parsed, block, spec, Ghost(before));
            proof {
                assert(spec_views(parsed.specs@) =~= spec_views(mid.specs@).push(spec@));
            }
        },
        Err(err) => block_diag(parsed, block, line_number, err.as_str(), Ghost(before)),
    }
    proof {
        reveal(md_decl_step);
        assert(parsed.attests@ == before.attests@);
    }
    assert(md_decl_step(*block, rules.planned, at, kind, h, hd, cur).1.state == no_decl_state()) by {
        reveal(md_decl_step);
    }
    if cursor > index {
        cursor
    } else {
        index + 1
    }
}

/// Parses the declarations of one markdown file, given as a block of
/// numbered lines with the file text as its body.
///
/// Earlier results stay as they were; every added spec is well-formed and
/// located in the file, every added diagnostic is an error there, no verify
/// reference is added, every added attestation is a valid file-scoped one
/// over the file text, and a file with no annotation line adds nothing.
/// When the first annotation of the file is a refused declaration or a
/// lifecycle marker with no owner, the first diagnostic added reports it.
/// The declarations after reading are exactly those `md_result` gives, and
/// so are the diagnostics unless an attestation's metadata was read.
pub fn parse_markdown_block(block: &CommentBlock, parsed: &mut ParsedRepo, rules: ParseRules)
    ensures
        block_growth(*old(parsed), *final(parsed), *block),
        final(parsed).verifies == old(parsed).verifies,
        file_scoped_from(final(parsed).attests@, old(parsed).attests@.len() as int),
        no_markdown_annotations(*block) ==> *final(parsed) == *old(parsed),
        first_markdown_annotation(block.lines@, 0) matches Some(k) ==> (markdown_refusal(
            *block,
            k,
            rules.planned,
        ) matches Some(m) ==> first_new_error(*old(parsed), *final(parsed), block.path@, block.lines@[k].line, m)),
        spec_views(final(parsed).specs@) == md_result(
            *block,
            rules.planned,
            spec_views(old(parsed).specs@),
            diag_lines(old(parsed).diagnostics@), verify_views(old(parsed).verifies@), attest_views(old(parsed).attests@),
        ).specs,
        attest_views(final(parsed).attests@) == md_result(
            *block,
            rules.planned,
            spec_views(old(parsed).specs@),
            diag_lines(old(parsed).diagnostics@),
            verify_views(old(parsed).verifies@),
            attest_views(old(parsed).attests@),
        ).attests,
        md_result(*block, rules.planned, spec_views(old(parsed).specs@), diag_lines(old(parsed).diagnostics@), verify_views(old(parsed).verifies@), attest_views(old(parsed).attests@)).exact
            ==> diag_lines(final(parsed).diagnostics@) == md_result(
            *block,
            rules.planned,
            spec_views(old(parsed).specs@),
            diag_lines(old(parsed).diagnostics@), verify_views(old(parsed).verifies@), attest_views(old(parsed).attests@),
        ).diags,
{
    let ghost start = *parsed;
    proof {
        lemma_growth_refl(start, *block);
    }
    let count = block.lines.len();
    let mut index: usize = 0;
    let mut in_code_fence = false;
    let ghost first = first_markdown_annotation(block.lines@, 0);
    let ghost w0 = md_result(*block, rules.planned, spec_views(start.specs@), diag_lines(start.diagnostics@), verify_views(start.verifies@), attest_views(start.attests@));
    let ghost mut ex = true;
    proof {
        if let Some(k) = first {
            lemma_first_markdown_annotation(block.lines@, 0, k);
        }
    }
    while index < count
        invariant
            count == block.lines@.len(),
            index <= count,
            block_growth(start, *parsed, *block),
            parsed.verifies == start.verifies,
            file_scoped_from(parsed.attests@, start.attests@.len() as int),
            no_markdown_annotations(*block) ==> *parsed == start,
            start == *old(parsed),
            first == first_markdown_annotation(block.lines@, 0),
            first is Some && index <= first->0 ==> *parsed == start && !in_code_fence,
            first is Some && index > first->0 && markdown_refusal(*block, first->0, rules.planned) is Some
                ==> first_new_error(
                start,
                *parsed,
                block.path@,
                block.lines@[first->0].line,
                markdown_refusal(*block, first->0, rules.planned)->0,
            ),
            w0 == md_result(*block, rules.planned, spec_views(start.specs@), diag_lines(start.diagnostics@), verify_views(start.verifies@), attest_views(start.attests@)),
            w0.specs == md_walk(
                *block,
                rules.planned,
                index as int,
                walk_here(*parsed, no_decl_state(), false, in_code_fence, ex),
            ).specs,
            w0.attests == md_walk(
                *block,
                rules.planned,
                index as int,
                walk_here(*parsed, no_decl_state(), false, in_code_fence, ex),
            ).attests,
            ex ==> w0 == md_walk(
                *block,
                rules.planned,
                index as int,
                walk_here(*parsed, no_decl_state(), false, in_code_fence, ex),
            ),
            !ex ==> !w0.exact,
        decreases count - index,
    {
        let ghost cur = walk_here(*parsed, no_decl_state(), false, in_code_fence, ex);
        let ghost before = *parsed;
        let ghost at = index as int;
        proof {
            lemma_growth_refl(before, *block);
            if let Some(k) = first {
                lemma_first_markdown_annotation(block.lines@, 0, k);
                if at < k {
                    assert(!fence_line(block.lines@[at].text@) && plain_markdown_line(block.lines@[at].text@));
                }
            }
        }
        index = read_markdown_line(block, parsed, &mut in_code_fence, index, rules);
        proof {
            lemma_growth_trans(start, before, *parsed, *block);
            lemma_first_error_persists(start, before, *parsed, *block, first, rules.planned, at);
            assert forall|i: int| start.attests@.len() <= i < parsed.attests@.len() implies (#[trigger] parsed.attests@[i]).scope
                == AttestScope::File by {
                if i < before.attests@.len() {
                    assert(before.attests@.is_prefix_of(parsed.attests@));
                    assert(parsed.attests@[i] == before.attests@[i]);
                }
            }
            let c1 = walk_here(before, no_decl_state(), false, cur.fence, true);
            lemma_md_step_exact(*block, rules.planned, at, c1, ex);
            assert(cur == BlockWalk { exact: ex, ..c1 });
            let ex2 = ex && md_step(*block, rules.planned, at, c1).1.exact;
            lemma_md_walk_advance(
                *block,
                rules.planned,
                at,
                index as int,
                cur,
                walk_here(*parsed, no_decl_state(), false, in_code_fence, ex2),
                w0,
            );
            ex = ex2;
        }
    }
    proof {
        reveal(md_walk);
    }
}

/// `block` holds the markdown file at `path` with text `content`: its
/// lines numbered from one, the text as its body, and no documented item.
pub open spec fn markdown_block_of(block: CommentBlock, path: Seq<char>, content: Seq<char>) -> bool {
    &&& block.path@ == path
    &&& block_texts(block.lines@) == text_lines(content)
    &&& forall|i: int| 0 <= i < block.lines@.len() ==> (#[trigger] block.lines@[i]).line == i + 1
    &&& opt_string_view(block.source_body) == Some(content)
    &&& block.owned_item is None
}

/// Parses the declarations of one markdown file from its path and text.
pub fn parse_markdown_source(path: &str, content: &str, parsed: &mut ParsedRepo, rules: ParseRules)
    ensures
        exists|block: CommentBlock|
            #![trigger block_growth(*old(parsed), *final(parsed), block)]
            markdown_block_of(block, path@, content@) && block_growth(*old(parsed), *final(parsed), block)
                && (no_markdown_annotations(block) ==> *final(parsed) == *old(parsed)) && spec_views(
                final(parsed).specs@,
            ) == md_result(block, rules.planned, spec_views(old(parsed).specs@), diag_lines(old(parsed).diagnostics@), verify_views(old(parsed).verifies@), attest_views(old(parsed).attests@)).specs
                && attest_views(final(parsed).attests@) == md_result(
                block,
                rules.planned,
                spec_views(old(parsed).specs@),
                diag_lines(old(parsed).diagnostics@),
                verify_views(old(parsed).verifies@),
                attest_views(old(parsed).attests@),
            ).attests
                && (md_result(block, rules.planned, spec_views(old(parsed).specs@), diag_lines(old(parsed).diagnostics@), verify_views(old(parsed).verifies@), attest_views(old(parsed).attests@)).exact
                ==> diag_lines(final(parsed).diagnostics@) == md_result(
                block,
                rules.planned,
                spec_views(old(parsed).specs@),
                diag_lines(old(parsed).diagnostics@), verify_views(old(parsed).verifies@), attest_views(old(parsed).attests@),
            ).diags),
        final(parsed).verifies == old(parsed).verifies,
        file_scoped_from(final(parsed).attests@, old(parsed).attests@.len() as int),
{
    let block = markdown_source_block(path, content);
    parse_markdown_block(&block, parsed, rules);
}

/// A description line of a markdown file: not blank, not a fence, not a
/// declaration, and no tag line.
pub open spec fn md_description_text_line(raw: Seq<char>) -> bool {
    &&& !fence_line(raw)
    &&& trim(raw).len() > 0
    &&& markdown_spec_decl(raw) is None
    &&& markdown_annotation_text(raw) matches Some(t) && !tag_boundary(t)
    &&& markdown_declaration_text(raw) matches Some(a) ==> !tag_boundary(a)
}

/// A markdown declaration whose description spans two lines gets, as its
/// text, the two lines (as read, without heading markers and surrounding
/// blanks) joined by one space: whatever the header, dialect, and earlier
/// results.
pub proof fn law_md_decl_text_joins_lines(
    block: CommentBlock,
    syntax: PlannedSyntax,
    specs: Seq<SpecDeclView>,
    diags: Seq<(usize, Seq<char>)>,
    verifies: Seq<(Seq<char>, Seq<char>, usize, bool)>,
    attests: Seq<(Seq<char>, Seq<char>, usize, AttestScope, (Seq<char>, Seq<char>, Seq<char>, Option<u32>))>,
    k: NodeKind,
    rest: Seq<char>,
    h: DeclHeaderView,
    hd: Option<Seq<char>>,
)
    requires
        block.lines@.len() == 3,
        !fence_line(block.lines@[0].text@),
        markdown_file_attest(block.lines@[0].text@) is None,
        floating_message(block_texts(block.lines@), 0) is None,
        markdown_spec_decl(block.lines@[0].text@) == Some((k, rest)),
        spec_header_spec(k, rest, syntax) == Ok::<(DeclHeaderView, Option<Seq<char>>), Seq<char>>((h, hd)),
        lifecycle_error(k, h.planned, h.deprecated, h.deprecated && h.deprecated_release is Some) is None,
        md_description_text_line(block.lines@[1].text@),
        md_description_text_line(block.lines@[2].text@),
    ensures
        ({
            let r = md_result(block, syntax, specs, diags, verifies, attests);
            &&& r.specs.len() == specs.len() + 1
            &&& r.specs.last().id == h.id
            &&& r.specs.last().text == markdown_annotation_text(block.lines@[1].text@)->0 + " "@
                + markdown_annotation_text(block.lines@[2].text@)->0
        }),
{
    reveal(md_walk);
    reveal(md_step);
    reveal(md_decl_step);
    reveal_strlit("@planned");
    reveal_strlit("@deprecated");
    let lines = block.lines@;
    let t1 = markdown_annotation_text(lines[1].text@)->0;
    let t2 = markdown_annotation_text(lines[2].text@)->0;
    let texts = block_texts(lines);
    assert(texts[2] == lines[2].text@);
    assert(skip_blank(texts, 2) == 2);
    if let Some(a) = markdown_declaration_text(lines[1].text@) {
        if a.len() > 0 {
            assert("@planned"@[0] != a[0]);
            assert("@deprecated"@[0] != a[0]);
        }
        assert(!"@planned"@.is_prefix_of(a));
        assert(!"@deprecated"@.is_prefix_of(a));
    }
    assert(crate::parser::decls::marker_tag(true) == "@planned"@ && crate::parser::decls::marker_tag(false) == "@deprecated"@);
    assert(markdown_description_from(lines, 3, false, true) == (Seq::<Seq<char>>::empty(), 3int));
    assert(markdown_description_from(lines, 2, false, true) == (seq![t2], 3int));
    assert(markdown_description_from(lines, 1, false, false) == (seq![t1, t2], 3int)) by {
        assert(seq![t1] + seq![t2] =~= seq![t1, t2]);
    }
    assert(join(seq![t1, t2], " "@) == t1 + " "@ + t2) by {
        assert(seq![t1, t2].drop_last() =~= seq![t1]);
        assert(join(seq![t1], " "@) == t1);
        assert(seq![t1, t2].last() == t2);
    }
    let w = walk_start(specs, diags, verifies, attests);
    let (n, w2) = md_step(block, syntax, 0, w);
    assert(n == 3);
    assert(md_walk(block, syntax, 3, w2) == w2);
}

} // verus!
