//! Architecture declarations in markdown files: `@module`, `@area`,
//! `@pattern`, and the `@implements` and `@applies` attachments that own a
//! heading section or the whole file.
use vstd::prelude::*;
use vstd::string::*;

use crate::model::architecture::{
    ImplementRef, ModuleDecl, ParsedArchitecture, PatternApplication, PatternDefinition,
    PatternStrictness, architecture_plan_ok,
};
use crate::model::core_types::{
    ArchitectureKind, BlockLine, CommentBlock, PlanState, PlannedRelease, SourceLocation,
};
use crate::modules::parse::{
    StandalonePlanned, arch_diag, arch_growth, collect_doc_description_lines, implements_annotation,
    lemma_arch_growth_refl, lemma_arch_growth_trans, maybe_consume_pattern_strictness,
    maybe_consume_standalone_planned, normalized_annotation_line, normalized_architecture_heading,
    normalized_pattern_heading, parse_implements_module_id, parse_module_header, parse_pattern_id,
    same_entries, arch_diag_pushed, attachment_id, pattern_heading, architecture_heading,
    module_header_spec, standalone_planned_spec, loc_entry, body_loc, arch_diags, lemma_arch_diags_pushed, implement_entry, strictness_spec, doc_description_from, strictness_message,
};
use crate::parser::block::{at_sign, lemma_reserved_rest_at};
use crate::model::core_types::{planned_area_message, planned_release_view, plan_release};
use crate::parser::decls::opt_string_view;
use crate::parser::lines::{join, join_strings, string_views};
use crate::parser::markdown::{block_texts, skip_blank_lines};
use crate::syntax::{
    ReservedSpecialAnnotation, fence_line, hash_run, markdown_annotation_text,
    markdown_declaration_text, normalize_markdown_annotation_line,
    normalize_markdown_declaration_line, reserved_rest, reserved_special_annotation_rest, skip_blank,
    starts_markdown_fence,
};
use crate::text::{is_whitespace, is_ws, owned, trim_start, trim_start_str};

verus! {

/// The level of an ATX heading: one to six `#` after leading whitespace,
/// followed by whitespace.
pub open spec fn heading_level(raw: Seq<char>) -> Option<nat> {
    let t = trim_start(raw);
    let n = hash_run(t);
    if 1 <= n <= 6 && n < t.len() && is_ws(t[n as int]) {
        Some(n)
    } else {
        None
    }
}

proof fn lemma_hash_run_at(s: Seq<char>, i: int)
    requires
        0 <= i <= s.len(),
        forall|k: int| 0 <= k < i ==> #[trigger] s[k] == '#',
        i == s.len() || s[i] != '#',
    ensures
        hash_run(s) == i,
    decreases i,
{
    if i > 0 {
        let t = s.drop_first();
        assert forall|k: int| 0 <= k < i - 1 implies #[trigger] t[k] == '#' by {
            assert(t[k] == s[k + 1]);
        }
        if i - 1 < t.len() {
            assert(t[i - 1] == s[i]);
        }
        lemma_hash_run_at(t, i - 1);
    }
}

pub fn markdown_heading_level(line: &str) -> (r: Option<usize>)
    ensures
        match r {
            Some(n) => heading_level(line@) == Some(n as nat),
            None => heading_level(line@) is None,
        },
{
    let t = trim_start_str(line);
    let len = t.unicode_len();
    let mut n: usize = 0;
    while n < len && t.get_char(n) == '#'
        invariant
            len == t@.len(),
            n <= len,
            forall|k: int| 0 <= k < n ==> #[trigger] t@[k] == '#',
        decreases len - n,
    {
        n = n + 1;
    }
    proof {
        lemma_hash_run_at(t@, n as int);
    }
    if 1 <= n && n <= 6 && n < len && is_whitespace(t.get_char(n)) {
        Some(n)
    } else {
        None
    }
}

/// An `@implements` or `@fileimplements` attachment on a markdown line.
pub open spec fn markdown_implements(raw: Seq<char>) -> Option<(Seq<char>, bool)> {
    match markdown_annotation_text(raw) {
        None => None,
        Some(a) => implements_annotation(a),
    }
}

/// An `@applies` or `@fileapplies` attachment on a markdown line.
pub open spec fn markdown_applies(raw: Seq<char>) -> Option<(Seq<char>, bool)> {
    match markdown_annotation_text(raw) {
        None => None,
        Some(a) => match reserved_rest(a, ReservedSpecialAnnotation::Applies) {
            Some(rest) => Some((rest, false)),
            None => match reserved_rest(a, ReservedSpecialAnnotation::FileApplies) {
                Some(rest) => Some((rest, true)),
                None => None,
            },
        },
    }
}

/// A line that attaches code to a module or pattern.
pub open spec fn attachment_line(raw: Seq<char>) -> bool {
    markdown_implements(raw) is Some || markdown_applies(raw) is Some
}

fn normalized_markdown_implements_annotation(line: &str) -> (r: Option<(&str, bool, &'static str)>)
    ensures
        match r {
            Some((rest, file_scoped, ann)) => markdown_implements(line@) == Some((rest@, file_scoped))
                && ann@ == (if file_scoped { "@fileimplements"@ } else { "@implements"@ }),
            None => markdown_implements(line@) is None,
        },
{
    proof {
        reveal_strlit("@fileimplements");
        reveal_strlit("@implements");
    }
    let annotation = match normalize_markdown_annotation_line(line) {
        Some(a) => a,
        None => return None,
    };
    if let Some(rest) = reserved_special_annotation_rest(annotation, ReservedSpecialAnnotation::Implements) {
        Some((rest, false, "@implements"))
    } else {
        match reserved_special_annotation_rest(annotation, ReservedSpecialAnnotation::FileImplements) {
            Some(rest) => Some((rest, true, "@fileimplements")),
            None => None,
        }
    }
}

fn normalized_markdown_pattern_application(line: &str) -> (r: Option<(&str, bool, &'static str)>)
    ensures
        match r {
            Some((rest, file_scoped, ann)) => markdown_applies(line@) == Some((rest@, file_scoped))
                && ann@ == (if file_scoped { "@fileapplies"@ } else { "@applies"@ }),
            None => markdown_applies(line@) is None,
        },
{
    proof {
        reveal_strlit("@fileapplies");
        reveal_strlit("@applies");
    }
    let annotation = match normalize_markdown_annotation_line(line) {
        Some(a) => a,
        None => return None,
    };
    if let Some(rest) = reserved_special_annotation_rest(annotation, ReservedSpecialAnnotation::Applies) {
        Some((rest, false, "@applies"))
    } else {
        match reserved_special_annotation_rest(annotation, ReservedSpecialAnnotation::FileApplies) {
            Some(rest) => Some((rest, true, "@fileapplies")),
            None => None,
        }
    }
}

fn is_markdown_architecture_attachment_line(line: &str) -> (r: bool)
    ensures
        r == attachment_line(line@),
{
    normalized_markdown_implements_annotation(line).is_some()
        || normalized_markdown_pattern_application(line).is_some()
}

proof fn lemma_skip_blank_bounds(lines: Seq<Seq<char>>, c: int)
    requires
        0 <= c,
    ensures
        c <= skip_blank(lines, c),
        c <= lines.len() ==> skip_blank(lines, c) <= lines.len(),
    decreases lines.len() - c,
{
    if 0 <= c < lines.len() && crate::text::trim(lines[c]).len() == 0 {
        lemma_skip_blank_bounds(lines, c + 1);
    }
}

/// The heading that follows line `c` (already past blank lines) once
/// attachment lines and the blank lines after them are passed over.
pub open spec fn heading_after(lines: Seq<BlockLine>, c: int) -> Option<int>
    decreases lines.len() - c,
{
    if 0 <= c < lines.len() && attachment_line(lines[c].text@) {
        let next = skip_blank(block_texts(lines), c + 1);
        if next > c && next <= lines.len() {
            heading_after(lines, next)
        } else {
            None
        }
    } else if 0 <= c < lines.len() && heading_level(lines[c].text@) is Some {
        Some(c)
    } else {
        None
    }
}

fn next_heading_after_attachment_lines(lines: &Vec<BlockLine>, cursor: usize) -> (r: Option<usize>)
    requires
        cursor <= lines@.len(),
    ensures
        match r {
            Some(h) => heading_after(lines@, skip_blank(block_texts(lines@), cursor as int)) == Some(h as int)
                && h < lines@.len(),
            None => heading_after(lines@, skip_blank(block_texts(lines@), cursor as int)) is None,
        },
{
    let mut c = skip_blank_lines(lines, cursor);
    while c < lines.len() && is_markdown_architecture_attachment_line(lines[c].text.as_str())
        invariant
            c <= lines@.len(),
            heading_after(lines@, c as int) == heading_after(lines@, skip_blank(block_texts(lines@), cursor as int)),
        decreases lines@.len() - c,
    {
        let next = skip_blank_lines(lines, c + 1);
        c = next;
    }
    if c < lines.len() && markdown_heading_level(lines[c].text.as_str()).is_some() {
        Some(c)
    } else {
        None
    }
}

/// Whether a code fence is open before line `i`, counting fences from
/// line `from`.
pub open spec fn fence_open(lines: Seq<BlockLine>, from: int, i: int) -> bool
    decreases i - from,
{
    if i <= from {
        false
    } else {
        fence_open(lines, from, i - 1) != fence_line(lines[i - 1].text@)
    }
}

/// Line `i` is a heading outside code fences counted from line `from`.
pub open spec fn heading_visible(lines: Seq<BlockLine>, from: int, i: int) -> bool {
    !fence_line(lines[i].text@) && !fence_open(lines, from, i) && heading_level(lines[i].text@) is Some
}

/// The last heading outside code fences before index `upto`.
pub open spec fn last_visible_heading(lines: Seq<BlockLine>, upto: int) -> Option<int>
    decreases upto,
{
    if upto <= 0 {
        None
    } else if heading_visible(lines, 0, upto - 1) {
        Some(upto - 1)
    } else {
        last_visible_heading(lines, upto - 1)
    }
}

fn containing_markdown_heading(lines: &Vec<BlockLine>, annotation_index: usize) -> (r: Option<usize>)
    requires
        annotation_index < lines@.len(),
    ensures
        match r {
            Some(h) => last_visible_heading(lines@, annotation_index + 1) == Some(h as int) && h
                <= annotation_index,
            None => last_visible_heading(lines@, annotation_index + 1) is None,
        },
{
    let count = lines.len();
    let mut in_code_fence = false;
    let mut heading: Option<usize> = None;
    let mut k: usize = 0;
    while k <= annotation_index
        invariant
            annotation_index < lines@.len(),
            count == lines@.len(),
            k <= annotation_index + 1,
            in_code_fence == fence_open(lines@, 0, k as int),
            match heading {
                Some(h) => last_visible_heading(lines@, k as int) == Some(h as int) && h < k,
                None => last_visible_heading(lines@, k as int) is None,
            },
        decreases annotation_index + 1 - k,
    {
        let line = lines[k].text.as_str();
        if starts_markdown_fence(line) {
            in_code_fence = !in_code_fence;
        } else if !in_code_fence && markdown_heading_level(line).is_some() {
            heading = Some(k);
        }
        k = k + 1;
    }
    heading
}

/// A heading and the index where its section ends.
#[derive(Debug, Clone, Copy)]
pub struct MarkdownSection {
    pub start: usize,
    pub end: usize,
}

/// Line `j` closes the section of a level-`level` heading at `h`: a heading
/// of that level or higher, outside code fences opened after `h`.
pub open spec fn closes_section(lines: Seq<BlockLine>, h: int, level: nat, j: int) -> bool {
    &&& !fence_line(lines[j].text@)
    &&& !fence_open(lines, h + 1, j)
    &&& heading_level(lines[j].text@) matches Some(l) && l <= level
}

/// The first index from `j` on that closes the section, or the end.
pub open spec fn section_end(lines: Seq<BlockLine>, h: int, level: nat, j: int) -> int
    decreases lines.len() - j,
{
    if j < 0 || j >= lines.len() {
        lines.len() as int
    } else if closes_section(lines, h, level, j) {
        j
    } else {
        section_end(lines, h, level, j + 1)
    }
}

/// The section that a heading at `h` opens.
pub open spec fn section_at(lines: Seq<BlockLine>, h: int) -> Option<(int, int)> {
    match heading_level(lines[h].text@) {
        None => None,
        Some(level) => Some((h, section_end(lines, h, level, h + 1))),
    }
}

fn markdown_section_at(lines: &Vec<BlockLine>, heading_index: usize) -> (r: Option<MarkdownSection>)
    requires
        heading_index < lines@.len(),
    ensures
        match r {
            Some(s) => section_at(lines@, heading_index as int) == Some((s.start as int, s.end as int))
                && s.start < s.end <= lines@.len(),
            None => section_at(lines@, heading_index as int) is None,
        },
{
    let count = lines.len();
    let level = match markdown_heading_level(lines[heading_index].text.as_str()) {
        Some(l) => l,
        None => return None,
    };
    let mut in_code_fence = false;
    let mut j = heading_index + 1;
    while j < lines.len()
        invariant
            heading_index < j <= lines@.len(),
            heading_level(lines@[heading_index as int].text@) == Some(level as nat),
            in_code_fence == fence_open(lines@, heading_index + 1, j as int),
            section_end(lines@, heading_index as int, level as nat, heading_index + 1) == section_end(
                lines@,
                heading_index as int,
                level as nat,
                j as int,
            ),
        decreases lines@.len() - j,
    {
        let line = lines[j].text.as_str();
        if starts_markdown_fence(line) {
            in_code_fence = !in_code_fence;
        } else if !in_code_fence {
            match markdown_heading_level(line) {
                Some(next) => {
                    if next <= level {
                        return Some(MarkdownSection { start: heading_index, end: j });
                    }
                },
                None => {},
            }
        }
        j = j + 1;
    }
    Some(MarkdownSection { start: heading_index, end: lines.len() })
}

/// The section that an item-scoped attachment at `ann` owns: the section of
/// the heading that follows its run of attachment lines, or else the
/// section of the heading it stands under.
pub open spec fn implementation_section(lines: Seq<BlockLine>, ann: int) -> Option<(int, int)> {
    match heading_after(lines, skip_blank(block_texts(lines), ann + 1)) {
        Some(h) => section_at(lines, h),
        None => match last_visible_heading(lines, ann + 1) {
            Some(h) => section_at(lines, h),
            None => None,
        },
    }
}

fn markdown_implementation_section(lines: &Vec<BlockLine>, annotation_index: usize) -> (r: Option<
    MarkdownSection,
>)
    requires
        annotation_index < lines@.len(),
    ensures
        match r {
            Some(s) => implementation_section(lines@, annotation_index as int) == Some(
                (s.start as int, s.end as int),
            ) && s.start < s.end <= lines@.len(),
            None => implementation_section(lines@, annotation_index as int) is None,
        },
{
    let count = lines.len();
    if let Some(next) = next_heading_after_attachment_lines(lines, annotation_index + 1) {
        return markdown_section_at(lines, next);
    }
    match containing_markdown_heading(lines, annotation_index) {
        Some(h) => markdown_section_at(lines, h),
        None => None,
    }
}

/// The lines from `k` to `end` that a body keeps: code fences and fenced
/// lines always, other lines unless they are attachment lines or the line
/// `skip`.
pub open spec fn kept_lines(lines: Seq<BlockLine>, k: int, end: int, fence: bool, skip: int) -> Seq<
    Seq<char>,
>
    decreases end - k,
{
    if k < 0 || k >= end || k >= lines.len() {
        Seq::empty()
    } else {
        let l = lines[k].text@;
        if fence_line(l) {
            seq![l] + kept_lines(lines, k + 1, end, !fence, skip)
        } else if fence || (k != skip && !attachment_line(l)) {
            seq![l] + kept_lines(lines, k + 1, end, fence, skip)
        } else {
            kept_lines(lines, k + 1, end, fence, skip)
        }
    }
}

fn kept_body(lines: &Vec<BlockLine>, start: usize, end: usize, skip: Option<usize>) -> (r: String)
    requires
        start <= end <= lines@.len(),
    ensures
        r@ == join(
            kept_lines(
                lines@,
                start as int,
                end as int,
                false,
                match skip {
                    Some(s) => s as int,
                    None => -1,
                },
            ),
            "\n"@,
        ),
{
    let ghost skip_at: int = match skip {
        Some(s) => s as int,
        None => -1,
    };
    let mut out: Vec<String> = Vec::new();
    let mut in_code_fence = false;
    let mut k = start;
    while k < end
        invariant
            start <= k <= end,
            end <= lines@.len(),
            skip_at == (match skip {
                Some(s) => s as int,
                None => -1,
            }),
            kept_lines(lines@, start as int, end as int, false, skip_at) == string_views(out@) + kept_lines(
                lines@,
                k as int,
                end as int,
                in_code_fence,
                skip_at,
            ),
        decreases end - k,
    {
        let line = lines[k].text.as_str();
        let ghost before = out@;
        let ghost fence_before = in_code_fence;
        let is_skip = match skip {
            Some(s) => s == k,
            None => false,
        };
        if starts_markdown_fence(line) {
            in_code_fence = !in_code_fence;
            out.push(owned(line));
        } else if in_code_fence || (!is_skip && !is_markdown_architecture_attachment_line(line)) {
            out.push(owned(line));
        }
        proof {
            let tail = kept_lines(lines@, k + 1, end as int, in_code_fence, skip_at);
            if out@.len() > before.len() {
                assert(string_views(out@) + tail =~= string_views(before) + (seq![line@] + tail));
            }
        }
        k = k + 1;
    }
    proof {
        assert(string_views(out@) + Seq::<Seq<char>>::empty() =~= string_views(out@));
    }
    join_strings(&out, "\n")
}

/// A whole-file body: every line but the attachment lines outside fences.
pub open spec fn file_body_text(lines: Seq<BlockLine>) -> Seq<char> {
    join(kept_lines(lines, 0, lines.len() as int, false, -1), "\n"@)
}

/// A section body: the section's lines but the attachment lines outside
/// fences and the attaching line itself.
pub open spec fn section_body_text(lines: Seq<BlockLine>, start: int, end: int, ann: int) -> Seq<char> {
    join(kept_lines(lines, start, end, false, ann), "\n"@)
}

fn markdown_file_body(lines: &Vec<BlockLine>) -> (r: String)
    ensures
        r@ == file_body_text(lines@),
{
    kept_body(lines, 0, lines.len(), None)
}

fn markdown_section_body(lines: &Vec<BlockLine>, section: MarkdownSection, annotation_index: usize) -> (r: String)
    requires
        section.start <= section.end <= lines@.len(),
    ensures
        r@ == section_body_text(lines@, section.start as int, section.end as int, annotation_index as int),
{
    kept_body(lines, section.start, section.end, Some(annotation_index))
}

/// A markdown line with no architecture annotation: neither its
/// declaration text nor its annotation text begins with `@`.
pub open spec fn plain_architecture_line(raw: Seq<char>) -> bool {
    &&& markdown_declaration_text(raw) matches Some(d) ==> !at_sign(d)
    &&& markdown_annotation_text(raw) matches Some(a) ==> !at_sign(a)
}

pub open spec fn no_architecture_annotations(block: CommentBlock) -> bool {
    forall|i: int| 0 <= i < block.lines@.len() ==> plain_architecture_line(#[trigger] block.lines@[i].text@)
}

/// Whether a module declaration is planned after the line at `cursor` is
/// read for a standalone `@planned` (unless the header planned it), and the
/// line after what was read.
pub open spec fn doc_planned(kind: ArchitectureKind, lines: Seq<BlockLine>, cursor: int, planned: bool) -> (bool, int) {
    if planned || !(0 <= cursor < lines.len()) {
        (planned, cursor)
    } else {
        match markdown_declaration_text(lines[cursor].text@) {
            None => (false, cursor),
            Some(a) => match standalone_planned_spec(kind, a) {
                None => (false, cursor),
                Some(Ok(_)) => (true, skip_blank(block_texts(lines), cursor + 1)),
                Some(Err(_)) => (false, skip_blank(block_texts(lines), cursor + 1)),
            },
        }
    }
}

/// Reading the line at `cursor` after a module declaration whose header
/// says `planned` with release `rel`: whether it ends up planned, its
/// release, the line after what was read, and the refusal to report.
pub open spec fn doc_planned_full(
    kind: ArchitectureKind,
    lines: Seq<BlockLine>,
    cursor: int,
    planned: bool,
    rel: Option<Seq<char>>,
) -> (bool, Option<Seq<char>>, int, Option<Seq<char>>) {
    if planned || !(0 <= cursor < lines.len()) {
        (planned, rel, cursor, None)
    } else {
        match markdown_declaration_text(lines[cursor].text@) {
            None => (false, rel, cursor, None),
            Some(a) => match standalone_planned_spec(kind, a) {
                None => (false, rel, cursor, None),
                Some(Ok(r2)) => (true, r2, skip_blank(block_texts(lines), cursor + 1), None),
                Some(Err(m)) => (false, None, skip_blank(block_texts(lines), cursor + 1), Some(m)),
            },
        }
    }
}

/// The line after a `@pattern` declaration at `index`: blank lines, an
/// optional `@strictness` line with the blank lines after it, then the
/// description.
pub open spec fn pattern_end(lines: Seq<BlockLine>, index: int) -> int {
    let c = skip_blank(block_texts(lines), index + 1);
    let ann = if 0 <= c < lines.len() {
        markdown_annotation_text(lines[c].text@)
    } else {
        None
    };
    let c2 = match ann {
        Some(a) => if strictness_spec(a) is Some {
            skip_blank(block_texts(lines), c + 1)
        } else {
            c
        },
        None => c,
    };
    doc_description_from(lines, c2, false).1
}

/// The line after a `@module` or `@area` declaration at `index` whose header
/// says `planned`, and whether the declaration ends up planned.
pub open spec fn module_end(kind: ArchitectureKind, lines: Seq<BlockLine>, index: int, planned: bool) -> (bool, int) {
    let c = skip_blank(block_texts(lines), index + 1);
    let (pl, c2) = doc_planned(kind, lines, c, planned);
    (pl, doc_description_from(lines, c2, false).1)
}

/// Reads a standalone `@planned` line after a module declaration unless the
/// header already planned it; a refused marker is consumed and reported.
fn maybe_consume_doc_planned(
    kind: ArchitectureKind,
    block: &CommentBlock,
    cursor: usize,
    parsed: &mut ParsedArchitecture,
    planned: bool,
    planned_release: Option<PlannedRelease>,
    Ghost(start): Ghost<ParsedArchitecture>,
) -> (r: (bool, Option<PlannedRelease>, usize))
    requires
        cursor <= block.lines@.len(),
        arch_growth(start, *old(parsed), block.path@),
    ensures
        arch_growth(start, *final(parsed), block.path@),
        same_entries(*old(parsed), *final(parsed)),
        cursor <= r.2 <= block.lines@.len(),
        planned ==> r == (planned, planned_release, cursor) && *final(parsed) == *old(parsed),
        r.2 != cursor ==> !plain_architecture_line(block.lines@[cursor as int].text@),
        r.2 == cursor ==> *final(parsed) == *old(parsed),
        (r.0, r.2 as int) == doc_planned(kind, block.lines@, cursor as int, planned),
        ({
            let d = doc_planned_full(kind, block.lines@, cursor as int, planned, planned_release_view(planned_release));
            &&& r.0 == d.0
            &&& planned_release_view(r.1) == d.1
            &&& r.2 as int == d.2
            &&& match d.3 {
                None => *final(parsed) == *old(parsed),
                Some(m) => arch_diag_pushed(*old(parsed), *final(parsed), block.path@, block.lines@[cursor as int].line, m),
            }
        }),
{
    if planned {
        return (planned, planned_release, cursor);
    }
    if cursor < block.lines.len() {
        if let Some(annotation) = normalize_markdown_declaration_line(block.lines[cursor].text.as_str()) {
            match maybe_consume_standalone_planned(
                kind,
                annotation,
                parsed,
                block.path.as_str(),
                block.lines[cursor].line,
                Ghost(start),
            ) {
                StandalonePlanned::Absent => {},
                StandalonePlanned::Parsed(release) => {
                    proof {
                        lemma_planned_marker_at(annotation@);
                    }
                    let next = skip_blank_lines(&block.lines, cursor + 1);
                    return (true, release, next);
                },
                StandalonePlanned::Invalid => {
                    proof {
                        lemma_planned_marker_at(annotation@);
                    }
                    let next = skip_blank_lines(&block.lines, cursor + 1);
                    return (false, None, next);
                },
            }
        }
    }
    (planned, planned_release, cursor)
}

proof fn lemma_planned_marker_at(text: Seq<char>)
    requires
        crate::planned_syntax::marker_line_spec(text, "@planned"@) is Some,
    ensures
        at_sign(text),
{
    reveal_strlit("@planned");
    assert("@planned"@.is_prefix_of(text));
    assert(text[0] == "@planned"@[0]);
}

/// Records a module declaration; a planned area is reported instead.
fn push_module_decl(
    parsed: &mut ParsedArchitecture,
    kind: ArchitectureKind,
    id: String,
    text: String,
    plan: PlanState,
    location: SourceLocation,
    Ghost(start): Ghost<ParsedArchitecture>,
)
    requires
        arch_growth(start, *old(parsed), location.path@),
        id@.len() > 0,
    ensures
        arch_growth(start, *final(parsed), location.path@),
        final(parsed).implements == old(parsed).implements,
        final(parsed).patterns == old(parsed).patterns,
        final(parsed).pattern_applications == old(parsed).pattern_applications,
        architecture_plan_ok(kind, plan) ==> final(parsed).modules@.len() == old(parsed).modules@.len() + 1
            && final(parsed).modules@.last().spec_id() == id@ && final(parsed).modules@.last().spec_text()
            == text@ && final(parsed).modules@.last().spec_kind() == kind
            && final(parsed).modules@.last().spec_plan() == plan && final(parsed).modules@.last().spec_location()
            == location,
        !architecture_plan_ok(kind, plan) ==> final(parsed).modules == old(parsed).modules,
        old(parsed).modules@.is_prefix_of(final(parsed).modules@),
        architecture_plan_ok(kind, plan) ==> final(parsed).diagnostics == old(parsed).diagnostics
            && final(parsed).modules@.drop_last() == old(parsed).modules@,
        !architecture_plan_ok(kind, plan) ==> arch_diag_pushed(
            *old(parsed),
            *final(parsed),
            location.path@,
            location.line,
            crate::model::core_types::planned_area_message(),
        ),
{
    let path = location.path.clone();
    let line = location.line;
    match ModuleDecl::new(id, kind, text, plan, location) {
        Ok(module) => {
            let ghost before = *parsed;
            parsed.modules.push(module);
            proof {
                assert(parsed.modules@.drop_last() =~= before.modules@);
                assert(parsed.modules@.take(before.modules@.len() as int) =~= before.modules@);
                assert(arch_growth(before, *parsed, path@)) by {
                    assert(before.implements@.take(before.implements@.len() as int) =~= before.implements@);
                    assert(before.patterns@.take(before.patterns@.len() as int) =~= before.patterns@);
                    assert(before.pattern_applications@.take(before.pattern_applications@.len() as int)
                        =~= before.pattern_applications@);
                    assert(before.diagnostics@.take(before.diagnostics@.len() as int) =~= before.diagnostics@);
                }
                lemma_arch_growth_trans(start, before, *parsed, path@);
            }
        },
        Err(err) => {
            arch_diag(parsed, path.as_str(), line, err.message(), Ghost(start));
            proof {
                assert(parsed.modules@.take(old(parsed).modules@.len() as int) =~= old(parsed).modules@);
            }
        },
    }
}


/// What a line handler promises: growth in the file, progress when it took
/// the line, no change when it did not, and that a taken line carries an
/// annotation.
pub open spec fn handled(
    block: CommentBlock,
    start: ParsedArchitecture,
    before: ParsedArchitecture,
    after: ParsedArchitecture,
    index: int,
    r: Option<usize>,
) -> bool {
    &&& arch_growth(start, after, block.path@)
    &&& r matches Some(n) ==> index < n <= block.lines@.len() && !plain_architecture_line(
        block.lines@[index].text@,
    )
    &&& r is None ==> after == before
    &&& entries_grow(before, after)
}

/// Every entry list of `before` is a prefix of the same list of `after`.
pub open spec fn entries_grow(before: ParsedArchitecture, after: ParsedArchitecture) -> bool {
    &&& before.modules@.is_prefix_of(after.modules@)
    &&& before.implements@.is_prefix_of(after.implements@)
    &&& before.patterns@.is_prefix_of(after.patterns@)
    &&& before.pattern_applications@.is_prefix_of(after.pattern_applications@)
}

/// What an attachment line (`@implements` when `implements`, `@applies`
/// otherwise) does with its id: reports a bad id, attaches to the whole file
/// or to the heading section it belongs to, or reports that it has none.
pub open spec fn attachment_effect(
    block: CommentBlock,
    old: ParsedArchitecture,
    new: ParsedArchitecture,
    index: int,
    rest: Seq<char>,
    file_scoped: bool,
    implements: bool,
) -> bool {
    let line = block.lines@[index].line;
    let path = block.path@;
    let ann = if implements {
        if file_scoped {
            "@fileimplements"@
        } else {
            "@implements"@
        }
    } else if file_scoped {
        "@fileapplies"@
    } else {
        "@applies"@
    };
    match attachment_id(rest, ann, if implements { "module"@ } else { "pattern"@ }) {
        Err(m) => arch_diag_pushed(old, new, path, line, m),
        Ok(id) => if file_scoped || implementation_section(block.lines@, index) is Some {
            &&& new.modules == old.modules
            &&& new.patterns == old.patterns
            &&& new.diagnostics == old.diagnostics
            &&& if implements {
                &&& new.pattern_applications == old.pattern_applications
                &&& new.implements@.len() == old.implements@.len() + 1
                &&& new.implements@.drop_last() == old.implements@
                &&& new.implements@.last().module_id@ == id
                &&& new.implements@.last().location.path@ == path
                &&& new.implements@.last().location.line == line
                &&& (new.implements@.last().body_location is None) == file_scoped
            } else {
                &&& new.implements == old.implements
                &&& new.pattern_applications@.len() == old.pattern_applications@.len() + 1
                &&& new.pattern_applications@.drop_last() == old.pattern_applications@
                &&& new.pattern_applications@.last().pattern_id@ == id
                &&& new.pattern_applications@.last().location.path@ == path
                &&& new.pattern_applications@.last().location.line == line
                &&& (new.pattern_applications@.last().body_location is None) == file_scoped
            }
        } else {
            arch_diag_pushed(
                old,
                new,
                path,
                line,
                if implements {
                    "@implements must attach to a markdown heading section"@
                } else {
                    "@applies must attach to a markdown heading section"@
                },
            )
        },
    }
}

fn push_implement(
    parsed: &mut ParsedArchitecture,
    r: ImplementRef,
    Ghost(start): Ghost<ParsedArchitecture>,
)
    requires
        arch_growth(start, *old(parsed), r.location.path@),
        r.module_id@.len() > 0,
    ensures
        arch_growth(start, *final(parsed), r.location.path@),
        final(parsed).implements@ == old(parsed).implements@.push(r),
        final(parsed).implements@.drop_last() == old(parsed).implements@,
        final(parsed).modules == old(parsed).modules,
        final(parsed).patterns == old(parsed).patterns,
        final(parsed).pattern_applications == old(parsed).pattern_applications,
        final(parsed).diagnostics == old(parsed).diagnostics,
{
    let ghost before = *parsed;
    let ghost path = r.location.path@;
    parsed.implements.push(r);
    proof {
        assert(parsed.implements@.drop_last() =~= before.implements@);
        assert(parsed.implements@.take(before.implements@.len() as int) =~= before.implements@);
        assert(arch_growth(before, *parsed, path)) by {
            assert(before.modules@.take(before.modules@.len() as int) =~= before.modules@);
            assert(before.patterns@.take(before.patterns@.len() as int) =~= before.patterns@);
            assert(before.pattern_applications@.take(before.pattern_applications@.len() as int)
                =~= before.pattern_applications@);
            assert(before.diagnostics@.take(before.diagnostics@.len() as int) =~= before.diagnostics@);
        }
        lemma_arch_growth_trans(start, before, *parsed, path);
    }
}

fn push_application(
    parsed: &mut ParsedArchitecture,
    a: PatternApplication,
    Ghost(start): Ghost<ParsedArchitecture>,
)
    requires
        arch_growth(start, *old(parsed), a.location.path@),
        a.pattern_id@.len() > 0,
    ensures
        arch_growth(start, *final(parsed), a.location.path@),
        final(parsed).pattern_applications@ == old(parsed).pattern_applications@.push(a),
        final(parsed).pattern_applications@.drop_last() == old(parsed).pattern_applications@,
        final(parsed).modules == old(parsed).modules,
        final(parsed).implements == old(parsed).implements,
        final(parsed).patterns == old(parsed).patterns,
        final(parsed).diagnostics == old(parsed).diagnostics,
{
    let ghost before = *parsed;
    let ghost path = a.location.path@;
    parsed.pattern_applications.push(a);
    proof {
        assert(parsed.pattern_applications@.drop_last() =~= before.pattern_applications@);
        assert(parsed.pattern_applications@.take(before.pattern_applications@.len() as int)
            =~= before.pattern_applications@);
        assert(arch_growth(before, *parsed, path)) by {
            assert(before.modules@.take(before.modules@.len() as int) =~= before.modules@);
            assert(before.implements@.take(before.implements@.len() as int) =~= before.implements@);
            assert(before.patterns@.take(before.patterns@.len() as int) =~= before.patterns@);
            assert(before.diagnostics@.take(before.diagnostics@.len() as int) =~= before.diagnostics@);
        }
        lemma_arch_growth_trans(start, before, *parsed, path);
    }
}

fn push_pattern(
    parsed: &mut ParsedArchitecture,
    d: PatternDefinition,
    Ghost(start): Ghost<ParsedArchitecture>,
)
    requires
        arch_growth(start, *old(parsed), d.location.path@),
        d.pattern_id@.len() > 0,
    ensures
        arch_growth(start, *final(parsed), d.location.path@),
        final(parsed).patterns@ == old(parsed).patterns@.push(d),
        final(parsed).patterns@.drop_last() == old(parsed).patterns@,
        final(parsed).modules == old(parsed).modules,
        final(parsed).implements == old(parsed).implements,
        final(parsed).pattern_applications == old(parsed).pattern_applications,
        final(parsed).diagnostics == old(parsed).diagnostics,
{
    let ghost before = *parsed;
    let ghost path = d.location.path@;
    parsed.patterns.push(d);
    proof {
        assert(parsed.patterns@.drop_last() =~= before.patterns@);
        assert(parsed.patterns@.take(before.patterns@.len() as int) =~= before.patterns@);
        assert(arch_growth(before, *parsed, path)) by {
            assert(before.modules@.take(before.modules@.len() as int) =~= before.modules@);
            assert(before.implements@.take(before.implements@.len() as int) =~= before.implements@);
            assert(before.pattern_applications@.take(before.pattern_applications@.len() as int)
                =~= before.pattern_applications@);
            assert(before.diagnostics@.take(before.diagnostics@.len() as int) =~= before.diagnostics@);
        }
        lemma_arch_growth_trans(start, before, *parsed, path);
    }
}

/// Handles an `@implements` or `@fileimplements` line: an item-scoped one
/// owns the section it attaches to, and is reported without one.
fn handle_markdown_implements(
    block: &CommentBlock,
    parsed: &mut ParsedArchitecture,
    index: usize,
    Ghost(start): Ghost<ParsedArchitecture>,
) -> (r: Option<usize>)
    requires
        index < block.lines@.len(),
        !fence_line(block.lines@[index as int].text@),
        arch_growth(start, *old(parsed), block.path@),
    ensures
        handled(*block, start, *old(parsed), *final(parsed), index as int, r),
        match markdown_implements(block.lines@[index as int].text@) {
            None => r is None,
            Some((rest, file_scoped)) => r == Some((index + 1) as usize) && attachment_effect(
                *block,
                *old(parsed),
                *final(parsed),
                index as int,
                rest,
                file_scoped,
                true,
            ),
        },
        r matches Some(n) ==> arch_step(*block, index as int, arch_view(*old(parsed), false)) == (
            n as int,
            arch_view(*final(parsed), false),
        ),
{
    let count = block.lines.len();
    let raw = block.lines[index].text.as_str();
    let line_number = block.lines[index].line;
    let path = block.path.as_str();
    let (rest, file_scoped, annotation) = match normalized_markdown_implements_annotation(raw) {
        Some(found) => found,
        None => return None,
    };
    proof {
        let a = markdown_annotation_text(raw@)->0;
        if file_scoped {
            lemma_reserved_rest_at(a, ReservedSpecialAnnotation::FileImplements);
        } else {
            lemma_reserved_rest_at(a, ReservedSpecialAnnotation::Implements);
        }
    }
    let module_id = match parse_implements_module_id(rest, annotation, parsed, path, line_number, Ghost(start)) {
        Some(id) => id,
        None => {
            proof {
                reveal(arch_step);
                let m = attachment_id(rest@, annotation@, "module"@)->Err_0;
                lemma_view_diag(*old(parsed), *parsed, block.path@, line_number, m, false);
            }
            return Some(index + 1);
        },
    };
    let (body_location, body) = if file_scoped {
        (None, None)
    } else {
        match markdown_implementation_section(&block.lines, index) {
            Some(section) => (
                Some(SourceLocation { path: owned(path), line: block.lines[section.start].line }),
                Some(markdown_section_body(&block.lines, section, index)),
            ),
            None => {
                arch_diag(
                    parsed,
                    path,
                    line_number,
                    "@implements must attach to a markdown heading section",
                    Ghost(start),
                );
                proof {
                    reveal(arch_step);
                    lemma_view_diag(*old(parsed), *parsed, block.path@, line_number, if true {
                        "@implements must attach to a markdown heading section"@
                    } else {
                        "@applies must attach to a markdown heading section"@
                    }, false);
                }
                return Some(index + 1);
            },
        }
    };
    let r = ImplementRef {
        module_id,
        location: SourceLocation { path: owned(path), line: line_number },
        body_location,
        body,
    };
    let ghost mid = *parsed;
    let ghost e = implement_entry(r);
    push_implement(parsed, r, Ghost(start));
    proof {
        reveal(arch_step);
        assert(arch_view(*parsed, false).implements =~= arch_view(mid, false).implements.push(e));
        assert(arch_view(*parsed, false).modules =~= arch_view(mid, false).modules);
    }
    Some(index + 1)
}

/// Handles an `@applies` or `@fileapplies` line: an item-scoped one owns the
/// section it attaches to, a file-scoped one the whole file.
fn handle_markdown_applies(
    block: &CommentBlock,
    parsed: &mut ParsedArchitecture,
    index: usize,
    Ghost(start): Ghost<ParsedArchitecture>,
) -> (r: Option<usize>)
    requires
        index < block.lines@.len(),
        !fence_line(block.lines@[index as int].text@),
        markdown_implements(block.lines@[index as int].text@) is None,
        arch_growth(start, *old(parsed), block.path@),
    ensures
        handled(*block, start, *old(parsed), *final(parsed), index as int, r),
        match markdown_applies(block.lines@[index as int].text@) {
            None => r is None,
            Some((rest, file_scoped)) => r == Some((index + 1) as usize) && attachment_effect(
                *block,
                *old(parsed),
                *final(parsed),
                index as int,
                rest,
                file_scoped,
                false,
            ),
        },
        r matches Some(n) ==> arch_step(*block, index as int, arch_view(*old(parsed), false)) == (
            n as int,
            arch_view(*final(parsed), false),
        ),
{
    let count = block.lines.len();
    let raw = block.lines[index].text.as_str();
    let line_number = block.lines[index].line;
    let path = block.path.as_str();
    let (rest, file_scoped, annotation) = match normalized_markdown_pattern_application(raw) {
        Some(found) => found,
        None => return None,
    };
    proof {
        let a = markdown_annotation_text(raw@)->0;
        if file_scoped {
            lemma_reserved_rest_at(a, ReservedSpecialAnnotation::FileApplies);
        } else {
            lemma_reserved_rest_at(a, ReservedSpecialAnnotation::Applies);
        }
    }
    let pattern_id = match parse_pattern_id(rest, annotation, parsed, path, line_number, Ghost(start)) {
        Some(id) => id,
        None => {
            proof {
                reveal(arch_step);
                let m = attachment_id(rest@, annotation@, "pattern"@)->Err_0;
                lemma_view_diag(*old(parsed), *parsed, block.path@, line_number, m, false);
            }
            return Some(index + 1);
        },
    };
    let (body_location, body) = if file_scoped {
        (None, Some(markdown_file_body(&block.lines)))
    } else {
        match markdown_implementation_section(&block.lines, index) {
            Some(section) => (
                Some(SourceLocation { path: owned(path), line: block.lines[section.start].line }),
                Some(markdown_section_body(&block.lines, section, index)),
            ),
            None => {
                arch_diag(
                    parsed,
                    path,
                    line_number,
                    "@applies must attach to a markdown heading section",
                    Ghost(start),
                );
                proof {
                    reveal(arch_step);
                    lemma_view_diag(*old(parsed), *parsed, block.path@, line_number, if false {
                        "@implements must attach to a markdown heading section"@
                    } else {
                        "@applies must attach to a markdown heading section"@
                    }, false);
                }
                return Some(index + 1);
            },
        }
    };
    let a = PatternApplication {
        pattern_id,
        location: SourceLocation { path: owned(path), line: line_number },
        body_location,
        body,
    };
    let ghost mid = *parsed;
    let ghost e = application_entry(a);
    push_application(parsed, a, Ghost(start));
    proof {
        reveal(arch_step);
        assert(arch_view(*parsed, false).applications =~= arch_view(mid, false).applications.push(e));
        assert(arch_view(*parsed, false).modules =~= arch_view(mid, false).modules);
    }
    Some(index + 1)
}

/// Handles a `@pattern` declaration with its optional `@strictness` line and
/// description.
fn handle_markdown_pattern(
    block: &CommentBlock,
    parsed: &mut ParsedArchitecture,
    index: usize,
    Ghost(start): Ghost<ParsedArchitecture>,
) -> (r: Option<usize>)
    requires
        index < block.lines@.len(),
        !fence_line(block.lines@[index as int].text@),
        markdown_implements(block.lines@[index as int].text@) is None,
        markdown_applies(block.lines@[index as int].text@) is None,
        arch_growth(start, *old(parsed), block.path@),
    ensures
        handled(*block, start, *old(parsed), *final(parsed), index as int, r),
        match pattern_heading(block.lines@[index as int].text@) {
            None => r is None,
            Some(rest) => r is Some && match attachment_id(rest, "@pattern"@, "pattern"@) {
                Err(m) => r == Some((index + 1) as usize) && arch_diag_pushed(
                    *old(parsed),
                    *final(parsed),
                    block.path@,
                    block.lines@[index as int].line,
                    m,
                ),
                Ok(id) => {
                    &&& r matches Some(n) && n as int == pattern_end(block.lines@, index as int)
                    &&& final(parsed).modules == old(parsed).modules
                    &&& final(parsed).implements == old(parsed).implements
                    &&& final(parsed).pattern_applications == old(parsed).pattern_applications
                    &&& final(parsed).patterns@.len() == old(parsed).patterns@.len() + 1
                    &&& final(parsed).patterns@.drop_last() == old(parsed).patterns@
                    &&& final(parsed).patterns@.last().pattern_id@ == id
                    &&& final(parsed).patterns@.last().location.line == block.lines@[index as int].line
                },
            },
        },
        r matches Some(n) ==> arch_step(*block, index as int, arch_view(*old(parsed), false)) == (
            n as int,
            arch_view(*final(parsed), false),
        ),
{
    let count = block.lines.len();
    let raw = block.lines[index].text.as_str();
    let line_number = block.lines[index].line;
    let path = block.path.as_str();
    let raw_pattern = match normalized_pattern_heading(raw) {
        Some(rest) => rest,
        None => return None,
    };
    proof {
        let d = markdown_declaration_text(raw@)->0;
        lemma_reserved_rest_at(d, ReservedSpecialAnnotation::Pattern);
    }
    let pattern_id = match parse_pattern_id(raw_pattern, "@pattern", parsed, path, line_number, Ghost(start)) {
        Some(id) => id,
        None => {
            proof {
                reveal(arch_step);
                let m = attachment_id(raw_pattern@, "@pattern"@, "pattern"@)->Err_0;
                lemma_view_diag(*old(parsed), *parsed, block.path@, line_number, m, false);
            }
            return Some(index + 1);
        },
    };
    let mut cursor = skip_blank_lines(&block.lines, index + 1);
    let ghost c0 = cursor as int;
    let (annotation_text, annotation_line) = if cursor < count {
        (Some(block.lines[cursor].text.as_str()), block.lines[cursor].line)
    } else {
        (None, 0)
    };
    let ann = normalized_annotation_line(annotation_text);
    let ghost mid = *parsed;
    let strictness = match maybe_consume_pattern_strictness(ann, parsed, path, annotation_line, Ghost(start)) {
        Some(s) => {
            cursor = skip_blank_lines(&block.lines, cursor + 1);
            s
        },
        None => PatternStrictness::Medium,
    };
    let ghost mid2 = *parsed;
    proof {
        let st = match ann {
            Some(a) => strictness_spec(a@),
            None => None,
        };
        if st matches Some((_, true)) {
            lemma_view_diag(mid, mid2, block.path@, annotation_line, strictness_message(), false);
        }
    }
    let (description_lines, end) = collect_doc_description_lines(&block.lines, cursor);
    let text = join_strings(&description_lines, " ");
    let definition = PatternDefinition {
        pattern_id,
        strictness,
        text,
        location: SourceLocation { path: owned(path), line: line_number },
    };
    let ghost e = pattern_entry(definition);
    push_pattern(parsed, definition, Ghost(start));
    proof {
        reveal(arch_step);
        assert(arch_view(*parsed, false).patterns =~= arch_view(mid2, false).patterns.push(e));
        assert(arch_view(*parsed, false).modules =~= arch_view(mid2, false).modules);
        assert(arch_view(*parsed, false).implements =~= arch_view(mid2, false).implements);
        assert(arch_view(*parsed, false).applications =~= arch_view(mid2, false).applications);
        assert(arch_view(mid, false) == arch_view(*old(parsed), false));
        assert(c0 == skip_blank(block_texts(block.lines@), index + 1));
        let id = attachment_id(raw_pattern@, "@pattern"@, "pattern"@)->Ok_0;
        assert(pattern_step(*block, index as int, id, arch_view(*old(parsed), false)) == (
            end as int,
            arch_view(*parsed, false),
        ));
    }
    Some(end)
}

/// Handles a `@module` or `@area` declaration with its optional adjacent
/// `@planned` line and description.
fn handle_markdown_module(
    block: &CommentBlock,
    parsed: &mut ParsedArchitecture,
    index: usize,
    Ghost(start): Ghost<ParsedArchitecture>,
) -> (r: Option<usize>)
    requires
        index < block.lines@.len(),
        !fence_line(block.lines@[index as int].text@),
        markdown_implements(block.lines@[index as int].text@) is None,
        markdown_applies(block.lines@[index as int].text@) is None,
        pattern_heading(block.lines@[index as int].text@) is None,
        arch_growth(start, *old(parsed), block.path@),
    ensures
        handled(*block, start, *old(parsed), *final(parsed), index as int, r),
        match architecture_heading(block.lines@[index as int].text@) {
            None => r is None,
            Some((kind, rest)) => r is Some && match module_header_spec(kind, rest) {
                Err(m) => r == Some((index + 1) as usize) && arch_diag_pushed(
                    *old(parsed),
                    *final(parsed),
                    block.path@,
                    block.lines@[index as int].line,
                    m,
                ),
                Ok((id, _, planned)) => {
                    &&& r matches Some(n) && n as int == module_end(kind, block.lines@, index as int, planned).1
                    &&& (final(parsed).modules@.len() == old(parsed).modules@.len() + 1) == !(kind
                        == ArchitectureKind::Area && module_end(kind, block.lines@, index as int, planned).0)
                    &&& final(parsed).implements == old(parsed).implements
                    &&& final(parsed).patterns == old(parsed).patterns
                    &&& final(parsed).pattern_applications == old(parsed).pattern_applications
                    &&& old(parsed).modules@.is_prefix_of(final(parsed).modules@)
                    &&& final(parsed).modules@.len() <= old(parsed).modules@.len() + 1
                    &&& kind == ArchitectureKind::Module ==> final(parsed).modules@.len()
                        == old(parsed).modules@.len() + 1
                    &&& final(parsed).modules@.len() == old(parsed).modules@.len() + 1 ==> {
                        let m = final(parsed).modules@.last();
                        &&& m.spec_id() == id
                        &&& m.spec_kind() == kind
                        &&& m.spec_location().line == block.lines@[index as int].line
                    }
                },
            },
        },
        r matches Some(n) ==> arch_step(*block, index as int, arch_view(*old(parsed), false)) == (
            n as int,
            arch_view(*final(parsed), false),
        ),
{
    let count = block.lines.len();
    let raw = block.lines[index].text.as_str();
    let line_number = block.lines[index].line;
    let path = block.path.as_str();
    let (kind, raw_decl) = match normalized_architecture_heading(raw) {
        Some(found) => found,
        None => return None,
    };
    proof {
        let d = markdown_declaration_text(raw@)->0;
        if kind == ArchitectureKind::Module {
            lemma_reserved_rest_at(d, ReservedSpecialAnnotation::Module);
        } else {
            lemma_reserved_rest_at(d, ReservedSpecialAnnotation::Area);
        }
    }
    let (id, inline_release, inline_planned) = match parse_module_header(
        kind,
        raw_decl,
        parsed,
        path,
        line_number,
        Ghost(start),
    ) {
        Some(h) => h,
        None => {
            proof {
                reveal(arch_step);
                let m = module_header_spec(kind, raw_decl@)->Err_0;
                lemma_view_diag(*old(parsed), *parsed, block.path@, line_number, m, false);
            }
            return Some(index + 1);
        },
    };
    let cursor = skip_blank_lines(&block.lines, index + 1);
    let ghost mid = *parsed;
    let (planned, planned_release, next_cursor) = maybe_consume_doc_planned(
        kind,
        block,
        cursor,
        parsed,
        inline_planned,
        inline_release,
        Ghost(start),
    );
    let ghost mid2 = *parsed;
    proof {
        let d = doc_planned_full(kind, block.lines@, cursor as int, inline_planned, planned_release_view(inline_release));
        if d.3 is Some {
            lemma_view_diag(mid, mid2, block.path@, block.lines@[cursor as int].line, d.3->0, false);
        }
    }
    let (description_lines, end) = collect_doc_description_lines(&block.lines, next_cursor);
    let location = SourceLocation { path: owned(path), line: line_number };
    let plan = if planned {
        PlanState::planned(planned_release)
    } else {
        PlanState::current()
    };
    let text = join_strings(&description_lines, " ");
    push_module_decl(parsed, kind, id, text, plan, location, Ghost(start));
    proof {
        reveal(arch_step);
        if architecture_plan_ok(kind, plan) {
            assert(arch_view(*parsed, false).modules =~= arch_view(mid2, false).modules.push(
                module_entry(parsed.modules@.last()),
            ));
            assert(arch_view(*parsed, false).diags =~= arch_view(mid2, false).diags);
        } else {
            lemma_view_diag(mid2, *parsed, block.path@, line_number, planned_area_message(), false);
        }
        assert(arch_view(mid, false) == arch_view(*old(parsed), false));
        let h = module_header_spec(kind, raw_decl@)->Ok_0;
        assert(module_step(*block, index as int, kind, h.0, h.1, h.2, arch_view(*old(parsed), false)) == (
            end as int,
            arch_view(*parsed, false),
        ));
    }
    Some(end)
}

/// A module as its entries: id, kind, text, planned, planned release, and
/// location (path and line).
pub open spec fn module_entry(m: ModuleDecl) -> (Seq<char>, ArchitectureKind, Seq<char>, bool, Option<Seq<char>>, (Seq<char>, usize)) {
    (m.spec_id(), m.spec_kind(), m.spec_text(), m.spec_plan() is Planned, plan_release(m.spec_plan()), loc_entry(m.spec_location()))
}

/// A pattern as its entries: id, strictness, text, location.
pub open spec fn pattern_entry(d: PatternDefinition) -> (Seq<char>, PatternStrictness, Seq<char>, (Seq<char>, usize)) {
    (d.pattern_id@, d.strictness, d.text@, loc_entry(d.location))
}

/// A pattern application as its entries: id, location, and the location
/// and text of its body.
pub open spec fn application_entry(a: PatternApplication) -> (Seq<char>, (Seq<char>, usize), Option<(Seq<char>, usize)>, Option<Seq<char>>) {
    (a.pattern_id@, loc_entry(a.location), body_loc(a.body_location), opt_string_view(a.body))
}

/// What reading a markdown file records, entry by entry: the modules, the
/// attachments, the patterns and their applications, the diagnostics (path,
/// line and message), and whether a code fence is open.
pub struct ArchWalk {
    pub modules: Seq<(Seq<char>, ArchitectureKind, Seq<char>, bool, Option<Seq<char>>, (Seq<char>, usize))>,
    pub implements: Seq<(Seq<char>, (Seq<char>, usize), Option<(Seq<char>, usize)>, Option<Seq<char>>)>,
    pub patterns: Seq<(Seq<char>, PatternStrictness, Seq<char>, (Seq<char>, usize))>,
    pub applications: Seq<(Seq<char>, (Seq<char>, usize), Option<(Seq<char>, usize)>, Option<Seq<char>>)>,
    pub diags: Seq<(Seq<char>, usize, Seq<char>)>,
    pub fence: bool,
}

/// The entries of a parse result.
pub open spec fn arch_view(p: ParsedArchitecture, fence: bool) -> ArchWalk {
    ArchWalk {
        modules: p.modules@.map_values(|m: ModuleDecl| module_entry(m)),
        implements: p.implements@.map_values(|r: ImplementRef| implement_entry(r)),
        patterns: p.patterns@.map_values(|d: PatternDefinition| pattern_entry(d)),
        applications: p.pattern_applications@.map_values(|a: PatternApplication| application_entry(a)),
        diags: arch_diags(p.diagnostics@),
        fence,
    }
}

/// What an attachment line (`@implements` when `implements`, `@applies`
/// otherwise) records: its entry or a diagnostic.
pub open spec fn attach_step(block: CommentBlock, index: int, rest: Seq<char>, fs: bool, implements: bool, w: ArchWalk) -> ArchWalk {
    let line = block.lines@[index].line;
    let ann = if implements {
        if fs {
            "@fileimplements"@
        } else {
            "@implements"@
        }
    } else if fs {
        "@fileapplies"@
    } else {
        "@applies"@
    };
    match attachment_id(rest, ann, if implements { "module"@ } else { "pattern"@ }) {
        Err(m) => ArchWalk { diags: w.diags.push((block.path@, line, m)), ..w },
        Ok(id) => {
            let body: Option<(Option<(Seq<char>, usize)>, Option<Seq<char>>)> = if fs {
                Some((None, if implements { None } else { Some(file_body_text(block.lines@)) }))
            } else {
                match implementation_section(block.lines@, index) {
                    Some((st, en)) => Some((Some((block.path@, block.lines@[st].line)), Some(section_body_text(block.lines@, st, en, index)))),
                    None => None,
                }
            };
            match body {
                Some((bl, bt)) => if implements {
                    ArchWalk { implements: w.implements.push((id, (block.path@, line), bl, bt)), ..w }
                } else {
                    ArchWalk { applications: w.applications.push((id, (block.path@, line), bl, bt)), ..w }
                },
                None => ArchWalk {
                    diags: w.diags.push(
                        (block.path@, line, if implements {
                            "@implements must attach to a markdown heading section"@
                        } else {
                            "@applies must attach to a markdown heading section"@
                        }),
                    ),
                    ..w
                },
            }
        },
    }
}

/// What a `@pattern` declaration at `index` with id `id` records: an
/// optional `@strictness` line (reported when refused), the pattern with its
/// description; and the index after it.
pub open spec fn pattern_step(block: CommentBlock, index: int, id: Seq<char>, w: ArchWalk) -> (int, ArchWalk) {
    let lines = block.lines@;
    let c = skip_blank(block_texts(lines), index + 1);
    let ann = if 0 <= c < lines.len() {
        markdown_annotation_text(lines[c].text@)
    } else {
        None
    };
    let st = match ann {
        Some(a) => strictness_spec(a),
        None => None,
    };
    let d1 = match st {
        Some((_, true)) => w.diags.push((block.path@, lines[c].line, strictness_message())),
        _ => w.diags,
    };
    let c2 = if st is Some {
        skip_blank(block_texts(lines), c + 1)
    } else {
        c
    };
    let strictness = match st {
        Some((s, _)) => s,
        None => PatternStrictness::Medium,
    };
    let (desc, end) = doc_description_from(lines, c2, false);
    (end, ArchWalk {
        patterns: w.patterns.push((id, strictness, join(desc, " "@), (block.path@, lines[index].line))),
        diags: d1,
        ..w
    })
}

/// What a `@module` or `@area` declaration at `index` records: an optional
/// standalone `@planned` line (reported when refused), then the module with
/// its description, or the refusal of a planned area; and the index after it.
pub open spec fn module_step(
    block: CommentBlock,
    index: int,
    kind: ArchitectureKind,
    id: Seq<char>,
    rel: Option<Seq<char>>,
    planned: bool,
    w: ArchWalk,
) -> (int, ArchWalk) {
    let lines = block.lines@;
    let line = lines[index].line;
    let c = skip_blank(block_texts(lines), index + 1);
    let (pl, prel, c2, msg) = doc_planned_full(kind, lines, c, planned, rel);
    let d1 = match msg {
        Some(m) => w.diags.push((block.path@, lines[c].line, m)),
        None => w.diags,
    };
    let (desc, end) = doc_description_from(lines, c2, false);
    if kind == ArchitectureKind::Area && pl {
        (end, ArchWalk { diags: d1.push((block.path@, line, planned_area_message())), ..w })
    } else {
        (end, ArchWalk {
            modules: w.modules.push((id, kind, join(desc, " "@), pl, if pl { prel } else { None }, (block.path@, line))),
            diags: d1,
            ..w
        })
    }
}

/// Reading line `index` of a markdown file for architecture: the index to
/// read next and what is recorded after it.
#[verifier::opaque]
pub open spec fn arch_step(block: CommentBlock, index: int, w: ArchWalk) -> (int, ArchWalk) {
    let raw = block.lines@[index].text@;
    let line = block.lines@[index].line;
    if fence_line(raw) {
        (index + 1, ArchWalk { fence: !w.fence, ..w })
    } else if w.fence {
        (index + 1, w)
    } else {
        match markdown_implements(raw) {
            Some((rest, fs)) => (index + 1, attach_step(block, index, rest, fs, true, w)),
            None => match markdown_applies(raw) {
                Some((rest, fs)) => (index + 1, attach_step(block, index, rest, fs, false, w)),
                None => match pattern_heading(raw) {
                    Some(rest) => match attachment_id(rest, "@pattern"@, "pattern"@) {
                        Ok(id) => pattern_step(block, index, id, w),
                        Err(m) => (index + 1, ArchWalk { diags: w.diags.push((block.path@, line, m)), ..w }),
                    },
                    None => match architecture_heading(raw) {
                        Some((kind, rest)) => match module_header_spec(kind, rest) {
                            Ok((id, rel, planned)) => module_step(block, index, kind, id, rel, planned, w),
                            Err(m) => (index + 1, ArchWalk { diags: w.diags.push((block.path@, line, m)), ..w }),
                        },
                        None => (index + 1, w),
                    },
                },
            },
        }
    }
}

/// Reading a markdown file for architecture from line `index` on.
#[verifier::opaque]
pub open spec fn arch_walk(block: CommentBlock, index: int, w: ArchWalk) -> ArchWalk
    decreases block.lines@.len() - index,
{
    if index < 0 || index >= block.lines@.len() {
        w
    } else {
        let (next, w2) = arch_step(block, index, w);
        if index < next <= block.lines@.len() {
            arch_walk(block, next, w2)
        } else {
            w
        }
    }
}

/// What reading a whole markdown file records after `p`.
pub open spec fn arch_result(block: CommentBlock, p: ParsedArchitecture) -> ArchWalk {
    arch_walk(block, 0, arch_view(p, false))
}

/// One error appended: the view gains the diagnostic.
proof fn lemma_view_diag(old: ParsedArchitecture, new: ParsedArchitecture, path: Seq<char>, line: usize, m: Seq<char>, f: bool)
    requires
        arch_diag_pushed(old, new, path, line, m),
    ensures
        arch_view(new, f) == (ArchWalk { diags: arch_view(old, f).diags.push((path, line, m)), ..arch_view(old, f) }),
{
    lemma_arch_diags_pushed(old, new, path, line, m);
    assert(arch_view(new, f).modules =~= arch_view(old, f).modules);
}

proof fn lemma_arch_skip(block: CommentBlock, index: int, w: ArchWalk)
    requires
        0 <= index < block.lines@.len(),
        fence_line(block.lines@[index].text@) || w.fence,
    ensures
        arch_step(block, index, w) == (index + 1, if fence_line(block.lines@[index].text@) {
            ArchWalk { fence: !w.fence, ..w }
        } else {
            w
        }),
{
    reveal(arch_step);
}

proof fn lemma_arch_none(block: CommentBlock, index: int, w: ArchWalk)
    requires
        0 <= index < block.lines@.len(),
        !fence_line(block.lines@[index].text@),
        !w.fence,
        markdown_implements(block.lines@[index].text@) is None,
        markdown_applies(block.lines@[index].text@) is None,
        pattern_heading(block.lines@[index].text@) is None,
        architecture_heading(block.lines@[index].text@) is None,
    ensures
        arch_step(block, index, w) == (index + 1, w),
{
    reveal(arch_step);
}

proof fn lemma_arch_advance(block: CommentBlock, index: int, n: int, a: ArchWalk, b: ArchWalk)
    requires
        0 <= index < n <= block.lines@.len(),
        arch_step(block, index, a) == (n, b),
    ensures
        arch_walk(block, index, a) == arch_walk(block, n, b),
{
    reveal(arch_walk);
}

/// Line `k` carries the first architecture annotation of the file: no
/// earlier line opens a code fence or carries one.
pub open spec fn first_architecture_line(block: CommentBlock, k: int) -> bool {
    &&& 0 <= k < block.lines@.len()
    &&& !fence_line(block.lines@[k].text@)
    &&& !plain_architecture_line(block.lines@[k].text@)
    &&& forall|j: int|
        0 <= j < k ==> !fence_line(#[trigger] block.lines@[j].text@) && plain_architecture_line(
            block.lines@[j].text@,
        )
}

/// What `new` holds, past the entries of `old`, for line `k` that the
/// parser reads first: a well-formed attachment is the next attachment, a
/// well-formed `@pattern` the next pattern, and a well-formed `@module` the
/// next module, each with its id and line.
#[verifier::opaque]
pub open spec fn records_line(block: CommentBlock, old: ParsedArchitecture, new: ParsedArchitecture, k: int) -> bool {
    let raw = block.lines@[k].text@;
    let line = block.lines@[k].line;
    match markdown_implements(raw) {
        Some((rest, fs)) => attachment_id(
            rest,
            if fs {
                "@fileimplements"@
            } else {
                "@implements"@
            },
            "module"@,
        ) matches Ok(id) ==> (fs || implementation_section(block.lines@, k) is Some) ==> {
            &&& new.implements@.len() > old.implements@.len()
            &&& new.implements@[old.implements@.len() as int].module_id@ == id
            &&& new.implements@[old.implements@.len() as int].location.line == line
        },
        None => match markdown_applies(raw) {
            Some((rest, fs)) => attachment_id(
                rest,
                if fs {
                    "@fileapplies"@
                } else {
                    "@applies"@
                },
                "pattern"@,
            ) matches Ok(id) ==> (fs || implementation_section(block.lines@, k) is Some) ==> {
                &&& new.pattern_applications@.len() > old.pattern_applications@.len()
                &&& new.pattern_applications@[old.pattern_applications@.len() as int].pattern_id@ == id
                &&& new.pattern_applications@[old.pattern_applications@.len() as int].location.line == line
            },
            None => match pattern_heading(raw) {
                Some(rest) => attachment_id(rest, "@pattern"@, "pattern"@) matches Ok(id) ==> {
                    &&& new.patterns@.len() > old.patterns@.len()
                    &&& new.patterns@[old.patterns@.len() as int].pattern_id@ == id
                    &&& new.patterns@[old.patterns@.len() as int].location.line == line
                },
                None => match architecture_heading(raw) {
                    Some((kind, rest)) => module_header_spec(kind, rest) matches Ok((id, _, _)) ==> kind
                        == ArchitectureKind::Module ==> {
                        &&& new.modules@.len() > old.modules@.len()
                        &&& new.modules@[old.modules@.len() as int].spec_id() == id
                        &&& new.modules@[old.modules@.len() as int].spec_location().line == line
                    },
                    None => true,
                },
            },
        },
    }
}

proof fn lemma_records_persist(
    block: CommentBlock,
    start: ParsedArchitecture,
    a: ParsedArchitecture,
    b: ParsedArchitecture,
    k: int,
)
    requires
        0 <= k < block.lines@.len(),
        records_line(block, start, a, k),
        entries_grow(a, b),
    ensures
        records_line(block, start, b, k),
{
    reveal(records_line);
    if a.implements@.len() > start.implements@.len() {
        assert(b.implements@[start.implements@.len() as int] == a.implements@[start.implements@.len() as int]);
    }
    if a.pattern_applications@.len() > start.pattern_applications@.len() {
        assert(b.pattern_applications@[start.pattern_applications@.len() as int]
            == a.pattern_applications@[start.pattern_applications@.len() as int]);
    }
    if a.patterns@.len() > start.patterns@.len() {
        assert(b.patterns@[start.patterns@.len() as int] == a.patterns@[start.patterns@.len() as int]);
    }
    if a.modules@.len() > start.modules@.len() {
        assert(b.modules@[start.modules@.len() as int] == a.modules@[start.modules@.len() as int]);
    }
}

/// Parses the architecture declarations and attachments of one markdown
/// file, given as a block of numbered lines.
///
/// Earlier entries stay as they were; every added module, attachment, and
/// pattern sits in the file and names an id, no planned area is added,
/// every added diagnostic is an error in the file, and a file with no
/// annotation line adds nothing. A well-formed first annotation of the file
/// becomes the next attachment, pattern, or module, with its id and line.
/// The modules, attachments, patterns, applications, and diagnostics after
/// reading are, entry by entry, those `arch_result` gives.
#[verifier::rlimit(40)]
pub fn parse_markdown_architecture_block(block: &CommentBlock, parsed: &mut ParsedArchitecture)
    ensures
        arch_growth(*old(parsed), *final(parsed), block.path@),
        no_architecture_annotations(*block) ==> *final(parsed) == *old(parsed),
        forall|k: int| #[trigger] first_architecture_line(*block, k) ==> records_line(
            *block,
            *old(parsed),
            *final(parsed),
            k,
        ),        ({
            let w = arch_result(*block, *old(parsed));
            let v = arch_view(*final(parsed), false);
            &&& v.modules == w.modules
            &&& v.implements == w.implements
            &&& v.patterns == w.patterns
            &&& v.applications == w.applications
            &&& v.diags == w.diags
        }),
{
    let ghost start = *parsed;
    proof {
        lemma_arch_growth_refl(start, block.path@);
    }
    let count = block.lines.len();
    let mut index: usize = 0;
    let mut in_code_fence = false;
    while index < count
        invariant
            count == block.lines@.len(),
            index <= count,
            arch_growth(start, *parsed, block.path@),
            no_architecture_annotations(*block) ==> *parsed == start,
            start == *old(parsed),
            forall|k: int| #[trigger] first_architecture_line(*block, k) ==> (index <= k ==> *parsed == start
                && !in_code_fence) && (index > k ==> records_line(*block, start, *parsed, k)),
            arch_result(*block, start) == arch_walk(*block, index as int, arch_view(*parsed, in_code_fence)),
        decreases count - index,
    {
        let ghost before = *parsed;
        let ghost at = index as int;
        let ghost fence0 = in_code_fence;
        if starts_markdown_fence(block.lines[index].text.as_str()) {
            in_code_fence = !in_code_fence;
            index = index + 1;
            proof {
                lemma_arch_skip(*block, at, arch_view(*parsed, fence0));
                lemma_arch_advance(*block, at, index as int, arch_view(*parsed, fence0), arch_view(*parsed, in_code_fence));
            }
            continue;
        }
        if in_code_fence {
            index = index + 1;
            proof {
                lemma_arch_skip(*block, at, arch_view(*parsed, fence0));
                lemma_arch_advance(*block, at, index as int, arch_view(*parsed, fence0), arch_view(*parsed, in_code_fence));
            }
            continue;
        }
        proof {
            if no_architecture_annotations(*block) {
                assert(plain_architecture_line(block.lines@[index as int].text@));
            }
        }
        if let Some(next) = handle_markdown_implements(block, parsed, index, Ghost(start)) {
            proof {
                if first_architecture_line(*block, at) {
                    reveal(records_line);
                    assert(records_line(*block, start, *parsed, at));
                }
                assert forall|k: int| #[trigger] first_architecture_line(*block, k) && k < at implies records_line(
                    *block,
                    start,
                    *parsed,
                    k,
                ) by {
                    lemma_records_persist(*block, start, before, *parsed, k);
                }
                lemma_arch_advance(*block, at, next as int, arch_view(before, false), arch_view(*parsed, false));
            }
            index = next;
            continue;
        }
        if let Some(next) = handle_markdown_applies(block, parsed, index, Ghost(start)) {
            proof {
                if first_architecture_line(*block, at) {
                    reveal(records_line);
                    assert(records_line(*block, start, *parsed, at));
                }
                assert forall|k: int| #[trigger] first_architecture_line(*block, k) && k < at implies records_line(
                    *block,
                    start,
                    *parsed,
                    k,
                ) by {
                    lemma_records_persist(*block, start, before, *parsed, k);
                }
                lemma_arch_advance(*block, at, next as int, arch_view(before, false), arch_view(*parsed, false));
            }
            index = next;
            continue;
        }
        if let Some(next) = handle_markdown_pattern(block, parsed, index, Ghost(start)) {
            proof {
                if first_architecture_line(*block, at) {
                    reveal(records_line);
                    assert(records_line(*block, start, *parsed, at));
                }
                assert forall|k: int| #[trigger] first_architecture_line(*block, k) && k < at implies records_line(
                    *block,
                    start,
                    *parsed,
                    k,
                ) by {
                    lemma_records_persist(*block, start, before, *parsed, k);
                }
                lemma_arch_advance(*block, at, next as int, arch_view(before, false), arch_view(*parsed, false));
            }
            index = next;
            continue;
        }
        if let Some(next) = handle_markdown_module(block, parsed, index, Ghost(start)) {
            proof {
                if first_architecture_line(*block, at) {
                    reveal(records_line);
                    assert(records_line(*block, start, *parsed, at));
                }
                assert forall|k: int| #[trigger] first_architecture_line(*block, k) && k < at implies records_line(
                    *block,
                    start,
                    *parsed,
                    k,
                ) by {
                    lemma_records_persist(*block, start, before, *parsed, k);
                }
                lemma_arch_advance(*block, at, next as int, arch_view(before, false), arch_view(*parsed, false));
            }
            index = next;
            continue;
        }
        proof {
            if first_architecture_line(*block, at) {
                reveal(records_line);
                assert(records_line(*block, start, *parsed, at));
            }
            lemma_arch_none(*block, at, arch_view(before, false));
            lemma_arch_advance(*block, at, at + 1, arch_view(before, false), arch_view(*parsed, false));
        }
        index = index + 1;
    }
    proof {
        reveal(arch_walk);
    }
}

} // verus!
