//! Architecture declaration helpers shared by markdown and source parsing:
//! heading recognition, module headers, adjacent `@planned`, pattern
//! strictness, descriptions, and `@implements` attachments from comments.
use vstd::prelude::*;
use vstd::string::*;

use crate::model::architecture::{
    ImplementRef, ModuleDecl, ParsedArchitecture, PatternStrictness, architecture_plan_ok,
    strictness_label,
};
use crate::model::core_types::{
    ArchitectureKind, BlockLine, CommentBlock, DiagnosticSeverity, PlannedRelease, SourceLocation,
    architecture_annotation, planned_release_view,
};
use crate::model::spec::Diagnostic;
use crate::parser::diag::{error_at, errors_in, keeps_errors};
use crate::parser::lines::{join, string_views};
use crate::parser::markdown::block_texts;
use crate::planned_syntax::{
    DeclHeaderError, PlannedAnnotationError, PlannedSyntax, decl_header_spec, marker_line_spec,
    parse_decl_header, parse_planned_annotation,
};
use crate::syntax::{
    fence_line,
    ReservedSpecialAnnotation, is_any_tag_boundary, markdown_annotation_text,
    markdown_declaration_text, normalize_markdown_annotation_line,
    normalize_markdown_declaration_line, reserved_rest, reserved_special_annotation_rest,
    starts_markdown_fence, tag_boundary,
};
use crate::text::{WordError, concat2, concat3, owned, single_word, single_word_str, trim, trim_str};

verus! {

/// How an architecture result may grow while one file is read: earlier
/// entries stay, added entries sit in `path` and name an id, added modules
/// respect the plan rule, and added diagnostics are errors in `path`.
pub open spec fn arch_growth(start: ParsedArchitecture, cur: ParsedArchitecture, path: Seq<char>) -> bool {
    &&& start.modules@.is_prefix_of(cur.modules@)
    &&& forall|i: int|
        start.modules@.len() <= i < cur.modules@.len() ==> (#[trigger] cur.modules@[i]).spec_location().path@
            == path && cur.modules@[i].spec_id().len() > 0 && architecture_plan_ok(
            cur.modules@[i].spec_kind(),
            cur.modules@[i].spec_plan(),
        )
    &&& start.implements@.is_prefix_of(cur.implements@)
    &&& forall|i: int|
        start.implements@.len() <= i < cur.implements@.len() ==> (#[trigger] cur.implements@[i]).location.path@
            == path && cur.implements@[i].module_id@.len() > 0
    &&& start.patterns@.is_prefix_of(cur.patterns@)
    &&& forall|i: int|
        start.patterns@.len() <= i < cur.patterns@.len() ==> (#[trigger] cur.patterns@[i]).location.path@
            == path && cur.patterns@[i].pattern_id@.len() > 0
    &&& start.pattern_applications@.is_prefix_of(cur.pattern_applications@)
    &&& forall|i: int|
        start.pattern_applications@.len() <= i < cur.pattern_applications@.len() ==> (
        #[trigger] cur.pattern_applications@[i]).location.path@ == path
            && cur.pattern_applications@[i].pattern_id@.len() > 0
    &&& keeps_errors(start.diagnostics@, cur.diagnostics@, path)
}

pub proof fn lemma_arch_growth_refl(p: ParsedArchitecture, path: Seq<char>)
    ensures
        arch_growth(p, p, path),
{
    assert(p.modules@.take(p.modules@.len() as int) =~= p.modules@);
    assert(p.implements@.take(p.implements@.len() as int) =~= p.implements@);
    assert(p.patterns@.take(p.patterns@.len() as int) =~= p.patterns@);
    assert(p.pattern_applications@.take(p.pattern_applications@.len() as int) =~= p.pattern_applications@);
    assert(p.diagnostics@.take(p.diagnostics@.len() as int) =~= p.diagnostics@);
}

pub proof fn lemma_arch_growth_trans(
    a: ParsedArchitecture,
    b: ParsedArchitecture,
    c: ParsedArchitecture,
    path: Seq<char>,
)
    requires
        arch_growth(a, b, path),
        arch_growth(b, c, path),
    ensures
        arch_growth(a, c, path),
{
    assert(c.modules@.take(a.modules@.len() as int) =~= a.modules@) by {
        assert(c.modules@.take(b.modules@.len() as int) =~= b.modules@);
        assert(b.modules@.take(a.modules@.len() as int) =~= a.modules@);
    }
    assert forall|i: int| a.modules@.len() <= i < c.modules@.len() implies (#[trigger] c.modules@[i]).spec_location().path@
        == path && c.modules@[i].spec_id().len() > 0 && architecture_plan_ok(
        c.modules@[i].spec_kind(),
        c.modules@[i].spec_plan(),
    ) by {
        if i < b.modules@.len() {
            assert(c.modules@[i] == c.modules@.take(b.modules@.len() as int)[i]);
        }
    }
    assert(c.implements@.take(a.implements@.len() as int) =~= a.implements@) by {
        assert(c.implements@.take(b.implements@.len() as int) =~= b.implements@);
        assert(b.implements@.take(a.implements@.len() as int) =~= a.implements@);
    }
    assert forall|i: int| a.implements@.len() <= i < c.implements@.len() implies (#[trigger] c.implements@[i]).location.path@
        == path && c.implements@[i].module_id@.len() > 0 by {
        if i < b.implements@.len() {
            assert(c.implements@[i] == c.implements@.take(b.implements@.len() as int)[i]);
        }
    }
    assert(c.patterns@.take(a.patterns@.len() as int) =~= a.patterns@) by {
        assert(c.patterns@.take(b.patterns@.len() as int) =~= b.patterns@);
        assert(b.patterns@.take(a.patterns@.len() as int) =~= a.patterns@);
    }
    assert forall|i: int| a.patterns@.len() <= i < c.patterns@.len() implies (#[trigger] c.patterns@[i]).location.path@
        == path && c.patterns@[i].pattern_id@.len() > 0 by {
        if i < b.patterns@.len() {
            assert(c.patterns@[i] == c.patterns@.take(b.patterns@.len() as int)[i]);
        }
    }
    assert(c.pattern_applications@.take(a.pattern_applications@.len() as int) =~= a.pattern_applications@) by {
        assert(c.pattern_applications@.take(b.pattern_applications@.len() as int) =~= b.pattern_applications@);
        assert(b.pattern_applications@.take(a.pattern_applications@.len() as int) =~= a.pattern_applications@);
    }
    assert forall|i: int|
        a.pattern_applications@.len() <= i < c.pattern_applications@.len() implies (
        #[trigger] c.pattern_applications@[i]).location.path@ == path
            && c.pattern_applications@[i].pattern_id@.len() > 0 by {
        if i < b.pattern_applications@.len() {
            assert(c.pattern_applications@[i] == c.pattern_applications@.take(b.pattern_applications@.len() as int)[i]);
        }
    }
    assert(c.diagnostics@.take(a.diagnostics@.len() as int) =~= a.diagnostics@) by {
        assert(c.diagnostics@.take(b.diagnostics@.len() as int) =~= b.diagnostics@);
        assert(b.diagnostics@.take(a.diagnostics@.len() as int) =~= a.diagnostics@);
    }
}

/// Everything but the diagnostics is unchanged.
pub open spec fn same_entries(a: ParsedArchitecture, b: ParsedArchitecture) -> bool {
    &&& a.modules == b.modules
    &&& a.implements == b.implements
    &&& a.patterns == b.patterns
    &&& a.pattern_applications == b.pattern_applications
}

/// One error at `path:line` with `message` was appended to the
/// diagnostics; nothing else changed.
pub open spec fn arch_diag_pushed(
    old: ParsedArchitecture,
    new: ParsedArchitecture,
    path: Seq<char>,
    line: usize,
    message: Seq<char>,
) -> bool {
    &&& same_entries(old, new)
    &&& new.diagnostics@.len() == old.diagnostics@.len() + 1
    &&& new.diagnostics@.drop_last() == old.diagnostics@
    &&& error_at(new.diagnostics@.last(), path, line, message)
}

/// The diagnostics of a parse result as their entries: path, line and
/// message (every one is an error).
pub open spec fn arch_diags(s: Seq<Diagnostic>) -> Seq<(Seq<char>, usize, Seq<char>)> {
    s.map_values(|d: Diagnostic| (d.path@, d.line, d.message@))
}

/// One error appended: the entries gain it.
pub proof fn lemma_arch_diags_pushed(
    old: ParsedArchitecture,
    new: ParsedArchitecture,
    path: Seq<char>,
    line: usize,
    message: Seq<char>,
)
    requires
        arch_diag_pushed(old, new, path, line, message),
    ensures
        arch_diags(new.diagnostics@) == arch_diags(old.diagnostics@).push((path, line, message)),
{
    let o = old.diagnostics@;
    let n = new.diagnostics@;
    assert forall|i: int| 0 <= i < o.len() implies n[i] == o[i] by {
        assert(n.drop_last()[i] == n[i]);
    }
    assert(arch_diags(n) =~= arch_diags(o).push((path, line, message)));
}

/// Appends an error diagnostic at `path:line`.
pub fn arch_diag(
    parsed: &mut ParsedArchitecture,
    path: &str,
    line: usize,
    message: &str,
    Ghost(start): Ghost<ParsedArchitecture>,
)
    requires
        arch_growth(start, *old(parsed), path@),
    ensures
        arch_growth(start, *final(parsed), path@),
        same_entries(*old(parsed), *final(parsed)),
        final(parsed).diagnostics@.len() == old(parsed).diagnostics@.len() + 1,
        error_at(final(parsed).diagnostics@.last(), path@, line, message@),
        arch_diag_pushed(*old(parsed), *final(parsed), path@, line, message@),
{
    let ghost before = *parsed;
    parsed.diagnostics.push(
        Diagnostic {
            severity: DiagnosticSeverity::Error,
            path: owned(path),
            line,
            message: owned(message),
        },
    );
    proof {
        let o = before.diagnostics@;
        let n = parsed.diagnostics@;
        assert(n.take(o.len() as int) =~= o);
        assert(n.drop_last() =~= o);
        assert forall|from: int| #[trigger] errors_in(o, from, path@) implies errors_in(n, from, path@) by {
            assert forall|i: int| 0 <= i && from <= i < n.len() implies (#[trigger] n[i]).severity
                == DiagnosticSeverity::Error && n[i].path@ == path@ by {
                if i < o.len() {
                    assert(n[i] == o[i]);
                }
            }
        }
        assert(arch_growth(before, *parsed, path@)) by {
            assert(before.modules@.take(before.modules@.len() as int) =~= before.modules@);
            assert(before.implements@.take(before.implements@.len() as int) =~= before.implements@);
            assert(before.patterns@.take(before.patterns@.len() as int) =~= before.patterns@);
            assert(before.pattern_applications@.take(before.pattern_applications@.len() as int)
                =~= before.pattern_applications@);
        }
        lemma_arch_growth_trans(start, before, *parsed, path@);
    }
}

/// The architecture declaration a markdown line opens: `@module` or `@area`
/// with the text after the tag.
pub open spec fn architecture_heading(raw: Seq<char>) -> Option<(ArchitectureKind, Seq<char>)> {
    match markdown_declaration_text(raw) {
        None => None,
        Some(d) => match reserved_rest(d, ReservedSpecialAnnotation::Module) {
            Some(rest) => Some((ArchitectureKind::Module, rest)),
            None => match reserved_rest(d, ReservedSpecialAnnotation::Area) {
                Some(rest) => Some((ArchitectureKind::Area, rest)),
                None => None,
            },
        },
    }
}

pub fn normalized_architecture_heading(line: &str) -> (r: Option<(ArchitectureKind, &str)>)
    ensures
        match r {
            Some((k, rest)) => architecture_heading(line@) == Some((k, rest@)),
            None => architecture_heading(line@) is None,
        },
{
    let trimmed = match normalize_markdown_declaration_line(line) {
        Some(t) => t,
        None => return None,
    };
    if let Some(rest) = reserved_special_annotation_rest(trimmed, ReservedSpecialAnnotation::Module) {
        Some((ArchitectureKind::Module, rest))
    } else {
        match reserved_special_annotation_rest(trimmed, ReservedSpecialAnnotation::Area) {
            Some(rest) => Some((ArchitectureKind::Area, rest)),
            None => None,
        }
    }
}

/// The text after `@pattern` on a markdown declaration line.
pub open spec fn pattern_heading(raw: Seq<char>) -> Option<Seq<char>> {
    match markdown_declaration_text(raw) {
        None => None,
        Some(d) => reserved_rest(d, ReservedSpecialAnnotation::Pattern),
    }
}

pub fn normalized_pattern_heading(line: &str) -> (r: Option<&str>)
    ensures
        match r {
            Some(rest) => pattern_heading(line@) == Some(rest@),
            None => pattern_heading(line@) is None,
        },
{
    match normalize_markdown_declaration_line(line) {
        Some(t) => reserved_special_annotation_rest(t, ReservedSpecialAnnotation::Pattern),
        None => None,
    }
}

/// The annotation text of an optional markdown line.
pub fn normalized_annotation_line(line: Option<&str>) -> (r: Option<&str>)
    ensures
        match line {
            None => r is None,
            Some(l) => match r {
                Some(t) => markdown_annotation_text(l@) == Some(t@),
                None => markdown_annotation_text(l@) is None,
            },
        },
{
    match line {
        Some(l) => normalize_markdown_annotation_line(l),
        None => None,
    }
}

/// The one id after an attachment annotation, or the message that reports
/// a missing id or trailing words.
pub open spec fn attachment_id(rest: Seq<char>, annotation: Seq<char>, noun: Seq<char>) -> Result<
    Seq<char>,
    Seq<char>,
> {
    match single_word(rest) {
        Ok(id) => Ok(id),
        Err(WordError::Missing) => Err("missing "@ + noun + " id after "@ + annotation),
        Err(WordError::Trailing) => Err("unexpected trailing content after "@ + annotation + " "@ + noun
            + " id"@),
    }
}

fn parse_attachment_id(
    rest: &str,
    annotation: &str,
    noun: &str,
    parsed: &mut ParsedArchitecture,
    path: &str,
    line: usize,
    Ghost(start): Ghost<ParsedArchitecture>,
) -> (r: Option<String>)
    requires
        arch_growth(start, *old(parsed), path@),
    ensures
        arch_growth(start, *final(parsed), path@),
        same_entries(*old(parsed), *final(parsed)),
        match attachment_id(rest@, annotation@, noun@) {
            Ok(id) => r matches Some(s) && s@ == id && id.len() > 0 && *final(parsed) == *old(parsed),
            Err(m) => r is None && final(parsed).diagnostics@.len() == old(parsed).diagnostics@.len() + 1
                && error_at(final(parsed).diagnostics@.last(), path@, line, m) && arch_diag_pushed(
                *old(parsed),
                *final(parsed),
                path@,
                line,
                m,
            ),
        },
{
    proof {
        reveal_strlit("missing ");
        reveal_strlit(" id after ");
        reveal_strlit("unexpected trailing content after ");
        reveal_strlit(" ");
        reveal_strlit(" id");
    }
    match single_word_str(rest) {
        Ok(id) => {
            proof {
                crate::text::lemma_single_word_shape(rest@);
            }
            Some(owned(id))
        },
        Err(WordError::Missing) => {
            let message = concat3(concat2("missing ", noun).as_str(), " id after ", annotation);
            proof {
                assert(message@ =~= "missing "@ + noun@ + " id after "@ + annotation@);
            }
            arch_diag(parsed, path, line, message.as_str(), Ghost(start));
            None
        },
        Err(WordError::Trailing) => {
            let message = concat3(
                concat3("unexpected trailing content after ", annotation, " ").as_str(),
                noun,
                " id",
            );
            proof {
                assert(message@ =~= "unexpected trailing content after "@ + annotation@ + " "@ + noun@
                    + " id"@);
            }
            arch_diag(parsed, path, line, message.as_str(), Ghost(start));
            None
        },
    }
}

/// Reads the pattern id after `@pattern`, `@applies`, or `@fileapplies`.
pub fn parse_pattern_id(
    rest: &str,
    annotation: &str,
    parsed: &mut ParsedArchitecture,
    path: &str,
    line: usize,
    Ghost(start): Ghost<ParsedArchitecture>,
) -> (r: Option<String>)
    requires
        arch_growth(start, *old(parsed), path@),
    ensures
        arch_growth(start, *final(parsed), path@),
        same_entries(*old(parsed), *final(parsed)),
        match attachment_id(rest@, annotation@, "pattern"@) {
            Ok(id) => r matches Some(s) && s@ == id && id.len() > 0 && *final(parsed) == *old(parsed),
            Err(m) => r is None && final(parsed).diagnostics@.len() == old(parsed).diagnostics@.len() + 1
                && error_at(final(parsed).diagnostics@.last(), path@, line, m) && arch_diag_pushed(
                *old(parsed),
                *final(parsed),
                path@,
                line,
                m,
            ),
        },
{
    parse_attachment_id(rest, annotation, "pattern", parsed, path, line, Ghost(start))
}

/// Reads the module id after `@implements` or `@fileimplements`.
pub fn parse_implements_module_id(
    rest: &str,
    annotation: &str,
    parsed: &mut ParsedArchitecture,
    path: &str,
    line: usize,
    Ghost(start): Ghost<ParsedArchitecture>,
) -> (r: Option<String>)
    requires
        arch_growth(start, *old(parsed), path@),
    ensures
        arch_growth(start, *final(parsed), path@),
        same_entries(*old(parsed), *final(parsed)),
        match attachment_id(rest@, annotation@, "module"@) {
            Ok(id) => r matches Some(s) && s@ == id && id.len() > 0 && *final(parsed) == *old(parsed),
            Err(m) => r is None && final(parsed).diagnostics@.len() == old(parsed).diagnostics@.len() + 1
                && error_at(final(parsed).diagnostics@.last(), path@, line, m) && arch_diag_pushed(
                *old(parsed),
                *final(parsed),
                path@,
                line,
                m,
            ),
        },
{
    parse_attachment_id(rest, annotation, "module", parsed, path, line, Ghost(start))
}

/// A module header: an id with an optional trailing `@planned` marker and
/// release. A deprecated marker, or a planned area, is refused.
pub open spec fn module_header_spec(kind: ArchitectureKind, rest: Seq<char>) -> Result<
    (Seq<char>, Option<Seq<char>>, bool),
    Seq<char>,
> {
    let ann = architecture_annotation(kind);
    match decl_header_spec(trim(rest), PlannedSyntax::AdjacentOwnedSpec) {
        Err(DeclHeaderError::MissingId) => Err("missing module id after "@ + ann),
        Err(DeclHeaderError::InvalidTrailingContent) => Err("unexpected trailing content after "@ + ann
            + " id; use an exact trailing `@planned` marker if needed"@),
        Err(DeclHeaderError::InvalidPlannedRelease) => Err("planned release metadata must not be empty"@),
        Err(DeclHeaderError::InvalidDeprecatedRelease) => Err(
            "unexpected trailing content after module id; only `@planned` is supported on module declarations"@,
        ),
        Ok(h) => if h.deprecated {
            Err("@deprecated may only apply to @spec, not "@ + ann)
        } else if h.planned && kind != ArchitectureKind::Module {
            Err("@planned may only apply to @module, not "@ + ann)
        } else {
            Ok((h.id, h.planned_release, h.planned))
        },
    }
}

/// Reads a `@module` or `@area` header, reporting what it refuses.
pub fn parse_module_header(
    kind: ArchitectureKind,
    rest: &str,
    parsed: &mut ParsedArchitecture,
    path: &str,
    line: usize,
    Ghost(start): Ghost<ParsedArchitecture>,
) -> (r: Option<(String, Option<PlannedRelease>, bool)>)
    requires
        arch_growth(start, *old(parsed), path@),
    ensures
        arch_growth(start, *final(parsed), path@),
        same_entries(*old(parsed), *final(parsed)),
        match module_header_spec(kind, rest@) {
            Ok((id, rel, planned)) => r matches Some((s, rr, p)) && s@ == id && id.len() > 0
                && planned_release_view(rr) == rel && p == planned && *final(parsed) == *old(parsed),
            Err(m) => r is None && final(parsed).diagnostics@.len() == old(parsed).diagnostics@.len() + 1
                && error_at(final(parsed).diagnostics@.last(), path@, line, m) && arch_diag_pushed(
                *old(parsed),
                *final(parsed),
                path@,
                line,
                m,
            ),
        },
{
    proof {
        reveal_strlit("missing module id after ");
        reveal_strlit("unexpected trailing content after ");
        reveal_strlit(" id; use an exact trailing `@planned` marker if needed");
        reveal_strlit("@deprecated may only apply to @spec, not ");
        reveal_strlit("@planned may only apply to @module, not ");
    }
    let ann = kind.as_annotation();
    let header = match parse_decl_header(trim_str(rest), PlannedSyntax::AdjacentOwnedSpec) {
        Ok(h) => h,
        Err(DeclHeaderError::MissingId) => {
            let m = concat2("missing module id after ", ann);
            arch_diag(parsed, path, line, m.as_str(), Ghost(start));
            return None;
        },
        Err(DeclHeaderError::InvalidTrailingContent) => {
            let m = concat3(
                "unexpected trailing content after ",
                ann,
                " id; use an exact trailing `@planned` marker if needed",
            );
            arch_diag(parsed, path, line, m.as_str(), Ghost(start));
            return None;
        },
        Err(DeclHeaderError::InvalidPlannedRelease) => {
            arch_diag(parsed, path, line, "planned release metadata must not be empty", Ghost(start));
            return None;
        },
        Err(DeclHeaderError::InvalidDeprecatedRelease) => {
            arch_diag(
                parsed,
                path,
                line,
                "unexpected trailing content after module id; only `@planned` is supported on module declarations",
                Ghost(start),
            );
            return None;
        },
    };
    if header.deprecated {
        let m = concat2("@deprecated may only apply to @spec, not ", ann);
        arch_diag(parsed, path, line, m.as_str(), Ghost(start));
        return None;
    }
    if header.planned && kind != ArchitectureKind::Module {
        let m = concat2("@planned may only apply to @module, not ", ann);
        arch_diag(parsed, path, line, m.as_str(), Ghost(start));
        return None;
    }
    proof {
        lemma_header_id_nonempty(trim(rest@));
    }
    Some((header.id, header.planned_release, header.planned))
}

proof fn lemma_header_id_nonempty(rest: Seq<char>)
    requires
        decl_header_spec(rest, PlannedSyntax::AdjacentOwnedSpec) is Ok,
    ensures
        decl_header_spec(rest, PlannedSyntax::AdjacentOwnedSpec)->Ok_0.id.len() > 0,
{
    crate::text::lemma_first_word_shape(rest);
}

/// A standalone `@planned` line after a module declaration.
pub enum StandalonePlanned {
    Absent,
    Parsed(Option<PlannedRelease>),
    Invalid,
}

/// What a standalone `@planned` line says for a declaration of `kind`:
/// absent, a release for a module, or the message that refuses it.
pub open spec fn standalone_planned_spec(kind: ArchitectureKind, text: Seq<char>) -> Option<
    Result<Option<Seq<char>>, Seq<char>>,
> {
    match marker_line_spec(text, "@planned"@) {
        None => None,
        Some(Ok(rel)) => if kind != ArchitectureKind::Module {
            Some(Err("@planned may only apply to @module, not "@ + architecture_annotation(kind)))
        } else {
            Some(Ok(rel))
        },
        Some(Err(PlannedAnnotationError::InvalidRelease)) => Some(Err("planned release metadata must not be empty"@)),
        Some(Err(PlannedAnnotationError::InvalidSuffix)) => Some(
            Err("use an exact standalone `@planned` marker with no trailing suffix"@),
        ),
    }
}

/// Reads a standalone `@planned` line, reporting a refused one.
pub fn maybe_consume_standalone_planned(
    kind: ArchitectureKind,
    text: &str,
    parsed: &mut ParsedArchitecture,
    path: &str,
    line: usize,
    Ghost(start): Ghost<ParsedArchitecture>,
) -> (r: StandalonePlanned)
    requires
        arch_growth(start, *old(parsed), path@),
    ensures
        arch_growth(start, *final(parsed), path@),
        same_entries(*old(parsed), *final(parsed)),
        match standalone_planned_spec(kind, text@) {
            None => r is Absent && *final(parsed) == *old(parsed),
            Some(Ok(rel)) => r matches StandalonePlanned::Parsed(rr) && planned_release_view(rr) == rel
                && *final(parsed) == *old(parsed),
            Some(Err(m)) => r is Invalid && final(parsed).diagnostics@.len() == old(parsed).diagnostics@.len()
                + 1 && error_at(final(parsed).diagnostics@.last(), path@, line, m) && arch_diag_pushed(
                *old(parsed),
                *final(parsed),
                path@,
                line,
                m,
            ),
        },
{
    proof {
        reveal_strlit("@planned may only apply to @module, not ");
    }
    let result = match parse_planned_annotation(text) {
        Some(r) => r,
        None => return StandalonePlanned::Absent,
    };
    match result {
        Ok(release) => {
            if kind != ArchitectureKind::Module {
                let m = concat2("@planned may only apply to @module, not ", kind.as_annotation());
                arch_diag(parsed, path, line, m.as_str(), Ghost(start));
                return StandalonePlanned::Invalid;
            }
            StandalonePlanned::Parsed(release)
        },
        Err(PlannedAnnotationError::InvalidRelease) => {
            arch_diag(parsed, path, line, "planned release metadata must not be empty", Ghost(start));
            StandalonePlanned::Invalid
        },
        Err(PlannedAnnotationError::InvalidSuffix) => {
            arch_diag(
                parsed,
                path,
                line,
                "use an exact standalone `@planned` marker with no trailing suffix",
                Ghost(start),
            );
            StandalonePlanned::Invalid
        },
    }
}

pub open spec fn strictness_message() -> Seq<char> {
    "@strictness must be one of high, medium, or low"@
}

/// What a `@strictness` annotation says: `None` when the line is not one; a
/// word other than a level, or anything but one word, reads as medium with
/// a message.
pub open spec fn strictness_spec(annotation: Seq<char>) -> Option<(PatternStrictness, bool)> {
    match reserved_rest(annotation, ReservedSpecialAnnotation::Strictness) {
        None => None,
        Some(rest) => match single_word(rest) {
            Ok(w) => if w == "high"@ {
                Some((PatternStrictness::High, false))
            } else if w == "medium"@ {
                Some((PatternStrictness::Medium, false))
            } else if w == "low"@ {
                Some((PatternStrictness::Low, false))
            } else {
                Some((PatternStrictness::Medium, true))
            },
            Err(_) => Some((PatternStrictness::Medium, true)),
        },
    }
}

/// Reads a `@strictness` line after a pattern declaration.
pub fn maybe_consume_pattern_strictness(
    annotation: Option<&str>,
    parsed: &mut ParsedArchitecture,
    path: &str,
    line: usize,
    Ghost(start): Ghost<ParsedArchitecture>,
) -> (r: Option<PatternStrictness>)
    requires
        arch_growth(start, *old(parsed), path@),
    ensures
        arch_growth(start, *final(parsed), path@),
        same_entries(*old(parsed), *final(parsed)),
        match annotation {
            None => r is None && *final(parsed) == *old(parsed),
            Some(a) => match strictness_spec(a@) {
                None => r is None && *final(parsed) == *old(parsed),
                Some((s, reported)) => r == Some(s) && (!reported ==> *final(parsed) == *old(parsed))
                    && (reported ==> final(parsed).diagnostics@.len() == old(parsed).diagnostics@.len() + 1
                    && error_at(final(parsed).diagnostics@.last(), path@, line, strictness_message())
                    && arch_diag_pushed(*old(parsed), *final(parsed), path@, line, strictness_message())),
            },
        },
{
    proof {
        reveal_strlit("high");
        reveal_strlit("medium");
        reveal_strlit("low");
    }
    let a = match annotation {
        Some(a) => a,
        None => return None,
    };
    let rest = match reserved_special_annotation_rest(a, ReservedSpecialAnnotation::Strictness) {
        Some(rest) => rest,
        None => return None,
    };
    match single_word_str(rest) {
        Ok(value) => match PatternStrictness::parse(value) {
            Some(s) => {
                proof {
                    assert(strictness_label(s) == value@);
                }
                Some(s)
            },
            None => {
                proof {
                    assert(strictness_label(PatternStrictness::High) != value@);
                    assert(strictness_label(PatternStrictness::Medium) != value@);
                    assert(strictness_label(PatternStrictness::Low) != value@);
                }
                arch_diag(parsed, path, line, "@strictness must be one of high, medium, or low", Ghost(start));
                Some(PatternStrictness::Medium)
            },
        },
        Err(_) => {
            arch_diag(parsed, path, line, "@strictness must be one of high, medium, or low", Ghost(start));
            Some(PatternStrictness::Medium)
        },
    }
}

/// A description line without a leading list bullet (`- ` or `* `).
pub open spec fn strip_list_bullet(t: Seq<char>) -> Seq<char> {
    if "- "@.is_prefix_of(t) || "* "@.is_prefix_of(t) {
        t.skip(2)
    } else {
        t
    }
}

fn strip_markdown_prefix(text: &str) -> (r: &str)
    ensures
        r@ == strip_list_bullet(text@),
{
    proof {
        reveal_strlit("- ");
        reveal_strlit("* ");
    }
    if crate::text::starts_with_str(text, "- ") || crate::text::starts_with_str(text, "* ") {
        let len = text.unicode_len();
        proof {
            assert(text@.subrange(2, len as int) =~= text@.skip(2));
        }
        text.substring_char(2, len)
    } else {
        text
    }
}

/// The description after an architecture declaration from line `c`: the
/// trimmed lines, without list bullets, up to the next declaration, a
/// second-level or deeper heading, a tag, or a blank line once text has
/// started. Also gives the index where the description ends.
pub open spec fn doc_description_from(lines: Seq<BlockLine>, c: int, started: bool) -> (Seq<Seq<char>>, int)
    decreases lines.len() - c,
{
    if c < 0 || c >= lines.len() {
        (Seq::empty(), c)
    } else {
        let raw = lines[c].text@;
        let t = trim(raw);
        if architecture_heading(raw) is Some {
            (Seq::empty(), c)
        } else if t.len() == 0 {
            if started {
                (Seq::empty(), c)
            } else {
                doc_description_from(lines, c + 1, started)
            }
        } else if "##"@.is_prefix_of(t) || tag_boundary(t) {
            (Seq::empty(), c)
        } else {
            let (d, e) = doc_description_from(lines, c + 1, true);
            (seq![strip_list_bullet(t)] + d, e)
        }
    }
}

/// Collects the description lines that start at `cursor`.
pub fn collect_doc_description_lines(lines: &Vec<BlockLine>, cursor: usize) -> (r: (Vec<String>, usize))
    requires
        cursor <= lines@.len(),
    ensures
        doc_description_from(lines@, cursor as int, false) == (string_views(r.0@), r.1 as int),
        cursor <= r.1 <= lines@.len(),
{
    proof {
        reveal_strlit("##");
    }
    let mut out: Vec<String> = Vec::new();
    let mut c = cursor;
    while c < lines.len()
        invariant
            cursor <= c <= lines@.len(),
            doc_description_from(lines@, cursor as int, false) == (
                string_views(out@) + doc_description_from(lines@, c as int, out@.len() > 0).0,
                doc_description_from(lines@, c as int, out@.len() > 0).1,
            ),
        ensures
            cursor <= c <= lines@.len(),
            doc_description_from(lines@, cursor as int, false) == (
                string_views(out@) + doc_description_from(lines@, c as int, out@.len() > 0).0,
                doc_description_from(lines@, c as int, out@.len() > 0).1,
            ),
            doc_description_from(lines@, c as int, out@.len() > 0) == (Seq::<Seq<char>>::empty(), c as int),
        decreases lines@.len() - c,
    {
        let raw = lines[c].text.as_str();
        let ghost before = out@;
        if normalized_architecture_heading(raw).is_some() {
            break;
        }
        let trimmed = trim_str(raw);
        if trimmed.unicode_len() == 0 {
            if out.len() > 0 {
                break;
            }
            c = c + 1;
            continue;
        }
        if crate::text::starts_with_str(trimmed, "##") || is_any_tag_boundary(trimmed) {
            break;
        }
        let text = strip_markdown_prefix(trimmed);
        out.push(owned(text));
        proof {
            let tail = doc_description_from(lines@, c + 1, true);
            assert(string_views(out@) + tail.0 =~= string_views(before) + (seq![text@] + tail.0));
        }
        c = c + 1;
    }
    proof {
        assert(string_views(out@) + Seq::<Seq<char>>::empty() =~= string_views(out@));
    }
    (out, c)
}

/// The `@implements` or `@fileimplements` attachment on a trimmed comment
/// line: the text after the tag and whether it covers the whole file.
pub open spec fn implements_annotation(t: Seq<char>) -> Option<(Seq<char>, bool)> {
    match reserved_rest(t, ReservedSpecialAnnotation::Implements) {
        Some(rest) => Some((rest, false)),
        None => match reserved_rest(t, ReservedSpecialAnnotation::FileImplements) {
            Some(rest) => Some((rest, true)),
            None => None,
        },
    }
}

/// Whether line `i` of a comment block lies inside a code fence opened by
/// an earlier line.
pub open spec fn comment_fence_before(lines: Seq<BlockLine>, i: int) -> bool
    decreases i,
{
    if i <= 0 {
        false
    } else {
        comment_fence_before(lines, i - 1) != fence_line(trim(lines[i - 1].text@))
    }
}

/// An attachment as its entries: module id, line, and the line and text of
/// the body it covers (none for a file-wide one).
pub open spec fn implement_entry(r: ImplementRef) -> (Seq<char>, (Seq<char>, usize), Option<(Seq<char>, usize)>, Option<Seq<char>>) {
    (r.module_id@, loc_entry(r.location), body_loc(r.body_location), crate::parser::decls::opt_string_view(r.body))
}

/// A location as its path and line.
pub open spec fn loc_entry(l: SourceLocation) -> (Seq<char>, usize) {
    (l.path@, l.line)
}

/// An optional location as its path and line.
pub open spec fn body_loc(l: Option<SourceLocation>) -> Option<(Seq<char>, usize)> {
    match l {
        Some(x) => Some(loc_entry(x)),
        None => None,
    }
}

/// The message for an item-scoped attachment on a block that documents no
/// item.
pub open spec fn unattached_implements_message() -> Seq<char> {
    "@implements must attach to the next supported item"@
}

/// What line `k` of a comment block records: nothing (a line inside a code
/// fence, or no attachment), an attachment as its entries, or an error
/// message (a bad id, or an item-scoped attachment on a block that
/// documents no item).
pub open spec fn implement_of_line(block: CommentBlock, k: int) -> Option<
    Result<(Seq<char>, (Seq<char>, usize), Option<(Seq<char>, usize)>, Option<Seq<char>>), Seq<char>>,
> {
    let t = trim(block.lines@[k].text@);
    let line = block.lines@[k].line;
    if fence_line(t) || comment_fence_before(block.lines@, k) {
        None
    } else {
        match implements_annotation(t) {
            None => None,
            Some((rest, file_scoped)) => match attachment_id(
                rest,
                if file_scoped {
                    "@fileimplements"@
                } else {
                    "@implements"@
                },
                "module"@,
            ) {
                Err(m) => Some(Err(m)),
                Ok(id) => if file_scoped {
                    Some(Ok((id, (block.path@, line), None, None)))
                } else {
                    match block.owned_item {
                        Some(item) => Some(Ok((id, (block.path@, line), Some(loc_entry(item.location)), Some(item.body@)))),
                        None => Some(Err(unattached_implements_message())),
                    }
                },
            },
        }
    }
}

/// The attachments that the first `n` lines of a comment block record, in
/// line order.
pub open spec fn implements_of(block: CommentBlock, n: int) -> Seq<(Seq<char>, (Seq<char>, usize), Option<(Seq<char>, usize)>, Option<Seq<char>>)>
    decreases n,
{
    if n <= 0 {
        Seq::empty()
    } else {
        implements_of(block, n - 1) + match implement_of_line(block, n - 1) {
            Some(Ok(e)) => seq![e],
            _ => Seq::empty(),
        }
    }
}

/// The errors (path, line and message) that the first `n` lines of a comment
/// block report, in line order.
pub open spec fn implement_diags_of(block: CommentBlock, n: int) -> Seq<(Seq<char>, usize, Seq<char>)>
    decreases n,
{
    if n <= 0 {
        Seq::empty()
    } else {
        implement_diags_of(block, n - 1) + match implement_of_line(block, n - 1) {
            Some(Err(m)) => seq![(block.path@, block.lines@[n - 1].line, m)],
            _ => Seq::empty(),
        }
    }
}

/// Records the `@implements` and `@fileimplements` attachments of one
/// comment block. An item-scoped one takes the documented item's location
/// and body, and is reported when the block documents no item. The
/// attachments added, and the errors reported, are exactly those the
/// block's lines record, in order.
pub fn parse_implements_refs(block: &CommentBlock, parsed: &mut ParsedArchitecture)
    ensures
        arch_growth(*old(parsed), *final(parsed), block.path@),
        final(parsed).modules == old(parsed).modules,
        final(parsed).patterns == old(parsed).patterns,
        final(parsed).pattern_applications == old(parsed).pattern_applications,
        forall|i: int|
            old(parsed).implements@.len() <= i < final(parsed).implements@.len() ==> match (#[trigger] final(parsed).implements@[i]).body_location {
                Some(loc) => block.owned_item matches Some(item) && loc == item.location,
                None => true,
            },
        (forall|i: int| 0 <= i < block.lines@.len() ==> implements_annotation(trim(#[trigger] block.lines@[i].text@)) is None)
            ==> *final(parsed) == *old(parsed),
        final(parsed).implements@.map_values(|r: ImplementRef| implement_entry(r)) == old(parsed).implements@.map_values(
            |r: ImplementRef| implement_entry(r),
        ) + implements_of(*block, block.lines@.len() as int),
        arch_diags(final(parsed).diagnostics@) == arch_diags(
            old(parsed).diagnostics@,
        ) + implement_diags_of(*block, block.lines@.len() as int),
{
    let ghost start = *parsed;
    proof {
        lemma_arch_growth_refl(start, block.path@);
    }
    let mut in_code_fence = false;
    let mut i: usize = 0;
    while i < block.lines.len()
        invariant
            i <= block.lines@.len(),
            arch_growth(start, *parsed, block.path@),
            parsed.modules == start.modules,
            parsed.patterns == start.patterns,
            parsed.pattern_applications == start.pattern_applications,
            start == *old(parsed),
            forall|k: int|
                start.implements@.len() <= k < parsed.implements@.len() ==> match (#[trigger] parsed.implements@[k]).body_location {
                    Some(loc) => block.owned_item matches Some(item) && loc == item.location,
                    None => true,
                },
            (forall|k: int| 0 <= k < block.lines@.len() ==> implements_annotation(trim(#[trigger] block.lines@[k].text@)) is None)
                ==> *parsed == start,
            in_code_fence == comment_fence_before(block.lines@, i as int),
            parsed.implements@.map_values(|r: ImplementRef| implement_entry(r)) == start.implements@.map_values(
                |r: ImplementRef| implement_entry(r),
            ) + implements_of(*block, i as int),
            arch_diags(parsed.diagnostics@) == arch_diags(
                start.diagnostics@,
            ) + implement_diags_of(*block, i as int),
        decreases block.lines@.len() - i,
    {
        let entry = &block.lines[i];
        let trimmed = trim_str(entry.text.as_str());
        let ghost before = *parsed;
        let ghost es = start.implements@.map_values(|r: ImplementRef| implement_entry(r));
        let ghost ds = arch_diags(start.diagnostics@);
        proof {
            assert(implements_of(*block, i as int + 1) == implements_of(*block, i as int) + match implement_of_line(*block, i as int) {
                Some(Ok(e)) => seq![e],
                _ => Seq::<(Seq<char>, (Seq<char>, usize), Option<(Seq<char>, usize)>, Option<Seq<char>>)>::empty(),
            });
            assert(implement_diags_of(*block, i as int + 1) == implement_diags_of(*block, i as int) + match implement_of_line(*block, i as int) {
                Some(Err(m)) => seq![(block.path@, block.lines@[i as int].line, m)],
                _ => Seq::<(Seq<char>, usize, Seq<char>)>::empty(),
            });
        }
        if starts_markdown_fence(trimmed) {
            in_code_fence = !in_code_fence;
            proof {
                assert(implements_of(*block, i as int + 1) =~= implements_of(*block, i as int));
                assert(implement_diags_of(*block, i as int + 1) =~= implement_diags_of(*block, i as int));
            }
            i = i + 1;
            continue;
        }
        if in_code_fence {
            proof {
                assert(implements_of(*block, i as int + 1) =~= implements_of(*block, i as int));
                assert(implement_diags_of(*block, i as int + 1) =~= implement_diags_of(*block, i as int));
            }
            i = i + 1;
            continue;
        }
        let (rest, file_scoped, annotation) = match reserved_special_annotation_rest(
            trimmed,
            ReservedSpecialAnnotation::Implements,
        ) {
            Some(rest) => (rest, false, "@implements"),
            None => match reserved_special_annotation_rest(trimmed, ReservedSpecialAnnotation::FileImplements) {
                Some(rest) => (rest, true, "@fileimplements"),
                None => {
                    proof {
                        assert(implements_of(*block, i as int + 1) =~= implements_of(*block, i as int));
                        assert(implement_diags_of(*block, i as int + 1) =~= implement_diags_of(*block, i as int));
                    }
                    i = i + 1;
                    continue;
                },
            },
        };
        proof {
            assert(implements_annotation(trim(block.lines@[i as int].text@)) is Some);
            assert(implements_annotation(trim(block.lines@[i as int].text@)) == Some((rest@, file_scoped)));
        }
        let module_id = match parse_implements_module_id(
            rest,
            annotation,
            parsed,
            block.path.as_str(),
            entry.line,
            Ghost(start),
        ) {
            Some(id) => id,
            None => {
                proof {
                    let m = implement_of_line(*block, i as int)->0->Err_0;
                    assert(implements_of(*block, i as int + 1) =~= implements_of(*block, i as int));
                    assert(parsed.implements@ == before.implements@);
                    lemma_arch_diags_pushed(before, *parsed, block.path@, entry.line, m);
                    assert(implement_diags_of(*block, i as int + 1) =~= implement_diags_of(*block, i as int).push((block.path@, entry.line, m)));
                    assert(arch_diags(parsed.diagnostics@) =~= ds + implement_diags_of(*block, i as int + 1));
                }
                i = i + 1;
                continue;
            },
        };
        let (body_location, body) = if file_scoped {
            (None, None)
        } else {
            match &block.owned_item {
                Some(item) => (Some(item.location.clone()), Some(item.body.clone())),
                None => {
                    arch_diag(
                        parsed,
                        block.path.as_str(),
                        entry.line,
                        "@implements must attach to the next supported item",
                        Ghost(start),
                    );
                    proof {
                        let m = unattached_implements_message();
                        assert(implement_of_line(*block, i as int) == Some(Err::<(Seq<char>, (Seq<char>, usize), Option<(Seq<char>, usize)>, Option<Seq<char>>), Seq<char>>(m)));
                        assert(implements_of(*block, i as int + 1) =~= implements_of(*block, i as int));
                        lemma_arch_diags_pushed(before, *parsed, block.path@, entry.line, m);
                        assert(implement_diags_of(*block, i as int + 1) =~= implement_diags_of(*block, i as int).push((block.path@, entry.line, m)));
                        assert(arch_diags(parsed.diagnostics@) =~= ds + implement_diags_of(*block, i as int + 1));
                    }
                    i = i + 1;
                    continue;
                },
            }
        };
        let r = ImplementRef {
            module_id,
            location: SourceLocation { path: block.path.clone(), line: entry.line },
            body_location,
            body,
        };
        parsed.implements.push(r);
        proof {
            assert(parsed.implements@.take(before.implements@.len() as int) =~= before.implements@);
            assert(arch_growth(before, *parsed, block.path@)) by {
                assert(before.modules@.take(before.modules@.len() as int) =~= before.modules@);
                assert(before.patterns@.take(before.patterns@.len() as int) =~= before.patterns@);
                assert(before.pattern_applications@.take(before.pattern_applications@.len() as int)
                    =~= before.pattern_applications@);
                assert(before.diagnostics@.take(before.diagnostics@.len() as int) =~= before.diagnostics@);
            }
            lemma_arch_growth_trans(start, before, *parsed, block.path@);
            assert forall|k: int|
                start.implements@.len() <= k < parsed.implements@.len() implies match (#[trigger] parsed.implements@[k]).body_location {
                    Some(loc) => block.owned_item matches Some(item) && loc == item.location,
                    None => true,
                } by {
                if k < before.implements@.len() {
                    assert(parsed.implements@[k] == before.implements@[k]);
                }
            }
            let e = implement_entry(r);
            assert(implement_of_line(*block, i as int) == Some(Ok::<(Seq<char>, (Seq<char>, usize), Option<(Seq<char>, usize)>, Option<Seq<char>>), Seq<char>>(e)));
            assert(implements_of(*block, i as int + 1) =~= implements_of(*block, i as int).push(e));
            assert(implement_diags_of(*block, i as int + 1) =~= implement_diags_of(*block, i as int));
            assert(parsed.implements@ =~= before.implements@.push(r));
            assert(parsed.implements@.map_values(|r: ImplementRef| implement_entry(r)) =~= before.implements@.map_values(
                |r: ImplementRef| implement_entry(r),
            ).push(e));
            assert(parsed.implements@.map_values(|r: ImplementRef| implement_entry(r)) =~= es + implements_of(*block, i as int + 1));
        }
        i = i + 1;
    }
}

} // verus!
