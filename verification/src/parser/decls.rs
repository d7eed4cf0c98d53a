//! Spec declaration semantics shared by source comment blocks and markdown:
//! header validation, adjacent lifecycle markers, and final construction.
use vstd::prelude::*;

use crate::model::core_types::{
    DeprecatedRelease, NodeKind, PlanState, PlannedRelease, SourceLocation,
    deprecated_release_view, empty_deprecated_release_message, empty_planned_release_message,
    node_annotation, planned_release_view,
};
use crate::model::spec::{SpecDecl, SpecDeclView, lifecycle_error};
use crate::planned_syntax::{
    DeclHeaderError, DeclHeaderView, ParsedDeclHeader, PlannedAnnotationError, PlannedSyntax,
    decl_header_spec, header_view, marker_line_spec, parse_decl_header,
    parse_deprecated_annotation, parse_planned_annotation,
};
use crate::text::{concat2, trim, trim_str};

verus! {

/// What the line after a declaration says about lifecycle.
#[derive(Debug, Clone, Copy, PartialEq, Eq, Structural)]
pub enum AdjacentLifecycle {
    Absent,
    Parsed,
    Invalid,
}

/// Lifecycle markers found on the lines after a declaration header.
#[derive(Debug)]
pub struct SpecLifecycleMarkers {
    pub planned: bool,
    pub planned_release: Option<PlannedRelease>,
    pub deprecated: bool,
    pub deprecated_release: Option<DeprecatedRelease>,
}

pub open spec fn invalid_trailing_message(kind: NodeKind, syntax: PlannedSyntax) -> Seq<char> {
    match kind {
        NodeKind::Group => "unexpected trailing content after group id; only the id belongs on the @group line"@,
        NodeKind::Spec => match syntax {
            PlannedSyntax::LegacyBackward => "unexpected trailing content after spec id; compatibility parsing does not allow inline lifecycle markers like `@planned` or `@deprecated`"@,
            PlannedSyntax::AdjacentOwnedSpec => "unexpected trailing content after spec id; use an exact trailing `@planned` or `@deprecated` marker if needed"@,
        },
    }
}

pub open spec fn header_error_message(kind: NodeKind, syntax: PlannedSyntax, e: DeclHeaderError) -> Seq<char> {
    match e {
        DeclHeaderError::MissingId => "missing spec id after "@ + node_annotation(kind),
        DeclHeaderError::InvalidTrailingContent => invalid_trailing_message(kind, syntax),
        DeclHeaderError::InvalidPlannedRelease => empty_planned_release_message(),
        DeclHeaderError::InvalidDeprecatedRelease => empty_deprecated_release_message(),
    }
}

pub open spec fn group_planned_message() -> Seq<char> {
    "@planned may only apply to @spec, not @group"@
}

pub open spec fn group_deprecated_message() -> Seq<char> {
    "@deprecated may only apply to @spec, not @group"@
}

/// A `@spec` or `@group` header: the parsed header and an advisory message,
/// or the error message. Lifecycle markers on a group are dropped with a
/// message; the group itself is kept.
pub open spec fn spec_header_spec(kind: NodeKind, rest: Seq<char>, syntax: PlannedSyntax) -> Result<(DeclHeaderView, Option<Seq<char>>), Seq<char>> {
    match decl_header_spec(trim(rest), syntax) {
        Err(e) => Err(header_error_message(kind, syntax, e)),
        Ok(h) => if kind == NodeKind::Group && h.planned {
            Ok((DeclHeaderView { planned: false, ..h }, Some(group_planned_message())))
        } else if kind == NodeKind::Group && h.deprecated {
            Ok((DeclHeaderView { deprecated: false, ..h }, Some(group_deprecated_message())))
        } else {
            Ok((h, None))
        },
    }
}

pub open spec fn opt_string_view(o: Option<String>) -> Option<Seq<char>> {
    match o {
        Some(s) => Some(s@),
        None => None,
    }
}

fn invalid_trailing_content_message(kind: NodeKind, planned: PlannedSyntax) -> (r: &'static str)
    ensures
        r@ == invalid_trailing_message(kind, planned),
{
    match kind {
        NodeKind::Group => "unexpected trailing content after group id; only the id belongs on the @group line",
        NodeKind::Spec => match planned {
            PlannedSyntax::LegacyBackward => "unexpected trailing content after spec id; compatibility parsing does not allow inline lifecycle markers like `@planned` or `@deprecated`",
            PlannedSyntax::AdjacentOwnedSpec => "unexpected trailing content after spec id; use an exact trailing `@planned` or `@deprecated` marker if needed",
        },
    }
}

/// Parses a `@spec`/`@group` header.
pub fn parse_spec_decl_header(kind: NodeKind, rest: &str, planned: PlannedSyntax) -> (r: Result<
    (ParsedDeclHeader, Option<String>),
    String,
>)
    ensures
        match r {
            Ok((h, msg)) => spec_header_spec(kind, rest@, planned) == Ok::<
                (DeclHeaderView, Option<Seq<char>>),
                Seq<char>,
            >((header_view(h), opt_string_view(msg))),
            Err(m) => spec_header_spec(kind, rest@, planned) == Err::<
                (DeclHeaderView, Option<Seq<char>>),
                Seq<char>,
            >(m@),
        },
{
    let rest = trim_str(rest);
    let mut header = match parse_decl_header(rest, planned) {
        Ok(header) => header,
        Err(DeclHeaderError::MissingId) => {
            return Err(concat2("missing spec id after ", kind.as_annotation()));
        },
        Err(DeclHeaderError::InvalidTrailingContent) => {
            return Err(invalid_trailing_content_message(kind, planned).to_owned());
        },
        Err(DeclHeaderError::InvalidPlannedRelease) => {
            return Err("planned release metadata must not be empty".to_owned());
        },
        Err(DeclHeaderError::InvalidDeprecatedRelease) => {
            return Err("deprecated release metadata must not be empty".to_owned());
        },
    };
    if kind == NodeKind::Group {
        if header.planned {
            header.planned = false;
            return Ok((header, Some("@planned may only apply to @spec, not @group".to_owned())));
        }
        if header.deprecated {
            header.deprecated = false;
            return Ok(
                (header, Some("@deprecated may only apply to @spec, not @group".to_owned())),
            );
        }
    }
    Ok((header, None))
}

pub open spec fn inexact_marker_message(planned: bool) -> Seq<char> {
    if planned {
        "use an exact standalone `@planned` marker with no trailing suffix"@
    } else {
        "use an exact standalone `@deprecated` marker with no trailing suffix"@
    }
}

pub open spec fn marker_tag(planned: bool) -> Seq<char> {
    if planned {
        "@planned"@
    } else {
        "@deprecated"@
    }
}

/// What the line after a declaration says about one lifecycle marker: only
/// under version 1 and only for `@spec`.
pub open spec fn adjacent_marker_spec(kind: NodeKind, text: Seq<char>, syntax: PlannedSyntax, planned: bool) -> (AdjacentLifecycle, Option<Seq<char>>, Option<Seq<char>>) {
    if syntax != PlannedSyntax::AdjacentOwnedSpec || kind != NodeKind::Spec {
        (AdjacentLifecycle::Absent, None, None)
    } else {
        match marker_line_spec(text, marker_tag(planned)) {
            None => (AdjacentLifecycle::Absent, None, None),
            Some(Ok(rel)) => (AdjacentLifecycle::Parsed, rel, None),
            Some(Err(PlannedAnnotationError::InvalidRelease)) => (
                AdjacentLifecycle::Invalid,
                None,
                Some(
                    if planned {
                        empty_planned_release_message()
                    } else {
                        empty_deprecated_release_message()
                    },
                ),
            ),
            Some(Err(PlannedAnnotationError::InvalidSuffix)) => (
                AdjacentLifecycle::Invalid,
                None,
                Some(inexact_marker_message(planned)),
            ),
        }
    }
}

pub open spec fn opt_static_view(o: Option<&'static str>) -> Option<Seq<char>> {
    match o {
        Some(s) => Some(s@),
        None => None,
    }
}

pub fn parse_adjacent_spec_planned(kind: NodeKind, text: &str, planned: PlannedSyntax) -> (r: (
    AdjacentLifecycle,
    Option<PlannedRelease>,
    Option<&'static str>,
))
    ensures
        adjacent_marker_spec(kind, text@, planned, true) == (
            r.0,
            planned_release_view(r.1),
            opt_static_view(r.2),
        ),
{
    if planned != PlannedSyntax::AdjacentOwnedSpec || kind != NodeKind::Spec {
        return (AdjacentLifecycle::Absent, None, None);
    }
    match parse_planned_annotation(text) {
        None => (AdjacentLifecycle::Absent, None, None),
        Some(Ok(release)) => (AdjacentLifecycle::Parsed, release, None),
        Some(Err(PlannedAnnotationError::InvalidRelease)) => (
            AdjacentLifecycle::Invalid,
            None,
            Some("planned release metadata must not be empty"),
        ),
        Some(Err(PlannedAnnotationError::InvalidSuffix)) => (
            AdjacentLifecycle::Invalid,
            None,
            Some("use an exact standalone `@planned` marker with no trailing suffix"),
        ),
    }
}

pub fn parse_adjacent_spec_deprecated(kind: NodeKind, text: &str, planned: PlannedSyntax) -> (r: (
    AdjacentLifecycle,
    Option<DeprecatedRelease>,
    Option<&'static str>,
))
    ensures
        adjacent_marker_spec(kind, text@, planned, false) == (
            r.0,
            deprecated_release_view(r.1),
            opt_static_view(r.2),
        ),
{
    if planned != PlannedSyntax::AdjacentOwnedSpec || kind != NodeKind::Spec {
        return (AdjacentLifecycle::Absent, None, None);
    }
    match parse_deprecated_annotation(text) {
        None => (AdjacentLifecycle::Absent, None, None),
        Some(Ok(release)) => (AdjacentLifecycle::Parsed, release, None),
        Some(Err(PlannedAnnotationError::InvalidRelease)) => (
            AdjacentLifecycle::Invalid,
            None,
            Some("deprecated release metadata must not be empty"),
        ),
        Some(Err(PlannedAnnotationError::InvalidSuffix)) => (
            AdjacentLifecycle::Invalid,
            None,
            Some("use an exact standalone `@deprecated` marker with no trailing suffix"),
        ),
    }
}

/// The declaration that a header and the markers after it describe: header
/// markers win over adjacent ones.
pub open spec fn decl_from_parts(
    h: DeclHeaderView,
    kind: NodeKind,
    text: Seq<char>,
    planned: bool,
    planned_release: Option<Seq<char>>,
    deprecated: bool,
    deprecated_release: Option<Seq<char>>,
    path: Seq<char>,
    line: usize,
) -> SpecDeclView {
    SpecDeclView {
        id: h.id,
        kind,
        text,
        planned: h.planned || planned,
        planned_release: if h.planned {
            h.planned_release
        } else if planned {
            planned_release
        } else {
            None
        },
        deprecated: h.deprecated || deprecated,
        deprecated_release: if h.deprecated {
            h.deprecated_release
        } else {
            deprecated_release
        },
        path,
        line,
    }
}

/// Builds the declaration; a lifecycle conflict gives its message.
pub fn build_spec_decl(
    header: ParsedDeclHeader,
    kind: NodeKind,
    text: String,
    lifecycle: SpecLifecycleMarkers,
    location: SourceLocation,
) -> (r: Result<SpecDecl, String>)
    ensures
        ({
            let d = decl_from_parts(
                header_view(header),
                kind,
                text@,
                lifecycle.planned,
                planned_release_view(lifecycle.planned_release),
                lifecycle.deprecated,
                deprecated_release_view(lifecycle.deprecated_release),
                location.path@,
                location.line,
            );
            match r {
                Ok(decl) => d.valid() && decl@ == d,
                Err(m) => lifecycle_error(d.kind, d.planned, d.deprecated, d.deprecated_release is Some)
                    == Some(m@),
            }
        }),
{
    let planned_release = if header.planned {
        header.planned_release
    } else {
        lifecycle.planned_release
    };
    let deprecated_release = if header.deprecated {
        header.deprecated_release
    } else {
        lifecycle.deprecated_release
    };
    let plan = if header.planned || lifecycle.planned {
        PlanState::planned(planned_release)
    } else {
        PlanState::current()
    };
    let is_deprecated = header.deprecated || lifecycle.deprecated;
    match SpecDecl::new(header.id, kind, text, plan, is_deprecated, deprecated_release, location) {
        Ok(d) => Ok(d),
        Err(e) => Err(e.to_string()),
    }
}

} // verus!
