//! Lifecycle marker syntax: `@planned` and `@deprecated`, alone on a line or
//! after the id of a declaration header.
use vstd::prelude::*;
use vstd::string::*;

use crate::model::core_types::{DeprecatedRelease, PlannedRelease, deprecated_release_view, planned_release_view};
use crate::text::{
    WordError, first_word, first_word_str, is_ws, is_whitespace, lemma_first_word_shape,
    single_word, single_word_str, starts_with_str, trim_start,
};

verus! {

/// Where lifecycle markers may stand, by configuration version.
#[derive(Debug, Clone, Copy, PartialEq, Eq, Structural)]
pub enum PlannedSyntax {
    /// Version 0: a marker later in the block applies to the last declaration.
    LegacyBackward,
    /// Version 1: a marker sits on the declaration line or the line after it.
    AdjacentOwnedSpec,
}

#[derive(Debug, Clone, Copy, PartialEq, Eq, Structural)]
pub enum DeclHeaderError {
    MissingId,
    InvalidTrailingContent,
    InvalidPlannedRelease,
    InvalidDeprecatedRelease,
}

#[derive(Debug, Clone, Copy, PartialEq, Eq, Structural)]
pub enum PlannedAnnotationError {
    InvalidRelease,
    InvalidSuffix,
}

/// What a declaration header says.
pub struct DeclHeaderView {
    pub id: Seq<char>,
    pub planned: bool,
    pub planned_release: Option<Seq<char>>,
    pub deprecated: bool,
    pub deprecated_release: Option<Seq<char>>,
}

pub open spec fn plain_header(id: Seq<char>) -> DeclHeaderView {
    DeclHeaderView {
        id,
        planned: false,
        planned_release: None,
        deprecated: false,
        deprecated_release: None,
    }
}

pub open spec fn marked_header(id: Seq<char>, planned: bool, release: Option<Seq<char>>) -> DeclHeaderView {
    DeclHeaderView {
        id,
        planned,
        planned_release: if planned { release } else { None },
        deprecated: !planned,
        deprecated_release: if planned { None } else { release },
    }
}

/// A declaration header: an id, and under version 1 optionally one exact
/// trailing `@planned` or `@deprecated` marker with an optional release.
pub open spec fn decl_header_spec(rest: Seq<char>, syntax: PlannedSyntax) -> Result<DeclHeaderView, DeclHeaderError> {
    match first_word(rest) {
        None => Err(DeclHeaderError::MissingId),
        Some((id, r1)) => match first_word(r1) {
            None => Ok(plain_header(id)),
            Some((m, r2)) => if syntax == PlannedSyntax::LegacyBackward {
                Err(DeclHeaderError::InvalidTrailingContent)
            } else if m == "@planned"@ || m == "@deprecated"@ {
                let planned = m == "@planned"@;
                match first_word(r2) {
                    None => Ok(marked_header(id, planned, None)),
                    Some((rel, r3)) => if first_word(r3) is None {
                        Ok(marked_header(id, planned, Some(rel)))
                    } else {
                        Err(DeclHeaderError::InvalidTrailingContent)
                    },
                }
            } else {
                Err(DeclHeaderError::InvalidTrailingContent)
            },
        },
    }
}

/// A parsed declaration header.
#[derive(Debug, Clone)]
pub struct ParsedDeclHeader {
    pub id: String,
    pub planned: bool,
    pub planned_release: Option<PlannedRelease>,
    pub deprecated: bool,
    pub deprecated_release: Option<DeprecatedRelease>,
}

pub open spec fn header_view(h: ParsedDeclHeader) -> DeclHeaderView {
    DeclHeaderView {
        id: h.id@,
        planned: h.planned,
        planned_release: planned_release_view(h.planned_release),
        deprecated: h.deprecated,
        deprecated_release: deprecated_release_view(h.deprecated_release),
    }
}

proof fn lemma_first_word_none_iff(s: Seq<char>)
    ensures
        (first_word(s) is None) == (trim_start(s).len() == 0),
{
}

/// Parses the text after `@spec`, `@group`, `@module`, or `@area`.
pub fn parse_decl_header(rest: &str, syntax: PlannedSyntax) -> (r: Result<ParsedDeclHeader, DeclHeaderError>)
    ensures
        match r {
            Ok(h) => decl_header_spec(rest@, syntax) == Ok::<DeclHeaderView, DeclHeaderError>(header_view(h)),
            Err(e) => decl_header_spec(rest@, syntax) == Err::<DeclHeaderView, DeclHeaderError>(e),
        },
{
    let (id, r1) = match first_word_str(rest) {
        None => return Err(DeclHeaderError::MissingId),
        Some(p) => p,
    };
    let (m, r2) = match first_word_str(r1) {
        None => {
            return Ok(
                ParsedDeclHeader {
                    id: id.to_owned(),
                    planned: false,
                    planned_release: None,
                    deprecated: false,
                    deprecated_release: None,
                },
            );
        },
        Some(p) => p,
    };
    if syntax == PlannedSyntax::LegacyBackward {
        return Err(DeclHeaderError::InvalidTrailingContent);
    }
    let is_planned = crate::text::str_eq(m, "@planned");
    let is_deprecated = crate::text::str_eq(m, "@deprecated");
    if !is_planned && !is_deprecated {
        return Err(DeclHeaderError::InvalidTrailingContent);
    }
    let release: Option<&str> = match first_word_str(r2) {
        None => None,
        Some((rel, r3)) => {
            if first_word_str(r3).is_some() {
                return Err(DeclHeaderError::InvalidTrailingContent);
            }
            Some(rel)
        },
    };
    if is_planned {
        let planned_release = match release {
            None => None,
            Some(rel) => {
                proof {
                    lemma_first_word_shape(r2@);
                }
                match PlannedRelease::new(rel) {
                    Ok(x) => Some(x),
                    Err(_) => return Err(DeclHeaderError::InvalidPlannedRelease),
                }
            },
        };
        Ok(
            ParsedDeclHeader {
                id: id.to_owned(),
                planned: true,
                planned_release,
                deprecated: false,
                deprecated_release: None,
            },
        )
    } else {
        let deprecated_release = match release {
            None => None,
            Some(rel) => {
                proof {
                    lemma_first_word_shape(r2@);
                }
                match DeprecatedRelease::new(rel) {
                    Ok(x) => Some(x),
                    Err(_) => return Err(DeclHeaderError::InvalidDeprecatedRelease),
                }
            },
        };
        Ok(
            ParsedDeclHeader {
                id: id.to_owned(),
                planned: false,
                planned_release: None,
                deprecated: true,
                deprecated_release,
            },
        )
    }
}

/// A standalone lifecycle marker line for the tag `tag`: exactly the tag,
/// or the tag, whitespace, and one release word.
pub open spec fn marker_line_spec(text: Seq<char>, tag: Seq<char>) -> Option<Result<Option<Seq<char>>, PlannedAnnotationError>> {
    if !tag.is_prefix_of(text) {
        None
    } else {
        let rest = text.skip(tag.len() as int);
        if rest.len() == 0 {
            Some(Ok(None))
        } else if !is_ws(rest[0]) {
            Some(Err(PlannedAnnotationError::InvalidSuffix))
        } else {
            match single_word(rest) {
                Ok(w) => Some(Ok(Some(w))),
                Err(WordError::Missing) => Some(Err(PlannedAnnotationError::InvalidRelease)),
                Err(WordError::Trailing) => Some(Err(PlannedAnnotationError::InvalidSuffix)),
            }
        }
    }
}

/// The optional release of a marker, when it parsed.
pub open spec fn marker_release<T: View<V = Seq<char>>>(r: Option<T>) -> Option<Seq<char>> {
    match r {
        Some(x) => Some(x@),
        None => None,
    }
}

fn marker_line<'a>(text: &'a str, tag: &str) -> (r: Option<Result<Option<&'a str>, PlannedAnnotationError>>)
    ensures
        match r {
            None => marker_line_spec(text@, tag@) is None,
            Some(Err(e)) => marker_line_spec(text@, tag@) == Some(
                Err::<Option<Seq<char>>, PlannedAnnotationError>(e),
            ),
            Some(Ok(rel)) => marker_line_spec(text@, tag@) == Some(
                Ok::<Option<Seq<char>>, PlannedAnnotationError>(marker_release(rel)),
            ),
        },
{
    if !starts_with_str(text, tag) {
        return None;
    }
    let n = tag.unicode_len();
    let len = text.unicode_len();
    if n == len {
        return Some(Ok(None));
    }
    if !is_whitespace(text.get_char(n)) {
        return Some(Err(PlannedAnnotationError::InvalidSuffix));
    }
    let rest = text.substring_char(n, len);
    proof {
        assert(rest@ =~= text@.skip(n as int));
    }
    match single_word_str(rest) {
        Ok(w) => Some(Ok(Some(w))),
        Err(WordError::Missing) => Some(Err(PlannedAnnotationError::InvalidRelease)),
        Err(WordError::Trailing) => Some(Err(PlannedAnnotationError::InvalidSuffix)),
    }
}

/// Reads a standalone `@planned` marker line.
pub fn parse_planned_annotation(text: &str) -> (r: Option<
    Result<Option<PlannedRelease>, PlannedAnnotationError>,
>)
    ensures
        match r {
            None => marker_line_spec(text@, "@planned"@) is None,
            Some(Err(e)) => marker_line_spec(text@, "@planned"@) == Some(
                Err::<Option<Seq<char>>, PlannedAnnotationError>(e),
            ),
            Some(Ok(rel)) => marker_line_spec(text@, "@planned"@) == Some(
                Ok::<Option<Seq<char>>, PlannedAnnotationError>(planned_release_view(rel)),
            ),
        },
{
    match marker_line(text, "@planned") {
        None => None,
        Some(Err(e)) => Some(Err(e)),
        Some(Ok(None)) => Some(Ok(None)),
        Some(Ok(Some(w))) => {
            proof {
                let n = "@planned"@.len() as int;
                crate::text::lemma_single_word_shape(text@.skip(n));
            }
            match PlannedRelease::new(w) {
                Ok(x) => Some(Ok(Some(x))),
                Err(_) => Some(Err(PlannedAnnotationError::InvalidRelease)),
            }
        },
    }
}

/// Reads a standalone `@deprecated` marker line.
pub fn parse_deprecated_annotation(text: &str) -> (r: Option<
    Result<Option<DeprecatedRelease>, PlannedAnnotationError>,
>)
    ensures
        match r {
            None => marker_line_spec(text@, "@deprecated"@) is None,
            Some(Err(e)) => marker_line_spec(text@, "@deprecated"@) == Some(
                Err::<Option<Seq<char>>, PlannedAnnotationError>(e),
            ),
            Some(Ok(rel)) => marker_line_spec(text@, "@deprecated"@) == Some(
                Ok::<Option<Seq<char>>, PlannedAnnotationError>(deprecated_release_view(rel)),
            ),
        },
{
    match marker_line(text, "@deprecated") {
        None => None,
        Some(Err(e)) => Some(Err(e)),
        Some(Ok(None)) => Some(Ok(None)),
        Some(Ok(Some(w))) => {
            proof {
                let n = "@deprecated"@.len() as int;
                crate::text::lemma_single_word_shape(text@.skip(n));
            }
            match DeprecatedRelease::new(w) {
                Ok(x) => Some(Ok(Some(x))),
                Err(_) => Some(Err(PlannedAnnotationError::InvalidRelease)),
            }
        },
    }
}

} // verus!
