//! Core domain primitives shared by spec, architecture, and report modeling.
use vstd::prelude::*;
use vstd::string::*;

use crate::text::{concat3, lemma_trim_shape, lemma_trim_end_take, lemma_trim_start_skip, trim, trim_str};

verus! {

#[derive(Debug, Clone, Copy, PartialEq, Eq, Structural)]
pub enum DiagnosticSeverity {
    Error,
    Warning,
}

#[derive(Debug, Clone, Copy, PartialEq, Eq, Structural)]
pub enum NodeKind {
    Spec,
    Group,
}

/// The annotation that declares a node of kind `k`.
pub open spec fn node_annotation(k: NodeKind) -> Seq<char> {
    match k {
        NodeKind::Spec => "@spec"@,
        NodeKind::Group => "@group"@,
    }
}

impl NodeKind {
    pub fn as_annotation(self) -> (r: &'static str)
        ensures
            r@ == node_annotation(self),
    {
        match self {
            NodeKind::Spec => "@spec",
            NodeKind::Group => "@group",
        }
    }
}

#[derive(Debug, Clone, Copy, PartialEq, Eq, Structural)]
pub enum ArchitectureKind {
    Module,
    Area,
}

/// The annotation that declares an architecture node of kind `k`.
pub open spec fn architecture_annotation(k: ArchitectureKind) -> Seq<char> {
    match k {
        ArchitectureKind::Module => "@module"@,
        ArchitectureKind::Area => "@area"@,
    }
}

impl ArchitectureKind {
    pub fn as_annotation(self) -> (r: &'static str)
        ensures
            r@ == architecture_annotation(self),
    {
        match self {
            ArchitectureKind::Module => "@module",
            ArchitectureKind::Area => "@area",
        }
    }
}

/// A position in a repository file.
#[derive(Debug)]
pub struct SourceLocation {
    pub path: String,
    pub line: usize,
}

impl Clone for SourceLocation {
    fn clone(&self) -> (r: Self)
        ensures
            r == *self,
    {
        SourceLocation { path: self.path.clone(), line: self.line }
    }
}

/// The item that a comment block documents, with its source text.
#[derive(Debug, Clone)]
pub struct OwnedItem {
    pub location: SourceLocation,
    pub body: String,
}

/// One extracted comment block: its lines, the item it documents, and the
/// text of the file that holds it.
#[derive(Debug, Clone)]
pub struct CommentBlock {
    pub path: String,
    pub lines: Vec<BlockLine>,
    pub owned_item: Option<OwnedItem>,
    pub source_body: Option<String>,
}

/// A line of a comment block with its line number in the file.
#[derive(Debug, Clone)]
pub struct BlockLine {
    pub line: usize,
    pub text: String,
}

/// A non-empty, trimmed release label.
pub open spec fn is_release_label(s: Seq<char>) -> bool {
    s.len() > 0 && trim(s) == s
}

pub proof fn lemma_trim_is_release_label(s: Seq<char>)
    requires
        trim(s).len() > 0,
    ensures
        is_release_label(trim(s)),
{
    let t = trim(s);
    lemma_trim_shape(s);
    lemma_trim_start_skip(t, 0);
    assert(t.skip(0) =~= t);
    lemma_trim_end_take(t, t.len() as int);
    assert(t.take(t.len() as int) =~= t);
}

/// The release in which a planned spec is expected to land.
#[derive(Debug)]
pub struct PlannedRelease {
    value: String,
}

impl Clone for PlannedRelease {
    fn clone(&self) -> (r: Self)
        ensures
            r@ == self@,
    {
        proof {
            use_type_invariant(self);
        }
        PlannedRelease { value: self.value.clone() }
    }
}

impl View for PlannedRelease {
    type V = Seq<char>;

    closed spec fn view(&self) -> Seq<char> {
        self.value@
    }
}

impl PlannedRelease {
    #[verifier::type_invariant]
    spec fn inv(self) -> bool {
        is_release_label(self.value@)
    }

    /// Reads a release label, trimming it; an empty label is refused.
    pub fn new(value: &str) -> (r: Result<Self, ModelInvariantError>)
        ensures
            match r {
                Ok(rel) => trim(value@).len() > 0 && rel@ == trim(value@),
                Err(e) => trim(value@).len() == 0 && e@ == empty_planned_release_message(),
            },
    {
        let trimmed = trim_str(value);
        if trimmed.unicode_len() == 0 {
            return Err(ModelInvariantError::empty_planned_release());
        }
        proof {
            lemma_trim_is_release_label(value@);
        }
        Ok(PlannedRelease { value: trimmed.to_owned() })
    }

    /// The label; it is never empty and never carries surrounding whitespace.
    pub fn as_str(&self) -> (r: &str)
        ensures
            r@ == self@,
            is_release_label(r@),
    {
        proof {
            use_type_invariant(self);
        }
        self.value.as_str()
    }
}


/// The release in which a spec was deprecated.
#[derive(Debug)]
pub struct DeprecatedRelease {
    value: String,
}

impl Clone for DeprecatedRelease {
    fn clone(&self) -> (r: Self)
        ensures
            r@ == self@,
    {
        proof {
            use_type_invariant(self);
        }
        DeprecatedRelease { value: self.value.clone() }
    }
}

impl View for DeprecatedRelease {
    type V = Seq<char>;

    closed spec fn view(&self) -> Seq<char> {
        self.value@
    }
}

impl DeprecatedRelease {
    #[verifier::type_invariant]
    spec fn inv(self) -> bool {
        is_release_label(self.value@)
    }

    /// Reads a release label, trimming it; an empty label is refused.
    pub fn new(value: &str) -> (r: Result<Self, ModelInvariantError>)
        ensures
            match r {
                Ok(rel) => trim(value@).len() > 0 && rel@ == trim(value@),
                Err(e) => trim(value@).len() == 0 && e@ == empty_deprecated_release_message(),
            },
    {
        let trimmed = trim_str(value);
        if trimmed.unicode_len() == 0 {
            return Err(ModelInvariantError::empty_deprecated_release());
        }
        proof {
            lemma_trim_is_release_label(value@);
        }
        Ok(DeprecatedRelease { value: trimmed.to_owned() })
    }

    /// The label; it is never empty and never carries surrounding whitespace.
    pub fn as_str(&self) -> (r: &str)
        ensures
            r@ == self@,
            is_release_label(r@),
    {
        proof {
            use_type_invariant(self);
        }
        self.value.as_str()
    }
}


pub open spec fn planned_group_message(kind: NodeKind) -> Seq<char> {
    "`"@ + node_annotation(kind) + "` nodes may not be planned"@
}

pub open spec fn deprecated_group_message(kind: NodeKind) -> Seq<char> {
    "`"@ + node_annotation(kind) + "` nodes may not be deprecated"@
}

pub open spec fn empty_planned_release_message() -> Seq<char> {
    "planned release metadata must not be empty"@
}

pub open spec fn empty_deprecated_release_message() -> Seq<char> {
    "deprecated release metadata must not be empty"@
}

pub open spec fn conflicting_lifecycle_message() -> Seq<char> {
    "@spec may not be both planned and deprecated"@
}

pub open spec fn release_without_deprecated_message() -> Seq<char> {
    "@deprecated release metadata requires @deprecated"@
}

pub open spec fn planned_area_message() -> Seq<char> {
    "`@area` nodes may not be planned"@
}

/// A broken invariant of the domain model, carried as its message.
#[derive(Debug, Clone)]
pub struct ModelInvariantError {
    message: String,
}

impl View for ModelInvariantError {
    type V = Seq<char>;

    closed spec fn view(&self) -> Seq<char> {
        self.message@
    }
}

impl ModelInvariantError {
    pub fn planned_group(kind: NodeKind) -> (r: Self)
        ensures
            r@ == planned_group_message(kind),
    {
        ModelInvariantError {
            message: concat3("`", kind.as_annotation(), "` nodes may not be planned"),
        }
    }

    pub fn empty_planned_release() -> (r: Self)
        ensures
            r@ == empty_planned_release_message(),
    {
        ModelInvariantError { message: "planned release metadata must not be empty".to_owned() }
    }

    pub fn deprecated_group(kind: NodeKind) -> (r: Self)
        ensures
            r@ == deprecated_group_message(kind),
    {
        ModelInvariantError {
            message: concat3("`", kind.as_annotation(), "` nodes may not be deprecated"),
        }
    }

    pub fn empty_deprecated_release() -> (r: Self)
        ensures
            r@ == empty_deprecated_release_message(),
    {
        ModelInvariantError {
            message: "deprecated release metadata must not be empty".to_owned(),
        }
    }

    pub fn conflicting_spec_lifecycle() -> (r: Self)
        ensures
            r@ == conflicting_lifecycle_message(),
    {
        ModelInvariantError { message: "@spec may not be both planned and deprecated".to_owned() }
    }

    pub fn deprecated_release_without_deprecated() -> (r: Self)
        ensures
            r@ == release_without_deprecated_message(),
    {
        ModelInvariantError {
            message: "@deprecated release metadata requires @deprecated".to_owned(),
        }
    }

    pub fn planned_area() -> (r: Self)
        ensures
            r@ == planned_area_message(),
    {
        ModelInvariantError { message: "`@area` nodes may not be planned".to_owned() }
    }

    /// The message, as `Display` would render it.
    pub fn to_string(&self) -> (r: String)
        ensures
            r@ == self@,
    {
        self.message.clone()
    }

    pub fn message(&self) -> (r: &str)
        ensures
            r@ == self@,
    {
        self.message.as_str()
    }
}

/// Whether a node is current or planned, with the planned release if any.
#[derive(Debug, Clone)]
pub enum PlanState {
    Current,
    Planned { release: Option<PlannedRelease> },
}

/// The release labels held by an optional planned release.
pub open spec fn planned_release_view(r: Option<PlannedRelease>) -> Option<Seq<char>> {
    match r {
        Some(x) => Some(x@),
        None => None,
    }
}

/// The release labels held by an optional deprecated release.
pub open spec fn deprecated_release_view(r: Option<DeprecatedRelease>) -> Option<Seq<char>> {
    match r {
        Some(x) => Some(x@),
        None => None,
    }
}

/// The planned release of a plan state, if it is planned with one.
pub open spec fn plan_release(p: PlanState) -> Option<Seq<char>> {
    match p {
        PlanState::Current => None,
        PlanState::Planned { release } => planned_release_view(release),
    }
}

/// The view of an optional borrowed string.
pub open spec fn opt_str_view(r: Option<&str>) -> Option<Seq<char>> {
    match r {
        Some(s) => Some(s@),
        None => None,
    }
}

impl PlanState {
    pub fn current() -> (r: Self)
        ensures
            r is Current,
    {
        PlanState::Current
    }

    pub fn planned(release: Option<PlannedRelease>) -> (r: Self)
        ensures
            r == (PlanState::Planned { release }),
    {
        PlanState::Planned { release }
    }

    pub fn is_planned(&self) -> (r: bool)
        ensures
            r == (*self is Planned),
    {
        match self {
            PlanState::Current => false,
            PlanState::Planned { .. } => true,
        }
    }

    pub fn release(&self) -> (r: Option<&str>)
        ensures
            opt_str_view(r) == plan_release(*self),
            r matches Some(x) ==> is_release_label(x@),
    {
        match self {
            PlanState::Current => None,
            PlanState::Planned { release } => match release {
                Some(rel) => Some(rel.as_str()),
                None => None,
            },
        }
    }
}

#[derive(Debug, Clone, Copy, PartialEq, Eq, Structural)]
pub enum DeclaredStateFilter {
    All,
    Current,
    Planned,
}

} // verus!
