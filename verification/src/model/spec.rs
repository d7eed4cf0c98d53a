//! Spec declarations, their support attachments, and the rendered spec tree.
use vstd::prelude::*;

use super::core_types::{
    DeclaredStateFilter, DeprecatedRelease, DiagnosticSeverity, ModelInvariantError, NodeKind, PlanState,
    SourceLocation, conflicting_lifecycle_message, deprecated_group_message,
    deprecated_release_view, is_release_label, opt_str_view, plan_release, planned_group_message,
    release_without_deprecated_message,
};

verus! {

/// Which lifecycle rule a node breaks, checked in a fixed order, or `None`
/// when the combination is allowed.
pub open spec fn lifecycle_error(
    kind: NodeKind,
    planned: bool,
    deprecated: bool,
    has_deprecated_release: bool,
) -> Option<Seq<char>> {
    if kind == NodeKind::Group && planned {
        Some(planned_group_message(kind))
    } else if kind == NodeKind::Group && deprecated {
        Some(deprecated_group_message(kind))
    } else if !deprecated && has_deprecated_release {
        Some(release_without_deprecated_message())
    } else if planned && deprecated {
        Some(conflicting_lifecycle_message())
    } else {
        None
    }
}

/// The mathematical content of a spec declaration.
pub struct SpecDeclView {
    pub id: Seq<char>,
    pub kind: NodeKind,
    pub text: Seq<char>,
    pub planned: bool,
    pub planned_release: Option<Seq<char>>,
    pub deprecated: bool,
    pub deprecated_release: Option<Seq<char>>,
    pub path: Seq<char>,
    pub line: usize,
}

/// A valid declaration is never both planned and deprecated, a group is
/// neither, and only a deprecated one carries a deprecated release. Every
/// declaration that `SpecDecl::new` builds is valid, and `set_plan` and
/// `set_deprecated` keep it valid whether they succeed or not, so these hold
/// after any sequence of such calls.
pub proof fn law_valid_lifecycle(d: SpecDeclView)
    requires
        d.valid(),
    ensures
        !(d.planned && d.deprecated),
        d.kind == NodeKind::Group ==> !d.planned && !d.deprecated,
        d.deprecated_release is Some ==> d.deprecated,
{
}

impl SpecDeclView {
    /// The lifecycle rules: groups are structural only, a deprecated release
    /// needs the deprecated state, and no spec is both planned and deprecated.
    pub open spec fn valid(self) -> bool {
        lifecycle_error(self.kind, self.planned, self.deprecated, self.deprecated_release is Some)
            is None
    }
}

/// A declared `@spec` or `@group`.
#[derive(Debug, Clone)]
pub struct SpecDecl {
    pub id: String,
    kind: NodeKind,
    pub text: String,
    plan: PlanState,
    deprecated: bool,
    deprecated_release: Option<DeprecatedRelease>,
    pub location: SourceLocation,
}

impl View for SpecDecl {
    type V = SpecDeclView;

    closed spec fn view(&self) -> SpecDeclView {
        SpecDeclView {
            id: self.id@,
            kind: self.kind,
            text: self.text@,
            planned: self.plan is Planned,
            planned_release: plan_release(self.plan),
            deprecated: self.deprecated,
            deprecated_release: deprecated_release_view(self.deprecated_release),
            path: self.location.path@,
            line: self.location.line,
        }
    }
}

fn ensure_valid_plan(kind: NodeKind, plan: &PlanState) -> (r: Result<(), ModelInvariantError>)
    ensures
        match r {
            Ok(_) => !(kind == NodeKind::Group && *plan is Planned),
            Err(e) => kind == NodeKind::Group && *plan is Planned && e@ == planned_group_message(
                kind,
            ),
        },
{
    if kind == NodeKind::Group && plan.is_planned() {
        return Err(ModelInvariantError::planned_group(kind));
    }
    Ok(())
}

fn ensure_valid_spec_lifecycle(
    kind: NodeKind,
    plan: &PlanState,
    is_deprecated: bool,
    deprecated_release: Option<&DeprecatedRelease>,
) -> (r: Result<(), ModelInvariantError>)
    ensures
        match r {
            Ok(_) => lifecycle_error(
                kind,
                *plan is Planned,
                is_deprecated,
                deprecated_release is Some,
            ) is None,
            Err(e) => lifecycle_error(
                kind,
                *plan is Planned,
                is_deprecated,
                deprecated_release is Some,
            ) == Some(e@),
        },
{
    ensure_valid_plan(kind, plan)?;
    if kind == NodeKind::Group && is_deprecated {
        return Err(ModelInvariantError::deprecated_group(kind));
    }
    if !is_deprecated && deprecated_release.is_some() {
        return Err(ModelInvariantError::deprecated_release_without_deprecated());
    }
    if plan.is_planned() && is_deprecated {
        return Err(ModelInvariantError::conflicting_spec_lifecycle());
    }
    Ok(())
}

impl SpecDecl {
    /// Builds a declaration, refusing lifecycle combinations that the model
    /// forbids.
    pub fn new(
        id: String,
        kind: NodeKind,
        text: String,
        plan: PlanState,
        deprecated: bool,
        deprecated_release: Option<DeprecatedRelease>,
        location: SourceLocation,
    ) -> (r: Result<Self, ModelInvariantError>)
        ensures
            match r {
                Ok(d) => lifecycle_error(kind, plan is Planned, deprecated, deprecated_release is Some)
                    is None && d@ == (SpecDeclView {
                    id: id@,
                    kind,
                    text: text@,
                    planned: plan is Planned,
                    planned_release: plan_release(plan),
                    deprecated,
                    deprecated_release: deprecated_release_view(deprecated_release),
                    path: location.path@,
                    line: location.line,
                }),
                Err(e) => lifecycle_error(
                    kind,
                    plan is Planned,
                    deprecated,
                    deprecated_release is Some,
                ) == Some(e@),
            },            r matches Ok(d) ==> d@.valid(),
    {
        ensure_valid_spec_lifecycle(kind, &plan, deprecated, deprecated_release.as_ref())?;
        Ok(SpecDecl { id, kind, text, plan, deprecated, deprecated_release, location })
    }

    /// Replaces the plan state unless the result would break a lifecycle rule;
    /// on refusal nothing changes.
    pub fn set_plan(&mut self, plan: PlanState) -> (r: Result<(), ModelInvariantError>)
        ensures
            match r {
                Ok(_) => lifecycle_error(
                    old(self)@.kind,
                    plan is Planned,
                    old(self)@.deprecated,
                    old(self)@.deprecated_release is Some,
                ) is None && final(self)@ == (SpecDeclView {
                    planned: plan is Planned,
                    planned_release: plan_release(plan),
                    ..old(self)@
                }),
                Err(e) => lifecycle_error(
                    old(self)@.kind,
                    plan is Planned,
                    old(self)@.deprecated,
                    old(self)@.deprecated_release is Some,
                ) == Some(e@) && final(self)@ == old(self)@,
            },
            old(self)@.valid() ==> final(self)@.valid(),
    {
        ensure_valid_spec_lifecycle(
            self.kind,
            &plan,
            self.deprecated,
            self.deprecated_release.as_ref(),
        )?;
        self.plan = plan;
        Ok(())
    }

    /// Replaces the deprecation state unless the result would break a
    /// lifecycle rule; on refusal nothing changes.
    pub fn set_deprecated(
        &mut self,
        is_deprecated: bool,
        deprecated_release: Option<DeprecatedRelease>,
    ) -> (r: Result<(), ModelInvariantError>)
        ensures
            match r {
                Ok(_) => lifecycle_error(
                    old(self)@.kind,
                    old(self)@.planned,
                    is_deprecated,
                    deprecated_release is Some,
                ) is None && final(self)@ == (SpecDeclView {
                    deprecated: is_deprecated,
                    deprecated_release: deprecated_release_view(deprecated_release),
                    ..old(self)@
                }),
                Err(e) => lifecycle_error(
                    old(self)@.kind,
                    old(self)@.planned,
                    is_deprecated,
                    deprecated_release is Some,
                ) == Some(e@) && final(self)@ == old(self)@,
            },
            old(self)@.valid() ==> final(self)@.valid(),
    {
        ensure_valid_spec_lifecycle(
            self.kind,
            &self.plan,
            is_deprecated,
            deprecated_release.as_ref(),
        )?;
        self.deprecated = is_deprecated;
        self.deprecated_release = deprecated_release;
        Ok(())
    }

    /// The id of the declaration.
    pub fn id_str(&self) -> (r: &str)
        ensures
            r@ == self@.id,
    {
        self.id.as_str()
    }

    pub fn is_planned(&self) -> (r: bool)
        ensures
            r == self@.planned,
    {
        self.plan.is_planned()
    }

    pub fn is_deprecated(&self) -> (r: bool)
        ensures
            r == self@.deprecated,
    {
        self.deprecated
    }

    pub fn kind(&self) -> (r: NodeKind)
        ensures
            r == self@.kind,
    {
        self.kind
    }

    /// The planned release: a non-empty, trimmed label, present only on a
    /// planned declaration.
    pub fn planned_release(&self) -> (r: Option<&str>)
        ensures
            opt_str_view(r) == self@.planned_release,
            r matches Some(x) ==> is_release_label(x@),
            r is Some ==> self@.planned,
    {
        self.plan.release()
    }

    /// The deprecated release: a non-empty, trimmed label, present only on a
    /// deprecated declaration whenever the declaration is valid (as every one
    /// that `new`, `set_plan` and `set_deprecated` leave behind is).
    pub fn deprecated_release(&self) -> (r: Option<&str>)
        ensures
            opt_str_view(r) == self@.deprecated_release,
            r matches Some(x) ==> is_release_label(x@),
            self@.valid() && r is Some ==> self@.deprecated,
    {
        match &self.deprecated_release {
            Some(rel) => Some(rel.as_str()),
            None => None,
        }
    }

    pub fn plan(&self) -> (r: &PlanState)
        ensures
            (*r is Planned) == self@.planned,
            plan_release(*r) == self@.planned_release,
    {
        &self.plan
    }
}

/// The lifecycle rules in plain terms: a valid node that is a group is
/// neither planned nor deprecated, a deprecated release implies the
/// deprecated state, and nothing is both planned and deprecated.
pub proof fn valid_lifecycle_rules(d: SpecDeclView)
    ensures
        d.valid() <==> ((d.kind == NodeKind::Group ==> !d.planned && !d.deprecated) && (
        d.deprecated_release is Some ==> d.deprecated) && !(d.planned && d.deprecated)),
{
}

/// A reference from a test (or file) to the spec it verifies.
#[derive(Debug, Clone)]
pub struct VerifyRef {
    pub spec_id: String,
    pub location: SourceLocation,
    pub body_location: Option<SourceLocation>,
    pub body: Option<String>,
}

#[derive(Debug, Clone, Copy, PartialEq, Eq, Structural)]
pub enum AttestScope {
    Block,
    File,
}

/// The annotation that introduces an attestation of scope `s`.
pub open spec fn attest_annotation(s: AttestScope) -> Seq<char> {
    match s {
        AttestScope::Block => "@attests"@,
        AttestScope::File => "@fileattests"@,
    }
}

impl AttestScope {
    pub fn as_annotation(self) -> (r: &'static str)
        ensures
            r@ == attest_annotation(self),
    {
        match self {
            AttestScope::Block => "@attests",
            AttestScope::File => "@fileattests",
        }
    }
}

/// A reviewed attestation that supports a spec.
#[derive(Debug, Clone)]
pub struct AttestRef {
    pub spec_id: String,
    pub artifact: String,
    pub owner: String,
    pub last_reviewed: String,
    pub review_interval_days: Option<u32>,
    pub scope: AttestScope,
    pub location: SourceLocation,
    pub body: Option<String>,
}

/// A parser finding tied to a file and line.
#[derive(Debug)]
pub struct Diagnostic {
    pub severity: DiagnosticSeverity,
    pub path: String,
    pub line: usize,
    pub message: String,
}

impl Clone for Diagnostic {
    fn clone(&self) -> (r: Self)
        ensures
            r == *self,
    {
        Diagnostic {
            severity: self.severity,
            path: self.path.clone(),
            line: self.line,
            message: self.message.clone(),
        }
    }
}

/// Everything parsed from a repository's annotations.
#[derive(Debug, Clone)]
pub struct ParsedRepo {
    pub specs: Vec<SpecDecl>,
    pub verifies: Vec<VerifyRef>,
    pub attests: Vec<AttestRef>,
    pub diagnostics: Vec<Diagnostic>,
}

impl ParsedRepo {
    pub fn new() -> (r: Self)
        ensures
            r.specs@.len() == 0,
            r.verifies@.len() == 0,
            r.attests@.len() == 0,
            r.diagnostics@.len() == 0,
    {
        ParsedRepo {
            specs: Vec::new(),
            verifies: Vec::new(),
            attests: Vec::new(),
            diagnostics: Vec::new(),
        }
    }
}

impl Default for ParsedRepo {
    fn default() -> (r: Self)
        ensures
            r.specs@.len() == 0,
            r.verifies@.len() == 0,
            r.attests@.len() == 0,
            r.diagnostics@.len() == 0,
    {
        ParsedRepo::new()
    }
}

/// A node of the rendered spec tree, with its support and children.
#[derive(Debug)]
pub struct SpecNode {
    pub id: String,
    kind: NodeKind,
    pub text: String,
    plan: PlanState,
    deprecated: bool,
    deprecated_release: Option<DeprecatedRelease>,
    pub location: SourceLocation,
    pub verifies: Vec<VerifyRef>,
    pub attests: Vec<AttestRef>,
    pub children: Vec<SpecNode>,
}

impl SpecNode {
    /// The declaration part of the node.
    pub closed spec fn decl_view(&self) -> SpecDeclView {
        SpecDeclView {
            id: self.id@,
            kind: self.kind,
            text: self.text@,
            planned: self.plan is Planned,
            planned_release: plan_release(self.plan),
            deprecated: self.deprecated,
            deprecated_release: deprecated_release_view(self.deprecated_release),
            path: self.location.path@,
            line: self.location.line,
        }
    }

    pub closed spec fn verifies_view(&self) -> Seq<VerifyRef> {
        self.verifies@
    }

    pub closed spec fn attests_view(&self) -> Seq<AttestRef> {
        self.attests@
    }

    pub closed spec fn children_view(&self) -> Seq<SpecNode> {
        self.children@
    }

    /// A node that carries a declaration and its attachments unchanged.
    pub fn new(
        decl: SpecDecl,
        verifies: Vec<VerifyRef>,
        attests: Vec<AttestRef>,
        children: Vec<SpecNode>,
    ) -> (r: Self)
        ensures
            r.decl_view() == decl@,
            r.verifies_view() == verifies@,
            r.attests_view() == attests@,
            r.children_view() == children@,
    {
        SpecNode {
            id: decl.id,
            kind: decl.kind,
            text: decl.text,
            plan: decl.plan,
            deprecated: decl.deprecated,
            deprecated_release: decl.deprecated_release,
            location: decl.location,
            verifies,
            attests,
            children,
        }
    }

    pub fn is_planned(&self) -> (r: bool)
        ensures
            r == self.decl_view().planned,
    {
        self.plan.is_planned()
    }

    pub fn is_deprecated(&self) -> (r: bool)
        ensures
            r == self.decl_view().deprecated,
    {
        self.deprecated
    }

    pub fn kind(&self) -> (r: NodeKind)
        ensures
            r == self.decl_view().kind,
    {
        self.kind
    }

    pub fn planned_release(&self) -> (r: Option<&str>)
        ensures
            opt_str_view(r) == self.decl_view().planned_release,
    {
        self.plan.release()
    }

    pub fn deprecated_release(&self) -> (r: Option<&str>)
        ensures
            opt_str_view(r) == self.decl_view().deprecated_release,
    {
        match &self.deprecated_release {
            Some(rel) => Some(rel.as_str()),
            None => None,
        }
    }

    /// A current `@spec` with neither verifies nor attests.
    pub fn is_unverified(&self) -> (r: bool)
        ensures
            r == (self.decl_view().kind == NodeKind::Spec && !self.decl_view().planned
                && self.verifies_view().len() == 0 && self.attests_view().len() == 0),
    {
        self.kind == NodeKind::Spec && !self.is_planned() && self.verifies.len() == 0
            && self.attests.len() == 0
    }
}

/// Which specs a listing shows.
#[derive(Debug, Clone)]
pub struct SpecFilter {
    pub state: DeclaredStateFilter,
    pub unverified_only: bool,
    pub scope: Option<String>,
}

} // verus!
