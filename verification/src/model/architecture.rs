//! Architecture declarations (`@module`, `@area`), their implementation
//! attachments, and pattern definitions and applications.
use vstd::prelude::*;

use super::core_types::{
    ArchitectureKind, DeclaredStateFilter, ModelInvariantError, PlanState, SourceLocation,
    planned_area_message,
};
use super::analysis::ModuleAnalysisSummary;
use super::spec::Diagnostic;

verus! {

/// Everything parsed from architecture annotations.
#[derive(Debug, Default, Clone)]
pub struct ParsedArchitecture {
    pub modules: Vec<ModuleDecl>,
    pub implements: Vec<ImplementRef>,
    pub patterns: Vec<PatternDefinition>,
    pub pattern_applications: Vec<PatternApplication>,
    pub diagnostics: Vec<Diagnostic>,
}

/// A declared `@module` or `@area`; an area is never planned.
#[derive(Debug, Clone)]
pub struct ModuleDecl {
    pub id: String,
    kind: ArchitectureKind,
    pub text: String,
    plan: PlanState,
    pub location: SourceLocation,
}

/// Whether a kind may carry a plan state: areas are structural only.
pub open spec fn architecture_plan_ok(kind: ArchitectureKind, plan: PlanState) -> bool {
    !(kind == ArchitectureKind::Area && plan is Planned)
}

impl ModuleDecl {
    pub closed spec fn spec_id(self) -> Seq<char> {
        self.id@
    }

    pub closed spec fn spec_text(self) -> Seq<char> {
        self.text@
    }

    pub closed spec fn spec_location(self) -> SourceLocation {
        self.location
    }

    pub closed spec fn spec_kind(self) -> ArchitectureKind {
        self.kind
    }

    pub closed spec fn spec_plan(self) -> PlanState {
        self.plan
    }

    /// Builds a declaration; a planned area is refused.
    pub fn new(
        id: String,
        kind: ArchitectureKind,
        text: String,
        plan: PlanState,
        location: SourceLocation,
    ) -> (r: Result<Self, ModelInvariantError>)
        ensures
            architecture_plan_ok(kind, plan) ==> (r matches Ok(d) && d.spec_id() == id@ && d.spec_kind()
                == kind && d.spec_text() == text@ && d.spec_plan() == plan && d.spec_location()
                == location),
            !architecture_plan_ok(kind, plan) ==> (r matches Err(e) && e@ == planned_area_message()),
    {
        if kind == ArchitectureKind::Area && plan.is_planned() {
            return Err(ModelInvariantError::planned_area());
        }
        Ok(ModuleDecl { id, kind, text, plan, location })
    }

    /// The declared id.
    pub fn id_str(&self) -> (r: &str)
        ensures
            r@ == self.spec_id(),
    {
        self.id.as_str()
    }

    /// Where the declaration stands.
    pub fn location_ref(&self) -> (r: &SourceLocation)
        ensures
            *r == self.spec_location(),
    {
        &self.location
    }

    pub fn is_planned(&self) -> (r: bool)
        ensures
            r == (self.spec_plan() is Planned),
    {
        self.plan.is_planned()
    }

    pub fn kind(&self) -> (r: ArchitectureKind)
        ensures
            r == self.spec_kind(),
    {
        self.kind
    }

    pub fn plan(&self) -> (r: &PlanState)
        ensures
            *r == self.spec_plan(),
    {
        &self.plan
    }
}

/// An `@implements` or `@fileimplements` attachment of code to a module.
#[derive(Debug, Clone)]
pub struct ImplementRef {
    pub module_id: String,
    pub location: SourceLocation,
    pub body_location: Option<SourceLocation>,
    pub body: Option<String>,
}

impl ImplementRef {
    /// A copy of the attachment.
    pub fn clone_ref(&self) -> (r: Self)
        ensures
            r == *self,
    {
        ImplementRef {
            module_id: self.module_id.clone(),
            location: self.location.clone(),
            body_location: match &self.body_location {
                Some(l) => Some(l.clone()),
                None => None,
            },
            body: match &self.body {
                Some(b) => Some(b.clone()),
                None => None,
            },
        }
    }
}

/// A declared `@pattern`.
#[derive(Debug, Clone)]
pub struct PatternDefinition {
    pub pattern_id: String,
    pub strictness: PatternStrictness,
    pub text: String,
    pub location: SourceLocation,
}

/// How closely the applications of a pattern are expected to agree.
#[derive(Debug, Clone, Copy, PartialEq, Eq, Structural)]
pub enum PatternStrictness {
    High,
    Medium,
    Low,
}

impl Default for PatternStrictness {
    fn default() -> (r: Self)
        ensures
            r == PatternStrictness::Medium,
    {
        PatternStrictness::Medium
    }
}

/// The label of a strictness level.
pub open spec fn strictness_label(s: PatternStrictness) -> Seq<char> {
    match s {
        PatternStrictness::High => "high"@,
        PatternStrictness::Medium => "medium"@,
        PatternStrictness::Low => "low"@,
    }
}

impl PatternStrictness {
    /// Reads a strictness label; anything else is refused.
    pub fn parse(value: &str) -> (r: Option<Self>)
        ensures
            r matches Some(s) ==> strictness_label(s) == value@,
            r is None ==> forall|s: PatternStrictness| strictness_label(s) != value@,
    {
        proof {
            reveal_strlit("high");
            reveal_strlit("medium");
            reveal_strlit("low");
        }
        if crate::text::str_eq(value, "high") {
            Some(PatternStrictness::High)
        } else if crate::text::str_eq(value, "medium") {
            Some(PatternStrictness::Medium)
        } else if crate::text::str_eq(value, "low") {
            Some(PatternStrictness::Low)
        } else {
            proof {
                assert forall|s: PatternStrictness| strictness_label(s) != value@ by {
                    match s {
                        PatternStrictness::High => {},
                        PatternStrictness::Medium => {},
                        PatternStrictness::Low => {},
                    }
                }
            }
            None
        }
    }

    pub fn as_str(self) -> (r: &'static str)
        ensures
            r@ == strictness_label(self),
    {
        proof {
            reveal_strlit("high");
            reveal_strlit("medium");
            reveal_strlit("low");
        }
        match self {
            PatternStrictness::High => "high",
            PatternStrictness::Medium => "medium",
            PatternStrictness::Low => "low",
        }
    }
}

/// An `@applies` or `@fileapplies` attachment of code to a pattern.
#[derive(Debug, Clone)]
pub struct PatternApplication {
    pub pattern_id: String,
    pub location: SourceLocation,
    pub body_location: Option<SourceLocation>,
    pub body: Option<String>,
}

/// Which modules a module listing shows.
#[derive(Debug, Clone)]
pub struct ModuleFilter {
    pub state: DeclaredStateFilter,
    pub unimplemented_only: bool,
    pub scope: Option<String>,
}

/// Which patterns a pattern listing shows, and how it compares them.
#[derive(Debug, Clone)]
pub struct PatternFilter {
    pub scope: Option<String>,
    pub metrics: bool,
    pub target_paths: Vec<String>,
    pub comparison_paths: Vec<String>,
    pub symbol: Option<String>,
}

/// A module that applies a pattern.
#[derive(Debug, Clone)]
pub struct PatternModuleRef {
    pub id: String,
    pub location: SourceLocation,
}

/// One application of a pattern as rendered.
#[derive(Debug, Clone)]
pub struct PatternApplicationNode {
    pub module_id: Option<String>,
    pub location: SourceLocation,
    pub body_location: Option<SourceLocation>,
    pub body: Option<String>,
}

/// Totals over the pattern tree.
#[derive(Debug, Clone)]
pub struct PatternMetricsSummary {
    pub total_patterns: usize,
    pub total_definitions: usize,
    pub total_applications: usize,
    pub modules_with_applications: usize,
}

/// How likely a suggested missing application is.
#[derive(Debug, Clone, Copy, PartialEq, Eq)]
pub enum PatternCandidateConfidence {
    Probable,
    Possible,
}

impl PatternCandidateConfidence {
    pub fn label(self) -> (r: &'static str)
        ensures
            r@ == (match self {
                PatternCandidateConfidence::Probable => "probable"@,
                PatternCandidateConfidence::Possible => "possible"@,
            }),
    {
        proof {
            reveal_strlit("probable");
            reveal_strlit("possible");
        }
        match self {
            PatternCandidateConfidence::Probable => "probable",
            PatternCandidateConfidence::Possible => "possible",
        }
    }
}

/// What a cluster of similar items most likely is.
#[derive(Debug, Clone, Copy, PartialEq, Eq)]
pub enum PatternClusterInterpretation {
    PossiblePattern,
    ExtractionCandidate,
}

impl PatternClusterInterpretation {
    pub fn label(self) -> (r: &'static str)
        ensures
            r@ == (match self {
                PatternClusterInterpretation::PossiblePattern => "possible pattern"@,
                PatternClusterInterpretation::ExtractionCandidate =>
                    "helper/component extraction candidate"@,
            }),
    {
        proof {
            reveal_strlit("possible pattern");
            reveal_strlit("helper/component extraction candidate");
        }
        match self {
            PatternClusterInterpretation::PossiblePattern => "possible pattern",
            PatternClusterInterpretation::ExtractionCandidate => "helper/component extraction candidate",
        }
    }

    pub fn meaning(self) -> (r: &'static str)
        ensures
            r@ == (match self {
                PatternClusterInterpretation::PossiblePattern =>
                    "these items share a recurring source shape that may reflect an adopted implementation approach."@,
                PatternClusterInterpretation::ExtractionCandidate =>
                    "these items are very tightly shaped, so the better move may be extracting a helper or component instead of naming a pattern."@,
            }),
    {
        match self {
            PatternClusterInterpretation::PossiblePattern =>
                "these items share a recurring source shape that may reflect an adopted implementation approach.",
            PatternClusterInterpretation::ExtractionCandidate =>
                "these items are very tightly shaped, so the better move may be extracting a helper or component instead of naming a pattern.",
        }
    }

    pub fn precise(self) -> (r: &'static str)
        ensures
            r@ == (match self {
                PatternClusterInterpretation::PossiblePattern =>
                    "deterministic source-feature clustering found shared calls, control-flow, names, or structural terms with enough variation to warrant human pattern review."@,
                PatternClusterInterpretation::ExtractionCandidate =>
                    "deterministic source-feature clustering found low-variance repeated implementation, which is often duplicated logic rather than an adaptable pattern."@,
            }),
    {
        match self {
            PatternClusterInterpretation::PossiblePattern =>
                "deterministic source-feature clustering found shared calls, control-flow, names, or structural terms with enough variation to warrant human pattern review.",
            PatternClusterInterpretation::ExtractionCandidate =>
                "deterministic source-feature clustering found low-variance repeated implementation, which is often duplicated logic rather than an adaptable pattern.",
        }
    }
}

/// One member of a cluster of similar items.
#[derive(Debug, Clone)]
pub struct PatternClusterItem {
    pub item_name: String,
    pub location: SourceLocation,
}

/// Where the measured similarity of a pattern's applications falls.
#[derive(Debug, Clone, Copy, PartialEq, Eq)]
pub enum PatternBenchmarkEstimate {
    DuplicateLike,
    TighterThanExpected,
    NearExpected,
    LooserThanExpected,
    Diffuse,
}

impl PatternBenchmarkEstimate {
    pub fn label(self) -> (r: &'static str)
        ensures
            r@ == (match self {
                PatternBenchmarkEstimate::DuplicateLike => "duplicate-like"@,
                PatternBenchmarkEstimate::TighterThanExpected => "tighter than expected"@,
                PatternBenchmarkEstimate::NearExpected => "near expected"@,
                PatternBenchmarkEstimate::LooserThanExpected => "looser than expected"@,
                PatternBenchmarkEstimate::Diffuse => "diffuse"@,
            }),
    {
        match self {
            PatternBenchmarkEstimate::DuplicateLike => "duplicate-like",
            PatternBenchmarkEstimate::TighterThanExpected => "tighter than expected",
            PatternBenchmarkEstimate::NearExpected => "near expected",
            PatternBenchmarkEstimate::LooserThanExpected => "looser than expected",
            PatternBenchmarkEstimate::Diffuse => "diffuse",
        }
    }
}

/// A node of the module tree: an area or a module, with what implements
/// it, its analysis where one was run, and its child nodes.
#[derive(Debug)]
pub struct ModuleNode {
    pub id: String,
    pub kind: ArchitectureKind,
    pub text: String,
    pub plan: PlanState,
    pub location: SourceLocation,
    pub implements: Vec<ImplementRef>,
    pub pattern_applications: Vec<PatternApplication>,
    pub analysis: Option<ModuleAnalysisSummary>,
    pub children: Vec<ModuleNode>,
}

impl ModuleNode {
    /// The tree node of a declaration, with nothing attached yet: the id,
    /// kind, text, plan state, and location are the declaration's.
    pub fn new(decl: ModuleDecl) -> (r: Self)
        ensures
            r.id@ == decl.spec_id(),
            r.kind == decl.spec_kind(),
            r.text@ == decl.spec_text(),
            r.plan == decl.spec_plan(),
            r.location == decl.spec_location(),
            r.implements@.len() == 0,
            r.pattern_applications@.len() == 0,
            r.analysis is None,
            r.children@.len() == 0,
    {
        ModuleNode {
            id: decl.id,
            kind: decl.kind,
            text: decl.text,
            plan: decl.plan,
            location: decl.location,
            implements: Vec::new(),
            pattern_applications: Vec::new(),
            analysis: None,
            children: Vec::new(),
        }
    }
}

/// The nodes of a forest in pre-order: each node, then its descendants.
pub open spec fn preorder(nodes: Seq<ModuleNode>) -> Seq<ModuleNode>
    decreases nodes,
{
    if nodes.len() == 0 {
        Seq::empty()
    } else {
        let last = nodes.last();
        proof {
            assert(decreases_to!(nodes => nodes[nodes.len() - 1]));
        }
        preorder(nodes.drop_last()) + seq![last] + preorder(last.children@)
    }
}

} // verus!
