//! Analysis summaries gathered per language provider and merged into the
//! module and repository views.
use vstd::prelude::*;

use crate::model::analysis::{
    ModuleComplexitySummary, ModuleDependencySummary, ModuleItemSignalsSummary, ModuleMetricsSummary,
    ModuleQualitySummary, ModuleTraceabilitySummary,
};

pub mod coverage;
pub mod duplication;
pub mod explain;
pub mod ownership;
pub mod provider_merge;
pub mod repo_scope;
pub mod source_item_signals;
pub mod traceability_core;

verus! {

/// The files and outside targets a module's code reaches, for coupling.
#[derive(Debug, Clone, Default)]
pub struct ModuleCouplingInput {
    pub internal_files: Vec<String>,
    pub external_targets: Vec<String>,
}

/// What one language provider found about one module.
#[derive(Debug, Default)]
pub struct ProviderModuleAnalysis {
    pub metrics: ModuleMetricsSummary,
    pub complexity: Option<ModuleComplexitySummary>,
    pub quality: Option<ModuleQualitySummary>,
    pub item_signals: Option<ModuleItemSignalsSummary>,
    pub traceability: Option<ModuleTraceabilitySummary>,
    pub traceability_unavailable_reason: Option<String>,
    pub coupling: Option<ModuleCouplingInput>,
    pub dependencies: Option<ModuleDependencySummary>,
}

} // verus!
