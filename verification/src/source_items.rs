//! Source items as language providers report them: functions and methods
//! with their visibility and the calls they make.
use vstd::prelude::*;

verus! {

/// Whether a source item is a free function or a method.
#[derive(Debug, Clone, Copy, PartialEq, Eq, Structural)]
pub enum SourceItemKind {
    Function,
    Method,
}

/// How a call names its callee: a bare identifier, a scoped path or a field.
#[derive(Debug, Clone, Copy, PartialEq, Eq, Structural)]
pub enum CallSyntaxKind {
    Identifier,
    ScopedIdentifier,
    Field,
}

/// A call that a source item makes, by the callee's name and the qualifier
/// written before it.
#[derive(Debug, Clone)]
pub struct SourceCall {
    pub name: String,
    pub qualifier: Option<String>,
    pub syntax: CallSyntaxKind,
}

/// What a source item invokes besides calls.
#[derive(Debug, Clone)]
pub enum SourceInvocationKind {
    LocalCargoBinary { binary_name: String },
}

/// An invocation that a source item makes.
#[derive(Debug, Clone)]
pub struct SourceInvocation {
    pub kind: SourceInvocationKind,
}

/// Where a source item stands in its file.
#[derive(Debug, Clone, Copy)]
pub struct SourceSpan {
    pub start_line: usize,
    pub end_line: usize,
    pub start_column: usize,
    pub end_column: usize,
    pub start_byte: usize,
    pub end_byte: usize,
}

/// One analyzable source item.
#[derive(Debug, Clone)]
pub struct SourceItem {
    pub source_path: String,
    pub stable_id: String,
    pub name: String,
    pub shape_fingerprint: String,
    pub normalized_fingerprints: Vec<String>,
    pub shape_node_count: usize,
    pub kind: SourceItemKind,
    pub span: SourceSpan,
    pub public: bool,
    pub root_visible: bool,
    pub is_test: bool,
    pub calls: Vec<SourceCall>,
    pub invocations: Vec<SourceInvocation>,
}

} // verus!
