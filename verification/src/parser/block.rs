//! Scans one extracted source comment block, routes reserved annotation
//! lines to their handlers, and applies block-local attachment rules.
use vstd::prelude::*;
use vstd::string::*;

use crate::model::core_types::{
    CommentBlock, DeprecatedRelease, NodeKind, PlanState, PlannedRelease, SourceLocation,
};
use crate::model::spec::{AttestRef, AttestScope, ParsedRepo, VerifyRef};
use crate::parser::attestation::parse_attestation_metadata;
use crate::parser::decls::{
    AdjacentLifecycle, SpecLifecycleMarkers, build_spec_decl, parse_adjacent_spec_deprecated,
    parse_adjacent_spec_planned, parse_spec_decl_header,
};
use crate::parser::diag::{error_at, keeps_errors, push_diag};
use crate::model::core_types::{deprecated_release_view, planned_release_view};
use crate::model::spec::{SpecDecl, SpecDeclView, lifecycle_error};
use crate::planned_syntax::marker_line_spec;
use crate::syntax::reserved_rest;
use crate::parser::decls::{
    adjacent_marker_spec, decl_from_parts, inexact_marker_message, marker_tag, opt_string_view, spec_header_spec,
};
use crate::parser::attestation::{ends_metadata, meta_record, metadata_ok};
use crate::parser::lines::{description_from, join};
use crate::planned_syntax::{DeclHeaderView, header_view};
use crate::parser::growth::{
    block_growth, lemma_diag_growth, lemma_growth_refl, lemma_growth_trans,
};
use crate::parser::lines::{collect_description_lines, join_strings};
use crate::planned_syntax::{
    PlannedAnnotationError, PlannedSyntax, parse_deprecated_annotation, parse_planned_annotation,
};
use crate::syntax::{
    ReservedSpecialAnnotation, is_any_tag_boundary, reserved_annotation_of,
    reserved_special_annotation, reserved_special_annotation_rest, starts_markdown_fence,
    tag_boundary, fence_line,
};
use crate::text::{WordError, concat3, owned, single_word, single_word_str, trim, trim_end_str, trim_str};

verus! {

/// Which configuration version the annotations follow.
#[derive(Debug, Clone, Copy, PartialEq, Eq, Structural)]
pub enum ParseDialect {
    CompatibilityV0,
    CurrentV1,
}

/// The rules a dialect selects.
#[derive(Debug, Clone, Copy)]
pub struct ParseRules {
    pub planned: PlannedSyntax,
}

impl ParseRules {
    pub fn for_dialect(dialect: ParseDialect) -> (r: Self)
        ensures
            r.planned == (match dialect {
                ParseDialect::CompatibilityV0 => PlannedSyntax::LegacyBackward,
                ParseDialect::CurrentV1 => PlannedSyntax::AdjacentOwnedSpec,
            }),
    {
        let planned = match dialect {
            ParseDialect::CompatibilityV0 => PlannedSyntax::LegacyBackward,
            ParseDialect::CurrentV1 => PlannedSyntax::AdjacentOwnedSpec,
        };
        ParseRules { planned }
    }
}

/// A line that can carry a reserved annotation begins with `@`.
pub open spec fn at_sign(t: Seq<char>) -> bool {
    t.len() > 0 && t[0] == '@'
}

/// The declaration most recently read in this block.
#[derive(Debug, Clone, Copy)]
pub struct BlockState {
    pub last_decl_idx: Option<usize>,
    pub last_decl_kind: Option<NodeKind>,
    pub last_decl_line: Option<usize>,
}

/// The remembered declaration, if any, is one that this block added.
spec fn state_ok(s: BlockState, start_len: nat, cur_len: nat) -> bool {
    s.last_decl_idx matches Some(i) ==> start_len <= i < cur_len
}

/// One error at `path:line` with `message` was appended; nothing else
/// changed.
pub open spec fn diag_pushed(
    old: ParsedRepo,
    new: ParsedRepo,
    path: Seq<char>,
    line: usize,
    message: Seq<char>,
) -> bool {
    &&& new.specs == old.specs
    &&& new.verifies == old.verifies
    &&& new.attests == old.attests
    &&& new.diagnostics@.len() == old.diagnostics@.len() + 1
    &&& new.diagnostics@.drop_last() == old.diagnostics@
    &&& error_at(new.diagnostics@.last(), path, line, message)
}

/// The lifecycle conflict that setting a marker (`planned` selects which,
/// `release` is its release) on declaration `s` would raise, if any.
pub open spec fn marker_conflict(s: SpecDeclView, planned: bool, release: Option<Seq<char>>) -> Option<
    Seq<char>,
> {
    if planned {
        lifecycle_error(s.kind, true, s.deprecated, s.deprecated_release is Some)
    } else {
        lifecycle_error(s.kind, s.planned, true, release is Some)
    }
}

/// Declaration `s` with the marker set.
pub open spec fn with_marker(s: SpecDeclView, planned: bool, release: Option<Seq<char>>) -> SpecDeclView {
    if planned {
        SpecDeclView { planned: true, planned_release: release, ..s }
    } else {
        SpecDeclView { deprecated: true, deprecated_release: release, ..s }
    }
}

/// The marker was set on declaration `i` when that raises no conflict, and
/// the conflict was reported at `line` otherwise; nothing else changed.
pub open spec fn marker_set(
    old: ParsedRepo,
    new: ParsedRepo,
    path: Seq<char>,
    line: usize,
    i: int,
    planned: bool,
    release: Option<Seq<char>>,
) -> bool {
    let s = old.specs@[i]@;
    &&& new.verifies == old.verifies
    &&& new.attests == old.attests
    &&& new.specs@.len() == old.specs@.len()
    &&& forall|j: int| 0 <= j < old.specs@.len() && j != i ==> #[trigger] new.specs@[j] == old.specs@[j]
    &&& match marker_conflict(s, planned, release) {
        None => new.diagnostics == old.diagnostics && new.specs@[i]@ == with_marker(s, planned, release),
        Some(m) => new.specs@[i]@ == s && new.diagnostics@.len() == old.diagnostics@.len() + 1
            && new.diagnostics@.drop_last() == old.diagnostics@ && error_at(
            new.diagnostics@.last(),
            path,
            line,
            m,
        ),
    }
}

/// The declaration a standalone marker on `line` belongs to under `syntax`,
/// or the message that refuses it: the latest declaration of the block in
/// the backward form, the declaration on the line just above in version 1;
/// in either case it must be a `@spec`.
pub open spec fn marker_owner(
    specs: Seq<SpecDeclView>,
    state: BlockState,
    line: usize,
    planned: bool,
    syntax: PlannedSyntax,
) -> Result<int, Seq<char>> {
    match syntax {
        PlannedSyntax::LegacyBackward => match state.last_decl_idx {
            Some(i) => if specs[i as int].kind == NodeKind::Spec {
                Ok(i as int)
            } else if planned {
                Err("@planned may only apply to @spec, not @group"@)
            } else {
                Err("@deprecated may only apply to @spec, not @group"@)
            },
            None => if planned {
                Err("@planned must appear after a @spec in the same block"@)
            } else {
                Err("@deprecated must appear after a @spec in the same block"@)
            },
        },
        PlannedSyntax::AdjacentOwnedSpec => {
            let above: usize = if line > 0 {
                (line - 1) as usize
            } else {
                0
            };
            let adjacent = state.last_decl_line == Some(above);
            if adjacent && state.last_decl_kind == Some(NodeKind::Spec) && state.last_decl_idx is Some {
                Ok(state.last_decl_idx->0 as int)
            } else if adjacent && state.last_decl_kind == Some(NodeKind::Group) {
                if planned {
                    Err("@planned may only apply to @spec, not @group"@)
                } else {
                    Err("@deprecated may only apply to @spec, not @group"@)
                }
            } else if state.last_decl_idx is Some {
                if planned {
                    Err(
                        "@planned must be adjacent to exactly one owning @spec; the backward-looking form is not allowed in version 1"@,
                    )
                } else {
                    Err(
                        "@deprecated must be adjacent to exactly one owning @spec; the backward-looking form is not allowed in version 1"@,
                    )
                }
            } else if planned {
                Err("@planned must be adjacent to exactly one owning @spec"@)
            } else {
                Err("@deprecated must be adjacent to exactly one owning @spec"@)
            }
        },
    }
}

/// What a standalone marker does: it is set on the declaration it belongs
/// to, or the refusal is reported at `line`.
pub open spec fn marker_applied(
    old: ParsedRepo,
    new: ParsedRepo,
    path: Seq<char>,
    state: BlockState,
    line: usize,
    planned: bool,
    release: Option<Seq<char>>,
    syntax: PlannedSyntax,
) -> bool {
    match marker_owner(spec_views(old.specs@), state, line, planned, syntax) {
        Ok(i) => marker_set(old, new, path, line, i, planned, release),
        Err(m) => diag_pushed(old, new, path, line, m),
    }
}

/// The views of a list of declarations.
pub open spec fn spec_views(s: Seq<SpecDecl>) -> Seq<SpecDeclView> {
    s.map_values(|d: SpecDecl| d@)
}

/// The line and message of each diagnostic.
pub open spec fn diag_lines(s: Seq<crate::model::spec::Diagnostic>) -> Seq<(usize, Seq<char>)> {
    s.map_values(|d: crate::model::spec::Diagnostic| (d.line, d.message@))
}

/// Appends the diagnostic, if there is one.
pub open spec fn push_opt(d: Seq<(usize, Seq<char>)>, o: Option<(usize, Seq<char>)>) -> Seq<(usize, Seq<char>)> {
    match o {
        Some(x) => d.push(x),
        None => d,
    }
}

pub proof fn lemma_diag_lines_push(
    old: Seq<crate::model::spec::Diagnostic>,
    new: Seq<crate::model::spec::Diagnostic>,
    line: usize,
    m: Seq<char>,
)
    requires
        new.len() == old.len() + 1,
        new.drop_last() == old,
        new.last().line == line,
        new.last().message@ == m,
    ensures
        diag_lines(new) == diag_lines(old).push((line, m)),
{
    assert forall|i: int| 0 <= i < old.len() implies new[i] == old[i] by {
        assert(new.drop_last()[i] == new[i]);
    }
    assert(diag_lines(new) =~= diag_lines(old).push((line, m)));
}

/// The state of reading a block: the declaration last read, whether a verify
/// reference was seen, whether a code fence is open, the declarations and
/// diagnostics so far, the verify references and attestations so far, and
/// whether the
/// diagnostics are known exactly (the
/// metadata of an attestation reports what this walk does not follow).
pub struct BlockWalk {
    pub state: BlockState,
    pub seen: bool,
    pub fence: bool,
    pub specs: Seq<SpecDeclView>,
    pub diags: Seq<(usize, Seq<char>)>,
    pub verifies: Seq<(Seq<char>, Seq<char>, usize, bool)>,
    pub attests: Seq<(Seq<char>, Seq<char>, usize, AttestScope, (Seq<char>, Seq<char>, Seq<char>, Option<u32>))>,
    pub exact: bool,
}

/// An attestation as its entries: spec id, path, line, scope, and its
/// metadata (artifact, owner, review date, review interval).
pub open spec fn attest_entry(a: AttestRef) -> (Seq<char>, Seq<char>, usize, AttestScope, (Seq<char>, Seq<char>, Seq<char>, Option<u32>)) {
    (a.spec_id@, a.location.path@, a.location.line, a.scope, (a.artifact@, a.owner@, a.last_reviewed@, a.review_interval_days))
}

/// The entries of a list of attestations.
pub open spec fn attest_views(s: Seq<AttestRef>) -> Seq<(Seq<char>, Seq<char>, usize, AttestScope, (Seq<char>, Seq<char>, Seq<char>, Option<u32>))> {
    s.map_values(|a: AttestRef| attest_entry(a))
}

/// A verify reference as its entries: spec id, path, line, and whether it
/// covers the whole file.
pub open spec fn verify_entry(v: crate::model::spec::VerifyRef) -> (Seq<char>, Seq<char>, usize, bool) {
    (v.spec_id@, v.location.path@, v.location.line, v.body_location is None)
}

/// The entries of a list of verify references.
pub open spec fn verify_views(s: Seq<crate::model::spec::VerifyRef>) -> Seq<(Seq<char>, Seq<char>, usize, bool)> {
    s.map_values(|v: crate::model::spec::VerifyRef| verify_entry(v))
}

/// The state of a walk that a parse result and a block state stand for.
pub open spec fn walk_of(p: ParsedRepo, st: BlockState) -> BlockWalk {
    BlockWalk {
        state: st,
        seen: false,
        fence: false,
        specs: spec_views(p.specs@),
        diags: diag_lines(p.diagnostics@),
        verifies: verify_views(p.verifies@),
        attests: attest_views(p.attests@),
        exact: true,
    }
}

/// The state before a block is read, over earlier results.
pub open spec fn walk_start(specs: Seq<SpecDeclView>, diags: Seq<(usize, Seq<char>)>, verifies: Seq<(Seq<char>, Seq<char>, usize, bool)>, attests: Seq<(Seq<char>, Seq<char>, usize, AttestScope, (Seq<char>, Seq<char>, Seq<char>, Option<u32>))>) -> BlockWalk {
    BlockWalk {
        state: BlockState { last_decl_idx: None, last_decl_kind: None, last_decl_line: None },
        seen: false,
        fence: false,
        specs,
        diags,
        verifies,
        attests,
        exact: true,
    }
}

/// What the line after a declaration at `index` says about one lifecycle
/// marker: whether it is there, its release, the index after what was read,
/// and the diagnostic of a refused marker.
pub open spec fn adjacent_step(block: CommentBlock, syntax: PlannedSyntax, k: NodeKind, index: int, planned: bool) -> (
    bool,
    Option<Seq<char>>,
    int,
    Option<(usize, Seq<char>)>,
) {
    if index + 1 >= block.lines@.len() {
        (false, None, index + 1, None)
    } else {
        let next = block.lines@[index + 1];
        let (st, rel, msg) = adjacent_marker_spec(k, trim(next.text@), syntax, planned);
        match st {
            AdjacentLifecycle::Absent => (false, None, index + 1, None),
            AdjacentLifecycle::Parsed => (true, rel, index + 2, None),
            AdjacentLifecycle::Invalid => (false, None, index + 2, match msg {
                Some(m) => Some((next.line, m)),
                None => None,
            }),
        }
    }
}

/// Reading a `@spec` or `@group` at `index` whose header `h` parsed (with
/// advisory message `hd`): the diagnostics of the header and of the
/// adjacent markers, then the declaration with its description, or the
/// lifecycle conflict that refuses it; and the index after the description.
#[verifier::opaque]
pub open spec fn decl_step(
    block: CommentBlock,
    syntax: PlannedSyntax,
    index: int,
    k: NodeKind,
    h: DeclHeaderView,
    hd: Option<Seq<char>>,
    w: BlockWalk,
) -> (int, BlockWalk) {
    let line = block.lines@[index].line;
    let d0 = match hd {
        Some(m) => w.diags.push((line, m)),
        None => w.diags,
    };
    let (ap0, apr0, pc, pm) = adjacent_step(block, syntax, k, index, true);
    let d1 = push_opt(d0, pm);
    let (ad0, adr0, dc, dm) = adjacent_step(block, syntax, k, index, false);
    let d2 = push_opt(d1, dm);
    let cursor = if dc > pc {
        dc
    } else {
        pc
    };
    let l1 = block.lines@[index + 1].line;
    let d3 = if h.planned && ap0 {
        d2.push((l1, "@planned must appear only once per owning @spec"@))
    } else {
        d2
    };
    let d4 = if h.deprecated && ad0 {
        d3.push((l1, "@deprecated must appear only once per owning @spec"@))
    } else {
        d3
    };
    let conflict = "@spec may not be both planned and deprecated"@;
    let d5 = if h.planned && ad0 {
        d4.push((l1, conflict))
    } else {
        d4
    };
    let ad = ad0 && !h.planned;
    let adr = if h.planned && ad0 {
        None
    } else {
        adr0
    };
    let d6 = if h.deprecated && ap0 {
        d5.push((l1, conflict))
    } else {
        d5
    };
    let ap = ap0 && !h.deprecated;
    let apr = if h.deprecated && ap0 {
        None
    } else {
        apr0
    };
    let (desc, end) = description_from(block.lines@, cursor, false);
    let d = decl_from_parts(h, k, join(desc, " "@), ap, apr, ad, adr, block.path@, line);
    match lifecycle_error(d.kind, d.planned, d.deprecated, d.deprecated_release is Some) {
        None => (end, BlockWalk {
            state: BlockState {
                last_decl_idx: Some(w.specs.len() as usize),
                last_decl_kind: Some(k),
                last_decl_line: Some(line),
            },
            specs: w.specs.push(d),
            diags: d6,
            ..w
        }),
        Some(m) => (end, BlockWalk { diags: d6.push((line, m)), ..w }),
    }
}

/// A standalone lifecycle marker read as `res`: the declaration it belongs
/// to takes it, or the refusal is reported.
pub open spec fn marker_step(
    syntax: PlannedSyntax,
    line: usize,
    planned: bool,
    res: Result<Option<Seq<char>>, PlannedAnnotationError>,
    w: BlockWalk,
) -> BlockWalk {
    match res {
        Ok(rel) => match marker_owner(w.specs, w.state, line, planned, syntax) {
            Ok(i) => match marker_conflict(w.specs[i], planned, rel) {
                None => BlockWalk { specs: w.specs.update(i, with_marker(w.specs[i], planned, rel)), ..w },
                Some(m) => BlockWalk { diags: w.diags.push((line, m)), ..w },
            },
            Err(m) => BlockWalk { diags: w.diags.push((line, m)), ..w },
        },
        Err(PlannedAnnotationError::InvalidRelease) => BlockWalk {
            diags: w.diags.push(
                (line, if planned {
                    "planned release metadata must not be empty"@
                } else {
                    "deprecated release metadata must not be empty"@
                }),
            ),
            ..w
        },
        Err(PlannedAnnotationError::InvalidSuffix) => BlockWalk {
            diags: w.diags.push((line, inexact_marker_message(planned))),
            ..w
        },
    }
}

/// A `@verifies` or `@fileverifies` line: only one per block, its id must be
/// a single word, and an item-scoped one needs a documented item.
pub open spec fn verify_step(block: CommentBlock, line: usize, rest: Seq<char>, file_scoped: bool, w: BlockWalk) -> BlockWalk {
    if w.seen {
        BlockWalk {
            diags: w.diags.push(
                (line, if file_scoped {
                    "annotation block may contain only one @verifies or @fileverifies"@
                } else {
                    "annotation block may contain only one @verifies"@
                }),
            ),
            ..w
        }
    } else {
        match single_word(rest) {
            Err(e) => BlockWalk {
                diags: w.diags.push(
                    (line, spec_id_message(
                        e,
                        if file_scoped {
                            "@fileverifies"@
                        } else {
                            "@verifies"@
                        },
                    )),
                ),
                ..w
            },
            Ok(id) => if file_scoped || block.owned_item is Some {
                BlockWalk { seen: true, verifies: w.verifies.push((id, block.path@, line, file_scoped)), ..w }
            } else {
                BlockWalk {
                    seen: true,
                    diags: w.diags.push((line, "@verifies must attach to the next supported item"@)),
                    ..w
                }
            },
        }
    }
}

/// The index of the first line from `i` on that ends an attestation's
/// metadata section.
pub open spec fn meta_end(lines: Seq<crate::model::core_types::BlockLine>, i: int) -> int
    decreases lines.len() - i,
{
    if i < 0 || i >= lines.len() {
        i
    } else if ends_metadata(lines[i].text@, false) {
        i
    } else {
        meta_end(lines, i + 1)
    }
}

proof fn lemma_meta_end(lines: Seq<crate::model::core_types::BlockLine>, i: int, e: int)
    requires
        0 <= i,
        crate::parser::attestation::metadata_extent(lines, i, e, false),
    ensures
        meta_end(lines, i) == e,
    decreases lines.len() - i,
{
    if i < e {
        lemma_meta_end(lines, i + 1, e);
    }
}

/// A line that belongs to the architecture parser.
pub open spec fn arch_line(t: Seq<char>) -> bool {
    reserved_annotation_of(t) matches Some(k) && (k == ReservedSpecialAnnotation::Module || k
        == ReservedSpecialAnnotation::Area || k == ReservedSpecialAnnotation::Implements || k
        == ReservedSpecialAnnotation::FileImplements)
}

/// The attestations after one more is read: it is added when its metadata
/// was accepted.
pub open spec fn attest_push(
    attests: Seq<(Seq<char>, Seq<char>, usize, AttestScope, (Seq<char>, Seq<char>, Seq<char>, Option<u32>))>,
    a: (Seq<char>, Seq<char>, usize, AttestScope, (Seq<char>, Seq<char>, Seq<char>, Option<u32>)),
    accepted: bool,
) -> Seq<(Seq<char>, Seq<char>, usize, AttestScope, (Seq<char>, Seq<char>, Seq<char>, Option<u32>))> {
    if accepted {
        attests.push(a)
    } else {
        attests
    }
}

/// Reading line `index` of a block: the index to read next and the new
/// state.
#[verifier::opaque]
pub open spec fn block_step(block: CommentBlock, syntax: PlannedSyntax, index: int, w: BlockWalk) -> (int, BlockWalk) {
    let t = trim(block.lines@[index].text@);
    let line = block.lines@[index].line;
    if fence_line(t) {
        (index + 1, BlockWalk { fence: !w.fence, ..w })
    } else if w.fence || t.len() == 0 {
        (index + 1, w)
    } else {
        match decl_annotation(t) {
            Some((k, rest)) => match spec_header_spec(k, rest, syntax) {
                Err(m) => (index + 1, BlockWalk { diags: w.diags.push((line, m)), ..w }),
                Ok((h, hd)) => decl_step(block, syntax, index, k, h, hd, w),
            },
            None => match marker_line_spec(t, "@planned"@) {
                Some(res) => (index + 1, marker_step(syntax, line, true, res, w)),
                None => match marker_line_spec(t, "@deprecated"@) {
                    Some(res) => (index + 1, marker_step(syntax, line, false, res, w)),
                    None => match verify_annotation(t) {
                        Some((rest, file_scoped)) => (index + 1, verify_step(block, line, rest, file_scoped, w)),
                        None => match attest_line_annotation(t) {
                            Some((rest, scope)) => match single_word(rest) {
                                Err(e) => (index + 1, BlockWalk {
                                    diags: w.diags.push(
                                        (line, spec_id_message(e, crate::model::spec::attest_annotation(scope))),
                                    ),
                                    ..w
                                }),
                                Ok(id) => (meta_end(block.lines@, index + 1), BlockWalk {
                                    exact: false,
                                    attests: attest_push(w.attests, (id, block.path@, line, scope, meta_record(block.lines@, index + 1, meta_end(block.lines@, index + 1), false)), metadata_ok(
                                        block.lines@,
                                        index + 1,
                                        meta_end(block.lines@, index + 1),
                                        false,
                                    )),
                                    ..w
                                }),
                            },
                            None => if arch_line(t) {
                                (skip_arch_spec(block.lines@, index + 1), w)
                            } else {
                                (index + 1, w)
                            },
                        },
                    },
                },
            },
        }
    }
}

/// Reading a block from line `index` on: the declarations and diagnostics
/// it ends with, and whether the diagnostics are known exactly.
#[verifier::opaque]
pub open spec fn block_walk(block: CommentBlock, syntax: PlannedSyntax, index: int, w: BlockWalk) -> BlockWalk
    decreases block.lines@.len() - index,
{
    if index < 0 || index >= block.lines@.len() {
        w
    } else {
        let (next, w2) = block_step(block, syntax, index, w);
        if index < next <= block.lines@.len() {
            block_walk(block, syntax, next, w2)
        } else {
            w
        }
    }
}

/// The declarations and diagnostics that reading a whole block gives after
/// earlier results.
pub open spec fn block_result(
    block: CommentBlock,
    syntax: PlannedSyntax,
    specs: Seq<SpecDeclView>,
    diags: Seq<(usize, Seq<char>)>,
    verifies: Seq<(Seq<char>, Seq<char>, usize, bool)>,
    attests: Seq<(Seq<char>, Seq<char>, usize, AttestScope, (Seq<char>, Seq<char>, Seq<char>, Option<u32>))>,
) -> BlockWalk {
    block_walk(block, syntax, 0, walk_start(specs, diags, verifies, attests))
}

/// The declarations a walk ends with, and whether it loses track of the
/// diagnostics, do not depend on the diagnostics it starts with.
pub proof fn lemma_walk_specs(block: CommentBlock, syntax: PlannedSyntax, index: int, a: BlockWalk, b: BlockWalk)
    requires
        a.state == b.state,
        a.seen == b.seen,
        a.fence == b.fence,
        a.specs == b.specs,
        a.verifies == b.verifies,
        a.attests == b.attests,
        !b.exact ==> !a.exact,
    ensures
        block_walk(block, syntax, index, a).specs == block_walk(block, syntax, index, b).specs,
        block_walk(block, syntax, index, a).verifies == block_walk(block, syntax, index, b).verifies,
        block_walk(block, syntax, index, a).attests == block_walk(block, syntax, index, b).attests,
        !block_walk(block, syntax, index, b).exact ==> !block_walk(block, syntax, index, a).exact,
        !a.exact ==> !block_walk(block, syntax, index, a).exact,
    decreases block.lines@.len() - index,
{
    reveal(block_step);
    reveal(block_walk);
    reveal(decl_step);
    if 0 <= index < block.lines@.len() {
        let (na, a2) = block_step(block, syntax, index, a);
        let (nb, b2) = block_step(block, syntax, index, b);
        assert(na == nb);
        assert(a2.state == b2.state && a2.seen == b2.seen && a2.fence == b2.fence && a2.specs == b2.specs && a2.verifies == b2.verifies && a2.attests == b2.attests);
        assert(!b2.exact ==> !a2.exact);
        assert(!a.exact ==> !a2.exact);
        if index < na <= block.lines@.len() {
            lemma_walk_specs(block, syntax, na, a2, b2);
        }
    }
}

pub(crate) proof fn lemma_reserved_rest_at(line: Seq<char>, k: ReservedSpecialAnnotation)
    requires
        crate::syntax::reserved_rest(line, k) is Some,
    ensures
        at_sign(line),
{
    let t = crate::syntax::reserved_tag(k);
    assert(t.len() > 0 && t[0] == '@') by {
        reveal_strlit("@spec");
        reveal_strlit("@group");
        reveal_strlit("@planned");
        reveal_strlit("@deprecated");
        reveal_strlit("@verifies");
        reveal_strlit("@fileverifies");
        reveal_strlit("@attests");
        reveal_strlit("@fileattests");
        reveal_strlit("@module");
        reveal_strlit("@area");
        reveal_strlit("@implements");
        reveal_strlit("@fileimplements");
        reveal_strlit("@pattern");
        reveal_strlit("@applies");
        reveal_strlit("@fileapplies");
        reveal_strlit("@strictness");
    }
    assert(line.subrange(0, t.len() as int)[0] == line[0]);
}

proof fn lemma_marker_at(text: Seq<char>, planned: bool)
    requires
        crate::planned_syntax::marker_line_spec(text, crate::parser::decls::marker_tag(planned)) is Some,
    ensures
        at_sign(text),
{
    reveal_strlit("@planned");
    reveal_strlit("@deprecated");
    let t = crate::parser::decls::marker_tag(planned);
    assert(text[0] == text.take(t.len() as int)[0]);
}

/// Appends an error for this block; the result still grows as the block may
/// grow it.
pub(crate) fn block_diag(
    parsed: &mut ParsedRepo,
    block: &CommentBlock,
    line: usize,
    message: &str,
    Ghost(start): Ghost<ParsedRepo>,
)
    requires
        block_growth(start, *old(parsed), *block),
    ensures
        block_growth(start, *final(parsed), *block),
        diag_pushed(*old(parsed), *final(parsed), block.path@, line, message@),
        diag_lines(final(parsed).diagnostics@) == diag_lines(old(parsed).diagnostics@).push((line, message@)),
{
    let ghost before = *parsed;
    push_diag(parsed, block.path.as_str(), line, message);
    proof {
        lemma_diag_lines_push(before.diagnostics@, parsed.diagnostics@, line, message@);
        lemma_diag_growth(before, *parsed, *block);
        lemma_growth_trans(start, before, *parsed, *block);
    }
}

/// Why no spec id could be read after `annotation`.
pub open spec fn spec_id_message(e: WordError, annotation: Seq<char>) -> Seq<char> {
    match e {
        WordError::Missing => "missing spec id after "@ + annotation,
        WordError::Trailing => "unexpected trailing content after "@ + annotation + " spec id"@,
    }
}

/// Reads exactly one spec id after a support annotation, reporting a
/// missing id or trailing words.
fn parse_supported_spec_id(
    rest: &str,
    parsed: &mut ParsedRepo,
    block: &CommentBlock,
    line: usize,
    annotation: &str,
    Ghost(start): Ghost<ParsedRepo>,
) -> (r: Option<String>)
    requires
        block_growth(start, *old(parsed), *block),
    ensures
        block_growth(start, *final(parsed), *block),
        final(parsed).specs == old(parsed).specs,
        final(parsed).verifies == old(parsed).verifies,
        final(parsed).attests == old(parsed).attests,
        match r {
            Some(id) => single_word(rest@) == Ok::<Seq<char>, WordError>(id@) && id@.len() > 0
                && *final(parsed) == *old(parsed),
            None => single_word(rest@) is Err && diag_pushed(
                *old(parsed),
                *final(parsed),
                block.path@,
                line,
                spec_id_message(single_word(rest@)->Err_0, annotation@),
            ),
        },
        r is None ==> diag_lines(final(parsed).diagnostics@) == diag_lines(old(parsed).diagnostics@).push(
            (line, spec_id_message(single_word(rest@)->Err_0, annotation@)),
        ),
{
    match single_word_str(rest) {
        Ok(id) => {
            proof {
                crate::text::lemma_single_word_shape(rest@);
            }
            Some(owned(id))
        },
        Err(WordError::Missing) => {
            let message = concat3("missing spec id after ", annotation, "");
            proof {
                reveal_strlit("");
                assert(message@ =~= "missing spec id after "@ + annotation@);
            }
            block_diag(parsed, block, line, message.as_str(), Ghost(start));
            None
        },
        Err(WordError::Trailing) => {
            let message = concat3("unexpected trailing content after ", annotation, " spec id");
            block_diag(parsed, block, line, message.as_str(), Ghost(start));
            None
        },
    }
}

/// Reads the line after a declaration for an adjacent `@planned`.
fn adjacent_planned_state(
    block: &CommentBlock,
    parsed: &mut ParsedRepo,
    kind: NodeKind,
    index: usize,
    rules: ParseRules,
    Ghost(start): Ghost<ParsedRepo>,
) -> (r: (bool, Option<PlannedRelease>, usize))
    requires
        index < block.lines@.len(),
        block_growth(start, *old(parsed), *block),
    ensures
        block_growth(start, *final(parsed), *block),
        final(parsed).specs == old(parsed).specs,
        final(parsed).verifies == old(parsed).verifies,
        final(parsed).attests == old(parsed).attests,
        r.2 == index + 1 || r.2 == index + 2,
        r.2 <= block.lines@.len(),
        r.0 ==> r.2 == index + 2,
        ({
            let a = adjacent_step(*block, rules.planned, kind, index as int, true);
            &&& r.0 == a.0
            &&& planned_release_view(r.1) == a.1
            &&& r.2 == a.2
            &&& diag_lines(final(parsed).diagnostics@) == push_opt(diag_lines(old(parsed).diagnostics@), a.3)
        }),
{
    let len = block.lines.len();
    let next_index = index + 1;
    if next_index >= block.lines.len() {
        return (false, None, next_index);
    }
    let next = &block.lines[next_index];
    let (state, release, message) = parse_adjacent_spec_planned(
        kind,
        trim_str(next.text.as_str()),
        rules.planned,
    );
    match state {
        AdjacentLifecycle::Absent => (false, None, next_index),
        AdjacentLifecycle::Parsed => (true, release, next_index + 1),
        AdjacentLifecycle::Invalid => {
            if let Some(message) = message {
                block_diag(parsed, block, next.line, message, Ghost(start));
            }
            (false, None, next_index + 1)
        },
    }
}

/// Reads the line after a declaration for an adjacent `@deprecated`.
fn adjacent_deprecated_state(
    block: &CommentBlock,
    parsed: &mut ParsedRepo,
    kind: NodeKind,
    index: usize,
    rules: ParseRules,
    Ghost(start): Ghost<ParsedRepo>,
) -> (r: (bool, Option<DeprecatedRelease>, usize))
    requires
        index < block.lines@.len(),
        block_growth(start, *old(parsed), *block),
    ensures
        block_growth(start, *final(parsed), *block),
        final(parsed).specs == old(parsed).specs,
        final(parsed).verifies == old(parsed).verifies,
        final(parsed).attests == old(parsed).attests,
        r.2 == index + 1 || r.2 == index + 2,
        r.2 <= block.lines@.len(),
        r.0 ==> r.2 == index + 2,
        ({
            let a = adjacent_step(*block, rules.planned, kind, index as int, false);
            &&& r.0 == a.0
            &&& deprecated_release_view(r.1) == a.1
            &&& r.2 == a.2
            &&& diag_lines(final(parsed).diagnostics@) == push_opt(diag_lines(old(parsed).diagnostics@), a.3)
        }),
{
    let len = block.lines.len();
    let next_index = index + 1;
    if next_index >= block.lines.len() {
        return (false, None, next_index);
    }
    let next = &block.lines[next_index];
    let (state, release, message) = parse_adjacent_spec_deprecated(
        kind,
        trim_str(next.text.as_str()),
        rules.planned,
    );
    match state {
        AdjacentLifecycle::Absent => (false, None, next_index),
        AdjacentLifecycle::Parsed => (true, release, next_index + 1),
        AdjacentLifecycle::Invalid => {
            if let Some(message) = message {
                block_diag(parsed, block, next.line, message, Ghost(start));
            }
            (false, None, next_index + 1)
        },
    }
}

/// The `@spec` or `@group` declaration a trimmed line opens: its kind and
/// the text after the tag.
pub open spec fn decl_annotation(t: Seq<char>) -> Option<(NodeKind, Seq<char>)> {
    match reserved_rest(t, ReservedSpecialAnnotation::Spec) {
        Some(rest) => Some((NodeKind::Spec, rest)),
        None => match reserved_rest(t, ReservedSpecialAnnotation::Group) {
            Some(rest) => Some((NodeKind::Group, rest)),
            None => None,
        },
    }
}

/// Handles a `@spec` or `@group` line: the header, adjacent lifecycle
/// markers, and the description that follows. Returns the index of the
/// next unread line when the line was a declaration.
fn handle_decl_line(
    block: &CommentBlock,
    parsed: &mut ParsedRepo,
    state: &mut BlockState,
    index: usize,
    line: usize,
    trimmed: &str,
    rules: ParseRules,
    Ghost(start): Ghost<ParsedRepo>,
) -> (r: Option<usize>)
    requires
        index < block.lines@.len(),
        line == block.lines@[index as int].line,
        block_growth(start, *old(parsed), *block),
        state_ok(*old(state), start.specs@.len(), old(parsed).specs@.len()),
    ensures
        block_growth(start, *final(parsed), *block),
        state_ok(*final(state), start.specs@.len(), final(parsed).specs@.len()),
        final(parsed).verifies == old(parsed).verifies,
        final(parsed).attests == old(parsed).attests,
        r matches Some(n) ==> index < n <= block.lines@.len(),
        !at_sign(trimmed@) ==> r is None && *final(parsed) == *old(parsed) && *final(state)
            == *old(state),
        (r is Some) == (decl_annotation(trimmed@) matches Some((k, rest)) && spec_header_spec(
            k,
            rest,
            rules.planned,
        ) is Ok),
        match decl_annotation(trimmed@) {
            None => *final(parsed) == *old(parsed) && *final(state) == *old(state),
            Some((k, rest)) => match spec_header_spec(k, rest, rules.planned) {
                Err(m) => *final(state) == *old(state) && diag_pushed(
                    *old(parsed),
                    *final(parsed),
                    block.path@,
                    line,
                    m,
                ),
                Ok((h, hd)) => {
                    &&& ({
                        let (n, w2) = decl_step(
                            *block,
                            rules.planned,
                            index as int,
                            k,
                            h,
                            hd,
                            walk_of(*old(parsed), *old(state)),
                        );
                        &&& r matches Some(m) && m as int == n
                        &&& *final(state) == w2.state
                        &&& spec_views(final(parsed).specs@) == w2.specs
                        &&& diag_lines(final(parsed).diagnostics@) == w2.diags
                    })
                    &&& old(parsed).specs@.is_prefix_of(final(parsed).specs@)
                    &&& final(parsed).specs@.len() <= old(parsed).specs@.len() + 1
                    &&& final(parsed).specs@.len() == old(parsed).specs@.len() + 1 ==> {
                        let d = final(parsed).specs@.last()@;
                        &&& d.id == h.id
                        &&& d.kind == k
                        &&& d.line == line
                        &&& final(state).last_decl_idx == Some(old(parsed).specs@.len() as usize)
                        &&& final(state).last_decl_kind == Some(k)
                        &&& final(state).last_decl_line == Some(line)
                    }
                },
            },
        },
{
    let (kind, rest) = match reserved_special_annotation_rest(trimmed, ReservedSpecialAnnotation::Spec) {
        Some(rest) => {
            proof {
                lemma_reserved_rest_at(trimmed@, ReservedSpecialAnnotation::Spec);
            }
            (NodeKind::Spec, rest)
        },
        None => match reserved_special_annotation_rest(trimmed, ReservedSpecialAnnotation::Group) {
            Some(rest) => {
                proof {
                    lemma_reserved_rest_at(trimmed@, ReservedSpecialAnnotation::Group);
                }
                (NodeKind::Group, rest)
            },
            None => return None,
        },
    };
    let (header, header_diag) = match parse_spec_decl_header(kind, rest, rules.planned) {
        Ok(parsed_header) => parsed_header,
        Err(message) => {
            block_diag(parsed, block, line, message.as_str(), Ghost(start));
            return None;
        },
    };
    proof {
        reveal(decl_step);
    }
    let ghost w0 = walk_of(*old(parsed), *old(state));
    let ghost h = header_view(header);
    let ghost hd = opt_string_view(header_diag);
    let ghost d0 = match hd {
        Some(m) => w0.diags.push((line, m)),
        None => w0.diags,
    };
    if let Some(message) = header_diag {
        block_diag(parsed, block, line, message.as_str(), Ghost(start));
    }
    assert(diag_lines(parsed.diagnostics@) == d0);
    assert(spec_views(parsed.specs@) == w0.specs);
    let (mut adjacent_planned, mut adjacent_planned_release, mut cursor) = adjacent_planned_state(
        block,
        parsed,
        kind,
        index,
        rules,
        Ghost(start),
    );
    let (mut adjacent_deprecated, mut adjacent_deprecated_release, deprecated_cursor) =
        adjacent_deprecated_state(block, parsed, kind, index, rules, Ghost(start));
    if deprecated_cursor > cursor {
        cursor = deprecated_cursor;
    }
    let ghost ap_s = adjacent_step(*block, rules.planned, kind, index as int, true);
    let ghost ad_s = adjacent_step(*block, rules.planned, kind, index as int, false);
    let ghost d2 = push_opt(push_opt(d0, ap_s.3), ad_s.3);
    assert(diag_lines(parsed.diagnostics@) == d2);
    let ghost l1 = block.lines@[index as int + 1].line;
    let ghost d3 = if h.planned && ap_s.0 {
        d2.push((l1, "@planned must appear only once per owning @spec"@))
    } else {
        d2
    };
    let ghost d4 = if h.deprecated && ad_s.0 {
        d3.push((l1, "@deprecated must appear only once per owning @spec"@))
    } else {
        d3
    };
    let ghost d5 = if h.planned && ad_s.0 {
        d4.push((l1, "@spec may not be both planned and deprecated"@))
    } else {
        d4
    };
    let ghost d6 = if h.deprecated && ap_s.0 {
        d5.push((l1, "@spec may not be both planned and deprecated"@))
    } else {
        d5
    };
    if header.planned && adjacent_planned {
        block_diag(
            parsed,
            block,
            block.lines[index + 1].line,
            "@planned must appear only once per owning @spec",
            Ghost(start),
        );
    }
    if header.deprecated && adjacent_deprecated {
        block_diag(
            parsed,
            block,
            block.lines[index + 1].line,
            "@deprecated must appear only once per owning @spec",
            Ghost(start),
        );
    }
    if header.planned && adjacent_deprecated {
        block_diag(
            parsed,
            block,
            block.lines[index + 1].line,
            "@spec may not be both planned and deprecated",
            Ghost(start),
        );
        adjacent_deprecated = false;
        adjacent_deprecated_release = None;
    }
    if header.deprecated && adjacent_planned {
        block_diag(
            parsed,
            block,
            block.lines[index + 1].line,
            "@spec may not be both planned and deprecated",
            Ghost(start),
        );
        adjacent_planned = false;
        adjacent_planned_release = None;
    }
    assert(diag_lines(parsed.diagnostics@) == d6);
    assert(spec_views(parsed.specs@) == w0.specs);
    let ghost desc_start = cursor as int;
    let description_lines = collect_description_lines(&block.lines, &mut cursor);
    let text = join_strings(&description_lines, " ");
    let location = SourceLocation { path: block.path.clone(), line };
    let lifecycle = SpecLifecycleMarkers {
        planned: adjacent_planned,
        planned_release: adjacent_planned_release,
        deprecated: adjacent_deprecated,
        deprecated_release: adjacent_deprecated_release,
    };
    match build_spec_decl(header, kind, text, lifecycle, location) {
        Ok(spec) => {
            let ghost before = *parsed;
            parsed.specs.push(spec);
            let n = parsed.specs.len() - 1;
            state.last_decl_idx = Some(n);
            state.last_decl_kind = Some(kind);
            state.last_decl_line = Some(line);
            proof {
                assert(spec_views(parsed.specs@) =~= spec_views(before.specs@).push(spec@));
                assert(before.diagnostics@.take(before.diagnostics@.len() as int) =~= before.diagnostics@);
                assert(block_growth(before, *parsed, *block)) by {
                    assert(before.verifies@.take(before.verifies@.len() as int) =~= before.verifies@);
                    assert(before.attests@.take(before.attests@.len() as int) =~= before.attests@);
                    assert forall|i: int| 0 <= i < before.specs@.len() implies #[trigger] parsed.specs@[i]
                        == before.specs@[i] by {}
                }
                lemma_growth_trans(start, before, *parsed, *block);
            }
            Some(cursor)
        },
        Err(err) => {
            block_diag(parsed, block, line, err.as_str(), Ghost(start));
            Some(cursor)
        },
    }
}


/// Records a plan state on a declaration of this block, reporting a
/// lifecycle conflict instead.
fn set_decl_plan(
    parsed: &mut ParsedRepo,
    block: &CommentBlock,
    line: usize,
    spec_index: usize,
    planned_release: Option<PlannedRelease>,
    Ghost(start): Ghost<ParsedRepo>,
)
    requires
        start.specs@.len() <= spec_index < old(parsed).specs@.len(),
        block_growth(start, *old(parsed), *block),
    ensures
        block_growth(start, *final(parsed), *block),
        final(parsed).specs@.len() == old(parsed).specs@.len(),
        final(parsed).verifies == old(parsed).verifies,
        final(parsed).attests == old(parsed).attests,        marker_set(
            *old(parsed),
            *final(parsed),
            block.path@,
            line,
            spec_index as int,
            true,
            planned_release_view(planned_release),
        ),
{
    let ghost before = *parsed;
    let result = parsed.specs[spec_index].set_plan(PlanState::planned(planned_release));
    proof {
        assert(block_growth(start, *parsed, *block)) by {
            assert forall|i: int| 0 <= i < start.specs@.len() implies #[trigger] parsed.specs@[i]
                == start.specs@[i] by {
                assert(parsed.specs@[i] == before.specs@[i]);
            }
            assert forall|i: int| start.specs@.len() <= i < parsed.specs@.len() implies (
            #[trigger] parsed.specs@[i])@.valid() && parsed.specs@[i]@.path == block.path@ by {
                if i != spec_index {
                    assert(parsed.specs@[i] == before.specs@[i]);
                }
            }
        }
    }
    if let Err(err) = result {
        let message = err.to_string();
        block_diag(parsed, block, line, message.as_str(), Ghost(start));
    }
}

/// Records the deprecated state on a declaration of this block, reporting a
/// lifecycle conflict instead.
fn set_decl_deprecated(
    parsed: &mut ParsedRepo,
    block: &CommentBlock,
    line: usize,
    spec_index: usize,
    deprecated_release: Option<DeprecatedRelease>,
    Ghost(start): Ghost<ParsedRepo>,
)
    requires
        start.specs@.len() <= spec_index < old(parsed).specs@.len(),
        block_growth(start, *old(parsed), *block),
    ensures
        block_growth(start, *final(parsed), *block),
        final(parsed).specs@.len() == old(parsed).specs@.len(),
        final(parsed).verifies == old(parsed).verifies,
        final(parsed).attests == old(parsed).attests,        marker_set(
            *old(parsed),
            *final(parsed),
            block.path@,
            line,
            spec_index as int,
            false,
            deprecated_release_view(deprecated_release),
        ),
{
    let ghost before = *parsed;
    let result = parsed.specs[spec_index].set_deprecated(true, deprecated_release);
    proof {
        assert(block_growth(start, *parsed, *block)) by {
            assert forall|i: int| 0 <= i < start.specs@.len() implies #[trigger] parsed.specs@[i]
                == start.specs@[i] by {
                assert(parsed.specs@[i] == before.specs@[i]);
            }
            assert forall|i: int| start.specs@.len() <= i < parsed.specs@.len() implies (
            #[trigger] parsed.specs@[i])@.valid() && parsed.specs@[i]@.path == block.path@ by {
                if i != spec_index {
                    assert(parsed.specs@[i] == before.specs@[i]);
                }
            }
        }
    }
    if let Err(err) = result {
        let message = err.to_string();
        block_diag(parsed, block, line, message.as_str(), Ghost(start));
    }
}

fn same_line(a: Option<usize>, b: usize) -> (r: bool)
    ensures
        r == (a == Some(b)),
{
    match a {
        Some(x) => x == b,
        None => false,
    }
}

fn is_kind(a: Option<NodeKind>, k: NodeKind) -> (r: bool)
    ensures
        r == (a == Some(k)),
{
    match a {
        Some(x) => x == k,
        None => false,
    }
}

/// Applies a standalone lifecycle marker (`planned` selects which) to the
/// declaration it belongs to under the dialect, or reports why it cannot.
fn apply_standalone_marker(
    parsed: &mut ParsedRepo,
    block: &CommentBlock,
    state: &BlockState,
    line: usize,
    planned: bool,
    planned_release: Option<PlannedRelease>,
    deprecated_release: Option<DeprecatedRelease>,
    rules: ParseRules,
    Ghost(start): Ghost<ParsedRepo>,
)
    requires
        block_growth(start, *old(parsed), *block),
        state_ok(*state, start.specs@.len(), old(parsed).specs@.len()),
    ensures
        block_growth(start, *final(parsed), *block),
        final(parsed).specs@.len() == old(parsed).specs@.len(),
        final(parsed).verifies == old(parsed).verifies,
        final(parsed).attests == old(parsed).attests,
        marker_applied(
            *old(parsed),
            *final(parsed),
            block.path@,
            *state,
            line,
            planned,
            if planned {
                planned_release_view(planned_release)
            } else {
                deprecated_release_view(deprecated_release)
            },
            rules.planned,
        ),
{
    match rules.planned {
        PlannedSyntax::LegacyBackward => {
            match state.last_decl_idx {
                Some(spec_index) => {
                    if parsed.specs[spec_index].kind() == NodeKind::Spec {
                        if planned {
                            set_decl_plan(parsed, block, line, spec_index, planned_release, Ghost(start));
                        } else {
                            set_decl_deprecated(parsed, block, line, spec_index, deprecated_release, Ghost(start));
                        }
                    } else if planned {
                        block_diag(parsed, block, line, "@planned may only apply to @spec, not @group", Ghost(start));
                    } else {
                        block_diag(parsed, block, line, "@deprecated may only apply to @spec, not @group", Ghost(start));
                    }
                },
                None => {
                    if planned {
                        block_diag(parsed, block, line, "@planned must appear after a @spec in the same block", Ghost(start));
                    } else {
                        block_diag(parsed, block, line, "@deprecated must appear after a @spec in the same block", Ghost(start));
                    }
                },
            }
        },
        PlannedSyntax::AdjacentOwnedSpec => {
            let adjacent_line: usize = if line > 0 {
                line - 1
            } else {
                0
            };
            let adjacent = same_line(state.last_decl_line, adjacent_line);
            if adjacent && is_kind(state.last_decl_kind, NodeKind::Spec) {
                if let Some(spec_index) = state.last_decl_idx {
                    if planned {
                        set_decl_plan(parsed, block, line, spec_index, planned_release, Ghost(start));
                    } else {
                        set_decl_deprecated(parsed, block, line, spec_index, deprecated_release, Ghost(start));
                    }
                    return;
                }
            }
            if adjacent && is_kind(state.last_decl_kind, NodeKind::Group) {
                if planned {
                    block_diag(parsed, block, line, "@planned may only apply to @spec, not @group", Ghost(start));
                } else {
                    block_diag(parsed, block, line, "@deprecated may only apply to @spec, not @group", Ghost(start));
                }
            } else if state.last_decl_idx.is_some() {
                if planned {
                    block_diag(parsed, block, line, "@planned must be adjacent to exactly one owning @spec; the backward-looking form is not allowed in version 1", Ghost(start));
                } else {
                    block_diag(parsed, block, line, "@deprecated must be adjacent to exactly one owning @spec; the backward-looking form is not allowed in version 1", Ghost(start));
                }
            } else if planned {
                block_diag(parsed, block, line, "@planned must be adjacent to exactly one owning @spec", Ghost(start));
            } else {
                block_diag(parsed, block, line, "@deprecated must be adjacent to exactly one owning @spec", Ghost(start));
            }
        },
    }
}

proof fn lemma_marker_views(
    old: ParsedRepo,
    new: ParsedRepo,
    path: Seq<char>,
    st: BlockState,
    line: usize,
    planned: bool,
    rel: Option<Seq<char>>,
    syntax: PlannedSyntax,
)
    requires
        marker_applied(old, new, path, st, line, planned, rel, syntax),
        st.last_decl_idx matches Some(i) ==> i < old.specs@.len(),
    ensures
        spec_views(new.specs@) == marker_step(syntax, line, planned, Ok(rel), walk_of(old, st)).specs,
        diag_lines(new.diagnostics@) == marker_step(syntax, line, planned, Ok(rel), walk_of(old, st)).diags,
{
    let w = walk_of(old, st);
    match marker_owner(w.specs, st, line, planned, syntax) {
        Ok(i) => {
            assert(0 <= i < old.specs@.len());
            match marker_conflict(w.specs[i], planned, rel) {
                None => {
                    assert(spec_views(new.specs@) =~= w.specs.update(i, with_marker(w.specs[i], planned, rel)));
                },
                Some(m) => {
                    assert(spec_views(new.specs@) =~= w.specs);
                    lemma_diag_lines_push(old.diagnostics@, new.diagnostics@, line, m);
                },
            }
        },
        Err(m) => {
            lemma_diag_lines_push(old.diagnostics@, new.diagnostics@, line, m);
        },
    }
}

/// Handles a standalone `@planned` line; returns whether the line was one.
fn handle_standalone_planned_line(
    block: &CommentBlock,
    parsed: &mut ParsedRepo,
    state: &BlockState,
    line: usize,
    trimmed: &str,
    rules: ParseRules,
    Ghost(start): Ghost<ParsedRepo>,
) -> (r: bool)
    requires
        block_growth(start, *old(parsed), *block),
        state_ok(*state, start.specs@.len(), old(parsed).specs@.len()),
    ensures
        block_growth(start, *final(parsed), *block),
        final(parsed).specs@.len() == old(parsed).specs@.len(),
        final(parsed).verifies == old(parsed).verifies,
        final(parsed).attests == old(parsed).attests,
        !at_sign(trimmed@) ==> !r && *final(parsed) == *old(parsed),
        r == (marker_line_spec(trimmed@, "@planned"@) is Some),
        marker_line_spec(trimmed@, "@planned"@) matches Some(res) ==> spec_views(final(parsed).specs@)
            == marker_step(rules.planned, line, true, res, walk_of(*old(parsed), *state)).specs && diag_lines(
            final(parsed).diagnostics@,
        ) == marker_step(rules.planned, line, true, res, walk_of(*old(parsed), *state)).diags,
        match marker_line_spec(trimmed@, "@planned"@) {
            None => *final(parsed) == *old(parsed),
            Some(Ok(release)) => marker_applied(
                *old(parsed),
                *final(parsed),
                block.path@,
                *state,
                line,
                true,
                release,
                rules.planned,
            ),
            Some(Err(PlannedAnnotationError::InvalidRelease)) => diag_pushed(
                *old(parsed),
                *final(parsed),
                block.path@,
                line,
                "planned release metadata must not be empty"@,
            ),
            Some(Err(PlannedAnnotationError::InvalidSuffix)) => diag_pushed(
                *old(parsed),
                *final(parsed),
                block.path@,
                line,
                "use an exact standalone `@planned` marker with no trailing suffix"@,
            ),
        },
{
    let result = match parse_planned_annotation(trimmed) {
        None => return false,
        Some(result) => result,
    };
    proof {
        lemma_marker_at(trimmed@, true);
    }
    match result {
        Ok(planned_release) => {
            let ghost before = *parsed;
            apply_standalone_marker(
                parsed,
                block,
                state,
                line,
                true,
                planned_release,
                None,
                rules,
                Ghost(start),
            );
            proof {
                lemma_marker_views(before, *parsed, block.path@, *state, line, true, planned_release_view(planned_release), rules.planned);
            }
        },
        Err(PlannedAnnotationError::InvalidRelease) => block_diag(
            parsed,
            block,
            line,
            "planned release metadata must not be empty",
            Ghost(start),
        ),
        Err(PlannedAnnotationError::InvalidSuffix) => block_diag(
            parsed,
            block,
            line,
            "use an exact standalone `@planned` marker with no trailing suffix",
            Ghost(start),
        ),
    }
    true
}

/// Handles a standalone `@deprecated` line; returns whether the line was one.
fn handle_standalone_deprecated_line(
    block: &CommentBlock,
    parsed: &mut ParsedRepo,
    state: &BlockState,
    line: usize,
    trimmed: &str,
    rules: ParseRules,
    Ghost(start): Ghost<ParsedRepo>,
) -> (r: bool)
    requires
        block_growth(start, *old(parsed), *block),
        state_ok(*state, start.specs@.len(), old(parsed).specs@.len()),
    ensures
        block_growth(start, *final(parsed), *block),
        final(parsed).specs@.len() == old(parsed).specs@.len(),
        final(parsed).verifies == old(parsed).verifies,
        final(parsed).attests == old(parsed).attests,
        !at_sign(trimmed@) ==> !r && *final(parsed) == *old(parsed),
        r == (marker_line_spec(trimmed@, "@deprecated"@) is Some),
        marker_line_spec(trimmed@, "@deprecated"@) matches Some(res) ==> spec_views(final(parsed).specs@)
            == marker_step(rules.planned, line, false, res, walk_of(*old(parsed), *state)).specs && diag_lines(
            final(parsed).diagnostics@,
        ) == marker_step(rules.planned, line, false, res, walk_of(*old(parsed), *state)).diags,
        match marker_line_spec(trimmed@, "@deprecated"@) {
            None => *final(parsed) == *old(parsed),
            Some(Ok(release)) => marker_applied(
                *old(parsed),
                *final(parsed),
                block.path@,
                *state,
                line,
                false,
                release,
                rules.planned,
            ),
            Some(Err(PlannedAnnotationError::InvalidRelease)) => diag_pushed(
                *old(parsed),
                *final(parsed),
                block.path@,
                line,
                "deprecated release metadata must not be empty"@,
            ),
            Some(Err(PlannedAnnotationError::InvalidSuffix)) => diag_pushed(
                *old(parsed),
                *final(parsed),
                block.path@,
                line,
                "use an exact standalone `@deprecated` marker with no trailing suffix"@,
            ),
        },
{
    let result = match parse_deprecated_annotation(trimmed) {
        None => return false,
        Some(result) => result,
    };
    proof {
        lemma_marker_at(trimmed@, false);
    }
    match result {
        Ok(deprecated_release) => {
            let ghost before = *parsed;
            apply_standalone_marker(
                parsed,
                block,
                state,
                line,
                false,
                None,
                deprecated_release,
                rules,
                Ghost(start),
            );
            proof {
                lemma_marker_views(before, *parsed, block.path@, *state, line, false, deprecated_release_view(deprecated_release), rules.planned);
            }
        },
        Err(PlannedAnnotationError::InvalidRelease) => block_diag(
            parsed,
            block,
            line,
            "deprecated release metadata must not be empty",
            Ghost(start),
        ),
        Err(PlannedAnnotationError::InvalidSuffix) => block_diag(
            parsed,
            block,
            line,
            "use an exact standalone `@deprecated` marker with no trailing suffix",
            Ghost(start),
        ),
    }
    true
}


/// How many verify references a block has added so far: none before the
/// first `@verifies`/`@fileverifies`, at most one after it.
spec fn verify_count_ok(start: ParsedRepo, cur: ParsedRepo, seen: bool) -> bool {
    if seen {
        cur.verifies@.len() <= start.verifies@.len() + 1
    } else {
        cur.verifies@.len() == start.verifies@.len()
    }
}

/// The file text without trailing whitespace, when the block carries it.
pub(crate) fn block_file_body(block: &CommentBlock) -> (r: Option<String>)
    ensures
        crate::parser::decls::opt_string_view(r) == crate::parser::growth::file_body(*block),
{
    match &block.source_body {
        Some(body) => Some(owned(trim_end_str(body.as_str()))),
        None => None,
    }
}

/// Pushes a verify reference that the block may produce.
fn push_verify(
    parsed: &mut ParsedRepo,
    block: &CommentBlock,
    v: VerifyRef,
    Ghost(start): Ghost<ParsedRepo>,
)
    requires
        block_growth(start, *old(parsed), *block),
        crate::parser::growth::verify_ok(*block, v),
    ensures
        block_growth(start, *final(parsed), *block),
        final(parsed).specs == old(parsed).specs,
        final(parsed).attests == old(parsed).attests,
        final(parsed).verifies@ == old(parsed).verifies@.push(v),
        final(parsed).diagnostics == old(parsed).diagnostics,
{
    let ghost before = *parsed;
    parsed.verifies.push(v);
    proof {
        assert(block_growth(before, *parsed, *block)) by {
            assert(before.diagnostics@.take(before.diagnostics@.len() as int) =~= before.diagnostics@);
            assert(parsed.verifies@.take(before.verifies@.len() as int) =~= before.verifies@);
            assert(before.attests@.take(before.attests@.len() as int) =~= before.attests@);
        }
        lemma_growth_trans(start, before, *parsed, *block);
    }
}

/// The `@verifies` or `@fileverifies` annotation a trimmed line carries: the
/// text after the tag and whether it covers the whole file.
pub open spec fn verify_annotation(t: Seq<char>) -> Option<(Seq<char>, bool)> {
    match reserved_rest(t, ReservedSpecialAnnotation::Verifies) {
        Some(rest) => Some((rest, false)),
        None => match reserved_rest(t, ReservedSpecialAnnotation::FileVerifies) {
            Some(rest) => Some((rest, true)),
            None => None,
        },
    }
}

/// Handles `@verifies` and `@fileverifies`; returns whether the line was one.
fn handle_verify_line(
    block: &CommentBlock,
    parsed: &mut ParsedRepo,
    seen_verifies: &mut bool,
    line: usize,
    trimmed: &str,
    Ghost(start): Ghost<ParsedRepo>,
) -> (r: bool)
    requires
        block_growth(start, *old(parsed), *block),
        verify_count_ok(start, *old(parsed), *old(seen_verifies)),
    ensures
        block_growth(start, *final(parsed), *block),
        verify_count_ok(start, *final(parsed), *final(seen_verifies)),
        final(parsed).specs == old(parsed).specs,
        final(parsed).attests == old(parsed).attests,
        !at_sign(trimmed@) ==> !r && *final(parsed) == *old(parsed) && *final(seen_verifies)
            == *old(seen_verifies),
        r == (verify_annotation(trimmed@) is Some),
        verify_annotation(trimmed@) matches Some((rest, file_scoped)) ==> ({
            let w2 = verify_step(
                *block,
                line,
                rest,
                file_scoped,
                BlockWalk { seen: *old(seen_verifies), ..walk_of(*old(parsed), BlockState { last_decl_idx: None, last_decl_kind: None, last_decl_line: None }) },
            );
            *final(seen_verifies) == w2.seen && diag_lines(final(parsed).diagnostics@) == w2.diags
        }),
        match verify_annotation(trimmed@) {
            None => *final(parsed) == *old(parsed) && *final(seen_verifies) == *old(seen_verifies),
            Some((rest, file_scoped)) => if *old(seen_verifies) {
                *final(seen_verifies) && diag_pushed(
                    *old(parsed),
                    *final(parsed),
                    block.path@,
                    line,
                    if file_scoped {
                        "annotation block may contain only one @verifies or @fileverifies"@
                    } else {
                        "annotation block may contain only one @verifies"@
                    },
                )
            } else {
                match single_word(rest) {
                    Err(e) => !*final(seen_verifies) && diag_pushed(
                        *old(parsed),
                        *final(parsed),
                        block.path@,
                        line,
                        spec_id_message(
                            e,
                            if file_scoped {
                                "@fileverifies"@
                            } else {
                                "@verifies"@
                            },
                        ),
                    ),
                    Ok(id) => *final(seen_verifies) && if file_scoped || block.owned_item is Some {
                        &&& final(parsed).diagnostics == old(parsed).diagnostics
                        &&& final(parsed).verifies@.len() == old(parsed).verifies@.len() + 1
                        &&& final(parsed).verifies@.drop_last() == old(parsed).verifies@
                        &&& final(parsed).verifies@.last().spec_id@ == id
                        &&& final(parsed).verifies@.last().location.line == line
                        &&& (final(parsed).verifies@.last().body_location is None) == file_scoped
                        &&& crate::parser::growth::verify_ok(*block, final(parsed).verifies@.last())
                    } else {
                        diag_pushed(
                            *old(parsed),
                            *final(parsed),
                            block.path@,
                            line,
                            "@verifies must attach to the next supported item"@,
                        )
                    },
                }
            },
        },
{
    let (rest, file_scoped) = match reserved_special_annotation_rest(trimmed, ReservedSpecialAnnotation::Verifies) {
        Some(rest) => {
            proof {
                lemma_reserved_rest_at(trimmed@, ReservedSpecialAnnotation::Verifies);
            }
            (rest, false)
        },
        None => match reserved_special_annotation_rest(trimmed, ReservedSpecialAnnotation::FileVerifies) {
            Some(rest) => {
                proof {
                    lemma_reserved_rest_at(trimmed@, ReservedSpecialAnnotation::FileVerifies);
                }
                (rest, true)
            },
            None => return false,
        },
    };
    if *seen_verifies {
        if file_scoped {
            block_diag(parsed, block, line, "annotation block may contain only one @verifies or @fileverifies", Ghost(start));
        } else {
            block_diag(parsed, block, line, "annotation block may contain only one @verifies", Ghost(start));
        }
        return true;
    }
    let annotation = if file_scoped {
        "@fileverifies"
    } else {
        "@verifies"
    };
    let id = match parse_supported_spec_id(rest, parsed, block, line, annotation, Ghost(start)) {
        Some(id) => id,
        None => return true,
    };
    if file_scoped {
        let body = block_file_body(block);
        let v = VerifyRef {
            spec_id: id,
            location: SourceLocation { path: block.path.clone(), line },
            body_location: None,
            body,
        };
        push_verify(parsed, block, v, Ghost(start));
        *seen_verifies = true;
    } else {
        match &block.owned_item {
            Some(owned_item) => {
                let v = VerifyRef {
                    spec_id: id,
                    location: SourceLocation { path: block.path.clone(), line },
                    body_location: Some(owned_item.location.clone()),
                    body: Some(owned_item.body.clone()),
                };
                push_verify(parsed, block, v, Ghost(start));
                *seen_verifies = true;
            },
            None => {
                block_diag(parsed, block, line, "@verifies must attach to the next supported item", Ghost(start));
                *seen_verifies = true;
            },
        }
    }
    true
}

/// The trimmed texts of `lines[from..to]`, one per line.
fn trimmed_texts(block: &CommentBlock, from: usize, to: usize) -> (r: Vec<String>)
    requires
        from <= to <= block.lines@.len(),
    ensures
        r@.len() == to - from,
{
    let mut out: Vec<String> = Vec::new();
    let mut i = from;
    while i < to
        invariant
            from <= i <= to,
            to <= block.lines@.len(),
            out@.len() == i - from,
        decreases to - i,
    {
        out.push(owned(trim_str(block.lines[i].text.as_str())));
        i = i + 1;
    }
    out
}

/// The `@attests` or `@fileattests` annotation a trimmed line carries: the
/// text after the tag and the scope it covers.
pub open spec fn attest_line_annotation(t: Seq<char>) -> Option<(Seq<char>, AttestScope)> {
    match reserved_rest(t, ReservedSpecialAnnotation::Attests) {
        Some(rest) => Some((rest, AttestScope::Block)),
        None => match reserved_rest(t, ReservedSpecialAnnotation::FileAttests) {
            Some(rest) => Some((rest, AttestScope::File)),
            None => None,
        },
    }
}

/// Handles `@attests` and `@fileattests` with their metadata; returns the
/// index of the next unread line when the line was one.
fn handle_attest_line(
    block: &CommentBlock,
    parsed: &mut ParsedRepo,
    index: usize,
    line: usize,
    trimmed: &str,
    Ghost(start): Ghost<ParsedRepo>,
) -> (r: Option<usize>)
    requires
        index < block.lines@.len(),
        block_growth(start, *old(parsed), *block),
    ensures
        block_growth(start, *final(parsed), *block),
        final(parsed).specs == old(parsed).specs,
        final(parsed).verifies == old(parsed).verifies,
        r matches Some(n) ==> index < n <= block.lines@.len(),
        !at_sign(trimmed@) ==> r is None && *final(parsed) == *old(parsed),
        (r is Some) == (attest_line_annotation(trimmed@) is Some),
        attest_line_annotation(trimmed@) matches Some((rest, scope)) ==> match single_word(rest) {
            Err(e) => diag_lines(final(parsed).diagnostics@) == diag_lines(old(parsed).diagnostics@).push(
                (line, spec_id_message(e, crate::model::spec::attest_annotation(scope))),
            ),
            Ok(_) => r matches Some(m) && m as int == meta_end(block.lines@, index + 1),
        },
        match attest_line_annotation(trimmed@) {
            None => *final(parsed) == *old(parsed),
            Some((rest, scope)) => match single_word(rest) {
                Err(e) => r == Some((index + 1) as usize) && diag_pushed(
                    *old(parsed),
                    *final(parsed),
                    block.path@,
                    line,
                    spec_id_message(e, crate::model::spec::attest_annotation(scope)),
                ),
                Ok(id) => {
                    &&& attest_views(final(parsed).attests@) == attest_push(
                        attest_views(old(parsed).attests@),
                        (id, block.path@, line, scope, meta_record(block.lines@, index + 1, meta_end(block.lines@, index + 1), false)),
                        metadata_ok(block.lines@, index + 1, meta_end(block.lines@, index + 1), false),
                    )
                    &&& final(parsed).attests@.len() <= old(parsed).attests@.len() + 1
                    &&& old(parsed).attests@.is_prefix_of(final(parsed).attests@)
                    &&& final(parsed).attests@.len() == old(parsed).attests@.len() + 1 ==> {
                        let a = final(parsed).attests@.last();
                        &&& a.spec_id@ == id
                        &&& a.location.line == line
                        &&& a.scope == scope
                    }
                },
            },
        },
{
    let count = block.lines.len();
    assert(index + 1 <= count);
    let (rest, scope) = match reserved_special_annotation_rest(trimmed, ReservedSpecialAnnotation::Attests) {
        Some(rest) => {
            proof {
                lemma_reserved_rest_at(trimmed@, ReservedSpecialAnnotation::Attests);
            }
            (rest, AttestScope::Block)
        },
        None => match reserved_special_annotation_rest(trimmed, ReservedSpecialAnnotation::FileAttests) {
            Some(rest) => {
                proof {
                    lemma_reserved_rest_at(trimmed@, ReservedSpecialAnnotation::FileAttests);
                }
                (rest, AttestScope::File)
            },
            None => return None,
        },
    };
    let id = match parse_supported_spec_id(rest, parsed, block, line, scope.as_annotation(), Ghost(start)) {
        Some(id) => id,
        None => return Some(index + 1),
    };
    let ghost before = *parsed;
    let (fields, cursor) = parse_attestation_metadata(
        parsed,
        block.path.as_str(),
        line,
        &block.lines,
        index + 1,
        false,
    );
    proof {
        lemma_diag_growth(before, *parsed, *block);
        lemma_growth_trans(start, before, *parsed, *block);
        lemma_meta_end(block.lines@, index as int + 1, cursor as int);
    }
    if let Some(f) = fields {
        let body = match scope {
            AttestScope::File => block_file_body(block),
            AttestScope::Block => Some(join_strings(&trimmed_texts(block, index, cursor), "\n")),
        };
        let a = AttestRef {
            spec_id: id,
            artifact: f.artifact,
            owner: f.owner,
            last_reviewed: f.last_reviewed,
            review_interval_days: f.review_interval_days,
            scope,
            location: SourceLocation { path: block.path.clone(), line },
            body,
        };
        let ghost mid = *parsed;
        parsed.attests.push(a);
        proof {
            assert(block_growth(mid, *parsed, *block)) by {
                assert(mid.diagnostics@.take(mid.diagnostics@.len() as int) =~= mid.diagnostics@);
                assert(mid.verifies@.take(mid.verifies@.len() as int) =~= mid.verifies@);
                assert(parsed.attests@.take(mid.attests@.len() as int) =~= mid.attests@);
            }
            lemma_growth_trans(start, mid, *parsed, *block);
        }
    }
    if cursor > index + 1 {
        Some(cursor)
    } else {
        Some(index + 1)
    }
}

/// Index of the first line at or after `i` that ends an architecture
/// annotation's text: a non-blank tag boundary, or the end of the block.
pub open spec fn skip_arch_spec(lines: Seq<crate::model::core_types::BlockLine>, i: int) -> int
    decreases lines.len() - i,
{
    if i < 0 || i >= lines.len() {
        i
    } else if tag_boundary(trim(lines[i].text@)) {
        i
    } else {
        skip_arch_spec(lines, i + 1)
    }
}

fn skip_reserved_arch_annotation(block: &CommentBlock, index: usize) -> (r: usize)
    requires
        index <= block.lines@.len(),
    ensures
        r == skip_arch_spec(block.lines@, index as int),
        index <= r <= block.lines@.len(),
{
    let mut i = index;
    while i < block.lines.len()
        invariant
            index <= i <= block.lines@.len(),
            skip_arch_spec(block.lines@, index as int) == skip_arch_spec(block.lines@, i as int),
        decreases block.lines@.len() - i,
    {
        let text = trim_str(block.lines[i].text.as_str());
        if is_any_tag_boundary(text) {
            return i;
        }
        i = i + 1;
    }
    i
}

/// Whether the line is `@module`, `@area`, `@implements`, or
/// `@fileimplements`, which belong to the architecture parser.
fn is_reserved_arch_annotation(trimmed: &str) -> (r: bool)
    ensures
        r == (reserved_annotation_of(trimmed@) matches Some(k) && (k
            == ReservedSpecialAnnotation::Module || k == ReservedSpecialAnnotation::Area || k
            == ReservedSpecialAnnotation::Implements || k
            == ReservedSpecialAnnotation::FileImplements)),
        r ==> at_sign(trimmed@),
{
    let r = match reserved_special_annotation(trimmed) {
        Some(ReservedSpecialAnnotation::Module) | Some(ReservedSpecialAnnotation::Area) | Some(
            ReservedSpecialAnnotation::Implements,
        ) | Some(ReservedSpecialAnnotation::FileImplements) => true,
        _ => false,
    };
    proof {
        if r {
            let k = reserved_annotation_of(trimmed@)->0;
            assert(crate::syntax::reserved_rest(trimmed@, k) is Some);
            lemma_reserved_rest_at(trimmed@, k);
        }
    }
    r
}

/// No line of the block begins with `@` once trimmed.
pub open spec fn no_reserved_lines(block: CommentBlock) -> bool {
    forall|i: int| 0 <= i < block.lines@.len() ==> !at_sign(trim(#[trigger] block.lines@[i].text@))
}

/// The index of the first line from `i` on that carries an annotation once
/// trimmed, when no code fence comes before it.
pub open spec fn first_annotation_from(lines: Seq<crate::model::core_types::BlockLine>, i: int) -> Option<int>
    decreases lines.len() - i,
{
    if i < 0 || i >= lines.len() {
        None
    } else if fence_line(trim(lines[i].text@)) {
        None
    } else if at_sign(trim(lines[i].text@)) {
        Some(i)
    } else {
        first_annotation_from(lines, i + 1)
    }
}

proof fn lemma_first_annotation(lines: Seq<crate::model::core_types::BlockLine>, i: int, k: int)
    requires
        0 <= i,
        first_annotation_from(lines, i) == Some(k),
    ensures
        i <= k < lines.len(),
        at_sign(trim(lines[k].text@)),
        !fence_line(trim(lines[k].text@)),
        forall|j: int| i <= j < k ==> !fence_line(trim(#[trigger] lines[j].text@)) && !at_sign(trim(lines[j].text@)),
    decreases lines.len() - i,
{
    if !(at_sign(trim(lines[i].text@))) {
        lemma_first_annotation(lines, i + 1, k);
    }
}

/// A line that carries `@verifies` or `@fileverifies` carries no
/// declaration and no standalone lifecycle marker: the tags differ in their
/// second character.
proof fn lemma_verify_excludes(t: Seq<char>)
    requires
        verify_annotation(t) is Some,
    ensures
        decl_annotation(t) is None,
        marker_line_spec(t, "@planned"@) is None,
        marker_line_spec(t, "@deprecated"@) is None,
{
    reveal_strlit("@spec");
    reveal_strlit("@group");
    reveal_strlit("@planned");
    reveal_strlit("@deprecated");
    reveal_strlit("@verifies");
    reveal_strlit("@fileverifies");
    if reserved_rest(t, ReservedSpecialAnnotation::Verifies) is Some {
        assert(t[1] == "@verifies"@[1]);
    } else {
        assert(t[1] == "@fileverifies"@[1]);
    }
    if "@spec"@.is_prefix_of(t) {
        assert(t[1] == "@spec"@[1]);
    }
    if "@group"@.is_prefix_of(t) {
        assert(t[1] == "@group"@[1]);
    }
    if "@planned"@.is_prefix_of(t) {
        assert(t[1] == "@planned"@[1]);
    }
    if "@deprecated"@.is_prefix_of(t) {
        assert(t[1] == "@deprecated"@[1]);
    }
}

/// A line that declares `@spec` or `@group` carries no other annotation
/// that a block reads: the tags differ in their second character.
proof fn lemma_decl_excludes(t: Seq<char>)
    requires
        decl_annotation(t) is Some,
    ensures
        marker_line_spec(t, "@planned"@) is None,
        marker_line_spec(t, "@deprecated"@) is None,
        verify_annotation(t) is None,
        attest_line_annotation(t) is None,
        !arch_line(t),
{
    reveal_strlit("@spec");
    reveal_strlit("@group");
    reveal_strlit("@planned");
    reveal_strlit("@deprecated");
    reveal_strlit("@verifies");
    reveal_strlit("@fileverifies");
    reveal_strlit("@attests");
    reveal_strlit("@fileattests");
    if reserved_rest(t, ReservedSpecialAnnotation::Spec) is Some {
        assert(t[1] == "@spec"@[1]);
    } else {
        assert(t[1] == "@group"@[1]);
    }
    if "@planned"@.is_prefix_of(t) {
        assert(t[1] == "@planned"@[1]);
    }
    if "@deprecated"@.is_prefix_of(t) {
        assert(t[1] == "@deprecated"@[1]);
    }
    if "@verifies"@.is_prefix_of(t) {
        assert(t[1] == "@verifies"@[1]);
    }
    if "@fileverifies"@.is_prefix_of(t) {
        assert(t[1] == "@fileverifies"@[1]);
    }
    if "@attests"@.is_prefix_of(t) {
        assert(t[1] == "@attests"@[1]);
    }
    if "@fileattests"@.is_prefix_of(t) {
        assert(t[1] == "@fileattests"@[1]);
    }
}

proof fn lemma_decl_frame(
    block: CommentBlock,
    syntax: PlannedSyntax,
    index: int,
    k: NodeKind,
    h: DeclHeaderView,
    hd: Option<Seq<char>>,
    a: BlockWalk,
    b: BlockWalk,
)
    requires
        a.state == b.state,
        a.specs == b.specs,
        a.diags == b.diags,
    ensures
        decl_step(block, syntax, index, k, h, hd, a).0 == decl_step(block, syntax, index, k, h, hd, b).0,
        decl_step(block, syntax, index, k, h, hd, a).1 == (BlockWalk {
            seen: a.seen,
            fence: a.fence,
            verifies: a.verifies,
            attests: a.attests,
            exact: a.exact,
            ..decl_step(block, syntax, index, k, h, hd, b).1
        }),
{
    reveal(decl_step);
}

/// One line read: the walk from `index` over `cur` continues from `n` over
/// `next`, which agrees with the step on everything the declarations depend
/// on, and on the diagnostics while they are known exactly.
proof fn lemma_walk_advance(
    block: CommentBlock,
    syntax: PlannedSyntax,
    index: int,
    n: int,
    cur: BlockWalk,
    next: BlockWalk,
    w0: BlockWalk,
)
    requires
        0 <= index < n <= block.lines@.len(),
        block_step(block, syntax, index, cur).0 == n,
        ({
            let c2 = block_step(block, syntax, index, cur).1;
            &&& c2.state == next.state
            &&& c2.seen == next.seen
            &&& c2.fence == next.fence
            &&& c2.specs == next.specs
            &&& c2.verifies == next.verifies
            &&& c2.attests == next.attests
            &&& c2.exact == next.exact
            &&& c2.exact ==> c2.diags == next.diags
        }),
        w0.specs == block_walk(block, syntax, index, cur).specs,
        w0.verifies == block_walk(block, syntax, index, cur).verifies,
        w0.attests == block_walk(block, syntax, index, cur).attests,
        cur.exact ==> w0 == block_walk(block, syntax, index, cur),
        !cur.exact ==> !w0.exact,
    ensures
        w0.specs == block_walk(block, syntax, n, next).specs,
        w0.verifies == block_walk(block, syntax, n, next).verifies,
        w0.attests == block_walk(block, syntax, n, next).attests,
        next.exact ==> w0 == block_walk(block, syntax, n, next),
        !next.exact ==> !w0.exact,
{
    let c2 = block_step(block, syntax, index, cur).1;
    assert(block_walk(block, syntax, index, cur) == block_walk(block, syntax, n, c2)) by {
        reveal(block_walk);
    }
    lemma_walk_specs(block, syntax, n, next, c2);
    lemma_walk_specs(block, syntax, n, c2, c2);
    if next.exact {
        assert(c2.exact ==> cur.exact) by {
            reveal(block_step);
            reveal(decl_step);
        }
        assert(next == c2);
    }
}

proof fn lemma_step_fence(block: CommentBlock, syntax: PlannedSyntax, index: int, cur: BlockWalk)
    requires
        0 <= index < block.lines@.len(),
        fence_line(trim(block.lines@[index].text@)),
    ensures
        block_step(block, syntax, index, cur) == (index + 1, BlockWalk { fence: !cur.fence, ..cur }),
{
    reveal(block_step);
}

proof fn lemma_step_quiet(block: CommentBlock, syntax: PlannedSyntax, index: int, cur: BlockWalk)
    requires
        0 <= index < block.lines@.len(),
        !fence_line(trim(block.lines@[index].text@)),
        cur.fence || trim(block.lines@[index].text@).len() == 0,
    ensures
        block_step(block, syntax, index, cur) == (index + 1, cur),
{
    reveal(block_step);
}

/// The conditions under which a line reaches the annotation handlers.
pub open spec fn open_line(block: CommentBlock, index: int, cur: BlockWalk) -> bool {
    let t = trim(block.lines@[index].text@);
    &&& 0 <= index < block.lines@.len()
    &&& !fence_line(t)
    &&& !cur.fence
    &&& t.len() > 0
}

proof fn lemma_step_decl(block: CommentBlock, syntax: PlannedSyntax, index: int, cur: BlockWalk)
    requires
        open_line(block, index, cur),
        decl_annotation(trim(block.lines@[index].text@)) is Some,
    ensures
        ({
            let t = trim(block.lines@[index].text@);
            let (k, rest) = decl_annotation(t)->0;
            block_step(block, syntax, index, cur) == match spec_header_spec(k, rest, syntax) {
                Err(m) => (index + 1, BlockWalk {
                    diags: cur.diags.push((block.lines@[index].line, m)),
                    ..cur
                }),
                Ok((h, hd)) => decl_step(block, syntax, index, k, h, hd, cur),
            }
        }),
{
    reveal(block_step);
}

proof fn lemma_step_marker(block: CommentBlock, syntax: PlannedSyntax, index: int, cur: BlockWalk, planned: bool)
    requires
        open_line(block, index, cur),
        decl_annotation(trim(block.lines@[index].text@)) is None,
        !planned ==> marker_line_spec(trim(block.lines@[index].text@), "@planned"@) is None,
        marker_line_spec(trim(block.lines@[index].text@), marker_tag(planned)) is Some,
    ensures
        block_step(block, syntax, index, cur) == (index + 1, marker_step(
            syntax,
            block.lines@[index].line,
            planned,
            marker_line_spec(trim(block.lines@[index].text@), marker_tag(planned))->0,
            cur,
        )),
{
    reveal(block_step);
}

proof fn lemma_step_verify(block: CommentBlock, syntax: PlannedSyntax, index: int, cur: BlockWalk)
    requires
        open_line(block, index, cur),
        decl_annotation(trim(block.lines@[index].text@)) is None,
        marker_line_spec(trim(block.lines@[index].text@), "@planned"@) is None,
        marker_line_spec(trim(block.lines@[index].text@), "@deprecated"@) is None,
        verify_annotation(trim(block.lines@[index].text@)) is Some,
    ensures
        ({
            let (rest, fs) = verify_annotation(trim(block.lines@[index].text@))->0;
            block_step(block, syntax, index, cur) == (index + 1, verify_step(
                block,
                block.lines@[index].line,
                rest,
                fs,
                cur,
            ))
        }),
{
    reveal(block_step);
}

proof fn lemma_step_rest(block: CommentBlock, syntax: PlannedSyntax, index: int, cur: BlockWalk)
    requires
        open_line(block, index, cur),
        decl_annotation(trim(block.lines@[index].text@)) is None,
        marker_line_spec(trim(block.lines@[index].text@), "@planned"@) is None,
        marker_line_spec(trim(block.lines@[index].text@), "@deprecated"@) is None,
        verify_annotation(trim(block.lines@[index].text@)) is None,
    ensures
        ({
            let t = trim(block.lines@[index].text@);
            block_step(block, syntax, index, cur) == match attest_line_annotation(t) {
                Some((rest, scope)) => match single_word(rest) {
                    Err(e) => (index + 1, BlockWalk {
                        diags: cur.diags.push(
                            (block.lines@[index].line, spec_id_message(e, crate::model::spec::attest_annotation(scope))),
                        ),
                        ..cur
                    }),
                    Ok(id) => (meta_end(block.lines@, index + 1), BlockWalk {
                        exact: false,
                        attests: attest_push(cur.attests, (id, block.path@, block.lines@[index].line, scope, meta_record(block.lines@, index + 1, meta_end(block.lines@, index + 1), false)), metadata_ok(
                            block.lines@,
                            index + 1,
                            meta_end(block.lines@, index + 1),
                            false,
                        )),
                        ..cur
                    }),
                },
                None => if arch_line(t) {
                    (skip_arch_spec(block.lines@, index + 1), cur)
                } else {
                    (index + 1, cur)
                },
            }
        }),
{
    reveal(block_step);
}

/// The verify reference that the first annotation of a block makes, when it
/// is a `@verifies` or `@fileverifies` with exactly one id that can attach:
/// the id and the line.
pub open spec fn leading_verify(block: CommentBlock) -> Option<(Seq<char>, usize)> {
    match first_annotation_from(block.lines@, 0) {
        None => None,
        Some(k) => match verify_annotation(trim(block.lines@[k].text@)) {
            None => None,
            Some((rest, file_scoped)) => match single_word(rest) {
                Ok(id) => if file_scoped || block.owned_item is Some {
                    Some((id, block.lines@[k].line))
                } else {
                    None
                },
                Err(_) => None,
            },
        },
    }
}

/// `verifies` ends with the reference `lead` describes, made in `block`.
pub open spec fn ends_with_verify(
    verifies: Seq<VerifyRef>,
    from: nat,
    block: CommentBlock,
    lead: (Seq<char>, usize),
) -> bool {
    &&& verifies.len() == from + 1
    &&& verifies.last().spec_id@ == lead.0
    &&& verifies.last().location.line == lead.1
    &&& verifies.last().location.path@ == block.path@
}

/// The walk state that the values of one reading loop stand for.
pub open spec fn walk_here(
    p: ParsedRepo,
    st: BlockState,
    seen: bool,
    fence: bool,
    exact: bool,
) -> BlockWalk {
    BlockWalk {
        state: st,
        seen,
        fence,
        specs: spec_views(p.specs@),
        diags: diag_lines(p.diagnostics@),
        verifies: verify_views(p.verifies@),
        attests: attest_views(p.attests@),
        exact,
    }
}

proof fn lemma_step_exact(block: CommentBlock, syntax: PlannedSyntax, index: int, c: BlockWalk, e: bool)
    requires
        c.exact,
    ensures
        block_step(block, syntax, index, BlockWalk { exact: e, ..c }).0 == block_step(block, syntax, index, c).0,
        block_step(block, syntax, index, BlockWalk { exact: e, ..c }).1 == (BlockWalk {
            exact: e && block_step(block, syntax, index, c).1.exact,
            ..block_step(block, syntax, index, c).1
        }),
{
    reveal(block_step);
    reveal(decl_step);
}

/// Reads line `index` of a block: what `block_step` says, and the facts
/// about verify references that the block's contract needs.
#[verifier::rlimit(100)]
#[verifier::spinoff_prover]
fn read_block_line(
    block: &CommentBlock,
    parsed: &mut ParsedRepo,
    state: &mut BlockState,
    seen_verifies: &mut bool,
    in_code_fence: &mut bool,
    index: usize,
    rules: ParseRules,
    Ghost(start): Ghost<ParsedRepo>,
) -> (n: usize)
    requires
        index < block.lines@.len(),
        block_growth(start, *old(parsed), *block),
        state_ok(*old(state), start.specs@.len(), old(parsed).specs@.len()),
        verify_count_ok(start, *old(parsed), *old(seen_verifies)),
    ensures
        index < n <= block.lines@.len(),
        block_growth(start, *final(parsed), *block),
        state_ok(*final(state), start.specs@.len(), final(parsed).specs@.len()),
        verify_count_ok(start, *final(parsed), *final(seen_verifies)),
        ({
            let (n2, c2) = block_step(
                *block,
                rules.planned,
                index as int,
                walk_here(*old(parsed), *old(state), *old(seen_verifies), *old(in_code_fence), true),
            );
            &&& n as int == n2
            &&& *final(state) == c2.state
            &&& *final(seen_verifies) == c2.seen
            &&& *final(in_code_fence) == c2.fence
            &&& spec_views(final(parsed).specs@) == c2.specs
            &&& verify_views(final(parsed).verifies@) == c2.verifies
            &&& attest_views(final(parsed).attests@) == c2.attests
            &&& c2.exact ==> diag_lines(final(parsed).diagnostics@) == c2.diags
        }),
        !at_sign(trim(block.lines@[index as int].text@)) ==> *final(parsed) == *old(parsed) && *final(state)
            == *old(state) && *final(seen_verifies) == *old(seen_verifies),
        !fence_line(trim(block.lines@[index as int].text@)) && !at_sign(trim(block.lines@[index as int].text@))
            ==> *final(in_code_fence) == *old(in_code_fence) && n == index + 1,
        *old(seen_verifies) ==> final(parsed).verifies == old(parsed).verifies && *final(seen_verifies),
        (!*old(in_code_fence) && !*old(seen_verifies) && !fence_line(trim(block.lines@[index as int].text@)))
            ==> (verify_annotation(trim(block.lines@[index as int].text@)) matches Some((rest, fs)) ==> (single_word(
            rest,
        ) matches Ok(id) ==> ((fs || block.owned_item is Some) ==> {
            &&& *final(seen_verifies)
            &&& final(parsed).verifies@.len() == old(parsed).verifies@.len() + 1
            &&& final(parsed).verifies@.last().spec_id@ == id
            &&& final(parsed).verifies@.last().location.line == block.lines@[index as int].line
            &&& final(parsed).verifies@.last().location.path@ == block.path@
        }))),
{
    let ghost at = index as int;
    let count = block.lines.len();
    let entry = &block.lines[index];
    let trimmed = trim_str(entry.text.as_str());
    let ghost cur = walk_here(*parsed, *state, *seen_verifies, *in_code_fence, true);
    let ghost before_line = *parsed;
    let ghost before_state = *state;
    if starts_markdown_fence(trimmed) {
        *in_code_fence = !*in_code_fence;
        proof {
            lemma_step_fence(*block, rules.planned, at, cur);
        }
        return index + 1;
    }
    if *in_code_fence || trimmed.unicode_len() == 0 {
        proof {
            lemma_step_quiet(*block, rules.planned, at, cur);
        }
        return index + 1;
    }
    proof {
        if verify_annotation(trimmed@) is Some {
            lemma_verify_excludes(trimmed@);
        }
        if decl_annotation(trimmed@) is Some {
            lemma_decl_excludes(trimmed@);
        }
    }
    if let Some(next_index) = handle_decl_line(
        block,
        parsed,
        state,
        index,
        entry.line,
        trimmed,
        rules,
        Ghost(start),
    ) {
        proof {
            lemma_step_decl(*block, rules.planned, at, cur);
            let (k, rest) = decl_annotation(trimmed@)->0;
            let (h, hd) = spec_header_spec(k, rest, rules.planned)->Ok_0;
            lemma_decl_frame(*block, rules.planned, at, k, h, hd, cur, walk_of(before_line, before_state));
        }
        return next_index;
    }
    if handle_standalone_planned_line(block, parsed, state, entry.line, trimmed, rules, Ghost(start)) {
        proof {
            lemma_step_marker(*block, rules.planned, at, cur, true);
        }
        return index + 1;
    }
    if handle_standalone_deprecated_line(block, parsed, state, entry.line, trimmed, rules, Ghost(start)) {
        proof {
            lemma_step_marker(*block, rules.planned, at, cur, false);
        }
        return index + 1;
    }
    if handle_verify_line(block, parsed, seen_verifies, entry.line, trimmed, Ghost(start)) {
        proof {
            lemma_step_verify(*block, rules.planned, at, cur);
        }
        return index + 1;
    }
    if let Some(next_index) = handle_attest_line(block, parsed, index, entry.line, trimmed, Ghost(start)) {
        proof {
            lemma_step_rest(*block, rules.planned, at, cur);
        }
        return next_index;
    }
    if is_reserved_arch_annotation(trimmed) {
        proof {
            lemma_step_rest(*block, rules.planned, at, cur);
        }
        return skip_reserved_arch_annotation(block, index + 1);
    }
    proof {
        if decl_annotation(trimmed@) is Some {
            lemma_step_decl(*block, rules.planned, at, cur);
            let (k, rest) = decl_annotation(trimmed@)->0;
            lemma_diag_lines_push(
                before_line.diagnostics@,
                parsed.diagnostics@,
                entry.line,
                spec_header_spec(k, rest, rules.planned)->Err_0,
            );
        } else {
            lemma_step_rest(*block, rules.planned, at, cur);
        }
    }
    index + 1
}

/// Parses one comment block into `parsed`.
///
/// Earlier results stay as they were; every added spec is well-formed and
/// located in the block's file, every added diagnostic is an error there,
/// every added verify reference and attestation is one the block may
/// produce, at most one verify reference is added, and a block in which no
/// line begins with `@` adds nothing. The declarations after reading are
/// exactly those `block_result` gives, and so are the diagnostics unless an
/// attestation's metadata was read. When the first annotation of the block
/// is a well-formed `@verifies` or `@fileverifies` that can attach, the one
/// verify reference added is that one.
pub fn parse_block(block: &CommentBlock, parsed: &mut ParsedRepo, rules: ParseRules)
    ensures
        block_growth(*old(parsed), *final(parsed), *block),
        final(parsed).verifies@.len() <= old(parsed).verifies@.len() + 1,
        no_reserved_lines(*block) ==> *final(parsed) == *old(parsed),
        leading_verify(*block) matches Some(lead) ==> ends_with_verify(
            final(parsed).verifies@,
            old(parsed).verifies@.len(),
            *block,
            lead,
        ),
        spec_views(final(parsed).specs@) == block_result(
            *block,
            rules.planned,
            spec_views(old(parsed).specs@),
            diag_lines(old(parsed).diagnostics@), verify_views(old(parsed).verifies@), attest_views(old(parsed).attests@),
        ).specs,
        verify_views(final(parsed).verifies@) == block_result(
            *block,
            rules.planned,
            spec_views(old(parsed).specs@),
            diag_lines(old(parsed).diagnostics@),
            verify_views(old(parsed).verifies@), attest_views(old(parsed).attests@),
        ).verifies,
        attest_views(final(parsed).attests@) == block_result(
            *block,
            rules.planned,
            spec_views(old(parsed).specs@),
            diag_lines(old(parsed).diagnostics@),
            verify_views(old(parsed).verifies@),
            attest_views(old(parsed).attests@),
        ).attests,
        block_result(*block, rules.planned, spec_views(old(parsed).specs@), diag_lines(old(parsed).diagnostics@), verify_views(old(parsed).verifies@), attest_views(old(parsed).attests@)).exact
            ==> diag_lines(final(parsed).diagnostics@) == block_result(
            *block,
            rules.planned,
            spec_views(old(parsed).specs@),
            diag_lines(old(parsed).diagnostics@), verify_views(old(parsed).verifies@), attest_views(old(parsed).attests@),
        ).diags,
{
    let ghost start = *parsed;
    proof {
        lemma_growth_refl(start, *block);
    }
    let mut index: usize = 0;
    let mut state = BlockState { last_decl_idx: None, last_decl_kind: None, last_decl_line: None };
    let mut seen_verifies = false;
    let mut in_code_fence = false;
    let ghost first = first_annotation_from(block.lines@, 0);
    let ghost w0 = block_result(*block, rules.planned, spec_views(start.specs@), diag_lines(start.diagnostics@), verify_views(start.verifies@), attest_views(start.attests@));
    let ghost mut ex = true;
    proof {
        if let Some(k) = first {
            lemma_first_annotation(block.lines@, 0, k);
        }
    }
    while index < block.lines.len()
        invariant
            index <= block.lines@.len(),
            block_growth(start, *parsed, *block),
            state_ok(state, start.specs@.len(), parsed.specs@.len()),
            verify_count_ok(start, *parsed, seen_verifies),
            no_reserved_lines(*block) ==> *parsed == start,
            start == *old(parsed),
            first is Some && index <= first->0 ==> *parsed == start && state == (BlockState {
                last_decl_idx: None,
                last_decl_kind: None,
                last_decl_line: None,
            }) && !seen_verifies && !in_code_fence,
            first is Some && index > first->0 && leading_verify(*block) is Some ==> seen_verifies
                && ends_with_verify(parsed.verifies@, start.verifies@.len(), *block, leading_verify(*block)->0),
            first == first_annotation_from(block.lines@, 0),
            w0 == block_result(*block, rules.planned, spec_views(start.specs@), diag_lines(start.diagnostics@), verify_views(start.verifies@), attest_views(start.attests@)),
            w0.specs == block_walk(
                *block,
                rules.planned,
                index as int,
                walk_here(*parsed, state, seen_verifies, in_code_fence, ex),
            ).specs,
            w0.verifies == block_walk(
                *block,
                rules.planned,
                index as int,
                walk_here(*parsed, state, seen_verifies, in_code_fence, ex),
            ).verifies,
            w0.attests == block_walk(
                *block,
                rules.planned,
                index as int,
                walk_here(*parsed, state, seen_verifies, in_code_fence, ex),
            ).attests,
            ex ==> w0 == block_walk(
                *block,
                rules.planned,
                index as int,
                walk_here(*parsed, state, seen_verifies, in_code_fence, ex),
            ),
            !ex ==> !w0.exact,
        decreases block.lines@.len() - index,
    {
        let ghost at = index as int;
        let ghost cur = walk_here(*parsed, state, seen_verifies, in_code_fence, ex);
        let ghost before = *parsed;
        proof {
            if let Some(k) = first {
                lemma_first_annotation(block.lines@, 0, k);
                if at < k {
                    assert(!fence_line(trim(block.lines@[at].text@)) && !at_sign(trim(block.lines@[at].text@)));
                }
            }
            if no_reserved_lines(*block) {
                assert(!at_sign(trim(block.lines@[at].text@)));
            }
        }
        index = read_block_line(
            block,
            parsed,
            &mut state,
            &mut seen_verifies,
            &mut in_code_fence,
            index,
            rules,
            Ghost(start),
        );
        proof {
            let c1 = walk_here(before, cur.state, cur.seen, cur.fence, true);
            lemma_step_exact(*block, rules.planned, at, c1, ex);
            assert(cur == BlockWalk { exact: ex, ..c1 });
            let ex2 = ex && block_step(*block, rules.planned, at, c1).1.exact;
            lemma_walk_advance(
                *block,
                rules.planned,
                at,
                index as int,
                cur,
                walk_here(*parsed, state, seen_verifies, in_code_fence, ex2),
                w0,
            );
            ex = ex2;
        }
    }
    proof {
        reveal(block_walk);
    }
}

/// A description line of a comment block: not blank, not a fence, and not
/// a tag line.
pub open spec fn description_text_line(raw: Seq<char>) -> bool {
    let t = trim(raw);
    &&& t.len() > 0
    &&& !tag_boundary(t)
    &&& !fence_line(t)
}

/// A declaration whose description spans two lines gets, as its text, the
/// two trimmed lines joined by one space (`line1 + " " + line2`): whatever
/// the header, dialect, and earlier results.
pub proof fn law_decl_text_joins_lines(
    block: CommentBlock,
    syntax: PlannedSyntax,
    specs: Seq<SpecDeclView>,
    diags: Seq<(usize, Seq<char>)>,
    verifies: Seq<(Seq<char>, Seq<char>, usize, bool)>,
    attests: Seq<(Seq<char>, Seq<char>, usize, AttestScope, (Seq<char>, Seq<char>, Seq<char>, Option<u32>))>,
    k: NodeKind,
    rest: Seq<char>,
    h: DeclHeaderView,
    hd: Option<Seq<char>>,
)
    requires
        block.lines@.len() == 3,
        trim(block.lines@[0].text@).len() > 0,
        !fence_line(trim(block.lines@[0].text@)),
        decl_annotation(trim(block.lines@[0].text@)) == Some((k, rest)),
        spec_header_spec(k, rest, syntax) == Ok::<(DeclHeaderView, Option<Seq<char>>), Seq<char>>((h, hd)),
        lifecycle_error(k, h.planned, h.deprecated, h.deprecated && h.deprecated_release is Some) is None,
        description_text_line(block.lines@[1].text@),
        description_text_line(block.lines@[2].text@),
    ensures
        ({
            let r = block_result(block, syntax, specs, diags, verifies, attests);
            &&& r.specs.len() == specs.len() + 1
            &&& r.specs.last().id == h.id
            &&& r.specs.last().text == trim(block.lines@[1].text@) + " "@ + trim(block.lines@[2].text@)
        }),
{
    reveal(block_walk);
    reveal(block_step);
    reveal(decl_step);
    reveal_strlit("@planned");
    reveal_strlit("@deprecated");
    let lines = block.lines@;
    let t1 = trim(lines[1].text@);
    let t2 = trim(lines[2].text@);
    assert(!"@planned"@.is_prefix_of(t1)) by {
        assert("@planned"@[0] != t1[0]);
    }
    assert(!"@deprecated"@.is_prefix_of(t1)) by {
        assert("@deprecated"@[0] != t1[0]);
    }
    assert(marker_tag(true) == "@planned"@ && marker_tag(false) == "@deprecated"@);
    assert(description_from(lines, 3, false) == (Seq::<Seq<char>>::empty(), 3int));
    assert(description_from(lines, 2, false) == (seq![t2], 3int));
    assert(description_from(lines, 1, false) == (seq![t1, t2], 3int)) by {
        assert(seq![t1] + seq![t2] =~= seq![t1, t2]);
    }
    assert(join(seq![t1, t2], " "@) == t1 + " "@ + t2) by {
        assert(seq![t1, t2].drop_last() =~= seq![t1]);
        assert(join(seq![t1], " "@) == t1);
        assert(seq![t1, t2].last() == t2);
    }
    let w = walk_start(specs, diags, verifies, attests);
    let (n, w2) = block_step(block, syntax, 0, w);
    assert(n == 3);
    assert(block_walk(block, syntax, 3, w2) == w2);
}

} // verus!
