//! Module lint: the diagnostics of parsing plus the rules over parsed
//! architecture (duplicate ids, missing intermediate modules, unknown or
//! misdirected attachments, duplicate attachments, modules without
//! ownership), sorted and without repeats.
use vstd::prelude::*;
use vstd::string::*;

use crate::model::architecture::{ImplementRef, ModuleDecl, ParsedArchitecture, PatternApplication, PatternDefinition};
use crate::model::core_types::{ArchitectureKind, DiagnosticSeverity, SourceLocation};
use crate::model::overview::LintReport;
use crate::model::spec::Diagnostic;
use crate::order::{
    KeyOrder, compare_text_keys, lemma_lex_three, lemma_text_key_injective, lex_lt, text_key,
};
use crate::text::{concat2, concat3, decimal, decimal_string, owned, str_eq};

verus! {

/// The mathematical content of a diagnostic.
pub struct DiagView {
    pub severity: DiagnosticSeverity,
    pub path: Seq<char>,
    pub line: usize,
    pub message: Seq<char>,
}

pub open spec fn diag_view(d: Diagnostic) -> DiagView {
    DiagView { severity: d.severity, path: d.path@, line: d.line, message: d.message@ }
}

pub open spec fn severity_rank(s: DiagnosticSeverity) -> int {
    match s {
        DiagnosticSeverity::Error => 0,
        DiagnosticSeverity::Warning => 1,
    }
}

/// Report order: by severity, path components, line, then message.
pub open spec fn diag_lt(a: DiagView, b: DiagView) -> bool {
    severity_rank(a.severity) < severity_rank(b.severity) || (a.severity == b.severity && (lex_lt(
        text_key(a.path, true),
        text_key(b.path, true),
    ) || (text_key(a.path, true) == text_key(b.path, true) && (a.line < b.line || (a.line == b.line
        && lex_lt(text_key(a.message, false), text_key(b.message, false)))))))
}

/// The diagnostics are in strictly ascending report order, so no two are
/// the same.
pub open spec fn diags_ascending(ds: Seq<Diagnostic>) -> bool {
    forall|i: int, j: int| 0 <= i < j < ds.len() ==> diag_lt(diag_view(#[trigger] ds[i]), diag_view(#[trigger] ds[j]))
}

/// The diagnostics, as a set of their contents.
pub open spec fn view_set(ds: Seq<Diagnostic>) -> Set<DiagView> {
    Set::new(|v: DiagView| exists|i: int| 0 <= i < ds.len() && #[trigger] diag_view(ds[i]) == v)
}

proof fn lemma_diag_lt_facts(a: DiagView, b: DiagView, c: DiagView)
    ensures
        !diag_lt(a, a),
        !(diag_lt(a, b) && diag_lt(b, a)),
        a == b || diag_lt(a, b) || diag_lt(b, a),
        diag_lt(a, b) && diag_lt(b, c) ==> diag_lt(a, c),
{
    lemma_lex_three(text_key(a.path, true), text_key(b.path, true), text_key(c.path, true));
    lemma_lex_three(text_key(a.message, false), text_key(b.message, false), text_key(c.message, false));
    if text_key(a.path, true) == text_key(b.path, true) {
        lemma_text_key_injective(a.path, b.path, true);
    }
    if text_key(a.message, false) == text_key(b.message, false) {
        lemma_text_key_injective(a.message, b.message, false);
    }
}

fn severity_rank_of(s: DiagnosticSeverity) -> (r: u8)
    ensures
        r == severity_rank(s),
{
    match s {
        DiagnosticSeverity::Error => 0,
        DiagnosticSeverity::Warning => 1,
    }
}

/// Compares two diagnostics in report order.
fn diag_order(a: &Diagnostic, b: &Diagnostic) -> (r: KeyOrder)
    ensures
        r == KeyOrder::Before <==> diag_lt(diag_view(*a), diag_view(*b)),
        r == KeyOrder::After <==> diag_lt(diag_view(*b), diag_view(*a)),
        r == KeyOrder::Same <==> diag_view(*a) == diag_view(*b),
{
    proof {
        lemma_diag_lt_facts(diag_view(*a), diag_view(*b), diag_view(*b));
    }
    let sa = severity_rank_of(a.severity);
    let sb = severity_rank_of(b.severity);
    if sa != sb {
        return if sa < sb {
            KeyOrder::Before
        } else {
            KeyOrder::After
        };
    }
    match compare_text_keys(a.path.as_str(), b.path.as_str(), true) {
        KeyOrder::Before => KeyOrder::Before,
        KeyOrder::After => KeyOrder::After,
        KeyOrder::Same => {
            if a.line != b.line {
                if a.line < b.line {
                    KeyOrder::Before
                } else {
                    KeyOrder::After
                }
            } else {
                compare_text_keys(a.message.as_str(), b.message.as_str(), false)
            }
        },
    }
}

/// Adds `d` at its place in ascending order unless the same diagnostic is
/// already there.
fn insert_unique(out: &mut Vec<Diagnostic>, d: Diagnostic)
    requires
        diags_ascending(old(out)@),
    ensures
        diags_ascending(final(out)@),
        view_set(final(out)@) == view_set(old(out)@).insert(diag_view(d)),
{
    let ghost before = out@;
    let mut pos: usize = 0;
    while pos < out.len() && matches!(diag_order(&out[pos], &d), KeyOrder::Before)
        invariant
            pos <= out@.len(),
            out@ == before,
            diags_ascending(before),
            forall|k: int| 0 <= k < pos ==> diag_lt(diag_view(#[trigger] out@[k]), diag_view(d)),
        decreases out@.len() - pos,
    {
        pos = pos + 1;
    }
    if pos < out.len() && matches!(diag_order(&out[pos], &d), KeyOrder::Same) {
        proof {
            assert(view_set(before).insert(diag_view(d)) =~= view_set(before)) by {
                assert(view_set(before).contains(diag_view(d))) by {
                    assert(diag_view(before[pos as int]) == diag_view(d));
                }
            }
        }
        return;
    }
    let ghost dv = diag_view(d);
    proof {
        if pos < before.len() {
            lemma_diag_lt_facts(dv, diag_view(before[pos as int]), dv);
        }
    }
    out.insert(pos, d);
    proof {
        let n = out@;
        assert(n == before.insert(pos as int, d));
        assert forall|i: int, j: int| 0 <= i < j < n.len() implies diag_lt(diag_view(#[trigger] n[i]), diag_view(#[trigger] n[j])) by {
            if j < pos {
            } else if j == pos {
                assert(n[i] == before[i]);
            } else if i == pos {
                assert(n[j] == before[j - 1]);
                if j - 1 > pos {
                    lemma_diag_lt_facts(dv, diag_view(before[pos as int]), diag_view(before[j - 1]));
                }
            } else if i > pos {
                assert(n[i] == before[i - 1] && n[j] == before[j - 1]);
            } else {
                assert(n[i] == before[i] && n[j] == before[j - 1]);
                lemma_diag_lt_facts(diag_view(before[i]), dv, diag_view(before[pos as int]));
                if j - 1 > pos {
                    lemma_diag_lt_facts(diag_view(before[i]), diag_view(before[pos as int]), diag_view(before[j - 1]));
                }
            }
        }
        assert(view_set(n) =~= view_set(before).insert(dv)) by {
            assert forall|v: DiagView| #[trigger] view_set(n).contains(v) implies view_set(before).insert(dv).contains(v) by {
                let i = choose|i: int| 0 <= i < n.len() && diag_view(n[i]) == v;
                if i < pos {
                    assert(n[i] == before[i]);
                } else if i > pos {
                    assert(n[i] == before[i - 1]);
                }
            }
            assert forall|v: DiagView| #[trigger] view_set(before).insert(dv).contains(v) implies view_set(n).contains(v) by {
                if v == dv {
                    assert(diag_view(n[pos as int]) == v);
                } else {
                    let i = choose|i: int| 0 <= i < before.len() && diag_view(before[i]) == v;
                    if i < pos {
                        assert(n[i] == before[i]);
                    } else {
                        assert(n[i + 1] == before[i]);
                    }
                }
            }
        }
    }
}

/// An error diagnostic at `path:line`.
pub open spec fn error_view(path: Seq<char>, line: usize, message: Seq<char>) -> DiagView {
    DiagView { severity: DiagnosticSeverity::Error, path, line, message }
}

fn error_diag(location: &SourceLocation, message: String) -> (r: Diagnostic)
    ensures
        diag_view(r) == error_view(location.path@, location.line, message@),
{
    Diagnostic {
        severity: DiagnosticSeverity::Error,
        path: location.path.clone(),
        line: location.line,
        message,
    }
}

/// The values that `f` gives for the indices below `n`.
pub open spec fn family(n: int, f: spec_fn(int) -> Option<DiagView>) -> Set<DiagView> {
    Set::new(|v: DiagView| exists|i: int| 0 <= i < n && #[trigger] f(i) == Some(v))
}

pub open spec fn opt_set(o: Option<DiagView>) -> Set<DiagView> {
    match o {
        Some(v) => Set::empty().insert(v),
        None => Set::empty(),
    }
}

proof fn lemma_family_step(n: int, f: spec_fn(int) -> Option<DiagView>)
    requires
        n >= 0,
    ensures
        family(n + 1, f) == family(n, f).union(opt_set(f(n))),
{
    assert(family(n + 1, f) =~= family(n, f).union(opt_set(f(n)))) by {
        assert forall|v: DiagView| #[trigger] family(n + 1, f).contains(v) implies family(n, f).union(opt_set(f(n))).contains(v) by {
            let i = choose|i: int| 0 <= i < n + 1 && #[trigger] f(i) == Some(v);
            if i < n {
                assert(family(n, f).contains(v));
            }
        }
        assert forall|v: DiagView| #[trigger] family(n, f).union(opt_set(f(n))).contains(v) implies family(n + 1, f).contains(v) by {
            if family(n, f).contains(v) {
                let i = choose|i: int| 0 <= i < n && #[trigger] f(i) == Some(v);
                assert(0 <= i < n + 1 && f(i) == Some(v));
            } else {
                assert(f(n) == Some(v));
            }
        }
    }
}

proof fn lemma_family_empty(f: spec_fn(int) -> Option<DiagView>)
    ensures
        family(0, f) == Set::<DiagView>::empty(),
{
    assert(family(0, f) =~= Set::<DiagView>::empty());
}

/// Inserting the diagnostic that an option holds extends the set by it.
fn insert_opt(out: &mut Vec<Diagnostic>, d: Option<Diagnostic>)
    requires
        diags_ascending(old(out)@),
    ensures
        diags_ascending(final(out)@),
        view_set(final(out)@) == view_set(old(out)@).union(
            opt_set(
                match d {
                    Some(x) => Some(diag_view(x)),
                    None => None,
                },
            ),
        ),
{
    match d {
        Some(x) => {
            insert_unique(out, x);
            proof {
                assert(view_set(old(out)@).insert(diag_view(x)) =~= view_set(old(out)@).union(
                    opt_set(Some(diag_view(x))),
                ));
            }
        },
        None => {
            proof {
                assert(view_set(old(out)@) =~= view_set(old(out)@).union(opt_set(None)));
            }
        },
    }
}

pub open spec fn opt_view(d: Option<Diagnostic>) -> Option<DiagView> {
    match d {
        Some(x) => Some(diag_view(x)),
        None => None,
    }
}

/// The last module before index `upto` that declares `id`.
pub open spec fn last_module_with_id(ms: Seq<ModuleDecl>, id: Seq<char>, upto: int) -> Option<int>
    decreases upto,
{
    if upto <= 0 {
        None
    } else if ms[upto - 1].spec_id() == id {
        Some(upto - 1)
    } else {
        last_module_with_id(ms, id, upto - 1)
    }
}

fn find_last_module(ms: &Vec<ModuleDecl>, id: &str, upto: usize) -> (r: Option<usize>)
    requires
        upto <= ms@.len(),
    ensures
        match r {
            Some(j) => last_module_with_id(ms@, id@, upto as int) == Some(j as int) && j < upto,
            None => last_module_with_id(ms@, id@, upto as int) is None,
        },
{
    let mut k = upto;
    while k > 0
        invariant
            k <= upto <= ms@.len(),
            last_module_with_id(ms@, id@, upto as int) == last_module_with_id(ms@, id@, k as int),
        decreases k,
    {
        if str_eq(ms[k - 1].id_str(), id) {
            return Some(k - 1);
        }
        k = k - 1;
    }
    None
}

/// A module with a repeated id is reported with the line of the last
/// earlier declaration of that id.
pub open spec fn duplicate_module_view(ms: Seq<ModuleDecl>, i: int) -> Option<DiagView> {
    match last_module_with_id(ms, ms[i].spec_id(), i) {
        Some(j) => Some(
            error_view(
                ms[i].spec_location().path@,
                ms[i].spec_location().line,
                "duplicate module id `"@ + ms[i].spec_id() + "`; first declared on line "@ + decimal(
                    ms[j].spec_location().line as nat,
                ),
            ),
        ),
        None => None,
    }
}

pub open spec fn duplicate_module_fn(ms: Seq<ModuleDecl>) -> spec_fn(int) -> Option<DiagView> {
    |i: int| duplicate_module_view(ms, i)
}

fn duplicate_module_diag(ms: &Vec<ModuleDecl>, i: usize) -> (r: Option<Diagnostic>)
    requires
        i < ms@.len(),
    ensures
        opt_view(r) == duplicate_module_view(ms@, i as int),
{
    proof {
        reveal_strlit("duplicate module id `");
        reveal_strlit("`; first declared on line ");
    }
    let module = &ms[i];
    match find_last_module(ms, module.id_str(), i) {
        Some(j) => {
            let message = concat3(
                concat3("duplicate module id `", module.id_str(), "`; first declared on line ").as_str(),
                decimal_string(ms[j].location_ref().line).as_str(),
                "",
            );
            proof {
                reveal_strlit("");
                assert(message@ =~= "duplicate module id `"@ + module.spec_id() + "`; first declared on line "@
                    + decimal(ms@[j as int].spec_location().line as nat));
            }
            Some(error_diag(module.location_ref(), message))
        },
        None => None,
    }
}

/// Whether some module declares `p`.
pub open spec fn is_module_id(ms: Seq<ModuleDecl>, p: Seq<char>) -> bool {
    exists|k: int| 0 <= k < ms.len() && ms[k].spec_id() == p
}

fn module_id_exists(ms: &Vec<ModuleDecl>, p: &str) -> (r: bool)
    ensures
        r == is_module_id(ms@, p@),
{
    match find_last_module(ms, p, ms.len()) {
        Some(j) => {
            proof {
                lemma_last_module_found(ms@, p@, ms@.len() as int);
            }
            true
        },
        None => {
            proof {
                lemma_last_module_found(ms@, p@, ms@.len() as int);
            }
            false
        },
    }
}

proof fn lemma_last_module_found(ms: Seq<ModuleDecl>, id: Seq<char>, upto: int)
    requires
        0 <= upto <= ms.len(),
    ensures
        last_module_with_id(ms, id, upto) is Some <==> exists|k: int| 0 <= k < upto && ms[k].spec_id() == id,
        last_module_with_id(ms, id, upto) matches Some(j) ==> 0 <= j < upto && ms[j].spec_id() == id,
    decreases upto,
{
    if upto > 0 {
        lemma_last_module_found(ms, id, upto - 1);
        if ms[upto - 1].spec_id() == id {
            assert(0 <= upto - 1 < upto && ms[upto - 1].spec_id() == id);
        } else {
            assert forall|k: int| 0 <= k < upto && ms[k].spec_id() == id implies 0 <= k < upto - 1 by {}
        }
    }
}

/// A missing proper prefix of a module id (up to a `.`) is reported on the
/// module.
pub open spec fn missing_parent_view(ms: Seq<ModuleDecl>, i: int, k: int) -> Option<DiagView> {
    let id = ms[i].spec_id();
    if 0 <= k < id.len() && id[k] == '.' && !is_module_id(ms, id.take(k)) {
        Some(
            error_view(
                ms[i].spec_location().path@,
                ms[i].spec_location().line,
                "missing intermediate module `"@ + id.take(k) + "`"@,
            ),
        )
    } else {
        None
    }
}

pub open spec fn missing_parent_fn(ms: Seq<ModuleDecl>, i: int) -> spec_fn(int) -> Option<DiagView> {
    |k: int| missing_parent_view(ms, i, k)
}

/// The missing intermediate modules of the modules below index `n`.
pub open spec fn missing_parent_views(ms: Seq<ModuleDecl>, n: int) -> Set<DiagView> {
    Set::new(|v: DiagView| exists|i: int, k: int| 0 <= i < n && #[trigger] missing_parent_view(ms, i, k) == Some(v))
}

proof fn lemma_missing_step(ms: Seq<ModuleDecl>, i: int)
    requires
        0 <= i < ms.len(),
    ensures
        missing_parent_views(ms, i + 1) == missing_parent_views(ms, i).union(
            family(ms[i].spec_id().len() as int, missing_parent_fn(ms, i)),
        ),
{
    let f = missing_parent_fn(ms, i);
    let n = ms[i].spec_id().len() as int;
    assert(missing_parent_views(ms, i + 1) =~= missing_parent_views(ms, i).union(family(n, f))) by {
        assert forall|v: DiagView| #[trigger] missing_parent_views(ms, i + 1).contains(v) implies missing_parent_views(ms, i).union(family(n, f)).contains(v) by {
            let (a, k) = choose|a: int, k: int| 0 <= a < i + 1 && #[trigger] missing_parent_view(ms, a, k) == Some(v);
            if a < i {
                assert(missing_parent_views(ms, i).contains(v));
            } else {
                assert(0 <= k < n && f(k) == Some(v));
                assert(family(n, f).contains(v));
            }
        }
        assert forall|v: DiagView| #[trigger] missing_parent_views(ms, i).union(family(n, f)).contains(v) implies missing_parent_views(ms, i + 1).contains(v) by {
            if missing_parent_views(ms, i).contains(v) {
                let (a, k) = choose|a: int, k: int| 0 <= a < i && #[trigger] missing_parent_view(ms, a, k) == Some(v);
                assert(0 <= a < i + 1 && missing_parent_view(ms, a, k) == Some(v));
            } else {
                let k = choose|k: int| 0 <= k < n && #[trigger] f(k) == Some(v);
                assert(0 <= i < i + 1 && missing_parent_view(ms, i, k) == Some(v));
            }
        }
    }
}

fn insert_missing_parents(out: &mut Vec<Diagnostic>, ms: &Vec<ModuleDecl>, i: usize)
    requires
        i < ms@.len(),
        diags_ascending(old(out)@),
    ensures
        diags_ascending(final(out)@),
        view_set(final(out)@) == view_set(old(out)@).union(
            family(ms@[i as int].spec_id().len() as int, missing_parent_fn(ms@, i as int)),
        ),
{
    proof {
        reveal_strlit("missing intermediate module `");
        reveal_strlit("`");
    }
    let ghost base = view_set(out@);
    let ghost f = missing_parent_fn(ms@, i as int);
    let module = &ms[i];
    let id = module.id_str();
    let len = id.unicode_len();
    let mut k: usize = 0;
    proof {
        lemma_family_empty(f);
        assert(base =~= base.union(family(0, f)));
    }
    while k < len
        invariant
            k <= len,
            len == id@.len(),
            id@ == ms@[i as int].spec_id(),
            i < ms@.len(),
            *module == ms@[i as int],
            f == missing_parent_fn(ms@, i as int),
            diags_ascending(out@),
            view_set(out@) == base.union(family(k as int, f)),
        decreases len - k,
    {
        let ghost before = view_set(out@);
        let mut d: Option<Diagnostic> = None;
        if id.get_char(k) == '.' {
            let parent = id.substring_char(0, k);
            if !module_id_exists(ms, parent) {
                let message = concat3("missing intermediate module `", parent, "`");
                d = Some(error_diag(module.location_ref(), message));
                proof {
                    assert(parent@ =~= id@.take(k as int));
                    assert(message@ == "missing intermediate module `"@ + id@.take(k as int) + "`"@);
                    assert(!is_module_id(ms@, id@.take(k as int)));
                    assert(id@[k as int] == '.');
                    assert(missing_parent_view(ms@, i as int, k as int) == Some(error_view(
                        ms@[i as int].spec_location().path@,
                        ms@[i as int].spec_location().line,
                        message@,
                    )));
                }
            } else {
                proof {
                    assert(parent@ =~= id@.take(k as int));
                }
            }
        }
        proof {
            assert(f(k as int) == missing_parent_view(ms@, i as int, k as int));
            assert(opt_view(d) == missing_parent_view(ms@, i as int, k as int));
        }
        insert_opt(out, d);
        proof {
            lemma_family_step(k as int, f);
            assert(view_set(out@) =~= base.union(family(k + 1, f)));
        }
        k = k + 1;
    }
}

/// An attachment to an unknown id, or to an area, is reported on the
/// attachment.
pub open spec fn implement_target_view(ms: Seq<ModuleDecl>, is: Seq<ImplementRef>, t: int) -> Option<DiagView> {
    let id = is[t].module_id@;
    let loc = is[t].location;
    match last_module_with_id(ms, id, ms.len() as int) {
        None => Some(
            error_view(
                loc.path@,
                loc.line,
                "unknown module id `"@ + id + "` referenced by @implements or @fileimplements"@,
            ),
        ),
        Some(j) => if ms[j].spec_kind() == ArchitectureKind::Area {
            Some(
                error_view(
                    loc.path@,
                    loc.line,
                    "@implements and @fileimplements may only reference @module ids; `"@ + id
                        + "` is declared as @area"@,
                ),
            )
        } else {
            None
        },
    }
}

pub open spec fn implement_target_fn(ms: Seq<ModuleDecl>, is: Seq<ImplementRef>) -> spec_fn(int) -> Option<DiagView> {
    |t: int| implement_target_view(ms, is, t)
}

fn implement_target_diag(ms: &Vec<ModuleDecl>, is: &Vec<ImplementRef>, t: usize) -> (r: Option<Diagnostic>)
    requires
        t < is@.len(),
    ensures
        opt_view(r) == implement_target_view(ms@, is@, t as int),
{
    proof {
        reveal_strlit("unknown module id `");
        reveal_strlit("` referenced by @implements or @fileimplements");
        reveal_strlit("@implements and @fileimplements may only reference @module ids; `");
        reveal_strlit("` is declared as @area");
    }
    let r = &is[t];
    match find_last_module(ms, r.module_id.as_str(), ms.len()) {
        None => Some(
            error_diag(
                &r.location,
                concat3("unknown module id `", r.module_id.as_str(), "` referenced by @implements or @fileimplements"),
            ),
        ),
        Some(j) => match ms[j].kind() {
            ArchitectureKind::Area => Some(
                error_diag(
                    &r.location,
                    concat3(
                        "@implements and @fileimplements may only reference @module ids; `",
                        r.module_id.as_str(),
                        "` is declared as @area",
                    ),
                ),
            ),
            ArchitectureKind::Module => None,
        },
    }
}

/// The last pattern before index `upto` that declares `id`.
pub open spec fn last_pattern_with_id(ps: Seq<PatternDefinition>, id: Seq<char>, upto: int) -> Option<int>
    decreases upto,
{
    if upto <= 0 {
        None
    } else if ps[upto - 1].pattern_id@ == id {
        Some(upto - 1)
    } else {
        last_pattern_with_id(ps, id, upto - 1)
    }
}

fn find_last_pattern(ps: &Vec<PatternDefinition>, id: &str, upto: usize) -> (r: Option<usize>)
    requires
        upto <= ps@.len(),
    ensures
        match r {
            Some(j) => last_pattern_with_id(ps@, id@, upto as int) == Some(j as int) && j < upto,
            None => last_pattern_with_id(ps@, id@, upto as int) is None,
        },
{
    let mut k = upto;
    while k > 0
        invariant
            k <= upto <= ps@.len(),
            last_pattern_with_id(ps@, id@, upto as int) == last_pattern_with_id(ps@, id@, k as int),
        decreases k,
    {
        if str_eq(ps[k - 1].pattern_id.as_str(), id) {
            return Some(k - 1);
        }
        k = k - 1;
    }
    None
}

/// A pattern with a repeated id is reported with the line of the last
/// earlier declaration of that id.
pub open spec fn duplicate_pattern_view(ps: Seq<PatternDefinition>, i: int) -> Option<DiagView> {
    match last_pattern_with_id(ps, ps[i].pattern_id@, i) {
        Some(j) => Some(
            error_view(
                ps[i].location.path@,
                ps[i].location.line,
                "duplicate pattern id `"@ + ps[i].pattern_id@ + "`; first declared on line "@ + decimal(
                    ps[j].location.line as nat,
                ),
            ),
        ),
        None => None,
    }
}

pub open spec fn duplicate_pattern_fn(ps: Seq<PatternDefinition>) -> spec_fn(int) -> Option<DiagView> {
    |i: int| duplicate_pattern_view(ps, i)
}

fn duplicate_pattern_diag(ps: &Vec<PatternDefinition>, i: usize) -> (r: Option<Diagnostic>)
    requires
        i < ps@.len(),
    ensures
        opt_view(r) == duplicate_pattern_view(ps@, i as int),
{
    proof {
        reveal_strlit("duplicate pattern id `");
        reveal_strlit("`; first declared on line ");
    }
    let pattern = &ps[i];
    match find_last_pattern(ps, pattern.pattern_id.as_str(), i) {
        Some(j) => {
            let head = concat3("duplicate pattern id `", pattern.pattern_id.as_str(), "`; first declared on line ");
            let message = concat2(head.as_str(), decimal_string(ps[j].location.line).as_str());
            Some(error_diag(&pattern.location, message))
        },
        None => None,
    }
}

/// An application of an undeclared pattern is reported on the application.
pub open spec fn unknown_application_view(ps: Seq<PatternDefinition>, apps: Seq<PatternApplication>, t: int) -> Option<
    DiagView,
> {
    if last_pattern_with_id(ps, apps[t].pattern_id@, ps.len() as int) is None {
        Some(
            error_view(
                apps[t].location.path@,
                apps[t].location.line,
                "unknown pattern id `"@ + apps[t].pattern_id@ + "` referenced by @applies"@,
            ),
        )
    } else {
        None
    }
}

pub open spec fn unknown_application_fn(ps: Seq<PatternDefinition>, apps: Seq<PatternApplication>) -> spec_fn(int) -> Option<DiagView> {
    |t: int| unknown_application_view(ps, apps, t)
}

fn unknown_application_diag(ps: &Vec<PatternDefinition>, apps: &Vec<PatternApplication>, t: usize) -> (r: Option<Diagnostic>)
    requires
        t < apps@.len(),
    ensures
        opt_view(r) == unknown_application_view(ps@, apps@, t as int),
{
    proof {
        reveal_strlit("unknown pattern id `");
        reveal_strlit("` referenced by @applies");
    }
    let a = &apps[t];
    match find_last_pattern(ps, a.pattern_id.as_str(), ps.len()) {
        Some(_) => None,
        None => Some(
            error_diag(&a.location, concat3("unknown pattern id `", a.pattern_id.as_str(), "` referenced by @applies")),
        ),
    }
}

/// Two attachments own the same thing: the same attached item, or, for
/// file-scoped ones, the same file.
pub open spec fn same_attachment(a: ImplementRef, b: ImplementRef) -> bool {
    match (a.body_location, b.body_location) {
        (Some(x), Some(y)) => x.path@ == y.path@ && x.line == y.line,
        (None, None) => a.location.path@ == b.location.path@,
        _ => false,
    }
}

/// The last attachment before index `upto` that owns what `r` owns.
pub open spec fn last_same_attachment(is: Seq<ImplementRef>, r: ImplementRef, upto: int) -> Option<int>
    decreases upto,
{
    if upto <= 0 {
        None
    } else if same_attachment(is[upto - 1], r) {
        Some(upto - 1)
    } else {
        last_same_attachment(is, r, upto - 1)
    }
}

fn same_attachment_of(a: &ImplementRef, b: &ImplementRef) -> (r: bool)
    ensures
        r == same_attachment(*a, *b),
{
    match (&a.body_location, &b.body_location) {
        (Some(x), Some(y)) => str_eq(x.path.as_str(), y.path.as_str()) && x.line == y.line,
        (None, None) => str_eq(a.location.path.as_str(), b.location.path.as_str()),
        _ => false,
    }
}

/// A second attachment of the same item or file is reported with the line
/// of the last earlier one.
pub open spec fn duplicate_implement_view(is: Seq<ImplementRef>, i: int) -> Option<DiagView> {
    match last_same_attachment(is, is[i], i) {
        None => None,
        Some(j) => match is[i].body_location {
            Some(b) => Some(
                error_view(
                    is[i].location.path@,
                    is[i].location.line,
                    "duplicate @implements for attached item starting on line "@ + decimal(b.line as nat)
                        + "; first declared on line "@ + decimal(is[j].location.line as nat),
                ),
            ),
            None => Some(
                error_view(
                    is[i].location.path@,
                    is[i].location.line,
                    "duplicate @fileimplements; first declared on line "@ + decimal(is[j].location.line as nat),
                ),
            ),
        },
    }
}

pub open spec fn duplicate_implement_fn(is: Seq<ImplementRef>) -> spec_fn(int) -> Option<DiagView> {
    |i: int| duplicate_implement_view(is, i)
}

fn duplicate_implement_diag(is: &Vec<ImplementRef>, i: usize) -> (r: Option<Diagnostic>)
    requires
        i < is@.len(),
    ensures
        opt_view(r) == duplicate_implement_view(is@, i as int),
{
    proof {
        reveal_strlit("duplicate @implements for attached item starting on line ");
        reveal_strlit("; first declared on line ");
        reveal_strlit("duplicate @fileimplements; first declared on line ");
    }
    let r = &is[i];
    let mut k = i;
    while k > 0
        invariant
            k <= i < is@.len(),
            *r == is@[i as int],
            last_same_attachment(is@, is@[i as int], i as int) == last_same_attachment(is@, is@[i as int], k as int),
        decreases k,
    {
        if same_attachment_of(&is[k - 1], r) {
            let previous = decimal_string(is[k - 1].location.line);
            let message = match &r.body_location {
                Some(b) => concat2(
                    concat3(
                        "duplicate @implements for attached item starting on line ",
                        decimal_string(b.line).as_str(),
                        "; first declared on line ",
                    ).as_str(),
                    previous.as_str(),
                ),
                None => concat2("duplicate @fileimplements; first declared on line ", previous.as_str()),
            };
            return Some(error_diag(&r.location, message));
        }
        k = k - 1;
    }
    None
}

/// Whether some attachment names the module `id`.
pub open spec fn is_implemented(is: Seq<ImplementRef>, id: Seq<char>) -> bool {
    exists|t: int| 0 <= t < is.len() && is[t].module_id@ == id
}

/// A current module that nothing implements is reported on the module.
pub open spec fn unowned_module_view(ms: Seq<ModuleDecl>, is: Seq<ImplementRef>, i: int) -> Option<DiagView> {
    if ms[i].spec_kind() == ArchitectureKind::Module && !(ms[i].spec_plan() is Planned) && !is_implemented(
        is,
        ms[i].spec_id(),
    ) {
        Some(
            error_view(
                ms[i].spec_location().path@,
                ms[i].spec_location().line,
                "current module `"@ + ms[i].spec_id()
                    + "` has no ownership; add @implements/@fileimplements or mark the module @planned while it is architecture intent"@,
            ),
        )
    } else {
        None
    }
}

pub open spec fn unowned_module_fn(ms: Seq<ModuleDecl>, is: Seq<ImplementRef>) -> spec_fn(int) -> Option<DiagView> {
    |i: int| unowned_module_view(ms, is, i)
}

fn unowned_module_diag(ms: &Vec<ModuleDecl>, is: &Vec<ImplementRef>, i: usize) -> (r: Option<Diagnostic>)
    requires
        i < ms@.len(),
    ensures
        opt_view(r) == unowned_module_view(ms@, is@, i as int),
{
    proof {
        reveal_strlit("current module `");
        reveal_strlit("` has no ownership; add @implements/@fileimplements or mark the module @planned while it is architecture intent");
    }
    let module = &ms[i];
    match module.kind() {
        ArchitectureKind::Area => return None,
        ArchitectureKind::Module => {},
    }
    if module.is_planned() {
        return None;
    }
    let mut t: usize = 0;
    while t < is.len()
        invariant
            t <= is@.len(),
            *module == ms@[i as int],
            forall|u: int| 0 <= u < t ==> (#[trigger] is@[u]).module_id@ != ms@[i as int].spec_id(),
        decreases is@.len() - t,
    {
        if str_eq(is[t].module_id.as_str(), module.id_str()) {
            return None;
        }
        t = t + 1;
    }
    Some(
        error_diag(
            module.location_ref(),
            concat3(
                "current module `",
                module.id_str(),
                "` has no ownership; add @implements/@fileimplements or mark the module @planned while it is architecture intent",
            ),
        ),
    )
}

/// Everything the lint reports: the parse diagnostics and each rule's
/// findings, as a set of diagnostic contents.
pub open spec fn lint_views(p: ParsedArchitecture) -> Set<DiagView> {
    let ms = p.modules@;
    let is = p.implements@;
    let ps = p.patterns@;
    let apps = p.pattern_applications@;
    view_set(p.diagnostics@).union(family(ms.len() as int, duplicate_module_fn(ms))).union(
        missing_parent_views(ms, ms.len() as int),
    ).union(family(is.len() as int, implement_target_fn(ms, is))).union(
        family(ps.len() as int, duplicate_pattern_fn(ps)),
    ).union(family(apps.len() as int, unknown_application_fn(ps, apps))).union(
        family(is.len() as int, duplicate_implement_fn(is)),
    ).union(family(ms.len() as int, unowned_module_fn(ms, is)))
}

proof fn lemma_step_union(base: Set<DiagView>, n: int, f: spec_fn(int) -> Option<DiagView>)
    requires
        n >= 0,
    ensures
        base.union(family(n, f)).union(opt_set(f(n))) == base.union(family(n + 1, f)),
{
    lemma_family_step(n, f);
    assert(base.union(family(n, f)).union(opt_set(f(n))) =~= base.union(family(n + 1, f)));
}

proof fn lemma_start_union(base: Set<DiagView>, f: spec_fn(int) -> Option<DiagView>)
    ensures
        base == base.union(family(0, f)),
{
    lemma_family_empty(f);
    assert(base =~= base.union(family(0, f)));
}

fn insert_duplicate_modules(out: &mut Vec<Diagnostic>, ms: &Vec<ModuleDecl>)
    requires
        diags_ascending(old(out)@),
    ensures
        diags_ascending(final(out)@),
        view_set(final(out)@) == view_set(old(out)@).union(family(ms@.len() as int, duplicate_module_fn(ms@))),
{
    let ghost base = view_set(out@);
    let ghost f = duplicate_module_fn(ms@);
    proof {
        lemma_start_union(base, f);
    }
    let mut i: usize = 0;
    while i < ms.len()
        invariant
            i <= ms@.len(),
            f == duplicate_module_fn(ms@),
            diags_ascending(out@),
            view_set(out@) == base.union(family(i as int, f)),
        decreases ms@.len() - i,
    {
        let d = duplicate_module_diag(ms, i);
        insert_opt(out, d);
        proof {
            lemma_step_union(base, i as int, f);
        }
        i = i + 1;
    }
}

fn insert_missing_intermediates(out: &mut Vec<Diagnostic>, ms: &Vec<ModuleDecl>)
    requires
        diags_ascending(old(out)@),
    ensures
        diags_ascending(final(out)@),
        view_set(final(out)@) == view_set(old(out)@).union(missing_parent_views(ms@, ms@.len() as int)),
{
    let ghost base = view_set(out@);
    proof {
        assert(missing_parent_views(ms@, 0) =~= Set::<DiagView>::empty());
        assert(base =~= base.union(missing_parent_views(ms@, 0)));
    }
    let mut i: usize = 0;
    while i < ms.len()
        invariant
            i <= ms@.len(),
            diags_ascending(out@),
            view_set(out@) == base.union(missing_parent_views(ms@, i as int)),
        decreases ms@.len() - i,
    {
        insert_missing_parents(out, ms, i);
        proof {
            lemma_missing_step(ms@, i as int);
            assert(view_set(out@) =~= base.union(missing_parent_views(ms@, i + 1)));
        }
        i = i + 1;
    }
}

fn insert_implement_targets(out: &mut Vec<Diagnostic>, ms: &Vec<ModuleDecl>, is: &Vec<ImplementRef>)
    requires
        diags_ascending(old(out)@),
    ensures
        diags_ascending(final(out)@),
        view_set(final(out)@) == view_set(old(out)@).union(family(is@.len() as int, implement_target_fn(ms@, is@))),
{
    let ghost base = view_set(out@);
    let ghost f = implement_target_fn(ms@, is@);
    proof {
        lemma_start_union(base, f);
    }
    let mut t: usize = 0;
    while t < is.len()
        invariant
            t <= is@.len(),
            f == implement_target_fn(ms@, is@),
            diags_ascending(out@),
            view_set(out@) == base.union(family(t as int, f)),
        decreases is@.len() - t,
    {
        let d = implement_target_diag(ms, is, t);
        insert_opt(out, d);
        proof {
            lemma_step_union(base, t as int, f);
        }
        t = t + 1;
    }
}

fn insert_duplicate_patterns(out: &mut Vec<Diagnostic>, ps: &Vec<PatternDefinition>)
    requires
        diags_ascending(old(out)@),
    ensures
        diags_ascending(final(out)@),
        view_set(final(out)@) == view_set(old(out)@).union(family(ps@.len() as int, duplicate_pattern_fn(ps@))),
{
    let ghost base = view_set(out@);
    let ghost f = duplicate_pattern_fn(ps@);
    proof {
        lemma_start_union(base, f);
    }
    let mut i: usize = 0;
    while i < ps.len()
        invariant
            i <= ps@.len(),
            f == duplicate_pattern_fn(ps@),
            diags_ascending(out@),
            view_set(out@) == base.union(family(i as int, f)),
        decreases ps@.len() - i,
    {
        let d = duplicate_pattern_diag(ps, i);
        insert_opt(out, d);
        proof {
            lemma_step_union(base, i as int, f);
        }
        i = i + 1;
    }
}

fn insert_unknown_applications(
    out: &mut Vec<Diagnostic>,
    ps: &Vec<PatternDefinition>,
    apps: &Vec<PatternApplication>,
)
    requires
        diags_ascending(old(out)@),
    ensures
        diags_ascending(final(out)@),
        view_set(final(out)@) == view_set(old(out)@).union(
            family(apps@.len() as int, unknown_application_fn(ps@, apps@)),
        ),
{
    let ghost base = view_set(out@);
    let ghost f = unknown_application_fn(ps@, apps@);
    proof {
        lemma_start_union(base, f);
    }
    let mut t: usize = 0;
    while t < apps.len()
        invariant
            t <= apps@.len(),
            f == unknown_application_fn(ps@, apps@),
            diags_ascending(out@),
            view_set(out@) == base.union(family(t as int, f)),
        decreases apps@.len() - t,
    {
        let d = unknown_application_diag(ps, apps, t);
        insert_opt(out, d);
        proof {
            lemma_step_union(base, t as int, f);
        }
        t = t + 1;
    }
}

fn insert_duplicate_implements(out: &mut Vec<Diagnostic>, is: &Vec<ImplementRef>)
    requires
        diags_ascending(old(out)@),
    ensures
        diags_ascending(final(out)@),
        view_set(final(out)@) == view_set(old(out)@).union(family(is@.len() as int, duplicate_implement_fn(is@))),
{
    let ghost base = view_set(out@);
    let ghost f = duplicate_implement_fn(is@);
    proof {
        lemma_start_union(base, f);
    }
    let mut i: usize = 0;
    while i < is.len()
        invariant
            i <= is@.len(),
            f == duplicate_implement_fn(is@),
            diags_ascending(out@),
            view_set(out@) == base.union(family(i as int, f)),
        decreases is@.len() - i,
    {
        let d = duplicate_implement_diag(is, i);
        insert_opt(out, d);
        proof {
            lemma_step_union(base, i as int, f);
        }
        i = i + 1;
    }
}

fn insert_unowned_modules(out: &mut Vec<Diagnostic>, ms: &Vec<ModuleDecl>, is: &Vec<ImplementRef>)
    requires
        diags_ascending(old(out)@),
    ensures
        diags_ascending(final(out)@),
        view_set(final(out)@) == view_set(old(out)@).union(family(ms@.len() as int, unowned_module_fn(ms@, is@))),
{
    let ghost base = view_set(out@);
    let ghost f = unowned_module_fn(ms@, is@);
    proof {
        lemma_start_union(base, f);
    }
    let mut i: usize = 0;
    while i < ms.len()
        invariant
            i <= ms@.len(),
            f == unowned_module_fn(ms@, is@),
            diags_ascending(out@),
            view_set(out@) == base.union(family(i as int, f)),
        decreases ms@.len() - i,
    {
        let d = unowned_module_diag(ms, is, i);
        insert_opt(out, d);
        proof {
            lemma_step_union(base, i as int, f);
        }
        i = i + 1;
    }
}

/// The module lint report of a parse result.
///
/// Its diagnostics are the parse diagnostics and the findings of every
/// rule, each once, in ascending order of severity, path, line, and
/// message.
pub fn build_module_lint_report(parsed: &ParsedArchitecture) -> (r: LintReport)
    ensures
        diags_ascending(r.diagnostics@),
        view_set(r.diagnostics@) == lint_views(*parsed),
{
    let mut out: Vec<Diagnostic> = Vec::new();
    proof {
        assert(view_set(out@) =~= Set::<DiagView>::empty());
    }
    let mut i: usize = 0;
    while i < parsed.diagnostics.len()
        invariant
            i <= parsed.diagnostics@.len(),
            diags_ascending(out@),
            view_set(out@) == view_set(parsed.diagnostics@.take(i as int)),
        decreases parsed.diagnostics@.len() - i,
    {
        let ghost before = view_set(out@);
        insert_unique(&mut out, parsed.diagnostics[i].clone());
        proof {
            let t = parsed.diagnostics@.take(i + 1);
            assert(view_set(t) =~= view_set(parsed.diagnostics@.take(i as int)).insert(
                diag_view(parsed.diagnostics@[i as int]),
            )) by {
                assert forall|v: DiagView| #[trigger] view_set(t).contains(v) implies view_set(
                    parsed.diagnostics@.take(i as int),
                ).insert(diag_view(parsed.diagnostics@[i as int])).contains(v) by {
                    let k = choose|k: int| 0 <= k < t.len() && #[trigger] diag_view(t[k]) == v;
                    if k < i {
                        assert(parsed.diagnostics@.take(i as int)[k] == t[k]);
                    }
                }
                assert forall|v: DiagView| #[trigger] view_set(parsed.diagnostics@.take(i as int)).insert(
                    diag_view(parsed.diagnostics@[i as int]),
                ).contains(v) implies view_set(t).contains(v) by {
                    if v == diag_view(parsed.diagnostics@[i as int]) {
                        assert(diag_view(t[i as int]) == v);
                    } else {
                        let k = choose|k: int| 0 <= k < i && #[trigger] diag_view(parsed.diagnostics@.take(i as int)[k]) == v;
                        assert(diag_view(t[k]) == v);
                    }
                }
            }
        }
        i = i + 1;
    }
    proof {
        assert(parsed.diagnostics@.take(i as int) =~= parsed.diagnostics@);
    }
    insert_duplicate_modules(&mut out, &parsed.modules);
    insert_missing_intermediates(&mut out, &parsed.modules);
    insert_implement_targets(&mut out, &parsed.modules, &parsed.implements);
    insert_duplicate_patterns(&mut out, &parsed.patterns);
    insert_unknown_applications(&mut out, &parsed.patterns, &parsed.pattern_applications);
    insert_duplicate_implements(&mut out, &parsed.implements);
    insert_unowned_modules(&mut out, &parsed.modules, &parsed.implements);
    LintReport { diagnostics: out }
}

proof fn lemma_last_same_attachment(is: Seq<ImplementRef>, r: ImplementRef, upto: int)
    requires
        0 <= upto <= is.len(),
    ensures
        (last_same_attachment(is, r, upto) is Some) == (exists|j: int|
            0 <= j < upto && #[trigger] same_attachment(is[j], r)),
    decreases upto,
{
    if upto > 0 {
        lemma_last_same_attachment(is, r, upto - 1);
        if same_attachment(is[upto - 1], r) {
            assert(same_attachment(is[upto - 1], r));
        }
    }
}

/// A second `@implements` is reported as a duplicate exactly when an earlier
/// one owns the same thing: for an item-scoped one, an attached item in the
/// same file starting on the same line; for a file-scoped one, the same
/// file. Attachments to items that start on different lines never clash.
pub proof fn law_duplicate_implements_same_owner(is: Seq<ImplementRef>, i: int)
    requires
        0 <= i < is.len(),
    ensures
        (duplicate_implement_view(is, i) is Some) == (exists|j: int|
            0 <= j < i && match (#[trigger] is[j].body_location, is[i].body_location) {
                (Some(x), Some(y)) => x.path@ == y.path@ && x.line == y.line,
                (None, None) => is[j].location.path@ == is[i].location.path@,
                _ => false,
            }),
        forall|j: int|
            0 <= j < i ==> (#[trigger] is[j].body_location matches Some(x) && is[i].body_location matches Some(y)
                && x.line != y.line) ==> !same_attachment(is[j], is[i]),
{
    lemma_last_same_attachment(is, is[i], i);
    if duplicate_implement_view(is, i) is Some {
        let j = choose|j: int| 0 <= j < i && #[trigger] same_attachment(is[j], is[i]);
        assert(is[j].body_location == is[j].body_location);
    } else {
        assert forall|j: int| 0 <= j < i implies !(match (#[trigger] is[j].body_location, is[i].body_location) {
            (Some(x), Some(y)) => x.path@ == y.path@ && x.line == y.line,
            (None, None) => is[j].location.path@ == is[i].location.path@,
            _ => false,
        }) by {
            assert(!same_attachment(is[j], is[i]));
        }
    }
}

} // verus!
