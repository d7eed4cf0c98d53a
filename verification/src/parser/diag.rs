//! Diagnostics emitted while parsing, and the growth rules of a parse result.
use vstd::prelude::*;

use crate::model::core_types::DiagnosticSeverity;
use crate::model::spec::{Diagnostic, ParsedRepo};
use crate::text::owned;

verus! {

/// `d` is an error at `path:line` with message `message`.
pub open spec fn error_at(d: Diagnostic, path: Seq<char>, line: usize, message: Seq<char>) -> bool {
    &&& d.severity == DiagnosticSeverity::Error
    &&& d.path@ == path
    &&& d.line == line
    &&& d.message@ == message
}

/// Every diagnostic from index `from` on is an error in `path`.
pub open spec fn errors_in(ds: Seq<Diagnostic>, from: int, path: Seq<char>) -> bool {
    forall|i: int| 0 <= i && from <= i < ds.len() ==> (#[trigger] ds[i]).severity == DiagnosticSeverity::Error
        && ds[i].path@ == path
}

/// Every run of errors in `path` that `old` ends with is still one in `new`.
pub open spec fn keeps_errors(old: Seq<Diagnostic>, new: Seq<Diagnostic>, path: Seq<char>) -> bool {
    &&& old.is_prefix_of(new)
    &&& forall|from: int| #![trigger errors_in(new, from, path)]
        errors_in(old, from, path) ==> errors_in(new, from, path)
}

/// Appends an error diagnostic; nothing else changes.
pub fn push_diag(parsed: &mut ParsedRepo, path: &str, line: usize, message: &str)
    ensures
        final(parsed).specs == old(parsed).specs,
        final(parsed).verifies == old(parsed).verifies,
        final(parsed).attests == old(parsed).attests,
        final(parsed).diagnostics@.len() == old(parsed).diagnostics@.len() + 1,
        final(parsed).diagnostics@.drop_last() == old(parsed).diagnostics@,
        error_at(final(parsed).diagnostics@.last(), path@, line, message@),
        keeps_errors(old(parsed).diagnostics@, final(parsed).diagnostics@, path@),
{
    parsed.diagnostics.push(
        Diagnostic {
            severity: DiagnosticSeverity::Error,
            path: owned(path),
            line,
            message: owned(message),
        },
    );
    proof {
        assert(parsed.diagnostics@.drop_last() =~= old(parsed).diagnostics@);
        let o = old(parsed).diagnostics@;
        let n = parsed.diagnostics@;
        assert(n.take(o.len() as int) =~= o);
        assert forall|from: int| #[trigger] errors_in(o, from, path@) implies errors_in(n, from, path@) by {
            assert forall|i: int| 0 <= i && from <= i < n.len() implies (#[trigger] n[i]).severity
                == DiagnosticSeverity::Error && n[i].path@ == path@ by {
                if i < o.len() {
                    assert(n[i] == o[i]);
                } else {
                    assert(n[i] == n.last());
                }
            }
        }
    }
}

} // verus!
