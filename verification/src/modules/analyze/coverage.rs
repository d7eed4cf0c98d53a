//! How a module's implementation is attached: whole files or single items.
use vstd::prelude::*;

use crate::model::analysis::ModuleCoverageSummary;
use crate::model::architecture::{ImplementRef, ParsedArchitecture};
use crate::text::str_eq;

verus! {

/// The attachments that name `module_id`, in order.
pub open spec fn attachments_of(is: Seq<ImplementRef>, module_id: Seq<char>) -> Seq<ImplementRef> {
    is.filter(|r: ImplementRef| r.module_id@ == module_id)
}

/// The attachments of a module, in parse order.
pub fn implementations_for_module(parsed: &ParsedArchitecture, module_id: &str) -> (r: Vec<ImplementRef>)
    ensures
        r@ == attachments_of(parsed.implements@, module_id@),
{
    let mut out: Vec<ImplementRef> = Vec::new();
    let mut i: usize = 0;
    while i < parsed.implements.len()
        invariant
            i <= parsed.implements@.len(),
            out@ == attachments_of(parsed.implements@.take(i as int), module_id@),
        decreases parsed.implements@.len() - i,
    {
        let ghost prefix = parsed.implements@.take(i as int);
        proof {
            assert(parsed.implements@.take(i + 1).drop_last() =~= prefix);
            reveal(Seq::filter);
        }
        if str_eq(parsed.implements[i].module_id.as_str(), module_id) {
            out.push(parsed.implements[i].clone_ref());
        }
        proof {
            assert(parsed.implements@.take(i + 1).last() == parsed.implements@[i as int]);
        }
        i = i + 1;
    }
    proof {
        assert(parsed.implements@.take(i as int) =~= parsed.implements@);
    }
    out
}

/// How many attachments cover whole files.
pub open spec fn file_scoped_count(is: Seq<ImplementRef>) -> nat
    decreases is.len(),
{
    if is.len() == 0 {
        0
    } else {
        file_scoped_count(is.drop_last()) + if is.last().body_location is None {
            1nat
        } else {
            0nat
        }
    }
}

/// How many attachments cover single items.
pub open spec fn item_scoped_count(is: Seq<ImplementRef>) -> nat
    decreases is.len(),
{
    if is.len() == 0 {
        0
    } else {
        item_scoped_count(is.drop_last()) + if is.last().body_location is Some {
            1nat
        } else {
            0nat
        }
    }
}

/// Counts file-scoped and item-scoped attachments.
pub fn summarize_coverage(implementations: &Vec<ImplementRef>) -> (r: ModuleCoverageSummary)
    ensures
        r.file_scoped_implements == file_scoped_count(implementations@),
        r.item_scoped_implements == item_scoped_count(implementations@),
{
    let mut file_scoped: usize = 0;
    let mut item_scoped: usize = 0;
    let mut i: usize = 0;
    while i < implementations.len()
        invariant
            i <= implementations@.len(),
            file_scoped == file_scoped_count(implementations@.take(i as int)),
            item_scoped == item_scoped_count(implementations@.take(i as int)),
            file_scoped + item_scoped == i,
        decreases implementations@.len() - i,
    {
        proof {
            assert(implementations@.take(i + 1).drop_last() =~= implementations@.take(i as int));
            assert(implementations@.take(i + 1).last() == implementations@[i as int]);
        }
        if implementations[i].body_location.is_none() {
            file_scoped = file_scoped + 1;
        } else {
            item_scoped = item_scoped + 1;
        }
        i = i + 1;
    }
    proof {
        assert(implementations@.take(i as int) =~= implementations@);
    }
    ModuleCoverageSummary { file_scoped_implements: file_scoped, item_scoped_implements: item_scoped }
}

/// Every attachment is file-scoped or item-scoped, so the two counts add up
/// to the number of attachments.
pub proof fn law_coverage_counts_partition(is: Seq<ImplementRef>)
    ensures
        file_scoped_count(is) + item_scoped_count(is) == is.len(),
    decreases is.len(),
{
    if is.len() > 0 {
        law_coverage_counts_partition(is.drop_last());
    }
}

} // verus!
