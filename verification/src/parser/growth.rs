//! How a parse result may grow while one comment block is read: earlier
//! results stay as they were, and everything added is well-formed and
//! belongs to the block's file.
use vstd::prelude::*;

use crate::model::core_types::CommentBlock;
use crate::model::spec::{AttestRef, ParsedRepo, VerifyRef};
use crate::parser::attestation::attestation_valid;
use crate::parser::decls::opt_string_view;
use crate::parser::diag::{errors_in, keeps_errors};
use crate::text::trim_end;

verus! {

/// The body recorded for a file-scoped attachment: the file text without
/// trailing whitespace, when the block carries it.
pub open spec fn file_body(block: CommentBlock) -> Option<Seq<char>> {
    match block.source_body {
        Some(b) => Some(trim_end(b@)),
        None => None,
    }
}

/// A verify reference that a block may produce: it sits in the block's file,
/// and an item-scoped one carries the documented item's location and body,
/// while a file-scoped one carries the file text.
pub open spec fn verify_ok(block: CommentBlock, v: VerifyRef) -> bool {
    &&& v.location.path@ == block.path@
    &&& v.spec_id@.len() > 0
    &&& match v.body_location {
        Some(loc) => block.owned_item matches Some(item) && loc == item.location
            && opt_string_view(v.body) == Some(item.body@),
        None => opt_string_view(v.body) == file_body(block),
    }
}

/// An attestation that a block may produce: it sits in the block's file and
/// carries valid metadata; a file-scoped one carries the file text.
pub open spec fn attest_ok(block: CommentBlock, a: AttestRef) -> bool {
    &&& a.location.path@ == block.path@
    &&& a.spec_id@.len() > 0
    &&& attestation_valid(a.artifact@, a.owner@, a.last_reviewed@, a.review_interval_days)
    &&& match a.scope {
        crate::model::spec::AttestScope::File => opt_string_view(a.body) == file_body(block),
        crate::model::spec::AttestScope::Block => a.body is Some,
    }
}

/// `cur` grew from `start` as reading `block` may grow it.
pub open spec fn block_growth(start: ParsedRepo, cur: ParsedRepo, block: CommentBlock) -> bool {
    &&& start.specs@.len() <= cur.specs@.len()
    &&& forall|i: int| 0 <= i < start.specs@.len() ==> #[trigger] cur.specs@[i] == start.specs@[i]
    &&& forall|i: int|
        start.specs@.len() <= i < cur.specs@.len() ==> (#[trigger] cur.specs@[i])@.valid()
            && cur.specs@[i]@.path == block.path@
    &&& keeps_errors(start.diagnostics@, cur.diagnostics@, block.path@)
    &&& start.verifies@.is_prefix_of(cur.verifies@)
    &&& forall|i: int|
        start.verifies@.len() <= i < cur.verifies@.len() ==> verify_ok(
            block,
            #[trigger] cur.verifies@[i],
        )
    &&& start.attests@.is_prefix_of(cur.attests@)
    &&& forall|i: int|
        start.attests@.len() <= i < cur.attests@.len() ==> attest_ok(
            block,
            #[trigger] cur.attests@[i],
        )
}

pub proof fn lemma_growth_refl(p: ParsedRepo, block: CommentBlock)
    ensures
        block_growth(p, p, block),
{
    assert(p.diagnostics@.take(p.diagnostics@.len() as int) =~= p.diagnostics@);
    assert(p.verifies@.take(p.verifies@.len() as int) =~= p.verifies@);
    assert(p.attests@.take(p.attests@.len() as int) =~= p.attests@);
}

pub proof fn lemma_growth_trans(a: ParsedRepo, b: ParsedRepo, c: ParsedRepo, block: CommentBlock)
    requires
        block_growth(a, b, block),
        block_growth(b, c, block),
    ensures
        block_growth(a, c, block),
{
    assert forall|i: int| 0 <= i < a.specs@.len() implies #[trigger] c.specs@[i] == a.specs@[i] by {
        assert(c.specs@[i] == b.specs@[i]);
    }
    assert forall|i: int| a.specs@.len() <= i < c.specs@.len() implies (#[trigger] c.specs@[i])@.valid()
        && c.specs@[i]@.path == block.path@ by {
        if i < b.specs@.len() {
            assert(c.specs@[i] == b.specs@[i]);
        }
    }
    assert(c.diagnostics@.take(a.diagnostics@.len() as int) =~= a.diagnostics@) by {
        assert(c.diagnostics@.take(b.diagnostics@.len() as int) =~= b.diagnostics@);
        assert(b.diagnostics@.take(a.diagnostics@.len() as int) =~= a.diagnostics@);
    }
    assert(c.verifies@.take(a.verifies@.len() as int) =~= a.verifies@) by {
        assert(c.verifies@.take(b.verifies@.len() as int) =~= b.verifies@);
        assert(b.verifies@.take(a.verifies@.len() as int) =~= a.verifies@);
    }
    assert forall|i: int| a.verifies@.len() <= i < c.verifies@.len() implies verify_ok(
        block,
        #[trigger] c.verifies@[i],
    ) by {
        if i < b.verifies@.len() {
            assert(c.verifies@[i] == c.verifies@.take(b.verifies@.len() as int)[i]);
        }
    }
    assert(c.attests@.take(a.attests@.len() as int) =~= a.attests@) by {
        assert(c.attests@.take(b.attests@.len() as int) =~= b.attests@);
        assert(b.attests@.take(a.attests@.len() as int) =~= a.attests@);
    }
    assert forall|i: int| a.attests@.len() <= i < c.attests@.len() implies attest_ok(
        block,
        #[trigger] c.attests@[i],
    ) by {
        if i < b.attests@.len() {
            assert(c.attests@[i] == c.attests@.take(b.attests@.len() as int)[i]);
        }
    }
}

/// Adding only error diagnostics in the block's file is growth.
pub proof fn lemma_diag_growth(old: ParsedRepo, new: ParsedRepo, block: CommentBlock)
    requires
        new.specs == old.specs,
        new.verifies == old.verifies,
        new.attests == old.attests,
        keeps_errors(old.diagnostics@, new.diagnostics@, block.path@),
    ensures
        block_growth(old, new, block),
{
    assert(old.verifies@.take(old.verifies@.len() as int) =~= old.verifies@);
    assert(old.attests@.take(old.attests@.len() as int) =~= old.attests@);
}

} // verus!
