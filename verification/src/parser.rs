//! Interprets reserved spec annotations from comment blocks and markdown
//! files, applies the dialect's ownership rules, and emits specs, verifies,
//! attests, and diagnostics.
use vstd::prelude::*;

use crate::model::core_types::{CommentBlock, DiagnosticSeverity};
use crate::model::spec::{ParsedRepo, VerifyRef};
use crate::parser::attestation::attestation_valid;
use crate::parser::block::{
    BlockWalk, ParseDialect, ParseRules, block_result, diag_lines, leading_verify, lemma_walk_specs,
    attest_views, no_reserved_lines, parse_block, spec_views, verify_views, walk_start,
};
use crate::planned_syntax::PlannedSyntax;
use crate::parser::diag::errors_in;
use crate::parser::markdown::{
    lemma_md_walk_specs, lemma_md_walk_verifies, markdown_block_of, md_result, parse_markdown_source, plain_markdown_line, text_lines,
};

pub mod decls;
pub mod attestation;
pub mod diag;
pub mod growth;
pub mod lines;
pub mod block;
pub mod markdown;

verus! {

/// A markdown file of the repository: its path and its text.
#[derive(Debug, Clone)]
pub struct MarkdownSource {
    pub path: String,
    pub content: String,
}

/// A markdown text with no annotation line.
pub open spec fn plain_markdown_text(content: Seq<char>) -> bool {
    forall|i: int| 0 <= i < text_lines(content).len() ==> plain_markdown_line(#[trigger] text_lines(content)[i])
}

pub open spec fn all_errors(p: ParsedRepo) -> bool {
    forall|i: int| 0 <= i < p.diagnostics@.len() ==> (#[trigger] p.diagnostics@[i]).severity == DiagnosticSeverity::Error
}

/// What every parse result holds: well-formed specs, error diagnostics,
/// verify references naming a spec, and valid attestations naming a spec.
pub open spec fn repo_items_ok(p: ParsedRepo) -> bool {
    &&& forall|i: int| 0 <= i < p.specs@.len() ==> (#[trigger] p.specs@[i])@.valid()
    &&& all_errors(p)
    &&& forall|i: int| 0 <= i < p.verifies@.len() ==> (#[trigger] p.verifies@[i]).spec_id@.len() > 0
    &&& forall|i: int| 0 <= i < p.attests@.len() ==> (#[trigger] p.attests@[i]).spec_id@.len() > 0
        && attestation_valid(
        p.attests@[i].artifact@,
        p.attests@[i].owner@,
        p.attests@[i].last_reviewed@,
        p.attests@[i].review_interval_days,
    )
}

pub open spec fn empty_repo(p: ParsedRepo) -> bool {
    p.specs@.len() == 0 && p.verifies@.len() == 0 && p.attests@.len() == 0 && p.diagnostics@.len() == 0
}

proof fn lemma_growth_items_ok(a: ParsedRepo, b: ParsedRepo, block: CommentBlock)
    requires
        repo_items_ok(a),
        crate::parser::growth::block_growth(a, b, block),
    ensures
        repo_items_ok(b),
{
    assert forall|i: int| 0 <= i < b.specs@.len() implies (#[trigger] b.specs@[i])@.valid() by {
        if i < a.specs@.len() {
            assert(b.specs@[i] == a.specs@[i]);
        }
    }
    assert(errors_in(a.diagnostics@, a.diagnostics@.len() as int, block.path@));
    assert(errors_in(b.diagnostics@, a.diagnostics@.len() as int, block.path@));
    assert forall|i: int| 0 <= i < b.diagnostics@.len() implies (#[trigger] b.diagnostics@[i]).severity
        == DiagnosticSeverity::Error by {
        if i < a.diagnostics@.len() {
            assert(b.diagnostics@[i] == a.diagnostics@[i]);
        }
    }
    assert forall|i: int| 0 <= i < b.verifies@.len() implies (#[trigger] b.verifies@[i]).spec_id@.len() > 0 by {
        if i < a.verifies@.len() {
            assert(b.verifies@[i] == a.verifies@[i]);
        }
    }
    assert forall|i: int| 0 <= i < b.attests@.len() implies (#[trigger] b.attests@[i]).spec_id@.len() > 0
        && attestation_valid(
        b.attests@[i].artifact@,
        b.attests@[i].owner@,
        b.attests@[i].last_reviewed@,
        b.attests@[i].review_interval_days,
    ) by {
        if i < a.attests@.len() {
            assert(b.attests@[i] == a.attests@[i]);
        }
    }
}

/// The annotation syntax a dialect selects.
pub open spec fn rules_syntax(dialect: ParseDialect) -> PlannedSyntax {
    match dialect {
        ParseDialect::CompatibilityV0 => PlannedSyntax::LegacyBackward,
        ParseDialect::CurrentV1 => PlannedSyntax::AdjacentOwnedSpec,
    }
}

/// The declarations and diagnostics (line and message) that reading the
/// comment blocks `blocks[0..n]` gives, in order, and whether the
/// diagnostics are known exactly.
pub open spec fn blocks_result(blocks: Seq<CommentBlock>, syntax: PlannedSyntax, n: int) -> BlockWalk
    decreases n,
{
    if n <= 0 {
        walk_start(Seq::empty(), Seq::empty(), Seq::empty(), Seq::empty())
    } else {
        let prev = blocks_result(blocks, syntax, n - 1);
        let r = block_result(blocks[n - 1], syntax, prev.specs, prev.diags, prev.verifies, prev.attests);
        BlockWalk { exact: prev.exact && r.exact, ..r }
    }
}

/// The declarations and diagnostics that reading the markdown files held in
/// `mblocks[0..n]` gives after `w`, in order.
pub open spec fn files_result(mblocks: Seq<CommentBlock>, syntax: PlannedSyntax, w: BlockWalk, n: int) -> BlockWalk
    decreases n,
{
    if n <= 0 {
        w
    } else {
        let prev = files_result(mblocks, syntax, w, n - 1);
        let r = md_result(mblocks[n - 1], syntax, prev.specs, prev.diags, prev.verifies, prev.attests);
        BlockWalk { exact: prev.exact && r.exact, ..r }
    }
}

proof fn lemma_files_prefix(mblocks: Seq<CommentBlock>, syntax: PlannedSyntax, w: BlockWalk, n: int)
    requires
        0 <= n < mblocks.len(),
    ensures
        files_result(mblocks, syntax, w, n) == files_result(mblocks.drop_last(), syntax, w, n),
    decreases n,
{
    if n > 0 {
        lemma_files_prefix(mblocks, syntax, w, n - 1);
        assert(mblocks[n - 1] == mblocks.drop_last()[n - 1]);
    }
}

/// The repository holds the verify reference that the first annotation of
/// `block` makes.
pub open spec fn holds_leading_verify(verifies: Seq<VerifyRef>, block: CommentBlock) -> bool {
    leading_verify(block) matches Some(lead) ==> exists|j: int|
        0 <= j < verifies.len() && (#[trigger] verifies[j]).spec_id@ == lead.0 && verifies[j].location.line
            == lead.1 && verifies[j].location.path@ == block.path@
}

/// Parses the extracted comment blocks of a repository, then its markdown
/// files, under the rules of `dialect`.
///
/// Every spec of the result is well-formed, every diagnostic is an error,
/// every verify reference and attestation names a spec and every
/// attestation is valid; a repository without annotations parses to an
/// empty result; and every block whose first annotation is a well-formed
/// verify reference has that reference in the result. The declarations are
/// those the blocks give in order (`blocks_result`), then those the markdown
/// files give in order (`files_result`), and so are the diagnostics' lines
/// and messages unless an attestation's metadata was read. The verify
/// references are exactly those the blocks give in order (markdown files
/// give none), and the attestations are exactly those the blocks and then
/// the markdown files give in order: one for each attestation line with a
/// well-formed spec id whose metadata is accepted (`metadata_ok`), carrying
/// the values that metadata records (`meta_record`).
pub fn parse_repo(
    blocks: &Vec<CommentBlock>,
    markdown: &Vec<MarkdownSource>,
    dialect: ParseDialect,
) -> (r: ParsedRepo)
    ensures
        repo_items_ok(r),
        (forall|i: int| 0 <= i < blocks@.len() ==> no_reserved_lines(#[trigger] blocks@[i])) && (forall|
            i: int,
        |
            0 <= i < markdown@.len() ==> plain_markdown_text(#[trigger] markdown@[i].content@))
            ==> empty_repo(r),
        forall|i: int| 0 <= i < blocks@.len() ==> holds_leading_verify(r.verifies@, #[trigger] blocks@[i]),
        spec_views(r.specs@).take(blocks_result(blocks@, rules_syntax(dialect), blocks@.len() as int).specs.len() as int)
            == blocks_result(blocks@, rules_syntax(dialect), blocks@.len() as int).specs,
        verify_views(r.verifies@) == blocks_result(blocks@, rules_syntax(dialect), blocks@.len() as int).verifies,
        blocks_result(blocks@, rules_syntax(dialect), blocks@.len() as int).exact ==> diag_lines(r.diagnostics@).take(
            blocks_result(blocks@, rules_syntax(dialect), blocks@.len() as int).diags.len() as int,
        ) == blocks_result(blocks@, rules_syntax(dialect), blocks@.len() as int).diags,        exists|mblocks: Seq<CommentBlock>|
            #![trigger files_result(mblocks, rules_syntax(dialect), blocks_result(blocks@, rules_syntax(dialect), blocks@.len() as int), markdown@.len() as int)]
            mblocks.len() == markdown@.len() && (forall|j: int| 0 <= j < markdown@.len() ==> markdown_block_of(
                #[trigger] mblocks[j],
                markdown@[j].path@,
                markdown@[j].content@,
            )) && spec_views(r.specs@) == files_result(
                mblocks,
                rules_syntax(dialect),
                blocks_result(blocks@, rules_syntax(dialect), blocks@.len() as int),
                markdown@.len() as int,
            ).specs && attest_views(r.attests@) == files_result(
                mblocks,
                rules_syntax(dialect),
                blocks_result(blocks@, rules_syntax(dialect), blocks@.len() as int),
                markdown@.len() as int,
            ).attests && (files_result(
                mblocks,
                rules_syntax(dialect),
                blocks_result(blocks@, rules_syntax(dialect), blocks@.len() as int),
                markdown@.len() as int,
            ).exact ==> diag_lines(r.diagnostics@) == files_result(
                mblocks,
                rules_syntax(dialect),
                blocks_result(blocks@, rules_syntax(dialect), blocks@.len() as int),
                markdown@.len() as int,
            ).diags),
{
    let rules = ParseRules::for_dialect(dialect);
    let mut parsed = ParsedRepo::new();
    let ghost plain = (forall|i: int| 0 <= i < blocks@.len() ==> no_reserved_lines(#[trigger] blocks@[i]))
        && (forall|i: int| 0 <= i < markdown@.len() ==> plain_markdown_text(#[trigger] markdown@[i].content@));
    let mut i: usize = 0;
    while i < blocks.len()
        invariant
            i <= blocks@.len(),
            repo_items_ok(parsed),
            plain == ((forall|i: int| 0 <= i < blocks@.len() ==> no_reserved_lines(#[trigger] blocks@[i]))
                && (forall|i: int| 0 <= i < markdown@.len() ==> plain_markdown_text(#[trigger] markdown@[i].content@))),
            plain ==> empty_repo(parsed),
            forall|b: int| 0 <= b < i ==> holds_leading_verify(parsed.verifies@, #[trigger] blocks@[b]),
            rules.planned == rules_syntax(dialect),
            spec_views(parsed.specs@) == blocks_result(blocks@, rules.planned, i as int).specs,
            verify_views(parsed.verifies@) == blocks_result(blocks@, rules.planned, i as int).verifies,
            attest_views(parsed.attests@) == blocks_result(blocks@, rules.planned, i as int).attests,
            blocks_result(blocks@, rules.planned, i as int).exact ==> diag_lines(parsed.diagnostics@)
                == blocks_result(blocks@, rules.planned, i as int).diags,
        decreases blocks@.len() - i,
    {
        let ghost before = parsed;
        parse_block(&blocks[i], &mut parsed, rules);
        proof {
            let prev = blocks_result(blocks@, rules.planned, i as int);
            let rb = block_result(blocks@[i as int], rules.planned, spec_views(before.specs@), diag_lines(before.diagnostics@), verify_views(before.verifies@), attest_views(before.attests@));
            if !prev.exact {
                lemma_walk_specs(blocks@[i as int], rules.planned, 0,
                    walk_start(spec_views(before.specs@), diag_lines(before.diagnostics@), verify_views(before.verifies@), attest_views(before.attests@)),
                    walk_start(prev.specs, prev.diags, prev.verifies, prev.attests));
            }
            assert(blocks_result(blocks@, rules.planned, i as int + 1).specs == spec_views(parsed.specs@)
                && blocks_result(blocks@, rules.planned, i as int + 1).verifies == verify_views(parsed.verifies@)
                && blocks_result(blocks@, rules.planned, i as int + 1).attests == attest_views(parsed.attests@)) by {
                lemma_walk_specs(blocks@[i as int], rules.planned, 0,
                    walk_start(spec_views(before.specs@), diag_lines(before.diagnostics@), verify_views(before.verifies@), attest_views(before.attests@)),
                    walk_start(prev.specs, prev.diags, prev.verifies, prev.attests));
            }
            lemma_growth_items_ok(before, parsed, blocks@[i as int]);
            assert forall|b: int| 0 <= b < i + 1 implies holds_leading_verify(parsed.verifies@, #[trigger] blocks@[b]) by {
                if b < i {
                    if let Some(lead) = leading_verify(blocks@[b]) {
                        let j = choose|j: int|
                            0 <= j < before.verifies@.len() && (#[trigger] before.verifies@[j]).spec_id@ == lead.0
                                && before.verifies@[j].location.line == lead.1 && before.verifies@[j].location.path@
                                == blocks@[b].path@;
                        assert(before.verifies@.is_prefix_of(parsed.verifies@));
                        assert(parsed.verifies@[j] == before.verifies@[j]);
                    }
                } else {
                    if let Some(lead) = leading_verify(blocks@[b]) {
                        let j = parsed.verifies@.len() - 1;
                        assert(parsed.verifies@[j] == parsed.verifies@.last());
                    }
                }
            }
        }
        i = i + 1;
    }
    let ghost bw = blocks_result(blocks@, rules_syntax(dialect), blocks@.len() as int);
    let ghost mut mblocks: Seq<CommentBlock> = Seq::empty();
    let mut j: usize = 0;
    while j < markdown.len()
        invariant
            j <= markdown@.len(),
            repo_items_ok(parsed),
            plain == ((forall|i: int| 0 <= i < blocks@.len() ==> no_reserved_lines(#[trigger] blocks@[i]))
                && (forall|i: int| 0 <= i < markdown@.len() ==> plain_markdown_text(#[trigger] markdown@[i].content@))),
            plain ==> empty_repo(parsed),
            forall|b: int| 0 <= b < blocks@.len() ==> holds_leading_verify(parsed.verifies@, #[trigger] blocks@[b]),
            blocks_result(blocks@, rules_syntax(dialect), blocks@.len() as int).specs.len() <= parsed.specs@.len(),
            spec_views(parsed.specs@).take(blocks_result(blocks@, rules_syntax(dialect), blocks@.len() as int).specs.len() as int)
                == blocks_result(blocks@, rules_syntax(dialect), blocks@.len() as int).specs,
            blocks_result(blocks@, rules_syntax(dialect), blocks@.len() as int).exact ==> (blocks_result(
                blocks@,
                rules_syntax(dialect),
                blocks@.len() as int,
            ).diags.len() <= parsed.diagnostics@.len() && diag_lines(parsed.diagnostics@).take(
                blocks_result(blocks@, rules_syntax(dialect), blocks@.len() as int).diags.len() as int,
            ) == blocks_result(blocks@, rules_syntax(dialect), blocks@.len() as int).diags),
            bw == blocks_result(blocks@, rules_syntax(dialect), blocks@.len() as int),
            verify_views(parsed.verifies@) == bw.verifies,
            files_result(mblocks, rules.planned, bw, j as int).verifies == bw.verifies,
            attest_views(parsed.attests@) == files_result(mblocks, rules.planned, bw, j as int).attests,
            rules.planned == rules_syntax(dialect),
            mblocks.len() == j,
            forall|k: int| 0 <= k < j ==> markdown_block_of(#[trigger] mblocks[k], markdown@[k].path@, markdown@[k].content@),
            spec_views(parsed.specs@) == files_result(mblocks, rules.planned, bw, j as int).specs,
            files_result(mblocks, rules.planned, bw, j as int).exact ==> diag_lines(parsed.diagnostics@) == files_result(
                mblocks,
                rules.planned,
                bw,
                j as int,
            ).diags,
        decreases markdown@.len() - j,
    {
        let ghost before = parsed;
        parse_markdown_source(markdown[j].path.as_str(), markdown[j].content.as_str(), &mut parsed, rules);
        proof {
            let block = choose|block: CommentBlock|
                #![trigger crate::parser::growth::block_growth(before, parsed, block)]
                markdown_block_of(block, markdown@[j as int].path@, markdown@[j as int].content@)
                    && crate::parser::growth::block_growth(before, parsed, block)
                    && (crate::parser::markdown::no_markdown_annotations(block) ==> parsed == before)
                    && spec_views(parsed.specs@) == md_result(
                    block,
                    rules.planned,
                    spec_views(before.specs@),
                    diag_lines(before.diagnostics@), verify_views(before.verifies@), attest_views(before.attests@),
                ).specs && attest_views(parsed.attests@) == md_result(
                    block,
                    rules.planned,
                    spec_views(before.specs@),
                    diag_lines(before.diagnostics@),
                    verify_views(before.verifies@),
                    attest_views(before.attests@),
                ).attests && (md_result(block, rules.planned, spec_views(before.specs@), diag_lines(before.diagnostics@), verify_views(before.verifies@), attest_views(before.attests@)).exact
                    ==> diag_lines(parsed.diagnostics@) == md_result(
                    block,
                    rules.planned,
                    spec_views(before.specs@),
                    diag_lines(before.diagnostics@), verify_views(before.verifies@), attest_views(before.attests@),
                ).diags);
            let prevw = files_result(mblocks, rules.planned, bw, j as int);
            let prevb = mblocks;
            mblocks = mblocks.push(block);
            assert(files_result(mblocks, rules.planned, bw, j as int) == prevw) by {
                lemma_files_prefix(mblocks, rules.planned, bw, j as int);
                assert(mblocks.drop_last() =~= prevb);
            }
            lemma_md_walk_verifies(block, rules.planned, 0, walk_start(prevw.specs, prevw.diags, prevw.verifies, prevw.attests));
            lemma_md_walk_specs(block, rules.planned, 0,
                walk_start(spec_views(before.specs@), diag_lines(before.diagnostics@), verify_views(before.verifies@), attest_views(before.attests@)),
                walk_start(prevw.specs, prevw.diags, prevw.verifies, prevw.attests));
            lemma_growth_items_ok(before, parsed, block);
            let bl = blocks_result(blocks@, rules_syntax(dialect), blocks@.len() as int).specs.len() as int;
            assert(spec_views(parsed.specs@).take(bl) =~= spec_views(before.specs@).take(bl));
            let dl = blocks_result(blocks@, rules_syntax(dialect), blocks@.len() as int).diags.len() as int;
            if blocks_result(blocks@, rules_syntax(dialect), blocks@.len() as int).exact {
                assert(before.diagnostics@.is_prefix_of(parsed.diagnostics@));
                assert(diag_lines(parsed.diagnostics@).take(dl) =~= diag_lines(before.diagnostics@).take(dl));
            }
            if plain {
                assert(plain_markdown_text(markdown@[j as int].content@));
                assert forall|k: int| 0 <= k < block.lines@.len() implies plain_markdown_line(#[trigger] block.lines@[k].text@) by {
                    assert(crate::parser::markdown::block_texts(block.lines@)[k] == block.lines@[k].text@);
                }
            }
        }
        j = j + 1;
    }
    proof {
        assert(files_result(mblocks, rules_syntax(dialect), bw, markdown@.len() as int) == files_result(
            mblocks,
            rules_syntax(dialect),
            bw,
            j as int,
        ));
    }
    parsed
}

} // verus!
