//! Architecture modules: parsing `@module`, `@area`, `@pattern`, and their
//! attachments, and the lint rules over what was parsed.
use vstd::prelude::*;

use crate::model::architecture::{ImplementRef, ParsedArchitecture, architecture_plan_ok};
use crate::model::core_types::{CommentBlock, DiagnosticSeverity};
use crate::model::overview::LintReport;
use crate::modules::lint::{diags_ascending, lint_views, view_set};
use crate::modules::parse::{
    arch_diags, arch_growth, implement_diags_of, implement_entry, implements_annotation, implements_of,
    parse_implements_refs,
};
use crate::modules::parse_markdown::{
    ArchWalk, arch_view, arch_walk, no_architecture_annotations, parse_markdown_architecture_block,
    plain_architecture_line,
};
use crate::parser::markdown::markdown_block_of;
use crate::parser::MarkdownSource;
use crate::parser::diag::errors_in;
use crate::parser::markdown::{block_texts, markdown_source_block, text_lines};
use crate::text::trim;

pub mod parse;
pub mod parse_markdown;
pub mod lint;
pub mod metrics;
pub mod architecture_metrics;

verus! {

/// What every architecture parse result holds: modules and attachments name
/// an id, no area is planned, and every diagnostic is an error.
pub open spec fn architecture_well_formed(p: ParsedArchitecture) -> bool {
    &&& forall|i: int| 0 <= i < p.modules@.len() ==> (#[trigger] p.modules@[i]).spec_id().len() > 0
        && architecture_plan_ok(p.modules@[i].spec_kind(), p.modules@[i].spec_plan())
    &&& forall|i: int| 0 <= i < p.implements@.len() ==> (#[trigger] p.implements@[i]).module_id@.len() > 0
    &&& forall|i: int| 0 <= i < p.patterns@.len() ==> (#[trigger] p.patterns@[i]).pattern_id@.len() > 0
    &&& forall|i: int| 0 <= i < p.pattern_applications@.len() ==> (#[trigger] p.pattern_applications@[i]).pattern_id@.len() > 0
    &&& forall|i: int| 0 <= i < p.diagnostics@.len() ==> (#[trigger] p.diagnostics@[i]).severity == DiagnosticSeverity::Error
}

pub open spec fn architecture_empty(p: ParsedArchitecture) -> bool {
    &&& p.modules@.len() == 0
    &&& p.implements@.len() == 0
    &&& p.patterns@.len() == 0
    &&& p.pattern_applications@.len() == 0
    &&& p.diagnostics@.len() == 0
}

/// A comment block with no implementation attachment.
pub open spec fn no_implements_lines(block: CommentBlock) -> bool {
    forall|i: int| 0 <= i < block.lines@.len() ==> implements_annotation(trim(#[trigger] block.lines@[i].text@)) is None
}

/// A markdown text with no architecture annotation line.
pub open spec fn plain_architecture_text(content: Seq<char>) -> bool {
    forall|i: int| 0 <= i < text_lines(content).len() ==> plain_architecture_line(#[trigger] text_lines(content)[i])
}

proof fn lemma_arch_growth_well_formed(a: ParsedArchitecture, b: ParsedArchitecture, path: Seq<char>)
    requires
        architecture_well_formed(a),
        arch_growth(a, b, path),
    ensures
        architecture_well_formed(b),
{
    assert forall|i: int| 0 <= i < b.modules@.len() implies (#[trigger] b.modules@[i]).spec_id().len() > 0
        && architecture_plan_ok(b.modules@[i].spec_kind(), b.modules@[i].spec_plan()) by {
        if i < a.modules@.len() {
            assert(b.modules@[i] == a.modules@[i]);
        }
    }
    assert forall|i: int| 0 <= i < b.implements@.len() implies (#[trigger] b.implements@[i]).module_id@.len() > 0 by {
        if i < a.implements@.len() {
            assert(b.implements@[i] == a.implements@[i]);
        }
    }
    assert forall|i: int| 0 <= i < b.patterns@.len() implies (#[trigger] b.patterns@[i]).pattern_id@.len() > 0 by {
        if i < a.patterns@.len() {
            assert(b.patterns@[i] == a.patterns@[i]);
        }
    }
    assert forall|i: int| 0 <= i < b.pattern_applications@.len() implies (#[trigger] b.pattern_applications@[i]).pattern_id@.len() > 0 by {
        if i < a.pattern_applications@.len() {
            assert(b.pattern_applications@[i] == a.pattern_applications@[i]);
        }
    }
    assert(errors_in(a.diagnostics@, a.diagnostics@.len() as int, path));
    assert(errors_in(b.diagnostics@, a.diagnostics@.len() as int, path));
    assert forall|i: int| 0 <= i < b.diagnostics@.len() implies (#[trigger] b.diagnostics@[i]).severity == DiagnosticSeverity::Error by {
        if i < a.diagnostics@.len() {
            assert(b.diagnostics@[i] == b.diagnostics@.take(a.diagnostics@.len() as int)[i]);
            assert(b.diagnostics@[i] == a.diagnostics@[i]);
        }
    }
}

/// The attachments that the comment blocks `blocks[0..n]` record, block by
/// block and in line order within a block.
pub open spec fn blocks_implements(blocks: Seq<CommentBlock>, n: int) -> Seq<
    (Seq<char>, (Seq<char>, usize), Option<(Seq<char>, usize)>, Option<Seq<char>>),
>
    decreases n,
{
    if n <= 0 {
        Seq::empty()
    } else {
        blocks_implements(blocks, n - 1) + implements_of(blocks[n - 1], blocks[n - 1].lines@.len() as int)
    }
}

/// The errors that the comment blocks `blocks[0..n]` report, block by block
/// and in line order within a block.
pub open spec fn blocks_diags(blocks: Seq<CommentBlock>, n: int) -> Seq<(Seq<char>, usize, Seq<char>)>
    decreases n,
{
    if n <= 0 {
        Seq::empty()
    } else {
        blocks_diags(blocks, n - 1) + implement_diags_of(blocks[n - 1], blocks[n - 1].lines@.len() as int)
    }
}

/// The entries that reading the markdown files held in `mblocks[0..n]`
/// records after `w`, in order.
pub open spec fn files_arch(mblocks: Seq<CommentBlock>, w: ArchWalk, n: int) -> ArchWalk
    decreases n,
{
    if n <= 0 {
        w
    } else {
        let prev = files_arch(mblocks, w, n - 1);
        arch_walk(mblocks[n - 1], 0, ArchWalk { fence: false, ..prev })
    }
}

/// The entries after the comment blocks: their attachments and errors, and
/// nothing else.
pub open spec fn comment_arch(blocks: Seq<CommentBlock>) -> ArchWalk {
    ArchWalk {
        modules: Seq::empty(),
        implements: blocks_implements(blocks, blocks.len() as int),
        patterns: Seq::empty(),
        applications: Seq::empty(),
        diags: blocks_diags(blocks, blocks.len() as int),
        fence: false,
    }
}

/// `a` and `b` record the same entries.
pub open spec fn same_arch(a: ArchWalk, b: ArchWalk) -> bool {
    &&& a.modules == b.modules
    &&& a.implements == b.implements
    &&& a.patterns == b.patterns
    &&& a.applications == b.applications
    &&& a.diags == b.diags
}

/// `r` is the architecture of a repository with comment blocks `blocks` and
/// markdown files `markdown`: it is well formed, and its entries are, one by
/// one and in order, those that the comment blocks record, then those that
/// reading each markdown file (split into its numbered lines) records.
pub open spec fn parses_to(blocks: Seq<CommentBlock>, markdown: Seq<MarkdownSource>, r: ParsedArchitecture) -> bool {
    &&& architecture_well_formed(r)
    &&& exists|mblocks: Seq<CommentBlock>|
        #![trigger files_arch(mblocks, comment_arch(blocks), markdown.len() as int)]
        mblocks.len() == markdown.len() && (forall|j: int| 0 <= j < markdown.len() ==> markdown_block_of(
            #[trigger] mblocks[j],
            markdown[j].path@,
            markdown[j].content@,
        )) && same_arch(arch_view(r, false), files_arch(mblocks, comment_arch(blocks), markdown.len() as int))
}

proof fn lemma_files_arch_prefix(mblocks: Seq<CommentBlock>, w: ArchWalk, n: int)
    requires
        0 <= n < mblocks.len(),
    ensures
        files_arch(mblocks, w, n) == files_arch(mblocks.drop_last(), w, n),
    decreases n,
{
    if n > 0 {
        lemma_files_arch_prefix(mblocks, w, n - 1);
        assert(mblocks[n - 1] == mblocks.drop_last()[n - 1]);
    }
}

/// Parses the architecture of a repository: the implementation attachments
/// of its comment blocks, then the declarations and attachments of its
/// markdown files. The attachments and errors of the comment blocks come
/// first, block by block and line by line, as each block records them; then
/// each markdown file adds its modules, attachments, patterns, applications,
/// and errors as `arch_walk` reads them. A repository with no annotation
/// yields an empty result.
pub fn parse_architecture(blocks: &Vec<CommentBlock>, markdown: &Vec<MarkdownSource>) -> (r: ParsedArchitecture)
    ensures
        parses_to(blocks@, markdown@, r),
        (forall|i: int| 0 <= i < blocks@.len() ==> no_implements_lines(#[trigger] blocks@[i])) && (forall|
            i: int,
        |
            0 <= i < markdown@.len() ==> plain_architecture_text(#[trigger] markdown@[i].content@))
            ==> architecture_empty(r),
{
    let mut parsed = ParsedArchitecture {
        modules: Vec::new(),
        implements: Vec::new(),
        patterns: Vec::new(),
        pattern_applications: Vec::new(),
        diagnostics: Vec::new(),
    };
    let ghost plain = (forall|i: int| 0 <= i < blocks@.len() ==> no_implements_lines(#[trigger] blocks@[i]))
        && (forall|i: int| 0 <= i < markdown@.len() ==> plain_architecture_text(#[trigger] markdown@[i].content@));
    proof {
        assert(parsed.implements@.map_values(|r: ImplementRef| implement_entry(r)) =~= blocks_implements(blocks@, 0));
        assert(arch_diags(parsed.diagnostics@) =~= blocks_diags(blocks@, 0));
    }
    let mut i: usize = 0;
    while i < blocks.len()
        invariant
            i <= blocks@.len(),
            architecture_well_formed(parsed),
            plain == ((forall|i: int| 0 <= i < blocks@.len() ==> no_implements_lines(#[trigger] blocks@[i]))
                && (forall|i: int| 0 <= i < markdown@.len() ==> plain_architecture_text(#[trigger] markdown@[i].content@))),
            plain ==> architecture_empty(parsed),
            parsed.modules@.len() == 0,
            parsed.patterns@.len() == 0,
            parsed.pattern_applications@.len() == 0,
            parsed.implements@.map_values(|r: ImplementRef| implement_entry(r)) == blocks_implements(blocks@, i as int),
            arch_diags(parsed.diagnostics@) == blocks_diags(blocks@, i as int),
        decreases blocks@.len() - i,
    {
        let ghost before = parsed;
        parse_implements_refs(&blocks[i], &mut parsed);
        proof {
            lemma_arch_growth_well_formed(before, parsed, blocks@[i as int].path@);
        }
        i = i + 1;
    }
    proof {
        assert(arch_view(parsed, false) == comment_arch(blocks@)) by {
            assert(arch_view(parsed, false).modules =~= comment_arch(blocks@).modules);
            assert(arch_view(parsed, false).patterns =~= comment_arch(blocks@).patterns);
            assert(arch_view(parsed, false).applications =~= comment_arch(blocks@).applications);
        }
    }
    let ghost mut mblocks: Seq<CommentBlock> = Seq::empty();
    let mut j: usize = 0;
    while j < markdown.len()
        invariant
            j <= markdown@.len(),
            architecture_well_formed(parsed),
            plain == ((forall|i: int| 0 <= i < blocks@.len() ==> no_implements_lines(#[trigger] blocks@[i]))
                && (forall|i: int| 0 <= i < markdown@.len() ==> plain_architecture_text(#[trigger] markdown@[i].content@))),
            plain ==> architecture_empty(parsed),
            mblocks.len() == j,
            forall|k: int| 0 <= k < j ==> markdown_block_of(#[trigger] mblocks[k], markdown@[k].path@, markdown@[k].content@),
            same_arch(arch_view(parsed, false), files_arch(mblocks, comment_arch(blocks@), j as int)),
        decreases markdown@.len() - j,
    {
        let ghost before = parsed;
        let block = markdown_source_block(markdown[j].path.as_str(), markdown[j].content.as_str());
        parse_markdown_architecture_block(&block, &mut parsed);
        proof {
            let prevw = files_arch(mblocks, comment_arch(blocks@), j as int);
            let prevb = mblocks;
            mblocks = mblocks.push(block);
            assert(files_arch(mblocks, comment_arch(blocks@), j as int) == prevw) by {
                lemma_files_arch_prefix(mblocks, comment_arch(blocks@), j as int);
                assert(mblocks.drop_last() =~= prevb);
            }
            assert(arch_view(before, false) == ArchWalk { fence: false, ..prevw });
            lemma_arch_growth_well_formed(before, parsed, block.path@);
            if plain {
                assert(plain_architecture_text(markdown@[j as int].content@));
                assert forall|k: int| 0 <= k < block.lines@.len() implies plain_architecture_line(#[trigger] block.lines@[k].text@) by {
                    assert(block_texts(block.lines@)[k] == block.lines@[k].text@);
                }
            }
        }
        j = j + 1;
    }
    proof {
        assert(files_arch(mblocks, comment_arch(blocks@), markdown@.len() as int) == files_arch(
            mblocks,
            comment_arch(blocks@),
            j as int,
        ));
    }
    parsed
}

/// The module lint report of a repository: its architecture parsed, then
/// checked by the lint rules. The report holds exactly what the lint rules
/// find in the architecture that the comment blocks and markdown files
/// parse to, in ascending order.
pub fn build_module_lint_report(blocks: &Vec<CommentBlock>, markdown: &Vec<MarkdownSource>) -> (r: LintReport)
    ensures
        exists|p: ParsedArchitecture|
            #![trigger parses_to(blocks@, markdown@, p)]
            parses_to(blocks@, markdown@, p) && view_set(r.diagnostics@) == lint_views(p),
        diags_ascending(r.diagnostics@),
{
    let parsed = parse_architecture(blocks, markdown);
    crate::modules::lint::build_module_lint_report(&parsed)
}

} // verus!
pub mod analyze;
