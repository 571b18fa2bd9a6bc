//! A document handle for host bindings: indices and strings in, plain records out.
use crate::detector::{dblocks, BlockDetector};
use crate::format::{lower_of, lowercase};
use crate::manager::{all_true, made_from_detected, render_upto, BlockManager};
use crate::parsers::{CodeParser, LaTeXParser, MarkdownParser, OrgParser};
use crate::registry::{AnyParser, ParserRegistry};
use crate::syntax::{HybridBlock, SyntaxKind};
use crate::text::{lines_of, str_eq, trim_end};
use vstd::prelude::*;

verus! {

/// A block as plain values.
#[derive(Debug, Clone, PartialEq, Eq)]
pub struct FfiBlock {
    pub syntax_type: String,
    pub raw_text: String,
    pub heading_level: Option<u8>,
    pub todo_state: Option<String>,
    pub block_id: Option<String>,
    pub start_line: u32,
    pub end_line: u32,
}

fn clamp_u32(n: usize) -> (r: u32)
    ensures
        n <= u32::MAX ==> r == n,
        n > u32::MAX ==> r == u32::MAX,
{
    if n <= u32::MAX as usize {
        n as u32
    } else {
        u32::MAX
    }
}

impl FfiBlock {
    pub fn from_hybrid(block: &HybridBlock) -> (r: FfiBlock)
        ensures
            r.syntax_type@ == block.syntax.name_spec(),
            r.raw_text@ == block.raw_text@,
            r.heading_level == block.metadata.heading_level,
            block.line_range.0 <= u32::MAX ==> r.start_line == block.line_range.0,
            block.line_range.1 <= u32::MAX ==> r.end_line == block.line_range.1,
    {
        FfiBlock {
            syntax_type: block.syntax.name().to_owned(),
            raw_text: block.raw_text.clone(),
            heading_level: block.metadata.heading_level,
            todo_state: block.metadata.todo_state.clone(),
            block_id: block.metadata.id.clone(),
            start_line: clamp_u32(block.line_range.0),
            end_line: clamp_u32(block.line_range.1),
        }
    }
}

/// Failures of document operations, as plain values.
#[derive(Debug, Clone, PartialEq, Eq)]
pub enum LibnoteError {
    ParseError(String),
    InvalidIndex,
    UnsupportedSyntax(String),
    Other(String),
}

impl LibnoteError {
    /// The message shown to a user.
    pub fn to_string(&self) -> (r: String) {
        match self {
            LibnoteError::ParseError(s) => crate::text::concat("Failed to parse document: ", s.as_str()),
            LibnoteError::InvalidIndex => "Invalid block index".to_owned(),
            LibnoteError::UnsupportedSyntax(s) => crate::text::concat("Unsupported syntax type: ", s.as_str()),
            LibnoteError::Other(s) => crate::text::concat("Operation failed: ", s.as_str()),
        }
    }
}

impl From<String> for LibnoteError {
    fn from(err: String) -> (r: LibnoteError) {
        LibnoteError::Other(err)
    }
}

impl vstd::std_specs::convert::FromSpecImpl<String> for LibnoteError {
    open spec fn obeys_from_spec() -> bool {
        true
    }

    open spec fn from_spec(err: String) -> LibnoteError {
        LibnoteError::Other(err)
    }
}

/// A document with the Markdown, Org and LaTeX parsers registered.
pub struct LibnoteDocument {
    manager: BlockManager,
    registry: ParserRegistry,
}

/// Whether a block is picked: headings (0), headings at `level` (1), TODO (2) or DONE (3).
pub open spec fn picked(b: HybridBlock, pick: u8, level: u8) -> bool {
    if pick == 0 {
        b.metadata.heading_level is Some
    } else if pick == 1 {
        b.metadata.heading_level == Some(level)
    } else if pick == 2 {
        b.metadata.todo_state matches Some(s) && s@ == "TODO"@
    } else {
        b.metadata.todo_state matches Some(s) && s@ == "DONE"@
    }
}

/// What a query over blocks returns: the picked indices, each once, in increasing order.
pub open spec fn picked_indices(blocks: Seq<HybridBlock>, pick: u8, level: u8, r: Seq<u32>) -> bool {
    &&& forall|a: int, b: int| 0 <= a < b < r.len() ==> r[a] < r[b]
    &&& forall|k: int|
        0 <= k < r.len() ==> (#[trigger] r[k]) < blocks.len() && picked(blocks[r[k] as int], pick, level)
    &&& forall|j: int| 0 <= j < blocks.len() && picked(blocks[j], pick, level) ==> r.contains(j as u32)
}

/// Indices whose blocks satisfy `pick`, as `u32`.
fn indices_where(blocks: &[HybridBlock], pick: u8, level: u8) -> (r: Vec<u32>)
    requires
        blocks@.len() <= u32::MAX,
    ensures
        picked_indices(blocks@, pick, level, r@),
{
    let mut r: Vec<u32> = Vec::new();
    let mut i: usize = 0;
    while i < blocks.len()
        invariant
            i <= blocks@.len(),
            blocks@.len() <= u32::MAX,
            forall|a: int, b: int| 0 <= a < b < r@.len() ==> r@[a] < r@[b],
            forall|k: int| 0 <= k < r@.len() ==> (#[trigger] r@[k]) < i && picked(blocks@[r@[k] as int], pick, level),
            forall|j: int| 0 <= j < i && picked(blocks@[j], pick, level) ==> r@.contains(j as u32),
        decreases blocks@.len() - i,
    {
        let b = &blocks[i];
        let hit = if pick == 0 {
            b.is_heading()
        } else if pick == 1 {
            b.metadata.heading_level == Some(level)
        } else if pick == 2 {
            b.is_todo()
        } else {
            b.is_done()
        };
        if hit {
            let ghost before = r@;
            r.push(i as u32);
            proof {
                assert(r@[before.len() as int] == i as u32);
                assert forall|j: int| 0 <= j < i + 1 && picked(blocks@[j], pick, level) implies r@.contains(j as u32) by {
                    if j < i {
                        let k = choose|k: int| 0 <= k < before.len() && before[k] == j as u32;
                        assert(r@[k] == j as u32);
                    }
                }
            }
        }
        i = i + 1;
    }
    r
}

impl LibnoteDocument {
    /// The manager is well formed, every kind but the custom one has a parser, and so has
    /// every block's kind.
    pub closed spec fn wf(&self) -> bool {
        &&& self.manager.wf()
        &&& self.registry == self.manager.registry()
        &&& forall|k: SyntaxKind| k != SyntaxKind::Custom ==> #[trigger] self.registry.has(k)
        &&& forall|i: int|
            0 <= i < self.manager.block_seq().len() ==> self.registry.has(
                #[trigger] self.manager.block_seq()[i].syntax,
            )
    }

    pub closed spec fn blocks_view(&self) -> Seq<HybridBlock> {
        self.manager.block_seq()
    }

    /// The parsers the document uses.
    pub closed spec fn registry_view(&self) -> ParserRegistry {
        self.registry
    }

    /// Whether block `i` changed since the last clear.
    pub closed spec fn dirty_at(&self, i: int) -> bool {
        self.manager.is_dirty(i)
    }

    /// An empty document.
    pub fn new() -> (r: LibnoteDocument)
        ensures
            r.wf(),
            r.blocks_view().len() == 0,
    {
        let mut registry = ParserRegistry::new();
        registry.register(AnyParser::Markdown(MarkdownParser));
        registry.register(AnyParser::Org(OrgParser));
        registry.register(AnyParser::LaTeX(LaTeXParser));
        registry.register(AnyParser::Code(CodeParser));
        let manager = BlockManager::new(BlockDetector::new(), registry);
        LibnoteDocument { manager, registry }
    }

    /// Parses a whole text; the number of blocks. Every detected kind has a parser, so this
    /// always succeeds.
    pub fn parse(&mut self, text: &str) -> (r: Result<u32, LibnoteError>)
        requires
            old(self).wf(),
        ensures
            final(self).wf(),
            r is Ok,
            r matches Ok(n) ==> final(self).blocks_view().len() <= u32::MAX ==> n
                == final(self).blocks_view().len(),
            final(self).registry_view() == old(self).registry_view(),
            forall|k: SyntaxKind| k != SyntaxKind::Custom ==> #[trigger] final(self).registry_view().has(k),
            final(self).blocks_view().len() == dblocks(lines_of(text@), 0).len(),
            forall|k: int|
                0 <= k < final(self).blocks_view().len() ==> made_from_detected(
                    final(self).registry_view(),
                    lines_of(text@),
                    dblocks(lines_of(text@), 0)[k],
                    #[trigger] final(self).blocks_view()[k],
                ),
    {
        match self.manager.parse_document(text) {
            Ok(()) => {
                proof {
                    let bs = choose|bs: Seq<crate::detector::SyntaxBlock>|
                        #![trigger crate::detector::covers(crate::text::lines_of(text@), bs)]
                        crate::detector::covers(crate::text::lines_of(text@), bs)
                            && self.manager.block_seq().len() == bs.len() && forall|i: int|
                            0 <= i < bs.len() ==> crate::manager::made_from(
                            self.registry,
                            bs[i],
                            #[trigger] self.manager.block_seq()[i],
                        );
                    assert forall|i: int| 0 <= i < self.manager.block_seq().len() implies self.registry.has(
                        #[trigger] self.manager.block_seq()[i].syntax,
                    ) by {
                        assert(crate::manager::made_from(self.registry, bs[i], self.manager.block_seq()[i]));
                    }
                }
                Ok(clamp_u32(self.manager.block_count()))
            },
            Err(e) => {
                proof {
                    let (bs, i) = choose|bs: Seq<crate::detector::SyntaxBlock>, i: int|
                        #![trigger crate::detector::covers(crate::text::lines_of(text@), bs), bs[i]]
                        crate::detector::covers(crate::text::lines_of(text@), bs) && 0 <= i
                            < bs.len() && !old(self).registry.has(bs[i].syntax) && e@
                            == crate::manager::no_parser_message(bs[i].syntax);
                    crate::detector::lemma_block_kind(crate::text::lines_of(text@), bs[i]);
                }
                Err(LibnoteError::ParseError(e))
            },
        }
    }

    pub fn block_count(&self) -> (r: u32)
        ensures
            self.blocks_view().len() <= u32::MAX ==> r == self.blocks_view().len(),
    {
        clamp_u32(self.manager.block_count())
    }

    pub fn get_block(&self, index: u32) -> (r: Option<FfiBlock>)
        ensures
            r is Some == (index < self.blocks_view().len()),
    {
        let blocks = self.manager.blocks();
        if (index as usize) < blocks.len() {
            Some(FfiBlock::from_hybrid(&blocks[index as usize]))
        } else {
            None
        }
    }

    pub fn get_all_blocks(&self) -> (r: Vec<FfiBlock>)
        ensures
            r@.len() == self.blocks_view().len(),
    {
        let blocks = self.manager.blocks();
        let mut r: Vec<FfiBlock> = Vec::new();
        let mut i: usize = 0;
        while i < blocks.len()
            invariant
                i <= blocks@.len(),
                r@.len() == i,
            decreases blocks@.len() - i,
        {
            r.push(FfiBlock::from_hybrid(&blocks[i]));
            i = i + 1;
        }
        r
    }

    /// Indices of the matching blocks, in increasing order; empty past `u32` indices.
    pub fn find_headings(&self) -> (r: Vec<u32>)
        ensures
            self.blocks_view().len() <= u32::MAX ==> picked_indices(self.blocks_view(), 0, 0, r@),
    {
        let blocks = self.manager.blocks();
        if blocks.len() > u32::MAX as usize {
            return Vec::new();
        }
        indices_where(blocks, 0, 0)
    }

    /// Indices of the headings at `level`, in increasing order; empty past `u32` indices.
    pub fn find_headings_at_level(&self, level: u8) -> (r: Vec<u32>)
        ensures
            self.blocks_view().len() <= u32::MAX ==> picked_indices(self.blocks_view(), 1, level, r@),
    {
        let blocks = self.manager.blocks();
        if blocks.len() > u32::MAX as usize {
            return Vec::new();
        }
        indices_where(blocks, 1, level)
    }

    /// Indices of the matching blocks, in increasing order; empty past `u32` indices.
    pub fn find_todos(&self) -> (r: Vec<u32>)
        ensures
            self.blocks_view().len() <= u32::MAX ==> picked_indices(self.blocks_view(), 2, 0, r@),
    {
        let blocks = self.manager.blocks();
        if blocks.len() > u32::MAX as usize {
            return Vec::new();
        }
        indices_where(blocks, 2, 0)
    }

    /// Indices of the matching blocks, in increasing order; empty past `u32` indices.
    pub fn find_done_items(&self) -> (r: Vec<u32>)
        ensures
            self.blocks_view().len() <= u32::MAX ==> picked_indices(self.blocks_view(), 3, 0, r@),
    {
        let blocks = self.manager.blocks();
        if blocks.len() > u32::MAX as usize {
            return Vec::new();
        }
        indices_where(blocks, 3, 0)
    }

    pub fn update_block(&mut self, index: u32, new_text: String) -> (r: Result<(), LibnoteError>)
        requires
            old(self).wf(),
        ensures
            final(self).wf(),
            final(self).registry_view() == old(self).registry_view(),
            r is Ok == (index < old(self).blocks_view().len()),
            index >= old(self).blocks_view().len() ==> (r matches Err(LibnoteError::ParseError(e))
                && e@ == "Block index out of range"@),
            r is Err ==> final(self).blocks_view() == old(self).blocks_view(),
            r is Ok ==> {
                let o = old(self).blocks_view()[index as int];
                let b = final(self).blocks_view()[index as int];
                &&& final(self).blocks_view().len() == old(self).blocks_view().len()
                &&& forall|j: int|
                    0 <= j < old(self).blocks_view().len() && j != index ==> #[trigger] final(self).blocks_view()[j]
                        == old(self).blocks_view()[j]
                &&& b.syntax == o.syntax && b.line_range == o.line_range && b.raw_text == new_text
                &&& final(self).registry_view().lookup(o.syntax)->0.parsed(new_text@, b.ast, b.metadata)
                &&& final(self).dirty_at(index as int)
            },
    {
        proof {
            if index < old(self).blocks_view().len() {
                assert(self.registry.has(self.manager.block_seq()[index as int].syntax));
            }
        }
        match self.manager.update_block_text(index as usize, new_text) {
            Ok(()) => Ok(()),
            Err(e) => Err(LibnoteError::ParseError(e)),
        }
    }

    /// The dirty block indices, each once, in increasing order.
    pub fn get_dirty_blocks(&self) -> (r: Vec<u32>)
        requires
            self.wf(),
        ensures
            self.blocks_view().len() <= u32::MAX ==> {
                &&& forall|a: int, b: int| 0 <= a < b < r@.len() ==> r@[a] < r@[b]
                &&& forall|k: int| 0 <= k < r@.len() ==> self.dirty_at(#[trigger] r@[k] as int)
                &&& forall|j: int|
                    0 <= j < self.blocks_view().len() && #[trigger] self.dirty_at(j) ==> r@.contains(j as u32)
            },
    {
        let d = self.manager.dirty_blocks();
        let mut r: Vec<u32> = Vec::new();
        let mut i: usize = 0;
        while i < d.len()
            invariant
                i <= d@.len(),
                r@.len() == i,
                forall|k: int| 0 <= k < d@.len() ==> (#[trigger] d@[k]) < self.manager.block_seq().len(),
                self.manager.block_seq().len() <= u32::MAX ==> forall|k: int|
                    0 <= k < i ==> (#[trigger] r@[k]) as int == d@[k] as int,
            decreases d@.len() - i,
        {
            r.push(clamp_u32(d[i]));
            i = i + 1;
        }
        proof {
            if self.manager.block_seq().len() <= u32::MAX {
                assert forall|j: int| 0 <= j < self.blocks_view().len() && #[trigger] self.dirty_at(j) implies r@.contains(j as u32) by {
                    assert(self.manager.is_dirty(j));
                    assert(d@.contains(j as usize));
                    let k = choose|k: int| 0 <= k < d@.len() && d@[k] == j as usize;
                    assert(r@[k] == j as u32);
                }
                assert forall|k: int| 0 <= k < r@.len() implies self.dirty_at(#[trigger] r@[k] as int) by {
                    assert(self.manager.is_dirty(d@[k] as int));
                }
            }
        }
        r
    }

    pub fn clear_dirty(&mut self)
        requires
            old(self).wf(),
        ensures
            final(self).wf(),
            final(self).blocks_view() == old(self).blocks_view(),
    {
        self.manager.clear_dirty();
    }

    /// The blocks rendered in order, each by its parser, joined by newlines.
    pub fn render(&self) -> (r: Result<String, LibnoteError>)
        requires
            self.wf(),
        ensures
            r is Ok,
            r matches Ok(s) ==> s@ == trim_end(
                render_upto(
                    self.registry_view(),
                    self.blocks_view(),
                    all_true(self.blocks_view().len()),
                    self.blocks_view().len() as int,
                ),
            ),
    {
        match self.manager.render_document() {
            Ok(s) => Ok(s),
            Err(e) => {
                proof {
                    let i = choose|i: int|
                        0 <= i < self.manager.block_seq().len() && !self.manager.registry().has(
                            #[trigger] self.manager.block_seq()[i].syntax,
                        ) && e@ == crate::manager::no_parser_message(self.manager.block_seq()[i].syntax);
                    assert(self.registry.has(self.manager.block_seq()[i].syntax));
                }
                Err(LibnoteError::Other(e))
            },
        }
    }

    pub fn get_block_syntax_name(&self, index: u32) -> (r: Option<String>)
        ensures
            r is Some == (index < self.blocks_view().len()),
            r matches Some(s) ==> s@ == self.blocks_view()[index as int].syntax.name_spec(),
    {
        let blocks = self.manager.blocks();
        if (index as usize) < blocks.len() {
            Some(blocks[index as usize].syntax.name().to_owned())
        } else {
            None
        }
    }

    pub fn is_heading(&self, index: u32) -> (r: bool)
        ensures
            r == (index < self.blocks_view().len()
                && self.blocks_view()[index as int].metadata.heading_level is Some),
    {
        let blocks = self.manager.blocks();
        (index as usize) < blocks.len() && blocks[index as usize].is_heading()
    }

    pub fn is_todo(&self, index: u32) -> (r: bool)
        ensures
            r == (index < self.blocks_view().len() && (self.blocks_view()[index as int].metadata.todo_state matches Some(s) && s@ == "TODO"@)),
    {
        let blocks = self.manager.blocks();
        (index as usize) < blocks.len() && blocks[index as usize].is_todo()
    }

    pub fn is_done(&self, index: u32) -> (r: bool)
        ensures
            r == (index < self.blocks_view().len() && (self.blocks_view()[index as int].metadata.todo_state matches Some(s) && s@ == "DONE"@)),
    {
        let blocks = self.manager.blocks();
        (index as usize) < blocks.len() && blocks[index as usize].is_done()
    }

    /// Parses `raw_text` with the parser named by `syntax` (any case) and inserts it.
    pub fn insert_block(&mut self, index: u32, syntax: String, raw_text: String) -> (r: Result<
        (),
        LibnoteError,
    >)
        requires
            old(self).wf(),
        ensures
            final(self).wf(),
            index > old(self).blocks_view().len() ==> r is Err,
            index <= old(self).blocks_view().len() && (lower_of(syntax@) == "markdown"@ || lower_of(
                syntax@,
            ) == "org"@ || lower_of(syntax@) == "latex"@ || lower_of(syntax@) == "code"@) ==> r is Ok,
            r is Ok ==> final(self).blocks_view().len() == old(self).blocks_view().len() + 1,
            r is Err ==> final(self).blocks_view() == old(self).blocks_view(),
    {
        let lower = lowercase(syntax.as_str());
        let kind = if str_eq(lower.as_str(), "markdown") {
            SyntaxKind::Markdown
        } else if str_eq(lower.as_str(), "org") {
            SyntaxKind::Org
        } else if str_eq(lower.as_str(), "latex") {
            SyntaxKind::LaTeX
        } else if str_eq(lower.as_str(), "code") {
            SyntaxKind::Code
        } else {
            return Err(LibnoteError::UnsupportedSyntax(syntax));
        };
        proof {
            self.registry.lemma_has_builtin(kind);
        }
        let parser = match self.registry.get(kind) {
            Some(p) => p,
            None => return Err(LibnoteError::UnsupportedSyntax(syntax)),
        };
        let (ast, metadata) = match parser.parse(raw_text.as_str(), 0) {
            Ok(pm) => pm,
            Err(e) => return Err(LibnoteError::ParseError(e.to_string())),
        };
        if index as usize > self.manager.block_count() {
            return Err(LibnoteError::InvalidIndex);
        }
        let block = HybridBlock::new(kind, raw_text, ast, (0, 0)).with_metadata(metadata);
        self.manager.insert_block(index as usize, block);
        Ok(())
    }

    pub fn remove_block(&mut self, index: u32) -> (r: Result<(), LibnoteError>)
        requires
            old(self).wf(),
        ensures
            final(self).wf(),
            r is Ok == (index < old(self).blocks_view().len()),
            r is Err ==> (r matches Err(LibnoteError::InvalidIndex)),
            r is Ok ==> final(self).blocks_view() == old(self).blocks_view().remove(index as int),
            r is Err ==> final(self).blocks_view() == old(self).blocks_view(),
    {
        match self.manager.remove_block(index as usize) {
            Some(_) => Ok(()),
            None => Err(LibnoteError::InvalidIndex),
        }
    }

    pub fn render_block(&self, index: u32) -> (r: Option<FfiBlock>)
        ensures
            r is Some == (index < self.blocks_view().len()),
    {
        self.get_block(index)
    }
}

impl Default for LibnoteDocument {
    fn default() -> (r: LibnoteDocument)
        ensures
            r.wf(),
            r.blocks_view().len() == 0,
    {
        LibnoteDocument::new()
    }
}

} // verus!
