//! The ordered block collection, with dirty tracking for incremental work.
use crate::detector::{covers, dblocks, detected, is_detected, BlockDetector, SyntaxBlock};
use crate::registry::ParserRegistry;
use crate::syntax::{HybridBlock, SyntaxKind};
use crate::text::{
    chars_of, concat, join_lines, lines_of, push_all, string_of, trim_end, trim_end_chars,
};
use vstd::prelude::*;

verus! {

/// How a kind is spelled in error messages.
pub open spec fn kind_label(k: SyntaxKind) -> Seq<char> {
    match k {
        SyntaxKind::Markdown => "Markdown"@,
        SyntaxKind::Org => "Org"@,
        SyntaxKind::LaTeX => "LaTeX"@,
        SyntaxKind::Code => "Code"@,
        SyntaxKind::Custom => "Custom"@,
    }
}

/// The error for a kind without a parser.
pub open spec fn no_parser_message(k: SyntaxKind) -> Seq<char> {
    "No parser for "@ + kind_label(k)
}

fn kind_label_str(k: SyntaxKind) -> (r: &'static str)
    ensures
        r@ == kind_label(k),
{
    match k {
        SyntaxKind::Markdown => "Markdown",
        SyntaxKind::Org => "Org",
        SyntaxKind::LaTeX => "LaTeX",
        SyntaxKind::Code => "Code",
        SyntaxKind::Custom => "Custom",
    }
}

fn no_parser(k: SyntaxKind) -> (r: String)
    ensures
        r@ == no_parser_message(k),
{
    concat("No parser for ", kind_label_str(k))
}

/// A hybrid block made from a detected chunk by the registered parser.
pub open spec fn made_from(reg: ParserRegistry, sb: SyntaxBlock, hb: HybridBlock) -> bool {
    &&& hb.syntax == sb.syntax
    &&& hb.raw_text@ == sb.content@
    &&& hb.line_range == (sb.start_line, sb.end_line)
    &&& reg.lookup(sb.syntax) is Some
    &&& reg.lookup(sb.syntax)->0.parsed(sb.content@, hb.ast, hb.metadata)
}

/// A hybrid block made by the registered parser from the detected block `d` of the lines `ls`.
pub open spec fn made_from_detected(
    reg: ParserRegistry,
    ls: Seq<Seq<char>>,
    d: (SyntaxKind, int, int),
    hb: HybridBlock,
) -> bool {
    &&& hb.syntax == d.0
    &&& hb.line_range.0 == d.1
    &&& hb.line_range.1 == d.2
    &&& hb.raw_text@ == join_lines(ls.subrange(d.1, d.2 + 1))
    &&& reg.lookup(d.0) is Some
    &&& reg.lookup(d.0)->0.parsed(hb.raw_text@, hb.ast, hb.metadata)
}

/// The text of one block, rendered by its registered parser.
pub open spec fn block_text(reg: ParserRegistry, b: HybridBlock) -> Seq<char> {
    reg.lookup(b.syntax)->0.rendered(b.ast, b.metadata)
}

/// The blocks among the first `n` that `pick` selects, each rendered and followed by a newline.
pub open spec fn render_upto(
    reg: ParserRegistry,
    bs: Seq<HybridBlock>,
    pick: Seq<bool>,
    n: int,
) -> Seq<char>
    decreases n,
{
    if n <= 0 {
        Seq::empty()
    } else if pick[n - 1] {
        render_upto(reg, bs, pick, n - 1) + block_text(reg, bs[n - 1]) + seq!['\n']
    } else {
        render_upto(reg, bs, pick, n - 1)
    }
}

/// Some selected block has no registered parser.
pub open spec fn missing_parser(reg: ParserRegistry, bs: Seq<HybridBlock>, pick: Seq<bool>) -> bool {
    exists|i: int| 0 <= i < bs.len() && pick[i] && !reg.has(#[trigger] bs[i].syntax)
}

pub open spec fn all_true(n: nat) -> Seq<bool> {
    Seq::new(n, |_i: int| true)
}

pub open spec fn strictly_increasing(s: Seq<usize>) -> bool {
    forall|a: int, b: int| 0 <= a < b < s.len() ==> s[a] < s[b]
}

/// What `insert_block` leaves: the block in place and every position from it on dirty.
pub open spec fn after_insert(
    before: BlockManager,
    after: BlockManager,
    index: int,
    block: HybridBlock,
) -> bool {
    &&& after.wf()
    &&& after.registry() == before.registry()
    &&& after.block_seq() == before.block_seq().insert(index, block)
    &&& forall|j: int| 0 <= j < index ==> after.is_dirty(j) == before.is_dirty(j)
    &&& forall|j: int| index <= j < after.block_seq().len() ==> after.is_dirty(j)
}

/// What `clear_dirty` leaves: the same blocks, none dirty.
pub open spec fn after_clear(before: BlockManager, after: BlockManager) -> bool {
    &&& after.wf()
    &&& after.block_seq() == before.block_seq()
    &&& after.registry() == before.registry()
    &&& forall|i: int| !after.is_dirty(i)
}

/// What `dirty_blocks` lists: the dirty indices, each once, in increasing order.
pub open spec fn dirty_listing(m: BlockManager, r: Seq<usize>) -> bool {
    &&& strictly_increasing(r)
    &&& forall|i: int| 0 <= i < r.len() ==> m.is_dirty(#[trigger] r[i] as int)
    &&& forall|j: int| m.is_dirty(j) ==> r.contains(j as usize)
}

/// After an insertion at `i` the dirty listing holds every index from `i` to the end, and
/// after a clear the listing is empty.
pub proof fn lemma_dirty_tracking(
    before: BlockManager,
    after: BlockManager,
    i: int,
    block: HybridBlock,
    listed: Seq<usize>,
    cleared: BlockManager,
    listed_after_clear: Seq<usize>,
)
    requires
        after_insert(before, after, i, block),
        dirty_listing(after, listed),
        after_clear(after, cleared),
        dirty_listing(cleared, listed_after_clear),
    ensures
        forall|j: usize| i <= j < after.block_seq().len() ==> #[trigger] listed.contains(j),
        listed_after_clear.len() == 0,
{
    assert forall|j: usize| i <= j < after.block_seq().len() implies #[trigger] listed.contains(j) by {
        assert(after.is_dirty(j as int));
    }
    if listed_after_clear.len() > 0 {
        assert(cleared.is_dirty(listed_after_clear[0] as int));
    }
}

/// Owns the ordered blocks of one document and the set of blocks changed since the last clear.
pub struct BlockManager {
    blocks: Vec<HybridBlock>,
    detector: BlockDetector,
    parser_registry: ParserRegistry,
    dirty: Vec<bool>,
}

impl BlockManager {
    /// One dirty flag per block.
    pub closed spec fn wf(&self) -> bool {
        self.dirty@.len() == self.blocks@.len()
    }

    pub closed spec fn block_seq(&self) -> Seq<HybridBlock> {
        self.blocks@
    }

    pub closed spec fn dirty_flags(&self) -> Seq<bool> {
        self.dirty@
    }

    pub open spec fn is_dirty(&self, i: int) -> bool {
        0 <= i < self.dirty_flags().len() && self.dirty_flags()[i]
    }

    pub closed spec fn registry(&self) -> ParserRegistry {
        self.parser_registry
    }

    /// An empty document.
    pub fn new(detector: BlockDetector, parser_registry: ParserRegistry) -> (r: BlockManager)
        ensures
            r.wf(),
            r.block_seq().len() == 0,
            r.registry() == parser_registry,
    {
        BlockManager { blocks: Vec::new(), detector, parser_registry, dirty: Vec::new() }
    }

    /// Detects and parses `text`; on success it replaces all blocks and clears the dirty set,
    /// on failure nothing changes.
    #[verifier::rlimit(60)]
    pub fn parse_document(&mut self, text: &str) -> (r: Result<(), String>)
        requires
            old(self).wf(),
        ensures
            final(self).wf(),
            final(self).registry() == old(self).registry(),
            r is Ok ==> exists|bs: Seq<SyntaxBlock>|
                #![trigger covers(lines_of(text@), bs)]
                covers(lines_of(text@), bs) && final(self).block_seq().len() == bs.len()
                    && forall|i: int|
                    0 <= i < bs.len() ==> made_from(
                        old(self).registry(),
                        bs[i],
                        #[trigger] final(self).block_seq()[i],
                    ),
            r is Ok ==> forall|i: int| !final(self).is_dirty(i),
            r matches Err(e) ==> exists|bs: Seq<SyntaxBlock>, i: int|
                #![trigger covers(lines_of(text@), bs), bs[i]]
                covers(lines_of(text@), bs) && 0 <= i < bs.len() && !old(self).registry().has(
                    bs[i].syntax,
                ) && e@ == no_parser_message(bs[i].syntax),
            r is Err ==> final(self).block_seq() == old(self).block_seq()
                && final(self).dirty_flags() == old(self).dirty_flags(),
            r is Ok <==> forall|k: int|
                0 <= k < dblocks(lines_of(text@), 0).len() ==> old(self).registry().has(
                    (#[trigger] dblocks(lines_of(text@), 0)[k]).0,
                ),
            r is Ok ==> final(self).block_seq().len() == dblocks(lines_of(text@), 0).len() && forall|
                k: int,
            |
                0 <= k < dblocks(lines_of(text@), 0).len() ==> made_from_detected(
                    old(self).registry(),
                    lines_of(text@),
                    dblocks(lines_of(text@), 0)[k],
                    #[trigger] final(self).block_seq()[k],
                ),
            r matches Err(e) ==> exists|k: int|
                0 <= k < dblocks(lines_of(text@), 0).len() && !old(self).registry().has(
                    (#[trigger] dblocks(lines_of(text@), 0)[k]).0,
                ) && e@ == no_parser_message(dblocks(lines_of(text@), 0)[k].0),
    {
        let raw = self.detector.detect(text);
        let ghost ls = lines_of(text@);
        let ghost d = dblocks(ls, 0);
        let ghost bs = raw@;
        let mut staged: Vec<HybridBlock> = Vec::new();
        let mut k: usize = 0;
        while k < raw.len()
            invariant
                bs == raw@,
                *self == *old(self),
                old(self).wf(),
                covers(lines_of(text@), bs),
                ls == lines_of(text@),
                d == dblocks(ls, 0),
                detected(ls, bs),
                k <= raw.len(),
                staged@.len() == k,
                forall|i: int|
                    0 <= i < k ==> made_from(self.parser_registry, bs[i], #[trigger] staged@[i]),
                forall|i: int|
                    0 <= i < k ==> made_from_detected(self.parser_registry, ls, d[i], #[trigger] staged@[i]),
                forall|i: int| 0 <= i < k ==> self.parser_registry.has(#[trigger] d[i].0),
            decreases raw.len() - k,
        {
            let sb = &raw[k];
            match self.parser_registry.get(sb.syntax) {
                None => {
                    proof {
                        self.parser_registry.lemma_has_builtin(bs[k as int].syntax);
                        assert(!old(self).registry().has(bs[k as int].syntax));
                        assert(is_detected(ls, bs[k as int], d[k as int]));
                        assert(!old(self).registry().has(d[k as int].0));
                    }
                    return Err(no_parser(sb.syntax));
                },
                Some(p) => match p.parse(sb.content.as_str(), sb.start_line) {
                    Ok((ast, metadata)) => {
                        let hb = HybridBlock {
                            syntax: sb.syntax,
                            raw_text: sb.content.clone(),
                            ast,
                            metadata,
                            line_range: (sb.start_line, sb.end_line),
                        };
                        let ghost before = staged@;
                        staged.push(hb);
                        proof {
                            assert(is_detected(ls, bs[k as int], d[k as int]));
                            assert forall|i: int| 0 <= i < k + 1 implies made_from_detected(
                                self.parser_registry,
                                ls,
                                d[i],
                                #[trigger] staged@[i],
                            ) by {
                                if i < k {
                                    assert(staged@[i] == before[i]);
                                }
                            }
                            assert forall|i: int| 0 <= i < k + 1 implies self.parser_registry.has(
                                #[trigger] d[i].0,
                            ) by {
                                if i == k {
                                    self.parser_registry.lemma_has_builtin(d[i].0);
                                }
                            }
                            assert forall|i: int| 0 <= i < k + 1 implies made_from(
                                self.parser_registry,
                                bs[i],
                                #[trigger] staged@[i],
                            ) by {
                                if i < k {
                                    assert(staged@[i] == before[i]);
                                }
                            }
                        }
                    },
                    Err(e) => {
                        return Err(e.to_string());
                    },
                },
            }
            k = k + 1;
        }
        let n = staged.len();
        self.blocks = staged;
        self.dirty = clean_flags(n);
        Ok(())
    }

    pub fn blocks(&self) -> (r: &[HybridBlock])
        ensures
            r@ == self.block_seq(),
    {
        self.blocks.as_slice()
    }

    /// Mutable access to one block; the block is marked dirty even if only read.
    pub fn block_mut(&mut self, index: usize) -> (r: Option<&mut HybridBlock>)
        requires
            old(self).wf(),
        ensures
            r is Some == (index < old(self).block_seq().len()),
            r is None ==> *final(self) == *old(self),
            r is Some ==> final(self).dirty_flags() == old(self).dirty_flags().update(index as int, true),
            r is Some ==> final(self).wf() && final(self).registry() == old(self).registry(),
            r matches Some(e) ==> *e == old(self).block_seq()[index as int]
                && final(self).block_seq() == old(self).block_seq().update(index as int, *final(e)),
    {
        if index < self.blocks.len() {
            self.dirty.set(index, true);
            Some(&mut self.blocks[index])
        } else {
            None
        }
    }

    /// Re-parses one block from new text with its own parser and marks it dirty.
    #[verifier::rlimit(60)]
    pub fn update_block_text(&mut self, index: usize, new_text: String) -> (r: Result<(), String>)
        requires
            old(self).wf(),
        ensures
            final(self).wf(),
            final(self).registry() == old(self).registry(),
            index >= old(self).block_seq().len() ==> (r matches Err(e) && e@
                == "Block index out of range"@),
            index < old(self).block_seq().len() && !old(self).registry().has(
                old(self).block_seq()[index as int].syntax,
            ) ==> (r matches Err(e) && e@ == no_parser_message(
                old(self).block_seq()[index as int].syntax,
            )),
            r is Err ==> final(self).block_seq() == old(self).block_seq()
                && final(self).dirty_flags() == old(self).dirty_flags(),
            index < old(self).block_seq().len() && old(self).registry().has(
                old(self).block_seq()[index as int].syntax,
            ) ==> r is Ok,
            r is Ok ==> {
                let o = old(self).block_seq()[index as int];
                let b = final(self).block_seq()[index as int];
                &&& index < old(self).block_seq().len()
                &&& old(self).registry().has(o.syntax)
                &&& final(self).block_seq().len() == old(self).block_seq().len()
                &&& forall|j: int|
                    0 <= j < old(self).block_seq().len() && j != index ==> #[trigger] final(self).block_seq()[j] == old(self).block_seq()[j]
                &&& b.syntax == o.syntax && b.line_range == o.line_range && b.raw_text
                    == new_text
                &&& old(self).registry().lookup(o.syntax)->0.parsed(new_text@, b.ast, b.metadata)
                &&& forall|j: int|
                    j != index ==> final(self).is_dirty(j) == old(self).is_dirty(j)
                &&& final(self).is_dirty(index as int)
            },
    {
        if index >= self.blocks.len() {
            return Err("Block index out of range".to_owned());
        }
        let syntax = self.blocks[index].syntax;
        let line_range = self.blocks[index].line_range;
        proof {
            self.parser_registry.lemma_has_builtin(syntax);
        }
        match self.parser_registry.get(syntax) {
            None => Err(no_parser(syntax)),
            Some(p) => match p.parse(new_text.as_str(), line_range.0) {
                Ok((ast, metadata)) => {
                    let hb = HybridBlock { syntax, raw_text: new_text, ast, metadata, line_range };
                    self.blocks.set(index, hb);
                    self.dirty.set(index, true);
                    Ok(())
                },
                Err(e) => Err(e.to_string()),
            },
        }
    }

    /// Indices of the dirty blocks, in increasing order.
    pub fn dirty_blocks(&self) -> (r: Vec<usize>)
        requires
            self.wf(),
        ensures
            dirty_listing(*self, r@),
            forall|i: int| 0 <= i < r@.len() ==> (#[trigger] r@[i]) < self.block_seq().len(),
    {
        flagged_indices(&self.dirty)
    }

    pub fn clear_dirty(&mut self)
        requires
            old(self).wf(),
        ensures
            after_clear(*old(self), *final(self)),
    {
        let n = self.dirty.len();
        self.dirty = clean_flags(n);
    }

    /// Inserts a block; it and every block after it become dirty.
    pub fn insert_block(&mut self, index: usize, block: HybridBlock)
        requires
            old(self).wf(),
            index <= old(self).block_seq().len(),
        ensures
            after_insert(*old(self), *final(self), index as int, block),
    {
        self.blocks.insert(index, block);
        self.dirty.insert(index, true);
        mark_from(&mut self.dirty, index);
    }

    /// Removes a block; every block from that position on becomes dirty.
    pub fn remove_block(&mut self, index: usize) -> (r: Option<HybridBlock>)
        requires
            old(self).wf(),
        ensures
            final(self).wf(),
            final(self).registry() == old(self).registry(),
            index >= old(self).block_seq().len() ==> r is None && final(self).block_seq()
                == old(self).block_seq() && final(self).dirty_flags() == old(self).dirty_flags(),
            index < old(self).block_seq().len() ==> r == Some(old(self).block_seq()[index as int])
                && final(self).block_seq() == old(self).block_seq().remove(index as int) && (
            forall|j: int| 0 <= j < index ==> final(self).is_dirty(j) == old(self).is_dirty(j))
                && (forall|j: int|
                index <= j < final(self).block_seq().len() ==> final(self).is_dirty(j)),
    {
        if index < self.blocks.len() {
            let removed = self.blocks.remove(index);
            self.dirty.remove(index);
            mark_from(&mut self.dirty, index);
            Some(removed)
        } else {
            None
        }
    }

    /// All blocks rendered by their parsers, one newline after each, trailing whitespace
    /// trimmed; an error names the first kind without a parser.
    pub fn render_document(&self) -> (r: Result<String, String>)
        ensures
            match r {
                Ok(s) => !missing_parser(
                    self.registry(),
                    self.block_seq(),
                    all_true(self.block_seq().len()),
                ) && s@ == trim_end(
                    render_upto(
                        self.registry(),
                        self.block_seq(),
                        all_true(self.block_seq().len()),
                        self.block_seq().len() as int,
                    ),
                ),
                Err(e) => exists|i: int|
                    0 <= i < self.block_seq().len() && !self.registry().has(
                        #[trigger] self.block_seq()[i].syntax,
                    ) && e@ == no_parser_message(self.block_seq()[i].syntax),
            },
    {
        let flags = all_flags(self.blocks.len());
        match render_picked(&self.blocks, &flags, self.parser_registry) {
            Ok(out) => {
                assert(flags@ == all_true(self.block_seq().len()));
                assert(!missing_parser(self.registry(), self.block_seq(), flags@));
                assert(out@ == render_upto(self.registry(), self.block_seq(), flags@, self.block_seq().len() as int));
                Ok(string_of(&trim_end_chars(&out)))
            },
            Err(e) => {
                proof {
                    let i = choose|i: int|
                        0 <= i < self.blocks@.len() && flags@[i] && !self.parser_registry.has(
                            #[trigger] self.blocks@[i].syntax,
                        ) && e@ == no_parser_message(self.blocks@[i].syntax);
                    assert(self.block_seq()[i] == self.blocks@[i]);
                }
                Err(e)
            },
        }
    }

    /// The dirty blocks rendered in document order, one newline after each.
    pub fn render_dirty_blocks(&self) -> (r: Result<String, String>)
        requires
            self.wf(),
        ensures
            match r {
                Ok(s) => !missing_parser(self.registry(), self.block_seq(), self.dirty_flags())
                    && s@ == render_upto(
                    self.registry(),
                    self.block_seq(),
                    self.dirty_flags(),
                    self.block_seq().len() as int,
                ),
                Err(e) => exists|i: int|
                    0 <= i < self.block_seq().len() && self.dirty_flags()[i]
                        && !self.registry().has(#[trigger] self.block_seq()[i].syntax) && e@
                        == no_parser_message(self.block_seq()[i].syntax),
            },
    {
        match render_picked(&self.blocks, &self.dirty, self.parser_registry) {
            Ok(out) => Ok(string_of(&out)),
            Err(e) => {
                proof {
                    let i = choose|i: int|
                        0 <= i < self.blocks@.len() && self.dirty@[i] && !self.parser_registry.has(
                            #[trigger] self.blocks@[i].syntax,
                        ) && e@ == no_parser_message(self.blocks@[i].syntax);
                    assert(self.block_seq()[i] == self.blocks@[i]);
                }
                Err(e)
            },
        }
    }

    pub fn block_count(&self) -> (r: usize)
        ensures
            r == self.block_seq().len(),
    {
        self.blocks.len()
    }

    /// Indices of the blocks whose heading level is `level`, in increasing order.
    pub fn find_blocks_by_heading_level(&self, level: u8) -> (r: Vec<usize>)
        ensures
            strictly_increasing(r@),
            forall|i: int|
                0 <= i < r@.len() ==> (#[trigger] r@[i]) < self.block_seq().len()
                    && self.block_seq()[r@[i] as int].metadata.heading_level == Some(level),
            forall|j: int|
                0 <= j < self.block_seq().len() && self.block_seq()[j].metadata.heading_level
                    == Some(level) ==> r@.contains(j as usize),
    {
        let mut r: Vec<usize> = Vec::new();
        let mut i: usize = 0;
        while i < self.blocks.len()
            invariant
                i <= self.blocks.len(),
                strictly_increasing(r@),
                forall|k: int| 0 <= k < r@.len() ==> (#[trigger] r@[k]) < i,
                forall|k: int|
                    0 <= k < r@.len() ==> self.blocks@[#[trigger] r@[k] as int].metadata.heading_level
                        == Some(level),
                forall|j: int|
                    0 <= j < i && self.blocks@[j].metadata.heading_level == Some(level)
                        ==> r@.contains(j as usize),
            decreases self.blocks.len() - i,
        {
            if self.blocks[i].metadata.heading_level == Some(level) {
                let ghost before = r@;
                r.push(i);
                proof {
                    assert(r@[before.len() as int] == i);
                    assert forall|j: int|
                        0 <= j < i + 1 && self.blocks@[j].metadata.heading_level == Some(level)
                            implies r@.contains(j as usize) by {
                        if j < i {
                            let k = choose|k: int| 0 <= k < before.len() && before[k] == j as usize;
                            assert(r@[k] == j as usize);
                        }
                    }
                }
            }
            i = i + 1;
        }
        r
    }

    /// Indices of the heading blocks, in increasing order.
    pub fn find_headings(&self) -> (r: Vec<usize>)
        ensures
            strictly_increasing(r@),
            forall|i: int|
                0 <= i < r@.len() ==> (#[trigger] r@[i]) < self.block_seq().len()
                    && self.block_seq()[r@[i] as int].metadata.heading_level is Some,
            forall|j: int|
                0 <= j < self.block_seq().len() && self.block_seq()[j].metadata.heading_level is Some
                    ==> r@.contains(j as usize),
    {
        let mut r: Vec<usize> = Vec::new();
        let mut i: usize = 0;
        while i < self.blocks.len()
            invariant
                i <= self.blocks.len(),
                strictly_increasing(r@),
                forall|k: int| 0 <= k < r@.len() ==> (#[trigger] r@[k]) < i,
                forall|k: int|
                    0 <= k < r@.len() ==> self.blocks@[#[trigger] r@[k] as int].metadata.heading_level is Some,
                forall|j: int|
                    0 <= j < i && self.blocks@[j].metadata.heading_level is Some
                        ==> r@.contains(j as usize),
            decreases self.blocks.len() - i,
        {
            if self.blocks[i].is_heading() {
                let ghost before = r@;
                r.push(i);
                proof {
                    assert(r@[before.len() as int] == i);
                    assert forall|j: int|
                        0 <= j < i + 1 && self.blocks@[j].metadata.heading_level is Some
                            implies r@.contains(j as usize) by {
                        if j < i {
                            let k = choose|k: int| 0 <= k < before.len() && before[k] == j as usize;
                            assert(r@[k] == j as usize);
                        }
                    }
                }
            }
            i = i + 1;
        }
        r
    }
}

impl Default for BlockManager {
    fn default() -> (r: BlockManager)
        ensures
            r.wf(),
            r.block_seq().len() == 0,
            forall|k: SyntaxKind| !r.registry().has(k),
    {
        BlockManager::new(BlockDetector::new(), ParserRegistry::new())
    }
}

/// `n` flags, none set.
fn clean_flags(n: usize) -> (r: Vec<bool>)
    ensures
        r@ == Seq::new(n as nat, |_i: int| false),
{
    let mut r: Vec<bool> = Vec::new();
    let mut i: usize = 0;
    while i < n
        invariant
            i <= n,
            r@ == Seq::new(i as nat, |_i: int| false),
        decreases n - i,
    {
        r.push(false);
        i = i + 1;
        assert(r@ =~= Seq::new(i as nat, |_i: int| false));
    }
    r
}

/// `n` flags, all set.
fn all_flags(n: usize) -> (r: Vec<bool>)
    ensures
        r@ == all_true(n as nat),
{
    let mut r: Vec<bool> = Vec::new();
    let mut i: usize = 0;
    while i < n
        invariant
            i <= n,
            r@ == all_true(i as nat),
        decreases n - i,
    {
        r.push(true);
        i = i + 1;
        assert(r@ =~= all_true(i as nat));
    }
    r
}

/// Sets every flag from `from` on.
fn mark_from(flags: &mut Vec<bool>, from: usize)
    ensures
        final(flags)@.len() == old(flags)@.len(),
        forall|j: int| 0 <= j < from && j < old(flags)@.len() ==> final(flags)@[j] == old(flags)@[j],
        forall|j: int| from <= j < old(flags)@.len() ==> final(flags)@[j],
{
    let mut i: usize = from;
    while i < flags.len()
        invariant
            flags@.len() == old(flags)@.len(),
            from <= i,
            forall|j: int| 0 <= j < from && j < old(flags)@.len() ==> flags@[j] == old(flags)@[j],
            forall|j: int| from <= j < i && j < flags@.len() ==> flags@[j],
        decreases flags.len() - i,
    {
        flags.set(i, true);
        i = i + 1;
    }
}

/// Indices of the set flags, in increasing order.
fn flagged_indices(flags: &Vec<bool>) -> (r: Vec<usize>)
    ensures
        strictly_increasing(r@),
        forall|i: int| 0 <= i < r@.len() ==> (#[trigger] r@[i]) < flags@.len() && flags@[r@[i] as int],
        forall|j: int| 0 <= j < flags@.len() && flags@[j] ==> r@.contains(j as usize),
{
    let mut r: Vec<usize> = Vec::new();
    let mut i: usize = 0;
    while i < flags.len()
        invariant
            i <= flags.len(),
            strictly_increasing(r@),
            forall|k: int| 0 <= k < r@.len() ==> (#[trigger] r@[k]) < i && flags@[r@[k] as int],
            forall|j: int| 0 <= j < i && flags@[j] ==> r@.contains(j as usize),
        decreases flags.len() - i,
    {
        if flags[i] {
            let ghost before = r@;
            r.push(i);
            proof {
                assert(r@[before.len() as int] == i);
                assert forall|j: int| 0 <= j < i + 1 && flags@[j] implies r@.contains(j as usize) by {
                    if j < i {
                        let k = choose|k: int| 0 <= k < before.len() && before[k] == j as usize;
                        assert(r@[k] == j as usize);
                    }
                }
            }
        }
        i = i + 1;
    }
    r
}

/// Renders the picked blocks in order, each followed by a newline.
fn render_picked(blocks: &Vec<HybridBlock>, pick: &Vec<bool>, reg: ParserRegistry) -> (r: Result<
    Vec<char>,
    String,
>)
    requires
        pick@.len() == blocks@.len(),
    ensures
        match r {
            Ok(s) => !missing_parser(reg, blocks@, pick@) && s@ == render_upto(
                reg,
                blocks@,
                pick@,
                blocks@.len() as int,
            ),
            Err(e) => exists|i: int|
                0 <= i < blocks@.len() && pick@[i] && !reg.has(#[trigger] blocks@[i].syntax) && e@
                    == no_parser_message(blocks@[i].syntax),
        },
{
    let mut out: Vec<char> = Vec::new();
    let mut i: usize = 0;
    while i < blocks.len()
        invariant
            pick@.len() == blocks@.len(),
            i <= blocks.len(),
            out@ == render_upto(reg, blocks@, pick@, i as int),
            forall|k: int| 0 <= k < i && pick@[k] ==> reg.has(#[trigger] blocks@[k].syntax),
        decreases blocks.len() - i,
    {
        if pick[i] {
            let b = &blocks[i];
            match reg.get(b.syntax) {
                None => {
                    proof {
                        reg.lemma_has_builtin(blocks@[i as int].syntax);
                        assert(pick@[i as int] && !reg.has(blocks@[i as int].syntax));
                    }
                    return Err(no_parser(b.syntax));
                },
                Some(p) => {
                    let text = p.render(&b.ast, &b.metadata);
                    push_all(&mut out, &chars_of(text.as_str()));
                    out.push('\n');
                },
            }
        }
        i = i + 1;
    }
    assert(!missing_parser(reg, blocks@, pick@));
    Ok(out)
}

} // verus!
