//! Spans, and the heading-driven outline built from a flat block list.
use crate::models::{Block, Inline, LeafBlock};
use vstd::prelude::*;

verus! {

/// A half-open range of positions.
#[derive(Debug, Clone, Copy, PartialEq, Eq, Structural)]
pub struct TextSpan {
    pub start: u64,
    pub end: u64,
}

impl TextSpan {
    pub fn contains(&self, pos: u64) -> (r: bool)
        ensures
            r == (self.start <= pos && pos < self.end),
    {
        pos >= self.start && pos < self.end
    }

    pub fn intersects(&self, other: TextSpan) -> (r: bool)
        ensures
            r == (self.start < other.end && other.start < self.end),
    {
        self.start < other.end && other.start < self.end
    }
}

#[derive(Debug, Clone, Copy, PartialEq, Eq, Hash, Structural)]
pub struct NodeId(pub u64);

/// A block with its id and span.
#[derive(Debug, PartialEq, Eq)]
pub struct BlockNode {
    pub id: NodeId,
    pub block: Block,
    pub span: TextSpan,
}

/// A heading with its content blocks and nested sections; level 0 is the root.
#[derive(Debug, PartialEq, Eq)]
pub struct Section {
    pub id: NodeId,
    pub level: u8,
    pub title: Option<Vec<Inline>>,
    pub blocks: Vec<BlockNode>,
    pub children: Vec<Section>,
}

#[derive(Debug, PartialEq, Eq)]
pub struct Document {
    pub id: String,
    pub root: Section,
}

pub open spec fn is_heading_block(b: Block) -> bool {
    b matches Block::Leaf { leaf: LeafBlock::Heading { .. } }
}

pub open spec fn level_of(b: Block) -> u8 {
    match b {
        Block::Leaf { leaf: LeafBlock::Heading { level, .. } } => level,
        _ => 0,
    }
}

/// Whether any of the first `n` nodes is a heading.
pub open spec fn heading_before(nodes: Seq<BlockNode>, n: int) -> bool {
    exists|i: int| 0 <= i < n && is_heading_block(#[trigger] nodes[i].block)
}

/// Lowest heading level among the first `n` nodes (256 when there is none).
pub open spec fn min_level(nodes: Seq<BlockNode>, n: int) -> int
    decreases n,
{
    if n <= 0 {
        256
    } else {
        let m = min_level(nodes, n - 1);
        if is_heading_block(nodes[n - 1].block) && (level_of(nodes[n - 1].block) as int) < m {
            level_of(nodes[n - 1].block) as int
        } else {
            m
        }
    }
}

/// Node `i` is a heading whose level is at or below every earlier heading level.
pub open spec fn top_level(nodes: Seq<BlockNode>, i: int) -> bool {
    is_heading_block(nodes[i].block) && (level_of(nodes[i].block) as int) <= min_level(nodes, i)
}

/// How many of the first `n` nodes are top-level headings.
pub open spec fn top_count(nodes: Seq<BlockNode>, n: int) -> int
    decreases n,
{
    if n <= 0 {
        0
    } else {
        top_count(nodes, n - 1) + if top_level(nodes, n - 1) {
            1int
        } else {
            0
        }
    }
}

/// Index of the first heading (or the length).
pub open spec fn first_heading(nodes: Seq<BlockNode>, i: int) -> int
    decreases nodes.len() - i,
{
    if 0 <= i < nodes.len() && !is_heading_block(nodes[i].block) {
        first_heading(nodes, i + 1)
    } else {
        i
    }
}

proof fn lemma_first_heading(nodes: Seq<BlockNode>, i: int)
    requires
        0 <= i <= nodes.len(),
    ensures
        i <= first_heading(nodes, i) <= nodes.len(),
        forall|k: int| i <= k < first_heading(nodes, i) ==> !is_heading_block(#[trigger] nodes[k].block),
        first_heading(nodes, i) < nodes.len() ==> is_heading_block(nodes[first_heading(nodes, i)].block),
    decreases nodes.len() - i,
{
    if i < nodes.len() && !is_heading_block(nodes[i].block) {
        lemma_first_heading(nodes, i + 1);
    }
}

/// The facts the stack of open sections keeps after `n` nodes.
pub open spec fn stack_ok(stack: Seq<Section>, nodes: Seq<BlockNode>, n: int) -> bool {
    &&& stack.len() >= 1
    &&& stack[0].level == 0
    &&& stack[0].id == NodeId(0)
    &&& stack[0].title is None
    &&& (stack.len() == 1) == !heading_before(nodes, n)
    &&& stack.len() > 1 ==> stack[1].level as int == min_level(nodes, n)
    &&& forall|k: int| 1 <= k < stack.len() ==> (#[trigger] stack[k]).level >= stack[1].level
    &&& stack[0].children@.len() + (if stack.len() > 1 {
        1int
    } else {
        0
    }) == top_count(nodes, n)
}

/// The root's own blocks: the nodes before the first heading, in order.
pub open spec fn root_blocks_ok(root: Section, nodes: Seq<BlockNode>, n: int) -> bool {
    let f = first_heading(nodes, 0);
    let m = if n < f {
        n
    } else {
        f
    };
    root.blocks@.len() == m && forall|k: int| 0 <= k < m ==> #[trigger] root.blocks@[k] == nodes[k]
}

proof fn lemma_min_level_none(nodes: Seq<BlockNode>, n: int)
    requires
        0 <= n <= nodes.len(),
        !heading_before(nodes, n),
    ensures
        min_level(nodes, n) == 256,
    decreases n,
{
    if n > 0 {
        assert(!is_heading_block(nodes[n - 1].block));
        assert(!heading_before(nodes, n - 1)) by {
            if heading_before(nodes, n - 1) {
                let i = choose|i: int| 0 <= i < n - 1 && is_heading_block(#[trigger] nodes[i].block);
                assert(is_heading_block(nodes[i].block));
            }
        }
        lemma_min_level_none(nodes, n - 1);
    }
}

/// Section `s` is made from a heading node: its id, level and content.
pub open spec fn from_heading(s: Section, nodes: Seq<BlockNode>) -> bool {
    s.title is Some && exists|i: int|
        0 <= i < nodes.len() && (#[trigger] nodes[i]).id == s.id && nodes[i].block == (Block::Leaf {
            leaf: LeafBlock::Heading { level: s.level, content: s.title->0 },
        })
}

/// Every block is a non-heading node of the input.
pub open spec fn blocks_from(bs: Seq<BlockNode>, nodes: Seq<BlockNode>) -> bool {
    forall|k: int|
        0 <= k < bs.len() ==> exists|i: int|
            0 <= i < nodes.len() && nodes[i] == #[trigger] bs[k] && !is_heading_block(nodes[i].block)
}

/// A section made from a heading, deeper than `pl`, holding input blocks and well-made
/// sub-sections.
pub open spec fn section_ok(s: Section, nodes: Seq<BlockNode>, pl: int) -> bool
    decreases s, 0int,
{
    &&& from_heading(s, nodes)
    &&& s.level as int > pl
    &&& blocks_from(s.blocks@, nodes)
    &&& sections_ok(s.children, nodes, s.level as int, s.children@.len() as int)
}

/// The first `n` sections of `v` are well made under a parent at level `pl`.
pub open spec fn sections_ok(v: Vec<Section>, nodes: Seq<BlockNode>, pl: int, n: int) -> bool
    decreases v, n,
    via sections_ok_decreases
{
    if n <= 0 {
        true
    } else if n > v@.len() {
        false
    } else {
        sections_ok(v, nodes, pl, n - 1) && section_ok(v@[n - 1], nodes, pl) && (n >= 2 ==> v@[n
            - 1].level <= v@[n - 2].level)
    }
}

#[via_fn]
proof fn sections_ok_decreases(v: Vec<Section>, nodes: Seq<BlockNode>, pl: int, n: int) {
    if 0 < n <= v@.len() {
        assert(decreases_to!(v => v[n - 1]));
    }
}

proof fn lemma_sections_ext(v1: Vec<Section>, v2: Vec<Section>, nodes: Seq<BlockNode>, pl: int, n: int)
    requires
        0 <= n <= v1@.len(),
        n <= v2@.len(),
        forall|k: int| 0 <= k < n ==> v1@[k] == v2@[k],
        sections_ok(v1, nodes, pl, n),
    ensures
        sections_ok(v2, nodes, pl, n),
    decreases n,
{
    if n > 0 {
        lemma_sections_ext(v1, v2, nodes, pl, n - 1);
    }
}

proof fn lemma_sections_push(v1: Vec<Section>, v2: Vec<Section>, x: Section, nodes: Seq<BlockNode>, pl: int)
    requires
        sections_ok(v1, nodes, pl, v1@.len() as int),
        section_ok(x, nodes, pl),
        v2@ == v1@.push(x),
        v1@.len() > 0 ==> x.level <= v1@.last().level,
    ensures
        sections_ok(v2, nodes, pl, v2@.len() as int),
{
    lemma_sections_ext(v1, v2, nodes, pl, v1@.len() as int);
    assert(v2@[v1@.len() as int] == x);
}

/// How many input nodes a section holds: its heading, its blocks and its sub-sections' nodes.
pub open spec fn tree_count(s: Section) -> int
    decreases s, 0int,
{
    (if s.title is Some {
        1int
    } else {
        0int
    }) + s.blocks@.len() + forest_count(s.children, s.children@.len() as int)
}

/// How many input nodes the first `n` sections of `v` hold.
pub open spec fn forest_count(v: Vec<Section>, n: int) -> int
    decreases v, n,
    via forest_count_decreases
{
    if n <= 0 || n > v@.len() {
        0
    } else {
        forest_count(v, n - 1) + tree_count(v@[n - 1])
    }
}

#[via_fn]
proof fn forest_count_decreases(v: Vec<Section>, n: int) {
    if 0 < n <= v@.len() {
        assert(decreases_to!(v => v[n - 1]));
    }
}

proof fn lemma_forest_ext(v1: Vec<Section>, v2: Vec<Section>, n: int)
    requires
        0 <= n <= v1@.len(),
        n <= v2@.len(),
        forall|k: int| 0 <= k < n ==> v1@[k] == v2@[k],
    ensures
        forest_count(v1, n) == forest_count(v2, n),
    decreases n,
{
    if n > 0 {
        lemma_forest_ext(v1, v2, n - 1);
    }
}

/// How many input nodes the first `k` stack entries hold.
pub open spec fn stack_count(st: Seq<Section>, k: int) -> int
    decreases k,
{
    if k <= 0 || k > st.len() {
        0
    } else {
        stack_count(st, k - 1) + tree_count(st[k - 1])
    }
}

proof fn lemma_stack_ext(a: Seq<Section>, b: Seq<Section>, k: int)
    requires
        0 <= k <= a.len(),
        k <= b.len(),
        forall|j: int| 0 <= j < k ==> a[j] == b[j],
    ensures
        stack_count(a, k) == stack_count(b, k),
    decreases k,
{
    if k > 0 {
        lemma_stack_ext(a, b, k - 1);
    }
}

/// Moving the last entry into the children of the one below keeps the count.
proof fn lemma_count_attach(prev: Seq<Section>, next: Seq<Section>)
    requires
        prev.len() >= 2,
        next.len() == prev.len() - 1,
        forall|k: int| 0 <= k < next.len() - 1 ==> next[k] == prev[k],
        next[next.len() - 1].title == prev[prev.len() - 2].title,
        next[next.len() - 1].blocks == prev[prev.len() - 2].blocks,
        next[next.len() - 1].children@ == prev[prev.len() - 2].children@.push(prev[prev.len() - 1]),
    ensures
        stack_count(next, next.len() as int) == stack_count(prev, prev.len() as int),
{
    let t = prev.len() - 2;
    let old_c = prev[t].children;
    let new_c = next[t].children;
    lemma_forest_ext(old_c, new_c, old_c@.len() as int);
    assert(new_c@[old_c@.len() as int] == prev[prev.len() - 1]);
    assert(forest_count(new_c, new_c@.len() as int) == forest_count(old_c, old_c@.len() as int)
        + tree_count(prev[prev.len() - 1]));
    assert(tree_count(next[t]) == tree_count(prev[t]) + tree_count(prev[prev.len() - 1]));
    lemma_stack_ext(prev, next, t);
    assert(stack_count(prev, t + 1) == stack_count(prev, t) + tree_count(prev[t]));
    assert(stack_count(prev, t + 2) == stack_count(prev, t + 1) + tree_count(prev[t + 1]));
    assert(stack_count(prev, prev.len() as int) == stack_count(prev, t) + tree_count(prev[t])
        + tree_count(prev[prev.len() - 1]));
    assert(stack_count(next, next.len() as int) == stack_count(next, t) + tree_count(next[t]));
}

/// Changing the last entry changes the count by the change in that entry's count.
proof fn lemma_count_last(prev: Seq<Section>, next: Seq<Section>)
    requires
        prev.len() >= 1,
        next.len() == prev.len(),
        forall|k: int| 0 <= k < next.len() - 1 ==> next[k] == prev[k],
    ensures
        stack_count(next, next.len() as int) == stack_count(prev, prev.len() as int) - tree_count(
            prev.last(),
        ) + tree_count(next.last()),
{
    lemma_stack_ext(prev, next, prev.len() - 1);
}

/// The ids of a section in pre-order: its heading, its blocks, then its sub-sections.
pub open spec fn sec_ids(s: Section) -> Seq<NodeId>
    decreases s, 0int,
{
    (if s.title is Some {
        seq![s.id]
    } else {
        Seq::empty()
    }) + s.blocks@.map_values(|b: BlockNode| b.id) + forest_ids(s.children, s.children@.len() as int)
}

/// The ids of the first `n` sections of `v` in pre-order.
pub open spec fn forest_ids(v: Vec<Section>, n: int) -> Seq<NodeId>
    decreases v, n,
    via forest_ids_decreases
{
    if n <= 0 || n > v@.len() {
        Seq::empty()
    } else {
        forest_ids(v, n - 1) + sec_ids(v@[n - 1])
    }
}

#[via_fn]
proof fn forest_ids_decreases(v: Vec<Section>, n: int) {
    if 0 < n <= v@.len() {
        assert(decreases_to!(v => v[n - 1]));
    }
}

proof fn lemma_forest_ids_ext(v1: Vec<Section>, v2: Vec<Section>, n: int)
    requires
        0 <= n <= v1@.len(),
        n <= v2@.len(),
        forall|k: int| 0 <= k < n ==> v1@[k] == v2@[k],
    ensures
        forest_ids(v1, n) == forest_ids(v2, n),
    decreases n,
{
    if n > 0 {
        lemma_forest_ids_ext(v1, v2, n - 1);
    }
}

/// The ids of the first `k` stack entries, one after another.
pub open spec fn stack_ids(st: Seq<Section>, k: int) -> Seq<NodeId>
    decreases k,
{
    if k <= 0 || k > st.len() {
        Seq::empty()
    } else {
        stack_ids(st, k - 1) + sec_ids(st[k - 1])
    }
}

proof fn lemma_stack_ids_ext(a: Seq<Section>, b: Seq<Section>, k: int)
    requires
        0 <= k <= a.len(),
        k <= b.len(),
        forall|j: int| 0 <= j < k ==> a[j] == b[j],
    ensures
        stack_ids(a, k) == stack_ids(b, k),
    decreases k,
{
    if k > 0 {
        lemma_stack_ids_ext(a, b, k - 1);
    }
}

proof fn lemma_ids_attach(prev: Seq<Section>, next: Seq<Section>)
    requires
        prev.len() >= 2,
        next.len() == prev.len() - 1,
        forall|k: int| 0 <= k < next.len() - 1 ==> next[k] == prev[k],
        next[next.len() - 1].id == prev[prev.len() - 2].id,
        next[next.len() - 1].title == prev[prev.len() - 2].title,
        next[next.len() - 1].blocks == prev[prev.len() - 2].blocks,
        next[next.len() - 1].children@ == prev[prev.len() - 2].children@.push(prev[prev.len() - 1]),
    ensures
        stack_ids(next, next.len() as int) == stack_ids(prev, prev.len() as int),
{
    let t = prev.len() - 2;
    let old_c = prev[t].children;
    let new_c = next[t].children;
    lemma_forest_ids_ext(old_c, new_c, old_c@.len() as int);
    assert(new_c@[old_c@.len() as int] == prev[prev.len() - 1]);
    assert(forest_ids(new_c, new_c@.len() as int) == forest_ids(old_c, old_c@.len() as int) + sec_ids(
        prev[prev.len() - 1],
    ));
    assert(sec_ids(next[t]) =~= sec_ids(prev[t]) + sec_ids(prev[prev.len() - 1]));
    lemma_stack_ids_ext(prev, next, t);
    assert(stack_ids(prev, t + 1) == stack_ids(prev, t) + sec_ids(prev[t]));
    assert(stack_ids(prev, t + 2) == stack_ids(prev, t + 1) + sec_ids(prev[t + 1]));
    assert(stack_ids(next, next.len() as int) == stack_ids(next, t) + sec_ids(next[t]));
    assert(stack_ids(next, next.len() as int) =~= stack_ids(prev, prev.len() as int));
}

/// The ids of the first `i` input nodes.
pub open spec fn node_ids(nodes: Seq<BlockNode>, i: int) -> Seq<NodeId> {
    nodes.subrange(0, i).map_values(|b: BlockNode| b.id)
}

/// The level above which the section at stack position `k` sits.
pub open spec fn parent_level(stack: Seq<Section>, k: int) -> int {
    if k <= 1 {
        -1
    } else {
        stack[k - 1].level as int
    }
}

/// An open section at stack position `k`: made from a heading, deeper than the one below it.
pub open spec fn open_entry(stack: Seq<Section>, nodes: Seq<BlockNode>, k: int) -> bool {
    &&& from_heading(stack[k], nodes)
    &&& stack[k].level as int > parent_level(stack, k)
    &&& blocks_from(stack[k].blocks@, nodes)
    &&& sections_ok(stack[k].children, nodes, stack[k].level as int, stack[k].children@.len() as int)
}

/// Every section on the stack, and every finished one below them, is well made; an open
/// section sits no deeper than the last finished child of the one below it.
pub open spec fn open_ok(stack: Seq<Section>, nodes: Seq<BlockNode>) -> bool {
    &&& stack.len() >= 1
    &&& forall|k: int|
        0 <= k < stack.len() - 1 && (#[trigger] stack[k]).children@.len() > 0 ==> stack[k
            + 1].level <= stack[k].children@.last().level
    &&& sections_ok(stack[0].children, nodes, -1, stack[0].children@.len() as int)
    &&& blocks_from(stack[0].blocks@, nodes)
    &&& forall|k: int| 1 <= k < stack.len() ==> #[trigger] open_entry(stack, nodes, k)
}

proof fn lemma_attach(prev: Seq<Section>, next: Seq<Section>, nodes: Seq<BlockNode>)
    requires
        open_ok(prev, nodes),
        prev.len() >= 2,
        next.len() == prev.len() - 1,
        forall|k: int| 0 <= k < next.len() - 1 ==> next[k] == prev[k],
        next[next.len() - 1].id == prev[prev.len() - 2].id,
        next[next.len() - 1].level == prev[prev.len() - 2].level,
        next[next.len() - 1].title == prev[prev.len() - 2].title,
        next[next.len() - 1].blocks == prev[prev.len() - 2].blocks,
        next[next.len() - 1].children@ == prev[prev.len() - 2].children@.push(prev[prev.len() - 1]),
    ensures
        open_ok(next, nodes),
{
    let t = prev.len() - 2;
    let f = prev[prev.len() - 1];
    assert(open_entry(prev, nodes, prev.len() - 1));
    assert(prev[t].children@.len() > 0 ==> f.level <= prev[t].children@.last().level);
    if t == 0 {
        assert(section_ok(f, nodes, -1));
        lemma_sections_push(prev[0].children, next[0].children, f, nodes, -1);
    } else {
        assert(open_entry(prev, nodes, t));
        assert(section_ok(f, nodes, prev[t].level as int));
        lemma_sections_push(prev[t].children, next[t].children, f, nodes, prev[t].level as int);
        assert(next[0] == prev[0]);
    }
    assert forall|k: int| 1 <= k < next.len() implies #[trigger] open_entry(next, nodes, k) by {
        assert(open_entry(prev, nodes, k));
        if k < next.len() - 1 {
            assert(next[k] == prev[k]);
        }
        if k >= 2 {
            assert(next[k - 1] == prev[k - 1]);
        }
    }
    assert forall|k: int|
        0 <= k < next.len() - 1 && (#[trigger] next[k]).children@.len() > 0 implies next[k
        + 1].level <= next[k].children@.last().level by {
        assert(next[k] == prev[k]);
        assert(prev[k].children@.len() > 0);
        if k + 1 < next.len() - 1 {
            assert(next[k + 1] == prev[k + 1]);
        }
    }
}

proof fn lemma_push_open(prev: Seq<Section>, next: Seq<Section>, x: Section, nodes: Seq<BlockNode>)
    requires
        open_ok(prev, nodes),
        next == prev.push(x),
        open_entry(next, nodes, prev.len() as int),
        prev.last().children@.len() > 0 ==> x.level <= prev.last().children@.last().level,
    ensures
        open_ok(next, nodes),
{
    assert(next[0] == prev[0]);
    assert forall|k: int|
        0 <= k < next.len() - 1 && (#[trigger] next[k]).children@.len() > 0 implies next[k
        + 1].level <= next[k].children@.last().level by {
        assert(next[k] == prev[k]);
        if k + 1 < prev.len() {
            assert(next[k + 1] == prev[k + 1]);
        }
    }
    assert forall|k: int| 1 <= k < next.len() implies #[trigger] open_entry(next, nodes, k) by {
        if k < prev.len() {
            assert(open_entry(prev, nodes, k));
            assert(next[k] == prev[k]);
            if k >= 2 {
                assert(next[k - 1] == prev[k - 1]);
            }
        }
    }
}

proof fn lemma_add_block(prev: Seq<Section>, next: Seq<Section>, b: BlockNode, nodes: Seq<BlockNode>)
    requires
        open_ok(prev, nodes),
        next.len() == prev.len(),
        forall|k: int| 0 <= k < next.len() - 1 ==> next[k] == prev[k],
        next.last().id == prev.last().id,
        next.last().level == prev.last().level,
        next.last().title == prev.last().title,
        next.last().children == prev.last().children,
        next.last().blocks@ == prev.last().blocks@.push(b),
        exists|i: int| 0 <= i < nodes.len() && nodes[i] == b && !is_heading_block(nodes[i].block),
    ensures
        open_ok(next, nodes),
{
    let l = prev.len() - 1;
    assert forall|k: int| 0 <= k < next[l].blocks@.len() implies exists|i: int|
        0 <= i < nodes.len() && nodes[i] == #[trigger] next[l].blocks@[k] && !is_heading_block(nodes[i].block) by {
        if k < prev[l].blocks@.len() {
            assert(next[l].blocks@[k] == prev[l].blocks@[k]);
            if l >= 1 {
                assert(open_entry(prev, nodes, l));
            }
        }
    }
    assert forall|k: int| 1 <= k < next.len() implies #[trigger] open_entry(next, nodes, k) by {
        assert(open_entry(prev, nodes, k));
        if k < l {
            assert(next[k] == prev[k]);
        }
        if k >= 2 {
            assert(next[k - 1] == prev[k - 1]);
        }
    }
    assert forall|k: int|
        0 <= k < next.len() - 1 && (#[trigger] next[k]).children@.len() > 0 implies next[k
        + 1].level <= next[k].children@.last().level by {
        assert(next[k] == prev[k]);
        assert(prev[k].children@.len() > 0);
        if k + 1 < l {
            assert(next[k + 1] == prev[k + 1]);
        }
    }
}

/// Builds the outline: each heading opens a section that closes at the next heading of the same
/// or a higher level; other blocks belong to the innermost open section.
#[verifier::rlimit(60)]
pub fn build_section_tree(blocks: Vec<BlockNode>) -> (r: Section)
    ensures
        r.level == 0,
        r.id == NodeId(0),
        r.title is None,
        r.blocks@.len() == first_heading(blocks@, 0),
        forall|k: int| 0 <= k < r.blocks@.len() ==> #[trigger] r.blocks@[k] == blocks@[k],
        r.children@.len() == top_count(blocks@, blocks@.len() as int),
        sections_ok(r.children, blocks@, -1, r.children@.len() as int),
        tree_count(r) == blocks@.len(),
        sec_ids(r) == blocks@.map_values(|b: BlockNode| b.id),
{
    let ghost nodes = blocks@;
    proof {
        lemma_first_heading(nodes, 0);
    }
    let mut rest = blocks;
    let mut stack: Vec<Section> = Vec::new();
    stack.push(
        Section { id: NodeId(0), level: 0, title: None, blocks: Vec::new(), children: Vec::new() },
    );
    let mut i: usize = 0;
    let n = rest.len();
    proof {
        assert(forest_count(stack@[0].children, 0) == 0);
        assert(tree_count(stack@[0]) == 0);
        assert(stack_count(stack@, 1) == stack_count(stack@, 0) + tree_count(stack@[0]));
        assert(forest_ids(stack@[0].children, 0) =~= Seq::<NodeId>::empty());
        assert(stack_ids(stack@, 0) =~= Seq::<NodeId>::empty());
        assert(stack@[0].blocks@.map_values(|b: BlockNode| b.id) =~= Seq::<NodeId>::empty());
        assert(sec_ids(stack@[0]) =~= Seq::<NodeId>::empty());
        assert(stack_ids(stack@, 1) == stack_ids(stack@, 0) + sec_ids(stack@[0]));
        assert(stack_ids(stack@, 1) =~= Seq::<NodeId>::empty());
        assert(node_ids(nodes, 0) =~= Seq::<NodeId>::empty());
    }
    while rest.len() > 0
        invariant
            n == nodes.len(),
            i <= n,
            rest@ == nodes.subrange(i as int, n as int),
            stack_ok(stack@, nodes, i as int),
            root_blocks_ok(stack@[0], nodes, i as int),
            i <= first_heading(nodes, 0) <= n || heading_before(nodes, i as int),
            first_heading(nodes, 0) <= n,
            forall|k: int| 0 <= k < first_heading(nodes, 0) ==> !is_heading_block(#[trigger] nodes[k].block),
            first_heading(nodes, 0) < n ==> is_heading_block(nodes[first_heading(nodes, 0)].block),
            open_ok(stack@, nodes),
            stack_count(stack@, stack@.len() as int) == i,
            stack_ids(stack@, stack@.len() as int) == node_ids(nodes, i as int),
            stack@.last().children@.len() == 0,
        decreases rest.len(),
    {
        let node = rest.remove(0);
        assert(node == nodes[i as int]);
        let BlockNode { id, block, span } = node;
        let ghost prev = stack@;
        match block {
            Block::Leaf { leaf: LeafBlock::Heading { level, content } } => {
                proof {
                    assert(heading_before(nodes, i + 1)) by {
                        assert(is_heading_block(nodes[i as int].block));
                    }
                    if !heading_before(nodes, i as int) {
                        lemma_min_level_none(nodes, i as int);
                    }
                    assert(level_of(nodes[i as int].block) == level);
                    assert(min_level(nodes, i + 1) == if (level as int) < min_level(nodes, i as int) {
                        level as int
                    } else {
                        min_level(nodes, i as int)
                    });
                    assert(top_count(nodes, i + 1) == top_count(nodes, i as int) + if (level as int)
                        <= min_level(nodes, i as int) {
                        1int
                    } else {
                        0
                    });
                }
                while stack.len() > 1 && stack[stack.len() - 1].level >= level
                    invariant
                        1 <= stack@.len() <= prev.len(),
                        forall|k: int| 0 < k < stack@.len() ==> (#[trigger] stack@[k]).level == prev[k].level,
                        stack@[0].level == 0,
                        stack@[0].id == NodeId(0),
                        stack@[0].title is None,
                        stack@[0].blocks == prev[0].blocks,
                        stack@[0].children@.len() == prev[0].children@.len() + (if stack@.len()
                            == 1 && prev.len() > 1 {
                            1int
                        } else {
                            0
                        }),
                        prev.len() > 1 ==> forall|k: int| 1 <= k < prev.len() ==> (#[trigger] prev[k]).level >= prev[1].level,
                        stack@.len() < prev.len() ==> prev[stack@.len() as int].level >= level,
                        open_ok(stack@, nodes),
                        stack@.len() < prev.len() ==> stack@.last().children@.len() > 0
                            && stack@.last().children@.last().level >= level,
                        stack@.len() == prev.len() ==> stack@.last().children@.len() == 0,
                        stack_count(stack@, stack@.len() as int) == i,
                        stack_ids(stack@, stack@.len() as int) == node_ids(nodes, i as int),
                    decreases stack.len(),
                {
                    let ghost pre = stack@;
                    let finished = stack.pop().unwrap();
                    let mut top = stack.pop().unwrap();
                    top.children.push(finished);
                    stack.push(top);
                    proof {
                        lemma_attach(pre, stack@, nodes);
                        lemma_count_attach(pre, stack@);
                        lemma_ids_attach(pre, stack@);
                    }
                }
                proof {
                    if stack@.len() > 1 {
                        let last = stack@.len() - 1;
                        assert(stack@[last].level == prev[last].level);
                        assert(prev[last].level >= prev[1].level);
                    }
                }
                let ghost mid = stack@;
                let sec = Section {
                    id,
                    level,
                    title: Some(content),
                    blocks: Vec::new(),
                    children: Vec::new(),
                };
                proof {
                    assert(nodes[i as int].id == sec.id);
                    assert(nodes[i as int].block == (Block::Leaf {
                        leaf: LeafBlock::Heading { level: sec.level, content: sec.title->0 },
                    }));
                    assert(from_heading(sec, nodes));
                    assert(sections_ok(sec.children, nodes, sec.level as int, 0));
                }
                stack.push(sec);
                proof {
                    if mid.len() > 1 {
                        assert(stack@[mid.len() - 1] == mid[mid.len() - 1]);
                    }
                    assert(open_entry(stack@, nodes, mid.len() as int));
                    assert(mid.last().children@.len() > 0 ==> sec.level <= mid.last().children@.last().level);
                    lemma_push_open(mid, stack@, sec, nodes);
                    lemma_stack_ext(mid, stack@, mid.len() as int);
                    assert(forest_count(sec.children, 0) == 0);
                    assert(tree_count(sec) == 1);
                    assert(stack_count(stack@, stack@.len() as int) == i + 1);
                    lemma_stack_ids_ext(mid, stack@, mid.len() as int);
                    assert(forest_ids(sec.children, 0) =~= Seq::<NodeId>::empty());
                    assert(sec_ids(sec) =~= seq![id]);
                    assert(node_ids(nodes, i + 1) =~= node_ids(nodes, i as int).push(nodes[i as int].id));
                    assert(stack_ids(stack@, stack@.len() as int) =~= node_ids(nodes, i + 1));
                    assert(stack@[0] == mid[0]);
                    if mid.len() > 1 {
                        assert(stack@[1] == mid[1]);
                        assert(mid[1].level == prev[1].level);
                    }
                    assert forall|k: int| 1 <= k < stack@.len() implies (#[trigger] stack@[k]).level
                        >= stack@[1].level by {
                        if k < mid.len() {
                            assert(stack@[k] == mid[k]);
                            assert(mid[k].level == prev[k].level);
                        }
                    }
                }
            },
            other => {
                proof {
                    assert(!is_heading_block(nodes[i as int].block));
                    assert(heading_before(nodes, i + 1) == heading_before(nodes, i as int)) by {
                        if heading_before(nodes, i + 1) {
                            let j = choose|j: int|
                                0 <= j < i + 1 && is_heading_block(#[trigger] nodes[j].block);
                            assert(j < i);
                        }
                        if heading_before(nodes, i as int) {
                            let j = choose|j: int|
                                0 <= j < i && is_heading_block(#[trigger] nodes[j].block);
                            assert(0 <= j < i + 1);
                        }
                    }
                    assert(min_level(nodes, i + 1) == min_level(nodes, i as int));
                    assert(top_count(nodes, i + 1) == top_count(nodes, i as int));
                }
                let ghost pre = stack@;
                let mut top = stack.pop().unwrap();
                let bn = BlockNode { id, block: other, span };
                proof {
                    assert(bn == nodes[i as int]);
                }
                top.blocks.push(bn);
                stack.push(top);
                proof {
                    lemma_add_block(pre, stack@, nodes[i as int], nodes);
                    lemma_count_last(pre, stack@);
                    assert(tree_count(stack@.last()) == tree_count(pre.last()) + 1);
                    lemma_stack_ids_ext(pre, stack@, pre.len() - 1);
                    let l = pre.len() - 1;
                    assert(forest_ids(stack@[l].children, 0) =~= Seq::<NodeId>::empty());
                    assert(forest_ids(pre[l].children, 0) =~= Seq::<NodeId>::empty());
                    assert(stack@[l].blocks@.map_values(|b: BlockNode| b.id) =~= pre[l].blocks@.map_values(
                        |b: BlockNode| b.id,
                    ).push(id));
                    assert(sec_ids(stack@[l]) =~= sec_ids(pre[l]).push(id));
                    assert(stack_ids(pre, pre.len() as int) == stack_ids(pre, l) + sec_ids(pre[l]));
                    assert(stack_ids(stack@, stack@.len() as int) == stack_ids(stack@, l) + sec_ids(stack@[l]));
                    assert(node_ids(nodes, i + 1) =~= node_ids(nodes, i as int).push(nodes[i as int].id));
                    assert(stack_ids(stack@, stack@.len() as int) =~= node_ids(nodes, i + 1));
                    assert forall|k: int| 0 <= k < stack@.len() implies (#[trigger] stack@[k]).level
                        == prev[k].level && stack@[k].id == prev[k].id && stack@[k].title
                        == prev[k].title by {
                        if k < prev.len() - 1 {
                            assert(stack@[k] == prev[k]);
                        }
                    }
                    if prev.len() > 1 {
                        assert(stack@[0] == prev[0]);
                    }
                }
            },
        }
        i = i + 1;
    }
    while stack.len() > 1
        invariant
            stack@.len() >= 1,
            stack@[0].level == 0,
            stack@[0].id == NodeId(0),
            stack@[0].title is None,
            stack@[0].children@.len() + (if stack@.len() > 1 {
                1int
            } else {
                0
            }) == top_count(nodes, n as int),
            root_blocks_ok(stack@[0], nodes, n as int),
            open_ok(stack@, nodes),
            stack_count(stack@, stack@.len() as int) == n,
            stack_ids(stack@, stack@.len() as int) == node_ids(nodes, n as int),
        decreases stack.len(),
    {
        let ghost pre = stack@;
        let finished = stack.pop().unwrap();
        let mut top = stack.pop().unwrap();
        top.children.push(finished);
        stack.push(top);
        proof {
            lemma_attach(pre, stack@, nodes);
            lemma_count_attach(pre, stack@);
            lemma_ids_attach(pre, stack@);
        }
    }
    proof {
        assert(stack_count(stack@, 1) == stack_count(stack@, 0) + tree_count(stack@[0]));
        assert(stack_ids(stack@, 0) =~= Seq::<NodeId>::empty());
        assert(stack_ids(stack@, 1) == stack_ids(stack@, 0) + sec_ids(stack@[0]));
        assert(stack_ids(stack@, 1) =~= sec_ids(stack@[0]));
        assert(node_ids(nodes, n as int) =~= nodes.map_values(|b: BlockNode| b.id));
    }
    stack.pop().unwrap()
}


/// Section `s`, or a section below it, holds the block `b`.
pub open spec fn holds(s: Section, b: BlockNode) -> bool
    decreases s, 0int,
{
    s.blocks@.contains(b) || forest_holds(s.children, s.children@.len() as int, b)
}

/// One of the first `n` sections of `v`, or a section below one, holds the block `b`.
pub open spec fn forest_holds(v: Vec<Section>, n: int, b: BlockNode) -> bool
    decreases v, n,
    via forest_holds_decreases
{
    if n <= 0 || n > v@.len() {
        false
    } else {
        forest_holds(v, n - 1, b) || holds(v@[n - 1], b)
    }
}

#[via_fn]
proof fn forest_holds_decreases(v: Vec<Section>, n: int, b: BlockNode) {
    if 0 < n <= v@.len() {
        assert(decreases_to!(v => v[n - 1]));
    }
}

proof fn lemma_holds_id(s: Section, b: BlockNode)
    requires
        holds(s, b),
    ensures
        sec_ids(s).contains(b.id),
    decreases s, 0int,
{
    let head = if s.title is Some {
        seq![s.id]
    } else {
        Seq::<NodeId>::empty()
    };
    let own = s.blocks@.map_values(|x: BlockNode| x.id);
    let rest = forest_ids(s.children, s.children@.len() as int);
    assert(sec_ids(s) == head + own + rest);
    if s.blocks@.contains(b) {
        let i = choose|i: int| 0 <= i < s.blocks@.len() && s.blocks@[i] == b;
        assert((head + own + rest)[head.len() + i] == b.id);
    } else {
        lemma_forest_holds_id(s.children, s.children@.len() as int, b);
        let j = choose|j: int| 0 <= j < rest.len() && rest[j] == b.id;
        assert((head + own + rest)[head.len() + own.len() + j] == b.id);
    }
}

proof fn lemma_forest_holds_id(v: Vec<Section>, n: int, b: BlockNode)
    requires
        forest_holds(v, n, b),
    ensures
        forest_ids(v, n).contains(b.id),
    decreases v, n,
{
    assert(0 < n <= v@.len());
    let pre = forest_ids(v, n - 1);
    let last = sec_ids(v@[n - 1]);
    assert(forest_ids(v, n) == pre + last);
    if forest_holds(v, n - 1, b) {
        lemma_forest_holds_id(v, n - 1, b);
        let j = choose|j: int| 0 <= j < pre.len() && pre[j] == b.id;
        assert((pre + last)[j] == b.id);
    } else {
        assert(decreases_to!(v => v[n - 1]));
        lemma_holds_id(v@[n - 1], b);
        let j = choose|j: int| 0 <= j < last.len() && last[j] == b.id;
        assert((pre + last)[pre.len() + j] == b.id);
    }
}

/// The root holds the blocks before the first heading; when the ids are distinct, no section
/// below the root holds any of them.
pub proof fn lemma_root_blocks_stay_at_root(blocks: Seq<BlockNode>, r: Section, k: int)
    requires
        blocks.map_values(|b: BlockNode| b.id).no_duplicates(),
        r.title is None,
        r.blocks@.len() == first_heading(blocks, 0),
        forall|i: int| 0 <= i < r.blocks@.len() ==> #[trigger] r.blocks@[i] == blocks[i],
        sec_ids(r) == blocks.map_values(|b: BlockNode| b.id),
        0 <= k < first_heading(blocks, 0),
    ensures
        r.blocks@[k] == blocks[k],
        !forest_holds(r.children, r.children@.len() as int, blocks[k]),
{
    let ids = blocks.map_values(|b: BlockNode| b.id);
    let own = r.blocks@.map_values(|x: BlockNode| x.id);
    let rest = forest_ids(r.children, r.children@.len() as int);
    assert(sec_ids(r) =~= own + rest);
    if forest_holds(r.children, r.children@.len() as int, blocks[k]) {
        lemma_forest_holds_id(r.children, r.children@.len() as int, blocks[k]);
        let j = choose|j: int| 0 <= j < rest.len() && rest[j] == blocks[k].id;
        assert(r.blocks@[k] == blocks[k]);
        assert((own + rest)[k] == blocks[k].id);
        assert((own + rest)[own.len() + j] == blocks[k].id);
        assert(ids[k] == ids[own.len() + j]);
    }
}

} // verus!
