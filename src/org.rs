//! The Org note format: a heading tree built with a level stack, lowered to blocks in
//! pre-order, and written back as Org text.
use crate::format::{
    hint_view, input_text, lemma_links_empty, lemma_links_trans, links_appended, push_link, NoteMetadata,
    NoteSerialization,
};
use crate::managers::strs;
use crate::models::{Attachment, Block, ContainerBlock, Inline, LeafBlock, LinkTarget, Note};
use crate::text::{
    chars_of, has_prefix, is_space_char, lines_of, lines_of_str, opt_view, push_all, split_chars, split_on,
    starts_with, string_of, subvec, trim, trim_chars, trim_start, trim_start_chars,
};
use vstd::prelude::*;
use vstd::string::StrSliceExecFns;

verus! {

/// A parsed Org file: its top-level headings.
#[derive(Debug, PartialEq, Eq)]
pub struct OrgDocument {
    pub nodes: Vec<OrgNode>,
}

/// A heading with its keyword, tags, properties, body blocks and sub-headings.
#[derive(Debug, PartialEq, Eq)]
pub struct OrgNode {
    pub id: Option<String>,
    pub level: u8,
    pub title: Vec<Inline>,
    pub todo: Option<String>,
    pub tags: Vec<String>,
    pub properties: Vec<(String, String)>,
    pub body: Vec<Block>,
    pub children: Vec<OrgNode>,
}

#[derive(Debug, PartialEq, Eq)]
pub struct OrgTable {
    pub headers: Vec<Vec<Inline>>,
    pub rows: Vec<Vec<Vec<Inline>>>,
    pub formulas: Vec<TableFormula>,
}

#[derive(Debug, Clone, PartialEq, Eq)]
pub struct TableFormula {
    pub formula: String,
    pub target_cells: Vec<(usize, usize)>,
}

/// Whether `char::is_uppercase` holds.
pub uninterp spec fn upper(c: char) -> bool;

/// Relies on `char::is_uppercase`: the Unicode `Uppercase` property of a character.
#[verifier::external_body]
fn is_upper(c: char) -> (r: bool)
    ensures
        r == upper(c),
{
    c.is_uppercase()
}

/// A line that opens a heading: a `*` after its indentation.
pub open spec fn heading_line(l: Seq<char>) -> bool {
    has_prefix(trim_start(l), seq!['*'])
}

/// Some line before `n` opens a heading.
pub open spec fn heading_seen(ls: Seq<Seq<char>>, n: int) -> bool {
    exists|j: int| 0 <= j < n && heading_line(#[trigger] ls[j])
}

/// The whitespace-separated words of `s` from `i` on, as `str::split_whitespace` yields them.
pub open spec fn words_from(s: Seq<char>, i: int) -> Seq<Seq<char>>
    decreases s.len() - i,
{
    let a = crate::text::lead_end(s, i);
    if i < 0 || a >= s.len() || a < i {
        Seq::empty()
    } else {
        let b = crate::detector::token_end(s, a);
        if b <= a || b > s.len() {
            seq![s.subrange(a, b)]
        } else {
            seq![s.subrange(a, b)] + words_from(s, b)
        }
    }
}

proof fn lemma_token_end_bounds(s: Seq<char>, i: int)
    requires
        0 <= i <= s.len(),
    ensures
        i <= crate::detector::token_end(s, i) <= s.len(),
        crate::detector::token_end(s, i) < s.len() ==> crate::text::is_space(s[crate::detector::token_end(s, i)]),
    decreases s.len() - i,
{
    if i < s.len() && !crate::text::is_space(s[i]) {
        lemma_token_end_bounds(s, i + 1);
    }
}

/// The whitespace-separated words of a text.
fn words(s: &Vec<char>) -> (r: Vec<Vec<char>>)
    ensures
        r.deep_view() == words_from(s@, 0),
{
    let mut out: Vec<Vec<char>> = Vec::new();
    let mut i: usize = 0;
    assert(out.deep_view() + words_from(s@, 0) =~= words_from(s@, 0));
    while i < s.len()
        invariant
            i <= s.len(),
            out.deep_view() + words_from(s@, i as int) == words_from(s@, 0),
        decreases s.len() - i,
    {
        let i0 = i;
        proof {
            crate::text::lemma_lead_end_bounds(s@, i as int);
        }
        while i < s.len() && is_space_char(s[i])
            invariant
                i0 <= i <= s.len(),
                crate::text::lead_end(s@, i as int) == crate::text::lead_end(s@, i0 as int),
            decreases s.len() - i,
        {
            i = i + 1;
        }
        if i == s.len() {
            assert(words_from(s@, i0 as int) =~= Seq::<Seq<char>>::empty());
            assert(out.deep_view() + words_from(s@, i as int) =~= out.deep_view() + words_from(s@, i0 as int));
        } else {
            let a = i;
            proof {
                lemma_token_end_bounds(s@, a as int);
            }
            while i < s.len() && !is_space_char(s[i])
                invariant
                    a <= i <= s.len(),
                    crate::detector::token_end(s@, i as int) == crate::detector::token_end(s@, a as int),
                decreases s.len() - i,
            {
                i = i + 1;
            }
            let w = subvec(s, a, i);
            let ghost before = out.deep_view();
            let ghost before_v = out@;
            out.push(w);
            proof {
                assert(out@ == before_v.push(w));
                assert(w.deep_view() =~= w@);
                assert(out.deep_view() =~= before.push(w@));
                assert(words_from(s@, i0 as int) == seq![w@] + words_from(s@, i as int));
                assert(out.deep_view() + words_from(s@, i as int) =~= before + words_from(s@, i0 as int));
            }
        }
    }
    assert(words_from(s@, i as int) =~= Seq::<Seq<char>>::empty());
    assert(out.deep_view() + words_from(s@, i as int) =~= out.deep_view());
    out
}

pub open spec fn all_upper_spec(w: Seq<char>) -> bool {
    forall|i: int| 0 <= i < w.len() ==> upper(#[trigger] w[i])
}

fn all_upper(w: &Vec<char>) -> (r: bool)
    ensures
        r == all_upper_spec(w@),
{
    let mut i: usize = 0;
    while i < w.len()
        invariant
            i <= w.len(),
            forall|k: int| 0 <= k < i ==> upper(#[trigger] w@[k]),
        decreases w.len() - i,
    {
        if !is_upper(w[i]) {
            return false;
        }
        i = i + 1;
    }
    true
}

/// The end of the run of `c` that ends just before `j`, not going below `a`.
pub open spec fn back_end(s: Seq<char>, c: char, j: int, a: int) -> int
    decreases j,
{
    if j > a && j > 0 && j <= s.len() && s[j - 1] == c {
        back_end(s, c, j - 1, a)
    } else {
        j
    }
}

/// `s` without its leading and trailing runs of `c`.
pub open spec fn strip_char(s: Seq<char>, c: char) -> Seq<char> {
    let a = crate::text::run_end(s, c, 0);
    s.subrange(a, back_end(s, c, s.len() as int, a))
}

/// `s` without leading and trailing `c`.
pub(crate) fn trim_char(s: &Vec<char>, c: char) -> (r: Vec<char>)
    ensures
        r@ == strip_char(s@, c),
{
    proof {
        crate::text::lemma_run_end_bounds(s@, c, 0);
    }
    let mut a: usize = 0;
    while a < s.len() && s[a] == c
        invariant
            a <= s.len(),
            crate::text::run_end(s@, c, a as int) == crate::text::run_end(s@, c, 0),
        decreases s.len() - a,
    {
        a = a + 1;
    }
    let mut b: usize = s.len();
    while b > a && s[b - 1] == c
        invariant
            a <= b <= s.len(),
            back_end(s@, c, b as int, a as int) == back_end(s@, c, s.len() as int, a as int),
        decreases b - a,
    {
        b = b - 1;
    }
    subvec(s, a, b)
}

/// A word of the form `:tag:`.
pub open spec fn tag_word(w: Seq<char>) -> bool {
    w.len() > 0 && w[0] == ':' && w.last() == ':'
}

/// The first tag word at or after `i` (or the word count).
pub open spec fn tag_at(ws: Seq<Seq<char>>, i: int) -> int
    decreases ws.len() - i,
{
    if 0 <= i < ws.len() && !tag_word(ws[i]) {
        tag_at(ws, i + 1)
    } else {
        i
    }
}

/// The words of a heading line after its stars.
pub open spec fn heading_words(l: Seq<char>) -> Seq<Seq<char>> {
    let t = trim_start(l);
    words_from(trim(t.subrange(crate::text::run_end(t, '*', 0), t.len() as int)), 0)
}

/// Whether the heading's first word is an all-uppercase keyword.
pub open spec fn has_keyword(ws: Seq<Seq<char>>) -> bool {
    ws.len() > 0 && all_upper_spec(ws[0])
}

/// The title words: after the keyword, up to the first tag word.
pub open spec fn title_words(ws: Seq<Seq<char>>) -> Seq<Seq<char>> {
    let i0: int = if has_keyword(ws) {
        1
    } else {
        0
    };
    ws.subrange(i0, tag_at(ws, i0))
}

/// The tags: the pieces of the first tag word between its colons.
pub open spec fn heading_tags(ws: Seq<Seq<char>>) -> Seq<Seq<char>> {
    let i0: int = if has_keyword(ws) {
        1
    } else {
        0
    };
    let k = tag_at(ws, i0);
    if k < ws.len() {
        crate::text::split_on(strip_char(ws[k], ':'), ':')
    } else {
        Seq::empty()
    }
}

/// The keyword, title and tags that a heading line gives.
pub open spec fn heading_fields_ok(
    todo: Option<String>,
    title: Vec<Inline>,
    tags: Vec<String>,
    l: Seq<char>,
) -> bool {
    let ws = heading_words(l);
    &&& opt_view(todo) == if has_keyword(ws) {
        Some(ws[0])
    } else {
        None
    }
    &&& title@.len() == title_words(ws).len()
    &&& forall|k: int|
        0 <= k < title@.len() ==> ((#[trigger] title@[k]) matches Inline::Text { text } && text@
            == title_words(ws)[k])
    &&& tags@.len() == heading_tags(ws).len()
    &&& forall|k: int| 0 <= k < tags@.len() ==> (#[trigger] tags@[k])@ == heading_tags(ws)[k]
}

/// Index of the first heading line at or after `p` (the line count when there is none).
pub open spec fn next_heading(ls: Seq<Seq<char>>, p: int) -> int
    decreases ls.len() - p,
{
    if p >= ls.len() {
        ls.len() as int
    } else if p >= 0 && heading_line(ls[p]) {
        p
    } else {
        next_heading(ls, p + 1)
    }
}

/// Index of the first heading line at or after `p` whose level is `lv` or above (the line
/// count when there is none).
pub open spec fn close_at(ls: Seq<Seq<char>>, lv: int, p: int) -> int
    decreases ls.len() - p,
{
    if p >= ls.len() {
        ls.len() as int
    } else if p >= 0 && heading_line(ls[p]) && org_level(ls[p]) <= lv {
        p
    } else {
        close_at(ls, lv, p + 1)
    }
}

/// Where the subtree of the heading on line `j` ends: at the next heading of its level or
/// above.
pub open spec fn subtree_end(ls: Seq<Seq<char>>, j: int) -> int {
    close_at(ls, org_level(ls[j]), j + 1)
}

proof fn lemma_next_heading(ls: Seq<Seq<char>>, p: int)
    requires
        0 <= p <= ls.len(),
    ensures
        p <= next_heading(ls, p) <= ls.len(),
        forall|q: int| p <= q < next_heading(ls, p) ==> !heading_line(#[trigger] ls[q]),
        next_heading(ls, p) < ls.len() ==> heading_line(ls[next_heading(ls, p)]),
    decreases ls.len() - p,
{
    if p < ls.len() && !heading_line(ls[p]) {
        lemma_next_heading(ls, p + 1);
    }
}

proof fn lemma_next_heading_is(ls: Seq<Seq<char>>, a: int, i: int)
    requires
        0 <= a <= i <= ls.len(),
        forall|q: int| a <= q < i ==> !heading_line(#[trigger] ls[q]),
        i == ls.len() || heading_line(ls[i]),
    ensures
        next_heading(ls, a) == i,
    decreases i - a,
{
    if a < i {
        assert(!heading_line(ls[a]));
        lemma_next_heading_is(ls, a + 1, i);
    }
}

proof fn lemma_close_at_is(ls: Seq<Seq<char>>, lv: int, a: int, i: int)
    requires
        0 <= a <= i <= ls.len(),
        forall|q: int| a <= q < i && heading_line(#[trigger] ls[q]) ==> org_level(ls[q]) > lv,
        i == ls.len() || (heading_line(ls[i]) && org_level(ls[i]) <= lv),
    ensures
        close_at(ls, lv, a) == i,
    decreases i - a,
{
    if a < i {
        lemma_close_at_is(ls, lv, a + 1, i);
    }
}

proof fn lemma_close_at_bounds(ls: Seq<Seq<char>>, lv: int, p: int)
    requires
        0 <= p <= ls.len(),
    ensures
        p <= close_at(ls, lv, p) <= ls.len(),
    decreases ls.len() - p,
{
    if p < ls.len() {
        lemma_close_at_bounds(ls, lv, p + 1);
    }
}

/// A table row: a `|` after its indentation.
pub open spec fn bar_line(l: Seq<char>) -> bool {
    trim_start(l).len() > 0 && trim_start(l)[0] == '|'
}

proof fn lemma_bar_not_heading(l: Seq<char>)
    ensures
        bar_line(l) ==> !heading_line(l),
{
    if bar_line(l) {
        assert(trim_start(l).subrange(0, 1)[0] == trim_start(l)[0]);
    }
}

/// The end of the run of table rows that starts at `p`.
pub open spec fn bar_run_end(ls: Seq<Seq<char>>, p: int) -> int
    decreases ls.len() - p,
{
    if p < 0 || p >= ls.len() || !bar_line(ls[p]) {
        p
    } else {
        bar_run_end(ls, p + 1)
    }
}

proof fn lemma_bar_run_end(ls: Seq<Seq<char>>, p: int)
    requires
        0 <= p <= ls.len(),
    ensures
        p <= bar_run_end(ls, p) <= ls.len(),
    decreases ls.len() - p,
{
    if p < ls.len() && bar_line(ls[p]) {
        lemma_bar_run_end(ls, p + 1);
    }
}

/// Index of the first `c` in `s` at or after `i` (the length when there is none).
pub open spec fn first_of(s: Seq<char>, c: char, i: int) -> int
    decreases s.len() - i,
{
    if i >= s.len() {
        s.len() as int
    } else if i >= 0 && s[i] == c {
        i
    } else {
        first_of(s, c, i + 1)
    }
}

/// What a `:KEY: value` line gives: inside its outer colons, the trimmed text before and
/// after the first `:`.
pub open spec fn prop_of(l: Seq<char>) -> Option<(Seq<char>, Seq<char>)> {
    if l.len() == 0 || l[0] != ':' {
        None
    } else {
        let inner = strip_char(l, ':');
        let k = first_of(inner, ':', 0);
        if k >= inner.len() {
            None
        } else {
            Some((trim(inner.subrange(0, k)), trim(inner.subrange(k + 1, inner.len() as int))))
        }
    }
}

/// Position of the first property with key `key` at or after `i` (the length when there is
/// none).
pub open spec fn key_index(ps: Seq<(Seq<char>, Seq<char>)>, key: Seq<char>, i: int) -> int
    decreases ps.len() - i,
{
    if i >= ps.len() {
        ps.len() as int
    } else if i >= 0 && ps[i].0 == key {
        i
    } else {
        key_index(ps, key, i + 1)
    }
}

/// `ps` with `key` set to `value`: in place where the key is present, else at the end.
pub open spec fn with_property(
    ps: Seq<(Seq<char>, Seq<char>)>,
    key: Seq<char>,
    value: Seq<char>,
) -> Seq<(Seq<char>, Seq<char>)> {
    let i = key_index(ps, key, 0);
    if i < ps.len() {
        ps.update(i, (key, value))
    } else {
        ps.push((key, value))
    }
}

pub open spec fn props_view(v: Seq<(String, String)>) -> Seq<(Seq<char>, Seq<char>)> {
    Seq::new(v.len(), |k: int| (v[k].0@, v[k].1@))
}

/// The cells of a table row: the pieces between `|` inside the outer bars.
pub open spec fn row_cells(l: Seq<char>) -> Seq<Seq<char>> {
    split_on(strip_char(trim(l), '|'), '|')
}

/// One plain-text cell per piece of the row, trimmed.
pub open spec fn row_ok(cells: Vec<Vec<Inline>>, l: Seq<char>) -> bool {
    &&& cells@.len() == row_cells(l).len()
    &&& forall|k: int|
        0 <= k < cells@.len() ==> (#[trigger] cells@[k])@.len() == 1 && (cells@[k]@[0] matches Inline::Text {
            text,
        } && text@ == trim(row_cells(l)[k]))
}

/// Block `b` is what the lines `p.0..p.1` give: a run of table rows, the first of them also
/// the header, or one line as a paragraph of its plain text.
pub open spec fn piece_ok(b: Block, ls: Seq<Seq<char>>, p: (int, int)) -> bool {
    if bar_line(ls[p.0]) {
        b matches Block::Container {
            container: ContainerBlock::Table { headers, rows, alignments, caption },
        } && alignments is None && caption is None && row_ok(headers, ls[p.0]) && rows@.len() == p.1
            - p.0 && forall|k: int| 0 <= k < rows@.len() ==> row_ok(#[trigger] rows@[k], ls[p.0 + k])
    } else {
        b matches Block::Leaf { leaf: LeafBlock::Paragraph { content } } && content@.len() == 1 && (
        content@[0] matches Inline::Text { text } && text@ == ls[p.0])
    }
}

/// The blocks are those of the line ranges `pieces`, in order.
pub open spec fn body_ok(body: Vec<Block>, ls: Seq<Seq<char>>, pieces: Seq<(int, int)>) -> bool {
    &&& body@.len() == pieces.len()
    &&& forall|k: int| 0 <= k < pieces.len() ==> piece_ok(#[trigger] body@[k], ls, pieces[k])
}

/// The lines from `i` to the next heading folded into a heading's content: `pieces` gains the
/// line range of each body block (one line of paragraph, or a run of table rows) and `props`
/// each property, as `with_property` sets it.
pub open spec fn content_run(
    ls: Seq<Seq<char>>,
    i: int,
    pieces: Seq<(int, int)>,
    props: Seq<(Seq<char>, Seq<char>)>,
) -> (Seq<(int, int)>, Seq<(Seq<char>, Seq<char>)>)
    decreases ls.len() - i,
    via content_run_decreases
{
    if i < 0 || i >= ls.len() || heading_line(ls[i]) {
        (pieces, props)
    } else if prop_of(ls[i]) is Some {
        let kv = prop_of(ls[i])->0;
        content_run(ls, i + 1, pieces, with_property(props, kv.0, kv.1))
    } else if bar_line(ls[i]) {
        content_run(ls, bar_run_end(ls, i + 1), pieces.push((i, bar_run_end(ls, i + 1))), props)
    } else {
        content_run(ls, i + 1, pieces.push((i, i + 1)), props)
    }
}

#[via_fn]
proof fn content_run_decreases(
    ls: Seq<Seq<char>>,
    i: int,
    pieces: Seq<(int, int)>,
    props: Seq<(Seq<char>, Seq<char>)>,
) {
    if 0 <= i < ls.len() {
        lemma_bar_run_end(ls, i + 1);
    }
}

/// Node `n` has the level, keyword, title and tags of the heading on line `j`.
pub open spec fn head_ok(n: OrgNode, ls: Seq<Seq<char>>, j: int) -> bool {
    &&& 0 <= j < ls.len()
    &&& heading_line(ls[j])
    &&& n.id is None
    &&& n.level as int == org_level(ls[j])
    &&& heading_fields_ok(n.todo, n.title, n.tags, ls[j])
}

/// Node `n` has the properties and body that the lines after its heading on line `j` give,
/// up to the next heading.
pub open spec fn content_ok(n: OrgNode, ls: Seq<Seq<char>>, j: int) -> bool {
    let f = content_run(ls, j + 1, seq![], seq![]);
    props_view(n.properties@) == f.1 && body_ok(n.body, ls, f.0)
}

/// Node `n` is the one made from the heading on line `j`: its fields from that line, its
/// content from the lines up to the next heading, and its children the headings of its
/// subtree.
pub open spec fn node_at(n: OrgNode, ls: Seq<Seq<char>>, j: int) -> bool
    decreases n, 0int,
{
    &&& head_ok(n, ls, j)
    &&& content_ok(n, ls, j)
    &&& kids_at(n.children, ls, next_heading(ls, j + 1), subtree_end(ls, j), 0)
}

/// The nodes of `v` from `k` on are made from the headings starting at line `p`, each
/// following where the subtree of the one before ends, the last ending at `e`.
pub open spec fn kids_at(v: Vec<OrgNode>, ls: Seq<Seq<char>>, p: int, e: int, k: int) -> bool
    decreases v, v@.len() - k,
    via kids_at_decreases
{
    if k < 0 || k >= v@.len() {
        p == e
    } else {
        p < e && node_at(v@[k], ls, p) && kids_at(v, ls, subtree_end(ls, p), e, k + 1)
    }
}

#[via_fn]
proof fn kids_at_decreases(v: Vec<OrgNode>, ls: Seq<Seq<char>>, p: int, e: int, k: int) {
    if 0 <= k < v@.len() {
        assert(decreases_to!(v => v[k]));
    }
}

proof fn lemma_kids_push(
    v1: Vec<OrgNode>,
    v2: Vec<OrgNode>,
    x: OrgNode,
    ls: Seq<Seq<char>>,
    a: int,
    p: int,
    e: int,
    k: int,
)
    requires
        0 <= k <= v1@.len(),
        v2@ == v1@.push(x),
        kids_at(v1, ls, a, p, k),
        node_at(x, ls, p),
        subtree_end(ls, p) == e,
    ensures
        kids_at(v2, ls, a, e, k),
    decreases v1@.len() - k,
{
    lemma_close_at_bounds(ls, org_level(ls[p]), p + 1);
    assert(v2@[v1@.len() as int] == x);
    if k == v1@.len() {
        assert(kids_at(v2, ls, e, e, k + 1));
    } else {
        assert(v2@[k] == v1@[k]);
        lemma_kids_push(v1, v2, x, ls, subtree_end(ls, a), p, e, k + 1);
    }
}

/// Every heading after line `h` and before line `i` lies deeper than `lv`.
pub open spec fn deeper_until(ls: Seq<Seq<char>>, h: int, i: int, lv: int) -> bool {
    forall|q: int| h < q < i && heading_line(#[trigger] ls[q]) ==> org_level(ls[q]) > lv
}

/// The open headings after `i` lines: each made from its line in `hs`, with only deeper
/// headings after it, at levels that rise up the stack.
pub open spec fn stack_lines_ok(st: Seq<OrgNode>, hs: Seq<int>, ls: Seq<Seq<char>>, i: int) -> bool {
    &&& hs.len() == st.len()
    &&& forall|t: int|
        0 <= t < st.len() ==> head_ok(#[trigger] st[t], ls, hs[t]) && hs[t] < i && deeper_until(
            ls,
            hs[t],
            i,
            st[t].level as int,
        )
    &&& forall|a: int, b: int| 0 <= a < b < st.len() ==> (#[trigger] st[a]).level < (#[trigger] st[b]).level
}

/// Where the last finished child of the open heading at stack position `t` ends.
pub open spec fn closing_at(hs: Seq<int>, t: int, i: int) -> int {
    if t + 1 < hs.len() {
        hs[t + 1]
    } else {
        i
    }
}

/// An open heading with its content and its finished children, the last ending at `e`.
pub open spec fn open_at(n: OrgNode, ls: Seq<Seq<char>>, h: int, e: int) -> bool {
    &&& head_ok(n, ls, h)
    &&& content_ok(n, ls, h)
    &&& kids_at(n.children, ls, next_heading(ls, h + 1), e, 0)
}

/// The innermost open heading, on line `h`, after `i` lines: no children yet, and `mp` and
/// its properties are where the fold of its content stands at line `i`.
pub open spec fn top_open(n: OrgNode, ls: Seq<Seq<char>>, h: int, i: int, mp: Seq<(int, int)>) -> bool {
    &&& n.children@.len() == 0
    &&& forall|q: int| h < q < i ==> !heading_line(#[trigger] ls[q])
    &&& content_run(ls, i, mp, props_view(n.properties@)) == content_run(ls, h + 1, seq![], seq![])
    &&& body_ok(n.body, ls, mp)
}

proof fn lemma_top_done(n: OrgNode, ls: Seq<Seq<char>>, h: int, i: int, mp: Seq<(int, int)>)
    requires
        head_ok(n, ls, h),
        h < i <= ls.len(),
        i == ls.len() || heading_line(ls[i]),
        top_open(n, ls, h, i, mp),
    ensures
        open_at(n, ls, h, i),
{
    lemma_next_heading_is(ls, h + 1, i);
    assert(content_run(ls, i, mp, props_view(n.properties@)) == (mp, props_view(n.properties@)));
}

/// A heading line: level (stars, at most 255), an all-uppercase keyword, title words and
/// `:tag:` words.
fn parse_heading(line: &Vec<char>) -> (r: Option<(u8, Option<String>, Vec<Inline>, Vec<String>)>)
    ensures
        r is Some == heading_line(line@),
        r matches Some((level, _, _, _)) ==> level as int == if crate::text::run_end(
            trim_start(line@),
            '*',
            0,
        ) > 255 {
            255
        } else {
            crate::text::run_end(trim_start(line@), '*', 0)
        },
        r matches Some((_, todo, title, tags)) ==> heading_fields_ok(todo, title, tags, line@),
{
    let t = trim_start_chars(line);
    let star = vec!['*'];
    assert(star@ =~= seq!['*']);
    if !starts_with(&t, &star) {
        return None;
    }
    let n = crate::text::run_len(&t, '*');
    let level: u8 = if n > 255 {
        255
    } else {
        n as u8
    };
    let rest = trim_chars(&subvec(&t, n, t.len()));
    let parts = words(&rest);
    let ghost ws = parts.deep_view();
    assert(ws == heading_words(line@));
    let mut todo: Option<String> = None;
    let mut title: Vec<Inline> = Vec::new();
    let mut tags: Vec<String> = Vec::new();
    let mut i: usize = 0;
    if parts.len() > 0 && all_upper(&parts[0]) {
        assert(ws[0] == parts@[0]@);
        todo = Some(string_of(&parts[0]));
        i = 1;
    } else {
        proof {
            if parts.len() > 0 {
                assert(ws[0] == parts@[0]@);
            }
        }
    }
    let ghost i0 = i as int;
    assert(i0 == if has_keyword(ws) {
        1int
    } else {
        0int
    });
    let mut done = false;
    while i < parts.len() && !done
        invariant
            ws == parts.deep_view(),
            i0 == if has_keyword(ws) {
                1int
            } else {
                0int
            },
            i0 <= i <= parts.len(),
            tag_at(ws, i as int) == tag_at(ws, i0),
            !done ==> title@.len() == i - i0 && tags@.len() == 0,
            !done ==> forall|k: int|
                0 <= k < title@.len() ==> ((#[trigger] title@[k]) matches Inline::Text { text }
                    && text@ == ws[i0 + k]),
            done ==> title@.len() == title_words(ws).len() && forall|k: int|
                0 <= k < title@.len() ==> ((#[trigger] title@[k]) matches Inline::Text { text }
                    && text@ == title_words(ws)[k]),
            done ==> tags@.len() == heading_tags(ws).len() && forall|k: int|
                0 <= k < tags@.len() ==> (#[trigger] tags@[k])@ == heading_tags(ws)[k],
        decreases parts.len() - i + (if done {
            0int
        } else {
            1int
        }),
    {
        let part = &parts[i];
        assert(ws[i as int] == part@);
        if part.len() > 0 && part[0] == ':' && part[part.len() - 1] == ':' {
            assert(tag_word(ws[i as int]));
            assert(tag_at(ws, i as int) == i);
            assert(tag_at(ws, i0) == i as int);
            let inner = trim_char(part, ':');
            let pieces = split_chars(&inner, ':');
            let ghost ps = pieces.deep_view();
            assert(ps == heading_tags(ws));
            let mut k: usize = 0;
            while k < pieces.len()
                invariant
                    k <= pieces.len(),
                    ps == pieces.deep_view(),
                    tags@.len() == k,
                    forall|m: int| 0 <= m < k ==> (#[trigger] tags@[m])@ == ps[m],
                decreases pieces.len() - k,
            {
                assert(ps[k as int] == pieces@[k as int]@);
                tags.push(string_of(&pieces[k]));
                k = k + 1;
            }
            proof {
                assert(title_words(ws) =~= ws.subrange(i0, i as int));
            }
            done = true;
        } else {
            assert(!tag_word(ws[i as int]));
            let ghost before = title@;
            title.push(Inline::Text { text: string_of(part) });
            proof {
                assert forall|k: int|
                    0 <= k < title@.len() implies ((#[trigger] title@[k]) matches Inline::Text { text }
                        && text@ == ws[i0 + k]) by {
                    if k < before.len() {
                        assert(title@[k] == before[k]);
                    }
                }
            }
            i = i + 1;
        }
    }
    proof {
        if !done {
            assert(i == parts.len());
            assert(tag_at(ws, i as int) == i);
            assert(title_words(ws) =~= ws.subrange(i0, i as int));
            assert(heading_tags(ws) =~= Seq::<Seq<char>>::empty());
        }
    }
    Some((level, todo, title, tags))
}

/// A `:KEY: value` line.
fn parse_property(line: &Vec<char>) -> (r: Option<(String, String)>)
    ensures
        r is Some == prop_of(line@) is Some,
        r matches Some((k, v)) ==> prop_of(line@) == Some((k@, v@)),
{
    if line.len() == 0 || line[0] != ':' {
        return None;
    }
    let inner = trim_char(line, ':');
    let mut k: usize = 0;
    while k < inner.len() && inner[k] != ':'
        invariant
            k <= inner.len(),
            first_of(inner@, ':', k as int) == first_of(inner@, ':', 0),
        decreases inner.len() - k,
    {
        k = k + 1;
    }
    if k == inner.len() {
        return None;
    }
    let key = trim_chars(&subvec(&inner, 0, k));
    let value = trim_chars(&subvec(&inner, k + 1, inner.len()));
    Some((string_of(&key), string_of(&value)))
}

/// The cells of a `| a | b |` row.
fn table_row(line: &Vec<char>) -> (r: Vec<Vec<Inline>>)
    ensures
        row_ok(r, line@),
{
    let t = trim_char(&trim_chars(line), '|');
    let pieces = split_chars(&t, '|');
    let mut cells: Vec<Vec<Inline>> = Vec::new();
    let mut k: usize = 0;
    while k < pieces.len()
        invariant
            k <= pieces.len(),
            pieces.deep_view() == row_cells(line@),
            cells@.len() == k,
            forall|q: int|
                0 <= q < k ==> (#[trigger] cells@[q])@.len() == 1 && (cells@[q]@[0] matches Inline::Text {
                    text,
                } && text@ == trim(row_cells(line@)[q])),
        decreases pieces.len() - k,
    {
        assert(pieces@[k as int]@ == pieces.deep_view()[k as int]);
        let mut cell: Vec<Inline> = Vec::new();
        cell.push(Inline::Text { text: string_of(&trim_chars(&pieces[k])) });
        cells.push(cell);
        k = k + 1;
    }
    cells
}

fn starts_with_bar(l: &Vec<char>) -> (r: bool)
    ensures
        r == bar_line(l@),
{
    let t = trim_start_chars(l);
    t.len() > 0 && t[0] == '|'
}

/// Sets a property, replacing the value of an existing key.
fn set_property(props: &mut Vec<(String, String)>, key: String, value: String)
    ensures
        props_view(final(props)@) == with_property(props_view(old(props)@), key@, value@),
{
    let ghost pv = props_view(props@);
    let mut i: usize = 0;
    while i < props.len()
        invariant
            i <= props.len(),
            *props == *old(props),
            pv == props_view(props@),
            key_index(pv, key@, i as int) == key_index(pv, key@, 0),
        decreases props.len() - i,
    {
        if crate::text::str_eq(props[i].0.as_str(), key.as_str()) {
            props.set(i, (key, value));
            assert(props_view(props@) =~= pv.update(i as int, (key@, value@)));
            return;
        }
        i = i + 1;
    }
    props.push((key, value));
    assert(props_view(props@) =~= pv.push((key@, value@)));
}

/// Puts a finished node, made from the heading on line `p` and ending at `e`, under the open
/// heading above it, or at the top level.
fn attach_node(
    root: &mut Vec<OrgNode>,
    stack: &mut Vec<OrgNode>,
    node: OrgNode,
    ls: Ghost<Seq<Seq<char>>>,
    hs: Ghost<Seq<int>>,
    p: Ghost<int>,
    e: Ghost<int>,
)
    requires
        old(stack)@.len() == hs@.len(),
        old(stack)@.len() > 0 ==> open_at(old(stack)@.last(), ls@, hs@.last(), p@),
        old(stack)@.len() == 0 ==> kids_at(*old(root), ls@, next_heading(ls@, 0), p@, 0),
        node_at(node, ls@, p@),
        subtree_end(ls@, p@) == e@,
    ensures
        final(stack)@.len() == old(stack)@.len(),
        forall|t: int| 0 <= t < old(stack)@.len() - 1 ==> final(stack)@[t] == old(stack)@[t],
        old(stack)@.len() > 0 ==> open_at(final(stack)@.last(), ls@, hs@.last(), e@),
        old(stack)@.len() > 0 ==> final(stack)@.last().level == old(stack)@.last().level,
        old(stack)@.len() > 0 ==> *final(root) == *old(root),
        old(stack)@.len() == 0 ==> kids_at(*final(root), ls@, next_heading(ls@, 0), e@, 0),
{
    match stack.pop() {
        Some(mut parent) => {
            let ghost old_children = parent.children;
            parent.children.push(node);
            proof {
                lemma_kids_push(
                    old_children,
                    parent.children,
                    node,
                    ls@,
                    next_heading(ls@, hs@.last() + 1),
                    p@,
                    e@,
                    0,
                );
            }
            stack.push(parent);
        },
        None => {
            let ghost pre = *root;
            root.push(node);
            proof {
                lemma_kids_push(pre, *root, node, ls@, next_heading(ls@, 0), p@, e@, 0);
            }
        },
    }
}

/// The level a heading line gets: its stars, at most 255.
pub open spec fn org_level(l: Seq<char>) -> int {
    let n = crate::text::run_end(trim_start(l), '*', 0);
    if n > 255 {
        255
    } else {
        n
    }
}

/// Closes the open headings at `level` or deeper, each going under the heading below it or to
/// the top level. Line `i` is the heading at `level` that closes them, or the end of the
/// lines, where `level` is 0 and all of them close.
fn close_open(
    root: &mut Vec<OrgNode>,
    stack: &mut Vec<OrgNode>,
    level: u8,
    ls: Ghost<Seq<Seq<char>>>,
    hs: Ghost<Seq<int>>,
    i: Ghost<int>,
) -> (hs2: Ghost<Seq<int>>)
    requires
        0 <= i@ <= ls@.len(),
        i@ < ls@.len() ==> heading_line(ls@[i@]) && org_level(ls@[i@]) == level as int,
        i@ == ls@.len() ==> level == 0,
        stack_lines_ok(old(stack)@, hs@, ls@, i@),
        forall|t: int|
            0 <= t < old(stack)@.len() ==> open_at(#[trigger] old(stack)@[t], ls@, hs@[t], closing_at(hs@, t, i@)),
        old(stack)@.len() > 0 ==> kids_at(*old(root), ls@, next_heading(ls@, 0), hs@[0], 0),
        old(stack)@.len() == 0 ==> kids_at(*old(root), ls@, next_heading(ls@, 0), i@, 0),
    ensures
        stack_lines_ok(final(stack)@, hs2@, ls@, i@),
        forall|t: int|
            0 <= t < final(stack)@.len() ==> open_at(#[trigger] final(stack)@[t], ls@, hs2@[t], closing_at(hs2@, t, i@)),
        final(stack)@.len() > 0 ==> kids_at(*final(root), ls@, next_heading(ls@, 0), hs2@[0], 0),
        final(stack)@.len() == 0 ==> kids_at(*final(root), ls@, next_heading(ls@, 0), i@, 0),
        final(stack)@.len() > 0 ==> final(stack)@.last().level < level,
{
    let ghost mut hv = hs@;
    while stack.len() > 0 && stack[stack.len() - 1].level >= level
        invariant
            0 <= i@ <= ls@.len(),
            i@ < ls@.len() ==> heading_line(ls@[i@]) && org_level(ls@[i@]) == level as int,
            i@ == ls@.len() ==> level == 0,
            stack_lines_ok(stack@, hv, ls@, i@),
            forall|t: int| 0 <= t < stack@.len() ==> open_at(#[trigger] stack@[t], ls@, hv[t], closing_at(hv, t, i@)),
            stack@.len() > 0 ==> kids_at(*root, ls@, next_heading(ls@, 0), hv[0], 0),
            stack@.len() == 0 ==> kids_at(*root, ls@, next_heading(ls@, 0), i@, 0),
        decreases stack.len(),
    {
        let ghost pre = stack@;
        let ghost pre_hs = hv;
        let ghost h = hv.last();
        let finished = stack.pop().unwrap();
        proof {
            let t = pre.len() - 1;
            assert(pre[t] == finished);
            assert(open_at(pre[t], ls@, hv[t], closing_at(hv, t, i@)));
            assert(head_ok(pre[t], ls@, hv[t]) && hv[t] < i@ && deeper_until(ls@, hv[t], i@, pre[t].level as int));
            lemma_close_at_is(ls@, finished.level as int, h + 1, i@);
            assert(node_at(finished, ls@, h));
            hv = hv.drop_last();
            if stack@.len() > 0 {
                let u = stack@.len() - 1;
                assert(stack@[u] == pre[u]);
                assert(open_at(pre[u], ls@, pre_hs[u], closing_at(pre_hs, u, i@)));
            }
        }
        attach_node(root, stack, finished, ls, Ghost(hv), Ghost(h), i);
        proof {
            assert forall|t: int| 0 <= t < stack@.len() implies open_at(#[trigger] stack@[t], ls@, hv[t], closing_at(hv, t, i@)) by {
                if t < stack@.len() - 1 {
                    assert(stack@[t] == pre[t]);
                    assert(open_at(pre[t], ls@, pre_hs[t], closing_at(pre_hs, t, i@)));
                }
            }
            assert forall|t: int| 0 <= t < stack@.len() implies head_ok(#[trigger] stack@[t], ls@, hv[t]) && hv[t] < i@
                && deeper_until(ls@, hv[t], i@, stack@[t].level as int) by {
                assert(head_ok(pre[t], ls@, pre_hs[t]) && pre_hs[t] < i@ && deeper_until(ls@, pre_hs[t], i@, pre[t].level as int));
                if t < stack@.len() - 1 {
                    assert(stack@[t] == pre[t]);
                } else {
                    assert(open_at(stack@[t], ls@, hv[t], closing_at(hv, t, i@)));
                }
            }
            assert forall|a: int, b: int| 0 <= a < b < stack@.len() implies (#[trigger] stack@[a]).level < (#[trigger] stack@[b]).level by {
                assert(pre[a].level < pre[b].level);
                assert(stack@[a] == pre[a]);
                if b < stack@.len() - 1 {
                    assert(stack@[b] == pre[b]);
                }
            }
            if stack@.len() > 0 {
                assert(hv[0] == pre_hs[0]);
            }
        }
    }
    Ghost(hv)
}

/// Builds the heading tree of an Org text: each heading closes the open headings of its level
/// or deeper; property lines go to the innermost open heading, runs of table rows and other
/// lines to its body. Text before the first heading is dropped. The top-level nodes are made
/// from the headings from the first one on, each following where the subtree of the one
/// before ends, so the tree holds every heading once, in the order of the lines.
#[verifier::rlimit(80)]
pub fn parse_org(input: &str) -> (r: OrgDocument)
    ensures
        kids_at(
            r.nodes,
            lines_of(input@),
            next_heading(lines_of(input@), 0),
            lines_of(input@).len() as int,
            0,
        ),
        r.nodes@.len() == 0 <==> !heading_seen(lines_of(input@), lines_of(input@).len() as int),
{
    let lines = lines_of_str(input);
    let ghost ls = lines.deep_view();
    let mut root: Vec<OrgNode> = Vec::new();
    let mut stack: Vec<OrgNode> = Vec::new();
    let ghost mut hs: Seq<int> = Seq::empty();
    let ghost mut mp: Seq<(int, int)> = Seq::empty();
    let mut i: usize = 0;
    while i < lines.len()
        invariant
            ls == lines.deep_view(),
            i <= lines.len(),
            stack_lines_ok(stack@, hs, ls, i as int),
            forall|t: int| 0 <= t < stack@.len() - 1 ==> open_at(#[trigger] stack@[t], ls, hs[t], hs[t + 1]),
            stack@.len() > 0 ==> top_open(stack@.last(), ls, hs.last(), i as int, mp),
            stack@.len() > 0 ==> kids_at(root, ls, next_heading(ls, 0), hs[0], 0),
            stack@.len() == 0 ==> root@.len() == 0,
            stack@.len() == 0 ==> forall|q: int| 0 <= q < i ==> !heading_line(#[trigger] ls[q]),
        decreases lines.len() - i,
    {
        assert(ls[i as int] == lines@[i as int]@);
        let line = &lines[i];
        if let Some((level, todo, title, tags)) = parse_heading(line) {
            proof {
                assert(level as int == org_level(ls[i as int]));
                if stack@.len() > 0 {
                    let t = stack@.len() - 1;
                    assert(head_ok(stack@[t], ls, hs[t]) && hs[t] < i);
                    lemma_top_done(stack@[t], ls, hs[t], i as int, mp);
                } else {
                    lemma_next_heading_is(ls, 0, i as int);
                }
            }
            let hs2 = close_open(&mut root, &mut stack, level, Ghost(ls), Ghost(hs), Ghost(i as int));
            let ghost mid = stack@;
            let node = OrgNode {
                id: None,
                level,
                title,
                todo,
                tags,
                properties: Vec::new(),
                body: Vec::new(),
                children: Vec::new(),
            };
            stack.push(node);
            proof {
                hs = hs2@.push(i as int);
                mp = Seq::empty();
                let m = mid.len();
                assert(stack@[m as int] == node);
                assert(props_view(node.properties@) =~= seq![]);
                assert forall|t: int| 0 <= t < stack@.len() - 1 implies open_at(#[trigger] stack@[t], ls, hs[t], hs[t + 1]) by {
                    assert(stack@[t] == mid[t]);
                    assert(open_at(mid[t], ls, hs2@[t], closing_at(hs2@, t, i as int)));
                }
                assert forall|t: int| 0 <= t < stack@.len() implies head_ok(#[trigger] stack@[t], ls, hs[t]) && hs[t] < i + 1
                    && deeper_until(ls, hs[t], i + 1, stack@[t].level as int) by {
                    if t < m {
                        assert(stack@[t] == mid[t]);
                        assert(head_ok(mid[t], ls, hs2@[t]) && hs2@[t] < i && deeper_until(ls, hs2@[t], i as int, mid[t].level as int));
                        if t < m - 1 {
                            assert(mid[t].level < mid[m - 1].level);
                        }
                    }
                }
                assert forall|a: int, b: int| 0 <= a < b < stack@.len() implies (#[trigger] stack@[a]).level < (#[trigger] stack@[b]).level by {
                    assert(stack@[a] == mid[a]);
                    if b < m {
                        assert(stack@[b] == mid[b]);
                    } else if a < m - 1 {
                        assert(mid[a].level < mid[m - 1].level);
                    }
                }
                if m > 0 {
                    assert(hs[0] == hs2@[0]);
                }
            }
            i = i + 1;
        } else {
            let start = i;
            let ghost mp0 = mp;
            let prop = parse_property(line);
            let ghost mut added = false;
            let mut block: Option<Block> = None;
            if prop.is_none() {
                if starts_with_bar(line) {
                    let mut rows: Vec<Vec<Vec<Inline>>> = Vec::new();
                    let headers: Vec<Vec<Inline>> = table_row(line);
                    rows.push(table_row(line));
                    i = i + 1;
                    while i < lines.len() && starts_with_bar(&lines[i])
                        invariant
                            ls == lines.deep_view(),
                            start < i <= lines.len(),
                            bar_line(ls[start as int]),
                            bar_run_end(ls, i as int) == bar_run_end(ls, start + 1),
                            rows@.len() == i - start,
                            forall|k: int| 0 <= k < rows@.len() ==> row_ok(#[trigger] rows@[k], ls[start + k]),
                            forall|q: int| start <= q < i ==> bar_line(#[trigger] ls[q]),
                        decreases lines.len() - i,
                    {
                        assert(ls[i as int] == lines@[i as int]@);
                        rows.push(table_row(&lines[i]));
                        i = i + 1;
                    }
                    proof {
                        if i < lines.len() {
                            assert(ls[i as int] == lines@[i as int]@);
                        }
                        assert(bar_run_end(ls, i as int) == i);
                    }
                    block = Some(Block::Container {
                        container: ContainerBlock::Table { headers, rows, alignments: None, caption: None },
                    });
                } else {
                    let mut content: Vec<Inline> = Vec::new();
                    content.push(Inline::Text { text: string_of(line) });
                    block = Some(Block::Leaf { leaf: LeafBlock::Paragraph { content } });
                    i = i + 1;
                }
                proof {
                    added = true;
                }
            } else {
                i = i + 1;
            }
            proof {
                assert(!heading_line(ls[start as int]));
                assert forall|q: int| start <= q < i implies !heading_line(#[trigger] ls[q]) by {
                    lemma_bar_not_heading(ls[q]);
                }
                assert(added == block is Some);
                if added {
                    assert(piece_ok(block->0, ls, (start as int, i as int)));
                }
            }
            let ghost pre = stack@;
            let ghost gp = prop_of(ls[start as int]);
            let ghost kv = gp->0;
            match stack.pop() {
                Some(mut top) => {
                    let ghost top0 = top;
                    match prop {
                        Some((k, v)) => {
                            set_property(&mut top.properties, k, v);
                            proof {
                                assert(props_view(top.properties@) == with_property(
                                    props_view(top0.properties@),
                                    kv.0,
                                    kv.1,
                                ));
                            }
                        },
                        None => {},
                    }
                    match block {
                        Some(b) => {
                            top.body.push(b);
                        },
                        None => {},
                    }
                    stack.push(top);
                    proof {
                        let t = pre.len() - 1;
                        assert(top0 == pre[t]);
                        let pv = props_view(top0.properties@);
                        let mp2 = if added {
                            mp.push((start as int, i as int))
                        } else {
                            mp
                        };
                        if gp is None {
                            assert(top.properties == top0.properties);
                        }
                        assert(content_run(ls, start as int, mp0, pv) == content_run(
                            ls,
                            i as int,
                            mp2,
                            props_view(top.properties@),
                        ));
                        assert forall|k: int| 0 <= k < mp2.len() implies piece_ok(#[trigger] top.body@[k], ls, mp2[k]) by {
                            if k < mp.len() {
                                assert(top0.body@[k] == top.body@[k]);
                                assert(piece_ok(top0.body@[k], ls, mp[k]));
                            }
                        }
                        mp = mp2;
                        assert(stack@[t] == top);
                        assert(top_open(pre[t], ls, hs[t], start as int, mp0));
                        assert forall|q: int| hs[t] < q < i implies !heading_line(#[trigger] ls[q]) by {
                            if q < start {
                                assert(!heading_line(ls[q]));
                            }
                        }
                    }
                },
                None => {},
            }
            proof {
                assert forall|t: int| 0 <= t < stack@.len() implies head_ok(#[trigger] stack@[t], ls, hs[t]) && hs[t] < i
                    && deeper_until(ls, hs[t], i as int, stack@[t].level as int) by {
                    assert(head_ok(pre[t], ls, hs[t]) && hs[t] < start && deeper_until(ls, hs[t], start as int, pre[t].level as int));
                    if t < stack@.len() - 1 {
                        assert(stack@[t] == pre[t]);
                    }
                }
                assert forall|a: int, b: int| 0 <= a < b < stack@.len() implies (#[trigger] stack@[a]).level < (#[trigger] stack@[b]).level by {
                    assert(pre[a].level < pre[b].level);
                    assert(stack@[a] == pre[a]);
                    if b < stack@.len() - 1 {
                        assert(stack@[b] == pre[b]);
                    }
                }
                assert forall|t: int| 0 <= t < stack@.len() - 1 implies open_at(#[trigger] stack@[t], ls, hs[t], hs[t + 1]) by {
                    assert(stack@[t] == pre[t]);
                    assert(open_at(pre[t], ls, hs[t], hs[t + 1]));
                }
                if stack@.len() == 0 {
                    assert forall|q: int| 0 <= q < i implies !heading_line(#[trigger] ls[q]) by {
                        if q < start {
                            assert(!heading_line(ls[q]));
                        }
                    }
                }
            }
        }
    }
    let ghost hs_end = hs;
    proof {
        if stack@.len() > 0 {
            let t = stack@.len() - 1;
            assert(head_ok(stack@[t], ls, hs[t]) && hs[t] < i);
            lemma_top_done(stack@[t], ls, hs[t], i as int, mp);
        } else {
            lemma_next_heading_is(ls, 0, i as int);
        }
    }
    let _ = close_open(&mut root, &mut stack, 0, Ghost(ls), Ghost(hs_end), Ghost(i as int));
    proof {
        lemma_next_heading(ls, 0);
        if root@.len() > 0 {
            assert(heading_line(ls[next_heading(ls, 0)]));
        }
    }
    OrgDocument { nodes: root }
}

/// A node in pre-order: its heading, its body, then its sub-headings.
pub open spec fn flat_node(n: OrgNode) -> Seq<Block>
    decreases n, 0int,
{
    seq![Block::Leaf { leaf: LeafBlock::Heading { level: n.level, content: n.title } }] + n.body@
        + flat_nodes(n.children, n.children@.len() as int)
}

/// The first `k` nodes in pre-order.
pub open spec fn flat_nodes(v: Vec<OrgNode>, k: int) -> Seq<Block>
    decreases v, k,
    via flat_nodes_decreases
{
    if k <= 0 || k > v@.len() {
        Seq::empty()
    } else {
        flat_nodes(v, k - 1) + flat_node(v@[k - 1])
    }
}

#[via_fn]
proof fn flat_nodes_decreases(v: Vec<OrgNode>, k: int) {
    if 0 < k <= v@.len() {
        assert(decreases_to!(v => v[k - 1]));
    }
}

/// Appends a node's heading, its body, then its sub-headings, in pre-order.
#[verifier::rlimit(60)]
fn lower_node(node: OrgNode, out: &mut Vec<Block>)
    ensures
        final(out)@ == old(out)@ + flat_node(node),
    decreases node,
{
    let ghost orig = node;
    let ghost start = out@;
    let OrgNode { level, title, body, children, .. } = node;
    out.push(Block::Leaf { leaf: LeafBlock::Heading { level, content: title } });
    let ghost head = out@;
    let ghost body_v = body@;
    let mut body = body;
    let body_count = body.len();
    let mut m: usize = 0;
    while body.len() > 0
        invariant
            body_v.len() == body_count,
            m <= body_v.len(),
            body@ == body_v.subrange(m as int, body_v.len() as int),
            out@ == head + body_v.subrange(0, m as int),
        decreases body.len(),
    {
        assert(body@.len() == body_v.len() - m);
        let b = body.remove(0);
        out.push(b);
        m = m + 1;
        assert(out@ =~= head + body_v.subrange(0, m as int));
    }
    assert(body_v.subrange(0, m as int) =~= body_v);
    let ghost after_body = out@;
    let ghost kids = children@;
    let mut children = children;
    let kid_count = children.len();
    assert(kids.len() == kid_count);
    let mut k: usize = 0;
    assert(after_body + flat_nodes(orig.children, 0) =~= after_body);
    while children.len() > 0
        invariant
            children@ == kids.subrange(k as int, kids.len() as int),
            k <= kids.len(),
            kids.len() <= usize::MAX,
            kids == orig.children@,
            orig == node,
            out@ == after_body + flat_nodes(orig.children, k as int),
        decreases children.len(),
    {
        assert(children@.len() == kids.len() - k);
        let child = children.remove(0);
        proof {
            assert(child == kids[k as int]);
            assert(decreases_to!(orig.children => orig.children[k as int]));
            assert(decreases_to!(orig => orig.children));
            assert(decreases_to!(orig => child));
        }
        lower_node(child, out);
        k = k + 1;
        assert(out@ =~= after_body + flat_nodes(orig.children, k as int));
    }
    assert(out@ =~= start + flat_node(orig));
}

proof fn lemma_flat_first(v: Vec<OrgNode>, k: int)
    requires
        1 <= k <= v@.len(),
    ensures
        flat_nodes(v, k).len() > 0,
        flat_nodes(v, k)[0] == (Block::Leaf {
            leaf: LeafBlock::Heading { level: v@[0].level, content: v@[0].title },
        }),
    decreases k,
{
    assert(flat_nodes(v, k) == flat_nodes(v, k - 1) + flat_node(v@[k - 1]));
    if k > 1 {
        lemma_flat_first(v, k - 1);
    } else {
        assert(flat_nodes(v, 0).len() == 0);
        let h = Block::Leaf { leaf: LeafBlock::Heading { level: v@[0].level, content: v@[0].title } };
        assert(flat_node(v@[0])[0] == h);
    }
}

/// The text inlines of the first heading joined with spaces, or `Untitled`.
fn extract_title(blocks: &Vec<Block>) -> (r: String)
    ensures
        blocks@.len() > 0 ==> (blocks@[0] matches Block::Leaf {
            leaf: LeafBlock::Heading { content, .. },
        } ==> r@ == crate::parsers::inline_texts(content@)),
{
    let mut i: usize = 0;
    while i < blocks.len()
        invariant
            i <= blocks.len(),
            i > 0 ==> !(blocks@[0] matches Block::Leaf { leaf: LeafBlock::Heading { .. } }),
        decreases blocks.len() - i,
    {
        match &blocks[i] {
            Block::Leaf { leaf: LeafBlock::Heading { content, .. } } => {
                return string_of(&crate::parsers::render_texts(content));
            },
            _ => {},
        }
        i = i + 1;
    }
    "Untitled".to_owned()
}

/// Lowers a heading tree to a note: the blocks in pre-order, the id from the hint (or `org`),
/// the title from the first heading.
pub fn org_to_note(doc: OrgDocument, id_hint: Option<&str>) -> (r: Note)
    ensures
        r.id@ == match id_hint {
            Some(h) => h@,
            None => "org"@,
        },
        r.blocks@ == flat_nodes(doc.nodes, doc.nodes@.len() as int),
        doc.nodes@.len() == 0 ==> r.title@ == "Untitled"@,
        doc.nodes@.len() > 0 ==> r.title@ == crate::parsers::inline_texts(doc.nodes@[0].title@),
{
    let ghost orig = doc.nodes;
    let ghost nodes = doc.nodes@;
    let mut blocks: Vec<Block> = Vec::new();
    let mut rest = doc.nodes;
    let node_count = rest.len();
    assert(nodes.len() == node_count);
    let mut k: usize = 0;
    assert(blocks@ =~= flat_nodes(orig, 0));
    while rest.len() > 0
        invariant
            rest@ == nodes.subrange(k as int, nodes.len() as int),
            k <= nodes.len(),
            nodes.len() <= usize::MAX,
            nodes == orig@,
            blocks@ == flat_nodes(orig, k as int),
        decreases rest.len(),
    {
        assert(rest@.len() == nodes.len() - k);
        let node = rest.remove(0);
        assert(node == nodes[k as int]);
        lower_node(node, &mut blocks);
        k = k + 1;
        assert(blocks@ =~= flat_nodes(orig, k as int));
    }
    let id = match id_hint {
        Some(h) => h.to_owned(),
        None => "org".to_owned(),
    };
    proof {
        if nodes.len() > 0 {
            lemma_flat_first(orig, nodes.len() as int);
        }
    }
    let title = extract_title(&blocks);
    if blocks.len() == 0 {
        return Note { id, title: "Untitled".to_owned(), blocks };
    }
    proof {
        if nodes.len() == 0 {
            assert(flat_nodes(orig, 0).len() == 0);
        }
    }
    Note { id, title, blocks }
}

/// The Org form of one inline; inlines without one are left out.
pub open spec fn org_inline(x: Inline) -> Seq<char>
    decreases x, 0int,
{
    match x {
        Inline::Text { text } => text@,
        Inline::Bold { content } => seq!['*'] + org_run(content, content@.len() as int) + seq!['*'],
        Inline::Italic { content } => seq!['/'] + org_run(content, content@.len() as int) + seq!['/'],
        Inline::Strikethrough { content } => seq!['+'] + org_run(content, content@.len() as int)
            + seq!['+'],
        Inline::Code { code } => seq!['~'] + code@ + seq!['~'],
        Inline::Math { content } => seq!['\\', '('] + content@ + seq!['\\', ')'],
        _ => Seq::empty(),
    }
}

/// The first `n` inlines of `v` in Org form.
pub open spec fn org_run(v: Vec<Inline>, n: int) -> Seq<char>
    decreases v, n,
    via org_run_decreases
{
    if n <= 0 || n > v@.len() {
        Seq::empty()
    } else {
        org_run(v, n - 1) + org_inline(v@[n - 1])
    }
}

#[via_fn]
proof fn org_run_decreases(v: Vec<Inline>, n: int) {
    if 0 < n <= v@.len() {
        assert(decreases_to!(v => v[n - 1]));
    }
}

fn push_chars(out: &mut Vec<char>, s: &String)
    ensures
        final(out)@ == old(out)@ + s@,
{
    push_all(out, &chars_of(s.as_str()));
}

fn write_inline(inline: &Inline, out: &mut Vec<char>)
    ensures
        final(out)@ == old(out)@ + org_inline(*inline),
    decreases inline, 0int,
{
    let ghost o = out@;
    match inline {
        Inline::Text { text } => push_chars(out, text),
        Inline::Bold { content } => {
            out.push('*');
            write_inlines(content, out);
            out.push('*');
        },
        Inline::Italic { content } => {
            out.push('/');
            write_inlines(content, out);
            out.push('/');
        },
        Inline::Strikethrough { content } => {
            out.push('+');
            write_inlines(content, out);
            out.push('+');
        },
        Inline::Code { code } => {
            out.push('~');
            push_chars(out, code);
            out.push('~');
        },
        Inline::Math { content } => {
            out.push('\\');
            out.push('(');
            push_chars(out, content);
            out.push('\\');
            out.push(')');
        },
        _ => {},
    }
    assert(out@ =~= o + org_inline(*inline));
}

fn write_inlines(content: &Vec<Inline>, out: &mut Vec<char>)
    ensures
        final(out)@ == old(out)@ + org_run(*content, content@.len() as int),
    decreases content, 1int,
{
    let ghost o = out@;
    let mut k: usize = 0;
    assert(o + org_run(*content, 0) =~= o);
    while k < content.len()
        invariant
            k <= content.len(),
            out@ == o + org_run(*content, k as int),
        decreases content.len() - k,
    {
        proof {
            assert(decreases_to!(*content => content[k as int]));
        }
        write_inline(&content[k], out);
        k = k + 1;
        assert(out@ =~= o + org_run(*content, k as int));
    }
}

/// The Org form of a block: paragraphs, headings and quotes; other blocks are left out.
pub open spec fn org_block(b: Block) -> Seq<char>
    decreases b, 0int,
{
    match b {
        Block::Leaf { leaf: LeafBlock::Paragraph { content } } => org_run(
            content,
            content@.len() as int,
        ) + seq!['\n'],
        Block::Leaf { leaf: LeafBlock::Heading { level, content } } => Seq::new(
            level as nat,
            |_i: int| '*',
        ) + seq![' '] + org_run(content, content@.len() as int) + seq!['\n'],
        Block::Container { container: ContainerBlock::Quote { blocks } } => quote_open() + org_blocks(
            blocks,
            blocks@.len() as int,
        ) + quote_close(),
        _ => Seq::empty(),
    }
}

pub open spec fn quote_open() -> Seq<char> {
    seq!['#', '+', 'b', 'e', 'g', 'i', 'n', '_', 'q', 'u', 'o', 't', 'e', '\n']
}

pub open spec fn quote_close() -> Seq<char> {
    seq!['#', '+', 'e', 'n', 'd', '_', 'q', 'u', 'o', 't', 'e', '\n']
}

/// The first `n` blocks in Org form.
pub open spec fn org_blocks(v: Vec<Block>, n: int) -> Seq<char>
    decreases v, n,
    via org_blocks_decreases
{
    if n <= 0 || n > v@.len() {
        Seq::empty()
    } else {
        org_blocks(v, n - 1) + org_block(v@[n - 1])
    }
}

#[via_fn]
proof fn org_blocks_decreases(v: Vec<Block>, n: int) {
    if 0 < n <= v@.len() {
        assert(decreases_to!(v => v[n - 1]));
    }
}

#[verifier::rlimit(60)]
fn write_block(block: &Block, out: &mut Vec<char>)
    ensures
        final(out)@ == old(out)@ + org_block(*block),
    decreases block,
{
    let ghost o = out@;
    match block {
        Block::Leaf { leaf: LeafBlock::Paragraph { content } } => {
            write_inlines(content, out);
            out.push('\n');
        },
        Block::Leaf { leaf: LeafBlock::Heading { level, content } } => {
            let mut l: u8 = 0;
            while l < *level
                invariant
                    l <= *level,
                    out@ == o + Seq::new(l as nat, |_i: int| '*'),
                decreases *level - l,
            {
                out.push('*');
                l = l + 1;
                assert(out@ =~= o + Seq::new(l as nat, |_i: int| '*'));
            }
            out.push(' ');
            write_inlines(content, out);
            out.push('\n');
        },
        Block::Container { container: ContainerBlock::Quote { blocks } } => {
            let open = vec!['#', '+', 'b', 'e', 'g', 'i', 'n', '_', 'q', 'u', 'o', 't', 'e', '\n'];
            assert(open@ =~= quote_open());
            push_all(out, &open);
            let ghost after_open = out@;
            let mut k: usize = 0;
            assert(after_open + org_blocks(*blocks, 0) =~= after_open);
            while k < blocks.len()
                invariant
                    k <= blocks.len(),
                    decreases_to!(*block => *blocks),
                    out@ == after_open + org_blocks(*blocks, k as int),
                decreases blocks.len() - k,
            {
                proof {
                    assert(decreases_to!(*blocks => blocks[k as int]));
                }
                write_block(&blocks[k], out);
                k = k + 1;
                assert(out@ =~= after_open + org_blocks(*blocks, k as int));
            }
            let close = vec!['#', '+', 'e', 'n', 'd', '_', 'q', 'u', 'o', 't', 'e', '\n'];
            assert(close@ =~= quote_close());
            push_all(out, &close);
        },
        _ => {},
    }
    assert(out@ =~= o + org_block(*block));
}

/// Org text for a note's paragraphs, headings and quotes, in order.
pub fn note_to_org(note: &Note) -> (r: String)
    ensures
        r@ == org_blocks(note.blocks, note.blocks@.len() as int),
{
    let mut out: Vec<char> = Vec::new();
    let mut k: usize = 0;
    assert(out@ =~= org_blocks(note.blocks, 0));
    while k < note.blocks.len()
        invariant
            k <= note.blocks.len(),
            out@ == org_blocks(note.blocks, k as int),
        decreases note.blocks.len() - k,
    {
        write_block(&note.blocks[k], &mut out);
        k = k + 1;
        assert(out@ =~= org_blocks(note.blocks, k as int));
    }
    string_of(&out)
}

/// A node's tags, then those of its sub-headings, in pre-order.
pub open spec fn node_tags(n: OrgNode) -> Seq<Seq<char>>
    decreases n, 0int,
{
    strs(n.tags@) + forest_tags(n.children, n.children@.len() as int)
}

/// The tags of the first `k` nodes and their subtrees, in pre-order.
pub open spec fn forest_tags(v: Vec<OrgNode>, k: int) -> Seq<Seq<char>>
    decreases v, k,
    via forest_tags_decreases
{
    if k <= 0 || k > v@.len() {
        Seq::empty()
    } else {
        forest_tags(v, k - 1) + node_tags(v@[k - 1])
    }
}

#[via_fn]
proof fn forest_tags_decreases(v: Vec<OrgNode>, k: int) {
    if 0 < k <= v@.len() {
        assert(decreases_to!(v => v[k - 1]));
    }
}

fn visit_tags(nodes: &Vec<OrgNode>, out: &mut Vec<String>)
    ensures
        strs(final(out)@) == strs(old(out)@) + forest_tags(*nodes, nodes@.len() as int),
    decreases nodes,
{
    let ghost start = strs(out@);
    let mut k: usize = 0;
    assert(start + forest_tags(*nodes, 0) =~= start);
    while k < nodes.len()
        invariant
            k <= nodes.len(),
            strs(out@) == start + forest_tags(*nodes, k as int),
        decreases nodes.len() - k,
    {
        let node = &nodes[k];
        let ghost before = strs(out@);
        let mut t: usize = 0;
        while t < node.tags.len()
            invariant
                t <= node.tags.len(),
                strs(out@) == before + strs(node.tags@.subrange(0, t as int)),
            decreases node.tags.len() - t,
        {
            let ghost o = out@;
            out.push(node.tags[t].clone());
            proof {
                assert(strs(out@) =~= strs(o).push(node.tags@[t as int]@));
                assert(strs(node.tags@.subrange(0, t + 1)) =~= strs(node.tags@.subrange(0, t as int)).push(
                    node.tags@[t as int]@,
                ));
                assert(before + strs(node.tags@.subrange(0, t + 1)) =~= (before + strs(
                    node.tags@.subrange(0, t as int),
                )).push(node.tags@[t as int]@));
            }
            t = t + 1;
        }
        assert(node.tags@.subrange(0, t as int) =~= node.tags@);
        proof {
            assert(decreases_to!(*nodes => nodes[k as int]));
        }
        let ghost mid = strs(out@);
        visit_tags(&node.children, out);
        proof {
            let ft = forest_tags(*nodes, k as int);
            assert(*node == nodes@[k as int]);
            assert(forest_tags(*nodes, k + 1) == ft + node_tags(nodes@[k as int]));
            assert(node_tags(*node) == strs(node.tags@) + forest_tags(node.children, node.children@.len() as int));
            assert(strs(out@) =~= start + forest_tags(*nodes, k + 1));
        }
        k = k + 1;
    }
}

/// Every heading's tags, in pre-order.
pub fn extract_tags(doc: &OrgDocument) -> (r: Vec<String>)
    ensures
        doc.nodes@.len() == 0 ==> r@.len() == 0,
        strs(r@) == forest_tags(doc.nodes, doc.nodes@.len() as int),
{
    let mut tags: Vec<String> = Vec::new();
    assert(strs(tags@) =~= Seq::<Seq<char>>::empty());
    if doc.nodes.len() > 0 {
        visit_tags(&doc.nodes, &mut tags);
        assert(strs(tags@) =~= forest_tags(doc.nodes, doc.nodes@.len() as int));
    }
    tags
}

/// The targets of the links among the first `n` inlines, each as a note.
pub open spec fn org_inline_links(v: Vec<Inline>, n: int) -> Seq<(bool, Seq<char>)>
    decreases n,
{
    if n <= 0 || n > v@.len() {
        Seq::empty()
    } else {
        org_inline_links(v, n - 1) + match v@[n - 1] {
            Inline::Link { target, .. } => seq![(false, target@)],
            _ => Seq::empty(),
        }
    }
}

pub open spec fn org_cells_links(cells: Vec<Vec<Inline>>, n: int) -> Seq<(bool, Seq<char>)>
    decreases n,
{
    if n <= 0 || n > cells@.len() {
        Seq::empty()
    } else {
        org_cells_links(cells, n - 1) + org_inline_links(cells@[n - 1], cells@[n - 1]@.len() as int)
    }
}

pub open spec fn org_rows_links(rows: Vec<Vec<Vec<Inline>>>, n: int) -> Seq<(bool, Seq<char>)>
    decreases n,
{
    if n <= 0 || n > rows@.len() {
        Seq::empty()
    } else {
        org_rows_links(rows, n - 1) + org_cells_links(rows@[n - 1], rows@[n - 1]@.len() as int)
    }
}

/// The link targets of one block: in paragraphs and headings, quotes, list items and table rows.
pub open spec fn org_block_links(b: Block) -> Seq<(bool, Seq<char>)>
    decreases b, 0int,
{
    match b {
        Block::Leaf { leaf: LeafBlock::Paragraph { content } } => org_inline_links(
            content,
            content@.len() as int,
        ),
        Block::Leaf { leaf: LeafBlock::Heading { content, .. } } => org_inline_links(
            content,
            content@.len() as int,
        ),
        Block::Container { container: ContainerBlock::Quote { blocks } } => org_blocks_links(
            blocks,
            blocks@.len() as int,
        ),
        Block::Container { container: ContainerBlock::List { items, .. } } => org_items_links(
            items,
            items@.len() as int,
        ),
        Block::Container { container: ContainerBlock::Table { rows, .. } } => org_rows_links(
            rows,
            rows@.len() as int,
        ),
        _ => Seq::empty(),
    }
}

pub open spec fn org_blocks_links(v: Vec<Block>, n: int) -> Seq<(bool, Seq<char>)>
    decreases v, n,
    via org_blocks_links_decreases
{
    if n <= 0 || n > v@.len() {
        Seq::empty()
    } else {
        org_blocks_links(v, n - 1) + org_block_links(v@[n - 1])
    }
}

#[via_fn]
proof fn org_blocks_links_decreases(v: Vec<Block>, n: int) {
    if 0 < n <= v@.len() {
        assert(decreases_to!(v => v[n - 1]));
    }
}

pub open spec fn org_items_links(items: Vec<Vec<Block>>, n: int) -> Seq<(bool, Seq<char>)>
    decreases items, n,
    via org_items_links_decreases
{
    if n <= 0 || n > items@.len() {
        Seq::empty()
    } else {
        org_items_links(items, n - 1) + org_blocks_links(items@[n - 1], items@[n - 1]@.len() as int)
    }
}

#[via_fn]
proof fn org_items_links_decreases(items: Vec<Vec<Block>>, n: int) {
    if 0 < n <= items@.len() {
        assert(decreases_to!(items => items[n - 1]));
    }
}

fn inline_note_links(content: &Vec<Inline>, out: &mut Vec<LinkTarget>)
    ensures
        links_appended(old(out)@, final(out)@, org_inline_links(*content, content@.len() as int)),
{
    let ghost o = out@;
    proof {
        lemma_links_empty(o);
    }
    let mut k: usize = 0;
    while k < content.len()
        invariant
            k <= content.len(),
            links_appended(o, out@, org_inline_links(*content, k as int)),
        decreases content.len() - k,
    {
        let ghost mid = out@;
        let ghost prev = org_inline_links(*content, k as int);
        match &content[k] {
            Inline::Link { target, .. } => {
                push_link(out, LinkTarget::Note(target.clone()));
                proof {
                    lemma_links_trans(o, mid, out@, prev, seq![(false, target@)]);
                }
            },
            _ => {
                assert(prev + Seq::<(bool, Seq<char>)>::empty() =~= prev);
            },
        }
        k = k + 1;
    }
}

fn cell_note_links(cells: &Vec<Vec<Inline>>, out: &mut Vec<LinkTarget>)
    ensures
        links_appended(old(out)@, final(out)@, org_cells_links(*cells, cells@.len() as int)),
{
    let ghost o = out@;
    proof {
        lemma_links_empty(o);
    }
    let mut c: usize = 0;
    while c < cells.len()
        invariant
            c <= cells.len(),
            links_appended(o, out@, org_cells_links(*cells, c as int)),
        decreases cells.len() - c,
    {
        let ghost mid = out@;
        inline_note_links(&cells[c], out);
        proof {
            lemma_links_trans(o, mid, out@, org_cells_links(*cells, c as int), org_inline_links(cells@[c as int], cells@[c as int]@.len() as int));
        }
        c = c + 1;
    }
}

#[verifier::rlimit(60)]
fn walk_blocks(blocks: &Vec<Block>, out: &mut Vec<LinkTarget>)
    ensures
        links_appended(old(out)@, final(out)@, org_blocks_links(*blocks, blocks@.len() as int)),
    decreases blocks,
{
    let ghost o = out@;
    proof {
        lemma_links_empty(o);
    }
    let mut k: usize = 0;
    while k < blocks.len()
        invariant
            k <= blocks.len(),
            links_appended(o, out@, org_blocks_links(*blocks, k as int)),
        decreases blocks.len() - k,
    {
        proof {
            assert(decreases_to!(*blocks => blocks[k as int]));
        }
        let ghost mid = out@;
        match &blocks[k] {
            Block::Leaf { leaf: LeafBlock::Paragraph { content } } => inline_note_links(content, out),
            Block::Leaf { leaf: LeafBlock::Heading { content, .. } } => inline_note_links(content, out),
            Block::Container { container: ContainerBlock::Quote { blocks: inner } } => {
                walk_blocks(inner, out);
            },
            Block::Container { container: ContainerBlock::List { items, .. } } => {
                let ghost start = out@;
                proof {
                    lemma_links_empty(start);
                }
                let mut m: usize = 0;
                while m < items.len()
                    invariant
                        m <= items.len(),
                        k < blocks.len(),
                        blocks[k as int] matches Block::Container { container: ContainerBlock::List { items: its, .. } } && its == *items,
                        links_appended(start, out@, org_items_links(*items, m as int)),
                    decreases items.len() - m,
                {
                    proof {
                        assert(decreases_to!(*items => items[m as int]));
                    }
                    let ghost mid2 = out@;
                    walk_blocks(&items[m], out);
                    proof {
                        lemma_links_trans(start, mid2, out@, org_items_links(*items, m as int), org_blocks_links(items@[m as int], items@[m as int]@.len() as int));
                    }
                    m = m + 1;
                }
            },
            Block::Container { container: ContainerBlock::Table { rows, .. } } => {
                let ghost start = out@;
                proof {
                    lemma_links_empty(start);
                }
                let mut r: usize = 0;
                while r < rows.len()
                    invariant
                        r <= rows.len(),
                        links_appended(start, out@, org_rows_links(*rows, r as int)),
                    decreases rows.len() - r,
                {
                    let ghost mid2 = out@;
                    cell_note_links(&rows[r], out);
                    proof {
                        lemma_links_trans(start, mid2, out@, org_rows_links(*rows, r as int), org_cells_links(rows@[r as int], rows@[r as int]@.len() as int));
                    }
                    r = r + 1;
                }
            },
            _ => {
                proof {
                    assert(org_block_links(blocks@[k as int]) =~= Seq::<(bool, Seq<char>)>::empty());
                    lemma_links_empty(out@);
                }
            },
        }
        proof {
            lemma_links_trans(o, mid, out@, org_blocks_links(*blocks, k as int), org_block_links(blocks@[k as int]));
        }
        k = k + 1;
    }
}

/// The Org note format.
#[derive(Debug, Clone, Copy, PartialEq, Eq)]
pub struct OrgFormat;

impl OrgFormat {
    /// Reads a note from Org bytes; invalid UTF-8 reads as empty text.
    pub fn deserialize(&self, data: &[u8], id_hint: Option<&str>) -> (r: Note)
        ensures
            org_reads(data@, hint_view(id_hint), r),
    {
        let text = match crate::format::utf8_text(data) {
            Some(s) => s,
            None => String::new(),
        };
        assert(text@ == input_text(data@));
        let doc = parse_org(text.as_str());
        let ghost nodes = doc.nodes;
        let r = org_to_note(doc, id_hint);
        assert(org_tree(lines_of(text@), nodes));
        r
    }

    /// Every heading's tags in an Org text, in pre-order.
    pub fn tags_of(&self, content: &str) -> (r: Vec<String>)
        ensures
            exists|nodes: Vec<OrgNode>|
                #![trigger org_tree(lines_of(content@), nodes)]
                org_tree(lines_of(content@), nodes) && strs(r@) == forest_tags(nodes, nodes@.len() as int),
    {
        let doc = parse_org(content);
        let r = extract_tags(&doc);
        assert(org_tree(lines_of(content@), doc.nodes));
        r
    }

    /// The note as the UTF-8 bytes of its Org text.
    pub fn serialize(&self, note: &Note) -> (r: Vec<u8>)
        ensures
            crate::format::utf8_of(r@) == Some(org_blocks(note.blocks, note.blocks@.len() as int)),
    {
        let s = note_to_org(note);
        crate::format::utf8_bytes(&s)
    }

    /// Targets of the links in a note, each taken as a note; attachments play no part.
    pub fn extract_links(&self, note: &Note, attachments: &[Attachment]) -> (r: Vec<LinkTarget>)
        ensures
            links_appended(Seq::empty(), r@, org_blocks_links(note.blocks, note.blocks@.len() as int)),
    {
        let mut links: Vec<LinkTarget> = Vec::new();
        walk_blocks(&note.blocks, &mut links);
        links
    }
}

/// The nodes are the heading tree of the lines `ls`.
pub open spec fn org_tree(ls: Seq<Seq<char>>, nodes: Vec<OrgNode>) -> bool {
    kids_at(nodes, ls, next_heading(ls, 0), ls.len() as int, 0)
}

/// What reading Org bytes gives: the id from the hint (or `org`), and the blocks and title of
/// the heading tree of the text.
pub open spec fn org_reads(data: Seq<u8>, hint: Option<Seq<char>>, r: Note) -> bool {
    &&& r.id@ == match hint {
        Some(h) => h,
        None => "org"@,
    }
    &&& exists|nodes: Vec<OrgNode>|
        #![trigger org_tree(lines_of(input_text(data)), nodes)]
        org_tree(lines_of(input_text(data)), nodes) && r.blocks@ == flat_nodes(
            nodes,
            nodes@.len() as int,
        ) && (nodes@.len() == 0 ==> r.title@ == "Untitled"@) && (nodes@.len() > 0 ==> r.title@
            == crate::parsers::inline_texts(nodes@[0].title@))
}

impl NoteSerialization for OrgFormat {
    open spec fn reads(&self, data: Seq<u8>, hint: Option<Seq<char>>, n: Note) -> bool {
        org_reads(data, hint, n)
    }

    fn deserialize(&self, data: &[u8], id_hint: Option<&str>) -> (r: Note) {
        OrgFormat::deserialize(self, data, id_hint)
    }

    fn serialize(&self, note: &Note) -> Vec<u8> {
        OrgFormat::serialize(self, note)
    }
}

impl NoteMetadata for OrgFormat {
    fn extract_tags(&self, content: &str) -> Vec<String> {
        self.tags_of(content)
    }

    fn extract_links(&self, note: &Note, attachments: &[Attachment]) -> Vec<LinkTarget> {
        OrgFormat::extract_links(self, note, attachments)
    }
}

} // verus!
