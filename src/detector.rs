//! Splits raw text into an ordered, gap-free run of syntax-tagged chunks.
use crate::syntax::SyntaxKind;
use crate::text::{
    contains, contains_chars, find_from, has_prefix, is_blank, is_blank_chars, is_space,
    is_space_char, join_lines, join_range, lemma_blank_iff_trim_empty, lines_of, lines_of_str,
    occurs_at, opt_view, starts_with, string_of, subvec, trim, trim_chars, trim_start, trim_start_chars,
};
use vstd::prelude::*;

verus! {

/// A raw chunk found by line scanning; lines are 0-based and inclusive.
#[derive(Debug, Clone, PartialEq, Eq)]
pub struct SyntaxBlock {
    pub syntax: SyntaxKind,
    pub language: Option<String>,
    pub content: String,
    pub start_line: usize,
    pub end_line: usize,
}

impl SyntaxBlock {
    /// Number of lines in this block.
    pub fn line_count(&self) -> (r: usize)
        requires
            self.start_line <= self.end_line < usize::MAX,
        ensures
            r == self.end_line - self.start_line + 1,
    {
        self.end_line - self.start_line + 1
    }
}

/// The markers a detector is configured with.
#[derive(Debug, Clone, PartialEq, Eq)]
pub struct DetectionConfig {
    pub markdown_code_fence: String,
    pub org_block_markers: Vec<String>,
    pub latex_markers: Vec<String>,
}

impl Default for DetectionConfig {
    fn default() -> (r: DetectionConfig)
        ensures
            r.markdown_code_fence@ == "```"@,
            r.org_block_markers@.len() == 2,
            r.org_block_markers@[0]@ == "#+BEGIN_"@,
            r.org_block_markers@[1]@ == "#+END_"@,
            r.latex_markers@.len() == 3,
            r.latex_markers@[0]@ == "$$"@,
            r.latex_markers@[1]@ == "\\["@,
            r.latex_markers@[2]@ == "\\]"@,
    {
        let mut org: Vec<String> = Vec::new();
        org.push("#+BEGIN_".to_owned());
        org.push("#+END_".to_owned());
        let mut latex: Vec<String> = Vec::new();
        latex.push("$$".to_owned());
        latex.push("\\[".to_owned());
        latex.push("\\]".to_owned());
        DetectionConfig {
            markdown_code_fence: "```".to_owned(),
            org_block_markers: org,
            latex_markers: latex,
        }
    }
}

pub open spec fn begin_marker() -> Seq<char> {
    seq!['#', '+', 'B', 'E', 'G', 'I', 'N', '_']
}

pub open spec fn end_marker() -> Seq<char> {
    seq!['#', '+', 'E', 'N', 'D', '_']
}

pub open spec fn fence_marker() -> Seq<char> {
    seq!['`', '`', '`']
}

pub open spec fn dollars() -> Seq<char> {
    seq!['$', '$']
}

/// A line that opens an Org block.
pub open spec fn org_open(l: Seq<char>) -> bool {
    has_prefix(trim_start(l), begin_marker())
}

/// A line that opens or closes a fenced code block.
pub open spec fn fence_line(l: Seq<char>) -> bool {
    has_prefix(trim(l), fence_marker())
}

pub open spec fn dollar_line(l: Seq<char>) -> bool {
    contains(l, dollars())
}

/// A line that holds a marker of a dialect other than plain Markdown.
pub open spec fn opener(l: Seq<char>) -> bool {
    org_open(l) || fence_line(l) || dollar_line(l)
}

/// Two occurrences of `$$` that do not overlap.
pub open spec fn two_dollars(l: Seq<char>) -> bool {
    exists|i: int, j: int| #[trigger]
        occurs_at(l, dollars(), i) && #[trigger] occurs_at(l, dollars(), j) && i + 2 <= j
}

/// End of the run of non-whitespace characters that starts at `i`.
pub open spec fn token_end(s: Seq<char>, i: int) -> int
    decreases s.len() - i,
{
    if 0 <= i < s.len() && !is_space(s[i]) {
        token_end(s, i + 1)
    } else {
        i
    }
}

pub open spec fn is_lower(c: char) -> bool {
    'a' as u32 <= c as u32 && c as u32 <= 'z' as u32
}

/// Equal up to ASCII case.
pub open spec fn eq_ci(a: char, b: char) -> bool {
    a == b || (is_lower(a) && a as u32 == b as u32 + 32) || (is_lower(b) && b as u32 == a as u32
        + 32)
}

/// `t` is a prefix of `s` up to ASCII case.
pub open spec fn ci_prefix(s: Seq<char>, t: Seq<char>) -> bool {
    t.len() <= s.len() && forall|i: int| 0 <= i < t.len() ==> eq_ci(#[trigger] s[i], t[i])
}

/// The type tag of an Org block opener: the token after `#+BEGIN_`.
pub open spec fn org_tag(l: Seq<char>) -> Seq<char> {
    let rest = trim_start(l).subrange(begin_marker().len() as int, trim_start(l).len() as int);
    rest.subrange(0, token_end(rest, 0))
}

/// A line that closes an Org block of type `tag`.
pub open spec fn org_close(l: Seq<char>, tag: Seq<char>) -> bool {
    let t = trim_start(l);
    has_prefix(t, end_marker()) && ci_prefix(
        t.subrange(end_marker().len() as int, t.len() as int),
        tag,
    )
}

/// The language named after an opening fence, if any.
pub open spec fn fence_language(l: Seq<char>) -> Option<Seq<char>> {
    let after = trim(trim(l).subrange(3, trim(l).len() as int));
    if after.len() == 0 {
        None
    } else {
        Some(after.subrange(0, token_end(after, 0)))
    }
}

/// Each marker on line `s` finds no close below it: an Org opener has no tag or no end line,
/// a fence has no closing fence, and `$$` is alone on its line with no `$$` below.
pub open spec fn unterminated(ls: Seq<Seq<char>>, s: int) -> bool {
    &&& org_open(ls[s]) ==> (org_tag(ls[s]).len() == 0 || forall|j: int|
        s < j < ls.len() ==> !org_close(#[trigger] ls[j], org_tag(ls[s])))
    &&& fence_line(ls[s]) ==> forall|j: int| s < j < ls.len() ==> !fence_line(#[trigger] ls[j])
    &&& dollar_line(ls[s]) ==> !two_dollars(ls[s]) && forall|j: int|
        s < j < ls.len() ==> !dollar_line(#[trigger] ls[j])
}

/// What holds of one detected block over the lines `ls`.
#[verifier::opaque]
pub open spec fn block_ok(ls: Seq<Seq<char>>, b: SyntaxBlock) -> bool {
    let s = b.start_line as int;
    let e = b.end_line as int;
    &&& s <= e < ls.len()
    &&& !is_blank(ls[s])
    &&& b.content@ == join_lines(ls.subrange(s, e + 1))
    &&& b.language is Some ==> b.syntax == SyntaxKind::Code
    &&& match b.syntax {
        SyntaxKind::Org => org_open(ls[s]) && org_tag(ls[s]).len() > 0 && s < e && org_close(
            ls[e],
            org_tag(ls[s]),
        ) && forall|j: int| s < j < e ==> !org_close(#[trigger] ls[j], org_tag(ls[s])),
        SyntaxKind::Code => fence_line(ls[s]) && s < e && fence_line(ls[e]) && (forall|j: int|
            s < j < e ==> !fence_line(#[trigger] ls[j])) && opt_view(b.language)
            == fence_language(ls[s]),
        SyntaxKind::LaTeX => dollar_line(ls[s]) && ((s == e && two_dollars(ls[s])) || (s < e
            && !two_dollars(ls[s]) && dollar_line(ls[e]) && forall|j: int|
            s < j < e ==> !dollar_line(#[trigger] ls[j]))),
        SyntaxKind::Markdown => unterminated(ls, s) && (forall|j: int|
            s < j <= e ==> !is_blank(#[trigger] ls[j]) && !opener(ls[j])) && (e + 1 == ls.len()
            || is_blank(ls[e + 1]) || opener(ls[e + 1])),
        SyntaxKind::Custom => false,
    }
}

/// The blocks are in order, do not overlap, and every non-blank line lies in one of them.
pub open spec fn covers(ls: Seq<Seq<char>>, bs: Seq<SyntaxBlock>) -> bool {
    &&& forall|k: int| 0 <= k < bs.len() ==> block_ok(ls, #[trigger] bs[k])
    &&& forall|k: int, m: int|
        0 <= k < m < bs.len() ==> (#[trigger] bs[k]).end_line < (#[trigger] bs[m]).start_line
    &&& forall|j: int|
        0 <= j < ls.len() && !is_blank(#[trigger] ls[j]) ==> exists|k: int|
            0 <= k < bs.len() && bs[k].start_line <= j <= #[trigger] bs[k].end_line
}

/// A detected block is never of the custom kind.
pub proof fn lemma_block_kind(ls: Seq<Seq<char>>, b: SyntaxBlock)
    requires
        block_ok(ls, b),
    ensures
        b.syntax != SyntaxKind::Custom,
{
    reveal(block_ok);
}

proof fn lemma_prefix_not_blank(l: Seq<char>, t: Seq<char>, p: Seq<char>)
    requires
        t == trim_start(l) || t == trim(l),
        has_prefix(t, p),
        p.len() > 0,
    ensures
        !is_blank(l),
{
    lemma_blank_iff_trim_empty(l);
}

proof fn lemma_dollars_not_blank(l: Seq<char>)
    requires
        dollar_line(l),
    ensures
        !is_blank(l),
{
    let i = choose|i: int| occurs_at(l, dollars(), i);
    assert(l.subrange(i, i + 2)[0] == '$');
    assert(l[i] == '$');
}

/// The first line at or after `j` that closes an Org block of type `tag` (or the line count).
pub open spec fn org_close_at(ls: Seq<Seq<char>>, j: int, tag: Seq<char>) -> int
    decreases ls.len() - j,
{
    if 0 <= j < ls.len() && !org_close(ls[j], tag) {
        org_close_at(ls, j + 1, tag)
    } else {
        j
    }
}

/// The first fence line at or after `j` (or the line count).
pub open spec fn fence_at(ls: Seq<Seq<char>>, j: int) -> int
    decreases ls.len() - j,
{
    if 0 <= j < ls.len() && !fence_line(ls[j]) {
        fence_at(ls, j + 1)
    } else {
        j
    }
}

/// The first line holding `$$` at or after `j` (or the line count).
pub open spec fn dollar_at(ls: Seq<Seq<char>>, j: int) -> int
    decreases ls.len() - j,
{
    if 0 <= j < ls.len() && !dollar_line(ls[j]) {
        dollar_at(ls, j + 1)
    } else {
        j
    }
}

/// The first blank or marker line at or after `j` (or the line count).
pub open spec fn md_end(ls: Seq<Seq<char>>, j: int) -> int
    decreases ls.len() - j,
{
    if 0 <= j < ls.len() && !is_blank(ls[j]) && !opener(ls[j]) {
        md_end(ls, j + 1)
    } else {
        j
    }
}

/// The kind and last line of the block that starts at the non-blank line `i`: a closed Org
/// block, a closed fence, one-line or closed `$$` math, or else a Markdown run.
pub open spec fn dstep(ls: Seq<Seq<char>>, i: int) -> (SyntaxKind, int) {
    let l = ls[i];
    let n = ls.len() as int;
    if org_open(l) && org_tag(l).len() > 0 && org_close_at(ls, i + 1, org_tag(l)) < n {
        (SyntaxKind::Org, org_close_at(ls, i + 1, org_tag(l)))
    } else if fence_line(l) && fence_at(ls, i + 1) < n {
        (SyntaxKind::Code, fence_at(ls, i + 1))
    } else if dollar_line(l) && two_dollars(l) {
        (SyntaxKind::LaTeX, i)
    } else if dollar_line(l) && dollar_at(ls, i + 1) < n {
        (SyntaxKind::LaTeX, dollar_at(ls, i + 1))
    } else {
        (SyntaxKind::Markdown, md_end(ls, i + 1) - 1)
    }
}

/// The blocks from line `i` on, as kind, first line and last line.
pub open spec fn dblocks(ls: Seq<Seq<char>>, i: int) -> Seq<(SyntaxKind, int, int)>
    decreases ls.len() - i,
{
    if i < 0 || i >= ls.len() {
        Seq::empty()
    } else if is_blank(ls[i]) {
        dblocks(ls, i + 1)
    } else {
        let (k, e) = dstep(ls, i);
        if e < i || e >= ls.len() {
            seq![(k, i, e)]
        } else {
            seq![(k, i, e)] + dblocks(ls, e + 1)
        }
    }
}

/// Block `b` is the detected block `d` of the lines `ls`.
pub open spec fn is_detected(ls: Seq<Seq<char>>, b: SyntaxBlock, d: (SyntaxKind, int, int)) -> bool {
    &&& b.syntax == d.0
    &&& b.start_line == d.1
    &&& b.end_line == d.2
    &&& b.content@ == join_lines(ls.subrange(d.1, d.2 + 1))
    &&& opt_view(b.language) == if d.0 == SyntaxKind::Code {
        fence_language(ls[d.1])
    } else {
        None
    }
}

/// The blocks `bs` are exactly the detected blocks of `ls`.
pub open spec fn detected(ls: Seq<Seq<char>>, bs: Seq<SyntaxBlock>) -> bool {
    &&& bs.len() == dblocks(ls, 0).len()
    &&& forall|k: int| 0 <= k < bs.len() ==> is_detected(ls, #[trigger] bs[k], dblocks(ls, 0)[k])
}

/// Identifies block boundaries by syntax markers.
#[derive(Debug)]
pub struct BlockDetector {
    config: DetectionConfig,
}

fn begin_chars() -> (r: Vec<char>)
    ensures
        r@ == begin_marker(),
{
    let r = vec!['#', '+', 'B', 'E', 'G', 'I', 'N', '_'];
    assert(r@ =~= begin_marker());
    r
}

fn end_chars() -> (r: Vec<char>)
    ensures
        r@ == end_marker(),
{
    let r = vec!['#', '+', 'E', 'N', 'D', '_'];
    assert(r@ =~= end_marker());
    r
}

fn fence_chars() -> (r: Vec<char>)
    ensures
        r@ == fence_marker(),
{
    let r = vec!['`', '`', '`'];
    assert(r@ =~= fence_marker());
    r
}

fn dollar_chars() -> (r: Vec<char>)
    ensures
        r@ == dollars(),
{
    let r = vec!['$', '$'];
    assert(r@ =~= dollars());
    r
}

fn is_org_open(l: &Vec<char>) -> (r: bool)
    ensures
        r == org_open(l@),
{
    starts_with(&trim_start_chars(l), &begin_chars())
}

fn is_fence(l: &Vec<char>) -> (r: bool)
    ensures
        r == fence_line(l@),
{
    starts_with(&trim_chars(l), &fence_chars())
}

fn has_dollars(l: &Vec<char>) -> (r: bool)
    ensures
        r == dollar_line(l@),
{
    contains_chars(l, &dollar_chars())
}

fn is_opener(l: &Vec<char>) -> (r: bool)
    ensures
        r == opener(l@),
{
    is_org_open(l) || is_fence(l) || has_dollars(l)
}

fn has_two_dollars(l: &Vec<char>) -> (r: bool)
    ensures
        r == two_dollars(l@),
{
    let d = dollar_chars();
    match find_from(l, &d, 0) {
        None => false,
        Some(i) => {
            assert(i + 2 <= l.len());
            match find_from(l, &d, i + 2) {
                Some(j) => true,
                None => {
                    assert forall|a: int, b: int|
                        #[trigger] occurs_at(l@, dollars(), a) && #[trigger] occurs_at(
                            l@,
                            dollars(),
                            b,
                        ) && a + 2 <= b implies false by {
                        assert(i <= a);
                    }
                    false
                },
            }
        },
    }
}

/// The run of non-whitespace characters at the start of `s`.
fn first_token(s: &Vec<char>) -> (r: Vec<char>)
    ensures
        r@ == s@.subrange(0, token_end(s@, 0)),
{
    let mut i: usize = 0;
    while i < s.len() && !is_space_char(s[i])
        invariant
            i <= s.len(),
            token_end(s@, i as int) == token_end(s@, 0),
        decreases s.len() - i,
    {
        i = i + 1;
    }
    subvec(s, 0, i)
}

fn eq_ci_char(a: char, b: char) -> (r: bool)
    ensures
        r == eq_ci(a, b),
{
    let x = a as u32;
    let y = b as u32;
    x == y || ('a' as u32 <= x && x <= 'z' as u32 && x == y + 32) || ('a' as u32 <= y && y
        <= 'z' as u32 && y == x + 32)
}

fn is_ci_prefix(s: &Vec<char>, t: &Vec<char>) -> (r: bool)
    ensures
        r == ci_prefix(s@, t@),
{
    if t.len() > s.len() {
        return false;
    }
    let mut i: usize = 0;
    while i < t.len()
        invariant
            t.len() <= s.len(),
            i <= t.len(),
            forall|k: int| 0 <= k < i ==> eq_ci(#[trigger] s@[k], t@[k]),
        decreases t.len() - i,
    {
        if !eq_ci_char(s[i], t[i]) {
            return false;
        }
        i = i + 1;
    }
    true
}

fn is_org_close(l: &Vec<char>, tag: &Vec<char>) -> (r: bool)
    ensures
        r == org_close(l@, tag@),
{
    let t = trim_start_chars(l);
    let em = end_chars();
    if !starts_with(&t, &em) {
        return false;
    }
    let rest = subvec(&t, 6, t.len());
    is_ci_prefix(&rest, tag)
}

/// The language after an opening fence.
fn fence_language_of(l: &Vec<char>) -> (r: Option<String>)
    requires
        fence_line(l@),
    ensures
        opt_view(r) == fence_language(l@),
{
    let t = trim_chars(l);
    let after = trim_chars(&subvec(&t, 3, t.len()));
    if after.len() == 0 {
        None
    } else {
        let tok = first_token(&after);
        let r = Some(string_of(&tok));
        assert(opt_view(r) == fence_language(l@));
        r
    }
}

impl BlockDetector {
    /// A detector with the default markers.
    pub fn new() -> (r: BlockDetector) {
        BlockDetector { config: DetectionConfig::default() }
    }

    pub fn with_config(config: DetectionConfig) -> (r: BlockDetector)
        ensures
            r.config() == config,
    {
        BlockDetector { config }
    }

    pub closed spec fn config(&self) -> DetectionConfig {
        self.config
    }

    /// Splits `text` into blocks; see `covers` for what holds of the result.
    pub fn detect(&self, text: &str) -> (r: Vec<SyntaxBlock>)
        ensures
            covers(lines_of(text@), r@),
            detected(lines_of(text@), r@),
    {
        let lines = lines_of_str(text);
        detect_lines(&lines)
    }
}

pub open spec fn all_ok(ls: Seq<Seq<char>>, bs: Seq<SyntaxBlock>) -> bool {
    forall|k: int| 0 <= k < bs.len() ==> block_ok(ls, #[trigger] bs[k])
}

pub open spec fn in_order(bs: Seq<SyntaxBlock>) -> bool {
    forall|k: int, m: int| 0 <= k < m < bs.len() ==> (#[trigger] bs[k]).end_line < (#[trigger] bs[m]).start_line
}

pub open spec fn all_before(bs: Seq<SyntaxBlock>, pos: int) -> bool {
    forall|k: int| 0 <= k < bs.len() ==> (#[trigger] bs[k]).end_line < pos
}

/// Every non-blank line before `pos` lies in one of the blocks.
pub open spec fn lines_covered(ls: Seq<Seq<char>>, bs: Seq<SyntaxBlock>, pos: int) -> bool {
    forall|j: int|
        0 <= j < pos && !is_blank(#[trigger] ls[j]) ==> exists|k: int|
            0 <= k < bs.len() && bs[k].start_line <= j <= #[trigger] bs[k].end_line
}

/// `covers` over the lines before `pos`.
#[verifier::opaque]
pub open spec fn covered_upto(ls: Seq<Seq<char>>, bs: Seq<SyntaxBlock>, pos: int) -> bool {
    &&& all_ok(ls, bs)
    &&& in_order(bs)
    &&& all_before(bs, pos)
    &&& lines_covered(ls, bs, pos)
}

proof fn lemma_ok_step(ls: Seq<Seq<char>>, bs: Seq<SyntaxBlock>, b: SyntaxBlock)
    requires
        all_ok(ls, bs),
        block_ok(ls, b),
    ensures
        all_ok(ls, bs.push(b)),
{
    let nb = bs.push(b);
    assert forall|k: int| 0 <= k < nb.len() implies block_ok(ls, #[trigger] nb[k]) by {
        if k < bs.len() {
            assert(nb[k] == bs[k]);
        }
    }
}

proof fn lemma_order_step(bs: Seq<SyntaxBlock>, pos: int, b: SyntaxBlock)
    requires
        in_order(bs),
        all_before(bs, pos),
        b.start_line == pos,
        pos <= b.end_line,
    ensures
        in_order(bs.push(b)),
        all_before(bs.push(b), b.end_line + 1),
{
    let nb = bs.push(b);
    let n = bs.len() as int;
    assert forall|k: int, m: int| 0 <= k < m < nb.len() implies (#[trigger] nb[k]).end_line
        < (#[trigger] nb[m]).start_line by {
        assert(nb[k] == bs[k]);
        if m < n {
            assert(nb[m] == bs[m]);
        }
    }
    assert forall|k: int| 0 <= k < nb.len() implies (#[trigger] nb[k]).end_line < b.end_line
        + 1 by {
        if k < n {
            assert(nb[k] == bs[k]);
        }
    }
}

proof fn lemma_covered_step(ls: Seq<Seq<char>>, bs: Seq<SyntaxBlock>, pos: int, b: SyntaxBlock)
    requires
        lines_covered(ls, bs, pos),
        b.start_line == pos,
        pos <= b.end_line,
    ensures
        lines_covered(ls, bs.push(b), b.end_line + 1),
{
    let nb = bs.push(b);
    let n = bs.len() as int;
    assert(nb[n] == b);
    assert forall|j: int|
        0 <= j < b.end_line + 1 && !is_blank(#[trigger] ls[j]) implies exists|k: int|
        0 <= k < nb.len() && nb[k].start_line <= j <= #[trigger] nb[k].end_line by {
        if j < pos {
            let k = choose|k: int|
                0 <= k < bs.len() && bs[k].start_line <= j <= #[trigger] bs[k].end_line;
            assert(nb[k] == bs[k]);
        } else {
            assert(nb[n].start_line <= j <= nb[n].end_line);
        }
    }
}

proof fn lemma_cover_step(ls: Seq<Seq<char>>, bs: Seq<SyntaxBlock>, pos: int, b: SyntaxBlock)
    requires
        covered_upto(ls, bs, pos),
        block_ok(ls, b),
        b.start_line == pos,
        pos <= b.end_line,
    ensures
        covered_upto(ls, bs.push(b), b.end_line + 1),
{
    reveal(covered_upto);
    lemma_ok_step(ls, bs, b);
    lemma_order_step(bs, pos, b);
    lemma_covered_step(ls, bs, pos, b);
}

proof fn lemma_cover_start(ls: Seq<Seq<char>>)
    ensures
        covered_upto(ls, Seq::empty(), 0),
{
    reveal(covered_upto);
}

proof fn lemma_cover_skip(ls: Seq<Seq<char>>, bs: Seq<SyntaxBlock>, pos: int)
    requires
        covered_upto(ls, bs, pos),
        0 <= pos < ls.len(),
        is_blank(ls[pos]),
    ensures
        covered_upto(ls, bs, pos + 1),
{
    reveal(covered_upto);
    assert forall|j: int|
        0 <= j < pos + 1 && !is_blank(#[trigger] ls[j]) implies exists|k: int|
        0 <= k < bs.len() && bs[k].start_line <= j <= #[trigger] bs[k].end_line by {
        if j == pos {
            assert(false);
        }
    }
    assert forall|k: int| 0 <= k < bs.len() implies (#[trigger] bs[k]).end_line < pos + 1 by {
    }
}

proof fn lemma_cover_done(ls: Seq<Seq<char>>, bs: Seq<SyntaxBlock>)
    requires
        covered_upto(ls, bs, ls.len() as int),
    ensures
        covers(ls, bs),
{
    reveal(covered_upto);
}

/// The blocks of a text given as lines.
pub fn detect_lines(lines: &Vec<Vec<char>>) -> (r: Vec<SyntaxBlock>)
    ensures
        covers(lines.deep_view(), r@),
        detected(lines.deep_view(), r@),
{
    let ghost ls = lines.deep_view();
    let mut blocks: Vec<SyntaxBlock> = Vec::new();
    let mut pos: usize = 0;
    let ghost mut done: Seq<(SyntaxKind, int, int)> = Seq::empty();
    proof {
        lemma_cover_start(ls);
        assert(dblocks(ls, 0) =~= done + dblocks(ls, 0));
    }
    while pos < lines.len()
        invariant
            ls == lines.deep_view(),
            pos <= lines.len(),
            covered_upto(ls, blocks@, pos as int),
            dblocks(ls, 0) == done + dblocks(ls, pos as int),
            blocks@.len() == done.len(),
            forall|k: int| 0 <= k < done.len() ==> is_detected(ls, #[trigger] blocks@[k], done[k]),
        decreases lines.len() - pos,
    {
        let ghost p0 = pos as int;
        match scan_block(lines, pos) {
            Some((b, next)) => {
                proof {
                    lemma_cover_step(ls, blocks@, pos as int, b);
                }
                let ghost before = blocks@;
                let ghost d = (b.syntax, b.start_line as int, b.end_line as int);
                blocks.push(b);
                proof {
                    assert(dblocks(ls, p0) == seq![d] + dblocks(ls, next as int));
                    let d0 = done;
                    done = done.push(d);
                    assert(dblocks(ls, 0) =~= done + dblocks(ls, next as int));
                    assert forall|k: int| 0 <= k < done.len() implies is_detected(ls, #[trigger] blocks@[k], done[k]) by {
                        if k < d0.len() {
                            assert(blocks@[k] == before[k]);
                        }
                    }
                }
                pos = next;
            },
            None => {
                proof {
                    lemma_cover_skip(ls, blocks@, pos as int);
                    assert(dblocks(ls, p0) == dblocks(ls, p0 + 1));
                }
                pos = pos + 1;
            },
        }
    }
    proof {
        lemma_cover_done(ls, blocks@);
        assert(dblocks(ls, pos as int) =~= Seq::<(SyntaxKind, int, int)>::empty());
        assert(done =~= dblocks(ls, 0));
    }
    blocks
}

/// The block that starts at line `start`: one exactly when that line is not blank.
#[verifier::rlimit(60)]
fn scan_block(lines: &Vec<Vec<char>>, start: usize) -> (r: Option<(SyntaxBlock, usize)>)
    requires
        start < lines.len(),
    ensures
        r is Some <==> !is_blank(lines.deep_view()[start as int]),
        r matches Some((b, next)) ==> block_ok(lines.deep_view(), b) && b.start_line == start
            && next == b.end_line + 1 && start <= b.end_line < lines.len(),
        r matches Some((b, next)) ==> is_detected(
            lines.deep_view(),
            b,
            (dstep(lines.deep_view(), start as int).0, start as int, dstep(lines.deep_view(), start as int).1),
        ),
{
    let ghost ls = lines.deep_view();
    assert(ls[start as int] == lines@[start as int]@);
    let ghost l = ls[start as int];
    proof {
        reveal(block_ok);
    }
    if is_org_open(&lines[start]) {
        proof {
            lemma_prefix_not_blank(ls[start as int], trim_start(ls[start as int]), begin_marker());
        }
        if let Some(found) = scan_org_block(lines, start) {
            return Some(found);
        }
    }
    if is_fence(&lines[start]) {
        proof {
            lemma_prefix_not_blank(ls[start as int], trim(ls[start as int]), fence_marker());
        }
        if let Some(found) = scan_code_block(lines, start) {
            return Some(found);
        }
    }
    if has_dollars(&lines[start]) {
        proof {
            lemma_dollars_not_blank(ls[start as int]);
        }
        if let Some(found) = scan_latex_block(lines, start) {
            return Some(found);
        }
    }
    if !is_blank_chars(&lines[start]) {
        assert(unterminated(ls, start as int));
        return Some(scan_markdown_block(lines, start));
    }
    None
}

/// The lines `start..=end` as one block.
fn make_block(
    lines: &Vec<Vec<char>>,
    syntax: SyntaxKind,
    language: Option<String>,
    start: usize,
    end: usize,
) -> (r: SyntaxBlock)
    requires
        start <= end < lines.len(),
    ensures
        r.syntax == syntax,
        r.language == language,
        r.start_line == start,
        r.end_line == end,
        r.content@ == join_lines(lines.deep_view().subrange(start as int, end + 1)),
{
    let content = join_range(lines, start, end + 1);
    SyntaxBlock { syntax, language, content: string_of(&content), start_line: start, end_line: end }
}

#[verifier::rlimit(60)]
fn scan_org_block(lines: &Vec<Vec<char>>, start: usize) -> (r: Option<(SyntaxBlock, usize)>)
    requires
        start < lines.len(),
        org_open(lines.deep_view()[start as int]),
        !is_blank(lines.deep_view()[start as int]),
    ensures
        r matches Some((b, next)) ==> block_ok(lines.deep_view(), b) && b.start_line == start
            && next == b.end_line + 1 && b.syntax == SyntaxKind::Org && start <= b.end_line < lines.len(),
        r is None ==> org_tag(lines.deep_view()[start as int]).len() == 0 || forall|j: int|
            start < j < lines.len() ==> !org_close(
                #[trigger] lines.deep_view()[j],
                org_tag(lines.deep_view()[start as int]),
            ),
        r is None ==> org_tag(lines.deep_view()[start as int]).len() == 0 || org_close_at(
            lines.deep_view(),
            start + 1,
            org_tag(lines.deep_view()[start as int]),
        ) == lines.len(),
        r matches Some((b, next)) ==> org_tag(lines.deep_view()[start as int]).len() > 0
            && b.end_line == org_close_at(
            lines.deep_view(),
            start + 1,
            org_tag(lines.deep_view()[start as int]),
        ) && b.language is None,
{
    let ghost ls = lines.deep_view();
    assert(ls[start as int] == lines@[start as int]@);
    let t = trim_start_chars(&lines[start]);
    let rest = subvec(&t, 8, t.len());
    let tag = first_token(&rest);
    assert(tag@ == org_tag(ls[start as int]));
    if tag.len() == 0 {
        return None;
    }
    let mut i: usize = start + 1;
    while i < lines.len()
        invariant
            ls == lines.deep_view(),
            start < i <= lines.len(),
            tag@ == org_tag(ls[start as int]),
            tag@.len() > 0,
            org_open(ls[start as int]),
            !is_blank(ls[start as int]),
            forall|j: int| start < j < i ==> !org_close(#[trigger] ls[j], tag@),
            org_close_at(ls, i as int, tag@) == org_close_at(ls, start + 1, tag@),
        decreases lines.len() - i,
    {
        assert(ls[i as int] == lines@[i as int]@);
        if is_org_close(&lines[i], &tag) {
            let b = make_block(lines, SyntaxKind::Org, None, start, i);
            proof {
                reveal(block_ok);
            }
            return Some((b, i + 1));
        }
        i = i + 1;
    }
    None
}

fn scan_code_block(lines: &Vec<Vec<char>>, start: usize) -> (r: Option<(SyntaxBlock, usize)>)
    requires
        start < lines.len(),
        fence_line(lines.deep_view()[start as int]),
        !is_blank(lines.deep_view()[start as int]),
    ensures
        r matches Some((b, next)) ==> block_ok(lines.deep_view(), b) && b.start_line == start
            && next == b.end_line + 1 && b.syntax == SyntaxKind::Code && start <= b.end_line < lines.len(),
        r is None ==> forall|j: int| start < j < lines.len() ==> !fence_line(#[trigger] lines.deep_view()[j]),
        r is None ==> fence_at(lines.deep_view(), start + 1) == lines.len(),
        r matches Some((b, next)) ==> b.end_line == fence_at(lines.deep_view(), start + 1)
            && opt_view(b.language) == fence_language(lines.deep_view()[start as int]),
{
    let ghost ls = lines.deep_view();
    assert(ls[start as int] == lines@[start as int]@);
    let mut i: usize = start + 1;
    while i < lines.len()
        invariant
            ls == lines.deep_view(),
            start < i <= lines.len(),
            ls[start as int] == lines@[start as int]@,
            fence_line(ls[start as int]),
            !is_blank(ls[start as int]),
            forall|j: int| start < j < i ==> !fence_line(#[trigger] ls[j]),
            fence_at(ls, i as int) == fence_at(ls, start + 1),
        decreases lines.len() - i,
    {
        assert(ls[i as int] == lines@[i as int]@);
        if is_fence(&lines[i]) {
            let language = fence_language_of(&lines[start]);
            let b = make_block(lines, SyntaxKind::Code, language, start, i);
            proof {
                reveal(block_ok);
            }
            return Some((b, i + 1));
        }
        i = i + 1;
    }
    None
}

fn scan_latex_block(lines: &Vec<Vec<char>>, start: usize) -> (r: Option<(SyntaxBlock, usize)>)
    requires
        start < lines.len(),
        dollar_line(lines.deep_view()[start as int]),
        !is_blank(lines.deep_view()[start as int]),
    ensures
        r matches Some((b, next)) ==> block_ok(lines.deep_view(), b) && b.start_line == start
            && next == b.end_line + 1 && b.syntax == SyntaxKind::LaTeX && start <= b.end_line < lines.len(),
        r is None ==> !two_dollars(lines.deep_view()[start as int]) && forall|j: int|
            start < j < lines.len() ==> !dollar_line(#[trigger] lines.deep_view()[j]),
        r is None ==> dollar_at(lines.deep_view(), start + 1) == lines.len(),
        r matches Some((b, next)) ==> b.language is None && (if two_dollars(
            lines.deep_view()[start as int],
        ) {
            b.end_line == start
        } else {
            b.end_line == dollar_at(lines.deep_view(), start + 1)
        }),
{
    let ghost ls = lines.deep_view();
    assert(ls[start as int] == lines@[start as int]@);
    if has_two_dollars(&lines[start]) {
        let b = make_block(lines, SyntaxKind::LaTeX, None, start, start);
        proof {
            reveal(block_ok);
        }
        return Some((b, start + 1));
    }
    let mut i: usize = start + 1;
    while i < lines.len()
        invariant
            ls == lines.deep_view(),
            start < i <= lines.len(),
            !two_dollars(ls[start as int]),
            dollar_line(ls[start as int]),
            !is_blank(ls[start as int]),
            forall|j: int| start < j < i ==> !dollar_line(#[trigger] ls[j]),
            dollar_at(ls, i as int) == dollar_at(ls, start + 1),
        decreases lines.len() - i,
    {
        assert(ls[i as int] == lines@[i as int]@);
        if has_dollars(&lines[i]) {
            let b = make_block(lines, SyntaxKind::LaTeX, None, start, i);
            proof {
                reveal(block_ok);
            }
            return Some((b, i + 1));
        }
        i = i + 1;
    }
    None
}

/// A Markdown run: up to a blank line or a line with another dialect's marker.
fn scan_markdown_block(lines: &Vec<Vec<char>>, start: usize) -> (r: (SyntaxBlock, usize))
    requires
        start < lines.len(),
        !is_blank(lines.deep_view()[start as int]),
        unterminated(lines.deep_view(), start as int),
    ensures
        block_ok(lines.deep_view(), r.0) && r.0.start_line == start && r.1 == r.0.end_line + 1
            && r.0.syntax == SyntaxKind::Markdown && start <= r.0.end_line < lines.len(),
        r.0.end_line == md_end(lines.deep_view(), start + 1) - 1,
        r.0.language is None,
{
    let ghost ls = lines.deep_view();
    let mut i: usize = start + 1;
    while i < lines.len() && !is_blank_chars(&lines[i]) && !is_opener(&lines[i])
        invariant
            ls == lines.deep_view(),
            start < i <= lines.len(),
            !is_blank(ls[start as int]),
            unterminated(ls, start as int),
            forall|j: int| start < j < i ==> !is_blank(#[trigger] ls[j]) && !opener(ls[j]),
            md_end(ls, i as int) == md_end(ls, start + 1),
        decreases lines.len() - i,
    {
        assert(ls[i as int] == lines@[i as int]@);
        i = i + 1;
    }
    if i < lines.len() {
        assert(ls[i as int] == lines@[i as int]@);
    }
    let b = make_block(lines, SyntaxKind::Markdown, None, start, i - 1);
    proof {
        reveal(block_ok);
    }
    (b, i)
}

} // verus!
