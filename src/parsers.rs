//! One parser per dialect, turning a raw chunk into a block and back.
use crate::error::ParseError;
use crate::models::{Block, Inline, LeafBlock};
use crate::syntax::{BlockMetadata, SyntaxKind};
use crate::text::{
    chars_of, contains, contains_chars, has_prefix, is_space, is_space_char, join_lines,
    join_range, join_sep, lines_of, lines_of_str, push_all, remove_all,
    remove_all_chars, repeat_char, run_end, run_len, starts_with, string_of, subvec, trim,
    trim_chars, trim_start, trim_start_chars,
};
use vstd::prelude::*;

verus! {

/// Level of an ATX heading line: one to six `#` and then a space.
pub open spec fn md_heading_level(l: Seq<char>) -> Option<u8> {
    let t = trim_start(l);
    let n = run_end(t, '#', 0);
    if 0 < n < 7 && n < t.len() && t[n] == ' ' {
        Some(n as u8)
    } else {
        None
    }
}

/// The text of a heading line: leading `#` removed, then trimmed.
pub open spec fn md_heading_text(l: Seq<char>) -> Seq<char> {
    trim(l.subrange(run_end(l, '#', 0), l.len() as int))
}

pub open spec fn rule_char(c: char) -> bool {
    c == '-' || c == '*' || c == '_' || is_space(c)
}

/// A thematic break: `---`, `***` or `___` and nothing but such characters.
pub open spec fn md_rule(l: Seq<char>) -> bool {
    let t = trim(l);
    (has_prefix(t, seq!['-', '-', '-']) || has_prefix(t, seq!['*', '*', '*']) || has_prefix(
        t,
        seq!['_', '_', '_'],
    )) && forall|i: int| 0 <= i < t.len() ==> rule_char(#[trigger] t[i])
}

/// Exactly one text inline holding `s`.
pub open spec fn single_text(c: Seq<Inline>, s: Seq<char>) -> bool {
    c.len() == 1 && (c[0] matches Inline::Text { text } && text@ == s)
}

/// The texts of the text inlines, in order; other inlines are left out.
pub open spec fn text_items(c: Seq<Inline>) -> Seq<Seq<char>>
    decreases c.len(),
{
    if c.len() == 0 {
        Seq::empty()
    } else {
        let rest = text_items(c.drop_last());
        match c.last() {
            Inline::Text { text } => rest.push(text@),
            _ => rest,
        }
    }
}

/// Text inlines joined with single spaces.
pub open spec fn inline_texts(c: Seq<Inline>) -> Seq<char> {
    join_sep(text_items(c), seq![' '])
}

/// What the Markdown block parser yields for `raw`.
pub open spec fn md_parsed(raw: Seq<char>, b: Block, m: BlockMetadata) -> bool {
    let ls = lines_of(raw);
    if ls.len() > 0 && md_heading_level(ls[0]) is Some {
        &&& m.heading_level == md_heading_level(ls[0])
        &&& m.id is None
        &&& m.todo_state is None
        &&& m.properties@.len() == 0
        &&& (b matches Block::Leaf { leaf: LeafBlock::Heading { level, content } } && Some(level)
            == md_heading_level(ls[0]) && single_text(content@, md_heading_text(ls[0])))
    } else if ls.len() == 1 && md_rule(ls[0]) {
        m.is_empty_spec() && b == (Block::Leaf { leaf: LeafBlock::HorizontalRule })
    } else {
        m.is_empty_spec() && (b matches Block::Leaf { leaf: LeafBlock::Paragraph { content } }
            && single_text(content@, raw))
    }
}

pub open spec fn fence_seq() -> Seq<char> {
    seq!['`', '`', '`']
}

pub open spec fn opt_chars(o: Option<String>) -> Seq<char> {
    match o {
        Some(s) => s@,
        None => Seq::empty(),
    }
}

/// What the Markdown block parser renders for a block.
pub open spec fn md_rendered(b: Block) -> Seq<char> {
    match b {
        Block::Leaf { leaf } => match leaf {
            LeafBlock::Heading { level, content } => Seq::new(level as nat, |_i: int| '#')
                + seq![' '] + inline_texts(content@),
            LeafBlock::HorizontalRule => seq!['-', '-', '-'],
            LeafBlock::Paragraph { content } => inline_texts(content@),
            LeafBlock::CodeBlock { language, content } => fence_seq() + opt_chars(language)
                + seq!['\n'] + content@ + seq!['\n'] + fence_seq(),
            _ => Seq::empty(),
        },
        _ => Seq::empty(),
    }
}

pub open spec fn begin_seq() -> Seq<char> {
    seq!['#', '+', 'B', 'E', 'G', 'I', 'N', '_']
}

pub open spec fn dollar_seq() -> Seq<char> {
    seq!['$', '$']
}

/// Markdown takes text that is not blank, opens no Org block and holds no `$$`.
pub open spec fn md_can_handle(t: Seq<char>) -> bool {
    trim(t).len() > 0 && !has_prefix(trim(t), begin_seq()) && !contains(t, dollar_seq())
}

/// An Org heading line (already trimmed at the start): level and title.
pub open spec fn org_heading(l: Seq<char>) -> Option<(u8, Seq<char>)> {
    let n = run_end(l, '*', 0);
    if 0 < n < 7 && n < l.len() && l[n] == ' ' {
        Some((n as u8, trim(l.subrange(n + 1, l.len() as int))))
    } else {
        None
    }
}

pub open spec fn todo_seq() -> Seq<char> {
    seq!['T', 'O', 'D', 'O']
}

pub open spec fn done_seq() -> Seq<char> {
    seq!['D', 'O', 'N', 'E']
}

/// The TODO keyword that a heading title starts with, if any.
pub open spec fn org_todo(title: Seq<char>) -> Option<Seq<char>> {
    if has_prefix(title, todo_seq().push(' ')) {
        Some(todo_seq())
    } else if has_prefix(title, done_seq().push(' ')) {
        Some(done_seq())
    } else {
        None
    }
}

pub open spec fn src_seq() -> Seq<char> {
    seq!['#', '+', 'B', 'E', 'G', 'I', 'N', '_', 'S', 'R', 'C']
}

pub open spec fn end_src_seq() -> Seq<char> {
    seq!['#', '+', 'E', 'N', 'D', '_', 'S', 'R', 'C']
}

/// The body lines of a source block: all but the first and the last.
pub open spec fn org_body(ls: Seq<Seq<char>>) -> Seq<char> {
    if ls.len() >= 2 {
        join_lines(ls.subrange(1, ls.len() - 1))
    } else {
        Seq::empty()
    }
}

/// What the Org block parser yields for `raw`.
pub open spec fn org_parsed(raw: Seq<char>, b: Block, m: BlockMetadata) -> bool {
    let ls = lines_of(raw);
    if ls.len() == 0 {
        m.is_empty_spec() && (b matches Block::Leaf { leaf: LeafBlock::Paragraph { content } }
            && content@.len() == 0)
    } else {
        let first = trim_start(ls[0]);
        if org_heading(first) is Some {
            let (n, title) = org_heading(first)->0;
            &&& m.heading_level == Some(n)
            &&& m.id is None
            &&& opt_view_of(m.todo_state) == org_todo(title)
            &&& m.properties@.len() == 0
            &&& (b matches Block::Leaf { leaf: LeafBlock::Heading { level, content } } && level
                == n && single_text(content@, title))
        } else if has_prefix(first, src_seq()) {
            let lang = trim(first.subrange(11, first.len() as int));
            &&& m.is_empty_spec()
            &&& (b matches Block::Leaf { leaf: LeafBlock::CodeBlock { language, content } }
                && content@ == org_body(ls) && opt_view_of(language) == (if lang.len() == 0 {
                None::<Seq<char>>
            } else {
                Some(lang)
            }))
        } else {
            m.is_empty_spec() && (b matches Block::Leaf { leaf: LeafBlock::Paragraph { content } }
                && single_text(content@, raw))
        }
    }
}

pub open spec fn opt_view_of(o: Option<String>) -> Option<Seq<char>> {
    match o {
        Some(s) => Some(s@),
        None => None,
    }
}

/// What the Org block parser renders for a block.
pub open spec fn org_rendered(b: Block, m: BlockMetadata) -> Seq<char> {
    match b {
        Block::Leaf { leaf } => match leaf {
            LeafBlock::Heading { level, content } => Seq::new(level as nat, |_i: int| '*')
                + seq![' '] + (match m.todo_state {
                Some(t) => t@ + seq![' '],
                None => Seq::empty(),
            }) + inline_texts(content@),
            LeafBlock::CodeBlock { language, content } => src_seq() + seq![' '] + opt_chars(
                language,
            ) + seq!['\n'] + content@ + seq!['\n'] + end_src_seq(),
            LeafBlock::Paragraph { content } => inline_texts(content@),
            _ => Seq::empty(),
        },
        _ => Seq::empty(),
    }
}

pub open spec fn org_can_handle(t: Seq<char>) -> bool {
    let s = trim_start(t);
    has_prefix(s, seq!['*']) || has_prefix(s, begin_seq()) || has_prefix(
        s,
        seq!['#', '+', 'T', 'I', 'T', 'L', 'E', ':'],
    ) || has_prefix(s, seq!['#', '+', 'A', 'U', 'T', 'H', 'O', 'R', ':'])
}

pub open spec fn open_bracket() -> Seq<char> {
    seq!['\\', '[']
}

pub open spec fn close_bracket() -> Seq<char> {
    seq!['\\', ']']
}

/// The math inside LaTeX delimiters.
pub open spec fn math_content(raw: Seq<char>) -> Seq<char> {
    if contains(raw, dollar_seq()) {
        trim(remove_all(raw, dollar_seq()))
    } else if contains(raw, open_bracket()) {
        trim(remove_all(remove_all(raw, open_bracket()), close_bracket()))
    } else {
        raw
    }
}

pub open spec fn latex_parsed(raw: Seq<char>, b: Block, m: BlockMetadata) -> bool {
    m.is_empty_spec() && (b matches Block::Leaf { leaf: LeafBlock::MathBlock { content } }
        && content@ == math_content(raw))
}

pub open spec fn latex_rendered(b: Block) -> Seq<char> {
    match b {
        Block::Leaf { leaf: LeafBlock::MathBlock { content } } => dollar_seq() + content@
            + dollar_seq(),
        _ => Seq::empty(),
    }
}

pub open spec fn latex_can_handle(t: Seq<char>) -> bool {
    contains(t, dollar_seq()) || contains(t, open_bracket()) || contains(t, close_bracket())
}

/// A parser for one dialect.
pub trait Parser {
    /// The dialect this parser handles.
    fn syntax_kind(&self) -> SyntaxKind;

    /// Parses raw text into a block and its metadata.
    fn parse(&self, raw_text: &str, line_offset: usize) -> Result<(Block, BlockMetadata), ParseError>;

    /// Renders a block back to text; never fails, empty for blocks it does not know.
    fn render(&self, block: &Block, metadata: &BlockMetadata) -> String;

    /// An advisory check whether the text looks like this dialect.
    fn can_handle(&self, text: &str) -> bool;
}

fn text_inline(v: &Vec<char>) -> (r: Vec<Inline>)
    ensures
        single_text(r@, v@),
{
    let mut r: Vec<Inline> = Vec::new();
    r.push(Inline::Text { text: string_of(v) });
    r
}

/// The text inlines of `content` joined with single spaces.
pub(crate) fn render_texts(content: &Vec<Inline>) -> (r: Vec<char>)
    ensures
        r@ == inline_texts(content@),
{
    let mut r: Vec<char> = Vec::new();
    let mut seen: bool = false;
    let mut i: usize = 0;
    while i < content.len()
        invariant
            i <= content.len(),
            seen == (text_items(content@.subrange(0, i as int)).len() > 0),
            r@ == join_sep(text_items(content@.subrange(0, i as int)), seq![' ']),
        decreases content.len() - i,
    {
        let ghost prev = content@.subrange(0, i as int);
        let ghost next = content@.subrange(0, i + 1);
        assert(next.drop_last() =~= prev);
        assert(next.last() == content@[i as int]);
        match &content[i] {
            Inline::Text { text } => {
                let ghost items = text_items(prev);
                assert(text_items(next) == items.push(text@));
                if seen {
                    r.push(' ');
                }
                push_all(&mut r, &chars_of(text.as_str()));
                proof {
                    let ni = items.push(text@);
                    assert(ni.drop_last() =~= items);
                    if items.len() == 0 {
                        assert(r@ =~= ni[0]);
                    } else {
                        assert(r@ =~= join_sep(items, seq![' ']) + seq![' '] + ni.last());
                    }
                }
                seen = true;
            },
            _ => {
                assert(text_items(next) == text_items(prev));
            },
        }
        i = i + 1;
    }
    assert(content@.subrange(0, content.len() as int) =~= content@);
    r
}

/// Heading level of a Markdown line.
fn heading_level_of(l: &Vec<char>) -> (r: Option<u8>)
    ensures
        r == md_heading_level(l@),
{
    let t = trim_start_chars(l);
    let n = run_len(&t, '#');
    if 0 < n && n < 7 && n < t.len() && t[n] == ' ' {
        Some(n as u8)
    } else {
        None
    }
}

fn is_rule_char(c: char) -> (r: bool)
    ensures
        r == rule_char(c),
{
    c == '-' || c == '*' || c == '_' || is_space_char(c)
}

fn is_rule(l: &Vec<char>) -> (r: bool)
    ensures
        r == md_rule(l@),
{
    let t = trim_chars(l);
    let d = vec!['-', '-', '-'];
    let s = vec!['*', '*', '*'];
    let u = vec!['_', '_', '_'];
    assert(d@ =~= seq!['-', '-', '-']);
    assert(s@ =~= seq!['*', '*', '*']);
    assert(u@ =~= seq!['_', '_', '_']);
    if !(starts_with(&t, &d) || starts_with(&t, &s) || starts_with(&t, &u)) {
        return false;
    }
    let mut i: usize = 0;
    while i < t.len()
        invariant
            i <= t.len(),
            t@ == trim(l@),
            forall|k: int| 0 <= k < i ==> rule_char(#[trigger] t@[k]),
        decreases t.len() - i,
    {
        if !is_rule_char(t[i]) {
            assert(!rule_char(trim(l@)[i as int]));
            return false;
        }
        i = i + 1;
    }
    true
}

/// Parser for Markdown blocks.
#[derive(Debug, Clone, Copy, PartialEq, Eq)]
pub struct MarkdownParser;

impl MarkdownParser {
    pub fn syntax_kind(&self) -> (r: SyntaxKind)
        ensures
            r == SyntaxKind::Markdown,
    {
        SyntaxKind::Markdown
    }

    /// A heading, a horizontal rule, or else a paragraph of the whole text.
    pub fn parse(&self, raw_text: &str, line_offset: usize) -> (r: Result<
        (Block, BlockMetadata),
        ParseError,
    >)
        ensures
            r matches Ok((b, m)) && md_parsed(raw_text@, b, m),
    {
        let lines = lines_of_str(raw_text);
        let ghost ls = lines.deep_view();
        if lines.len() > 0 {
            assert(ls[0] == lines@[0]@);
            if let Some(level) = heading_level_of(&lines[0]) {
                let first = &lines[0];
                let n = run_len(first, '#');
                let body = trim_chars(&subvec(first, n, first.len()));
                let metadata = BlockMetadata {
                    heading_level: Some(level),
                    id: None,
                    todo_state: None,
                    properties: Vec::new(),
                };
                return Ok((Block::heading(level, text_inline(&body)), metadata));
            }
            if lines.len() == 1 && is_rule(&lines[0]) {
                return Ok((Block::horizontal_rule(), BlockMetadata::default()));
            }
        }
        let all = chars_of(raw_text);
        Ok((Block::paragraph(text_inline(&all)), BlockMetadata::default()))
    }

    /// Text for headings, rules, paragraphs and code blocks; empty for anything else.
    pub fn render(&self, block: &Block, metadata: &BlockMetadata) -> (r: String)
        ensures
            r@ == md_rendered(*block),
    {
        let r = md_render_chars(block);
        string_of(&r)
    }

    pub fn can_handle(&self, text: &str) -> (r: bool)
        ensures
            r == md_can_handle(text@),
    {
        let t = chars_of(text);
        let tt = trim_chars(&t);
        let b = vec!['#', '+', 'B', 'E', 'G', 'I', 'N', '_'];
        let d = vec!['$', '$'];
        assert(b@ =~= begin_seq());
        assert(d@ =~= dollar_seq());
        tt.len() > 0 && !starts_with(&tt, &b) && !contains_chars(&t, &d)
    }
}

fn md_render_chars(block: &Block) -> (r: Vec<char>)
    ensures
        r@ == md_rendered(*block),
{
    match block {
        Block::Leaf { leaf: LeafBlock::Heading { level, content } } => {
            let mut r = repeat_char('#', *level as usize);
            r.push(' ');
            push_all(&mut r, &render_texts(content));
            r
        },
        Block::Leaf { leaf: LeafBlock::HorizontalRule } => {
            let r = vec!['-', '-', '-'];
            assert(r@ =~= seq!['-', '-', '-']);
            r
        },
        Block::Leaf { leaf: LeafBlock::Paragraph { content } } => render_texts(content),
        Block::Leaf { leaf: LeafBlock::CodeBlock { language, content } } => {
            let mut r = vec!['`', '`', '`'];
            assert(r@ =~= fence_seq());
            match language {
                Some(l) => push_all(&mut r, &chars_of(l.as_str())),
                None => {},
            }
            r.push('\n');
            push_all(&mut r, &chars_of(content.as_str()));
            r.push('\n');
            let f = vec!['`', '`', '`'];
            assert(f@ =~= fence_seq());
            push_all(&mut r, &f);
            r
        },
        _ => Vec::new(),
    }
}

impl Parser for MarkdownParser {
    fn syntax_kind(&self) -> SyntaxKind {
        SyntaxKind::Markdown
    }

    fn parse(&self, raw_text: &str, line_offset: usize) -> Result<(Block, BlockMetadata), ParseError> {
        MarkdownParser::parse(self, raw_text, line_offset)
    }

    fn render(&self, block: &Block, metadata: &BlockMetadata) -> String {
        MarkdownParser::render(self, block, metadata)
    }

    fn can_handle(&self, text: &str) -> bool {
        MarkdownParser::can_handle(self, text)
    }
}

fn org_heading_of(l: &Vec<char>) -> (r: Option<(u8, Vec<char>)>)
    ensures
        match org_heading(l@) {
            Some((n, t)) => r matches Some((m, u)) && m == n && u@ == t,
            None => r is None,
        },
{
    let n = run_len(l, '*');
    if 0 < n && n < 7 && n < l.len() && l[n] == ' ' {
        let title = trim_chars(&subvec(l, n + 1, l.len()));
        Some((n as u8, title))
    } else {
        None
    }
}

/// Parser for Org-mode blocks.
#[derive(Debug, Clone, Copy, PartialEq, Eq)]
pub struct OrgParser;

impl OrgParser {
    pub fn syntax_kind(&self) -> (r: SyntaxKind)
        ensures
            r == SyntaxKind::Org,
    {
        SyntaxKind::Org
    }

    /// A heading (with its TODO state), a source block, or else a paragraph.
    pub fn parse(&self, raw_text: &str, line_offset: usize) -> (r: Result<
        (Block, BlockMetadata),
        ParseError,
    >)
        ensures
            r matches Ok((b, m)) && org_parsed(raw_text@, b, m),
    {
        let lines = lines_of_str(raw_text);
        let ghost ls = lines.deep_view();
        if lines.len() == 0 {
            return Ok((Block::paragraph(Vec::new()), BlockMetadata::default()));
        }
        assert(ls[0] == lines@[0]@);
        let first = trim_start_chars(&lines[0]);
        if let Some((level, title)) = org_heading_of(&first) {
            let todo = vec!['T', 'O', 'D', 'O', ' '];
            let done = vec!['D', 'O', 'N', 'E', ' '];
            assert(todo@ =~= todo_seq().push(' '));
            assert(done@ =~= done_seq().push(' '));
            let todo_state = if starts_with(&title, &todo) {
                let t = vec!['T', 'O', 'D', 'O'];
                assert(t@ =~= todo_seq());
                Some(string_of(&t))
            } else if starts_with(&title, &done) {
                let t = vec!['D', 'O', 'N', 'E'];
                assert(t@ =~= done_seq());
                Some(string_of(&t))
            } else {
                None
            };
            let metadata = BlockMetadata {
                heading_level: Some(level),
                id: None,
                todo_state,
                properties: Vec::new(),
            };
            return Ok((Block::heading(level, text_inline(&title)), metadata));
        }
        let src = vec!['#', '+', 'B', 'E', 'G', 'I', 'N', '_', 'S', 'R', 'C'];
        assert(src@ =~= src_seq());
        if starts_with(&first, &src) {
            let lang = trim_chars(&subvec(&first, 11, first.len()));
            let language = if lang.len() == 0 {
                None
            } else {
                Some(string_of(&lang))
            };
            let body = if lines.len() >= 2 {
                join_range(&lines, 1, lines.len() - 1)
            } else {
                Vec::new()
            };
            let content = string_of(&body);
            let b = Block::code_block(language, content);
            return Ok((b, BlockMetadata::default()));
        }
        let all = chars_of(raw_text);
        Ok((Block::paragraph(text_inline(&all)), BlockMetadata::default()))
    }

    /// Text for headings, source blocks and paragraphs; empty for anything else.
    pub fn render(&self, block: &Block, metadata: &BlockMetadata) -> (r: String)
        ensures
            r@ == org_rendered(*block, *metadata),
    {
        let r = org_render_chars(block, metadata);
        string_of(&r)
    }

    pub fn can_handle(&self, text: &str) -> (r: bool)
        ensures
            r == org_can_handle(text@),
    {
        let t = trim_start_chars(&chars_of(text));
        let star = vec!['*'];
        let b = vec!['#', '+', 'B', 'E', 'G', 'I', 'N', '_'];
        let ti = vec!['#', '+', 'T', 'I', 'T', 'L', 'E', ':'];
        let au = vec!['#', '+', 'A', 'U', 'T', 'H', 'O', 'R', ':'];
        assert(star@ =~= seq!['*']);
        assert(b@ =~= begin_seq());
        assert(ti@ =~= seq!['#', '+', 'T', 'I', 'T', 'L', 'E', ':']);
        assert(au@ =~= seq!['#', '+', 'A', 'U', 'T', 'H', 'O', 'R', ':']);
        starts_with(&t, &star) || starts_with(&t, &b) || starts_with(&t, &ti) || starts_with(
            &t,
            &au,
        )
    }
}

fn org_render_chars(block: &Block, metadata: &BlockMetadata) -> (r: Vec<char>)
    ensures
        r@ == org_rendered(*block, *metadata),
{
    match block {
        Block::Leaf { leaf: LeafBlock::Heading { level, content } } => {
            let mut r = repeat_char('*', *level as usize);
            r.push(' ');
            match &metadata.todo_state {
                Some(t) => {
                    push_all(&mut r, &chars_of(t.as_str()));
                    r.push(' ');
                },
                None => {},
            }
            push_all(&mut r, &render_texts(content));
            r
        },
        Block::Leaf { leaf: LeafBlock::CodeBlock { language, content } } => {
            let mut r = vec!['#', '+', 'B', 'E', 'G', 'I', 'N', '_', 'S', 'R', 'C'];
            assert(r@ =~= src_seq());
            r.push(' ');
            match language {
                Some(l) => push_all(&mut r, &chars_of(l.as_str())),
                None => {},
            }
            r.push('\n');
            push_all(&mut r, &chars_of(content.as_str()));
            r.push('\n');
            let e = vec!['#', '+', 'E', 'N', 'D', '_', 'S', 'R', 'C'];
            assert(e@ =~= end_src_seq());
            push_all(&mut r, &e);
            r
        },
        Block::Leaf { leaf: LeafBlock::Paragraph { content } } => render_texts(content),
        _ => Vec::new(),
    }
}

impl Parser for OrgParser {
    fn syntax_kind(&self) -> SyntaxKind {
        SyntaxKind::Org
    }

    fn parse(&self, raw_text: &str, line_offset: usize) -> Result<(Block, BlockMetadata), ParseError> {
        OrgParser::parse(self, raw_text, line_offset)
    }

    fn render(&self, block: &Block, metadata: &BlockMetadata) -> String {
        OrgParser::render(self, block, metadata)
    }

    fn can_handle(&self, text: &str) -> bool {
        OrgParser::can_handle(self, text)
    }
}

/// Parser for LaTeX display math.
#[derive(Debug, Clone, Copy, PartialEq, Eq)]
pub struct LaTeXParser;

impl LaTeXParser {
    pub fn syntax_kind(&self) -> (r: SyntaxKind)
        ensures
            r == SyntaxKind::LaTeX,
    {
        SyntaxKind::LaTeX
    }

    /// A math block of the text inside its delimiters.
    pub fn parse(&self, raw_text: &str, line_offset: usize) -> (r: Result<
        (Block, BlockMetadata),
        ParseError,
    >)
        ensures
            r matches Ok((b, m)) && latex_parsed(raw_text@, b, m),
    {
        let t = chars_of(raw_text);
        let content = extract_math(&t);
        Ok((Block::math_block(string_of(&content)), BlockMetadata::default()))
    }

    /// `$$content$$` for a math block; empty for anything else.
    pub fn render(&self, block: &Block, metadata: &BlockMetadata) -> (r: String)
        ensures
            r@ == latex_rendered(*block),
    {
        match block {
            Block::Leaf { leaf: LeafBlock::MathBlock { content } } => {
                let mut r = vec!['$', '$'];
                push_all(&mut r, &chars_of(content.as_str()));
                r.push('$');
                r.push('$');
                assert(r@ =~= latex_rendered(*block));
                string_of(&r)
            },
            _ => string_of(&Vec::new()),
        }
    }

    pub fn can_handle(&self, text: &str) -> (r: bool)
        ensures
            r == latex_can_handle(text@),
    {
        let t = chars_of(text);
        let d = vec!['$', '$'];
        let o = vec!['\\', '['];
        let c = vec!['\\', ']'];
        assert(d@ =~= dollar_seq());
        assert(o@ =~= open_bracket());
        assert(c@ =~= close_bracket());
        contains_chars(&t, &d) || contains_chars(&t, &o) || contains_chars(&t, &c)
    }
}

fn extract_math(t: &Vec<char>) -> (r: Vec<char>)
    ensures
        r@ == math_content(t@),
{
    let d = vec!['$', '$'];
    let o = vec!['\\', '['];
    let c = vec!['\\', ']'];
    assert(d@ =~= dollar_seq());
    assert(o@ =~= open_bracket());
    assert(c@ =~= close_bracket());
    if contains_chars(t, &d) {
        return trim_chars(&remove_all_chars(t, &d));
    }
    if contains_chars(t, &o) {
        let a = remove_all_chars(t, &o);
        return trim_chars(&remove_all_chars(&a, &c));
    }
    subvec(t, 0, t.len())
}

impl Parser for LaTeXParser {
    fn syntax_kind(&self) -> SyntaxKind {
        SyntaxKind::LaTeX
    }

    fn parse(&self, raw_text: &str, line_offset: usize) -> Result<(Block, BlockMetadata), ParseError> {
        LaTeXParser::parse(self, raw_text, line_offset)
    }

    fn render(&self, block: &Block, metadata: &BlockMetadata) -> String {
        LaTeXParser::render(self, block, metadata)
    }

    fn can_handle(&self, text: &str) -> bool {
        LaTeXParser::can_handle(self, text)
    }
}

/// What the code-block parser yields for `raw`: a fenced block's language and the lines
/// between its fences, or else the whole text as code without a language.
pub open spec fn code_parsed(raw: Seq<char>, b: Block, m: BlockMetadata) -> bool {
    let ls = lines_of(raw);
    &&& m.is_empty_spec()
    &&& if ls.len() > 0 && has_prefix(trim(ls[0]), fence_seq()) {
        b matches Block::Leaf { leaf: LeafBlock::CodeBlock { language, content } } && opt_view_of(
            language,
        ) == crate::markdown::fence_lang(trim(ls[0])) && content@ == org_body(ls)
    } else {
        b matches Block::Leaf { leaf: LeafBlock::CodeBlock { language, content } } && language is None
            && content@ == raw
    }
}

/// The code-block parser renders a code block as a fenced block, and nothing else.
pub open spec fn code_rendered(b: Block) -> Seq<char> {
    match b {
        Block::Leaf { leaf: LeafBlock::CodeBlock { .. } } => md_rendered(b),
        _ => Seq::empty(),
    }
}

pub open spec fn code_can_handle(t: Seq<char>) -> bool {
    has_prefix(trim(t), fence_seq())
}

/// Parser for fenced code blocks.
#[derive(Debug, Clone, Copy, PartialEq, Eq)]
pub struct CodeParser;

impl CodeParser {
    pub fn syntax_kind(&self) -> (r: SyntaxKind)
        ensures
            r == SyntaxKind::Code,
    {
        SyntaxKind::Code
    }

    /// A code block: the fence's language and the lines between the fences.
    pub fn parse(&self, raw_text: &str, line_offset: usize) -> (r: Result<
        (Block, BlockMetadata),
        ParseError,
    >)
        ensures
            r matches Ok((b, m)) && code_parsed(raw_text@, b, m),
    {
        let lines = lines_of_str(raw_text);
        let ghost ls = lines.deep_view();
        let fence = vec!['`', '`', '`'];
        assert(fence@ =~= fence_seq());
        if lines.len() > 0 {
            assert(ls[0] == lines@[0]@);
            let first = trim_chars(&lines[0]);
            if starts_with(&first, &fence) {
                let lang = trim_chars(&subvec(&first, 3, first.len()));
                let language = if lang.len() == 0 {
                    None
                } else {
                    Some(string_of(&lang))
                };
                let body = if lines.len() >= 2 {
                    join_range(&lines, 1, lines.len() - 1)
                } else {
                    Vec::new()
                };
                return Ok((Block::code_block(language, string_of(&body)), BlockMetadata::default()));
            }
        }
        let all = chars_of(raw_text);
        Ok((Block::code_block(None, string_of(&all)), BlockMetadata::default()))
    }

    /// A fenced block for a code block; empty for anything else.
    pub fn render(&self, block: &Block, metadata: &BlockMetadata) -> (r: String)
        ensures
            r@ == code_rendered(*block),
    {
        match block {
            Block::Leaf { leaf: LeafBlock::CodeBlock { .. } } => string_of(&md_render_chars(block)),
            _ => string_of(&Vec::new()),
        }
    }

    pub fn can_handle(&self, text: &str) -> (r: bool)
        ensures
            r == code_can_handle(text@),
    {
        let fence = vec!['`', '`', '`'];
        assert(fence@ =~= fence_seq());
        starts_with(&trim_chars(&chars_of(text)), &fence)
    }
}

impl Parser for CodeParser {
    fn syntax_kind(&self) -> SyntaxKind {
        SyntaxKind::Code
    }

    fn parse(&self, raw_text: &str, line_offset: usize) -> Result<(Block, BlockMetadata), ParseError> {
        CodeParser::parse(self, raw_text, line_offset)
    }

    fn render(&self, block: &Block, metadata: &BlockMetadata) -> String {
        CodeParser::render(self, block, metadata)
    }

    fn can_handle(&self, text: &str) -> bool {
        CodeParser::can_handle(self, text)
    }
}

} // verus!
