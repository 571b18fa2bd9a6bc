//! Lookup from syntax kind to the parser registered for it.
use crate::error::ParseError;
use crate::models::Block;
use crate::parsers::{
    code_can_handle, code_parsed, code_rendered, latex_can_handle, latex_parsed, latex_rendered,
    md_can_handle, md_parsed, md_rendered, org_can_handle, org_parsed, org_rendered, CodeParser,
    LaTeXParser, MarkdownParser, OrgParser,
};
use crate::syntax::{BlockMetadata, SyntaxKind};
use vstd::prelude::*;

verus! {

/// One of the built-in parsers.
#[derive(Debug, Clone, Copy, PartialEq, Eq)]
pub enum AnyParser {
    Markdown(MarkdownParser),
    Org(OrgParser),
    LaTeX(LaTeXParser),
    Code(CodeParser),
}

impl AnyParser {
    pub open spec fn kind(&self) -> SyntaxKind {
        match self {
            AnyParser::Markdown(_) => SyntaxKind::Markdown,
            AnyParser::Org(_) => SyntaxKind::Org,
            AnyParser::LaTeX(_) => SyntaxKind::LaTeX,
            AnyParser::Code(_) => SyntaxKind::Code,
        }
    }

    /// What this parser yields for `raw`.
    pub open spec fn parsed(&self, raw: Seq<char>, b: Block, m: BlockMetadata) -> bool {
        match self {
            AnyParser::Markdown(_) => md_parsed(raw, b, m),
            AnyParser::Org(_) => org_parsed(raw, b, m),
            AnyParser::LaTeX(_) => latex_parsed(raw, b, m),
            AnyParser::Code(_) => code_parsed(raw, b, m),
        }
    }

    /// What this parser renders for a block.
    pub open spec fn rendered(&self, b: Block, m: BlockMetadata) -> Seq<char> {
        match self {
            AnyParser::Markdown(_) => md_rendered(b),
            AnyParser::Org(_) => org_rendered(b, m),
            AnyParser::LaTeX(_) => latex_rendered(b),
            AnyParser::Code(_) => code_rendered(b),
        }
    }

    pub open spec fn handles(&self, t: Seq<char>) -> bool {
        match self {
            AnyParser::Markdown(_) => md_can_handle(t),
            AnyParser::Org(_) => org_can_handle(t),
            AnyParser::LaTeX(_) => latex_can_handle(t),
            AnyParser::Code(_) => code_can_handle(t),
        }
    }

    pub fn syntax_kind(&self) -> (r: SyntaxKind)
        ensures
            r == self.kind(),
    {
        match self {
            AnyParser::Markdown(p) => p.syntax_kind(),
            AnyParser::Org(p) => p.syntax_kind(),
            AnyParser::LaTeX(p) => p.syntax_kind(),
            AnyParser::Code(p) => p.syntax_kind(),
        }
    }

    pub fn parse(&self, raw_text: &str, line_offset: usize) -> (r: Result<
        (Block, BlockMetadata),
        ParseError,
    >)
        ensures
            r matches Ok((b, m)) && self.parsed(raw_text@, b, m),
    {
        match self {
            AnyParser::Markdown(p) => p.parse(raw_text, line_offset),
            AnyParser::Org(p) => p.parse(raw_text, line_offset),
            AnyParser::LaTeX(p) => p.parse(raw_text, line_offset),
            AnyParser::Code(p) => p.parse(raw_text, line_offset),
        }
    }

    pub fn render(&self, block: &Block, metadata: &BlockMetadata) -> (r: String)
        ensures
            r@ == self.rendered(*block, *metadata),
    {
        match self {
            AnyParser::Markdown(p) => p.render(block, metadata),
            AnyParser::Org(p) => p.render(block, metadata),
            AnyParser::LaTeX(p) => p.render(block, metadata),
            AnyParser::Code(p) => p.render(block, metadata),
        }
    }

    pub fn can_handle(&self, text: &str) -> (r: bool)
        ensures
            r == self.handles(text@),
    {
        match self {
            AnyParser::Markdown(p) => p.can_handle(text),
            AnyParser::Org(p) => p.can_handle(text),
            AnyParser::LaTeX(p) => p.can_handle(text),
            AnyParser::Code(p) => p.can_handle(text),
        }
    }
}

/// The built-in parser for a kind, if there is one.
pub open spec fn builtin(k: SyntaxKind) -> Option<AnyParser> {
    match k {
        SyntaxKind::Markdown => Some(AnyParser::Markdown(MarkdownParser)),
        SyntaxKind::Org => Some(AnyParser::Org(OrgParser)),
        SyntaxKind::LaTeX => Some(AnyParser::LaTeX(LaTeXParser)),
        SyntaxKind::Code => Some(AnyParser::Code(CodeParser)),
        _ => None,
    }
}

/// At most one parser per syntax kind.
#[derive(Debug, Clone, Copy, PartialEq, Eq)]
pub struct ParserRegistry {
    markdown: bool,
    org: bool,
    latex: bool,
    code: bool,
}

impl ParserRegistry {
    /// Whether a parser is registered for `k`.
    pub closed spec fn has(&self, k: SyntaxKind) -> bool {
        match k {
            SyntaxKind::Markdown => self.markdown,
            SyntaxKind::Org => self.org,
            SyntaxKind::LaTeX => self.latex,
            SyntaxKind::Code => self.code,
            _ => false,
        }
    }

    /// The parser registered for `k`, if any.
    pub open spec fn lookup(&self, k: SyntaxKind) -> Option<AnyParser> {
        if self.has(k) {
            builtin(k)
        } else {
            None
        }
    }

    pub proof fn lemma_has_builtin(&self, k: SyntaxKind)
        ensures
            self.has(k) ==> builtin(k) is Some,
    {
    }

    /// An empty registry.
    pub fn new() -> (r: ParserRegistry)
        ensures
            forall|k: SyntaxKind| !r.has(k),
    {
        ParserRegistry { markdown: false, org: false, latex: false, code: false }
    }

    /// Registers `parser` for its kind, replacing any earlier one.
    pub fn register(&mut self, parser: AnyParser)
        ensures
            forall|k: SyntaxKind| final(self).has(k) == (old(self).has(k) || k == parser.kind()),
    {
        match parser {
            AnyParser::Markdown(_) => self.markdown = true,
            AnyParser::Org(_) => self.org = true,
            AnyParser::LaTeX(_) => self.latex = true,
            AnyParser::Code(_) => self.code = true,
        }
    }

    pub fn get(&self, syntax: SyntaxKind) -> (r: Option<AnyParser>)
        ensures
            r == self.lookup(syntax),
    {
        match syntax {
            SyntaxKind::Markdown => if self.markdown {
                Some(AnyParser::Markdown(MarkdownParser))
            } else {
                None
            },
            SyntaxKind::Org => if self.org {
                Some(AnyParser::Org(OrgParser))
            } else {
                None
            },
            SyntaxKind::LaTeX => if self.latex {
                Some(AnyParser::LaTeX(LaTeXParser))
            } else {
                None
            },
            SyntaxKind::Code => if self.code {
                Some(AnyParser::Code(CodeParser))
            } else {
                None
            },
            _ => None,
        }
    }

    /// The registered kinds, each once.
    pub fn available_syntaxes(&self) -> (r: Vec<SyntaxKind>)
        ensures
            forall|k: SyntaxKind| r@.contains(k) == self.has(k),
            r@.no_duplicates(),
    {
        let mut r: Vec<SyntaxKind> = Vec::new();
        if self.markdown {
            r.push(SyntaxKind::Markdown);
        }
        assert forall|k: SyntaxKind| r@.contains(k) == (self.markdown && k == SyntaxKind::Markdown) by {
            if r@.contains(k) {
                let i = choose|i: int| 0 <= i < r@.len() && r@[i] == k;
            }
            if self.markdown && k == SyntaxKind::Markdown {
                assert(r@[0] == k);
            }
        }
        if self.org {
            let ghost before = r@;
            r.push(SyntaxKind::Org);
            proof {
                assert forall|k: SyntaxKind| r@.contains(k) == (before.contains(k) || k == SyntaxKind::Org) by {
                    lemma_push_contains(before, SyntaxKind::Org, k);
                }
                assert forall|k: SyntaxKind| r@.contains(k) == ((self.markdown && k
                    == SyntaxKind::Markdown) || (self.org && k == SyntaxKind::Org)) by {
                    lemma_push_contains(before, SyntaxKind::Org, k);
                    assert(before.contains(k) == (self.markdown && k == SyntaxKind::Markdown));
                }
            }
        }
        assert(forall|k: SyntaxKind| r@.contains(k) == ((self.markdown && k == SyntaxKind::Markdown)
            || (self.org && k == SyntaxKind::Org)));
        if self.latex {
            let ghost before = r@;
            r.push(SyntaxKind::LaTeX);
            proof {
                assert forall|k: SyntaxKind| r@.contains(k) == (before.contains(k) || k == SyntaxKind::LaTeX) by {
                    lemma_push_contains(before, SyntaxKind::LaTeX, k);
                }
                assert forall|k: SyntaxKind| r@.contains(k) == ((self.markdown && k
                    == SyntaxKind::Markdown) || (self.org && k == SyntaxKind::Org) || (self.latex
                    && k == SyntaxKind::LaTeX)) by {
                    lemma_push_contains(before, SyntaxKind::LaTeX, k);
                    assert(before.contains(k) == ((self.markdown && k == SyntaxKind::Markdown) || (
                    self.org && k == SyntaxKind::Org)));
                }
            }
        }
        assert(forall|k: SyntaxKind| r@.contains(k) == ((self.markdown && k == SyntaxKind::Markdown)
            || (self.org && k == SyntaxKind::Org) || (self.latex && k == SyntaxKind::LaTeX)));
        if self.code {
            let ghost before = r@;
            r.push(SyntaxKind::Code);
            proof {
                assert forall|k: SyntaxKind| r@.contains(k) == ((self.markdown && k
                    == SyntaxKind::Markdown) || (self.org && k == SyntaxKind::Org) || (self.latex
                    && k == SyntaxKind::LaTeX) || (self.code && k == SyntaxKind::Code)) by {
                    lemma_push_contains(before, SyntaxKind::Code, k);
                    assert(before.contains(k) == ((self.markdown && k == SyntaxKind::Markdown) || (
                    self.org && k == SyntaxKind::Org) || (self.latex && k == SyntaxKind::LaTeX)));
                }
            }
        }
        assert(forall|k: SyntaxKind| r@.contains(k) == ((self.markdown && k == SyntaxKind::Markdown)
            || (self.org && k == SyntaxKind::Org) || (self.latex && k == SyntaxKind::LaTeX) || (self.code
            && k == SyntaxKind::Code)));
        r
    }
}

proof fn lemma_push_contains(s: Seq<SyntaxKind>, x: SyntaxKind, k: SyntaxKind)
    ensures
        s.push(x).contains(k) == (s.contains(k) || x == k),
{
    let t = s.push(x);
    if s.contains(k) {
        let i = choose|i: int| 0 <= i < s.len() && s[i] == k;
        assert(t[i] == k);
    }
    if x == k {
        assert(t[s.len() as int] == k);
    }
    if t.contains(k) {
        let i = choose|i: int| 0 <= i < t.len() && t[i] == k;
        if i < s.len() {
            assert(s[i] == k);
        }
    }
}

impl Default for ParserRegistry {
    fn default() -> (r: ParserRegistry)
        ensures
            forall|k: SyntaxKind| !r.has(k),
    {
        ParserRegistry::new()
    }
}

} // verus!
