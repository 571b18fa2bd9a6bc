use libnote::models::{Block, Inline, LeafBlock};
use libnote::parsers::{LaTeXParser, MarkdownParser, OrgParser, Parser};
use libnote::syntax::{BlockMetadata, SyntaxKind};

#[test]
fn parse_latex_display_math() {
    let parser = LaTeXParser;
    let (block, _) = parser.parse("$$E = mc^2$$", 0).unwrap();
    assert!(matches!(block, Block::Leaf { leaf: LeafBlock::MathBlock { .. } }));
}

#[test]
fn parse_latex_bracket_notation() {
    let parser = LaTeXParser;
    let (block, _) = parser.parse("\\[x^2 + y^2 = z^2\\]", 0).unwrap();
    assert!(matches!(block, Block::Leaf { leaf: LeafBlock::MathBlock { .. } }));
}

#[test]
fn can_handle_latex() {
    let parser = LaTeXParser;
    assert!(parser.can_handle("$$math$$"));
    assert!(parser.can_handle("\\[math\\]"));
    assert!(!parser.can_handle("regular text"));
}

#[test]
fn latex_content_and_render() {
    let parser = LaTeXParser;
    let (block, meta) = parser.parse("$$ E = mc^2 $$", 3).unwrap();
    assert_eq!(block, Block::Leaf { leaf: LeafBlock::MathBlock { content: "E = mc^2".into() } });
    assert_eq!(meta, BlockMetadata::default());
    assert_eq!(parser.render(&block, &meta), "$$E = mc^2$$");
    let (b2, _) = parser.parse("\\[ a \\]", 0).unwrap();
    assert_eq!(b2, Block::Leaf { leaf: LeafBlock::MathBlock { content: "a".into() } });
    assert_eq!(parser.render(&Block::horizontal_rule(), &meta), "");
    assert_eq!(parser.syntax_kind(), SyntaxKind::LaTeX);
}

#[test]
fn parse_markdown_heading() {
    let parser = MarkdownParser;
    let (block, metadata) = parser.parse("# Hello World", 0).unwrap();
    assert_eq!(metadata.heading_level, Some(1));
    assert!(matches!(block, Block::Leaf { leaf: LeafBlock::Heading { .. } }));
}

#[test]
fn parse_markdown_paragraph() {
    let parser = MarkdownParser;
    let (block, _) = parser.parse("This is a paragraph", 0).unwrap();
    assert!(matches!(block, Block::Leaf { leaf: LeafBlock::Paragraph { .. } }));
}

#[test]
fn parse_horizontal_rule() {
    let parser = MarkdownParser;
    let (block, _) = parser.parse("---", 0).unwrap();
    assert!(block.is_horizontal_rule());
}

#[test]
fn markdown_render_forms() {
    let parser = MarkdownParser;
    let meta = BlockMetadata::default();
    let (h, hm) = parser.parse("### Three  ", 0).unwrap();
    assert_eq!(hm.heading_level, Some(3));
    assert_eq!(parser.render(&h, &hm), "### Three");
    let code = Block::code_block(Some("py".into()), "x=1".into());
    assert_eq!(parser.render(&code, &meta), "```py\nx=1\n```");
    let para = Block::paragraph(vec![
        Inline::Text { text: "a".into() },
        Inline::Bold { content: vec![] },
        Inline::Text { text: "b".into() },
    ]);
    assert_eq!(parser.render(&para, &meta), "a b");
    assert_eq!(parser.render(&Block::horizontal_rule(), &meta), "---");
    assert_eq!(parser.render(&Block::math_block("m".into()), &meta), "");
    assert!(parser.can_handle("words"));
    assert!(!parser.can_handle("  "));
    assert!(!parser.can_handle("#+BEGIN_SRC x"));
    assert!(!parser.can_handle("a $$ b"));
    let (p, _) = parser.parse("--- x", 0).unwrap();
    assert!(p.is_paragraph());
}

#[test]
fn parse_org_heading() {
    let parser = OrgParser;
    let (_block, metadata) = parser.parse("* Top Level", 0).unwrap();
    assert_eq!(metadata.heading_level, Some(1));
}

#[test]
fn parse_org_todo_heading() {
    let parser = OrgParser;
    let (_block, metadata) = parser.parse("* TODO Task Title", 0).unwrap();
    assert_eq!(metadata.heading_level, Some(1));
    assert_eq!(metadata.todo_state, Some("TODO".to_string()));
}

#[test]
fn parse_org_code_block() {
    let parser = OrgParser;
    let (block, _) = parser.parse("#+BEGIN_SRC rust\nfn main() {}\n#+END_SRC", 0).unwrap();
    assert!(matches!(block, Block::Leaf { leaf: LeafBlock::CodeBlock { .. } }));
}

#[test]
fn org_details_and_render() {
    let parser = OrgParser;
    let (block, meta) = parser.parse("#+BEGIN_SRC rust\nfn main() {}\n#+END_SRC", 0).unwrap();
    assert_eq!(
        block,
        Block::code_block(Some("rust".into()), "fn main() {}".into())
    );
    assert_eq!(parser.render(&block, &meta), "#+BEGIN_SRC rust\nfn main() {}\n#+END_SRC");
    let (h, hm) = parser.parse("** DONE Ship it", 0).unwrap();
    assert_eq!(hm.heading_level, Some(2));
    assert_eq!(hm.todo_state, Some("DONE".to_string()));
    assert_eq!(h, Block::heading(2, vec![Inline::Text { text: "DONE Ship it".into() }]));
    let (p, pm) = parser.parse("*bold* text", 0).unwrap();
    assert!(p.is_paragraph());
    assert_eq!(pm.heading_level, None);
    let (e, _) = parser.parse("", 0).unwrap();
    assert_eq!(e, Block::paragraph(vec![]));
    assert!(parser.parse("******* Seven", 0).unwrap().0.is_paragraph());
    assert!(parser.can_handle("  * item"));
    assert!(parser.can_handle("#+TITLE: x"));
    assert!(!parser.can_handle("plain"));
}

#[test]
fn parsers_through_the_trait() {
    let parsers: Vec<Box<dyn Parser>> = vec![Box::new(MarkdownParser), Box::new(OrgParser), Box::new(LaTeXParser)];
    let kinds: Vec<SyntaxKind> = parsers.iter().map(|p| p.syntax_kind()).collect();
    assert_eq!(kinds, vec![SyntaxKind::Markdown, SyntaxKind::Org, SyntaxKind::LaTeX]);
    let (b, _) = parsers[2].parse("$$a$$", 0).unwrap();
    assert_eq!(parsers[2].render(&b, &BlockMetadata::default()), "$$a$$");
}
