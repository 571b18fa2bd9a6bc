use libnote::detector::BlockDetector;
use libnote::manager::BlockManager;
use libnote::models::{Block, Inline, LeafBlock};
use libnote::parsers::{CodeParser, LaTeXParser, MarkdownParser, OrgParser};
use libnote::registry::{AnyParser, ParserRegistry};
use libnote::syntax::{HybridBlock, SyntaxKind};

fn full_registry() -> ParserRegistry {
    let mut registry = ParserRegistry::new();
    registry.register(AnyParser::Markdown(MarkdownParser));
    registry.register(AnyParser::Org(OrgParser));
    registry.register(AnyParser::LaTeX(LaTeXParser));
    registry
}

fn md_block(text: &str) -> HybridBlock {
    let (ast, metadata) = MarkdownParser.parse(text, 0).unwrap();
    HybridBlock::new(SyntaxKind::Markdown, text.to_string(), ast, (0, 0)).with_metadata(metadata)
}

#[test]
fn test_block_manager_initialization() {
    let manager = BlockManager::default();
    assert_eq!(manager.block_count(), 0);
    assert!(manager.dirty_blocks().is_empty());
}

#[test]
fn test_dirty_block_tracking() {
    let mut manager = BlockManager::default();
    let block = HybridBlock::new(SyntaxKind::Markdown, "test".to_string(), Block::paragraph(vec![]), (0, 0));
    manager.insert_block(0, block);
    assert!(!manager.dirty_blocks().is_empty());
    manager.clear_dirty();
    assert!(manager.dirty_blocks().is_empty());
}

#[test]
fn insert_marks_the_tail_dirty() {
    let mut manager = BlockManager::new(BlockDetector::new(), full_registry());
    for t in ["a", "b", "c", "d"] {
        let n = manager.block_count();
        manager.insert_block(n, md_block(t));
    }
    manager.clear_dirty();
    manager.insert_block(2, md_block("x"));
    assert_eq!(manager.dirty_blocks(), vec![2, 3, 4]);
    let _ = manager.blocks();
    assert_eq!(manager.dirty_blocks(), vec![2, 3, 4]);
    manager.clear_dirty();
    assert!(manager.dirty_blocks().is_empty());
    let removed = manager.remove_block(1).unwrap();
    assert_eq!(removed.raw_text, "b");
    assert_eq!(manager.dirty_blocks(), vec![1, 2, 3]);
    assert!(manager.remove_block(9).is_none());
}

#[test]
fn parse_update_and_render() {
    let mut manager = BlockManager::new(BlockDetector::new(), full_registry());
    manager.parse_document("# Head\n\nbody text\n\n* TODO thing\n\n$$x$$").unwrap();
    assert_eq!(manager.block_count(), 4);
    assert!(manager.dirty_blocks().is_empty());
    assert_eq!(manager.find_headings(), vec![0]);
    assert_eq!(manager.find_blocks_by_heading_level(1), vec![0]);
    manager.update_block_text(1, "## Sub".to_string()).unwrap();
    assert_eq!(manager.dirty_blocks(), vec![1]);
    assert_eq!(manager.find_blocks_by_heading_level(2), vec![1]);
    assert_eq!(manager.blocks()[1].line_range, (2, 2));
    assert_eq!(manager.render_dirty_blocks().unwrap(), "## Sub\n");
    assert_eq!(
        manager.render_document().unwrap(),
        "# Head\n## Sub\n* TODO thing\n$$x$$"
    );
    assert_eq!(
        manager.update_block_text(7, "x".to_string()).unwrap_err(),
        "Block index out of range"
    );
    if let Some(b) = manager.block_mut(0) {
        b.add_property("k".to_string(), "v".to_string());
    }
    assert_eq!(manager.blocks()[0].get_property("k"), Some("v"));
    assert_eq!(manager.dirty_blocks(), vec![0, 1]);
}

#[test]
fn missing_parser_fails_without_change() {
    let mut manager = BlockManager::new(BlockDetector::new(), full_registry());
    manager.parse_document("kept").unwrap();
    let err = manager.parse_document("text\n\n```\ncode\n```").unwrap_err();
    assert_eq!(err, "No parser for Code");
    assert_eq!(manager.block_count(), 1);
    assert_eq!(manager.blocks()[0].raw_text, "kept");
    let empty = BlockManager::default();
    assert_eq!(empty.render_document().unwrap(), "");
}

#[test]
fn end_to_end_scenario() {
    let text = "# Title\n\nA paragraph.\n\n```py\nx=1\n```";
    let detected = BlockDetector::new().detect(text);
    let kinds: Vec<SyntaxKind> = detected.iter().map(|b| b.syntax).collect();
    assert_eq!(kinds, vec![SyntaxKind::Markdown, SyntaxKind::Markdown, SyntaxKind::Code]);
    let mut manager = BlockManager::new(BlockDetector::new(), full_registry());
    for b in &detected {
        let (ast, metadata) = MarkdownParser.parse(&b.content, b.start_line).unwrap();
        let block = HybridBlock::new(SyntaxKind::Markdown, b.content.clone(), ast, (b.start_line, b.end_line))
            .with_metadata(metadata);
        let n = manager.block_count();
        manager.insert_block(n, block);
    }
    assert!(matches!(
        manager.blocks()[0].ast,
        Block::Leaf { leaf: LeafBlock::Heading { level: 1, .. } }
    ));
    assert_eq!(
        manager.render_document().unwrap(),
        "# Title\nA paragraph.\n```py\nx=1\n```"
    );
}

#[test]
fn registry_lookup() {
    let mut registry = ParserRegistry::new();
    assert!(registry.get(SyntaxKind::Markdown).is_none());
    assert!(registry.available_syntaxes().is_empty());
    registry.register(AnyParser::Org(OrgParser));
    registry.register(AnyParser::Org(OrgParser));
    assert_eq!(registry.available_syntaxes(), vec![SyntaxKind::Org]);
    let p = registry.get(SyntaxKind::Org).unwrap();
    assert_eq!(p.syntax_kind(), SyntaxKind::Org);
    assert!(registry.get(SyntaxKind::Code).is_none());
    let rendered = p.render(
        &Block::Leaf { leaf: LeafBlock::Heading { level: 2, content: vec![Inline::Text { text: "T".into() }] } },
        &libnote::syntax::BlockMetadata::default(),
    );
    assert_eq!(rendered, "** T");
}

#[test]
fn end_to_end_with_code_parser() {
    let mut registry = full_registry();
    registry.register(AnyParser::Code(CodeParser));
    let mut manager = BlockManager::new(BlockDetector::new(), registry);
    manager.parse_document("# Title\n\nA paragraph.\n\n```py\nx=1\n```").unwrap();
    assert_eq!(manager.block_count(), 3);
    assert_eq!(manager.blocks()[2].syntax, SyntaxKind::Code);
    assert_eq!(manager.blocks()[2].line_range, (4, 6));
    assert_eq!(
        manager.blocks()[2].ast,
        Block::code_block(Some("py".into()), "x=1".into())
    );
    assert_eq!(manager.render_document().unwrap(), "# Title\nA paragraph.\n```py\nx=1\n```");
    manager.update_block_text(2, "```\nplain\n```".to_string()).unwrap();
    assert_eq!(manager.blocks()[2].ast, Block::code_block(None, "plain".into()));
    assert_eq!(CodeParser.render(&Block::horizontal_rule(), &libnote::syntax::BlockMetadata::default()), "");
    assert!(CodeParser.can_handle("  ```x"));
    assert!(!CodeParser.can_handle("x"));
}

#[test]
fn detection_end_to_end_spans() {
    let d = BlockDetector::new().detect("# Title\n\nA paragraph.\n\n```py\nx=1\n```");
    let spans: Vec<(SyntaxKind, usize, usize)> = d.iter().map(|b| (b.syntax, b.start_line, b.end_line)).collect();
    assert_eq!(spans, vec![(SyntaxKind::Markdown, 0, 0), (SyntaxKind::Markdown, 2, 2), (SyntaxKind::Code, 4, 6)]);
    assert_eq!(d[2].language.as_deref(), Some("py"));
    assert_eq!(d[0].content, "# Title");
    let d2 = BlockDetector::new().detect("intro\n```\ncode\n```");
    let spans2: Vec<(SyntaxKind, usize, usize)> = d2.iter().map(|b| (b.syntax, b.start_line, b.end_line)).collect();
    assert_eq!(spans2, vec![(SyntaxKind::Markdown, 0, 0), (SyntaxKind::Code, 1, 3)]);
    assert_eq!(d2[1].language, None);
}
