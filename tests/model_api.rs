use libnote::detector::{BlockDetector, DetectionConfig};
use libnote::format::serialize_inlines;
use libnote::models::{
    AttachmentType, Block, ContainerBlock, Inline, LeafBlock, ListStyle, Numbering, NumberingStyle,
    NumberingType,
};
use libnote::syntax::{BlockMetadata, HybridBlock, SyntaxKind};

fn text(s: &str) -> Inline {
    Inline::Text { text: s.to_string() }
}

#[test]
fn block_constructors_build_their_variant() {
    let d = Block::div(vec!["c".into()], vec![("k".into(), "v".into())], vec![Block::horizontal_rule()]);
    assert!(matches!(d, Block::Container { container: ContainerBlock::Div { .. } }));
    let dl = Block::definition_list(vec![(vec![text("term")], vec![Block::paragraph(vec![text("def")])])]);
    assert!(matches!(dl, Block::DefinitionList { .. }));
    let f = Block::footnote_definition("1".into(), vec![]);
    assert_eq!(f, Block::FootnoteDefinition { label: "1".into(), content: vec![] });
    assert!(Block::code_block(None, "x".into()).is_code_block());
    assert!(Block::math_block("x".into()).is_math_block());
    assert!(Block::quote(vec![]).is_quote());
    assert!(Block::table(vec![], vec![], None, None).is_table());
    assert!(Block::list(ListStyle::Unordered { bullet: '-' }, vec![]).is_list());
    assert!(!Block::paragraph(vec![]).is_heading());
    let ordered = ListStyle::Ordered { numbering: Numbering { kind: NumberingType::Decimal, style: NumberingStyle::Dot } };
    assert!(ordered.is_ordered());
    assert_eq!(AttachmentType::Document.mime(), "application/pdf");
    assert_eq!(AttachmentType::Other { mime: "text/x".into() }.mime(), "text/x");
    let deep = Block::quote(vec![Block::paragraph(vec![Inline::Bold { content: vec![text("b")] }])]);
    assert_eq!(deep.deep_clone(), deep);
}

#[test]
fn hybrid_block_accessors() {
    let b = HybridBlock::new(SyntaxKind::Org, "* x".into(), Block::paragraph(vec![]), (3, 5));
    assert_eq!(b.line_count(), 3);
    assert!(b.is_syntax(SyntaxKind::Org));
    assert!(!b.is_syntax(SyntaxKind::Markdown));
    assert!(!b.has_properties());
    assert_eq!(b.id(), None);
    assert_eq!(b.todo_state(), None);
    let mut b = b.with_id("blk".into());
    assert_eq!(b.id(), Some("blk"));
    b.add_property("a".into(), "1".into());
    b.add_property("a".into(), "2".into());
    assert!(b.has_properties());
    assert_eq!(b.get_property("a"), Some("1"));
    assert_eq!(b.get_property("z"), None);
    assert_eq!(b.properties().len(), 2);
    let meta = BlockMetadata { heading_level: Some(2), id: None, todo_state: Some("DONE".into()), properties: vec![] };
    let b = b.with_metadata(meta);
    assert!(b.is_heading());
    assert_eq!(b.heading_level(), Some(2));
    assert!(b.is_done());
    assert!(!b.is_todo());
    assert_eq!(SyntaxKind::LaTeX.name(), "LaTeX");
    assert_eq!(SyntaxKind::Custom.name(), "Custom");
}

#[test]
fn detector_with_config_and_inline_serialization() {
    let detector = BlockDetector::with_config(DetectionConfig::default());
    assert_eq!(detector.detect("a\n\nb").len(), 2);
    assert_eq!(DetectionConfig::default().markdown_code_fence, "```");
    let inl = vec![
        text("a "),
        Inline::Bold { content: vec![text("b")] },
        Inline::Link { text: vec![text("l")], target: "t".into() },
        Inline::Image { alt_text: None, src: "s.png".into() },
        Inline::Code { code: "c".into() },
        Inline::Math { content: "m".into() },
        Inline::Strikethrough { content: vec![text("x")] },
    ];
    assert_eq!(serialize_inlines(&inl), "a **b**[l](t)![](s.png)`c`$m$~~x~~");
    let _ = LeafBlock::HorizontalRule;
}
