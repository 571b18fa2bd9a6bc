use libnote::detector::BlockDetector;
use libnote::document::LibnoteDocument;
use libnote::markdown::{parse_inlines, parse_list, parse_markdown_header, parse_until};
use libnote::models::{Block, ContainerBlock, Inline, LeafBlock};
use libnote::parsers::MarkdownParser;
use libnote::syntax::SyntaxKind;

#[test]
fn coverage_of_non_blank_lines() {
    let text = "a\n\n  \nb\nc\n```\nx\n```\n$$y$$\n\n#+BEGIN_EXAMPLE\nz\n#+END_EXAMPLE\nlast";
    let lines: Vec<&str> = text.lines().collect();
    let blocks = BlockDetector::new().detect(text);
    for w in blocks.windows(2) {
        assert!(w[0].end_line < w[1].start_line);
    }
    for (i, l) in lines.iter().enumerate() {
        let covered = blocks.iter().any(|b| b.start_line <= i && i <= b.end_line);
        assert_eq!(covered, !l.trim().is_empty() || blocks.iter().any(|b| b.start_line < i && i < b.end_line));
        if !l.trim().is_empty() {
            assert!(covered, "line {} not covered", i);
        }
    }
    for b in &blocks {
        assert_eq!(b.content, lines[b.start_line..=b.end_line].join("\n"));
    }
}

#[test]
fn redetecting_rendered_output_keeps_kinds() {
    let text = "# Title\n\n$$x$$\n\n#+BEGIN_SRC rust\nfn main() {}\n#+END_SRC\n\nclosing words";
    let before: Vec<SyntaxKind> = BlockDetector::new().detect(text).iter().map(|b| b.syntax).collect();
    let mut doc = LibnoteDocument::new();
    assert_eq!(doc.parse(text).unwrap(), 4);
    let rendered = doc.render().unwrap();
    let after: Vec<SyntaxKind> = BlockDetector::new().detect(&rendered).iter().map(|b| b.syntax).collect();
    assert_eq!(before, vec![SyntaxKind::Markdown, SyntaxKind::LaTeX, SyntaxKind::Org, SyntaxKind::Markdown]);
    assert_eq!(before, after);
}

#[test]
fn heading_round_trip_levels() {
    for n in 0..9usize {
        let input = format!("{} X", "#".repeat(n));
        let block = parse_markdown_header(&input);
        let (parsed, meta) = MarkdownParser.parse(&input, 0).unwrap();
        if (1..=6).contains(&n) {
            let expected = Block::Leaf {
                leaf: LeafBlock::Heading { level: n as u8, content: vec![Inline::Text { text: "X".into() }] },
            };
            assert_eq!(block, Some(expected));
            assert_eq!(meta.heading_level, Some(n as u8));
            assert!(parsed.is_heading());
        } else {
            assert!(block.is_none());
            assert_eq!(meta.heading_level, None);
            assert!(!parsed.is_heading());
        }
    }
}

#[test]
fn nested_emphasis() {
    let expected = vec![Inline::Bold {
        content: vec![
            Inline::Text { text: "bold and ".into() },
            Inline::Italic { content: vec![Inline::Text { text: "italic".into() }] },
            Inline::Text { text: " more".into() },
        ],
    }];
    assert_eq!(parse_inlines("**bold and *italic* more**"), expected);
}

fn count_bullets(b: &Block) -> usize {
    match b {
        Block::Container { container: ContainerBlock::List { items, .. } } => items
            .iter()
            .map(|item| 1 + item.iter().map(count_bullets).sum::<usize>())
            .sum(),
        _ => 0,
    }
}

#[test]
fn list_nesting_keeps_every_bullet() {
    let input = "- a\n  - b\n    - c\n  - d\n- e\n1. f";
    let list = parse_list(input).unwrap();
    assert_eq!(count_bullets(&list), 6);
    match &list {
        Block::Container { container: ContainerBlock::List { items, .. } } => {
            assert_eq!(items.len(), 3);
            assert!(items[0][1].is_list());
        }
        _ => panic!("expected a list"),
    }
}

#[test]
fn document_handle_operations() {
    let mut doc = LibnoteDocument::new();
    assert_eq!(doc.parse("# A\n\ntext").unwrap(), 2);
    assert!(doc.is_heading(0));
    assert!(!doc.is_heading(1));
    assert!(!doc.is_heading(5));
    assert_eq!(doc.find_headings(), vec![0]);
    assert_eq!(doc.find_headings_at_level(1), vec![0]);
    doc.insert_block(1, "Org".to_string(), "* TODO Item".to_string()).unwrap();
    doc.insert_block(3, "org".to_string(), "* DONE Other".to_string()).unwrap();
    assert_eq!(doc.block_count(), 4);
    assert!(doc.is_todo(1));
    assert!(doc.is_done(3));
    assert_eq!(doc.find_todos(), vec![1]);
    assert_eq!(doc.find_done_items(), vec![3]);
    assert_eq!(doc.get_dirty_blocks(), vec![1, 2, 3]);
    assert_eq!(doc.get_block_syntax_name(1), Some("Org-mode".to_string()));
    let b = doc.get_block(0).unwrap();
    assert_eq!(b.syntax_type, "Markdown");
    assert_eq!(b.heading_level, Some(1));
    assert_eq!(doc.get_all_blocks().len(), 4);
    assert!(doc.insert_block(0, "rst".to_string(), "x".to_string()).is_err());
    assert!(doc.insert_block(99, "markdown".to_string(), "x".to_string()).is_err());
    doc.clear_dirty();
    assert!(doc.get_dirty_blocks().is_empty());
    doc.update_block(2, "new text".to_string()).unwrap();
    assert!(doc.update_block(9, "x".to_string()).is_err());
    doc.remove_block(0).unwrap();
    assert!(doc.remove_block(10).is_err());
    assert_eq!(doc.render().unwrap(), "* TODO TODO Item\nnew text\n* DONE DONE Other");
    assert!(doc.render_block(0).is_some());
    assert!(doc.render_block(3).is_none());
}

#[test]
fn document_parses_fenced_code() {
    let mut doc = LibnoteDocument::new();
    assert_eq!(doc.parse("# Title\n\nA paragraph.\n\n```py\nx=1\n```").unwrap(), 3);
    assert_eq!(doc.get_block_syntax_name(2), Some("Code".to_string()));
    assert_eq!(doc.render().unwrap(), "# Title\nA paragraph.\n```py\nx=1\n```");
    doc.insert_block(0, "CODE".to_string(), "```rs\nlet a = 1;\n```".to_string()).unwrap();
    assert_eq!(doc.block_count(), 4);
}

#[test]
fn empty_delimiter_stops_at_once() {
    let cs: Vec<char> = "abc".chars().collect();
    assert_eq!(parse_until(&cs, 1, &Vec::new()), (Vec::new(), 1));
    let close: Vec<char> = vec!['c'];
    assert_eq!(parse_until(&cs, 0, &close), (vec!['a', 'b'], 3));
}

#[test]
fn removing_past_the_end_is_an_invalid_index() {
    let mut doc = LibnoteDocument::new();
    doc.parse("# A\n\nB").unwrap();
    assert_eq!(doc.remove_block(7), Err(libnote::document::LibnoteError::InvalidIndex));
}

#[test]
fn long_or_missing_hash_runs_are_paragraphs() {
    for n in [0usize, 7, 9] {
        let input = "#".repeat(n) + " X";
        let blocks = libnote::markdown::parse_blocks(&input);
        assert_eq!(blocks.len(), 1);
        assert!(matches!(blocks[0], Block::Leaf { leaf: LeafBlock::Paragraph { .. } }));
    }
}
