use libnote::detector::{BlockDetector, SyntaxBlock};
use libnote::syntax::SyntaxKind;

#[test]
fn detect_single_markdown_block() {
    let blocks = BlockDetector::new().detect("This is a paragraph\nwith multiple lines");
    assert_eq!(blocks.len(), 1);
    assert_eq!(blocks[0].syntax, SyntaxKind::Markdown);
}

#[test]
fn detect_code_block() {
    let blocks = BlockDetector::new().detect("Some text\n\n```rust\nfn main() {}\n```");
    assert!(blocks.len() >= 2);
    assert!(blocks.iter().any(|b| matches!(b.syntax, SyntaxKind::Code)));
}

#[test]
fn detect_org_block() {
    let blocks = BlockDetector::new().detect("#+BEGIN_SRC python\nprint('hello')\n#+END_SRC");
    assert!(blocks.iter().any(|b| b.syntax == SyntaxKind::Org));
}

#[test]
fn detect_latex_block() {
    let blocks = BlockDetector::new().detect("Some text\n\n$$E = mc^2$$");
    assert!(blocks.iter().any(|b| b.syntax == SyntaxKind::LaTeX));
}

fn spans(blocks: &[SyntaxBlock]) -> Vec<(SyntaxKind, usize, usize)> {
    blocks.iter().map(|b| (b.syntax, b.start_line, b.end_line)).collect()
}

#[test]
fn mixed_text_is_covered_in_order() {
    let text = "intro line\nsecond\n```py\nx = 1\n```\n\n$$\na+b\n$$\n#+begin_quote x\nq\n#+END_QUOTE\n\n\ntail";
    let blocks = BlockDetector::new().detect(text);
    assert_eq!(
        spans(&blocks),
        vec![
            (SyntaxKind::Markdown, 0, 1),
            (SyntaxKind::Code, 2, 4),
            (SyntaxKind::LaTeX, 6, 8),
            (SyntaxKind::Markdown, 9, 11),
            (SyntaxKind::Markdown, 14, 14),
        ]
    );
    assert_eq!(blocks[0].content, "intro line\nsecond");
    assert_eq!(blocks[1].language.as_deref(), Some("py"));
    assert_eq!(blocks[1].content, "```py\nx = 1\n```");
    assert_eq!(blocks[2].content, "$$\na+b\n$$");
    assert_eq!(blocks[1].line_count(), 3);
}

#[test]
fn org_end_marker_matches_without_case() {
    let blocks = BlockDetector::new().detect("#+BEGIN_SRC rust\nfn a() {}\n#+END_src");
    assert_eq!(spans(&blocks), vec![(SyntaxKind::Org, 0, 2)]);
}

#[test]
fn unterminated_fence_falls_back_to_markdown() {
    let blocks = BlockDetector::new().detect("```rust\nlet a = 1;\n\nafter");
    assert_eq!(
        spans(&blocks),
        vec![(SyntaxKind::Markdown, 0, 1), (SyntaxKind::Markdown, 3, 3)]
    );
}

#[test]
fn blank_input_has_no_blocks() {
    assert!(BlockDetector::new().detect("").is_empty());
    assert!(BlockDetector::new().detect("  \n\t\n").is_empty());
}

#[test]
fn markdown_run_stops_at_a_marker_line() {
    let blocks = BlockDetector::new().detect("para\nmore $$x$$\n");
    assert_eq!(spans(&blocks), vec![(SyntaxKind::Markdown, 0, 0), (SyntaxKind::LaTeX, 1, 1)]);
}
