use libnote::format::{extract_attachments, MarkdownFormat, NoteMetadata, NoteSerialization};
use libnote::markdown::{
    parse_blocks, parse_image, parse_inlines, parse_list, parse_markdown_header, parse_table,
};
use libnote::models::{
    Alignment, Attachment, AttachmentType, Block, ContainerBlock, Inline, LeafBlock, LinkTarget,
    ListStyle, Note,
};

fn text(s: &str) -> Inline {
    Inline::Text { text: s.to_string() }
}

fn paragraph(content: Vec<Inline>) -> Block {
    Block::Leaf { leaf: LeafBlock::Paragraph { content } }
}

fn sample_note() -> Note {
    Note {
        id: "test-id".to_string(),
        title: "Sample Note".to_string(),
        blocks: vec![
            Block::Leaf { leaf: LeafBlock::Heading { level: 2, content: vec![text("Heading Example")] } },
            paragraph(vec![
                text("This is a "),
                Inline::Bold { content: vec![text("bold")] },
                text(" and "),
                Inline::Italic { content: vec![text("italic")] },
                text(" text."),
            ]),
            Block::Leaf {
                leaf: LeafBlock::Image { alt_text: Some("Alt text".to_string()), src: "image.png".to_string() },
            },
            Block::Container {
                container: ContainerBlock::List {
                    style: ListStyle::Unordered { bullet: '-' },
                    items: vec![vec![paragraph(vec![text("Item 1")])], vec![paragraph(vec![text("Item 2")])]],
                },
            },
        ],
    }
}

#[test]
fn test_parse_all_heading_levels() {
    let cases = vec![
        ("# Heading 1", 1, "Heading 1"),
        ("## Heading 2", 2, "Heading 2"),
        ("### Heading 3", 3, "Heading 3"),
        ("#### Heading 4", 4, "Heading 4"),
        ("##### Heading 5", 5, "Heading 5"),
        ("###### Heading 6", 6, "Heading 6"),
    ];
    for (input, expected_level, expected_text) in cases {
        let h = parse_markdown_header(input);
        assert!(h.is_some(), "Failed to parse header: {:?}", input);
        let block = h.unwrap();
        if let Block::Leaf { leaf: LeafBlock::Heading { level, content } } = block {
            assert_eq!(level, expected_level, "Wrong heading level for input: {:?}", input);
            assert_eq!(content, vec![text(expected_text)], "Wrong content for input: {:?}", input);
        } else {
            panic!("Expected a Heading block for input: {:?}, got: {:?}", input, block);
        }
    }
}

#[test]
fn heading_needs_one_to_six_hashes_and_a_space() {
    assert!(parse_markdown_header("####### Seven").is_none());
    assert!(parse_markdown_header("#NoSpace").is_none());
    assert!(parse_markdown_header("plain").is_none());
    assert!(parse_markdown_header("").is_none());
}

#[test]
fn test_parse_unordered_list() {
    let result = parse_list("- Item 1");
    assert!(result.is_some());
    if let Block::Container { container: ContainerBlock::List { style, items } } = result.unwrap() {
        assert!(!style.is_ordered(), "Expected unordered list");
        assert_eq!(items.len(), 1);
        match &items[0][0] {
            Block::Leaf { leaf: LeafBlock::Paragraph { content } } => {
                assert_eq!(content, &vec![text("Item 1")]);
            }
            _ => panic!("Expected Paragraph block"),
        }
    } else {
        panic!("Expected List block");
    }
}

#[test]
fn test_parse_ordered_list() {
    let result = parse_list("1. First item");
    assert!(result.is_some());
    if let Block::Container { container: ContainerBlock::List { style, items } } = result.unwrap() {
        assert!(style.is_ordered(), "Expected ordered list");
        assert_eq!(items.len(), 1);
        match &items[0][0] {
            Block::Leaf { leaf: LeafBlock::Paragraph { content } } => {
                assert_eq!(content, &vec![text("First item")]);
            }
            _ => panic!("Expected Paragraph block"),
        }
    } else {
        panic!("Expected List block");
    }
}

#[test]
fn test_parse_list_invalid() {
    assert!(parse_list("* Valid unordered list").is_some());
    assert!(parse_list("2) Also not valid").is_none());
}

#[test]
fn test_parse_simple_table() {
    let input = "\
Header 1 | Header 2
Value 1  | Value 2";
    let result = parse_table(input);
    assert!(result.is_some());
    if let Some(Block::Container { container: ContainerBlock::Table { headers, rows, .. } }) = result {
        assert_eq!(headers, vec![vec![text("Header 1")], vec![text("Header 2")]]);
        assert_eq!(rows.len(), 1);
        assert_eq!(rows[0], vec![vec![text("Value 1")], vec![text("Value 2")]]);
    } else {
        panic!("Expected Table block");
    }
}

#[test]
fn test_parse_table_too_short() {
    let result = parse_table("Only one row | not enough");
    assert!(result.is_none(), "Expected None for short table input");
}

#[test]
fn table_alignment_row_is_read() {
    let result = parse_table("a | b | c\n:--- | ---: | :---:\n1 | 2 | 3");
    if let Some(Block::Container { container: ContainerBlock::Table { headers, rows, alignments, .. } }) = result {
        assert_eq!(headers.len(), 3);
        assert_eq!(rows.len(), 1);
        assert_eq!(alignments, Some(vec![Alignment::Left, Alignment::Right, Alignment::Center]));
    } else {
        panic!("Expected Table block");
    }
}

#[test]
fn test_parse_image_with_alt() {
    let result = parse_image("Here is an image ![alt text](image.png)");
    assert!(result.is_some());
    let (alt, src) = result.unwrap();
    assert_eq!(alt, Some("alt text"));
    assert_eq!(src, "image.png");
}

#[test]
fn test_parse_image_without_alt() {
    let result = parse_image("Look: ![](no-alt.png)");
    assert!(result.is_some());
    let (alt, src) = result.unwrap();
    assert_eq!(alt, None);
    assert_eq!(src, "no-alt.png");
}

#[test]
fn test_parse_image_invalid_format() {
    assert!(parse_image("No image here").is_none());
    assert!(parse_image("![alt text](missing-end").is_none());
}

#[test]
fn test_parse_code_block() {
    let blocks = parse_blocks("```rust\nlet x = 42;\nprintln!(\"{}\", x);\n```");
    assert_eq!(blocks.len(), 1);
    match &blocks[0] {
        Block::Leaf { leaf: LeafBlock::CodeBlock { language, content } } => {
            assert_eq!(language.as_deref(), Some("rust"));
            assert_eq!(content, "let x = 42;\nprintln!(\"{}\", x);\n");
        }
        _ => panic!("Expected a CodeBlock"),
    }
}

#[test]
fn test_parse_code_block_no_language() {
    let blocks = parse_blocks("```\nHello world\n```");
    assert_eq!(blocks.len(), 1);
    match &blocks[0] {
        Block::Leaf { leaf: LeafBlock::CodeBlock { language, content } } => {
            assert!(language.is_none());
            assert_eq!(content, "Hello world\n");
        }
        _ => panic!("Expected a CodeBlock"),
    }
}

#[test]
fn test_parse_math_block_single_line() {
    let blocks = parse_blocks("$$x^2 + y^2 = z^2$$");
    assert_eq!(blocks.len(), 1);
    match &blocks[0] {
        Block::Leaf { leaf: LeafBlock::MathBlock { content } } => assert_eq!(content, "x^2 + y^2 = z^2"),
        _ => panic!("Expected a MathBlock"),
    }
}

#[test]
fn test_parse_math_block_multi_line() {
    let blocks = parse_blocks("$$\nx^2 + y^2 = z^2\nx + y = z\n$$");
    assert_eq!(blocks.len(), 1);
    match &blocks[0] {
        Block::Leaf { leaf: LeafBlock::MathBlock { content } } => {
            assert_eq!(content, "x^2 + y^2 = z^2\nx + y = z")
        }
        _ => panic!("Expected a MathBlock"),
    }
}

#[test]
fn test_parse_plain_text() {
    assert_eq!(parse_inlines("Just plain text."), vec![text("Just plain text.")]);
}

#[test]
fn test_parse_italic() {
    let expected = vec![text("This is "), Inline::Italic { content: vec![text("italic")] }, text(" text.")];
    assert_eq!(parse_inlines("This is *italic* text."), expected);
}

#[test]
fn test_parse_bold() {
    let expected = vec![text("This is "), Inline::Bold { content: vec![text("bold")] }, text(" text.")];
    assert_eq!(parse_inlines("This is **bold** text."), expected);
}

#[test]
fn test_parse_link() {
    let expected = vec![
        text("Check out "),
        Inline::Link { text: vec![text("Rust")], target: "https://www.rust-lang.org".into() },
        text("!"),
    ];
    assert_eq!(parse_inlines("Check out [Rust](https://www.rust-lang.org)!"), expected);
}

#[test]
fn test_parse_nested_formatting() {
    let expected = vec![Inline::Bold {
        content: vec![text("bold and "), Inline::Italic { content: vec![text("italic inside")] }],
    }];
    assert_eq!(parse_inlines("**bold and *italic inside***"), expected);
}

#[test]
fn test_parse_mixed_content() {
    let expected = vec![
        Inline::Italic { content: vec![text("italic")] },
        text(" and "),
        Inline::Bold { content: vec![text("bold")] },
        text(", then "),
        Inline::Link { text: vec![text("link")], target: "url".into() },
    ];
    assert_eq!(parse_inlines("*italic* and **bold**, then [link](url)"), expected);
}

#[test]
fn inline_code_math_strike_and_image() {
    let expected = vec![
        Inline::Code { code: "x+1".into() },
        text(" "),
        Inline::Math { content: "a^2".into() },
        text(" "),
        Inline::Strikethrough { content: vec![text("gone")] },
        text(" "),
        Inline::Image { alt_text: Some("pic".into()), src: "p.png".into() },
        text(" "),
        text("~"),
        text("single"),
    ];
    assert_eq!(parse_inlines("`x+1` $a^2$ ~~gone~~ ![pic](p.png) ~single"), expected);
    assert_eq!(parse_inlines(""), Vec::<Inline>::new());
    assert_eq!(parse_inlines("[dangling"), vec![text("[dangling]")]);
}

#[test]
fn test_parse_nested_list() {
    let result = parse_list("- Item 1\n  - Nested 1\n  - Nested 2\n- Item 2").unwrap();
    if let Block::Container { container: ContainerBlock::List { style, items } } = result {
        assert!(!style.is_ordered());
        assert_eq!(items.len(), 2);
        assert_eq!(items[0].len(), 2);
        match &items[0][0] {
            Block::Leaf { leaf: LeafBlock::Paragraph { content } } => assert_eq!(content, &vec![text("Item 1")]),
            _ => panic!("Expected paragraph"),
        }
        match &items[0][1] {
            Block::Container { container: ContainerBlock::List { style: inner_style, items: inner_items } } => {
                assert!(!inner_style.is_ordered());
                assert_eq!(inner_items.len(), 2);
                match &inner_items[0][0] {
                    Block::Leaf { leaf: LeafBlock::Paragraph { content } } => {
                        assert_eq!(content, &vec![text("Nested 1")])
                    }
                    _ => panic!("Expected paragraph"),
                }
            }
            _ => panic!("Expected nested list"),
        }
        match &items[1][0] {
            Block::Leaf { leaf: LeafBlock::Paragraph { content } } => assert_eq!(content, &vec![text("Item 2")]),
            _ => panic!("Expected paragraph"),
        }
    } else {
        panic!("Expected top-level list");
    }
}

#[test]
fn blocks_quote_heading_image_and_paragraph() {
    let blocks = parse_blocks("# Title\n\n> quoted *words*\n> more\n\n![a](b.png)\n\nText ![a](b.png) after");
    assert_eq!(blocks.len(), 4);
    assert!(blocks[0].is_heading());
    match &blocks[1] {
        Block::Container { container: ContainerBlock::Quote { blocks: inner } } => {
            assert_eq!(inner.len(), 2);
            assert!(inner[0].is_paragraph());
            assert!(inner[1].is_paragraph());
        }
        _ => panic!("Expected quote"),
    }
    match &blocks[2] {
        Block::Leaf { leaf: LeafBlock::Image { alt_text, src } } => {
            assert_eq!(alt_text.as_deref(), Some("a"));
            assert_eq!(src, "b.png");
        }
        _ => panic!("Expected image"),
    }
    assert!(blocks[3].is_paragraph());
    assert!(parse_blocks("  \n\n \t").is_empty());
}

#[test]
fn test_serialization() {
    let format = MarkdownFormat;
    let serialized = format.serialize(&sample_note());
    let serialized_str = String::from_utf8(serialized).expect("Invalid UTF-8");
    assert!(serialized_str.contains("# Sample Note"));
    assert!(serialized_str.contains("**bold**"));
    assert!(serialized_str.contains("*italic*"));
    assert!(serialized_str.contains("## Heading Example"));
    assert!(serialized_str.contains("- Item 1"));
    assert!(serialized_str.contains("- Item 2"));
    assert!(serialized_str.contains("![Alt text](image.png)"));
}

#[test]
fn test_deserialization() {
    let format = MarkdownFormat;
    let markdown = r#"# Sample Note
## Heading Example
This is a **bold** and *italic* text.
![Alt text](image.png)
- Item 1
- Item 2
"#;
    let note = format.deserialize(markdown.as_bytes(), Some("test-id"));
    assert_eq!(note.id, "test-id");
    assert_eq!(note.title, "Sample Note");
    match &note.blocks[0] {
        Block::Leaf { leaf: LeafBlock::Heading { level, content } } => {
            assert_eq!(*level, 2);
            assert_eq!(content, &vec![text("Heading Example")]);
        }
        _ => panic!("Expected heading"),
    }
    match &note.blocks[1] {
        Block::Leaf { leaf: LeafBlock::Paragraph { content } } => {
            assert_eq!(content.len(), 5);
            match &content[1] {
                Inline::Bold { content: b } => assert_eq!(b, &vec![text("bold")]),
                _ => panic!("Expected bold"),
            }
            match &content[3] {
                Inline::Italic { content: i } => assert_eq!(i, &vec![text("italic")]),
                _ => panic!("Expected italic"),
            }
        }
        _ => panic!("Expected paragraph"),
    }
    match &note.blocks[2] {
        Block::Leaf { leaf: LeafBlock::Image { alt_text, src } } => {
            assert_eq!(alt_text, &Some("Alt text".to_string()));
            assert_eq!(src, "image.png");
        }
        _ => panic!("Expected image"),
    }
    match &note.blocks[3] {
        Block::Container { container: ContainerBlock::List { style, items } } => {
            assert!(!style.is_ordered());
            assert_eq!(items.len(), 2);
        }
        _ => panic!("Expected list"),
    }
}

#[test]
fn test_round_trip() {
    let format = MarkdownFormat;
    let source_note = sample_note();
    let serialized = format.serialize(&source_note);
    let deserialized = format.deserialize(&serialized, Some(&source_note.id));
    assert_eq!(deserialized.id, source_note.id);
    assert_eq!(deserialized.title, source_note.title);
    assert_eq!(deserialized.blocks.len(), source_note.blocks.len());
}

#[test]
fn test_code_block_round_trip() {
    let format = MarkdownFormat;
    let note = Note {
        id: "test-id".into(),
        title: "Code Note".into(),
        blocks: vec![Block::Leaf {
            leaf: LeafBlock::CodeBlock {
                language: Some("rust".into()),
                content: "let x = 42;\nprintln!(\"{}\", x);\n".into(),
            },
        }],
    };
    let serialized = format.serialize(&note);
    let deserialized = format.deserialize(&serialized, Some(&note.id));
    assert_eq!(deserialized.id, note.id);
    assert_eq!(deserialized.title, note.title);
    assert_eq!(deserialized.blocks.len(), note.blocks.len());
    match &deserialized.blocks[0] {
        Block::Leaf { leaf: LeafBlock::CodeBlock { language, content } } => {
            assert_eq!(language.as_deref(), Some("rust"));
            assert_eq!(content, "let x = 42;\nprintln!(\"{}\", x);\n");
        }
        _ => panic!("Expected CodeBlock"),
    }
}

#[test]
fn test_math_block_round_trip() {
    let format = MarkdownFormat;
    let note = Note {
        id: "test-id".into(),
        title: "Math Note".into(),
        blocks: vec![Block::Leaf { leaf: LeafBlock::MathBlock { content: "x^2 + y^2 = z^2\nx + y = z".into() } }],
    };
    let serialized = format.serialize(&note);
    let deserialized = format.deserialize(&serialized, Some(&note.id));
    assert_eq!(deserialized.id, note.id);
    assert_eq!(deserialized.title, note.title);
    assert_eq!(deserialized.blocks.len(), note.blocks.len());
    match &deserialized.blocks[0] {
        Block::Leaf { leaf: LeafBlock::MathBlock { content } } => assert_eq!(content, "x^2 + y^2 = z^2\nx + y = z"),
        _ => panic!("Expected MathBlock"),
    }
}

#[test]
fn test_parse_wiki_links() {
    let expected = vec![
        text("This links to "),
        Inline::Link { text: vec![text("Note A")], target: "Note A".to_string() },
        text(" and "),
        Inline::Link { text: vec![text("Note B")], target: "Note B".to_string() },
        text(" in the text."),
    ];
    assert_eq!(parse_inlines("This links to [[Note A]] and [[Note B]] in the text."), expected);
}

#[test]
fn test_extract_wiki_links() {
    let format = MarkdownFormat;
    let note = Note {
        id: "1".to_string(),
        title: "Wiki Links".to_string(),
        blocks: vec![paragraph(vec![
            text("Links: "),
            Inline::Link { text: vec![text("Note1")], target: "Note1".to_string() },
            text(", "),
            Inline::Link { text: vec![text("Note2")], target: "Note2".to_string() },
        ])],
    };
    let links = format.extract_links(&note, &[]);
    assert_eq!(links, vec![LinkTarget::Note("Note1".to_string()), LinkTarget::Note("Note2".to_string())]);
}

#[test]
fn links_to_known_attachments_are_attachments() {
    let format = MarkdownFormat;
    let att = Attachment { name: "pic.png".into(), src: "pic.png".into(), kind: AttachmentType::Image };
    let note = Note {
        id: "n".into(),
        title: "t".into(),
        blocks: vec![paragraph(vec![
            Inline::Link { text: vec![text("p")], target: "pic.png".into() },
            Inline::Image { alt_text: None, src: "pic.png".into() },
            Inline::Image { alt_text: None, src: "other.png".into() },
        ])],
    };
    let links = format.extract_links(&note, &[att]);
    assert_eq!(
        links,
        vec![LinkTarget::Attachment("pic.png".into()), LinkTarget::Attachment("pic.png".into())]
    );
}

#[test]
fn test_extract_single_attachment_block() {
    let blocks = vec![Block::Leaf {
        leaf: LeafBlock::Attachment {
            attachment: Attachment {
                src: "file1.pdf".to_string(),
                name: "file1.pdf".to_string(),
                kind: AttachmentType::Document,
            },
        },
    }];
    let attachments = extract_attachments(&blocks);
    assert_eq!(attachments.len(), 1);
    assert_eq!(attachments[0].src, "file1.pdf");
    assert_eq!(attachments[0].name, "file1.pdf");
    assert_eq!(attachments[0].kind, AttachmentType::Document);
}

#[test]
fn test_extract_multiple_attachment_blocks() {
    let blocks = vec![
        Block::Leaf {
            leaf: LeafBlock::Attachment {
                attachment: Attachment { src: "doc1.txt".to_string(), name: "doc1.txt".to_string(), kind: AttachmentType::Document },
            },
        },
        Block::Leaf {
            leaf: LeafBlock::Attachment {
                attachment: Attachment { src: "image.png".to_string(), name: "image.png".to_string(), kind: AttachmentType::Image },
            },
        },
    ];
    let attachments = extract_attachments(&blocks);
    assert_eq!(attachments.len(), 2);
    assert!(attachments.iter().any(|a| a.src == "doc1.txt" && a.name == "doc1.txt"));
    assert!(attachments.iter().any(|a| a.src == "image.png" && a.name == "image.png"));
}

#[test]
fn attachments_from_images_get_name_and_kind() {
    let blocks = parse_blocks("![x](dir/Photo.JPG)\n\nSee ![](notes/a.PDF) and ![](clip.mp3) or ![](v.mkv) or ![](z.xyz)");
    let attachments = extract_attachments(&blocks);
    assert_eq!(attachments.len(), 5);
    assert_eq!(attachments[0].name, "Photo.JPG");
    assert_eq!(attachments[0].src, "dir/Photo.JPG");
    assert_eq!(attachments[0].kind, AttachmentType::Image);
    assert_eq!(attachments[1].src, "notes/a.PDF");
    assert_eq!(attachments[1].kind, AttachmentType::Document);
    assert_eq!(attachments[2].kind, AttachmentType::Audio);
    assert_eq!(attachments[3].kind, AttachmentType::Video);
    assert_eq!(attachments[4].kind, AttachmentType::Other { mime: "xyz".to_string() });
}

#[test]
fn parse_note_reads_front_matter_title() {
    let format = MarkdownFormat;
    let note = format.parse_note("a.md", "---\ntitle: \"Hello\"\n---\n# Body\n\ntext");
    assert_eq!(note.id, "a.md");
    assert_eq!(note.title, "Hello");
    assert_eq!(note.blocks.len(), 2);
    let plain = format.parse_note("notes.md", "just text");
    assert_eq!(plain.title, "notes");
    assert_eq!(plain.blocks.len(), 1);
    assert_eq!(MarkdownFormat::filename_stem("dir/sub\\file.name.md"), "file.name");
    assert_eq!(MarkdownFormat::strip_extension("x.md.md"), "x");
}

#[test]
fn deserialize_without_hint_makes_an_id() {
    let format = MarkdownFormat;
    let note = format.deserialize(b"# T\nbody", None);
    assert_eq!(note.title, "T");
    assert!(!note.id.is_empty());
    let bad = format.deserialize(&[0xff, 0xfe], Some("x.md"));
    assert_eq!(bad.id, "x");
    assert!(bad.blocks.is_empty());
}
