use libnote::format::{NoteMetadata, NoteSerialization};
use libnote::models::{Block, ContainerBlock, Inline, LeafBlock, LinkTarget, Note};
use libnote::org::{extract_tags, note_to_org, org_to_note, parse_org, OrgFormat};

const SAMPLE: &str = "intro dropped\n* Alpha :x:y:\n:ID: 1\n:ID: 2\ntext\n** TODO B\n| a | b |\n| 1 | 2 |\n* C";

#[test]
fn org_heading_tree() {
    let doc = parse_org(SAMPLE);
    assert_eq!(doc.nodes.len(), 2);
    let a = &doc.nodes[0];
    assert_eq!(a.level, 1);
    assert_eq!(a.title, vec![Inline::Text { text: "Alpha".into() }]);
    assert_eq!(a.todo, None);
    assert_eq!(a.tags, vec!["x".to_string(), "y".to_string()]);
    assert_eq!(a.properties, vec![("ID".to_string(), "2".to_string())]);
    assert_eq!(a.body.len(), 1);
    assert_eq!(a.children.len(), 1);
    let b = &a.children[0];
    assert_eq!(b.level, 2);
    assert_eq!(b.todo, Some("TODO".to_string()));
    match &b.body[0] {
        Block::Container { container: ContainerBlock::Table { headers, rows, .. } } => {
            assert_eq!(headers.len(), 2);
            assert_eq!(rows.len(), 2);
            assert_eq!(rows[1][1], vec![Inline::Text { text: "2".into() }]);
        }
        _ => panic!("expected table"),
    }
    assert_eq!(doc.nodes[1].level, 1);
    assert_eq!(extract_tags(&doc), vec!["x".to_string(), "y".to_string()]);
    assert!(parse_org("no headings\nat all").nodes.is_empty());
}

#[test]
fn org_lowering_is_pre_order() {
    let note = org_to_note(parse_org(SAMPLE), Some("n1"));
    assert_eq!(note.id, "n1");
    assert_eq!(note.title, "Alpha");
    assert_eq!(note.blocks.len(), 5);
    assert!(matches!(note.blocks[0], Block::Leaf { leaf: LeafBlock::Heading { level: 1, .. } }));
    assert!(note.blocks[1].is_paragraph());
    assert!(matches!(note.blocks[2], Block::Leaf { leaf: LeafBlock::Heading { level: 2, .. } }));
    assert!(note.blocks[3].is_table());
    assert!(matches!(note.blocks[4], Block::Leaf { leaf: LeafBlock::Heading { level: 1, .. } }));
    let empty = org_to_note(parse_org(""), None);
    assert_eq!(empty.id, "org");
    assert_eq!(empty.title, "Untitled");
    assert!(empty.blocks.is_empty());
}

#[test]
fn org_writing_and_format() {
    let note = Note {
        id: "x".into(),
        title: "t".into(),
        blocks: vec![
            Block::heading(2, vec![Inline::Text { text: "Head".into() }]),
            Block::paragraph(vec![
                Inline::Bold { content: vec![Inline::Text { text: "b".into() }] },
                Inline::Italic { content: vec![Inline::Text { text: "i".into() }] },
                Inline::Code { code: "c".into() },
                Inline::Math { content: "m".into() },
                Inline::Link { text: vec![], target: "Other".into() },
            ]),
            Block::quote(vec![Block::paragraph(vec![Inline::Text { text: "q".into() }])]),
        ],
    };
    assert_eq!(note_to_org(&note), "** Head\n*b*/i/~c~\\(m\\)\n#+begin_quote\nq\n#+end_quote\n");
    let format = OrgFormat;
    let bytes = format.serialize(&note);
    let back = format.deserialize(&bytes, Some("x"));
    assert_eq!(back.title, "Head");
    assert_eq!(format.extract_tags("* T :a:\n** U :b:c:"), vec!["a".to_string(), "b".to_string(), "c".to_string()]);
    assert_eq!(format.extract_links(&note, &[]), vec![LinkTarget::Note("Other".into())]);
}

#[test]
fn org_properties_and_bodies_follow_their_headings() {
    let doc = parse_org("* alpha\n:KEY: v\n** beta\nbody\n* gamma");
    let n = &doc.nodes;
    assert_eq!(n.len(), 2);
    assert_eq!(n[0].level, 1);
    assert_eq!(n[0].title, vec![Inline::Text { text: "alpha".into() }]);
    assert_eq!(n[0].properties, vec![("KEY".to_string(), "v".to_string())]);
    assert!(n[0].body.is_empty());
    assert_eq!(n[0].children.len(), 1);
    assert_eq!(n[0].children[0].level, 2);
    assert_eq!(
        n[0].children[0].body,
        vec![Block::Leaf { leaf: LeafBlock::Paragraph { content: vec![Inline::Text { text: "body".into() }] } }]
    );
    assert_eq!(n[1].title, vec![Inline::Text { text: "gamma".into() }]);
    assert!(n[1].children.is_empty());
}

#[test]
fn org_note_blocks_in_pre_order() {
    let note = org_to_note(parse_org("* alpha\nbody\n** beta\n* gamma"), None);
    assert_eq!(note.id, "org");
    assert_eq!(note.title, "alpha");
    let heading = |level: u8, t: &str| Block::Leaf {
        leaf: LeafBlock::Heading { level, content: vec![Inline::Text { text: t.into() }] },
    };
    assert_eq!(
        note.blocks,
        vec![
            heading(1, "alpha"),
            Block::Leaf { leaf: LeafBlock::Paragraph { content: vec![Inline::Text { text: "body".into() }] } },
            heading(2, "beta"),
            heading(1, "gamma"),
        ]
    );
}
