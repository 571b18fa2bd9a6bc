use std::collections::BTreeMap;

use libnote::format::{MarkdownFormat, NoteSerialization};
use libnote::managers::{BacklinkManager, GlobalTagManager, ScopedTagManager};
use libnote::models::{Attachment, AttachmentType, Block, Inline, LeafBlock, LinkTarget, Note};
use libnote::repo::{FileNotesRepository, FileProvider, MemoryNotesRepository, NotesRepository};
use libnote::vault::Vault;

#[derive(Debug)]
struct MockFileProvider {
    files: BTreeMap<String, Vec<u8>>,
}

impl MockFileProvider {
    fn new() -> Self {
        Self { files: BTreeMap::new() }
    }
}

impl FileProvider for MockFileProvider {
    fn read(&self, id: &str) -> Option<Vec<u8>> {
        self.files.get(id).cloned()
    }

    fn write(&mut self, id: &str, data: &[u8]) -> bool {
        self.files.insert(id.to_string(), data.to_vec());
        true
    }

    fn delete(&mut self, id: &str) -> bool {
        self.files.remove(id).is_some()
    }

    fn list(&self) -> Vec<String> {
        self.files.keys().cloned().collect()
    }
}

fn text(s: &str) -> Inline {
    Inline::Text { text: s.to_string() }
}

#[test]
fn memory_repo_basic_operations() {
    let mut repo = MemoryNotesRepository::new(MarkdownFormat);
    let note = Note { id: "1".to_string(), title: "Hello".to_string(), blocks: vec![Block::paragraph(vec![text("World")])] };
    repo.save_note(&note).unwrap();
    let loaded = repo.get_note("1").unwrap().unwrap();
    assert_eq!(loaded.title, "Hello");
    let notes = repo.list_notes().unwrap();
    assert_eq!(notes.len(), 1);
    repo.delete_note("1").unwrap();
    assert!(repo.get_note("1").unwrap().is_none());
}

#[test]
fn file_repo_basic_operations() {
    let mut repo = FileNotesRepository::new(MockFileProvider::new(), MarkdownFormat);
    let note = Note {
        id: "note1".to_string(),
        title: "File Note".to_string(),
        blocks: vec![Block::paragraph(vec![text("Content")])],
    };
    repo.save_note(&note).unwrap();
    let loaded = repo.get_note("note1").unwrap().unwrap();
    assert_eq!(loaded.title, "File Note");
    let notes = repo.list_notes().unwrap();
    assert_eq!(notes.len(), 1);
    assert_eq!(notes[0].id, "note1");
    repo.delete_note("note1").unwrap();
    assert!(repo.get_note("note1").unwrap().is_none());
}

#[test]
fn test_save_and_get_note() {
    let mut repo = FileNotesRepository::new(MockFileProvider::new(), MarkdownFormat);
    let note = Note {
        id: "note1".to_string(),
        title: "Test Note".to_string(),
        blocks: vec![Block::paragraph(vec![text("Hello World")])],
    };
    repo.save_note(&note).unwrap();
    let fetched = repo.get_note("note1").unwrap().unwrap();
    assert_eq!(fetched.id, "note1");
    assert_eq!(fetched.title, "Test Note");
    assert_eq!(fetched.blocks, note.blocks);
}

#[test]
fn test_list_notes() {
    let mut repo = FileNotesRepository::new(MockFileProvider::new(), MarkdownFormat);
    let note1 = Note { id: "n1".to_string(), title: "A".to_string(), blocks: vec![] };
    let note2 = Note { id: "n2".to_string(), title: "B".to_string(), blocks: vec![] };
    repo.save_note(&note1).unwrap();
    repo.save_note(&note2).unwrap();
    let notes = repo.list_notes().unwrap();
    let ids: Vec<_> = notes.iter().map(|n| n.id.clone()).collect();
    assert!(ids.contains(&"n1".to_string()));
    assert!(ids.contains(&"n2".to_string()));
}

#[test]
fn test_delete_note() {
    let mut repo = FileNotesRepository::new(MockFileProvider::new(), MarkdownFormat);
    let note = Note { id: "n1".to_string(), title: "Test".to_string(), blocks: vec![] };
    repo.save_note(&note).unwrap();
    assert!(repo.get_note("n1").unwrap().is_some());
    repo.delete_note("n1").unwrap();
    assert!(repo.get_note("n1").unwrap().is_none());
    assert!(repo.delete_note("n1").is_err());
}

#[test]
fn test_get_attachments() {
    let mut repo = FileNotesRepository::new(MockFileProvider::new(), MarkdownFormat);
    let note = Note {
        id: "n1".to_string(),
        title: "Attachments".to_string(),
        blocks: vec![
            Block::paragraph(vec![Inline::Image { alt_text: Some("img1".into()), src: "file1.png".into() }]),
            Block::Leaf { leaf: LeafBlock::Image { alt_text: Some("img2".into()), src: "file2.png".into() } },
        ],
    };
    repo.save_note(&note).unwrap();
    let attachments = repo.get_attachments("n1").unwrap();
    let srcs: Vec<_> = attachments.iter().map(|a| a.name.clone()).collect();
    assert!(srcs.contains(&"file1.png".to_string()));
    assert!(srcs.contains(&"file2.png".to_string()));
}

#[test]
fn memory_repo_insert_raw_and_basic_ops() {
    let mut repo = MemoryNotesRepository::new(MarkdownFormat);
    let md_data = b"# My Title\nThis is a paragraph.\n![[image.png]]";
    let note_id = repo.insert_raw(md_data, None).unwrap();
    let note = repo.get_note(&note_id).unwrap().unwrap();
    assert_eq!(note.title, "My Title");
    assert!(matches!(note.blocks[0], Block::Leaf { leaf: LeafBlock::Paragraph { .. } }));
    let note2 = Note { id: "manual".to_string(), title: "Manual Note".to_string(), blocks: vec![Block::paragraph(vec![text("Hello")])] };
    repo.save_note(&note2).unwrap();
    let notes = repo.list_notes().unwrap();
    assert_eq!(notes.len(), 2);
    repo.delete_note(&note_id).unwrap();
    assert!(repo.get_note(&note_id).unwrap().is_none());
}

#[test]
fn memory_repo_extract_attachments() {
    let mut repo = MemoryNotesRepository::new(MarkdownFormat);
    let md_data = b"# Title\nParagraph with ![](file1.png) and ![](file2.jpg)";
    let note_id = repo.insert_raw(md_data, None).unwrap();
    let attachments: Vec<Attachment> = repo.get_attachments(&note_id).unwrap();
    let names: Vec<&str> = attachments.iter().map(|a| a.name.as_str()).collect();
    assert!(names.contains(&"file1.png"));
    assert!(names.contains(&"file2.jpg"));
    assert_eq!(attachments.len(), 2);
}

fn make_markdown_notes() -> (Vec<Note>, Vec<Attachment>) {
    let att1 = Attachment { src: "img1".into(), name: "Image 1".into(), kind: AttachmentType::Image };
    let att2 = Attachment { src: "img2".into(), name: "Image 2".into(), kind: AttachmentType::Image };
    let note_a_md = "\n# Note A\n\nThis links to [Note B](b) and to an attachment ![Image](img1)\n";
    let note_b_md = "\n# Note B\n\nThis links to [Note C](c)\n";
    let format = MarkdownFormat;
    let notes = vec![
        format.deserialize(note_a_md.as_bytes(), Some("a")),
        format.deserialize(note_b_md.as_bytes(), Some("b")),
    ];
    (notes, vec![att1, att2])
}

#[test]
fn test_backlinks_with_markdown_format() {
    let format = MarkdownFormat;
    let (notes, attachments) = make_markdown_notes();
    let mut manager = BacklinkManager::new();
    manager.index_all(&notes, &attachments, &format);
    let backlinks_b = manager.backlinks_for(&LinkTarget::Note("b".into()));
    assert_eq!(backlinks_b, vec!["a"]);
    let backlinks_img1 = manager.backlinks_for(&LinkTarget::Attachment("img1".into()));
    assert_eq!(backlinks_img1, vec!["a"]);
    let outbound = manager.outbound_links(&notes[0], &attachments, &format);
    assert!(outbound.contains(&LinkTarget::Note("b".into())));
    assert!(outbound.contains(&LinkTarget::Attachment("img1".into())));
}

#[test]
fn test_tags() {
    let notes = vec![
        Note { id: "a".into(), title: "A".into(), blocks: vec![] },
        Note { id: "b".into(), title: "B".into(), blocks: vec![] },
    ];
    let mut scoped = ScopedTagManager::new();
    for note in &notes {
        scoped.index_note(note, vec!["scoped".into()]);
    }
    let mut global = GlobalTagManager::new();
    global.assign_tag("a", "global".into());
    assert_eq!(scoped.notes_with_tag("scoped").len(), 2);
    assert_eq!(global.get_tags_for("a"), vec!["global"]);
}

#[test]
fn vault_queries() {
    let mut vault = Vault::new(MemoryNotesRepository::new(MarkdownFormat));
    let (notes, attachments) = make_markdown_notes();
    vault.backlinks.index_all(&notes, &attachments, &MarkdownFormat);
    assert_eq!(vault.backlinks_for_note("b"), vec!["a"]);
    assert_eq!(vault.backlinks_for_attachment("img1"), vec!["a"]);
    assert!(vault.backlinks_for_note("zzz").is_empty());
    vault.global_tags.assign_tag("a", "g1".into());
    vault.global_tags.assign_tag("a", "g2".into());
    assert_eq!(vault.all_tags_for(&notes[0]), vec!["g1", "g2"]);
    assert!(vault.repo.list_notes().unwrap().is_empty());
}
