//! A note store together with its link and tag indexes.
use crate::managers::{strs, BacklinkManager, GlobalTagManager, ScopedTagManager};
use crate::models::{LinkTarget, Note};
use crate::repo::NotesRepository;
use vstd::prelude::*;

verus! {

pub struct Vault<R: NotesRepository> {
    pub repo: R,
    pub scoped_tags: ScopedTagManager,
    pub global_tags: GlobalTagManager,
    pub backlinks: BacklinkManager,
}

impl<R: NotesRepository> Vault<R> {
    pub fn new(repo: R) -> (r: Self)
        ensures
            r.scoped_tags.tag_index@.len() == 0,
            r.global_tags.global_tags@.len() == 0,
            forall|t: (bool, Seq<char>)| #[trigger] r.backlinks.links_view(t).len() == 0,
    {
        Vault {
            repo,
            scoped_tags: ScopedTagManager::new(),
            global_tags: GlobalTagManager::new(),
            backlinks: BacklinkManager::new(),
        }
    }

    /// Ids of the notes that link to a note.
    pub fn backlinks_for_note(&self, note_id: &str) -> (r: Vec<String>)
        ensures
            strs(r@) == self.backlinks.links_view((true, note_id@)),
    {
        self.backlinks.backlinks_for(&LinkTarget::Note(note_id.to_owned()))
    }

    /// Ids of the notes that link to an attachment.
    pub fn backlinks_for_attachment(&self, attachment_id: &str) -> (r: Vec<String>)
        ensures
            strs(r@) == self.backlinks.links_view((false, attachment_id@)),
    {
        self.backlinks.backlinks_for(&LinkTarget::Attachment(attachment_id.to_owned()))
    }

    /// The scoped index entry under the note's id, then the note's global tags.
    pub fn all_tags_for(&self, note: &Note) -> (r: Vec<String>)
        ensures
            strs(r@) == self.scoped_tags.notes_view(note.id@) + self.global_tags.tags_view(note.id@),
    {
        let mut tags = self.scoped_tags.notes_with_tag(note.id.as_str());
        let mut global = self.global_tags.get_tags_for(note.id.as_str());
        let ghost a = tags@;
        let ghost b = global@;
        tags.append(&mut global);
        assert(strs(tags@) =~= strs(a) + strs(b));
        tags
    }
}

} // verus!
