//! Note stores: an in-memory one and one over a pluggable file provider.
use crate::error::RepositoryError;
use crate::format::{appended, extract_attachments, hint_view, slice_srcs, NoteSerialization};
use crate::models::{Attachment, Note};
use crate::text::str_eq;
use vstd::prelude::*;

verus! {

/// A store of notes keyed by id.
pub trait NotesRepository {
    fn list_notes(&self) -> Result<Vec<Note>, RepositoryError>;

    fn get_note(&self, id: &str) -> Result<Option<Note>, RepositoryError>;

    fn save_note(&mut self, note: &Note) -> Result<(), RepositoryError>;

    fn delete_note(&mut self, id: &str) -> Result<(), RepositoryError>;
}

/// Raw file access that a host provides.
pub trait FileProvider {
    /// The bytes of a file, if it exists.
    fn read(&self, path: &str) -> Option<Vec<u8>>;

    /// Writes a file; whether it succeeded.
    fn write(&mut self, path: &str, data: &[u8]) -> bool;

    /// Deletes a file; whether it existed.
    fn delete(&mut self, path: &str) -> bool;

    /// The names of all files.
    fn list(&self) -> Vec<String>;
}

/// Notes kept in memory, one per id.
pub struct MemoryNotesRepository<F: NoteSerialization> {
    notes: Vec<Note>,
    format: F,
}

/// Position of the note with id `id`.
fn position_of(notes: &Vec<Note>, id: &str) -> (r: Option<usize>)
    ensures
        r matches Some(i) ==> i < notes@.len() && notes@[i as int].id@ == id@ && forall|j: int|
            0 <= j < i ==> #[trigger] notes@[j].id@ != id@,
        r is None ==> forall|i: int| 0 <= i < notes@.len() ==> #[trigger] notes@[i].id@ != id@,
{
    let mut i: usize = 0;
    while i < notes.len()
        invariant
            i <= notes@.len(),
            forall|j: int| 0 <= j < i ==> #[trigger] notes@[j].id@ != id@,
        decreases notes@.len() - i,
    {
        if str_eq(notes[i].id.as_str(), id) {
            return Some(i);
        }
        i = i + 1;
    }
    None
}

/// Note `i` is the first with id `id`.
pub open spec fn first_with_id(notes: Seq<Note>, id: Seq<char>, i: int) -> bool {
    notes[i].id@ == id && forall|j: int| 0 <= j < i ==> #[trigger] notes[j].id@ != id
}

impl<F: NoteSerialization> MemoryNotesRepository<F> {
    /// The ids of the stored notes.
    pub closed spec fn ids(&self) -> Seq<Seq<char>> {
        self.notes@.map_values(|n: Note| n.id@)
    }

    pub fn new(format: F) -> (r: Self)
        ensures
            r.ids().len() == 0,
    {
        MemoryNotesRepository { notes: Vec::new(), format }
    }

    /// The store's format.
    pub closed spec fn format_view(&self) -> F {
        self.format
    }

    /// Reads a note with the store's format and stores it, replacing one with the same id; the
    /// id of the note.
    pub fn insert_raw(&mut self, raw_data: &[u8], id_hint: Option<&str>) -> (r: Result<
        String,
        RepositoryError,
    >)
        ensures
            r is Ok,
            final(self).format_view() == old(self).format_view(),
            r matches Ok(id) ==> final(self).ids().contains(id@),
            r matches Ok(id) ==> exists|i: int|
                0 <= i < final(self).notes_view().len() && first_with_id(final(self).notes_view(), id@, i)
                    && old(self).format_view().reads(
                    raw_data@,
                    hint_view(id_hint),
                    #[trigger] final(self).notes_view()[i],
                ),
    {
        let note = self.format.deserialize(raw_data, id_hint);
        let id = note.id.clone();
        let ghost n = note;
        let i = self.put(note);
        assert(self.notes_view()[i as int] == n);
        Ok(id)
    }

    /// Stores a note at the first place with its id, or at the end; where it went.
    fn put(&mut self, note: Note) -> (r: usize)
        ensures
            final(self).format_view() == old(self).format_view(),
            final(self).ids().contains(note.id@),
            r < final(self).notes_view().len(),
            final(self).notes_view()[r as int] == note,
            first_with_id(final(self).notes_view(), note.id@, r as int),
    {
        let ghost id = note.id@;
        let ghost n = note;
        match position_of(&self.notes, note.id.as_str()) {
            Some(i) => {
                self.notes.set(i, note);
                assert(self.ids()[i as int] == id);
                i
            },
            None => {
                self.notes.push(note);
                assert(self.ids()[self.notes@.len() - 1] == id);
                assert forall|j: int| 0 <= j < self.notes@.len() - 1 implies #[trigger] self.notes@[j].id@ != id by {}
                self.notes.len() - 1
            },
        }
    }

    /// The stored notes.
    pub closed spec fn notes_view(&self) -> Seq<Note> {
        self.notes@
    }

    /// The attachments that a stored note refers to; none for an unknown id.
    pub fn get_attachments(&self, note_id: &str) -> (r: Result<Vec<Attachment>, RepositoryError>)
        ensures
            r is Ok,
            r matches Ok(v) ==> (forall|i: int|
                0 <= i < self.notes_view().len() ==> #[trigger] self.notes_view()[i].id@ != note_id@)
                ==> v@.len() == 0,
            r matches Ok(v) ==> forall|i: int|
                0 <= i < self.notes_view().len() && #[trigger] self.notes_view()[i].id@ == note_id@
                    && (forall|j: int| 0 <= j < i ==> self.notes_view()[j].id@ != note_id@) ==> appended(
                    Seq::empty(),
                    v@,
                    slice_srcs(self.notes_view()[i].blocks@, self.notes_view()[i].blocks@.len() as int),
                ),
    {
        match position_of(&self.notes, note_id) {
            Some(i) => {
                let v = extract_attachments(self.notes[i].blocks.as_slice());
                proof {
                    assert(self.notes_view()[i as int].id@ == note_id@);
                    assert forall|k: int|
                        0 <= k < self.notes_view().len() && #[trigger] self.notes_view()[k].id@ == note_id@
                            && (forall|j: int| 0 <= j < k ==> self.notes_view()[j].id@ != note_id@) implies k
                        == i by {
                        if k < i {
                            assert(self.notes@[k].id@ != note_id@);
                        }
                        if k > i {
                            assert(self.notes_view()[i as int].id@ == note_id@);
                        }
                    }
                }
                Ok(v)
            },
            None => Ok(Vec::new()),
        }
    }

}

impl<F: NoteSerialization> NotesRepository for MemoryNotesRepository<F> {
    fn list_notes(&self) -> Result<Vec<Note>, RepositoryError> {
        let mut r: Vec<Note> = Vec::new();
        let mut i: usize = 0;
        while i < self.notes.len()
            invariant
                i <= self.notes@.len(),
            decreases self.notes@.len() - i,
        {
            r.push(self.notes[i].deep_clone());
            i = i + 1;
        }
        Ok(r)
    }

    fn get_note(&self, id: &str) -> Result<Option<Note>, RepositoryError> {
        match position_of(&self.notes, id) {
            Some(i) => Ok(Some(self.notes[i].deep_clone())),
            None => Ok(None),
        }
    }

    fn save_note(&mut self, note: &Note) -> Result<(), RepositoryError> {
        self.put(note.deep_clone());
        Ok(())
    }

    fn delete_note(&mut self, id: &str) -> Result<(), RepositoryError> {
        match position_of(&self.notes, id) {
            Some(i) => {
                self.notes.remove(i);
            },
            None => {},
        }
        Ok(())
    }
}

/// Notes stored as files through a provider, written in a note format.
pub struct FileNotesRepository<P: FileProvider, F: NoteSerialization> {
    provider: P,
    format: F,
}

impl<P: FileProvider, F: NoteSerialization> FileNotesRepository<P, F> {
    pub fn new(provider: P, format: F) -> (r: Self) {
        FileNotesRepository { provider, format }
    }

    /// The attachments that a stored note refers to; none for an unknown id.
    pub fn get_attachments(&self, note_id: &str) -> (r: Result<Vec<Attachment>, RepositoryError>)
        ensures
            r is Ok,
    {
        match self.provider.read(note_id) {
            Some(bytes) => {
                let note = self.format.deserialize(bytes.as_slice(), Some(note_id));
                Ok(extract_attachments(note.blocks.as_slice()))
            },
            None => Ok(Vec::new()),
        }
    }
}

impl<P: FileProvider, F: NoteSerialization> NotesRepository for FileNotesRepository<P, F> {
    fn list_notes(&self) -> Result<Vec<Note>, RepositoryError> {
        let ids = self.provider.list();
        let mut notes: Vec<Note> = Vec::new();
        let mut i: usize = 0;
        while i < ids.len()
            invariant
                i <= ids@.len(),
            decreases ids@.len() - i,
        {
            match self.provider.read(ids[i].as_str()) {
                Some(bytes) => notes.push(self.format.deserialize(bytes.as_slice(), Some(ids[i].as_str()))),
                None => {},
            }
            i = i + 1;
        }
        Ok(notes)
    }

    fn get_note(&self, id: &str) -> Result<Option<Note>, RepositoryError> {
        match self.provider.read(id) {
            Some(bytes) => Ok(Some(self.format.deserialize(bytes.as_slice(), Some(id)))),
            None => Ok(None),
        }
    }

    fn save_note(&mut self, note: &Note) -> Result<(), RepositoryError> {
        let data = self.format.serialize(note);
        if self.provider.write(note.id.as_str(), data.as_slice()) {
            Ok(())
        } else {
            Err(RepositoryError::io_error("Failed to write note"))
        }
    }

    fn delete_note(&mut self, id: &str) -> Result<(), RepositoryError> {
        if self.provider.delete(id) {
            Ok(())
        } else {
            Err(RepositoryError::io_error("Failed to delete note"))
        }
    }
}

} // verus!
