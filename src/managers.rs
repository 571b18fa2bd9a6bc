//! Indexes over many notes: who links to what, and which notes carry which tags.
use crate::format::NoteMetadata;
use crate::models::{Attachment, LinkTarget, Note};
use crate::text::str_eq;
use vstd::prelude::*;

verus! {

/// Whether two link targets are the same.
pub open spec fn same_target(a: LinkTarget, b: LinkTarget) -> bool {
    match (a, b) {
        (LinkTarget::Note(x), LinkTarget::Note(y)) => x@ == y@,
        (LinkTarget::Attachment(x), LinkTarget::Attachment(y)) => x@ == y@,
        _ => false,
    }
}

/// A link target as a value: whether it names a note, and the name.
pub open spec fn target_view(t: LinkTarget) -> (bool, Seq<char>) {
    match t {
        LinkTarget::Note(x) => (true, x@),
        LinkTarget::Attachment(x) => (false, x@),
    }
}

/// The characters of each string.
pub open spec fn strs(v: Seq<String>) -> Seq<Seq<char>> {
    Seq::new(v.len(), |i: int| v[i]@)
}

/// Position of the first key equal to `key` from `i` on (the length when there is none).
pub open spec fn first_key<K>(keys: Seq<K>, key: K, i: int) -> int
    decreases keys.len() - i,
{
    if i >= keys.len() {
        keys.len() as int
    } else if i >= 0 && keys[i] == key {
        i
    } else {
        first_key(keys, key, i + 1)
    }
}

/// What is filed under `key`: the value of its first entry, or nothing.
pub open spec fn filed<K>(keys: Seq<K>, vals: Seq<Seq<Seq<char>>>, key: K) -> Seq<Seq<char>> {
    let i = first_key(keys, key, 0);
    if i < keys.len() {
        vals[i]
    } else {
        Seq::empty()
    }
}

/// `s` with `x` at the end, unless `x` is there already.
pub open spec fn add_unique(s: Seq<Seq<char>>, x: Seq<char>) -> Seq<Seq<char>> {
    if s.contains(x) {
        s
    } else {
        s.push(x)
    }
}

pub open spec fn str_keys(v: Seq<(String, Vec<String>)>) -> Seq<Seq<char>> {
    Seq::new(v.len(), |i: int| v[i].0@)
}

pub open spec fn str_vals(v: Seq<(String, Vec<String>)>) -> Seq<Seq<Seq<char>>> {
    Seq::new(v.len(), |i: int| strs(v[i].1@))
}

pub open spec fn target_keys(v: Seq<(LinkTarget, Vec<String>)>) -> Seq<(bool, Seq<char>)> {
    Seq::new(v.len(), |i: int| target_view(v[i].0))
}

pub open spec fn target_vals(v: Seq<(LinkTarget, Vec<String>)>) -> Seq<Seq<Seq<char>>> {
    Seq::new(v.len(), |i: int| strs(v[i].1@))
}

proof fn lemma_first_key<K>(keys: Seq<K>, key: K, i: int)
    requires
        0 <= i <= keys.len(),
    ensures
        i <= first_key(keys, key, i) <= keys.len(),
        first_key(keys, key, i) < keys.len() ==> keys[first_key(keys, key, i)] == key,
    decreases keys.len() - i,
{
    if i < keys.len() && keys[i] != key {
        lemma_first_key(keys, key, i + 1);
    }
}

proof fn lemma_first_key_push<K>(keys: Seq<K>, x: K, key: K, i: int)
    requires
        0 <= i <= keys.len(),
    ensures
        first_key(keys.push(x), key, i) == if first_key(keys, key, i) < keys.len() {
            first_key(keys, key, i)
        } else if x == key {
            keys.len() as int
        } else {
            keys.len() + 1int
        },
    decreases keys.len() - i,
{
    if i < keys.len() {
        assert(keys.push(x)[i] == keys[i]);
        lemma_first_key_push(keys, x, key, i + 1);
    } else {
        assert(keys.push(x)[i] == x);
        assert(first_key(keys.push(x), key, i + 1) == keys.len() + 1int);
    }
}

/// Setting the value of the first entry of `key` changes what is filed under `key` alone.
proof fn lemma_filed_set<K>(keys: Seq<K>, vals: Seq<Seq<Seq<char>>>, key: K, v: Seq<Seq<char>>)
    requires
        vals.len() == keys.len(),
        first_key(keys, key, 0) < keys.len(),
    ensures
        forall|k: K|
            #[trigger] filed(keys, vals.update(first_key(keys, key, 0), v), k) == if k == key {
                v
            } else {
                filed(keys, vals, k)
            },
{
    assert forall|k: K| #[trigger] filed(keys, vals.update(first_key(keys, key, 0), v), k) == if k == key {
        v
    } else {
        filed(keys, vals, k)
    } by {
        lemma_first_key(keys, k, 0);
        lemma_first_key(keys, key, 0);
    }
}

/// A new last entry is what is filed under its key when the key had no entry.
proof fn lemma_filed_push<K>(keys: Seq<K>, vals: Seq<Seq<Seq<char>>>, key: K, v: Seq<Seq<char>>)
    requires
        vals.len() == keys.len(),
        first_key(keys, key, 0) == keys.len(),
    ensures
        forall|k: K|
            #[trigger] filed(keys.push(key), vals.push(v), k) == if k == key {
                v
            } else {
                filed(keys, vals, k)
            },
{
    assert forall|k: K| #[trigger] filed(keys.push(key), vals.push(v), k) == if k == key {
        v
    } else {
        filed(keys, vals, k)
    } by {
        lemma_first_key_push(keys, key, k, 0);
        lemma_first_key(keys, k, 0);
    }
}

fn target_eq(a: &LinkTarget, b: &LinkTarget) -> (r: bool)
    ensures
        r == same_target(*a, *b),
        r == (target_view(*a) == target_view(*b)),
{
    match (a, b) {
        (LinkTarget::Note(x), LinkTarget::Note(y)) => str_eq(x.as_str(), y.as_str()),
        (LinkTarget::Attachment(x), LinkTarget::Attachment(y)) => str_eq(x.as_str(), y.as_str()),
        _ => false,
    }
}

fn clone_target(t: &LinkTarget) -> (r: LinkTarget)
    ensures
        same_target(r, *t),
        target_view(r) == target_view(*t),
{
    match t {
        LinkTarget::Note(x) => LinkTarget::Note(x.clone()),
        LinkTarget::Attachment(x) => LinkTarget::Attachment(x.clone()),
    }
}

/// Adds `s` unless it is already there.
fn insert_unique(v: &mut Vec<String>, s: String)
    ensures
        strs(final(v)@) == add_unique(strs(old(v)@), s@),
{
    let ghost sv = strs(v@);
    let mut i: usize = 0;
    while i < v.len()
        invariant
            i <= v@.len(),
            *v == *old(v),
            sv == strs(v@),
            forall|j: int| 0 <= j < i ==> #[trigger] v@[j]@ != s@,
        decreases v@.len() - i,
    {
        if str_eq(v[i].as_str(), s.as_str()) {
            assert(sv[i as int] == s@);
            return;
        }
        i = i + 1;
    }
    assert(!sv.contains(s@)) by {
        if sv.contains(s@) {
            let j = choose|j: int| 0 <= j < sv.len() && sv[j] == s@;
            assert(v@[j]@ == s@);
        }
    }
    let ghost s_v = s@;
    v.push(s);
    assert(strs(v@) =~= sv.push(s_v));
}

fn clone_strings(v: &Vec<String>) -> (r: Vec<String>)
    ensures
        strs(r@) == strs(v@),
{
    let mut r: Vec<String> = Vec::new();
    let mut k: usize = 0;
    while k < v.len()
        invariant
            k <= v@.len(),
            r@.len() == k,
            forall|i: int| 0 <= i < k ==> #[trigger] r@[i]@ == v@[i]@,
        decreases v@.len() - k,
    {
        r.push(v[k].clone());
        k = k + 1;
    }
    assert(strs(r@) =~= strs(v@));
    r
}

/// Maps each link target to the ids of the notes that link to it.
pub struct BacklinkManager {
    backlinks: Vec<(LinkTarget, Vec<String>)>,
}

impl BacklinkManager {
    /// The ids filed under a target.
    pub closed spec fn links_view(&self, t: (bool, Seq<char>)) -> Seq<Seq<char>> {
        filed(target_keys(self.backlinks@), target_vals(self.backlinks@), t)
    }

    /// Every id in the index is one of `ids`.
    pub open spec fn ids_among(&self, ids: Seq<Seq<char>>) -> bool {
        forall|t: (bool, Seq<char>), k: int|
            0 <= k < self.links_view(t).len() ==> ids.contains(#[trigger] self.links_view(t)[k])
    }

    pub fn new() -> (r: BacklinkManager)
        ensures
            forall|t: (bool, Seq<char>)| #[trigger] r.links_view(t).len() == 0,
    {
        BacklinkManager { backlinks: Vec::new() }
    }

    /// Files `note_id` under `target`, once.
    fn add(&mut self, target: LinkTarget, note_id: String)
        ensures
            forall|t: (bool, Seq<char>)|
                #[trigger] final(self).links_view(t) == if t == target_view(target) {
                    add_unique(old(self).links_view(t), note_id@)
                } else {
                    old(self).links_view(t)
                },
    {
        let ghost keys = target_keys(self.backlinks@);
        let ghost vals = target_vals(self.backlinks@);
        let ghost tv = target_view(target);
        let ghost id = note_id@;
        let mut i: usize = 0;
        while i < self.backlinks.len()
            invariant
                i <= self.backlinks@.len(),
                *self == *old(self),
                keys == target_keys(self.backlinks@),
                vals == target_vals(self.backlinks@),
                tv == target_view(target),
                first_key(keys, tv, i as int) == first_key(keys, tv, 0),
            decreases self.backlinks@.len() - i,
        {
            assert(keys[i as int] == target_view(self.backlinks@[i as int].0));
            if target_eq(&self.backlinks[i].0, &target) {
                assert(keys[i as int] == tv);
                let (t, mut ids) = self.backlinks.remove(i);
                insert_unique(&mut ids, note_id);
                let ghost nv = strs(ids@);
                self.backlinks.insert(i, (t, ids));
                proof {
                    assert(target_keys(self.backlinks@) =~= keys);
                    assert(target_vals(self.backlinks@) =~= vals.update(i as int, nv));
                    lemma_filed_set(keys, vals, tv, nv);
                }
                return;
            }
            assert(keys[i as int] != tv);
            i = i + 1;
        }
        let mut ids: Vec<String> = Vec::new();
        ids.push(note_id);
        self.backlinks.push((target, ids));
        proof {
            assert(strs(ids@) =~= seq![id]);
            assert(target_keys(self.backlinks@) =~= keys.push(tv));
            assert(target_vals(self.backlinks@) =~= vals.push(seq![id]));
            lemma_filed_push(keys, vals, tv, seq![id]);
            assert(add_unique(Seq::empty(), id) =~= seq![id]);
        }
    }

    /// Rebuilds the index from the links that `format` finds in each note: every id in it is
    /// the id of one of `notes`.
    pub fn index_all<M: NoteMetadata>(&mut self, notes: &[Note], attachments: &[Attachment], format: &M)
        ensures
            final(self).ids_among(Seq::new(notes@.len(), |i: int| notes@[i].id@)),
    {
        let ghost ids = Seq::new(notes@.len(), |i: int| notes@[i].id@);
        self.backlinks = Vec::new();
        let mut n: usize = 0;
        while n < notes.len()
            invariant
                n <= notes@.len(),
                ids == Seq::new(notes@.len(), |i: int| notes@[i].id@),
                self.ids_among(ids),
            decreases notes@.len() - n,
        {
            let targets = format.extract_links(&notes[n], attachments);
            let mut k: usize = 0;
            while k < targets.len()
                invariant
                    k <= targets@.len(),
                    n < notes@.len(),
                    ids == Seq::new(notes@.len(), |i: int| notes@[i].id@),
                    self.ids_among(ids),
                decreases targets@.len() - k,
            {
                let ghost pre = *self;
                let id = notes[n].id.clone();
                assert(ids[n as int] == id@);
                self.add(clone_target(&targets[k]), id);
                proof {
                    assert forall|t: (bool, Seq<char>), j: int|
                        0 <= j < self.links_view(t).len() implies ids.contains(#[trigger] self.links_view(t)[j]) by {
                        if self.links_view(t) != pre.links_view(t) && !(j < pre.links_view(t).len()) {
                            assert(self.links_view(t)[j] == id@);
                        }
                    }
                }
                k = k + 1;
            }
            n = n + 1;
        }
    }

    /// The ids of the notes that link to `target`, each once.
    pub fn backlinks_for(&self, target: &LinkTarget) -> (r: Vec<String>)
        ensures
            strs(r@) == self.links_view(target_view(*target)),
    {
        let ghost keys = target_keys(self.backlinks@);
        let ghost tv = target_view(*target);
        let mut i: usize = 0;
        while i < self.backlinks.len()
            invariant
                i <= self.backlinks@.len(),
                keys == target_keys(self.backlinks@),
                tv == target_view(*target),
                first_key(keys, tv, i as int) == first_key(keys, tv, 0),
            decreases self.backlinks@.len() - i,
        {
            assert(keys[i as int] == target_view(self.backlinks@[i as int].0));
            if target_eq(&self.backlinks[i].0, target) {
                assert(keys[i as int] == tv);
                return clone_strings(&self.backlinks[i].1);
            }
            assert(keys[i as int] != tv);
            i = i + 1;
        }
        let r: Vec<String> = Vec::new();
        assert(strs(r@) =~= Seq::<Seq<char>>::empty());
        r
    }

    /// The links that `format` finds in one note.
    pub fn outbound_links<M: NoteMetadata>(&self, note: &Note, attachments: &[Attachment], format: &M) -> (r: Vec<LinkTarget>) {
        format.extract_links(note, attachments)
    }
}

/// Position of the first entry with key `key`.
fn entry_of(entries: &Vec<(String, Vec<String>)>, key: &str) -> (r: Option<usize>)
    ensures
        r matches Some(i) ==> i < entries@.len() && i == first_key(str_keys(entries@), key@, 0),
        r is None ==> first_key(str_keys(entries@), key@, 0) == entries@.len(),
{
    let ghost keys = str_keys(entries@);
    let mut i: usize = 0;
    while i < entries.len()
        invariant
            i <= entries@.len(),
            keys == str_keys(entries@),
            first_key(keys, key@, i as int) == first_key(keys, key@, 0),
        decreases entries@.len() - i,
    {
        if str_eq(entries[i].0.as_str(), key) {
            assert(keys[i as int] == key@);
            return Some(i);
        }
        assert(keys[i as int] != key@);
        i = i + 1;
    }
    None
}

/// Tags assigned to notes from outside their content.
pub struct GlobalTagManager {
    pub global_tags: Vec<(String, Vec<String>)>,
}

impl GlobalTagManager {
    /// The tags filed under a note id.
    pub open spec fn tags_view(&self, note: Seq<char>) -> Seq<Seq<char>> {
        filed(str_keys(self.global_tags@), str_vals(self.global_tags@), note)
    }

    pub fn new() -> (r: GlobalTagManager)
        ensures
            r.global_tags@.len() == 0,
    {
        GlobalTagManager { global_tags: Vec::new() }
    }

    /// Appends a tag to a note's list.
    pub fn assign_tag(&mut self, note_id: &str, tag: String)
        ensures
            forall|k: Seq<char>|
                #[trigger] final(self).tags_view(k) == if k == note_id@ {
                    old(self).tags_view(k).push(tag@)
                } else {
                    old(self).tags_view(k)
                },
    {
        let ghost keys = str_keys(self.global_tags@);
        let ghost vals = str_vals(self.global_tags@);
        let ghost tg = tag@;
        match entry_of(&self.global_tags, note_id) {
            Some(i) => {
                let (k, mut tags) = self.global_tags.remove(i);
                let ghost before = strs(tags@);
                tags.push(tag);
                let ghost nv = strs(tags@);
                self.global_tags.insert(i, (k, tags));
                proof {
                    assert(nv =~= before.push(tg));
                    assert(before == vals[i as int]);
                    assert(str_keys(self.global_tags@) =~= keys);
                    assert(str_vals(self.global_tags@) =~= vals.update(i as int, nv));
                    lemma_filed_set(keys, vals, note_id@, nv);
                }
            },
            None => {
                let mut tags: Vec<String> = Vec::new();
                tags.push(tag);
                let key = note_id.to_owned();
                let ghost nk = key@;
                self.global_tags.push((key, tags));
                proof {
                    assert(strs(tags@) =~= seq![tg]);
                    assert(str_keys(self.global_tags@) =~= keys.push(note_id@));
                    assert(str_vals(self.global_tags@) =~= vals.push(seq![tg]));
                    lemma_filed_push(keys, vals, note_id@, seq![tg]);
                    assert(Seq::<Seq<char>>::empty().push(tg) =~= seq![tg]);
                }
            },
        }
    }

    /// A note's tags, in the order they were assigned.
    pub fn get_tags_for(&self, note_id: &str) -> (r: Vec<String>)
        ensures
            strs(r@) == self.tags_view(note_id@),
    {
        match entry_of(&self.global_tags, note_id) {
            Some(i) => clone_strings(&self.global_tags[i].1),
            None => {
                let r: Vec<String> = Vec::new();
                assert(strs(r@) =~= Seq::<Seq<char>>::empty());
                r
            },
        }
    }
}

impl Default for GlobalTagManager {
    fn default() -> (r: GlobalTagManager)
        ensures
            r.global_tags@.len() == 0,
    {
        GlobalTagManager::new()
    }
}

/// Maps each tag found in note content to the ids of the notes that carry it.
pub struct ScopedTagManager {
    pub tag_index: Vec<(String, Vec<String>)>,
}

/// Some of the first `n` tags is `key`.
pub open spec fn listed(tags: Seq<String>, key: Seq<char>, n: int) -> bool {
    exists|j: int| 0 <= j < n && #[trigger] tags[j]@ == key
}

impl ScopedTagManager {
    /// The note ids filed under a tag.
    pub open spec fn notes_view(&self, tag: Seq<char>) -> Seq<Seq<char>> {
        filed(str_keys(self.tag_index@), str_vals(self.tag_index@), tag)
    }

    pub fn new() -> (r: ScopedTagManager)
        ensures
            r.tag_index@.len() == 0,
    {
        ScopedTagManager { tag_index: Vec::new() }
    }

    /// Records that `note` carries each of `tags`: its id is filed once under each.
    pub fn index_note(&mut self, note: &Note, tags: Vec<String>)
        ensures
            forall|k: Seq<char>|
                #[trigger] final(self).notes_view(k) == if listed(tags@, k, tags@.len() as int) {
                    add_unique(old(self).notes_view(k), note.id@)
                } else {
                    old(self).notes_view(k)
                },
    {
        let ghost id = note.id@;
        let mut k: usize = 0;
        while k < tags.len()
            invariant
                k <= tags@.len(),
                id == note.id@,
                forall|key: Seq<char>|
                    #[trigger] self.notes_view(key) == if listed(tags@, key, k as int) {
                        add_unique(old(self).notes_view(key), id)
                    } else {
                        old(self).notes_view(key)
                    },
            decreases tags@.len() - k,
        {
            let ghost pre = *self;
            let ghost keys = str_keys(self.tag_index@);
            let ghost vals = str_vals(self.tag_index@);
            let ghost tg = tags@[k as int]@;
            match entry_of(&self.tag_index, tags[k].as_str()) {
                Some(i) => {
                    let (t, mut ids) = self.tag_index.remove(i);
                    let ghost before = strs(ids@);
                    insert_unique(&mut ids, note.id.clone());
                    let ghost nv = strs(ids@);
                    self.tag_index.insert(i, (t, ids));
                    proof {
                        assert(before == vals[i as int]);
                        assert(str_keys(self.tag_index@) =~= keys);
                        assert(str_vals(self.tag_index@) =~= vals.update(i as int, nv));
                        lemma_filed_set(keys, vals, tg, nv);
                    }
                },
                None => {
                    let mut ids: Vec<String> = Vec::new();
                    ids.push(note.id.clone());
                    let key = tags[k].clone();
                    self.tag_index.push((key, ids));
                    proof {
                        assert(strs(ids@) =~= seq![id]);
                        assert(str_keys(self.tag_index@) =~= keys.push(tg));
                        assert(str_vals(self.tag_index@) =~= vals.push(seq![id]));
                        lemma_filed_push(keys, vals, tg, seq![id]);
                        assert(add_unique(Seq::empty(), id) =~= seq![id]);
                    }
                },
            }
            proof {
                assert forall|key: Seq<char>| #[trigger] self.notes_view(key) == if listed(tags@, key, k + 1) {
                    add_unique(old(self).notes_view(key), id)
                } else {
                    old(self).notes_view(key)
                } by {
                    assert(pre.notes_view(key) == if listed(tags@, key, k as int) {
                        add_unique(old(self).notes_view(key), id)
                    } else {
                        old(self).notes_view(key)
                    });
                    if key == tg {
                        assert(tags@[k as int]@ == key);
                        let a = add_unique(old(self).notes_view(key), id);
                        assert(a.contains(id)) by {
                            if !old(self).notes_view(key).contains(id) {
                                assert(a[a.len() - 1] == id);
                            }
                        }
                    } else {
                        if listed(tags@, key, k + 1) {
                            let j = choose|j: int| 0 <= j < k + 1 && #[trigger] tags@[j]@ == key;
                            assert(j < k);
                        }
                    }
                }
            }
            k = k + 1;
        }
    }

    /// The ids of the notes that carry `tag`, each once.
    pub fn notes_with_tag(&self, tag: &str) -> (r: Vec<String>)
        ensures
            strs(r@) == self.notes_view(tag@),
    {
        match entry_of(&self.tag_index, tag) {
            Some(i) => clone_strings(&self.tag_index[i].1),
            None => {
                let r: Vec<String> = Vec::new();
                assert(strs(r@) =~= Seq::<Seq<char>>::empty());
                r
            },
        }
    }
}

impl Default for ScopedTagManager {
    fn default() -> (r: ScopedTagManager)
        ensures
            r.tag_index@.len() == 0,
    {
        ScopedTagManager::new()
    }
}

} // verus!
