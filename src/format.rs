//! Markdown notes as bytes: front matter, title, serialization and links.
use crate::markdown::{blocks_rel, parse_blocks};
use crate::parsers::opt_chars;
use crate::models::{
    Alignment, Attachment, AttachmentType, Block, ContainerBlock, Inline, LeafBlock, LinkTarget,
    ListStyle, Note,
};
use crate::text::{
    chars_of, decimal, decimal_chars, join_lines, lines_of, has_prefix, has_suffix, lines_of_str, opt_view, push_all,
    split_lines, starts_with, string_of, subvec, trim, trim_chars, ends_with,
};
use crate::text::str_eq;
use vstd::prelude::*;
use vstd::string::StrSliceExecFns;

verus! {

/// Turns notes into bytes and back.
pub trait NoteSerialization {
    /// Whether `n` is a note that reading `data` gives, with the name hint `hint`.
    spec fn reads(&self, data: Seq<u8>, hint: Option<Seq<char>>, n: Note) -> bool;

    /// Reads a note from bytes; `id_hint` names the note when given.
    fn deserialize(&self, data: &[u8], id_hint: Option<&str>) -> (r: Note)
        ensures
            self.reads(data@, hint_view(id_hint), r),
    ;

    /// Writes a note as bytes.
    fn serialize(&self, note: &Note) -> Vec<u8>;
}

/// The characters of a name hint.
pub open spec fn hint_view(h: Option<&str>) -> Option<Seq<char>> {
    match h {
        Some(s) => Some(s@),
        None => None,
    }
}

/// Format-specific discovery of tags and links.
pub trait NoteMetadata {
    /// Tags named in the content; none unless a format knows better.
    fn extract_tags(&self, content: &str) -> Vec<String> {
        Vec::new()
    }

    /// Link targets of a note; none unless a format knows better.
    fn extract_links(&self, note: &Note, attachments: &[Attachment]) -> Vec<LinkTarget> {
        Vec::new()
    }
}

/// The body of a leading `---` front-matter block, as the pattern
/// `(?s)^---\s*(.*?)\s*---` captures it.
pub uninterp spec fn frontmatter_of(s: Seq<char>) -> Option<Seq<char>>;

/// The text with a leading front-matter block (`(?s)^---\s*.*?\s*---\s*`) removed.
pub uninterp spec fn without_frontmatter(s: Seq<char>) -> Seq<char>;

/// Relies on regex's `Regex::new` and `Regex::captures`: the first capture group of the
/// front-matter pattern, if it matches.
#[verifier::external_body]
fn frontmatter(content: &str) -> (r: Option<String>)
    ensures
        opt_view(r) == frontmatter_of(content@),
{
    let re = regex::Regex::new(r"(?s)^---\s*(.*?)\s*---").ok()?;
    let caps = re.captures(content)?;
    Some(caps.get(1)?.as_str().to_string())
}

/// Relies on regex's `Regex::new` and `Regex::replace`: the first match of the front-matter
/// pattern replaced by nothing.
#[verifier::external_body]
fn strip_frontmatter(content: &str) -> (r: String)
    ensures
        r@ == without_frontmatter(content@),
{
    match regex::Regex::new(r"(?s)^---\s*.*?\s*---\s*") {
        Ok(re) => re.replace(content, "").into_owned(),
        Err(_) => content.to_string(),
    }
}

/// Relies on uuid's `Uuid::new_v4` and its `Display`: a fresh random id.
#[verifier::external_body]
fn fresh_id() -> (r: String) {
    uuid::Uuid::new_v4().to_string()
}

/// What `str::from_utf8` reads from bytes that are valid UTF-8.
pub uninterp spec fn utf8_of(b: Seq<u8>) -> Option<Seq<char>>;

/// Relies on `core::str::from_utf8`: the text when the bytes are valid UTF-8.
#[verifier::external_body]
pub(crate) fn utf8_text(data: &[u8]) -> (r: Option<String>)
    ensures
        opt_view(r) == utf8_of(data@),
{
    match core::str::from_utf8(data) {
        Ok(s) => Some(s.to_string()),
        Err(_) => None,
    }
}

/// Relies on `String::as_bytes`: the bytes are the text's UTF-8 encoding, which
/// `core::str::from_utf8` reads back as the same text.
#[verifier::external_body]
pub(crate) fn utf8_bytes(s: &String) -> (r: Vec<u8>)
    ensures
        utf8_of(r@) == Some(s@),
{
    s.as_bytes().to_vec()
}

/// What `str::to_lowercase` yields.
pub uninterp spec fn lower_of(s: Seq<char>) -> Seq<char>;

/// Relies on `str::to_lowercase`: the lowercase form, a function of the text alone.
#[verifier::external_body]
pub(crate) fn lowercase(s: &str) -> (r: String)
    ensures
        r@ == lower_of(s@),
{
    s.to_lowercase()
}

/// Index just past the last `/` or `\` (0 when there is none).
pub open spec fn name_start(s: Seq<char>, j: int) -> int
    decreases j,
{
    if j <= 0 || j > s.len() {
        0
    } else if s[j - 1] == '/' || s[j - 1] == '\\' {
        j
    } else {
        name_start(s, j - 1)
    }
}

/// Index of the last `.` (none when there is none).
pub open spec fn last_dot(s: Seq<char>, j: int) -> Option<int>
    decreases j,
{
    if j <= 0 || j > s.len() {
        None
    } else if s[j - 1] == '.' {
        Some(j - 1)
    } else {
        last_dot(s, j - 1)
    }
}

fn name_start_of(s: &Vec<char>) -> (r: usize)
    ensures
        r == name_start(s@, s.len() as int),
        r <= s.len(),
{
    let mut j: usize = s.len();
    while j > 0 && s[j - 1] != '/' && s[j - 1] != '\\'
        invariant
            j <= s.len(),
            name_start(s@, j as int) == name_start(s@, s.len() as int),
        decreases j,
    {
        j = j - 1;
    }
    j
}

fn last_dot_of(s: &Vec<char>) -> (r: Option<usize>)
    ensures
        r is Some == last_dot(s@, s.len() as int) is Some,
        r matches Some(k) ==> last_dot(s@, s.len() as int) == Some(k as int) && k < s.len(),
{
    let mut j: usize = s.len();
    while j > 0
        invariant
            j <= s.len(),
            last_dot(s@, j as int) == last_dot(s@, s.len() as int),
        decreases j,
    {
        if s[j - 1] == '.' {
            return Some(j - 1);
        }
        j = j - 1;
    }
    None
}

/// The file name of a path: what follows the last separator.
pub open spec fn file_name_of(p: Seq<char>) -> Seq<char> {
    p.subrange(name_start(p, p.len() as int), p.len() as int)
}

pub open spec fn image_ext(e: Seq<char>) -> bool {
    e == "png"@ || e == "jpg"@ || e == "jpeg"@ || e == "gif"@ || e == "bmp"@ || e == "webp"@
}

pub open spec fn audio_ext(e: Seq<char>) -> bool {
    e == "mp3"@ || e == "wav"@ || e == "ogg"@ || e == "flac"@
}

pub open spec fn video_ext(e: Seq<char>) -> bool {
    e == "mp4"@ || e == "mkv"@ || e == "mov"@ || e == "avi"@
}

pub open spec fn document_ext(e: Seq<char>) -> bool {
    e == "pdf"@ || e == "doc"@ || e == "docx"@ || e == "txt"@ || e == "md"@
}

/// The kind a lowercase extension names; any other extension is kept as the kind's name.
pub open spec fn kind_ok(k: AttachmentType, e: Seq<char>) -> bool {
    if image_ext(e) {
        k == AttachmentType::Image
    } else if audio_ext(e) {
        k == AttachmentType::Audio
    } else if video_ext(e) {
        k == AttachmentType::Video
    } else if document_ext(e) {
        k == AttachmentType::Document
    } else {
        k matches AttachmentType::Other { mime } && mime@ == e
    }
}

/// The attachment kind for a lowercase extension.
fn kind_for(ext: &String) -> (r: AttachmentType)
    ensures
        kind_ok(r, ext@),
{
    let e = ext.as_str();
    if str_eq(e, "png") || str_eq(e, "jpg") || str_eq(e, "jpeg") || str_eq(e, "gif") || str_eq(
        e,
        "bmp",
    ) || str_eq(e, "webp") {
        AttachmentType::Image
    } else if str_eq(e, "mp3") || str_eq(e, "wav") || str_eq(e, "ogg") || str_eq(e, "flac") {
        AttachmentType::Audio
    } else if str_eq(e, "mp4") || str_eq(e, "mkv") || str_eq(e, "mov") || str_eq(e, "avi") {
        AttachmentType::Video
    } else if str_eq(e, "pdf") || str_eq(e, "doc") || str_eq(e, "docx") || str_eq(e, "txt")
        || str_eq(e, "md") {
        AttachmentType::Document
    } else {
        AttachmentType::Other { mime: ext.clone() }
    }
}

/// The extension of a path: what follows its last `.`, or the whole path without one.
pub open spec fn extension_of(p: Seq<char>) -> Seq<char> {
    match last_dot(p, p.len() as int) {
        Some(k) => p.subrange(k + 1, p.len() as int),
        None => p,
    }
}

/// The attachment a path names: its file name, the path itself, and a kind from the
/// lowercase extension.
pub fn attachment_for(path: &str) -> (r: Attachment)
    ensures
        r.src@ == path@,
        r.name@ == file_name_of(path@),
        kind_ok(r.kind, lower_of(extension_of(path@))),
{
    let p = chars_of(path);
    let start = name_start_of(&p);
    let name = subvec(&p, start, p.len());
    let ext = match last_dot_of(&p) {
        Some(k) => subvec(&p, k + 1, p.len()),
        None => {
            assert(p@.subrange(0, p@.len() as int) =~= p@);
            subvec(&p, 0, p.len())
        },
    };
    assert(ext@ == extension_of(path@));
    let ext_text = string_of(&ext);
    let lower = lowercase(ext_text.as_str());
    assert(lower@ == lower_of(extension_of(path@)));
    let kind = kind_for(&lower);
    Attachment { name: string_of(&name), src: path.to_owned(), kind }
}

/// Where an attachment comes from: a path that a block names, or an attachment block.
pub enum AttSource {
    Path(Seq<char>),
    Given(Attachment),
}

/// The path of a wiki-embed target `![[path]]`.
pub open spec fn embed_of(t: Seq<char>) -> Option<Seq<char>> {
    if t.len() >= 5 && has_prefix(t, seq!['!', '[', '[']) && has_suffix(t, seq![']', ']']) {
        Some(t.subrange(3, t.len() - 2))
    } else {
        None
    }
}

/// A wiki-embed target `![[path]]`, returning the path.
fn embed_path(target: &str) -> (r: Option<String>)
    ensures
        opt_view(r) == embed_of(target@),
{
    let t = chars_of(target);
    let open = vec!['!', '[', '['];
    let close = vec![']', ']'];
    assert(open@ =~= seq!['!', '[', '[']);
    assert(close@ =~= seq![']', ']']);
    if t.len() >= 5 && starts_with(&t, &open) && ends_with(&t, &close) {
        Some(string_of(&subvec(&t, 3, t.len() - 2)))
    } else {
        None
    }
}

/// The attachment sources of the first `n` inlines.
pub open spec fn inline_srcs(v: Vec<Inline>, n: int) -> Seq<AttSource>
    decreases n,
{
    if n <= 0 || n > v@.len() {
        Seq::empty()
    } else {
        inline_srcs(v, n - 1) + match v@[n - 1] {
            Inline::Image { src, .. } => seq![AttSource::Path(src@)],
            Inline::Link { target, .. } => match embed_of(target@) {
                Some(p) => seq![AttSource::Path(p)],
                None => Seq::empty(),
            },
            _ => Seq::empty(),
        }
    }
}

pub open spec fn cells_srcs(cells: Vec<Vec<Inline>>, n: int) -> Seq<AttSource>
    decreases n,
{
    if n <= 0 || n > cells@.len() {
        Seq::empty()
    } else {
        cells_srcs(cells, n - 1) + inline_srcs(cells@[n - 1], cells@[n - 1]@.len() as int)
    }
}

pub open spec fn rows_srcs(rows: Vec<Vec<Vec<Inline>>>, n: int) -> Seq<AttSource>
    decreases n,
{
    if n <= 0 || n > rows@.len() {
        Seq::empty()
    } else {
        rows_srcs(rows, n - 1) + cells_srcs(rows@[n - 1], rows@[n - 1]@.len() as int)
    }
}

/// The attachment sources of one block, in order.
pub open spec fn block_srcs(b: Block) -> Seq<AttSource>
    decreases b, 0int,
{
    match b {
        Block::Leaf { leaf: LeafBlock::Image { src, .. } } => seq![AttSource::Path(src@)],
        Block::Leaf { leaf: LeafBlock::Paragraph { content } } => inline_srcs(
            content,
            content@.len() as int,
        ),
        Block::Leaf { leaf: LeafBlock::Heading { content, .. } } => inline_srcs(
            content,
            content@.len() as int,
        ),
        Block::Leaf { leaf: LeafBlock::Attachment { attachment } } => seq![
            AttSource::Given(attachment),
        ],
        Block::Container { container: ContainerBlock::Quote { blocks } } => blocks_srcs(
            blocks,
            blocks@.len() as int,
        ),
        Block::Container { container: ContainerBlock::List { items, .. } } => items_srcs(
            items,
            items@.len() as int,
        ),
        Block::Container { container: ContainerBlock::Table { rows, .. } } => rows_srcs(
            rows,
            rows@.len() as int,
        ),
        _ => Seq::empty(),
    }
}

pub open spec fn blocks_srcs(v: Vec<Block>, n: int) -> Seq<AttSource>
    decreases v, n,
    via blocks_srcs_decreases
{
    if n <= 0 || n > v@.len() {
        Seq::empty()
    } else {
        blocks_srcs(v, n - 1) + block_srcs(v@[n - 1])
    }
}

#[via_fn]
proof fn blocks_srcs_decreases(v: Vec<Block>, n: int) {
    if 0 < n <= v@.len() {
        assert(decreases_to!(v => v[n - 1]));
    }
}

pub open spec fn items_srcs(items: Vec<Vec<Block>>, n: int) -> Seq<AttSource>
    decreases items, n,
    via items_srcs_decreases
{
    if n <= 0 || n > items@.len() {
        Seq::empty()
    } else {
        items_srcs(items, n - 1) + blocks_srcs(items@[n - 1], items@[n - 1]@.len() as int)
    }
}

#[via_fn]
proof fn items_srcs_decreases(items: Vec<Vec<Block>>, n: int) {
    if 0 < n <= items@.len() {
        assert(decreases_to!(items => items[n - 1]));
    }
}

/// The attachment sources of the first `n` blocks of a slice.
pub open spec fn slice_srcs(s: Seq<Block>, n: int) -> Seq<AttSource>
    decreases n,
{
    if n <= 0 || n > s.len() {
        Seq::empty()
    } else {
        slice_srcs(s, n - 1) + block_srcs(s[n - 1])
    }
}

/// The attachment made for a source: for a path, the path, its file name and the kind of its
/// lowercase extension; otherwise the attachment block's own.
pub open spec fn att_ok(a: Attachment, src: AttSource) -> bool {
    match src {
        AttSource::Path(p) => a.src@ == p && a.name@ == file_name_of(p) && kind_ok(
            a.kind,
            lower_of(extension_of(p)),
        ),
        AttSource::Given(g) => a == g,
    }
}

/// `new` is `old` followed by one attachment for each source, in order.
pub open spec fn appended(old: Seq<Attachment>, new: Seq<Attachment>, srcs: Seq<AttSource>) -> bool {
    &&& new.len() == old.len() + srcs.len()
    &&& new.subrange(0, old.len() as int) == old
    &&& forall|k: int| 0 <= k < srcs.len() ==> att_ok(#[trigger] new[old.len() + k], srcs[k])
}

proof fn lemma_appended_trans(
    a: Seq<Attachment>,
    b: Seq<Attachment>,
    c: Seq<Attachment>,
    s1: Seq<AttSource>,
    s2: Seq<AttSource>,
)
    requires
        appended(a, b, s1),
        appended(b, c, s2),
    ensures
        appended(a, c, s1 + s2),
{
    assert(c.subrange(0, a.len() as int) =~= c.subrange(0, b.len() as int).subrange(0, a.len() as int));
    assert forall|k: int| 0 <= k < (s1 + s2).len() implies att_ok(#[trigger] c[a.len() + k], (s1 + s2)[k]) by {
        if k < s1.len() {
            assert(c[a.len() + k] == c.subrange(0, b.len() as int)[a.len() + k]);
            assert(b[a.len() + k] == c[a.len() + k]);
        } else {
            let m = k - s1.len();
            assert(c[b.len() + m] == c[a.len() + k]);
        }
    }
}

proof fn lemma_appended_empty(a: Seq<Attachment>)
    ensures
        appended(a, a, Seq::empty()),
{
    assert(a.subrange(0, a.len() as int) =~= a);
}

fn push_att(out: &mut Vec<Attachment>, a: Attachment, src: Ghost<AttSource>)
    requires
        att_ok(a, src@),
    ensures
        appended(old(out)@, final(out)@, seq![src@]),
{
    let ghost o = out@;
    out.push(a);
    assert(out@.subrange(0, o.len() as int) =~= o);
    assert(out@[o.len() as int] == a);
}

fn inline_attachments(inlines: &Vec<Inline>, out: &mut Vec<Attachment>)
    ensures
        appended(old(out)@, final(out)@, inline_srcs(*inlines, inlines@.len() as int)),
{
    let ghost o = out@;
    proof {
        lemma_appended_empty(o);
    }
    let mut k: usize = 0;
    while k < inlines.len()
        invariant
            k <= inlines.len(),
            appended(o, out@, inline_srcs(*inlines, k as int)),
        decreases inlines.len() - k,
    {
        let ghost mid = out@;
        match &inlines[k] {
            Inline::Image { src, .. } => {
                push_att(out, attachment_for(src.as_str()), Ghost(AttSource::Path(src@)));
                proof {
                    lemma_appended_trans(o, mid, out@, inline_srcs(*inlines, k as int), seq![AttSource::Path(src@)]);
                }
            },
            Inline::Link { target, .. } => match embed_path(target.as_str()) {
                Some(path) => {
                    push_att(out, attachment_for(path.as_str()), Ghost(AttSource::Path(path@)));
                    proof {
                        lemma_appended_trans(o, mid, out@, inline_srcs(*inlines, k as int), seq![AttSource::Path(path@)]);
                    }
                },
                None => {
                    assert(inline_srcs(*inlines, k + 1) =~= inline_srcs(*inlines, k as int));
                },
            },
            _ => {
                assert(inline_srcs(*inlines, k + 1) =~= inline_srcs(*inlines, k as int));
            },
        }
        k = k + 1;
    }
}

#[verifier::rlimit(60)]
fn block_attachments(b: &Block, out: &mut Vec<Attachment>)
    ensures
        appended(old(out)@, final(out)@, block_srcs(*b)),
    decreases b,
{
    let ghost o = out@;
    proof {
        lemma_appended_empty(o);
    }
    match b {
        Block::Leaf { leaf: LeafBlock::Image { src, .. } } => {
            push_att(out, attachment_for(src.as_str()), Ghost(AttSource::Path(src@)));
        },
        Block::Leaf { leaf: LeafBlock::Paragraph { content } } => inline_attachments(content, out),
        Block::Leaf { leaf: LeafBlock::Heading { content, .. } } => inline_attachments(content, out),
        Block::Leaf { leaf: LeafBlock::Attachment { attachment } } => {
            push_att(out, attachment.deep_clone(), Ghost(AttSource::Given(*attachment)));
        },
        Block::Container { container: ContainerBlock::Quote { blocks } } => {
            let mut k: usize = 0;
            while k < blocks.len()
                invariant
                    k <= blocks.len(),
                    decreases_to!(*b => *blocks),
                    appended(o, out@, blocks_srcs(*blocks, k as int)),
                decreases blocks.len() - k,
            {
                proof {
                    assert(decreases_to!(*blocks => blocks[k as int]));
                }
                let ghost mid = out@;
                block_attachments(&blocks[k], out);
                proof {
                    lemma_appended_trans(o, mid, out@, blocks_srcs(*blocks, k as int), block_srcs(blocks@[k as int]));
                }
                k = k + 1;
            }
        },
        Block::Container { container: ContainerBlock::List { items, .. } } => {
            let mut k: usize = 0;
            while k < items.len()
                invariant
                    k <= items.len(),
                    decreases_to!(*b => *items),
                    appended(o, out@, items_srcs(*items, k as int)),
                decreases items.len() - k,
            {
                let item = &items[k];
                let ghost before_item = out@;
                proof {
                    lemma_appended_empty(before_item);
                }
                let mut m: usize = 0;
                while m < item.len()
                    invariant
                        m <= item.len(),
                        k < items.len(),
                        *item == items[k as int],
                        decreases_to!(*b => *items),
                        appended(before_item, out@, blocks_srcs(*item, m as int)),
                    decreases item.len() - m,
                {
                    proof {
                        assert(decreases_to!(*items => items[k as int]));
                        assert(decreases_to!(items[k as int] => items[k as int][m as int]));
                    }
                    let ghost mid = out@;
                    block_attachments(&item[m], out);
                    proof {
                        lemma_appended_trans(before_item, mid, out@, blocks_srcs(*item, m as int), block_srcs(item@[m as int]));
                    }
                    m = m + 1;
                }
                proof {
                    assert(items[k as int] == items@[k as int]);
                    lemma_appended_trans(o, before_item, out@, items_srcs(*items, k as int), blocks_srcs(*item, item@.len() as int));
                }
                k = k + 1;
            }
        },
        Block::Container { container: ContainerBlock::Table { rows, .. } } => {
            let mut k: usize = 0;
            while k < rows.len()
                invariant
                    k <= rows.len(),
                    appended(o, out@, rows_srcs(*rows, k as int)),
                decreases rows.len() - k,
            {
                let row = &rows[k];
                let ghost before_row = out@;
                proof {
                    lemma_appended_empty(before_row);
                }
                let mut m: usize = 0;
                while m < row.len()
                    invariant
                        m <= row.len(),
                        appended(before_row, out@, cells_srcs(*row, m as int)),
                    decreases row.len() - m,
                {
                    let ghost mid = out@;
                    inline_attachments(&row[m], out);
                    proof {
                        lemma_appended_trans(before_row, mid, out@, cells_srcs(*row, m as int), inline_srcs(row@[m as int], row@[m as int]@.len() as int));
                    }
                    m = m + 1;
                }
                proof {
                    lemma_appended_trans(o, before_row, out@, rows_srcs(*rows, k as int), cells_srcs(*row, row@.len() as int));
                }
                k = k + 1;
            }
        },
        _ => {},
    }
}

/// The attachments that blocks refer to, in order: image blocks and inline images, `![[path]]`
/// embeds, attachment blocks, and those inside quotes, list items and table rows.
pub fn extract_attachments(blocks: &[Block]) -> (r: Vec<Attachment>)
    ensures
        appended(Seq::empty(), r@, slice_srcs(blocks@, blocks@.len() as int)),
{
    let mut out: Vec<Attachment> = Vec::new();
    proof {
        lemma_appended_empty(out@);
    }
    let mut k: usize = 0;
    while k < blocks.len()
        invariant
            k <= blocks@.len(),
            appended(Seq::empty(), out@, slice_srcs(blocks@, k as int)),
        decreases blocks@.len() - k,
    {
        let ghost mid = out@;
        block_attachments(&blocks[k], &mut out);
        proof {
            lemma_appended_trans(Seq::empty(), mid, out@, slice_srcs(blocks@, k as int), block_srcs(blocks@[k as int]));
        }
        k = k + 1;
    }
    out
}

/// The canonical Markdown form of one inline.
pub open spec fn inline_md(x: Inline) -> Seq<char>
    decreases x, 0int,
{
    match x {
        Inline::Text { text } => text@,
        Inline::Bold { content } => seq!['*', '*'] + run_md(content, content@.len() as int) + seq![
            '*',
            '*',
        ],
        Inline::Italic { content } => seq!['*'] + run_md(content, content@.len() as int) + seq!['*'],
        Inline::Strikethrough { content } => seq!['~', '~'] + run_md(content, content@.len() as int)
            + seq!['~', '~'],
        Inline::Link { text, target } => seq!['['] + run_md(text, text@.len() as int) + seq![']', '(']
            + target@ + seq![')'],
        Inline::Image { alt_text, src } => seq!['!', '['] + opt_chars(alt_text) + seq![']', '(']
            + src@ + seq![')'],
        Inline::Code { code } => seq!['`'] + code@ + seq!['`'],
        Inline::Math { content } => seq!['$'] + content@ + seq!['$'],
        Inline::LineBreak => seq!['\n'],
        Inline::Superscript { content } => seq!['^'] + run_md(content, content@.len() as int) + seq!['^'],
        Inline::Subscript { content } => seq!['~'] + run_md(content, content@.len() as int) + seq!['~'],
        Inline::FootnoteReference { label } => seq!['[', '^'] + label@ + seq![']'],
    }
}

/// The first `n` inlines of `v` in canonical Markdown form, one after another.
pub open spec fn run_md(v: Vec<Inline>, n: int) -> Seq<char>
    decreases v, n,
    via run_md_decreases
{
    if n <= 0 || n > v@.len() {
        Seq::empty()
    } else {
        run_md(v, n - 1) + inline_md(v@[n - 1])
    }
}

#[via_fn]
proof fn run_md_decreases(v: Vec<Inline>, n: int) {
    if 0 < n <= v@.len() {
        assert(decreases_to!(v => v[n - 1]));
    }
}

fn push_chars(out: &mut Vec<char>, s: &String)
    ensures
        final(out)@ == old(out)@ + s@,
{
    push_all(out, &chars_of(s.as_str()));
}

/// Writes one inline in its canonical Markdown form.
fn write_inline(x: &Inline, out: &mut Vec<char>)
    ensures
        final(out)@ == old(out)@ + inline_md(*x),
    decreases x, 0int,
{
    let ghost o = out@;
    match x {
        Inline::Text { text } => push_chars(out, text),
        Inline::Bold { content } => {
            out.push('*');
            out.push('*');
            write_inlines(content, out);
            out.push('*');
            out.push('*');
        },
        Inline::Italic { content } => {
            out.push('*');
            write_inlines(content, out);
            out.push('*');
        },
        Inline::Strikethrough { content } => {
            out.push('~');
            out.push('~');
            write_inlines(content, out);
            out.push('~');
            out.push('~');
        },
        Inline::Link { text, target } => {
            out.push('[');
            write_inlines(text, out);
            out.push(']');
            out.push('(');
            push_chars(out, target);
            out.push(')');
        },
        Inline::Image { alt_text, src } => {
            out.push('!');
            out.push('[');
            match alt_text {
                Some(a) => push_chars(out, a),
                None => {},
            }
            out.push(']');
            out.push('(');
            push_chars(out, src);
            out.push(')');
        },
        Inline::Code { code } => {
            out.push('`');
            push_chars(out, code);
            out.push('`');
        },
        Inline::Math { content } => {
            out.push('$');
            push_chars(out, content);
            out.push('$');
        },
        Inline::LineBreak => out.push('\n'),
        Inline::Superscript { content } => {
            out.push('^');
            write_inlines(content, out);
            out.push('^');
        },
        Inline::Subscript { content } => {
            out.push('~');
            write_inlines(content, out);
            out.push('~');
        },
        Inline::FootnoteReference { label } => {
            out.push('[');
            out.push('^');
            push_chars(out, label);
            out.push(']');
        },
    }
    assert(out@ =~= o + inline_md(*x));
}

/// Writes inlines in their canonical Markdown form.
fn write_inlines(inlines: &Vec<Inline>, out: &mut Vec<char>)
    ensures
        final(out)@ == old(out)@ + run_md(*inlines, inlines@.len() as int),
    decreases inlines, 1int,
{
    let ghost o = out@;
    let mut k: usize = 0;
    assert(o + run_md(*inlines, 0) =~= o);
    while k < inlines.len()
        invariant
            k <= inlines.len(),
            out@ == o + run_md(*inlines, k as int),
        decreases inlines.len() - k,
    {
        proof {
            assert(decreases_to!(*inlines => inlines[k as int]));
        }
        write_inline(&inlines[k], out);
        k = k + 1;
        assert(out@ =~= o + run_md(*inlines, k as int));
    }
}

/// Inlines in their canonical Markdown form.
pub fn serialize_inlines(inlines: &Vec<Inline>) -> (r: String)
    ensures
        r@ == run_md(*inlines, inlines@.len() as int),
{
    let mut out: Vec<char> = Vec::new();
    write_inlines(inlines, &mut out);
    string_of(&out)
}

/// Each line of `ls` after `p`, each ending with a newline.
pub open spec fn prefixed(ls: Seq<Seq<char>>, p: Seq<char>) -> Seq<char>
    decreases ls.len(),
{
    if ls.len() == 0 {
        Seq::empty()
    } else {
        prefixed(ls.drop_last(), p) + p + ls.last() + seq!['\n']
    }
}

/// Appends each line of `text` after `prefix`, each ending with a newline.
fn push_prefixed(out: &mut Vec<char>, text: &Vec<char>, prefix: &Vec<char>)
    ensures
        final(out)@ == old(out)@ + prefixed(lines_of(text@), prefix@),
{
    let ghost o = out@;
    let lines = split_lines(text);
    let ghost ls = lines.deep_view();
    let mut k: usize = 0;
    assert(ls.subrange(0, 0) =~= Seq::<Seq<char>>::empty());
    assert(o + prefixed(ls.subrange(0, 0), prefix@) =~= o);
    while k < lines.len()
        invariant
            ls == lines.deep_view(),
            k <= lines.len(),
            out@ == o + prefixed(ls.subrange(0, k as int), prefix@),
        decreases lines.len() - k,
    {
        push_all(out, prefix);
        push_all(out, &lines[k]);
        out.push('\n');
        proof {
            let next = ls.subrange(0, k + 1);
            assert(next.drop_last() =~= ls.subrange(0, k as int));
            assert(next.last() == lines@[k as int]@);
        }
        k = k + 1;
        assert(out@ =~= o + prefixed(ls.subrange(0, k as int), prefix@));
    }
    assert(ls.subrange(0, lines.len() as int) =~= ls);
}

/// A table row: ` cell ` pieces joined by `|`, for the first `n` cells.
pub open spec fn cells_md(cells: Vec<Vec<Inline>>, n: int) -> Seq<char>
    decreases n,
{
    if n <= 0 || n > cells@.len() {
        Seq::empty()
    } else {
        cells_md(cells, n - 1) + (if n > 1 {
            seq!['|']
        } else {
            Seq::empty()
        }) + seq![' '] + run_md(cells@[n - 1], cells@[n - 1]@.len() as int) + seq![' ']
    }
}

fn write_cells(cells: &Vec<Vec<Inline>>, out: &mut Vec<char>)
    ensures
        final(out)@ == old(out)@ + cells_md(*cells, cells@.len() as int) + seq!['\n'],
{
    let ghost o = out@;
    let mut k: usize = 0;
    assert(o + cells_md(*cells, 0) =~= o);
    while k < cells.len()
        invariant
            k <= cells.len(),
            out@ == o + cells_md(*cells, k as int),
        decreases cells.len() - k,
    {
        if k > 0 {
            out.push('|');
        }
        out.push(' ');
        write_inlines(&cells[k], out);
        out.push(' ');
        k = k + 1;
        assert(out@ =~= o + cells_md(*cells, k as int));
    }
    out.push('\n');
}

/// The separator cell for column `k`.
pub open spec fn align_md(al: Option<Vec<Alignment>>, k: int) -> Seq<char> {
    match al {
        Some(a) => if 0 <= k < a@.len() {
            match a@[k] {
                Alignment::Left => seq![' ', '-', '-', '-', ' '],
                Alignment::Center => seq![' ', ':', '-', '-', '-', ':', ' '],
                Alignment::Right => seq![' ', '-', '-', '-', ':', ' '],
            }
        } else {
            seq![' ', '-', '-', '-', ' ']
        },
        None => seq![' ', '-', '-', '-', ' '],
    }
}

/// The separator row for the first `n` columns.
pub open spec fn sep_md(al: Option<Vec<Alignment>>, n: int) -> Seq<char>
    decreases n,
{
    if n <= 0 {
        Seq::empty()
    } else {
        sep_md(al, n - 1) + (if n > 1 {
            seq!['|']
        } else {
            Seq::empty()
        }) + align_md(al, n - 1)
    }
}

/// The first `n` data rows.
pub open spec fn rows_md(rows: Vec<Vec<Vec<Inline>>>, n: int) -> Seq<char>
    decreases n,
{
    if n <= 0 || n > rows@.len() {
        Seq::empty()
    } else {
        rows_md(rows, n - 1) + cells_md(rows@[n - 1], rows@[n - 1]@.len() as int) + seq!['\n']
    }
}

/// The number an ordered list shows for item `k`.
pub open spec fn item_number(k: int) -> nat {
    if k + 1 <= u64::MAX {
        (k + 1) as nat
    } else {
        u64::MAX as nat
    }
}

/// The marker of list item `k`.
pub open spec fn marker_md(style: ListStyle, k: int) -> Seq<char> {
    match style {
        ListStyle::Unordered { bullet } => seq![bullet, ' '],
        ListStyle::Ordered { .. } => decimal(item_number(k)) + seq!['.', ' '],
    }
}

/// The canonical Markdown form of one block, ending with a newline.
pub open spec fn block_md(b: Block) -> Seq<char>
    decreases b, 0int,
{
    match b {
        Block::Leaf { leaf: LeafBlock::Heading { level, content } } => Seq::new(
            level as nat,
            |_i: int| '#',
        ) + seq![' '] + run_md(content, content@.len() as int) + seq!['\n'],
        Block::Leaf { leaf: LeafBlock::Paragraph { content } } => run_md(
            content,
            content@.len() as int,
        ) + seq!['\n'],
        Block::Leaf { leaf: LeafBlock::Image { alt_text, src } } => seq!['!', '['] + opt_chars(
            alt_text,
        ) + seq![']', '('] + src@ + seq![')', '\n'],
        Block::Leaf { leaf: LeafBlock::CodeBlock { language, content } } => seq!['`', '`', '`']
            + opt_chars(language) + seq!['\n'] + content@ + seq!['`', '`', '`', '\n'],
        Block::Leaf { leaf: LeafBlock::MathBlock { content } } => seq!['$', '$', '\n'] + content@
            + seq!['\n', '$', '$', '\n'],
        Block::Leaf { leaf: LeafBlock::HorizontalRule } => seq!['-', '-', '-', '\n'],
        Block::Leaf { leaf: LeafBlock::Attachment { attachment } } => seq!['!', '[']
            + attachment.name@ + seq![']', '('] + attachment.src@ + seq![')', '\n'],
        Block::Container { container: ContainerBlock::Quote { blocks } } => quote_md(
            blocks,
            blocks@.len() as int,
        ),
        Block::Container { container: ContainerBlock::List { style, items } } => list_md(
            items,
            style,
            items@.len() as int,
        ),
        Block::Container { container: ContainerBlock::Table { headers, rows, alignments, .. } } =>
            cells_md(headers, headers@.len() as int) + seq!['\n'] + sep_md(
            alignments,
            headers@.len() as int,
        ) + seq!['\n'] + rows_md(rows, rows@.len() as int),
        Block::Container { container: ContainerBlock::Div { children, .. } } => blocks_md(
            children,
            children@.len() as int,
        ),
        _ => Seq::empty(),
    }
}

/// The first `n` blocks of a quote, each line after `> `.
pub open spec fn quote_md(v: Vec<Block>, n: int) -> Seq<char>
    decreases v, n,
    via quote_md_decreases
{
    if n <= 0 || n > v@.len() {
        Seq::empty()
    } else {
        quote_md(v, n - 1) + prefixed(lines_of(block_md(v@[n - 1])), seq!['>', ' '])
    }
}

#[via_fn]
proof fn quote_md_decreases(v: Vec<Block>, n: int) {
    if 0 < n <= v@.len() {
        assert(decreases_to!(v => v[n - 1]));
    }
}

/// The first `n` blocks, one after another.
pub open spec fn blocks_md(v: Vec<Block>, n: int) -> Seq<char>
    decreases v, n,
    via blocks_md_decreases
{
    if n <= 0 || n > v@.len() {
        Seq::empty()
    } else {
        blocks_md(v, n - 1) + block_md(v@[n - 1])
    }
}

#[via_fn]
proof fn blocks_md_decreases(v: Vec<Block>, n: int) {
    if 0 < n <= v@.len() {
        assert(decreases_to!(v => v[n - 1]));
    }
}

/// The first `m` blocks of a list item: the first as it is, the others indented.
pub open spec fn item_md(item: Vec<Block>, m: int) -> Seq<char>
    decreases item, m,
    via item_md_decreases
{
    if m <= 0 || m > item@.len() {
        Seq::empty()
    } else if m == 1 {
        block_md(item@[0])
    } else {
        item_md(item, m - 1) + prefixed(lines_of(block_md(item@[m - 1])), seq![' ', ' '])
    }
}

#[via_fn]
proof fn item_md_decreases(item: Vec<Block>, m: int) {
    if 0 < m <= item@.len() {
        assert(decreases_to!(item => item[m - 1]));
        assert(decreases_to!(item => item[0]));
    }
}

/// The first `n` items of a list, each after its marker.
pub open spec fn list_md(items: Vec<Vec<Block>>, style: ListStyle, n: int) -> Seq<char>
    decreases items, n,
    via list_md_decreases
{
    if n <= 0 || n > items@.len() {
        Seq::empty()
    } else {
        list_md(items, style, n - 1) + marker_md(style, n - 1) + if items@[n - 1]@.len() == 0 {
            seq!['\n']
        } else {
            item_md(items@[n - 1], items@[n - 1]@.len() as int)
        }
    }
}

#[via_fn]
proof fn list_md_decreases(items: Vec<Vec<Block>>, style: ListStyle, n: int) {
    if 0 < n <= items@.len() {
        assert(decreases_to!(items => items[n - 1]));
    }
}

fn push_align(out: &mut Vec<char>, al: &Option<Vec<Alignment>>, k: usize)
    ensures
        final(out)@ == old(out)@ + align_md(*al, k as int),
{
    let ghost o = out@;
    let kind: u8 = match al {
        Some(a) => if k < a.len() {
            match a[k] {
                Alignment::Left => 0,
                Alignment::Center => 1,
                Alignment::Right => 2,
            }
        } else {
            0
        },
        None => 0,
    };
    out.push(' ');
    if kind == 1 {
        out.push(':');
    }
    out.push('-');
    out.push('-');
    out.push('-');
    if kind != 0 {
        out.push(':');
    }
    out.push(' ');
    assert(out@ =~= o + align_md(*al, k as int));
}

/// Writes one block, ending with a newline.
#[verifier::rlimit(60)]
fn write_block(b: &Block, out: &mut Vec<char>)
    ensures
        final(out)@ == old(out)@ + block_md(*b),
    decreases b, 0int,
{
    let ghost o = out@;
    match b {
        Block::Leaf { leaf: LeafBlock::Heading { level, content } } => {
            let mut l: u8 = 0;
            while l < *level
                invariant
                    l <= *level,
                    out@ == o + Seq::new(l as nat, |_i: int| '#'),
                decreases *level - l,
            {
                out.push('#');
                l = l + 1;
                assert(out@ =~= o + Seq::new(l as nat, |_i: int| '#'));
            }
            out.push(' ');
            write_inlines(content, out);
            out.push('\n');
        },
        Block::Leaf { leaf: LeafBlock::Paragraph { content } } => {
            write_inlines(content, out);
            out.push('\n');
        },
        Block::Leaf { leaf: LeafBlock::Image { alt_text, src } } => {
            out.push('!');
            out.push('[');
            match alt_text {
                Some(a) => push_chars(out, a),
                None => {},
            }
            out.push(']');
            out.push('(');
            push_chars(out, src);
            out.push(')');
            out.push('\n');
        },
        Block::Leaf { leaf: LeafBlock::CodeBlock { language, content } } => {
            out.push('`');
            out.push('`');
            out.push('`');
            match language {
                Some(l) => push_chars(out, l),
                None => {},
            }
            out.push('\n');
            push_chars(out, content);
            out.push('`');
            out.push('`');
            out.push('`');
            out.push('\n');
        },
        Block::Leaf { leaf: LeafBlock::MathBlock { content } } => {
            out.push('$');
            out.push('$');
            out.push('\n');
            push_chars(out, content);
            out.push('\n');
            out.push('$');
            out.push('$');
            out.push('\n');
        },
        Block::Leaf { leaf: LeafBlock::HorizontalRule } => {
            out.push('-');
            out.push('-');
            out.push('-');
            out.push('\n');
        },
        Block::Leaf { leaf: LeafBlock::Attachment { attachment } } => {
            out.push('!');
            out.push('[');
            push_chars(out, &attachment.name);
            out.push(']');
            out.push('(');
            push_chars(out, &attachment.src);
            out.push(')');
            out.push('\n');
        },
        Block::Container { container: ContainerBlock::Quote { blocks } } => {
            let quote_prefix = vec!['>', ' '];
            assert(quote_prefix@ =~= seq!['>', ' ']);
            let mut k: usize = 0;
            assert(o + quote_md(*blocks, 0) =~= o);
            while k < blocks.len()
                invariant
                    k <= blocks.len(),
                    decreases_to!(*b => *blocks),
                    quote_prefix@ == seq!['>', ' '],
                    out@ == o + quote_md(*blocks, k as int),
                decreases blocks.len() - k,
            {
                proof {
                    assert(decreases_to!(*blocks => blocks[k as int]));
                }
                let mut inner: Vec<char> = Vec::new();
                write_block(&blocks[k], &mut inner);
                push_prefixed(out, &inner, &quote_prefix);
                k = k + 1;
                assert(out@ =~= o + quote_md(*blocks, k as int));
            }
        },
        Block::Container { container: ContainerBlock::List { style, items } } => {
            let indent = vec![' ', ' '];
            assert(indent@ =~= seq![' ', ' ']);
            let mut k: usize = 0;
            assert(o + list_md(*items, *style, 0) =~= o);
            while k < items.len()
                invariant
                    k <= items.len(),
                    decreases_to!(*b => *items),
                    indent@ == seq![' ', ' '],
                    out@ == o + list_md(*items, *style, k as int),
                decreases items.len() - k,
            {
                let ghost before_item = out@;
                match style {
                    ListStyle::Unordered { bullet } => out.push(*bullet),
                    ListStyle::Ordered { .. } => {
                        let num: u64 = if (k as u64) < u64::MAX {
                            k as u64 + 1
                        } else {
                            u64::MAX
                        };
                        assert(num == item_number(k as int));
                        push_all(out, &decimal_chars(num));
                        out.push('.');
                    },
                }
                out.push(' ');
                assert(out@ =~= before_item + marker_md(*style, k as int));
                let ghost after_marker = out@;
                let item = &items[k];
                if item.len() == 0 {
                    out.push('\n');
                }
                let mut m: usize = 0;
                while m < item.len()
                    invariant
                        m <= item.len(),
                        k < items.len(),
                        *item == items[k as int],
                        decreases_to!(*b => *items),
                        indent@ == seq![' ', ' '],
                        item@.len() > 0 ==> out@ == after_marker + item_md(*item, m as int),
                        item@.len() == 0 ==> out@ == after_marker + seq!['\n'],
                    decreases item.len() - m,
                {
                    proof {
                        assert(decreases_to!(*items => items[k as int]));
                        assert(decreases_to!(items[k as int] => items[k as int][m as int]));
                    }
                    if m == 0 {
                        write_block(&item[m], out);
                    } else {
                        let mut inner: Vec<char> = Vec::new();
                        write_block(&item[m], &mut inner);
                        push_prefixed(out, &inner, &indent);
                    }
                    m = m + 1;
                    assert(out@ =~= after_marker + item_md(*item, m as int));
                }
                proof {
                    assert(items[k as int] == items@[k as int]);
                    assert(before_item == o + list_md(*items, *style, k as int));
                }
                k = k + 1;
                assert(out@ =~= o + list_md(*items, *style, k as int));
            }
        },
        Block::Container { container: ContainerBlock::Table { headers, rows, alignments, .. } } => {
            write_cells(headers, out);
            let ghost after_head = out@;
            let mut k: usize = 0;
            assert(after_head + sep_md(*alignments, 0) =~= after_head);
            while k < headers.len()
                invariant
                    k <= headers.len(),
                    out@ == after_head + sep_md(*alignments, k as int),
                decreases headers.len() - k,
            {
                if k > 0 {
                    out.push('|');
                }
                push_align(out, alignments, k);
                k = k + 1;
                assert(out@ =~= after_head + sep_md(*alignments, k as int));
            }
            out.push('\n');
            let ghost after_sep = out@;
            let mut r: usize = 0;
            assert(after_sep + rows_md(*rows, 0) =~= after_sep);
            while r < rows.len()
                invariant
                    r <= rows.len(),
                    out@ == after_sep + rows_md(*rows, r as int),
                decreases rows.len() - r,
            {
                write_cells(&rows[r], out);
                r = r + 1;
                assert(out@ =~= after_sep + rows_md(*rows, r as int));
            }
        },
        Block::Container { container: ContainerBlock::Div { children, .. } } => {
            let mut k: usize = 0;
            assert(o + blocks_md(*children, 0) =~= o);
            while k < children.len()
                invariant
                    k <= children.len(),
                    decreases_to!(*b => *children),
                    out@ == o + blocks_md(*children, k as int),
                decreases children.len() - k,
            {
                proof {
                    assert(decreases_to!(*children => children[k as int]));
                }
                write_block(&children[k], out);
                k = k + 1;
                assert(out@ =~= o + blocks_md(*children, k as int));
            }
        },
        _ => {},
    }
    assert(out@ =~= o + block_md(*b));
}

/// A title line, then each block in its canonical form.
#[verifier::rlimit(60)]
pub fn serialize_note(note: &Note) -> (r: String)
    ensures
        r@ == seq!['#', ' '] + note.title@ + seq!['\n'] + blocks_md(note.blocks, note.blocks@.len() as int),
{
    let mut out: Vec<char> = Vec::new();
    out.push('#');
    out.push(' ');
    push_chars(&mut out, &note.title);
    out.push('\n');
    let ghost head = out@;
    let mut k: usize = 0;
    assert(head + blocks_md(note.blocks, 0) =~= head);
    while k < note.blocks.len()
        invariant
            k <= note.blocks.len(),
            out@ == head + blocks_md(note.blocks, k as int),
        decreases note.blocks.len() - k,
    {
        write_block(&note.blocks[k], &mut out);
        k = k + 1;
        assert(out@ =~= head + blocks_md(note.blocks, k as int));
    }
    assert(head =~= seq!['#', ' '] + note.title@ + seq!['\n']);
    string_of(&out)
}

/// The file name of a path without its last extension.
pub open spec fn stem_of(path: Seq<char>) -> Seq<char> {
    let name = file_name_of(path);
    match last_dot(name, name.len() as int) {
        Some(k) => name.subrange(0, k),
        None => name,
    }
}

/// The Markdown note format.
#[derive(Debug, Clone, Copy, PartialEq, Eq)]
pub struct MarkdownFormat;

/// Drops every trailing `.md`.
pub open spec fn strip_md(s: Seq<char>) -> Seq<char>
    decreases s.len(),
{
    if s.len() >= 3 && has_suffix(s, seq!['.', 'm', 'd']) {
        strip_md(s.subrange(0, s.len() - 3))
    } else {
        s
    }
}

/// Drops every leading and trailing `"`.
/// The value of the first `title:` line from line `i` on: trimmed, without surrounding quotes.
pub open spec fn yaml_title_in(ls: Seq<Seq<char>>, i: int) -> Option<Seq<char>>
    decreases ls.len() - i,
{
    if i < 0 || i >= ls.len() {
        None
    } else if has_prefix(ls[i], seq!['t', 'i', 't', 'l', 'e', ':']) {
        Some(crate::org::strip_char(trim(ls[i].subrange(6, ls[i].len() as int)), '"'))
    } else {
        yaml_title_in(ls, i + 1)
    }
}

/// The `title:` value of a text's front matter, if any.
pub open spec fn yaml_title(text: Seq<char>) -> Option<Seq<char>> {
    match frontmatter_of(text) {
        Some(b) => yaml_title_in(lines_of(b), 0),
        None => None,
    }
}

/// The text that bytes hold: their UTF-8 reading, or nothing when they are not UTF-8.
pub open spec fn input_text(data: Seq<u8>) -> Seq<char> {
    match utf8_of(data) {
        Some(t) => t,
        None => Seq::empty(),
    }
}

pub open spec fn title_line(t: Seq<char>) -> bool {
    has_prefix(t, seq!['#', ' '])
}

/// Where a note's body starts: after the leading blank lines and, without a front-matter
/// title, the leading `# ` title lines.
pub open spec fn body_start(ls: Seq<Seq<char>>, j: int, yaml: bool) -> int
    decreases ls.len() - j,
{
    if 0 <= j < ls.len() && (trim(ls[j]).len() == 0 || (!yaml && title_line(trim(ls[j])))) {
        body_start(ls, j + 1, yaml)
    } else {
        j
    }
}

proof fn lemma_body_start_ge(ls: Seq<Seq<char>>, j: int, yaml: bool)
    requires
        0 <= j,
    ensures
        body_start(ls, j, yaml) >= j,
    decreases ls.len() - j,
{
    if 0 <= j < ls.len() && (trim(ls[j]).len() == 0 || (!yaml && title_line(trim(ls[j])))) {
        lemma_body_start_ge(ls, j + 1, yaml);
    }
}

/// The title after reading lines `j..k`: each title line replaces it with its text.
pub open spec fn title_scan(ls: Seq<Seq<char>>, j: int, k: int, cur: Seq<char>) -> Seq<char>
    decreases k - j,
{
    if j >= k || j < 0 || j >= ls.len() {
        cur
    } else {
        title_scan(ls, j + 1, k, if trim(ls[j]).len() == 0 {
            cur
        } else {
            trim(trim(ls[j]).subrange(2, trim(ls[j]).len() as int))
        })
    }
}

impl MarkdownFormat {
    /// The `title:` value of the front matter, trimmed and without quotes.
    pub fn extract_yaml_title(content: &str) -> (r: Option<String>)
        ensures
            opt_view(r) == yaml_title(content@),
    {
        let body = match frontmatter(content) {
            Some(b) => b,
            None => return None,
        };
        let lines = lines_of_str(body.as_str());
        let ghost ls = lines.deep_view();
        let key = vec!['t', 'i', 't', 'l', 'e', ':'];
        assert(key@ =~= seq!['t', 'i', 't', 'l', 'e', ':']);
        let mut i: usize = 0;
        while i < lines.len()
            invariant
                i <= lines.len(),
                ls == lines.deep_view(),
                ls == lines_of(body@),
                body@ == frontmatter_of(content@)->0,
                frontmatter_of(content@) is Some,
                key@ == seq!['t', 'i', 't', 'l', 'e', ':'],
                yaml_title_in(ls, i as int) == yaml_title_in(ls, 0),
            decreases lines.len() - i,
        {
            assert(ls[i as int] == lines@[i as int]@);
            if starts_with(&lines[i], &key) {
                let value = trim_chars(&subvec(&lines[i], 6, lines[i].len()));
                return Some(string_of(&crate::org::trim_char(&value, '"')));
            }
            i = i + 1;
        }
        None
    }

    /// The text without its front matter, trimmed.
    pub fn strip_yaml_frontmatter(content: &str) -> (r: String)
        ensures
            r@ == trim(without_frontmatter(content@)),
    {
        let s = strip_frontmatter(content);
        string_of(&trim_chars(&chars_of(s.as_str())))
    }

    /// A file name without its `.md` endings.
    pub fn strip_extension(name: &str) -> (r: String)
        ensures
            r@ == strip_md(name@),
    {
        let s = chars_of(name);
        let md = vec!['.', 'm', 'd'];
        assert(md@ =~= seq!['.', 'm', 'd']);
        let mut end: usize = s.len();
        assert(s@.subrange(0, end as int) =~= s@);
        while end >= 3 && ends_with(&subvec(&s, 0, end), &md)
            invariant
                end <= s.len(),
                md@ == seq!['.', 'm', 'd'],
                strip_md(s@.subrange(0, end as int)) == strip_md(s@),
            decreases end,
        {
            assert(s@.subrange(0, end as int).subrange(0, end - 3) =~= s@.subrange(0, end - 3));
            end = end - 3;
        }
        assert(s@.subrange(0, s.len() as int) =~= s@);
        string_of(&subvec(&s, 0, end))
    }

    /// The file name of a path without its last extension.
    pub fn filename_stem(path: &str) -> (r: String)
        ensures
            r@ == stem_of(path@),
    {
        let p = chars_of(path);
        let start = name_start_of(&p);
        let name = subvec(&p, start, p.len());
        match last_dot_of(&name) {
            Some(k) => string_of(&subvec(&name, 0, k)),
            None => string_of(&name),
        }
    }

    /// A note from a file name and its content: the title comes from the front matter or
    /// else the file name, the blocks from the body after the front matter.
    pub fn parse_note(&self, file_name: &str, content: &str) -> (r: Note)
        ensures
            r.id@ == file_name@,
            frontmatter_of(content@) is None ==> r.title@ == strip_md(file_name@),
            r.title@ == match yaml_title(content@) {
                Some(t) => t,
                None => strip_md(file_name@),
            },
            blocks_rel(
                lines_of(trim(without_frontmatter(content@))),
                r.blocks@,
                trim(without_frontmatter(content@)).len() as int,
            ),
    {
        let title = match MarkdownFormat::extract_yaml_title(content) {
            Some(t) => t,
            None => MarkdownFormat::strip_extension(file_name),
        };
        let body = MarkdownFormat::strip_yaml_frontmatter(content);
        let blocks = parse_blocks(body.as_str());
        Note { id: file_name.to_owned(), title, blocks }
    }

    /// Reads a note: text after the front matter, the title from the front matter, else from
    /// leading `# ` lines, else from the id hint; the id from the hint's stem or a fresh one.
    pub fn deserialize(&self, data: &[u8], id_hint: Option<&str>) -> (r: Note)
        ensures
            id_hint matches Some(h) ==> r.id@ == stem_of(h@),
            ({
                let tx = input_text(data@);
                let yt = yaml_title(tx);
                let ls = lines_of(trim(without_frontmatter(tx)));
                let k = body_start(ls, 0, yt is Some);
                let init = match yt {
                    Some(t) => t,
                    None => match id_hint {
                        Some(h) => stem_of(h@),
                        None => stem_of(""@),
                    },
                };
                let rest = join_lines(ls.subrange(k, ls.len() as int));
                &&& r.title@ == title_scan(ls, 0, k, init)
                &&& blocks_rel(lines_of(rest), r.blocks@, rest.len() as int)
            }),
    {
        let input = match utf8_text(data) {
            Some(s) => s,
            None => String::new(),
        };
        assert(input@ == input_text(data@));
        let yaml_title = MarkdownFormat::extract_yaml_title(input.as_str());
        let body = MarkdownFormat::strip_yaml_frontmatter(input.as_str());
        let has_yaml = yaml_title.is_some();
        let mut title = match yaml_title {
            Some(t) => t,
            None => match id_hint {
                Some(h) => MarkdownFormat::filename_stem(h),
                None => MarkdownFormat::filename_stem(""),
            },
        };
        let lines = lines_of_str(body.as_str());
        let ghost ls = lines.deep_view();
        let ghost yaml = has_yaml;
        let ghost init = title@;
        let heading = vec!['#', ' '];
        assert(heading@ =~= seq!['#', ' ']);
        let mut i: usize = 0;
        let mut more = true;
        while i < lines.len() && more
            invariant
                i <= lines.len(),
                ls == lines.deep_view(),
                heading@ == seq!['#', ' '],
                yaml == has_yaml,
                body_start(ls, i as int, yaml) == body_start(ls, 0, yaml),
                !more ==> body_start(ls, i as int, yaml) == i,
                title_scan(ls, i as int, body_start(ls, 0, yaml), title@) == title_scan(
                    ls,
                    0,
                    body_start(ls, 0, yaml),
                    init,
                ),
            decreases lines.len() - i + (if more {
                1int
            } else {
                0int
            }),
        {
            assert(ls[i as int] == lines@[i as int]@);
            let t = trim_chars(&lines[i]);
            proof {
                lemma_body_start_ge(ls, i + 1, yaml);
            }
            if t.len() == 0 {
                proof {
                    assert(body_start(ls, i as int, yaml) == body_start(ls, i + 1, yaml));
                }
                i = i + 1;
            } else if !has_yaml && starts_with(&t, &heading) {
                proof {
                    assert(body_start(ls, i as int, yaml) == body_start(ls, i + 1, yaml));
                }
                title = string_of(&trim_chars(&subvec(&t, 2, t.len())));
                i = i + 1;
            } else {
                more = false;
            }
        }
        proof {
            if more {
                assert(body_start(ls, i as int, yaml) == i);
            }
            assert(title_scan(ls, i as int, i as int, title@) == title@);
        }
        let rest = crate::text::join_range(&lines, i, lines.len());
        let rest_text = string_of(&rest);
        let blocks = parse_blocks(rest_text.as_str());
        let id = match id_hint {
            Some(h) => MarkdownFormat::filename_stem(h),
            None => fresh_id(),
        };
        Note { id, title, blocks }
    }

    /// Link targets in order: every link (an attachment when its target is a known
    /// attachment's source, else a note) and images of known attachments.
    pub fn extract_links(&self, note: &Note, attachments: &[Attachment]) -> (r: Vec<LinkTarget>)
        ensures
            links_appended(Seq::empty(), r@, blocks_links_spec(attachments@, note.blocks, note.blocks@.len() as int)),
    {
        let mut links: Vec<LinkTarget> = Vec::new();
        proof {
            lemma_links_empty(links@);
        }
        let mut k: usize = 0;
        while k < note.blocks.len()
            invariant
                k <= note.blocks.len(),
                links_appended(Seq::empty(), links@, blocks_links_spec(attachments@, note.blocks, k as int)),
            decreases note.blocks.len() - k,
        {
            let ghost mid = links@;
            block_links(&note.blocks[k], attachments, &mut links);
            proof {
                lemma_links_trans(Seq::empty(), mid, links@, blocks_links_spec(attachments@, note.blocks, k as int), block_links_spec(attachments@, note.blocks@[k as int]));
            }
            k = k + 1;
        }
        links
    }
}

/// Whether some attachment has source `p`.
pub open spec fn known(atts: Seq<Attachment>, p: Seq<char>) -> bool {
    exists|i: int| 0 <= i < atts.len() && #[trigger] atts[i].src@ == p
}

/// A link target as plain values: whether it is an attachment, and the target.
pub open spec fn target_view(t: LinkTarget) -> (bool, Seq<char>) {
    match t {
        LinkTarget::Note(s) => (false, s@),
        LinkTarget::Attachment(s) => (true, s@),
    }
}

/// The link targets of the first `n` inlines: every link, and images of known attachments,
/// looking inside emphasis.
pub open spec fn inline_links_spec(atts: Seq<Attachment>, v: Vec<Inline>, n: int) -> Seq<(bool, Seq<char>)>
    decreases v, n,
    via inline_links_decreases
{
    if n <= 0 || n > v@.len() {
        Seq::empty()
    } else {
        inline_links_spec(atts, v, n - 1) + match v@[n - 1] {
            Inline::Link { target, .. } => seq![(known(atts, target@), target@)],
            Inline::Image { src, .. } => if known(atts, src@) {
                seq![(true, src@)]
            } else {
                Seq::empty()
            },
            Inline::Bold { content } => inline_links_spec(atts, content, content@.len() as int),
            Inline::Italic { content } => inline_links_spec(atts, content, content@.len() as int),
            Inline::Strikethrough { content } => inline_links_spec(
                atts,
                content,
                content@.len() as int,
            ),
            _ => Seq::empty(),
        }
    }
}

#[via_fn]
proof fn inline_links_decreases(atts: Seq<Attachment>, v: Vec<Inline>, n: int) {
    if 0 < n <= v@.len() {
        assert(decreases_to!(v => v[n - 1]));
    }
}

pub open spec fn cells_links_spec(atts: Seq<Attachment>, cells: Vec<Vec<Inline>>, n: int) -> Seq<
    (bool, Seq<char>),
>
    decreases n,
{
    if n <= 0 || n > cells@.len() {
        Seq::empty()
    } else {
        cells_links_spec(atts, cells, n - 1) + inline_links_spec(
            atts,
            cells@[n - 1],
            cells@[n - 1]@.len() as int,
        )
    }
}

pub open spec fn rows_links_spec(atts: Seq<Attachment>, rows: Vec<Vec<Vec<Inline>>>, n: int) -> Seq<
    (bool, Seq<char>),
>
    decreases n,
{
    if n <= 0 || n > rows@.len() {
        Seq::empty()
    } else {
        rows_links_spec(atts, rows, n - 1) + cells_links_spec(
            atts,
            rows@[n - 1],
            rows@[n - 1]@.len() as int,
        )
    }
}

/// The link targets of one block, in order.
pub open spec fn block_links_spec(atts: Seq<Attachment>, b: Block) -> Seq<(bool, Seq<char>)>
    decreases b, 0int,
{
    match b {
        Block::Leaf { leaf: LeafBlock::Paragraph { content } } => inline_links_spec(
            atts,
            content,
            content@.len() as int,
        ),
        Block::Leaf { leaf: LeafBlock::Heading { content, .. } } => inline_links_spec(
            atts,
            content,
            content@.len() as int,
        ),
        Block::Leaf { leaf: LeafBlock::Image { src, .. } } => if known(atts, src@) {
            seq![(true, src@)]
        } else {
            Seq::empty()
        },
        Block::Container { container: ContainerBlock::Quote { blocks } } => blocks_links_spec(
            atts,
            blocks,
            blocks@.len() as int,
        ),
        Block::Container { container: ContainerBlock::List { items, .. } } => items_links_spec(
            atts,
            items,
            items@.len() as int,
        ),
        Block::Container { container: ContainerBlock::Table { headers, rows, .. } } =>
            cells_links_spec(atts, headers, headers@.len() as int) + rows_links_spec(
            atts,
            rows,
            rows@.len() as int,
        ),
        _ => Seq::empty(),
    }
}

pub open spec fn blocks_links_spec(atts: Seq<Attachment>, v: Vec<Block>, n: int) -> Seq<
    (bool, Seq<char>),
>
    decreases v, n,
    via blocks_links_decreases
{
    if n <= 0 || n > v@.len() {
        Seq::empty()
    } else {
        blocks_links_spec(atts, v, n - 1) + block_links_spec(atts, v@[n - 1])
    }
}

#[via_fn]
proof fn blocks_links_decreases(atts: Seq<Attachment>, v: Vec<Block>, n: int) {
    if 0 < n <= v@.len() {
        assert(decreases_to!(v => v[n - 1]));
    }
}

pub open spec fn items_links_spec(atts: Seq<Attachment>, items: Vec<Vec<Block>>, n: int) -> Seq<
    (bool, Seq<char>),
>
    decreases items, n,
    via items_links_decreases
{
    if n <= 0 || n > items@.len() {
        Seq::empty()
    } else {
        items_links_spec(atts, items, n - 1) + blocks_links_spec(
            atts,
            items@[n - 1],
            items@[n - 1]@.len() as int,
        )
    }
}

#[via_fn]
proof fn items_links_decreases(atts: Seq<Attachment>, items: Vec<Vec<Block>>, n: int) {
    if 0 < n <= items@.len() {
        assert(decreases_to!(items => items[n - 1]));
    }
}

/// `new` is `old` followed by one target for each entry of `specs`.
pub open spec fn links_appended(
    old: Seq<LinkTarget>,
    new: Seq<LinkTarget>,
    specs: Seq<(bool, Seq<char>)>,
) -> bool {
    &&& new.len() == old.len() + specs.len()
    &&& new.subrange(0, old.len() as int) == old
    &&& forall|k: int| 0 <= k < specs.len() ==> target_view(#[trigger] new[old.len() + k]) == specs[k]
}

pub proof fn lemma_links_trans(
    a: Seq<LinkTarget>,
    b: Seq<LinkTarget>,
    c: Seq<LinkTarget>,
    s1: Seq<(bool, Seq<char>)>,
    s2: Seq<(bool, Seq<char>)>,
)
    requires
        links_appended(a, b, s1),
        links_appended(b, c, s2),
    ensures
        links_appended(a, c, s1 + s2),
{
    assert(c.subrange(0, a.len() as int) =~= c.subrange(0, b.len() as int).subrange(0, a.len() as int));
    assert forall|k: int| 0 <= k < (s1 + s2).len() implies target_view(#[trigger] c[a.len() + k]) == (s1 + s2)[k] by {
        if k < s1.len() {
            assert(c[a.len() + k] == c.subrange(0, b.len() as int)[a.len() + k]);
            assert(b[a.len() + k] == c[a.len() + k]);
        } else {
            let m = k - s1.len();
            assert(c[b.len() + m] == c[a.len() + k]);
        }
    }
}

pub proof fn lemma_links_empty(a: Seq<LinkTarget>)
    ensures
        links_appended(a, a, Seq::empty()),
{
    assert(a.subrange(0, a.len() as int) =~= a);
}

pub(crate) fn push_link(links: &mut Vec<LinkTarget>, t: LinkTarget)
    ensures
        links_appended(old(links)@, final(links)@, seq![target_view(t)]),
{
    let ghost o = links@;
    links.push(t);
    assert(links@.subrange(0, o.len() as int) =~= o);
    assert(links@[o.len() as int] == t);
}

fn is_attachment(target: &str, attachments: &[Attachment]) -> (r: bool)
    ensures
        r == known(attachments@, target@),
{
    let mut i: usize = 0;
    while i < attachments.len()
        invariant
            i <= attachments@.len(),
            forall|j: int| 0 <= j < i ==> #[trigger] attachments@[j].src@ != target@,
        decreases attachments@.len() - i,
    {
        if crate::text::str_eq(attachments[i].src.as_str(), target) {
            return true;
        }
        i = i + 1;
    }
    false
}

#[verifier::rlimit(60)]
fn inline_links(inlines: &Vec<Inline>, attachments: &[Attachment], links: &mut Vec<LinkTarget>)
    ensures
        links_appended(old(links)@, final(links)@, inline_links_spec(attachments@, *inlines, inlines@.len() as int)),
    decreases inlines,
{
    let ghost o = links@;
    let ghost atts = attachments@;
    proof {
        lemma_links_empty(o);
    }
    let mut k: usize = 0;
    while k < inlines.len()
        invariant
            k <= inlines.len(),
            atts == attachments@,
            links_appended(o, links@, inline_links_spec(atts, *inlines, k as int)),
        decreases inlines.len() - k,
    {
        proof {
            assert(decreases_to!(*inlines => inlines[k as int]));
        }
        let ghost mid = links@;
        let ghost prev = inline_links_spec(atts, *inlines, k as int);
        match &inlines[k] {
            Inline::Link { target, .. } => {
                if is_attachment(target.as_str(), attachments) {
                    push_link(links, LinkTarget::Attachment(target.clone()));
                } else {
                    push_link(links, LinkTarget::Note(target.clone()));
                }
                proof {
                    lemma_links_trans(o, mid, links@, prev, seq![(known(atts, target@), target@)]);
                }
            },
            Inline::Image { src, .. } => {
                if is_attachment(src.as_str(), attachments) {
                    push_link(links, LinkTarget::Attachment(src.clone()));
                    proof {
                        lemma_links_trans(o, mid, links@, prev, seq![(true, src@)]);
                    }
                } else {
                    assert(prev + Seq::<(bool, Seq<char>)>::empty() =~= prev);
                }
            },
            Inline::Bold { content } => {
                inline_links(content, attachments, links);
                proof {
                    lemma_links_trans(o, mid, links@, prev, inline_links_spec(atts, *content, content@.len() as int));
                }
            },
            Inline::Italic { content } => {
                inline_links(content, attachments, links);
                proof {
                    lemma_links_trans(o, mid, links@, prev, inline_links_spec(atts, *content, content@.len() as int));
                }
            },
            Inline::Strikethrough { content } => {
                inline_links(content, attachments, links);
                proof {
                    lemma_links_trans(o, mid, links@, prev, inline_links_spec(atts, *content, content@.len() as int));
                }
            },
            _ => {
                assert(prev + Seq::<(bool, Seq<char>)>::empty() =~= prev);
            },
        }
        k = k + 1;
    }
}

fn cell_links(cells: &Vec<Vec<Inline>>, attachments: &[Attachment], links: &mut Vec<LinkTarget>)
    ensures
        links_appended(old(links)@, final(links)@, cells_links_spec(attachments@, *cells, cells@.len() as int)),
{
    let ghost o = links@;
    proof {
        lemma_links_empty(o);
    }
    let mut m: usize = 0;
    while m < cells.len()
        invariant
            m <= cells.len(),
            links_appended(o, links@, cells_links_spec(attachments@, *cells, m as int)),
        decreases cells.len() - m,
    {
        let ghost mid = links@;
        inline_links(&cells[m], attachments, links);
        proof {
            lemma_links_trans(o, mid, links@, cells_links_spec(attachments@, *cells, m as int), inline_links_spec(attachments@, cells@[m as int], cells@[m as int]@.len() as int));
        }
        m = m + 1;
    }
}

#[verifier::rlimit(60)]
fn block_links(b: &Block, attachments: &[Attachment], links: &mut Vec<LinkTarget>)
    ensures
        links_appended(old(links)@, final(links)@, block_links_spec(attachments@, *b)),
    decreases b,
{
    let ghost o = links@;
    let ghost atts = attachments@;
    proof {
        lemma_links_empty(o);
    }
    match b {
        Block::Leaf { leaf: LeafBlock::Paragraph { content } } => inline_links(content, attachments, links),
        Block::Leaf { leaf: LeafBlock::Heading { content, .. } } => inline_links(content, attachments, links),
        Block::Leaf { leaf: LeafBlock::Image { src, .. } } => {
            if is_attachment(src.as_str(), attachments) {
                push_link(links, LinkTarget::Attachment(src.clone()));
            }
        },
        Block::Container { container: ContainerBlock::Quote { blocks } } => {
            let mut k: usize = 0;
            while k < blocks.len()
                invariant
                    k <= blocks.len(),
                    atts == attachments@,
                    decreases_to!(*b => *blocks),
                    links_appended(o, links@, blocks_links_spec(atts, *blocks, k as int)),
                decreases blocks.len() - k,
            {
                proof {
                    assert(decreases_to!(*blocks => blocks[k as int]));
                }
                let ghost mid = links@;
                block_links(&blocks[k], attachments, links);
                proof {
                    lemma_links_trans(o, mid, links@, blocks_links_spec(atts, *blocks, k as int), block_links_spec(atts, blocks@[k as int]));
                }
                k = k + 1;
            }
        },
        Block::Container { container: ContainerBlock::List { items, .. } } => {
            let mut k: usize = 0;
            while k < items.len()
                invariant
                    k <= items.len(),
                    atts == attachments@,
                    decreases_to!(*b => *items),
                    links_appended(o, links@, items_links_spec(atts, *items, k as int)),
                decreases items.len() - k,
            {
                let item = &items[k];
                let ghost before_item = links@;
                proof {
                    lemma_links_empty(before_item);
                }
                let mut m: usize = 0;
                while m < item.len()
                    invariant
                        m <= item.len(),
                        k < items.len(),
                        *item == items[k as int],
                        atts == attachments@,
                        decreases_to!(*b => *items),
                        links_appended(before_item, links@, blocks_links_spec(atts, *item, m as int)),
                    decreases item.len() - m,
                {
                    proof {
                        assert(decreases_to!(*items => items[k as int]));
                        assert(decreases_to!(items[k as int] => items[k as int][m as int]));
                    }
                    let ghost mid = links@;
                    block_links(&item[m], attachments, links);
                    proof {
                        lemma_links_trans(before_item, mid, links@, blocks_links_spec(atts, *item, m as int), block_links_spec(atts, item@[m as int]));
                    }
                    m = m + 1;
                }
                proof {
                    assert(items[k as int] == items@[k as int]);
                    lemma_links_trans(o, before_item, links@, items_links_spec(atts, *items, k as int), blocks_links_spec(atts, *item, item@.len() as int));
                }
                k = k + 1;
            }
        },
        Block::Container { container: ContainerBlock::Table { headers, rows, .. } } => {
            cell_links(headers, attachments, links);
            let ghost after_head = links@;
            proof {
                lemma_links_empty(after_head);
            }
            let mut r: usize = 0;
            while r < rows.len()
                invariant
                    r <= rows.len(),
                    atts == attachments@,
                    links_appended(after_head, links@, rows_links_spec(atts, *rows, r as int)),
                decreases rows.len() - r,
            {
                let ghost mid = links@;
                cell_links(&rows[r], attachments, links);
                proof {
                    lemma_links_trans(after_head, mid, links@, rows_links_spec(atts, *rows, r as int), cells_links_spec(atts, rows@[r as int], rows@[r as int]@.len() as int));
                }
                r = r + 1;
            }
            proof {
                lemma_links_trans(o, after_head, links@, cells_links_spec(atts, *headers, headers@.len() as int), rows_links_spec(atts, *rows, rows@.len() as int));
            }
        },
        _ => {},
    }
}

/// The Markdown text of a note: a title line, then each block in canonical form.
pub open spec fn md_note_text(note: Note) -> Seq<char> {
    seq!['#', ' '] + note.title@ + seq!['\n'] + blocks_md(note.blocks, note.blocks@.len() as int)
}

impl MarkdownFormat {
    /// The note as the UTF-8 bytes of its Markdown text.
    pub fn serialize(&self, note: &Note) -> (r: Vec<u8>)
        ensures
            utf8_of(r@) == Some(md_note_text(*note)),
    {
        let s = serialize_note(note);
        utf8_bytes(&s)
    }
}

/// What reading Markdown bytes gives: the note that `MarkdownFormat::deserialize` describes.
pub open spec fn md_reads(data: Seq<u8>, hint: Option<Seq<char>>, r: Note) -> bool {
    &&& hint matches Some(h) ==> r.id@ == stem_of(h)
    &&& {
        let tx = input_text(data);
        let yt = yaml_title(tx);
        let ls = lines_of(trim(without_frontmatter(tx)));
        let k = body_start(ls, 0, yt is Some);
        let init = match yt {
            Some(t) => t,
            None => match hint {
                Some(h) => stem_of(h),
                None => stem_of(""@),
            },
        };
        let rest = join_lines(ls.subrange(k, ls.len() as int));
        &&& r.title@ == title_scan(ls, 0, k, init)
        &&& blocks_rel(lines_of(rest), r.blocks@, rest.len() as int)
    }
}

impl NoteSerialization for MarkdownFormat {
    open spec fn reads(&self, data: Seq<u8>, hint: Option<Seq<char>>, n: Note) -> bool {
        md_reads(data, hint, n)
    }

    fn deserialize(&self, data: &[u8], id_hint: Option<&str>) -> (r: Note) {
        MarkdownFormat::deserialize(self, data, id_hint)
    }

    fn serialize(&self, note: &Note) -> Vec<u8> {
        MarkdownFormat::serialize(self, note)
    }
}

impl NoteMetadata for MarkdownFormat {
    fn extract_links(&self, note: &Note, attachments: &[Attachment]) -> Vec<LinkTarget> {
        MarkdownFormat::extract_links(self, note, attachments)
    }
}

} // verus!
