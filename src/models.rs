//! The block and inline trees that every parser produces.
use vstd::prelude::*;

verus! {

/// A note: an id, a title and its blocks.
#[derive(Debug, PartialEq, Eq)]
pub struct Note {
    pub id: String,
    pub title: String,
    pub blocks: Vec<Block>,
}

/// Blocks that own nested blocks.
#[derive(Debug, PartialEq, Eq)]
pub enum ContainerBlock {
    Quote { blocks: Vec<Block> },
    List { style: ListStyle, items: Vec<Vec<Block>> },
    Table {
        headers: Vec<Vec<Inline>>,
        rows: Vec<Vec<Vec<Inline>>>,
        alignments: Option<Vec<Alignment>>,
        caption: Option<Vec<Inline>>,
    },
    Div { classes: Vec<String>, attributes: Vec<(String, String)>, children: Vec<Block> },
}

/// Blocks without nested blocks.
#[derive(Debug, PartialEq, Eq)]
pub enum LeafBlock {
    Paragraph { content: Vec<Inline> },
    Heading { level: u8, content: Vec<Inline> },
    Image { alt_text: Option<String>, src: String },
    CodeBlock { language: Option<String>, content: String },
    MathBlock { content: String },
    HorizontalRule,
    Attachment { attachment: Attachment },
}

#[derive(Debug, PartialEq, Eq)]
pub enum Block {
    Container { container: ContainerBlock },
    Leaf { leaf: LeafBlock },
    DefinitionList { items: Vec<(Vec<Inline>, Vec<Block>)> },
    FootnoteDefinition { label: String, content: Vec<Block> },
}

impl Block {
    pub fn paragraph(content: Vec<Inline>) -> (r: Block)
        ensures
            r == (Block::Leaf { leaf: LeafBlock::Paragraph { content } }),
    {
        Block::Leaf { leaf: LeafBlock::Paragraph { content } }
    }

    pub fn heading(level: u8, content: Vec<Inline>) -> (r: Block)
        ensures
            r == (Block::Leaf { leaf: LeafBlock::Heading { level, content } }),
    {
        Block::Leaf { leaf: LeafBlock::Heading { level, content } }
    }

    pub fn image(alt_text: Option<String>, src: String) -> (r: Block)
        ensures
            r == (Block::Leaf { leaf: LeafBlock::Image { alt_text, src } }),
    {
        Block::Leaf { leaf: LeafBlock::Image { alt_text, src } }
    }

    pub fn code_block(language: Option<String>, content: String) -> (r: Block)
        ensures
            r == (Block::Leaf { leaf: LeafBlock::CodeBlock { language, content } }),
    {
        Block::Leaf { leaf: LeafBlock::CodeBlock { language, content } }
    }

    pub fn math_block(content: String) -> (r: Block)
        ensures
            r == (Block::Leaf { leaf: LeafBlock::MathBlock { content } }),
    {
        Block::Leaf { leaf: LeafBlock::MathBlock { content } }
    }

    pub fn horizontal_rule() -> (r: Block)
        ensures
            r == (Block::Leaf { leaf: LeafBlock::HorizontalRule }),
    {
        Block::Leaf { leaf: LeafBlock::HorizontalRule }
    }

    pub fn attachment(attachment: Attachment) -> (r: Block)
        ensures
            r == (Block::Leaf { leaf: LeafBlock::Attachment { attachment } }),
    {
        Block::Leaf { leaf: LeafBlock::Attachment { attachment } }
    }

    pub fn quote(blocks: Vec<Block>) -> (r: Block)
        ensures
            r == (Block::Container { container: ContainerBlock::Quote { blocks } }),
    {
        Block::Container { container: ContainerBlock::Quote { blocks } }
    }

    pub fn list(style: ListStyle, items: Vec<Vec<Block>>) -> (r: Block)
        ensures
            r == (Block::Container { container: ContainerBlock::List { style, items } }),
    {
        Block::Container { container: ContainerBlock::List { style, items } }
    }

    pub fn table(
        headers: Vec<Vec<Inline>>,
        rows: Vec<Vec<Vec<Inline>>>,
        alignments: Option<Vec<Alignment>>,
        caption: Option<Vec<Inline>>,
    ) -> (r: Block)
        ensures
            r == (Block::Container {
                container: ContainerBlock::Table { headers, rows, alignments, caption },
            }),
    {
        Block::Container { container: ContainerBlock::Table { headers, rows, alignments, caption } }
    }

    pub fn div(classes: Vec<String>, attributes: Vec<(String, String)>, children: Vec<Block>) -> (r:
        Block)
        ensures
            r == (Block::Container {
                container: ContainerBlock::Div { classes, attributes, children },
            }),
    {
        Block::Container { container: ContainerBlock::Div { classes, attributes, children } }
    }

    pub fn definition_list(items: Vec<(Vec<Inline>, Vec<Block>)>) -> (r: Block)
        ensures
            r == (Block::DefinitionList { items }),
    {
        Block::DefinitionList { items }
    }

    pub fn footnote_definition(label: String, content: Vec<Block>) -> (r: Block)
        ensures
            r == (Block::FootnoteDefinition { label, content }),
    {
        Block::FootnoteDefinition { label, content }
    }

    pub fn is_paragraph(&self) -> (r: bool)
        ensures
            r == (*self is Leaf && self->leaf is Paragraph),
    {
        matches!(self, Block::Leaf { leaf: LeafBlock::Paragraph { .. } })
    }

    pub fn is_heading(&self) -> (r: bool)
        ensures
            r == (*self is Leaf && self->leaf is Heading),
    {
        matches!(self, Block::Leaf { leaf: LeafBlock::Heading { .. } })
    }

    pub fn is_code_block(&self) -> (r: bool)
        ensures
            r == (*self is Leaf && self->leaf is CodeBlock),
    {
        matches!(self, Block::Leaf { leaf: LeafBlock::CodeBlock { .. } })
    }

    pub fn is_math_block(&self) -> (r: bool)
        ensures
            r == (*self is Leaf && self->leaf is MathBlock),
    {
        matches!(self, Block::Leaf { leaf: LeafBlock::MathBlock { .. } })
    }

    pub fn is_horizontal_rule(&self) -> (r: bool)
        ensures
            r == (*self is Leaf && self->leaf is HorizontalRule),
    {
        matches!(self, Block::Leaf { leaf: LeafBlock::HorizontalRule })
    }

    pub fn is_quote(&self) -> (r: bool)
        ensures
            r == (*self is Container && self->container is Quote),
    {
        matches!(self, Block::Container { container: ContainerBlock::Quote { .. } })
    }

    pub fn is_list(&self) -> (r: bool)
        ensures
            r == (*self is Container && self->container is List),
    {
        matches!(self, Block::Container { container: ContainerBlock::List { .. } })
    }

    pub fn is_table(&self) -> (r: bool)
        ensures
            r == (*self is Container && self->container is Table),
    {
        matches!(self, Block::Container { container: ContainerBlock::Table { .. } })
    }
}

#[derive(Debug, Clone, Copy, PartialEq, Eq)]
pub enum ListStyle {
    Unordered { bullet: char },
    Ordered { numbering: Numbering },
}

impl ListStyle {
    pub fn is_ordered(&self) -> (r: bool)
        ensures
            r == (*self is Ordered),
    {
        match self {
            ListStyle::Ordered { .. } => true,
            ListStyle::Unordered { .. } => false,
        }
    }
}

#[derive(Debug, Clone, Copy, PartialEq, Eq)]
pub enum NumberingType {
    Decimal,
    LowerAlpha,
    UpperAlpha,
    LowerRoman,
    UpperRoman,
}

#[derive(Debug, Clone, Copy, PartialEq, Eq)]
pub enum NumberingStyle {
    Dot,
    Paren,
    ZeroPadded,
}

#[derive(Debug, Clone, Copy, PartialEq, Eq)]
pub struct Numbering {
    pub kind: NumberingType,
    pub style: NumberingStyle,
}

/// Span-level content; `content` and `text` fields nest further inlines.
#[derive(Debug, PartialEq, Eq)]
pub enum Inline {
    Text { text: String },
    Bold { content: Vec<Inline> },
    Italic { content: Vec<Inline> },
    Strikethrough { content: Vec<Inline> },
    Link { text: Vec<Inline>, target: String },
    Image { alt_text: Option<String>, src: String },
    Code { code: String },
    Math { content: String },
    LineBreak,
    Superscript { content: Vec<Inline> },
    Subscript { content: Vec<Inline> },
    FootnoteReference { label: String },
}

#[derive(Debug, Clone, PartialEq, Eq, Hash)]
pub enum AttachmentType {
    Image,
    Audio,
    Video,
    Document,
    Other { mime: String },
}

impl AttachmentType {
    /// The MIME type that stands for this kind.
    pub fn mime(&self) -> (r: String)
        ensures
            r@ == match self {
                AttachmentType::Image => "image/png"@,
                AttachmentType::Audio => "audio/mpeg"@,
                AttachmentType::Video => "video/mp4"@,
                AttachmentType::Document => "application/pdf"@,
                AttachmentType::Other { mime } => mime@,
            },
    {
        match self {
            AttachmentType::Image => "image/png".to_owned(),
            AttachmentType::Audio => "audio/mpeg".to_owned(),
            AttachmentType::Video => "video/mp4".to_owned(),
            AttachmentType::Document => "application/pdf".to_owned(),
            AttachmentType::Other { mime } => mime.clone(),
        }
    }
}

#[derive(Debug, Clone, PartialEq, Eq, Hash)]
pub struct Attachment {
    pub name: String,
    pub src: String,
    pub kind: AttachmentType,
}

#[derive(Debug, Clone, Copy, PartialEq, Eq)]
pub enum Alignment {
    Left,
    Center,
    Right,
}

#[derive(Debug, Clone, PartialEq, Eq)]
pub enum DecimalStyle {
    Dot,
    Paren,
    ZeroPadded,
}

#[derive(Debug, Clone, PartialEq, Eq, Hash)]
pub enum LinkTarget {
    Note(String),
    Attachment(String),
}

fn clone_string_opt(o: &Option<String>) -> (r: Option<String>)
    ensures
        r == *o,
{
    match o {
        Some(s) => Some(s.clone()),
        None => None,
    }
}

fn clone_strings(v: &Vec<String>) -> (r: Vec<String>)
    ensures
        r@.len() == v@.len(),
{
    let mut r: Vec<String> = Vec::new();
    let mut k: usize = 0;
    while k < v.len()
        invariant
            k <= v.len(),
            r@.len() == k,
        decreases v.len() - k,
    {
        r.push(v[k].clone());
        k = k + 1;
    }
    r
}

fn clone_pairs(v: &Vec<(String, String)>) -> (r: Vec<(String, String)>)
    ensures
        r@.len() == v@.len(),
{
    let mut r: Vec<(String, String)> = Vec::new();
    let mut k: usize = 0;
    while k < v.len()
        invariant
            k <= v.len(),
            r@.len() == k,
        decreases v.len() - k,
    {
        r.push((v[k].0.clone(), v[k].1.clone()));
        k = k + 1;
    }
    r
}

fn clone_alignments(v: &Vec<Alignment>) -> (r: Vec<Alignment>)
    ensures
        r@.len() == v@.len(),
{
    let mut r: Vec<Alignment> = Vec::new();
    let mut k: usize = 0;
    while k < v.len()
        invariant
            k <= v.len(),
            r@.len() == k,
        decreases v.len() - k,
    {
        r.push(v[k]);
        k = k + 1;
    }
    r
}

impl Inline {
    /// An equal, independent copy.
    pub fn deep_clone(&self) -> (r: Inline)
        decreases self, 1int,
    {
        match self {
            Inline::Text { text } => Inline::Text { text: text.clone() },
            Inline::Bold { content } => Inline::Bold { content: clone_inlines(content) },
            Inline::Italic { content } => Inline::Italic { content: clone_inlines(content) },
            Inline::Strikethrough { content } => Inline::Strikethrough { content: clone_inlines(content) },
            Inline::Link { text, target } => Inline::Link { text: clone_inlines(text), target: target.clone() },
            Inline::Image { alt_text, src } => Inline::Image { alt_text: clone_string_opt(alt_text), src: src.clone() },
            Inline::Code { code } => Inline::Code { code: code.clone() },
            Inline::Math { content } => Inline::Math { content: content.clone() },
            Inline::LineBreak => Inline::LineBreak,
            Inline::Superscript { content } => Inline::Superscript { content: clone_inlines(content) },
            Inline::Subscript { content } => Inline::Subscript { content: clone_inlines(content) },
            Inline::FootnoteReference { label } => Inline::FootnoteReference { label: label.clone() },
        }
    }
}

/// An equal, independent copy of a run of inlines.
pub fn clone_inlines(v: &Vec<Inline>) -> (r: Vec<Inline>)
    ensures
        r@.len() == v@.len(),
    decreases v, 0int,
{
    let mut r: Vec<Inline> = Vec::new();
    let mut k: usize = 0;
    while k < v.len()
        invariant
            k <= v.len(),
            r@.len() == k,
        decreases v.len() - k,
    {
        proof {
            assert(decreases_to!(*v => v[k as int]));
        }
        r.push(v[k].deep_clone());
        k = k + 1;
    }
    r
}

fn clone_cells(v: &Vec<Vec<Inline>>) -> (r: Vec<Vec<Inline>>)
    ensures
        r@.len() == v@.len(),
{
    let mut r: Vec<Vec<Inline>> = Vec::new();
    let mut k: usize = 0;
    while k < v.len()
        invariant
            k <= v.len(),
            r@.len() == k,
        decreases v.len() - k,
    {
        r.push(clone_inlines(&v[k]));
        k = k + 1;
    }
    r
}

fn clone_rows(v: &Vec<Vec<Vec<Inline>>>) -> (r: Vec<Vec<Vec<Inline>>>)
    ensures
        r@.len() == v@.len(),
{
    let mut r: Vec<Vec<Vec<Inline>>> = Vec::new();
    let mut k: usize = 0;
    while k < v.len()
        invariant
            k <= v.len(),
            r@.len() == k,
        decreases v.len() - k,
    {
        r.push(clone_cells(&v[k]));
        k = k + 1;
    }
    r
}

impl AttachmentType {
    /// An equal, independent copy.
    pub fn deep_clone(&self) -> (r: AttachmentType)
        ensures
            r == *self,
    {
        match self {
            AttachmentType::Image => AttachmentType::Image,
            AttachmentType::Audio => AttachmentType::Audio,
            AttachmentType::Video => AttachmentType::Video,
            AttachmentType::Document => AttachmentType::Document,
            AttachmentType::Other { mime } => AttachmentType::Other { mime: mime.clone() },
        }
    }
}

impl Attachment {
    /// An equal, independent copy.
    pub fn deep_clone(&self) -> (r: Attachment)
        ensures
            r == *self,
    {
        Attachment { name: self.name.clone(), src: self.src.clone(), kind: self.kind.deep_clone() }
    }
}

impl Block {
    /// An equal, independent copy.
    pub fn deep_clone(&self) -> (r: Block)
        decreases self, 2int,
    {
        match self {
            Block::Leaf { leaf } => Block::Leaf { leaf: match leaf {
                LeafBlock::Paragraph { content } => LeafBlock::Paragraph { content: clone_inlines(content) },
                LeafBlock::Heading { level, content } => LeafBlock::Heading { level: *level, content: clone_inlines(content) },
                LeafBlock::Image { alt_text, src } => LeafBlock::Image { alt_text: clone_string_opt(alt_text), src: src.clone() },
                LeafBlock::CodeBlock { language, content } => LeafBlock::CodeBlock { language: clone_string_opt(language), content: content.clone() },
                LeafBlock::MathBlock { content } => LeafBlock::MathBlock { content: content.clone() },
                LeafBlock::HorizontalRule => LeafBlock::HorizontalRule,
                LeafBlock::Attachment { attachment } => LeafBlock::Attachment { attachment: attachment.deep_clone() },
            } },
            Block::Container { container: ContainerBlock::Quote { blocks } } => Block::Container {
                container: ContainerBlock::Quote { blocks: clone_blocks(blocks) },
            },
            Block::Container { container: ContainerBlock::List { style, items } } => {
                let mut r: Vec<Vec<Block>> = Vec::new();
                let mut k: usize = 0;
                while k < items.len()
                    invariant
                        k <= items.len(),
                        r@.len() == k,
                        decreases_to!(*self => *items),
                    decreases items.len() - k,
                {
                    proof {
                        assert(decreases_to!(*items => items[k as int]));
                    }
                    r.push(clone_blocks(&items[k]));
                    k = k + 1;
                }
                Block::Container { container: ContainerBlock::List { style: *style, items: r } }
            },
            Block::Container { container: ContainerBlock::Table { headers, rows, alignments, caption } } => {
                let al = match alignments {
                    Some(a) => Some(clone_alignments(a)),
                    None => None,
                };
                let cap = match caption {
                    Some(c) => Some(clone_inlines(c)),
                    None => None,
                };
                Block::Container {
                    container: ContainerBlock::Table {
                        headers: clone_cells(headers),
                        rows: clone_rows(rows),
                        alignments: al,
                        caption: cap,
                    },
                }
            },
            Block::Container { container: ContainerBlock::Div { classes, attributes, children } } => Block::Container {
                container: ContainerBlock::Div {
                    classes: clone_strings(classes),
                    attributes: clone_pairs(attributes),
                    children: clone_blocks(children),
                },
            },
            Block::DefinitionList { items } => {
                let mut r: Vec<(Vec<Inline>, Vec<Block>)> = Vec::new();
                let mut k: usize = 0;
                while k < items.len()
                    invariant
                        k <= items.len(),
                        r@.len() == k,
                        decreases_to!(*self => *items),
                    decreases items.len() - k,
                {
                    proof {
                        assert(decreases_to!(*items => items[k as int]));
                    }
                    r.push((clone_inlines(&items[k].0), clone_blocks(&items[k].1)));
                    k = k + 1;
                }
                Block::DefinitionList { items: r }
            },
            Block::FootnoteDefinition { label, content } => Block::FootnoteDefinition {
                label: label.clone(),
                content: clone_blocks(content),
            },
        }
    }
}

/// An equal, independent copy of a run of blocks.
pub fn clone_blocks(v: &Vec<Block>) -> (r: Vec<Block>)
    ensures
        r@.len() == v@.len(),
    decreases v, 1int,
{
    let mut r: Vec<Block> = Vec::new();
    let mut k: usize = 0;
    while k < v.len()
        invariant
            k <= v.len(),
            r@.len() == k,
        decreases v.len() - k,
    {
        proof {
            assert(decreases_to!(*v => v[k as int]));
        }
        r.push(v[k].deep_clone());
        k = k + 1;
    }
    r
}

impl Note {
    /// An equal, independent copy.
    pub fn deep_clone(&self) -> (r: Note)
        ensures
            r.id@ == self.id@,
            r.title@ == self.title@,
            r.blocks@.len() == self.blocks@.len(),
    {
        Note { id: self.id.clone(), title: self.title.clone(), blocks: clone_blocks(&self.blocks) }
    }
}

} // verus!
