//! Syntax kinds, block metadata and the durable hybrid block.
use crate::models::Block;
use crate::text::str_eq;
use vstd::prelude::*;

verus! {

/// The dialect a block is written in.
#[derive(Debug, Clone, Copy, PartialEq, Eq, Hash, Structural)]
pub enum SyntaxKind {
    Markdown,
    Org,
    LaTeX,
    Code,
    Custom,
}

impl SyntaxKind {
    pub open spec fn name_spec(&self) -> Seq<char> {
        match self {
            SyntaxKind::Markdown => "Markdown"@,
            SyntaxKind::Org => "Org-mode"@,
            SyntaxKind::LaTeX => "LaTeX"@,
            SyntaxKind::Code => "Code"@,
            SyntaxKind::Custom => "Custom"@,
        }
    }

    /// A human-readable name for this syntax.
    pub fn name(&self) -> (r: &'static str)
        ensures
            r@ == self.name_spec(),
    {
        match self {
            SyntaxKind::Markdown => "Markdown",
            SyntaxKind::Org => "Org-mode",
            SyntaxKind::LaTeX => "LaTeX",
            SyntaxKind::Code => "Code",
            SyntaxKind::Custom => "Custom",
        }
    }
}

/// What a parser derives from a block besides its tree.
#[derive(Debug, Clone, PartialEq, Eq)]
pub struct BlockMetadata {
    pub heading_level: Option<u8>,
    pub id: Option<String>,
    pub todo_state: Option<String>,
    pub properties: Vec<(String, String)>,
}

impl BlockMetadata {
    /// Metadata that records nothing.
    pub open spec fn is_empty_spec(&self) -> bool {
        &&& self.heading_level is None
        &&& self.id is None
        &&& self.todo_state is None
        &&& self.properties@.len() == 0
    }
}

impl Default for BlockMetadata {
    fn default() -> (r: BlockMetadata)
        ensures
            r.is_empty_spec(),
    {
        BlockMetadata { heading_level: None, id: None, todo_state: None, properties: Vec::new() }
    }
}

/// Index of the first property whose key is `key`, if any, from `i` on.
pub open spec fn first_key_from(props: Seq<(String, String)>, key: Seq<char>, i: int) -> Option<int>
    decreases props.len() - i,
{
    if i < 0 || i >= props.len() {
        None
    } else if props[i].0@ == key {
        Some(i)
    } else {
        first_key_from(props, key, i + 1)
    }
}

/// A block with its syntax, raw text, parsed tree, metadata and line range.
#[derive(Debug, PartialEq, Eq)]
pub struct HybridBlock {
    pub syntax: SyntaxKind,
    pub raw_text: String,
    pub ast: Block,
    pub metadata: BlockMetadata,
    pub line_range: (usize, usize),
}

impl HybridBlock {
    pub fn new(syntax: SyntaxKind, raw_text: String, ast: Block, line_range: (usize, usize)) -> (r:
        HybridBlock)
        ensures
            r.syntax == syntax,
            r.raw_text == raw_text,
            r.ast == ast,
            r.line_range == line_range,
            r.metadata.is_empty_spec(),
    {
        HybridBlock { syntax, raw_text, ast, metadata: BlockMetadata::default(), line_range }
    }

    pub fn with_metadata(self, metadata: BlockMetadata) -> (r: HybridBlock)
        ensures
            r == (HybridBlock { metadata, ..self }),
    {
        let mut s = self;
        s.metadata = metadata;
        s
    }

    pub fn is_heading(&self) -> (r: bool)
        ensures
            r == self.metadata.heading_level is Some,
    {
        self.metadata.heading_level.is_some()
    }

    pub fn heading_level(&self) -> (r: Option<u8>)
        ensures
            r == self.metadata.heading_level,
    {
        self.metadata.heading_level
    }

    pub fn is_todo(&self) -> (r: bool)
        ensures
            r == (self.metadata.todo_state matches Some(s) && s@ == "TODO"@),
    {
        match &self.metadata.todo_state {
            Some(s) => str_eq(s.as_str(), "TODO"),
            None => false,
        }
    }

    pub fn is_done(&self) -> (r: bool)
        ensures
            r == (self.metadata.todo_state matches Some(s) && s@ == "DONE"@),
    {
        match &self.metadata.todo_state {
            Some(s) => str_eq(s.as_str(), "DONE"),
            None => false,
        }
    }

    pub fn todo_state(&self) -> (r: Option<&str>)
        ensures
            r is Some == self.metadata.todo_state is Some,
            r matches Some(t) ==> t@ == self.metadata.todo_state->0@,
    {
        match &self.metadata.todo_state {
            Some(s) => Some(s.as_str()),
            None => None,
        }
    }

    pub fn id(&self) -> (r: Option<&str>)
        ensures
            r is Some == self.metadata.id is Some,
            r matches Some(t) ==> t@ == self.metadata.id->0@,
    {
        match &self.metadata.id {
            Some(s) => Some(s.as_str()),
            None => None,
        }
    }

    pub fn with_id(self, id: String) -> (r: HybridBlock)
        ensures
            r == (HybridBlock {
                metadata: BlockMetadata { id: Some(id), ..self.metadata },
                ..self
            }),
    {
        let mut s = self;
        s.metadata.id = Some(id);
        s
    }

    /// Number of lines the block spans.
    pub fn line_count(&self) -> (r: usize)
        requires
            self.line_range.0 <= self.line_range.1 < usize::MAX,
        ensures
            r == self.line_range.1 - self.line_range.0 + 1,
    {
        self.line_range.1 - self.line_range.0 + 1
    }

    pub fn is_syntax(&self, syntax: SyntaxKind) -> (r: bool)
        ensures
            r == (self.syntax == syntax),
    {
        self.syntax == syntax
    }

    pub fn properties(&self) -> (r: &[(String, String)])
        ensures
            r@ == self.metadata.properties@,
    {
        self.metadata.properties.as_slice()
    }

    pub fn add_property(&mut self, key: String, value: String)
        ensures
            final(self).metadata.properties@ == old(self).metadata.properties@.push((key, value)),
            final(self).metadata.heading_level == old(self).metadata.heading_level,
            final(self).metadata.id == old(self).metadata.id,
            final(self).metadata.todo_state == old(self).metadata.todo_state,
            final(self).syntax == old(self).syntax,
            final(self).raw_text == old(self).raw_text,
            final(self).ast == old(self).ast,
            final(self).line_range == old(self).line_range,
    {
        self.metadata.properties.push((key, value));
    }

    /// The value of the first property named `key`.
    pub fn get_property(&self, key: &str) -> (r: Option<&str>)
        ensures
            first_key_from(self.metadata.properties@, key@, 0) is None ==> r is None,
            first_key_from(self.metadata.properties@, key@, 0) is Some ==> r is Some && r->0@
                == self.metadata.properties@[first_key_from(
                self.metadata.properties@,
                key@,
                0,
            )->0].1@,
    {
        let mut i: usize = 0;
        while i < self.metadata.properties.len()
            invariant
                i <= self.metadata.properties.len(),
                first_key_from(self.metadata.properties@, key@, i as int) == first_key_from(self.metadata.properties@, key@, 0),
            decreases self.metadata.properties.len() - i,
        {
            if str_eq(self.metadata.properties[i].0.as_str(), key) {
                assert(first_key_from(self.metadata.properties@, key@, i as int) == Some(i as int));
                let v = self.metadata.properties[i].1.as_str();
                assert(v@ == self.metadata.properties@[i as int].1@);
                return Some(v);
            }
            i = i + 1;
        }
        assert(first_key_from(self.metadata.properties@, key@, i as int) is None);
        None
    }

    pub fn has_properties(&self) -> (r: bool)
        ensures
            r == (self.metadata.properties@.len() > 0),
    {
        self.metadata.properties.len() > 0
    }
}

} // verus!
