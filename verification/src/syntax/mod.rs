//! The parts of a parsed Rust file that the rules read, held as plain values.
use vstd::prelude::*;

use crate::source::Position;

pub use parse::{SyntaxError, parse_source, parses_as_rust_file, rust_items};
pub use syn_api::rust_file;

mod parse;
mod syn_api;

verus! {

/// A region of source text, from `start` up to `end`.
#[derive(Clone, Copy, Debug, PartialEq, Eq)]
pub struct TextSpan {
    pub start: Position,
    pub end: Position,
}

/// One segment of a path, such as `crate` in `crate::a`.
pub struct PathSegment {
    pub ident: String,
    /// The segment carries generic arguments, as `Vec<T>` does.
    pub has_arguments: bool,
}

/// A path such as `thiserror::Error`.
pub struct PathSyntax {
    pub leading_colon: bool,
    pub segments: Vec<PathSegment>,
}

/// The visibility written before an item.
pub enum VisibilitySyntax {
    Inherited,
    Public,
    /// `pub(crate)`, `pub(super)` or `pub(in path)`.
    Restricted { has_in: bool, path: PathSyntax },
}

/// An outer attribute: its path and, where its arguments parse as a comma-separated
/// list of paths (as in `derive(Debug, Error)` or `cfg(test)`), that list.
pub struct AttributeSyntax {
    pub path: PathSyntax,
    pub path_list: Option<Vec<PathSyntax>>,
}

/// The tree of a `use` item.
pub enum UseTreeSyntax {
    Path { ident: String, tree: Box<UseTreeSyntax> },
    Name { ident: String },
    Rename { ident: String, rename: String },
    Glob,
    Group { items: Vec<UseTreeSyntax> },
}

pub struct UseItem {
    pub vis: VisibilitySyntax,
    /// The `use` keyword.
    pub keyword: TextSpan,
    /// The end of the closing semicolon.
    pub semi_end: Position,
    pub tree: UseTreeSyntax,
}

pub struct ModItem {
    pub attrs: Vec<AttributeSyntax>,
    pub vis: VisibilitySyntax,
    /// The `mod` keyword.
    pub keyword: TextSpan,
    pub ident: String,
    /// The end of the semicolon of a `mod name;` declaration.
    pub semi_end: Option<Position>,
    /// The items of an inline module.
    pub content: Option<Vec<SyntaxItem>>,
}

pub struct VariantSyntax {
    /// The variant's name as written, raw prefix included.
    pub ident: String,
    pub ident_start: Position,
    /// The variant with its attributes and body, without the comma after it.
    pub span: TextSpan,
    /// The end of the comma that follows the variant, if any.
    pub comma_end: Option<Position>,
}

pub struct EnumItem {
    pub attrs: Vec<AttributeSyntax>,
    pub variants: Vec<VariantSyntax>,
    pub trailing_comma: bool,
    /// The end of the opening brace.
    pub brace_open_end: Position,
    /// The start of the closing brace.
    pub brace_close_start: Position,
}

pub enum ItemNode {
    Use(UseItem),
    Mod(ModItem),
    Enum(EnumItem),
    Other,
}

/// One item of a file or an inline module, with the span of its whole text
/// (outer attributes included).
pub struct SyntaxItem {
    pub span: TextSpan,
    pub node: ItemNode,
}

impl PathSyntax {
    /// `syn::Path::is_ident`: the path is exactly the one identifier `name`.
    pub open spec fn spec_is_ident(&self, name: Seq<char>) -> bool {
        &&& !self.leading_colon
        &&& self.segments@.len() == 1
        &&& !self.segments@[0].has_arguments
        &&& self.segments@[0].ident@ == name
    }

    /// The identifier of the last segment, if any.
    pub open spec fn spec_last_ident(&self) -> Option<Seq<char>> {
        if self.segments@.len() == 0 {
            None
        } else {
            Some(self.segments@.last().ident@)
        }
    }
}

} // verus!
