//! The call into `syn` that parses Rust text, and the conversions that move the nodes
//! it produces, field for field, into the model's types. Nothing here is proved: the
//! parse states its result through the name `rust_file`, and the conversions it uses
//! are one arm per `syn` variant, moving fields only.
use vstd::prelude::*;

use syn::spanned::Spanned;

use super::{
    AttributeSyntax, EnumItem, ItemNode, ModItem, PathSegment, PathSyntax, SyntaxItem, TextSpan, UseItem,
    UseTreeSyntax, VariantSyntax, VisibilitySyntax,
};
use crate::source::Position;

verus! {

#[verifier::external_type_specification]
#[verifier::external_body]
pub struct ExSynItem(syn::Item);

#[verifier::external_type_specification]
#[verifier::external_body]
pub struct ExSynItemUse(syn::ItemUse);

#[verifier::external_type_specification]
#[verifier::external_body]
pub struct ExSynItemMod(syn::ItemMod);

#[verifier::external_type_specification]
#[verifier::external_body]
pub struct ExSynItemEnum(syn::ItemEnum);

#[verifier::external_type_specification]
#[verifier::external_body]
pub struct ExSynVariant(syn::Variant);

#[verifier::external_type_specification]
#[verifier::external_body]
pub struct ExSynAttribute(syn::Attribute);

#[verifier::external_type_specification]
#[verifier::external_body]
pub struct ExSynUseTree(syn::UseTree);

#[verifier::external_type_specification]
#[verifier::external_body]
pub struct ExSynPath(syn::Path);

#[verifier::external_type_specification]
#[verifier::external_body]
pub struct ExSynError(syn::Error);

#[verifier::external_type_specification]
#[verifier::external_body]
pub struct ExSpan(proc_macro2::Span);

/// What `syn::parse_file` gives for a text: `None` where it rejects the text, else the
/// file's items, each moved field for field into the model's types. Besides the parse,
/// the name covers what the conversions read from its nodes: `Spanned::span`,
/// `Span::start` and `Span::end`, `Attribute::parse_args_with` and `Ident`'s `Display`,
/// each of which depends on the parsed text alone.
pub uninterp spec fn rust_file(text: Seq<char>) -> Option<Seq<SyntaxItem>>;

/// `syn::parse_file`, its items converted into the model's types. The result is what
/// `rust_file` names for the text: the items where `syn` accepts the text, an error
/// where it does not.
#[verifier::external_body]
pub fn parse_file(text: &str) -> (result: Result<Vec<SyntaxItem>, syn::Error>)
    ensures
        match result {
            Ok(items) => rust_file(text@) == Some(items@),
            Err(_) => rust_file(text@) is None,
        },
{
    syn::parse_file(text).map(|file| file.items.iter().map(syntax_item).collect())
}

/// `syn::Error`'s `Display`: the error's message. No clause states the text, which
/// `syn` composes from the parse failure.
#[verifier::external_body]
pub fn error_message(error: &syn::Error) -> String {
    error.to_string()
}

/// `proc_macro2::Span::start` and `end`: the line (from 1) and column (from 0) where a
/// span begins and ends.
#[verifier::external_body]
fn span_bounds(span: proc_macro2::Span) -> TextSpan {
    TextSpan {
        start: Position { line: span.start().line, column: span.start().column },
        end: Position { line: span.end().line, column: span.end().column },
    }
}

/// A `syn::Item`: its span (`Spanned::span`, outer attributes included), and its
/// variant, one arm each for `use`, `mod` and `enum`, the others alike.
#[verifier::external_body]
fn syntax_item(item: &syn::Item) -> SyntaxItem {
    let node = match item {
        syn::Item::Use(item) => ItemNode::Use(use_item(item)),
        syn::Item::Mod(item) => ItemNode::Mod(mod_item(item)),
        syn::Item::Enum(item) => ItemNode::Enum(enum_item(item)),
        _ => ItemNode::Other,
    };
    SyntaxItem { span: span_bounds(item.span()), node }
}

/// A `syn::ItemUse`: its visibility, the span of `use`, the end of the semicolon and
/// the tree.
#[verifier::external_body]
fn use_item(item: &syn::ItemUse) -> UseItem {
    UseItem {
        vis: use_visibility(item),
        keyword: span_bounds(item.use_token.span),
        semi_end: span_bounds(item.semi_token.spans[0]).end,
        tree: use_tree_syntax(&item.tree),
    }
}

/// A `syn::ItemMod`: attributes, visibility, the span of `mod`, the name (`Ident`'s
/// `Display`), the end of the semicolon and the inline items.
#[verifier::external_body]
fn mod_item(item: &syn::ItemMod) -> ModItem {
    ModItem {
        attrs: item.attrs.iter().map(attribute_syntax).collect(),
        vis: mod_visibility(item),
        keyword: span_bounds(item.mod_token.span),
        ident: item.ident.to_string(),
        semi_end: item.semi.map(|semi| span_bounds(semi.spans[0]).end),
        content: item.content.as_ref().map(|(_, items)| items.iter().map(syntax_item).collect()),
    }
}

/// A `syn::ItemEnum`: attributes, each variant with the comma after it
/// (`Punctuated::pairs`), whether a comma ends the list (`Punctuated::trailing_punct`),
/// and the inner ends of the braces.
#[verifier::external_body]
fn enum_item(item: &syn::ItemEnum) -> EnumItem {
    EnumItem {
        attrs: item.attrs.iter().map(attribute_syntax).collect(),
        variants: item.variants.pairs().map(|pair| variant_syntax(pair.value(), pair.punct().map(|comma| comma.spans[0]))).collect(),
        trailing_comma: item.variants.trailing_punct(),
        brace_open_end: span_bounds(item.brace_token.span.open()).end,
        brace_close_start: span_bounds(item.brace_token.span.close()).start,
    }
}

/// A `syn::Variant`: its name (`Ident`'s `Display`), where the name starts, its whole
/// span (attributes included), and the end of the comma after it.
#[verifier::external_body]
fn variant_syntax(variant: &syn::Variant, comma: Option<proc_macro2::Span>) -> VariantSyntax {
    VariantSyntax {
        ident: variant.ident.to_string(),
        ident_start: span_bounds(variant.ident.span()).start,
        span: span_bounds(variant.span()),
        comma_end: comma.map(|comma| span_bounds(comma).end),
    }
}

/// The `syn::Visibility` of a `use` item, one arm each; a restricted one with its `in`
/// and its path.
#[verifier::external_body]
fn use_visibility(item: &syn::ItemUse) -> VisibilitySyntax {
    match &item.vis {
        syn::Visibility::Inherited => VisibilitySyntax::Inherited,
        syn::Visibility::Public(_) => VisibilitySyntax::Public,
        syn::Visibility::Restricted(restricted) => VisibilitySyntax::Restricted {
            has_in: restricted.in_token.is_some(),
            path: path_syntax(&restricted.path),
        },
    }
}

/// The `syn::Visibility` of a `mod` item, one arm each; a restricted one with its `in`
/// and its path.
#[verifier::external_body]
fn mod_visibility(item: &syn::ItemMod) -> VisibilitySyntax {
    match &item.vis {
        syn::Visibility::Inherited => VisibilitySyntax::Inherited,
        syn::Visibility::Public(_) => VisibilitySyntax::Public,
        syn::Visibility::Restricted(restricted) => VisibilitySyntax::Restricted {
            has_in: restricted.in_token.is_some(),
            path: path_syntax(&restricted.path),
        },
    }
}

/// A `syn::Path`: its leading `::`, and each segment's name (`Ident`'s `Display`) and
/// whether it carries arguments (`PathArguments::is_none`).
#[verifier::external_body]
fn path_syntax(path: &syn::Path) -> PathSyntax {
    PathSyntax {
        leading_colon: path.leading_colon.is_some(),
        segments: path.segments.iter().map(|segment| PathSegment {
            ident: segment.ident.to_string(),
            has_arguments: !segment.arguments.is_none(),
        }).collect(),
    }
}

/// A `syn::UseTree`, one arm each, names taken by `Ident`'s `Display`.
#[verifier::external_body]
fn use_tree_syntax(tree: &syn::UseTree) -> UseTreeSyntax {
    match tree {
        syn::UseTree::Path(path) => UseTreeSyntax::Path { ident: path.ident.to_string(), tree: Box::new(use_tree_syntax(&path.tree)) },
        syn::UseTree::Name(name) => UseTreeSyntax::Name { ident: name.ident.to_string() },
        syn::UseTree::Rename(rename) => UseTreeSyntax::Rename { ident: rename.ident.to_string(), rename: rename.rename.to_string() },
        syn::UseTree::Glob(_) => UseTreeSyntax::Glob,
        syn::UseTree::Group(group) => UseTreeSyntax::Group { items: group.items.iter().map(use_tree_syntax).collect() },
    }
}

/// A `syn::Attribute`: its path (`Attribute::path`), and its arguments parsed by
/// `Attribute::parse_args_with` with `Punctuated::parse_terminated` as a comma-separated
/// list of paths, where they parse as one.
#[verifier::external_body]
fn attribute_syntax(attribute: &syn::Attribute) -> AttributeSyntax {
    let parser = syn::punctuated::Punctuated::<syn::Path, syn::token::Comma>::parse_terminated;
    AttributeSyntax {
        path: path_syntax(attribute.path()),
        path_list: attribute.parse_args_with(parser).ok().map(|paths| paths.iter().map(path_syntax).collect()),
    }
}

} // verus!
