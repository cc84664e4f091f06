//! Which enums are error enums, and the names by which their variants are ordered.
use vstd::prelude::*;

use crate::syntax::{AttributeSyntax, EnumItem, PathSyntax, VariantSyntax};
use crate::text::{chars_of, str_eq, string_from_range};

verus! {

/// The path's last segment is `Error`, as in `Error` or `thiserror::Error`.
pub open spec fn ends_in_error(path: PathSyntax) -> bool {
    path.spec_last_ident() == Some("Error"@)
}

/// A `derive` attribute whose list names a path ending in `Error`.
pub open spec fn derives_error(attr: AttributeSyntax) -> bool {
    &&& attr.path.spec_is_ident("derive"@)
    &&& attr.path_list matches Some(list) && exists|j: int|
        0 <= j < list@.len() && #[trigger] ends_in_error(list@[j])
}

/// An enum that derives a trait named `Error`.
pub open spec fn is_error_enum(item: EnumItem) -> bool {
    exists|i: int| 0 <= i < item.attrs@.len() && #[trigger] derives_error(item.attrs@[i])
}

/// A name without its raw prefix `r#`.
pub open spec fn unraw(name: Seq<char>) -> Seq<char> {
    if name.len() >= 2 && name[0] == 'r' && name[1] == '#' {
        name.skip(2)
    } else {
        name
    }
}

/// The name by which a variant is ordered.
pub open spec fn variant_name(variant: VariantSyntax) -> Seq<char> {
    unraw(variant.ident@)
}

/// An enum that derives `Error`.
#[derive(Clone, Copy)]
pub struct ErrorEnum<'a> {
    ast: &'a EnumItem,
}

impl<'a> ErrorEnum<'a> {
    pub closed spec fn spec_ast(self) -> EnumItem {
        *self.ast
    }

    /// The enum, where it derives `Error`.
    pub fn from_ast(ast: &'a EnumItem) -> (error_enum: Option<Self>)
        ensures
            match error_enum {
                Some(e) => is_error_enum(*ast) && e.spec_ast() == *ast,
                None => !is_error_enum(*ast),
            },
    {
        let mut i: usize = 0;
        while i < ast.attrs.len()
            invariant
                0 <= i <= ast.attrs@.len(),
                forall|k: int| 0 <= k < i ==> !#[trigger] derives_error(ast.attrs@[k]),
            decreases ast.attrs@.len() - i,
        {
            let attribute = &ast.attrs[i];
            if crate::rules::item_order::model::is_ident(&attribute.path, "derive") {
                if let Some(paths) = &attribute.path_list {
                    let mut j: usize = 0;
                    while j < paths.len()
                        invariant
                            0 <= i < ast.attrs@.len(),
                            ast.attrs@[i as int].path.spec_is_ident("derive"@),
                            ast.attrs@[i as int].path_list == Some(*paths),
                            0 <= j <= paths@.len(),
                            forall|k: int| 0 <= k < j ==> !#[trigger] ends_in_error(paths@[k]),
                        decreases paths@.len() - j,
                    {
                        if Self::path_ends_in_error(&paths[j]) {
                            let ghost list = ast.attrs@[i as int].path_list->Some_0;
                            assert(list@[j as int] == paths@[j as int]);
                            assert(ends_in_error(list@[j as int]));
                            assert(derives_error(ast.attrs@[i as int]));
                            return Some(ErrorEnum { ast });
                        }
                        j = j + 1;
                    }
                }
            }
            i = i + 1;
        }
        None
    }

    pub fn ast(self) -> (ast: &'a EnumItem)
        ensures
            *ast == self.spec_ast(),
    {
        self.ast
    }

    pub fn variants(self) -> (variants: &'a Vec<VariantSyntax>)
        ensures
            variants@ == self.spec_ast().variants@,
    {
        &self.ast.variants
    }

    fn path_ends_in_error(path: &PathSyntax) -> (result: bool)
        ensures
            result == ends_in_error(*path),
    {
        if path.segments.len() == 0 {
            return false;
        }
        str_eq(path.segments[path.segments.len() - 1].ident.as_str(), "Error")
    }
}

/// A name without its raw prefix.
pub fn unraw_name(name: &String) -> (result: String)
    ensures
        result@ == unraw(name@),
{
    let chars = chars_of(name.as_str());
    if chars.len() >= 2 && chars[0] == 'r' && chars[1] == '#' {
        string_from_range(&chars, 2, chars.len())
    } else {
        assert(chars@.subrange(0, chars@.len() as int) =~= chars@);
        string_from_range(&chars, 0, chars.len())
    }
}

/// An enum derives a trait named `Error` exactly when one of its attributes is a
/// `derive` whose list holds, at whatever position, a path whose last segment is
/// `Error`.
pub proof fn lemma_error_enum_by_any_derived_path(item: EnumItem)
    ensures
        is_error_enum(item) <==> exists|i: int, j: int|
            0 <= i < item.attrs@.len() && item.attrs@[i].path.spec_is_ident("derive"@) && item.attrs@[i].path_list is Some
                && 0 <= j < item.attrs@[i].path_list->Some_0@.len() && (
            #[trigger] item.attrs@[i].path_list->Some_0@[j]).segments@.len() > 0
                && item.attrs@[i].path_list->Some_0@[j].segments@.last().ident@ == "Error"@,
{
    if is_error_enum(item) {
        let i = choose|i: int| 0 <= i < item.attrs@.len() && #[trigger] derives_error(item.attrs@[i]);
        let list = item.attrs@[i].path_list->Some_0;
        let j = choose|j: int| 0 <= j < list@.len() && #[trigger] ends_in_error(list@[j]);
        assert(list@[j].segments@.len() > 0);
        assert(item.attrs@[i].path_list->Some_0@[j] == list@[j]);
    }
    if exists|i: int, j: int|
        0 <= i < item.attrs@.len() && item.attrs@[i].path.spec_is_ident("derive"@) && item.attrs@[i].path_list is Some
            && 0 <= j < item.attrs@[i].path_list->Some_0@.len() && (
        #[trigger] item.attrs@[i].path_list->Some_0@[j]).segments@.len() > 0
            && item.attrs@[i].path_list->Some_0@[j].segments@.last().ident@ == "Error"@ {
        let (i, j) = choose|i: int, j: int|
            0 <= i < item.attrs@.len() && item.attrs@[i].path.spec_is_ident("derive"@) && item.attrs@[i].path_list is Some
                && 0 <= j < item.attrs@[i].path_list->Some_0@.len() && (
            #[trigger] item.attrs@[i].path_list->Some_0@[j]).segments@.len() > 0
                && item.attrs@[i].path_list->Some_0@[j].segments@.last().ident@ == "Error"@;
        let list = item.attrs@[i].path_list->Some_0;
        assert(ends_in_error(list@[j]));
        assert(derives_error(item.attrs@[i]));
    }
}

} // verus!
