//! How `use` and `mod` items are classified, grouped and placed.
use vstd::prelude::*;

use crate::config::{ItemClass, ItemKind, Visibility, class_rank};
use crate::syntax::{
    AttributeSyntax, ItemNode, ModItem, SyntaxItem, TextSpan, UseTreeSyntax, VisibilitySyntax,
};
use crate::text::{join, push_str, str_eq};

verus! {

/// The origin group of an import; `Module` is the group of every `mod` item.
#[derive(Clone, Copy, Debug, PartialEq, Eq, Hash, Structural)]
pub enum ItemGroup {
    StandardLibrary,
    External,
    Local,
    Module,
}

/// The order of the groups within one class.
pub open spec fn group_rank(group: ItemGroup) -> nat {
    match group {
        ItemGroup::StandardLibrary => 0,
        ItemGroup::External => 1,
        ItemGroup::Local => 2,
        ItemGroup::Module => 3,
    }
}

/// How a group is named in messages.
pub open spec fn group_text(group: ItemGroup) -> Seq<char> {
    match group {
        ItemGroup::StandardLibrary => "standard-library"@,
        ItemGroup::External => "external"@,
        ItemGroup::Local => "local"@,
        ItemGroup::Module => "module"@,
    }
}

impl ItemGroup {
    pub fn rank(self) -> (rank: u8)
        ensures
            rank == group_rank(self),
    {
        match self {
            ItemGroup::StandardLibrary => 0,
            ItemGroup::External => 1,
            ItemGroup::Local => 2,
            ItemGroup::Module => 3,
        }
    }

    pub fn to_string(self) -> (text: String)
        ensures
            text@ == group_text(self),
    {
        let mut text = String::new();
        match self {
            ItemGroup::StandardLibrary => push_str(&mut text, "standard-library"),
            ItemGroup::External => push_str(&mut text, "external"),
            ItemGroup::Local => push_str(&mut text, "local"),
            ItemGroup::Module => push_str(&mut text, "module"),
        }
        assert(Seq::<char>::empty() + group_text(self) =~= group_text(self));
        text
    }
}

/// The supported visibility of an item: private, `pub(crate)` or `pub`.
pub open spec fn supported_visibility(vis: VisibilitySyntax) -> Option<Visibility> {
    match vis {
        VisibilitySyntax::Inherited => Some(Visibility::Private),
        VisibilitySyntax::Public => Some(Visibility::Public),
        VisibilitySyntax::Restricted { has_in, path } => if !has_in && path.spec_is_ident(
            "crate"@,
        ) {
            Some(Visibility::Crate)
        } else {
            None
        },
    }
}

/// A module named `tests` with a direct `#[cfg(test)]` attribute.
pub open spec fn is_test_module(item: ModItem) -> bool {
    &&& item.ident@ == "tests"@
    &&& exists|i: int| 0 <= i < item.attrs@.len() && #[trigger] is_cfg_test(item.attrs@[i])
}

/// The attribute is `#[cfg(test)]`.
pub open spec fn is_cfg_test(attr: AttributeSyntax) -> bool {
    &&& attr.path.spec_is_ident("cfg"@)
    &&& attr.path_list matches Some(list) && list@.len() == 1 && list@[0].spec_is_ident("test"@)
}

/// The text of an import as the checker names it: `a::b`, `a as b`, `*`, groups joined
/// by `,`.
pub open spec fn tree_path(tree: UseTreeSyntax) -> Seq<char>
    decreases tree,
{
    match tree {
        UseTreeSyntax::Path { ident, tree } => ident@ + "::"@ + tree_path(*tree),
        UseTreeSyntax::Name { ident } => ident@,
        UseTreeSyntax::Rename { ident, rename } => ident@ + " as "@ + rename@,
        UseTreeSyntax::Glob => "*"@,
        UseTreeSyntax::Group { items } => join(group_paths(items@), ","@),
    }
}

/// The paths of the trees of a group.
pub open spec fn group_paths(items: Seq<UseTreeSyntax>) -> Seq<Seq<char>>
    decreases items,
{
    if items.len() == 0 {
        Seq::empty()
    } else {
        group_paths(items.drop_last()).push(tree_path(items.last()))
    }
}

/// The text before the first `::`, or all of it.
pub open spec fn first_segment(path: Seq<char>) -> Seq<char>
    decreases path.len(),
{
    if path.len() < 2 {
        path
    } else if path[0] == ':' && path[1] == ':' {
        Seq::empty()
    } else {
        seq![path[0]] + first_segment(path.drop_first())
    }
}

/// The names that the `mod` items of a module declare, in order.
pub open spec fn module_names(items: Seq<SyntaxItem>) -> Seq<Seq<char>>
    decreases items.len(),
{
    if items.len() == 0 {
        Seq::empty()
    } else {
        let names = module_names(items.drop_last());
        match items.last().node {
            ItemNode::Mod(m) => names.push(m.ident@),
            _ => names,
        }
    }
}

/// The origin group of an import with the given first segment.
pub open spec fn group_of_root(root: Seq<char>, names: Seq<Seq<char>>) -> ItemGroup {
    if names.contains(root) {
        ItemGroup::Local
    } else if root == "std"@ || root == "core"@ || root == "alloc"@ {
        ItemGroup::StandardLibrary
    } else if root == "self"@ || root == "super"@ || root == "crate"@ {
        ItemGroup::Local
    } else {
        ItemGroup::External
    }
}

/// The view of an import key: its group and its path.
pub struct ImportKeyView {
    pub group: ItemGroup,
    pub path: Seq<char>,
}

/// The view of a classified item.
pub struct ClassifiedView {
    pub class: ItemClass,
    /// The `use` or `mod` keyword.
    pub span: TextSpan,
    pub end_line: int,
    pub import_key: Option<ImportKeyView>,
    /// The whole item, attributes included.
    pub full_span: TextSpan,
}

impl ClassifiedView {
    pub open spec fn group(self) -> ItemGroup {
        match self.import_key {
            Some(key) => key.group,
            None => ItemGroup::Module,
        }
    }
}

/// The class and placement data of an item that takes part in an ordered run, where
/// it does: a `use` or `mod` item with a supported visibility. `names` are the modules
/// that the module declares, which decide what a bare first segment refers to.
pub open spec fn classify(item: SyntaxItem, names: Seq<Seq<char>>) -> Option<ClassifiedView> {
    match item.node {
        ItemNode::Use(u) => match supported_visibility(u.vis) {
            Some(vis) => {
                let path = tree_path(u.tree);
                Some(
                    ClassifiedView {
                        class: ItemClass { kind: ItemKind::Use, visibility: vis },
                        span: u.keyword,
                        end_line: u.semi_end.line as int,
                        import_key: Some(
                            ImportKeyView { group: group_of_root(first_segment(path), names), path },
                        ),
                        full_span: item.span,
                    },
                )
            },
            None => None,
        },
        ItemNode::Mod(m) => match supported_visibility(m.vis) {
            Some(vis) => Some(
                ClassifiedView {
                    class: ItemClass {
                        kind: if is_test_module(m) {
                            ItemKind::TestModule
                        } else {
                            ItemKind::Mod
                        },
                        visibility: vis,
                    },
                    span: m.keyword,
                    end_line: match m.semi_end {
                        Some(end) => end.line as int,
                        None => m.keyword.end.line as int,
                    },
                    import_key: None,
                    full_span: item.span,
                },
            ),
            None => None,
        },
        _ => None,
    }
}

pub struct ImportKey {
    pub group: ItemGroup,
    pub path: String,
}

impl ImportKey {
    pub open spec fn view(&self) -> ImportKeyView {
        ImportKeyView { group: self.group, path: self.path@ }
    }

    /// The path of a tree and the group that its first segment gives it.
    pub fn from_tree(tree: &UseTreeSyntax, scope: &ModuleScope) -> (key: Self)
        ensures
            key.path@ == tree_path(*tree),
            key.group == group_of_root(first_segment(tree_path(*tree)), scope.names()),
    {
        let mut path = String::new();
        Self::write_tree_path(&mut path, tree);
        assert(Seq::<char>::empty() + tree_path(*tree) =~= tree_path(*tree));
        let root = first_segment_of(&path);
        let group = Self::classify_group(&root, scope);
        ImportKey { group, path }
    }

    /// The origin group of an import whose path starts with `root`.
    pub fn classify_group(root: &String, scope: &ModuleScope) -> (group: ItemGroup)
        ensures
            group == group_of_root(root@, scope.names()),
    {
        if scope.contains_module(root.as_str()) {
            return ItemGroup::Local;
        }
        let root = root.as_str();
        if str_eq(root, "std") || str_eq(root, "core") || str_eq(root, "alloc") {
            ItemGroup::StandardLibrary
        } else if str_eq(root, "self") || str_eq(root, "super") || str_eq(root, "crate") {
            ItemGroup::Local
        } else {
            ItemGroup::External
        }
    }

    /// Appends the path of a tree.
    fn write_tree_path(out: &mut String, tree: &UseTreeSyntax)
        ensures
            final(out)@ == old(out)@ + tree_path(*tree),
        decreases tree,
    {
        match tree {
            UseTreeSyntax::Path { ident, tree: inner } => {
                push_str(out, ident.as_str());
                push_str(out, "::");
                Self::write_tree_path(out, inner);
                assert(old(out)@ + tree_path(*tree) =~= old(out)@ + ident@ + "::"@ + tree_path(
                    **inner,
                ));
            },
            UseTreeSyntax::Name { ident } => {
                push_str(out, ident.as_str());
            },
            UseTreeSyntax::Rename { ident, rename } => {
                push_str(out, ident.as_str());
                push_str(out, " as ");
                push_str(out, rename.as_str());
                assert(old(out)@ + tree_path(*tree) =~= old(out)@ + ident@ + " as "@ + rename@);
            },
            UseTreeSyntax::Glob => {
                push_str(out, "*");
            },
            UseTreeSyntax::Group { items } => {
                let ghost start = out@;
                let mut i: usize = 0;
                while i < items.len()
                    invariant
                        *tree == (UseTreeSyntax::Group { items: *items }),
                        0 <= i <= items@.len(),
                        out@ == start + join(group_paths(items@.take(i as int)), ","@),
                    decreases items@.len() - i,
                {
                    assert(items@.take(i + 1).drop_last() =~= items@.take(i as int));
                    proof {
                        lemma_group_paths_len(items@.take(i as int));
                    }
                    if i > 0 {
                        push_str(out, ",");
                    }
                    proof {
                        assert(decreases_to!(*tree => tree->Group_items));
                        assert(decreases_to!(*items => items@));
                        assert(decreases_to!(items@ => items@[i as int]));
                    }
                    Self::write_tree_path(out, &items[i]);
                    proof {
                        let prefix = group_paths(items@.take(i as int));
                        let next = group_paths(items@.take(i + 1));
                        assert(next == prefix.push(tree_path(items@[i as int])));
                        assert(next.drop_last() =~= prefix);
                        if i == 0 {
                            assert(join(prefix, ","@) =~= Seq::<char>::empty());
                            assert(join(next, ","@) == next[0]);
                        }
                    }
                    i = i + 1;
                }
                assert(items@.take(items@.len() as int) =~= items@);
            },
        }
    }
}

proof fn lemma_group_paths_len(items: Seq<UseTreeSyntax>)
    ensures
        group_paths(items).len() == items.len(),
    decreases items.len(),
{
    if items.len() > 0 {
        lemma_group_paths_len(items.drop_last());
    }
}

/// A `::` starts at `at`.
pub open spec fn separator_at(path: Seq<char>, at: int) -> bool {
    0 <= at && at + 1 < path.len() && path[at] == ':' && path[at + 1] == ':'
}

/// The first segment ends where the first `::` starts.
proof fn lemma_first_segment(path: Seq<char>, end: int)
    requires
        0 <= end <= path.len(),
        forall|k: int| 0 <= k < end ==> !separator_at(path, k),
        end == path.len() || separator_at(path, end),
    ensures
        first_segment(path) == path.take(end),
    decreases end,
{
    if path.len() < 2 {
        if end < path.len() {
            assert(!separator_at(path, end));
        }
        assert(path.take(end) =~= path);
    } else if path[0] == ':' && path[1] == ':' {
        assert(separator_at(path, 0));
        assert(path.take(end) =~= Seq::<char>::empty());
    } else {
        let rest = path.drop_first();
        assert forall|k: int| 0 <= k < end - 1 implies !separator_at(rest, k) by {
            assert(!separator_at(path, k + 1));
        }
        if end < path.len() {
            assert(separator_at(rest, end - 1));
        }
        lemma_first_segment(rest, end - 1);
        assert(path.take(end) =~= seq![path[0]] + rest.take(end - 1));
    }
}

/// The text of `path` before its first `::`.
pub fn first_segment_of(path: &String) -> (root: String)
    ensures
        root@ == first_segment(path@),
{
    let chars = crate::text::chars_of(path.as_str());
    let mut end: usize = 0;
    while end < chars.len() && !(end + 1 < chars.len() && chars[end] == ':' && chars[end + 1]
        == ':')
        invariant
            0 <= end <= chars@.len(),
            forall|k: int| 0 <= k < end ==> !separator_at(chars@, k),
        decreases chars@.len() - end,
    {
        end = end + 1;
    }
    proof {
        lemma_first_segment(chars@, end as int);
    }
    crate::text::string_from_range(&chars, 0, end)
}

/// The names of the modules that a module's `mod` items declare.
pub struct ModuleScope {
    local_modules: Vec<String>,
}

impl ModuleScope {
    pub closed spec fn names(&self) -> Seq<Seq<char>> {
        self.local_modules@.map_values(|name: String| name@)
    }

    pub fn from_items(items: &Vec<SyntaxItem>) -> (scope: Self)
        ensures
            scope.names() == module_names(items@),
    {
        let mut local_modules: Vec<String> = Vec::new();
        let mut i: usize = 0;
        while i < items.len()
            invariant
                0 <= i <= items@.len(),
                local_modules@.map_values(|name: String| name@) == module_names(
                    items@.take(i as int),
                ),
            decreases items@.len() - i,
        {
            assert(items@.take(i + 1).drop_last() =~= items@.take(i as int));
            match &items[i].node {
                ItemNode::Mod(m) => {
                    local_modules.push(m.ident.clone());
                },
                _ => {},
            }
            assert(local_modules@.map_values(|name: String| name@) =~= module_names(
                items@.take(i + 1),
            ));
            i = i + 1;
        }
        assert(items@.take(i as int) =~= items@);
        ModuleScope { local_modules }
    }

    /// Whether a `mod` item of the module declares `name`.
    pub fn contains_module(&self, name: &str) -> (result: bool)
        ensures
            result == self.names().contains(name@),
    {
        let mut k: usize = 0;
        while k < self.local_modules.len()
            invariant
                0 <= k <= self.local_modules@.len(),
                forall|j: int| 0 <= j < k ==> (#[trigger] self.local_modules@[j])@ != name@,
            decreases self.local_modules@.len() - k,
        {
            if str_eq(self.local_modules[k].as_str(), name) {
                assert(self.names()[k as int] == name@);
                return true;
            }
            k = k + 1;
        }
        proof {
            if self.names().contains(name@) {
                let j = choose|j: int| 0 <= j < self.names().len() && self.names()[j] == name@;
                assert(self.local_modules@[j]@ == name@);
            }
        }
        false
    }
}

/// The supported visibility of an item.
pub fn visibility(vis: &VisibilitySyntax) -> (result: Option<Visibility>)
    ensures
        result == supported_visibility(*vis),
{
    match vis {
        VisibilitySyntax::Inherited => Some(Visibility::Private),
        VisibilitySyntax::Public => Some(Visibility::Public),
        VisibilitySyntax::Restricted { has_in, path } => {
            if !*has_in && is_ident(path, "crate") {
                Some(Visibility::Crate)
            } else {
                None
            }
        },
    }
}

/// `syn::Path::is_ident`.
pub fn is_ident(path: &crate::syntax::PathSyntax, name: &str) -> (result: bool)
    ensures
        result == path.spec_is_ident(name@),
{
    !path.leading_colon && path.segments.len() == 1 && !path.segments[0].has_arguments && str_eq(
        path.segments[0].ident.as_str(),
        name,
    )
}

/// Whether a `mod` item is the conventional test module.
pub fn is_conventional_test_module(item: &ModItem) -> (result: bool)
    ensures
        result == is_test_module(*item),
{
    if !str_eq(item.ident.as_str(), "tests") {
        return false;
    }
    let mut i: usize = 0;
    while i < item.attrs.len()
        invariant
            item.ident@ == "tests"@,
            0 <= i <= item.attrs@.len(),
            forall|j: int| 0 <= j < i ==> !#[trigger] is_cfg_test(item.attrs@[j]),
        decreases item.attrs@.len() - i,
    {
        let attr = &item.attrs[i];
        if is_ident(&attr.path, "cfg") {
            if let Some(list) = &attr.path_list {
                if list.len() == 1 && is_ident(&list[0], "test") {
                    assert(is_cfg_test(item.attrs@[i as int]));
                    return true;
                }
            }
        }
        i = i + 1;
    }
    false
}

/// An item that takes part in an ordered run.
pub struct ClassifiedItem {
    pub class: ItemClass,
    pub span: TextSpan,
    pub end_line: usize,
    pub import_key: Option<ImportKey>,
    pub full_span: TextSpan,
}

impl ClassifiedItem {
    pub open spec fn view(&self) -> ClassifiedView {
        ClassifiedView {
            class: self.class,
            span: self.span,
            end_line: self.end_line as int,
            import_key: match self.import_key {
                Some(key) => Some(key.view()),
                None => None,
            },
            full_span: self.full_span,
        }
    }

    /// Classifies an item of a module whose `mod` names `scope` holds.
    pub fn from_ast(item: &SyntaxItem, scope: &ModuleScope) -> (classified: Option<Self>)
        ensures
            match classified {
                Some(c) => classify(*item, scope.names()) == Some(c.view()),
                None => classify(*item, scope.names()) is None,
            },
    {
        match &item.node {
            ItemNode::Use(u) => {
                let vis = match visibility(&u.vis) {
                    Some(vis) => vis,
                    None => return None,
                };
                Some(
                    ClassifiedItem {
                        class: ItemClass::new(ItemKind::Use, vis),
                        span: u.keyword,
                        end_line: u.semi_end.line,
                        import_key: Some(ImportKey::from_tree(&u.tree, scope)),
                        full_span: item.span,
                    },
                )
            },
            ItemNode::Mod(m) => {
                let vis = match visibility(&m.vis) {
                    Some(vis) => vis,
                    None => return None,
                };
                let kind = if is_conventional_test_module(m) {
                    ItemKind::TestModule
                } else {
                    ItemKind::Mod
                };
                let end_line = match m.semi_end {
                    Some(end) => end.line,
                    None => m.keyword.end.line,
                };
                Some(
                    ClassifiedItem {
                        class: ItemClass::new(kind, vis),
                        span: m.keyword,
                        end_line,
                        import_key: None,
                        full_span: item.span,
                    },
                )
            },
            _ => None,
        }
    }

    pub fn group(&self) -> (group: ItemGroup)
        ensures
            group == self.view().group(),
    {
        match &self.import_key {
            Some(key) => key.group,
            None => ItemGroup::Module,
        }
    }
}

/// The rank, group and class by which the fixer places an item.
#[derive(Clone, Copy, Debug, PartialEq, Eq, Structural)]
pub struct ItemPlacement {
    pub rank: usize,
    pub group: ItemGroup,
    pub class: ItemClass,
}

impl ItemPlacement {
    pub fn from_classified(item: &ClassifiedItem) -> (placement: Self)
        ensures
            placement.rank == class_rank(item.class),
            placement.group == item.view().group(),
            placement.class == item.class,
    {
        ItemPlacement { rank: item.class.rank(), group: item.group(), class: item.class }
    }

    /// The key by which a run is sorted: rank, then group.
    pub fn sort_key(self) -> (key: (usize, u8))
        ensures
            key.0 == self.rank,
            key.1 == group_rank(self.group),
    {
        (self.rank, self.group.rank())
    }

    /// A blank line separates this item from the previous one.
    pub fn starts_new_group_after(self, previous: Self) -> (result: bool)
        ensures
            result == (self.class != previous.class || self.group != previous.group),
    {
        self.class != previous.class || self.group != previous.group
    }
}

/// An import whose first segment is `std`, `core` or `alloc`, where the module declares
/// no module of that name, is of the standard library; one whose first segment the
/// module declares, or that starts with `self`, `super` or `crate`, is local; any other
/// is external.
pub proof fn lemma_import_origin(root: Seq<char>, names: Seq<Seq<char>>)
    ensures
        !names.contains(root) && (root == "std"@ || root == "core"@ || root == "alloc"@) ==> group_of_root(root, names)
            == ItemGroup::StandardLibrary,
        names.contains(root) || root == "self"@ || root == "super"@ || root == "crate"@ ==> group_of_root(
            root,
            names,
        ) == ItemGroup::Local,
        !names.contains(root) && root != "std"@ && root != "core"@ && root != "alloc"@ && root != "self"@ && root
            != "super"@ && root != "crate"@ ==> group_of_root(root, names) == ItemGroup::External,
{
    reveal_strlit("std");
    reveal_strlit("core");
    reveal_strlit("alloc");
    reveal_strlit("self");
    reveal_strlit("super");
    reveal_strlit("crate");
    assert("std"@.len() == 3 && "core"@.len() == 4 && "alloc"@.len() == 5);
    assert("self"@.len() == 4 && "super"@.len() == 5 && "crate"@.len() == 5);
    assert("self"@[0] == 's' && "core"@[0] == 'c' && "super"@[0] == 's' && "crate"@[0] == 'c' && "alloc"@[0] == 'a');
}

/// A `use` item with a supported visibility whose path starts with `std`, `core` or
/// `alloc`, where the module declares no module of that name, is classified as an
/// import of the standard library.
pub proof fn lemma_standard_library_import(item: SyntaxItem, names: Seq<Seq<char>>)
    requires
        item.node matches ItemNode::Use(u) && supported_visibility(u.vis) is Some && ({
            let root = first_segment(tree_path(u.tree));
            !names.contains(root) && (root == "std"@ || root == "core"@ || root == "alloc"@)
        }),
    ensures
        classify(item, names) is Some,
        classify(item, names)->Some_0.class.kind == ItemKind::Use,
        classify(item, names)->Some_0.import_key is Some,
        classify(item, names)->Some_0.import_key->Some_0.group == ItemGroup::StandardLibrary,
{
    let u = item.node->Use_0;
    lemma_import_origin(first_segment(tree_path(u.tree)), names);
}

/// A module named `tests` is the conventional test module exactly when one of its outer
/// attributes, at whatever position, is `#[cfg(test)]`: the path `cfg` with the one
/// argument `test`.
pub proof fn lemma_test_module_by_any_attribute(item: ModItem, i: int)
    requires
        item.ident@ == "tests"@,
        0 <= i < item.attrs@.len(),
        item.attrs@[i].path.spec_is_ident("cfg"@),
        item.attrs@[i].path_list matches Some(list) && list@.len() == 1 && list@[0].spec_is_ident("test"@),
    ensures
        is_test_module(item),
{
    assert(is_cfg_test(item.attrs@[i]));
}

/// A `mod tests` item with a supported visibility and a `#[cfg(test)]` attribute at any
/// position is classified as the test module, whose class comes after every other.
pub proof fn lemma_classified_test_module(item: SyntaxItem, names: Seq<Seq<char>>, i: int)
    requires
        item.node matches ItemNode::Mod(m) && supported_visibility(m.vis) is Some && m.ident@ == "tests"@ && 0 <= i
            < m.attrs@.len() && m.attrs@[i].path.spec_is_ident("cfg"@) && (m.attrs@[i].path_list matches Some(
            list,
        ) && list@.len() == 1 && list@[0].spec_is_ident("test"@)),
    ensures
        classify(item, names) is Some,
        classify(item, names)->Some_0.class.kind == ItemKind::TestModule,
{
    lemma_test_module_by_any_attribute(item.node->Mod_0, i);
}

/// Only a module named `tests` with some `#[cfg(test)]` attribute is the conventional
/// test module.
pub proof fn lemma_test_module_needs_cfg_test(item: ModItem)
    requires
        is_test_module(item),
    ensures
        item.ident@ == "tests"@,
        exists|i: int|
            0 <= i < item.attrs@.len() && (#[trigger] item.attrs@[i]).path.spec_is_ident("cfg"@) && (
            item.attrs@[i].path_list matches Some(list) && list@.len() == 1 && list@[0].spec_is_ident("test"@)),
{
    let i = choose|i: int| 0 <= i < item.attrs@.len() && #[trigger] is_cfg_test(item.attrs@[i]);
    assert(item.attrs@[i].path.spec_is_ident("cfg"@));
}

} // verus!
