//! The packages of a Cargo workspace selected for checking, and which of their files
//! are checked.
use vstd::prelude::*;

use crate::order::{lemma_seq_lt_irreflexive, lemma_seq_lt_total, lemma_seq_lt_transitive};
use crate::rules::error_variants::check::string_lt;
use crate::text::{chars_of, push_str, seq_lt, str_eq, string_of};

verus! {

/// A path as the list of its components' texts, as `std::path::Path::iter` yields them:
/// `Path` compares and prefixes paths by whole components, so the rules here do too.
pub open spec fn parts_view(parts: Seq<Vec<String>>) -> Seq<Seq<Seq<char>>> {
    parts.map_values(|p: Vec<String>| roots_view(p@))
}

/// `base`'s components begin `path`'s, as `Path::starts_with` decides: whole
/// components only.
pub open spec fn starts_with_parts(path: Seq<Seq<char>>, base: Seq<Seq<char>>) -> bool {
    base.len() <= path.len() && path.take(base.len() as int) == base
}

/// A path's last component is `.git`.
pub open spec fn named_git(path: Seq<Seq<char>>) -> bool {
    path.len() > 0 && path.last() == ".git"@
}

/// A file name whose extension is `rs`: it ends in `.rs`, and that dot is not its first
/// character (`.rs` alone is a name without an extension).
pub open spec fn is_rust_name(name: Seq<char>) -> bool {
    name.len() >= 4 && name.skip(name.len() - 3) == ".rs"@
}

/// A path names a Rust source file: its last component has the extension `rs`.
pub open spec fn is_rust_path(path: Seq<Seq<char>>) -> bool {
    path.len() > 0 && is_rust_name(path.last())
}

/// Whether two paths have the same components.
pub fn same_parts(a: &Vec<String>, b: &Vec<String>) -> (result: bool)
    ensures
        result == (roots_view(a@) == roots_view(b@)),
{
    if a.len() != b.len() {
        return false;
    }
    let mut i: usize = 0;
    while i < a.len()
        invariant
            a@.len() == b@.len(),
            0 <= i <= a@.len(),
            forall|j: int| 0 <= j < i ==> a@[j]@ == b@[j]@,
        decreases a@.len() - i,
    {
        if !str_eq(a[i].as_str(), b[i].as_str()) {
            assert(roots_view(a@)[i as int] != roots_view(b@)[i as int]);
            return false;
        }
        i = i + 1;
    }
    assert(roots_view(a@) =~= roots_view(b@));
    true
}

/// Whether `base`'s components begin `path`'s.
pub fn starts_with(path: &Vec<String>, base: &Vec<String>) -> (result: bool)
    ensures
        result == starts_with_parts(roots_view(path@), roots_view(base@)),
{
    if base.len() > path.len() {
        return false;
    }
    let mut i: usize = 0;
    while i < base.len()
        invariant
            base@.len() <= path@.len(),
            0 <= i <= base@.len(),
            forall|j: int| 0 <= j < i ==> path@[j]@ == base@[j]@,
        decreases base@.len() - i,
    {
        if !str_eq(path[i].as_str(), base[i].as_str()) {
            assert(roots_view(path@).take(base@.len() as int)[i as int] != roots_view(base@)[i as int]);
            return false;
        }
        i = i + 1;
    }
    assert(roots_view(path@).take(base@.len() as int) =~= roots_view(base@));
    true
}

/// The part of a violation's path that is shown: in verbose output, or where the
/// workspace root's components do not begin the path, the whole path (`None`); else
/// the components after the root, as `Path::strip_prefix` leaves them.
pub fn shown_path(path: &Vec<String>, workspace_root: &Vec<String>, verbose: bool) -> (shown: Option<Vec<String>>)
    ensures
        shown is None <==> (verbose || !starts_with_parts(roots_view(path@), roots_view(workspace_root@))),
        shown matches Some(rest) ==> roots_view(rest@) == roots_view(path@).skip(workspace_root@.len() as int),
{
    if verbose || !starts_with(path, workspace_root) {
        return None;
    }
    let mut rest: Vec<String> = Vec::new();
    let mut i: usize = workspace_root.len();
    while i < path.len()
        invariant
            workspace_root@.len() <= i <= path@.len(),
            rest@.len() == i - workspace_root@.len(),
            forall|k: int| 0 <= k < rest@.len() ==> (#[trigger] rest@[k])@ == path@[workspace_root@.len() + k]@,
        decreases path@.len() - i,
    {
        rest.push(string_of(path[i].as_str()));
        i = i + 1;
    }
    assert(roots_view(rest@) =~= roots_view(path@).skip(workspace_root@.len() as int));
    Some(rest)
}

/// The order of paths, as `Path`'s `Ord` compares them: component by component, each
/// by its text, and a path before every longer path that it begins.
pub open spec fn parts_lt(a: Seq<Seq<char>>, b: Seq<Seq<char>>) -> bool
    decreases a.len(),
{
    if a.len() == 0 {
        b.len() > 0
    } else if b.len() == 0 {
        false
    } else if a[0] != b[0] {
        seq_lt(a[0], b[0])
    } else {
        parts_lt(a.drop_first(), b.drop_first())
    }
}

/// `parts_lt` is transitive.
pub proof fn lemma_parts_lt_transitive(a: Seq<Seq<char>>, b: Seq<Seq<char>>, c: Seq<Seq<char>>)
    requires
        parts_lt(a, b),
        parts_lt(b, c),
    ensures
        parts_lt(a, c),
    decreases a.len(),
{
    if a.len() > 0 && b.len() > 0 && c.len() > 0 {
        if a[0] == b[0] && b[0] == c[0] {
            lemma_parts_lt_transitive(a.drop_first(), b.drop_first(), c.drop_first());
        } else if a[0] != b[0] && b[0] != c[0] {
            lemma_seq_lt_transitive(a[0], b[0], c[0]);
            if a[0] == c[0] {
                lemma_seq_lt_irreflexive(a[0]);
            }
        }
    }
}

/// Of two different paths, one comes before the other.
pub proof fn lemma_parts_lt_total(a: Seq<Seq<char>>, b: Seq<Seq<char>>)
    requires
        a != b,
    ensures
        parts_lt(a, b) || parts_lt(b, a),
    decreases a.len(),
{
    if a.len() > 0 && b.len() > 0 {
        if a[0] == b[0] {
            if a.drop_first() == b.drop_first() {
                assert(a =~= seq![a[0]] + a.drop_first());
                assert(b =~= seq![b[0]] + b.drop_first());
            }
            lemma_parts_lt_total(a.drop_first(), b.drop_first());
        } else {
            lemma_seq_lt_total(a[0], b[0]);
        }
    } else if a.len() == 0 && b.len() == 0 {
        assert(a =~= b);
    }
}

/// No path comes before itself.
pub proof fn lemma_parts_lt_irreflexive(a: Seq<Seq<char>>)
    ensures
        !parts_lt(a, a),
    decreases a.len(),
{
    if a.len() > 0 {
        lemma_parts_lt_irreflexive(a.drop_first());
    }
}

/// Whether `a` comes before `b` in the order of paths.
pub fn path_lt(a: &Vec<String>, b: &Vec<String>) -> (result: bool)
    ensures
        result == parts_lt(roots_view(a@), roots_view(b@)),
{
    let ghost va = roots_view(a@);
    let ghost vb = roots_view(b@);
    let mut i: usize = 0;
    assert(va.skip(0) =~= va);
    assert(vb.skip(0) =~= vb);
    while i < a.len() && i < b.len() && str_eq(a[i].as_str(), b[i].as_str())
        invariant
            va == roots_view(a@),
            vb == roots_view(b@),
            0 <= i <= a@.len(),
            i <= b@.len(),
            parts_lt(va, vb) == parts_lt(va.skip(i as int), vb.skip(i as int)),
        decreases a@.len() - i,
    {
        let ghost sa = va.skip(i as int);
        let ghost sb = vb.skip(i as int);
        assert(sa.drop_first() =~= va.skip(i + 1));
        assert(sb.drop_first() =~= vb.skip(i + 1));
        i = i + 1;
    }
    let ghost sa = va.skip(i as int);
    let ghost sb = vb.skip(i as int);
    if i == a.len() {
        assert(sa.len() == 0);
        i < b.len()
    } else if i == b.len() {
        false
    } else {
        assert(sa[0] == a@[i as int]@ && sb[0] == b@[i as int]@);
        string_lt(&a[i], &b[i])
    }
}

/// The paths, each once, in the order of paths: what collecting them into a
/// `BTreeSet` of `PathBuf` yields.
pub fn sorted_unique_paths(paths: &Vec<Vec<String>>) -> (sorted: Vec<Vec<String>>)
    ensures
        forall|i: int, j: int|
            0 <= i < j < sorted@.len() ==> parts_lt(
                #[trigger] parts_view(sorted@)[i],
                #[trigger] parts_view(sorted@)[j],
            ),
        forall|p: Seq<Seq<char>>| parts_view(sorted@).contains(p) <==> parts_view(paths@).contains(p),
{
    let mut sorted: Vec<Vec<String>> = Vec::new();
    let mut k: usize = 0;
    while k < paths.len()
        invariant
            0 <= k <= paths@.len(),
            forall|i: int, j: int|
                0 <= i < j < sorted@.len() ==> parts_lt(
                    #[trigger] parts_view(sorted@)[i],
                    #[trigger] parts_view(sorted@)[j],
                ),
            forall|p: Seq<Seq<char>>|
                parts_view(sorted@).contains(p) <==> parts_view(paths@).take(k as int).contains(p),
        decreases paths@.len() - k,
    {
        let ghost old_view = parts_view(sorted@);
        let ghost path = parts_view(paths@)[k as int];
        assert(parts_view(paths@).take(k + 1) =~= parts_view(paths@).take(k as int).push(path));
        let mut pos: usize = 0;
        while pos < sorted.len() && path_lt(&sorted[pos], &paths[k])
            invariant
                0 <= pos <= sorted@.len(),
                old_view == parts_view(sorted@),
                path == parts_view(paths@)[k as int],
                k < paths@.len(),
                forall|i: int| 0 <= i < pos ==> parts_lt(#[trigger] old_view[i], path),
                forall|i: int, j: int| 0 <= i < j < old_view.len() ==> parts_lt(#[trigger] old_view[i], #[trigger] old_view[j]),
                parts_view(paths@).take(k + 1) == parts_view(paths@).take(k as int).push(path),
                forall|p: Seq<Seq<char>>| old_view.contains(p) <==> parts_view(paths@).take(k as int).contains(p),
            decreases sorted@.len() - pos,
        {
            pos = pos + 1;
        }
        let duplicate = pos < sorted.len() && same_parts(&sorted[pos], &paths[k]);
        if !duplicate {
            let copy = clone_parts(&paths[k]);
            proof {
                if pos < old_view.len() {
                    assert(old_view[pos as int] != path);
                    lemma_parts_lt_total(old_view[pos as int], path);
                }
            }
            sorted.insert(pos, copy);
            let ghost new_view = parts_view(sorted@);
            proof {
                assert(new_view =~= old_view.insert(pos as int, path));
                assert forall|i: int, j: int| 0 <= i < j < new_view.len() implies parts_lt(
                    #[trigger] new_view[i],
                    #[trigger] new_view[j],
                ) by {
                    if i < pos && j == pos {
                    } else if i < pos && j > pos {
                        assert(old_view[i] == new_view[i]);
                        assert(old_view[j - 1] == new_view[j]);
                        if i < j - 1 {
                            assert(parts_lt(old_view[i], old_view[j - 1]));
                        }
                    } else if i == pos {
                        assert(new_view[j] == old_view[j - 1]);
                        if j - 1 > pos {
                            assert(parts_lt(old_view[pos as int], old_view[j - 1]));
                            lemma_parts_lt_transitive(path, old_view[pos as int], old_view[j - 1]);
                        }
                    } else if i > pos {
                        assert(parts_lt(old_view[i - 1], old_view[j - 1]));
                    } else {
                        assert(parts_lt(old_view[i], old_view[j]));
                    }
                }
                let taken = parts_view(paths@).take(k as int);
                assert forall|p: Seq<Seq<char>>| new_view.contains(p) <==> parts_view(paths@).take(k + 1).contains(
                    p,
                ) by {
                    let in_new = new_view.contains(p);
                    let in_old = old_view.contains(p);
                    if in_new {
                        let w = choose|w: int| 0 <= w < new_view.len() && new_view[w] == p;
                        if w < pos {
                            assert(old_view[w] == p);
                            assert(in_old);
                        } else if w > pos {
                            assert(old_view[w - 1] == p);
                            assert(in_old);
                        } else {
                            assert(p == path);
                        }
                    }
                    if in_old {
                        let w = choose|w: int| 0 <= w < old_view.len() && old_view[w] == p;
                        if w < pos {
                            assert(new_view[w] == p);
                        } else {
                            assert(new_view[w + 1] == p);
                        }
                    }
                    if p == path {
                        assert(new_view[pos as int] == p);
                        assert(taken.push(path)[k as int] == p);
                    }
                    if taken.push(path).contains(p) {
                        let w = choose|w: int| 0 <= w < taken.len() + 1 && taken.push(path)[w] == p;
                        if w < taken.len() {
                            assert(taken[w] == p);
                            assert(taken.contains(p));
                        }
                    }
                    if taken.contains(p) {
                        let w = choose|w: int| 0 <= w < taken.len() && taken[w] == p;
                        assert(taken.push(path)[w] == p);
                    }
                    assert(in_new == (in_old || p == path));
                    assert(taken.push(path).contains(p) == (taken.contains(p) || p == path));
                }
            }
        } else {
            proof {
                assert(old_view[pos as int] == path);
                assert forall|p: Seq<Seq<char>>| old_view.contains(p) <==> parts_view(paths@).take(k + 1).contains(
                    p,
                ) by {
                    if p == path {
                        assert(old_view.contains(p));
                    }
                    let taken = parts_view(paths@).take(k as int);
                    if taken.push(path).contains(p) {
                        let w = choose|w: int| 0 <= w < taken.len() + 1 && taken.push(path)[w] == p;
                        if w < taken.len() {
                            assert(taken[w] == p);
                            assert(taken.contains(p));
                        }
                    }
                    if taken.contains(p) {
                        let w = choose|w: int| 0 <= w < taken.len() && taken[w] == p;
                        assert(taken.push(path)[w] == p);
                    }
                }
            }
        }
        k = k + 1;
    }
    assert(parts_view(paths@).take(paths@.len() as int) =~= parts_view(paths@));
    sorted
}

/// A copy of a path.
fn clone_parts(path: &Vec<String>) -> (copy: Vec<String>)
    ensures
        roots_view(copy@) == roots_view(path@),
{
    let mut copy: Vec<String> = Vec::new();
    let mut i: usize = 0;
    while i < path.len()
        invariant
            0 <= i <= path@.len(),
            copy@.len() == i,
            forall|j: int| 0 <= j < i ==> (#[trigger] copy@[j])@ == path@[j]@,
        decreases path@.len() - i,
    {
        copy.push(string_of(path[i].as_str()));
        i = i + 1;
    }
    assert(roots_view(copy@) =~= roots_view(path@));
    copy
}

/// Whether a path names a Rust source file.
pub fn is_rust_file(path: &Vec<String>) -> (result: bool)
    ensures
        result == is_rust_path(roots_view(path@)),
{
    if path.len() == 0 {
        return false;
    }
    let name = chars_of(path[path.len() - 1].as_str());
    proof {
        reveal_strlit(".rs");
    }
    if name.len() < 4 {
        return false;
    }
    let n = name.len();
    let result = name[n - 3] == '.' && name[n - 2] == 'r' && name[n - 1] == 's';
    proof {
        let tail = name@.skip(n - 3);
        if result {
            assert(tail =~= ".rs"@);
        } else {
            assert(tail[0] != '.' || tail[1] != 'r' || tail[2] != 's');
        }
    }
    result
}

/// Whether a path's last component is `.git`.
fn is_named_git(path: &Vec<String>) -> (result: bool)
    ensures
        result == named_git(roots_view(path@)),
{
    proof {
        reveal_strlit(".git");
    }
    path.len() > 0 && str_eq(path[path.len() - 1].as_str(), ".git")
}

pub struct PackageView {
    pub name: Seq<char>,
    pub root: Seq<char>,
}

/// A workspace member: its name and the directory of its manifest.
pub struct PackageRoot {
    pub name: String,
    pub root: String,
}

impl PackageRoot {
    pub open spec fn view(&self) -> PackageView {
        PackageView { name: self.name@, root: self.root@ }
    }

    pub fn clone_root(&self) -> (copy: Self)
        ensures
            copy.view() == self.view(),
    {
        PackageRoot { name: self.name.clone(), root: self.root.clone() }
    }
}

pub open spec fn packages_view(packages: Seq<PackageRoot>) -> Seq<PackageView> {
    packages.map_values(|p: PackageRoot| p.view())
}

pub open spec fn roots_view(roots: Seq<String>) -> Seq<Seq<char>> {
    roots.map_values(|r: String| r@)
}

/// Why a requested package cannot be selected.
#[derive(Debug, PartialEq, Eq)]
pub enum ProjectError {
    NotAMember { name: String },
    Ambiguous { name: String },
}

pub enum ProjectErrorView {
    NotAMember { name: Seq<char> },
    Ambiguous { name: Seq<char> },
}

/// The sentence that describes an error.
pub open spec fn project_error_message(error: ProjectErrorView) -> Seq<char> {
    match error {
        ProjectErrorView::NotAMember { name } => "package `"@ + name + "` is not a workspace member"@,
        ProjectErrorView::Ambiguous { name } => "package name `"@ + name
            + "` is ambiguous in this workspace"@,
    }
}

impl ProjectError {
    pub open spec fn view(&self) -> ProjectErrorView {
        match self {
            ProjectError::NotAMember { name } => ProjectErrorView::NotAMember { name: name@ },
            ProjectError::Ambiguous { name } => ProjectErrorView::Ambiguous { name: name@ },
        }
    }

    /// The error as a sentence.
    pub fn message(&self) -> (message: String)
        ensures
            message@ == project_error_message(self.view()),
    {
        let mut m = String::new();
        match self {
            ProjectError::NotAMember { name } => {
                push_str(&mut m, "package `");
                push_str(&mut m, name.as_str());
                push_str(&mut m, "` is not a workspace member");
            },
            ProjectError::Ambiguous { name } => {
                push_str(&mut m, "package name `");
                push_str(&mut m, name.as_str());
                push_str(&mut m, "` is ambiguous in this workspace");
            },
        }
        proof {
            let e = Seq::<char>::empty();
            assert forall|a: Seq<char>| e + a =~= a by {}
        }
        m
    }
}

/// How many packages have the name.
pub open spec fn count_named(packages: Seq<PackageView>, name: Seq<char>) -> nat
    decreases packages.len(),
{
    if packages.len() == 0 {
        0
    } else {
        count_named(packages.drop_last(), name) + if packages.last().name == name {
            1nat
        } else {
            0nat
        }
    }
}

/// The package with the name: an error where none or several have it.
pub open spec fn lookup(packages: Seq<PackageView>, name: Seq<char>) -> Result<PackageView, ProjectErrorView> {
    let count = count_named(packages, name);
    if count == 0 {
        Err(ProjectErrorView::NotAMember { name })
    } else if count > 1 {
        Err(ProjectErrorView::Ambiguous { name })
    } else {
        Ok(packages[choose|i: int| 0 <= i < packages.len() && packages[i].name == name])
    }
}

/// The packages with the names, in their order; the error of the first name that does
/// not name exactly one package.
pub open spec fn selection(packages: Seq<PackageView>, names: Seq<Seq<char>>) -> Result<Seq<PackageView>, ProjectErrorView>
    decreases names.len(),
{
    if names.len() == 0 {
        Ok(Seq::empty())
    } else {
        match selection(packages, names.drop_last()) {
            Err(error) => Err(error),
            Ok(selected) => match lookup(packages, names.last()) {
                Err(error) => Err(error),
                Ok(package) => Ok(selected.push(package)),
            },
        }
    }
}

/// The packages requested by name, or all of them where no name is given.
pub open spec fn selected(packages: Seq<PackageView>, names: Seq<Seq<char>>) -> Result<Seq<PackageView>, ProjectErrorView> {
    if names.len() == 0 {
        Ok(packages)
    } else {
        selection(packages, names)
    }
}

pub open spec fn names_view(names: Seq<String>) -> Seq<Seq<char>> {
    names.map_values(|n: String| n@)
}

/// A Cargo workspace as the checker needs it.
pub struct Workspace {
    pub root: String,
    pub target_directory: String,
    pub packages: Vec<PackageRoot>,
}

/// The files to enumerate: the selected packages, Cargo's target directory, and the
/// roots of all workspace members, where another package's files begin.
pub struct SourceSet {
    pub packages: Vec<PackageRoot>,
    pub target_directory: String,
    pub workspace_package_roots: Vec<String>,
}

/// The part of a workspace selected for checking.
pub struct Project {
    pub workspace_root: String,
    pub sources: SourceSet,
}

impl Workspace {
    /// The member with the requested name: an error where none or several have it.
    pub fn package_named(&self, requested: &str) -> (package: Result<&PackageRoot, ProjectError>)
        ensures
            match package {
                Ok(p) => lookup(packages_view(self.packages@), requested@) == Ok::<PackageView, ProjectErrorView>(p.view()),
                Err(e) => lookup(packages_view(self.packages@), requested@) == Err::<PackageView, ProjectErrorView>(e.view()),
            },
    {
        let ghost all = packages_view(self.packages@);
        let mut found: Option<usize> = None;
        let mut i: usize = 0;
        while i < self.packages.len()
            invariant
                all == packages_view(self.packages@),
                0 <= i <= all.len(),
                match found {
                    None => count_named(all.take(i as int), requested@) == 0,
                    Some(k) => count_named(all.take(i as int), requested@) == 1 && k < i && all[k as int].name
                        == requested@,
                },
            decreases all.len() - i,
        {
            assert(all.take(i + 1).drop_last() =~= all.take(i as int));
            assert(all[i as int] == self.packages@[i as int].view());
            if str_eq(self.packages[i].name.as_str(), requested) {
                if found.is_some() {
                    proof {
                        lemma_count_named_prefix(all, requested@, i + 1);
                    }
                    let mut name = String::new();
                    push_str(&mut name, requested);
                    return Err(ProjectError::Ambiguous { name });
                }
                found = Some(i);
            }
            i = i + 1;
        }
        assert(all.take(i as int) =~= all);
        match found {
            None => {
                let mut name = String::new();
                push_str(&mut name, requested);
                Err(ProjectError::NotAMember { name })
            },
            Some(k) => {
                proof {
                    lemma_single_named(all, requested@, k as int);
                }
                assert(all[k as int] == self.packages@[k as int].view());
                Ok(&self.packages[k])
            },
        }
    }

    /// The requested members in the order requested, or every member where none is
    /// requested.
    pub fn selected_packages(&self, requested_names: &Vec<String>) -> (packages: Result<Vec<PackageRoot>, ProjectError>)
        ensures
            match packages {
                Ok(p) => selected(packages_view(self.packages@), names_view(requested_names@)) == Ok::<
                    Seq<PackageView>,
                    ProjectErrorView,
                >(packages_view(p@)),
                Err(e) => selected(packages_view(self.packages@), names_view(requested_names@)) == Err::<
                    Seq<PackageView>,
                    ProjectErrorView,
                >(e.view()),
            },
    {
        let ghost all = packages_view(self.packages@);
        let ghost names = names_view(requested_names@);
        if requested_names.len() == 0 {
            return Ok(clone_roots(&self.packages));
        }
        let mut chosen: Vec<PackageRoot> = Vec::new();
        let mut i: usize = 0;
        assert(names.take(0) =~= Seq::<Seq<char>>::empty());
        assert(packages_view(chosen@) =~= Seq::<PackageView>::empty());
        while i < requested_names.len()
            invariant
                all == packages_view(self.packages@),
                names == names_view(requested_names@),
                0 <= i <= names.len(),
                selection(all, names.take(i as int)) == Ok::<Seq<PackageView>, ProjectErrorView>(packages_view(chosen@)),
            decreases names.len() - i,
        {
            assert(names.take(i + 1).drop_last() =~= names.take(i as int));
            assert(names.take(i + 1).last() == requested_names@[i as int]@);
            match self.package_named(requested_names[i].as_str()) {
                Ok(package) => {
                    let ghost before = packages_view(chosen@);
                    chosen.push(package.clone_root());
                    assert(packages_view(chosen@) =~= before.push(package.view()));
                },
                Err(error) => {
                    proof {
                        lemma_selection_error(all, names, i as int + 1);
                    }
                    return Err(error);
                },
            }
            i = i + 1;
        }
        assert(names.take(i as int) =~= names);
        Ok(chosen)
    }

    /// The project of the requested members: the workspace root, the selected
    /// packages, the target directory and every member's root.
    pub fn select(self, requested_names: &Vec<String>) -> (project: Result<Project, ProjectError>)
        ensures
            match project {
                Ok(p) => {
                    &&& selected(packages_view(self.packages@), names_view(requested_names@)) == Ok::<
                        Seq<PackageView>,
                        ProjectErrorView,
                    >(packages_view(p.sources.packages@))
                    &&& p.workspace_root@ == self.root@
                    &&& p.sources.target_directory@ == self.target_directory@
                    &&& roots_view(p.sources.workspace_package_roots@) == packages_view(self.packages@).map_values(
                        |package: PackageView| package.root,
                    )
                },
                Err(e) => selected(packages_view(self.packages@), names_view(requested_names@)) == Err::<
                    Seq<PackageView>,
                    ProjectErrorView,
                >(e.view()),
            },
    {
        let selected_packages = match self.selected_packages(requested_names) {
            Ok(selected_packages) => selected_packages,
            Err(error) => return Err(error),
        };
        let ghost all = packages_view(self.packages@);
        let mut roots: Vec<String> = Vec::new();
        let mut i: usize = 0;
        while i < self.packages.len()
            invariant
                all == packages_view(self.packages@),
                0 <= i <= all.len(),
                roots_view(roots@) == all.map_values(|package: PackageView| package.root).take(i as int),
            decreases all.len() - i,
        {
            assert(all[i as int] == self.packages@[i as int].view());
            let ghost before = roots_view(roots@);
            roots.push(self.packages[i].root.clone());
            assert(roots_view(roots@) =~= before.push(all[i as int].root));
            assert(all.map_values(|package: PackageView| package.root).take(i + 1) =~= all.map_values(
                |package: PackageView| package.root,
            ).take(i as int).push(all[i as int].root));
            i = i + 1;
        }
        assert(all.map_values(|package: PackageView| package.root).take(i as int) =~= all.map_values(
            |package: PackageView| package.root,
        ));
        Ok(Project {
            workspace_root: self.root,
            sources: SourceSet {
                packages: selected_packages,
                target_directory: self.target_directory,
                workspace_package_roots: roots,
            },
        })
    }
}

/// Copies of the packages.
fn clone_roots(packages: &Vec<PackageRoot>) -> (copy: Vec<PackageRoot>)
    ensures
        packages_view(copy@) == packages_view(packages@),
{
    let mut copy: Vec<PackageRoot> = Vec::new();
    let mut i: usize = 0;
    while i < packages.len()
        invariant
            0 <= i <= packages@.len(),
            packages_view(copy@) == packages_view(packages@).take(i as int),
        decreases packages@.len() - i,
    {
        let ghost before = packages_view(copy@);
        copy.push(packages[i].clone_root());
        assert(packages_view(copy@) =~= before.push(packages@[i as int].view()));
        assert(packages_view(packages@).take(i + 1) =~= packages_view(packages@).take(i as int).push(
            packages@[i as int].view(),
        ));
        i = i + 1;
    }
    assert(packages_view(packages@).take(i as int) =~= packages_view(packages@));
    copy
}

/// A prefix has no more packages of a name than the whole list.
proof fn lemma_count_named_prefix(packages: Seq<PackageView>, name: Seq<char>, n: int)
    requires
        0 <= n <= packages.len(),
    ensures
        count_named(packages.take(n), name) <= count_named(packages, name),
    decreases packages.len() - n,
{
    if n < packages.len() {
        lemma_count_named_prefix(packages, name, n + 1);
        assert(packages.take(n + 1).drop_last() =~= packages.take(n));
    } else {
        assert(packages.take(n) =~= packages);
    }
}

/// Where exactly one package has the name, `choose` picks the one at `k`.
proof fn lemma_single_named(packages: Seq<PackageView>, name: Seq<char>, k: int)
    requires
        count_named(packages, name) == 1,
        0 <= k < packages.len(),
        packages[k].name == name,
    ensures
        lookup(packages, name) == Ok::<PackageView, ProjectErrorView>(packages[k]),
{
    let i = choose|i: int| 0 <= i < packages.len() && packages[i].name == name;
    if i != k {
        lemma_two_named(packages, name, i, k);
    }
}

/// Two packages of one name count twice.
proof fn lemma_two_named(packages: Seq<PackageView>, name: Seq<char>, a: int, b: int)
    requires
        0 <= a < packages.len(),
        0 <= b < packages.len(),
        a != b,
        packages[a].name == name,
        packages[b].name == name,
    ensures
        count_named(packages, name) >= 2,
    decreases packages.len(),
{
    let last = packages.len() - 1;
    let rest = packages.drop_last();
    if a == last {
        assert(rest[b] == packages[b]);
        lemma_one_named(rest, name, b);
    } else if b == last {
        assert(rest[a] == packages[a]);
        lemma_one_named(rest, name, a);
    } else {
        assert(rest[a] == packages[a] && rest[b] == packages[b]);
        lemma_two_named(rest, name, a, b);
    }
}

/// A package of the name counts once.
proof fn lemma_one_named(packages: Seq<PackageView>, name: Seq<char>, a: int)
    requires
        0 <= a < packages.len(),
        packages[a].name == name,
    ensures
        count_named(packages, name) >= 1,
    decreases packages.len(),
{
    if a < packages.len() - 1 {
        assert(packages.drop_last()[a] == packages[a]);
        lemma_one_named(packages.drop_last(), name, a);
    }
}

/// An error for a prefix of the names is the error for all of them.
proof fn lemma_selection_error(packages: Seq<PackageView>, names: Seq<Seq<char>>, n: int)
    requires
        0 < n <= names.len(),
        selection(packages, names.take(n)) is Err,
    ensures
        selection(packages, names) == selection(packages, names.take(n)),
    decreases names.len() - n,
{
    if n < names.len() {
        assert(names.take(n + 1).drop_last() =~= names.take(n));
        lemma_selection_error(packages, names, n + 1);
    } else {
        assert(names.take(n) =~= names);
    }
}

impl Project {
    /// Selects the requested members of a loaded workspace.
    pub fn discover(workspace: Workspace, package_names: &Vec<String>) -> (project: Result<Project, ProjectError>)
        ensures
            match project {
                Ok(p) => selected(packages_view(workspace.packages@), names_view(package_names@)) == Ok::<
                    Seq<PackageView>,
                    ProjectErrorView,
                >(packages_view(p.sources.packages@)) && p.workspace_root@ == workspace.root@,
                Err(e) => selected(packages_view(workspace.packages@), names_view(package_names@)) == Err::<
                    Seq<PackageView>,
                    ProjectErrorView,
                >(e.view()),
            },
    {
        workspace.select(package_names)
    }

    pub fn workspace_root(&self) -> (root: &String)
        ensures
            root@ == self.workspace_root@,
    {
        &self.workspace_root
    }
}

/// Which paths a walk of a package's directory enters, each path given by its
/// components.
pub struct TraversalRules<'a> {
    pub target_directory: &'a Vec<String>,
    pub workspace_package_roots: &'a Vec<Vec<String>>,
}

/// A walk enters a path unless it lies in the target directory or is named `.git`,
/// and, but for the package's own root, unless it is another member's root.
pub open spec fn visits(
    path: Seq<Seq<char>>,
    package_root: Seq<Seq<char>>,
    target_directory: Seq<Seq<char>>,
    roots: Seq<Seq<Seq<char>>>,
) -> bool {
    &&& !starts_with_parts(path, target_directory)
    &&& !named_git(path)
    &&& (path == package_root || forall|i: int| 0 <= i < roots.len() ==> path != #[trigger] roots[i])
}

impl<'a> TraversalRules<'a> {
    /// Whether a walk of `package_root` enters `path`.
    pub fn should_visit_path(&self, path: &Vec<String>, package_root: &Vec<String>) -> (result: bool)
        ensures
            result == visits(
                roots_view(path@),
                roots_view(package_root@),
                roots_view(self.target_directory@),
                parts_view(self.workspace_package_roots@),
            ),
    {
        if starts_with(path, self.target_directory) || is_named_git(path) {
            return false;
        }
        if same_parts(path, package_root) {
            return true;
        }
        let ghost roots = parts_view(self.workspace_package_roots@);
        let mut i: usize = 0;
        while i < self.workspace_package_roots.len()
            invariant
                roots == parts_view(self.workspace_package_roots@),
                0 <= i <= roots.len(),
                roots_view(path@) != roots_view(package_root@),
                !starts_with_parts(roots_view(path@), roots_view(self.target_directory@)),
                !named_git(roots_view(path@)),
                forall|j: int| 0 <= j < i ==> roots_view(path@) != #[trigger] roots[j],
            decreases roots.len() - i,
        {
            assert(roots[i as int] == roots_view(self.workspace_package_roots@[i as int]@));
            if same_parts(path, &self.workspace_package_roots[i]) {
                return false;
            }
            i = i + 1;
        }
        true
    }
}

/// A path given to limit checking: a file, or a directory whose files it selects; its
/// text, for messages, and its components.
pub struct PathSelection {
    pub path: String,
    pub parts: Vec<String>,
    pub is_directory: bool,
}

pub struct PathSelectionView {
    pub path: Seq<char>,
    pub parts: Seq<Seq<char>>,
    pub is_directory: bool,
}

impl PathSelection {
    pub open spec fn view(&self) -> PathSelectionView {
        PathSelectionView { path: self.path@, parts: roots_view(self.parts@), is_directory: self.is_directory }
    }
}

pub open spec fn selections_view(selections: Seq<PathSelection>) -> Seq<PathSelectionView> {
    selections.map_values(|s: PathSelection| s.view())
}

/// Why a path selection cannot be honoured.
#[derive(Debug, PartialEq, Eq)]
pub enum SelectionError {
    NotRustFile { path: String },
    NoRustFiles { path: String },
}

pub enum SelectionErrorView {
    NotRustFile { path: Seq<char> },
    NoRustFiles { path: Seq<char> },
}

/// The sentence that describes an error.
pub open spec fn selection_error_message(error: SelectionErrorView) -> Seq<char> {
    match error {
        SelectionErrorView::NotRustFile { path } => "path `"@ + path + "` is not a Rust file"@,
        SelectionErrorView::NoRustFiles { path } => "path `"@ + path
            + "` contains no Rust files from the selected packages"@,
    }
}

impl SelectionError {
    pub open spec fn view(&self) -> SelectionErrorView {
        match self {
            SelectionError::NotRustFile { path } => SelectionErrorView::NotRustFile { path: path@ },
            SelectionError::NoRustFiles { path } => SelectionErrorView::NoRustFiles { path: path@ },
        }
    }

    /// The error as a sentence.
    pub fn message(&self) -> (message: String)
        ensures
            message@ == selection_error_message(self.view()),
    {
        let mut m = String::new();
        match self {
            SelectionError::NotRustFile { path } => {
                push_str(&mut m, "path `");
                push_str(&mut m, path.as_str());
                push_str(&mut m, "` is not a Rust file");
            },
            SelectionError::NoRustFiles { path } => {
                push_str(&mut m, "path `");
                push_str(&mut m, path.as_str());
                push_str(&mut m, "` contains no Rust files from the selected packages");
            },
        }
        proof {
            let e = Seq::<char>::empty();
            assert forall|a: Seq<char>| e + a =~= a by {}
        }
        m
    }
}

/// A selection selects a file: the file itself, or any file beneath the directory.
pub open spec fn selects(selection: PathSelectionView, file: Seq<Seq<char>>) -> bool {
    if selection.is_directory {
        starts_with_parts(file, selection.parts)
    } else {
        file == selection.parts
    }
}

/// What is wrong with a selection, given the packages' Rust files: a file that is not
/// Rust, or a path that selects none of them.
pub open spec fn selection_problem(files: Seq<Seq<Seq<char>>>, selection: PathSelectionView) -> Option<SelectionErrorView> {
    if !selection.is_directory && !is_rust_path(selection.parts) {
        Some(SelectionErrorView::NotRustFile { path: selection.path })
    } else if !(exists|k: int| 0 <= k < files.len() && #[trigger] selects(selection, files[k])) {
        Some(SelectionErrorView::NoRustFiles { path: selection.path })
    } else {
        None
    }
}

/// The problem of the first of selections `i..` that has one.
pub open spec fn first_problem(files: Seq<Seq<Seq<char>>>, selections: Seq<PathSelectionView>, i: int) -> Option<SelectionErrorView>
    decreases selections.len() - i,
{
    if i < 0 || i >= selections.len() {
        None
    } else {
        match selection_problem(files, selections[i]) {
            Some(error) => Some(error),
            None => first_problem(files, selections, i + 1),
        }
    }
}

/// A file is kept: some selection selects it, where there are selections, and it is
/// among the changed files, where those are given.
pub open spec fn keeps(
    selections: Seq<PathSelectionView>,
    changed: Option<Seq<Seq<Seq<char>>>>,
    file: Seq<Seq<char>>,
) -> bool {
    &&& (selections.len() == 0 || exists|i: int| 0 <= i < selections.len() && #[trigger] selects(selections[i], file))
    &&& match changed {
        None => true,
        Some(paths) => exists|j: int| 0 <= j < paths.len() && file == #[trigger] paths[j],
    }
}

/// The indices of the files kept, in order.
pub open spec fn kept_files(
    files: Seq<Seq<Seq<char>>>,
    selections: Seq<PathSelectionView>,
    changed: Option<Seq<Seq<Seq<char>>>>,
) -> Seq<usize>
    decreases files.len(),
{
    if files.len() == 0 {
        Seq::empty()
    } else {
        let before = kept_files(files.drop_last(), selections, changed);
        if keeps(selections, changed, files.last()) {
            before.push((files.len() - 1) as usize)
        } else {
            before
        }
    }
}

/// The selection reaches one of the files: a directory some file under it, a file that
/// very file.
pub open spec fn reaches_some_file(files: Seq<Seq<Seq<char>>>, selection: PathSelectionView) -> bool {
    if selection.is_directory {
        exists|k: int| 0 <= k < files.len() && starts_with_parts(#[trigger] files[k], selection.parts)
    } else {
        exists|k: int| 0 <= k < files.len() && #[trigger] files[k] == selection.parts
    }
}

/// Selections `i..` are accepted exactly when each names a directory or a Rust file and
/// reaches one of the files.
proof fn lemma_first_problem_none_from(files: Seq<Seq<Seq<char>>>, selections: Seq<PathSelectionView>, i: int)
    requires
        0 <= i <= selections.len(),
    ensures
        first_problem(files, selections, i) is None <==> forall|j: int|
            i <= j < selections.len() ==> (selections[j].is_directory || is_rust_path(selections[j].parts))
                && reaches_some_file(files, #[trigger] selections[j]),
    decreases selections.len() - i,
{
    if i < selections.len() {
        lemma_first_problem_none_from(files, selections, i + 1);
        let s = selections[i];
        if exists|k: int| 0 <= k < files.len() && #[trigger] selects(s, files[k]) {
            let k = choose|k: int| 0 <= k < files.len() && #[trigger] selects(s, files[k]);
            assert(reaches_some_file(files, s));
        }
        if reaches_some_file(files, s) {
            if s.is_directory {
                let k = choose|k: int| 0 <= k < files.len() && starts_with_parts(#[trigger] files[k], s.parts);
                assert(selects(s, files[k]));
            } else {
                let k = choose|k: int| 0 <= k < files.len() && #[trigger] files[k] == s.parts;
                assert(selects(s, files[k]));
            }
        }
    }
}

/// The selections are accepted exactly when each of them, file or directory, names a
/// directory or a Rust file and reaches at least one of the packages' Rust files; an
/// accepted selection that reaches none does not exist.
pub proof fn lemma_selections_accepted_iff_each_reaches_a_file(
    files: Seq<Seq<Seq<char>>>,
    selections: Seq<PathSelectionView>,
)
    ensures
        first_problem(files, selections, 0) is None <==> forall|j: int|
            0 <= j < selections.len() ==> (selections[j].is_directory || is_rust_path(selections[j].parts))
                && reaches_some_file(files, #[trigger] selections[j]),
{
    lemma_first_problem_none_from(files, selections, 0);
}

/// Whether some selection selects the file.
fn selected_by_any(selections: &Vec<PathSelection>, file: &Vec<String>) -> (result: bool)
    ensures
        result == exists|i: int|
            0 <= i < selections@.len() && #[trigger] selects(selections_view(selections@)[i], roots_view(file@)),
{
    let ghost all = selections_view(selections@);
    let mut i: usize = 0;
    while i < selections.len()
        invariant
            all == selections_view(selections@),
            0 <= i <= all.len(),
            forall|j: int| 0 <= j < i ==> !#[trigger] selects(all[j], roots_view(file@)),
        decreases all.len() - i,
    {
        assert(all[i as int] == selections@[i as int].view());
        if selects_file(&selections[i], file) {
            return true;
        }
        i = i + 1;
    }
    false
}

/// Whether the selection selects the file.
fn selects_file(selection: &PathSelection, file: &Vec<String>) -> (result: bool)
    ensures
        result == selects(selection.view(), roots_view(file@)),
{
    if selection.is_directory {
        starts_with(file, &selection.parts)
    } else {
        same_parts(file, &selection.parts)
    }
}

/// Whether the file is among the paths.
fn among(paths: &Vec<Vec<String>>, file: &Vec<String>) -> (result: bool)
    ensures
        result == exists|j: int| 0 <= j < paths@.len() && roots_view(file@) == #[trigger] parts_view(paths@)[j],
{
    let ghost all = parts_view(paths@);
    let mut j: usize = 0;
    while j < paths.len()
        invariant
            all == parts_view(paths@),
            0 <= j <= all.len(),
            forall|k: int| 0 <= k < j ==> roots_view(file@) != #[trigger] all[k],
        decreases all.len() - j,
    {
        assert(all[j as int] == roots_view(paths@[j as int]@));
        if same_parts(file, &paths[j]) {
            return true;
        }
        j = j + 1;
    }
    false
}

pub open spec fn changed_view(changed: Option<Vec<Vec<String>>>) -> Option<Seq<Seq<Seq<char>>>> {
    match changed {
        Some(paths) => Some(parts_view(paths@)),
        None => None,
    }
}

/// Narrows the packages' Rust files to those the path selections select, where there
/// are any, and to the changed files, where those are given; the result lists the
/// indices of the files kept. A selection that names a file other than a Rust file, or
/// that selects none of the files, is an error.
pub fn select_files(files: &Vec<Vec<String>>, selections: &Vec<PathSelection>, changed: &Option<Vec<Vec<String>>>) -> (result: Result<Vec<usize>, SelectionError>)
    ensures
        match result {
            Ok(kept) => first_problem(parts_view(files@), selections_view(selections@), 0) is None
                && kept@ == kept_files(parts_view(files@), selections_view(selections@), changed_view(*changed)),
            Err(e) => first_problem(parts_view(files@), selections_view(selections@), 0) == Some(e.view()),
        },
{
    let ghost all = parts_view(files@);
    let ghost chosen = selections_view(selections@);
    let mut i: usize = 0;
    while i < selections.len()
        invariant
            all == parts_view(files@),
            chosen == selections_view(selections@),
            0 <= i <= chosen.len(),
            first_problem(all, chosen, 0) == first_problem(all, chosen, i as int),
        decreases chosen.len() - i,
    {
        let selection = &selections[i];
        assert(chosen[i as int] == selection.view());
        if !selection.is_directory && !is_rust_file(&selection.parts) {
            return Err(SelectionError::NotRustFile { path: selection.path.clone() });
        }
        let mut found = false;
        let mut k: usize = 0;
        while k < files.len() && !found
            invariant
                all == parts_view(files@),
                0 <= k <= all.len(),
                found ==> exists|m: int| 0 <= m < all.len() && #[trigger] selects(selection.view(), all[m]),
                !found ==> forall|m: int| 0 <= m < k ==> !#[trigger] selects(selection.view(), all[m]),
            decreases all.len() - k,
        {
            assert(all[k as int] == roots_view(files@[k as int]@));
            if selects_file(selection, &files[k]) {
                found = true;
            }
            k = k + 1;
        }
        if !found {
            return Err(SelectionError::NoRustFiles { path: selection.path.clone() });
        }
        i = i + 1;
    }
    let ghost wanted = changed_view(*changed);
    let mut kept: Vec<usize> = Vec::new();
    let mut k: usize = 0;
    while k < files.len()
        invariant
            all == parts_view(files@),
            chosen == selections_view(selections@),
            wanted == changed_view(*changed),
            0 <= k <= all.len(),
            kept@ == kept_files(all.take(k as int), chosen, wanted),
        decreases all.len() - k,
    {
        let file = &files[k];
        assert(all[k as int] == roots_view(file@));
        assert(all.take(k + 1).drop_last() =~= all.take(k as int));
        assert(all.take(k + 1).last() == roots_view(file@));
        let in_selection = selections.len() == 0 || selected_by_any(selections, file);
        let in_changed = match changed {
            None => true,
            Some(paths) => {
                let found = among(paths, file);
                assert(wanted == Some(parts_view(paths@)));
                assert(found == exists|j: int| 0 <= j < parts_view(paths@).len() && roots_view(file@) == #[trigger] parts_view(paths@)[j]);
                found
            },
        };
        assert(in_selection == (chosen.len() == 0 || exists|i: int| 0 <= i < chosen.len() && #[trigger] selects(chosen[i], roots_view(file@))));
        assert(in_changed == match wanted {
            None => true,
            Some(paths) => exists|j: int| 0 <= j < paths.len() && roots_view(file@) == #[trigger] paths[j],
        });
        assert(keeps(chosen, wanted, roots_view(file@)) == (in_selection && in_changed));
        if in_selection && in_changed {
            kept.push(k);
        }
        k = k + 1;
    }
    assert(all.take(k as int) =~= all);
    Ok(kept)
}

/// A selection by names lists, for each requested name in order, the one package of
/// that name.
pub proof fn lemma_selection_matches_names(packages: Seq<PackageView>, names: Seq<Seq<char>>)
    requires
        selection(packages, names) is Ok,
    ensures
        ({
            let chosen = selection(packages, names)->Ok_0;
            &&& chosen.len() == names.len()
            &&& forall|i: int| 0 <= i < names.len() ==> #[trigger] chosen[i].name == names[i]
                && count_named(packages, names[i]) == 1 && packages.contains(chosen[i])
        }),
    decreases names.len(),
{
    if names.len() > 0 {
        let prefix = names.drop_last();
        lemma_selection_matches_names(packages, prefix);
        let name = names.last();
        let i = choose|i: int| 0 <= i < packages.len() && packages[i].name == name;
        lemma_one_named_exists(packages, name);
        let chosen = selection(packages, names)->Ok_0;
        let before = selection(packages, prefix)->Ok_0;
        assert forall|k: int| 0 <= k < names.len() implies #[trigger] chosen[k].name == names[k]
            && count_named(packages, names[k]) == 1 && packages.contains(chosen[k]) by {
            if k < names.len() - 1 {
                assert(chosen[k] == before[k] && names[k] == prefix[k]);
            } else {
                assert(chosen[k] == packages[i]);
            }
        }
    }
}

/// A name that one package has is had by some package.
proof fn lemma_one_named_exists(packages: Seq<PackageView>, name: Seq<char>)
    requires
        count_named(packages, name) >= 1,
    ensures
        exists|i: int| 0 <= i < packages.len() && packages[i].name == name,
    decreases packages.len(),
{
    if packages.last().name == name {
        assert(packages[packages.len() - 1].name == name);
    } else {
        lemma_one_named_exists(packages.drop_last(), name);
        let i = choose|i: int| 0 <= i < packages.drop_last().len() && packages.drop_last()[i].name == name;
        assert(packages[i] == packages.drop_last()[i]);
    }
}

} // verus!
