//! The command line's options, as the command runs on them.
use vstd::prelude::*;

verus! {

/// The options of one run: which packages, manifest, paths and changes to check, and
/// whether to fix and to show absolute paths.
pub struct Cli {
    packages: Vec<String>,
    manifest_path: Option<String>,
    paths: Vec<String>,
    changed: bool,
    changed_since: Option<String>,
    fix: bool,
    verbose: bool,
}

impl Cli {
    pub closed spec fn spec_packages(&self) -> Seq<String> {
        self.packages@
    }

    pub closed spec fn spec_manifest_path(&self) -> Option<String> {
        self.manifest_path
    }

    pub closed spec fn spec_paths(&self) -> Seq<String> {
        self.paths@
    }

    pub closed spec fn spec_changed(&self) -> bool {
        self.changed
    }

    pub closed spec fn spec_changed_since(&self) -> Option<String> {
        self.changed_since
    }

    pub closed spec fn spec_fix(&self) -> bool {
        self.fix
    }

    pub closed spec fn spec_verbose(&self) -> bool {
        self.verbose
    }

    pub fn new(
        packages: Vec<String>,
        manifest_path: Option<String>,
        paths: Vec<String>,
        changed: bool,
        changed_since: Option<String>,
        fix: bool,
        verbose: bool,
    ) -> (cli: Self)
        ensures
            cli.spec_packages() == packages@,
            cli.spec_manifest_path() == manifest_path,
            cli.spec_paths() == paths@,
            cli.spec_changed() == changed,
            cli.spec_changed_since() == changed_since,
            cli.spec_fix() == fix,
            cli.spec_verbose() == verbose,
    {
        Cli { packages, manifest_path, paths, changed, changed_since, fix, verbose }
    }

    /// The packages to check; all workspace members where none is named.
    pub fn packages(&self) -> (packages: &Vec<String>)
        ensures
            packages@ == self.spec_packages(),
    {
        &self.packages
    }

    /// The manifest to read, where one is named.
    pub fn manifest_path(&self) -> (path: Option<&String>)
        ensures
            match path {
                Some(p) => self.spec_manifest_path() == Some(*p),
                None => self.spec_manifest_path() is None,
            },
    {
        match &self.manifest_path {
            Some(path) => Some(path),
            None => None,
        }
    }

    /// The files and directories that limit checking.
    pub fn paths(&self) -> (paths: &Vec<String>)
        ensures
            paths@ == self.spec_paths(),
    {
        &self.paths
    }

    /// Only files changed in the Git worktree or index are checked.
    pub fn changed(&self) -> (changed: bool)
        ensures
            changed == self.spec_changed(),
    {
        self.changed
    }

    /// The revision since which changed files are checked, where one is given.
    pub fn changed_since(&self) -> (revision: Option<&String>)
        ensures
            match revision {
                Some(r) => self.spec_changed_since() == Some(*r),
                None => self.spec_changed_since() is None,
            },
    {
        match &self.changed_since {
            Some(revision) => Some(revision),
            None => None,
        }
    }

    /// Files are rewritten before they are checked.
    pub fn fix(&self) -> (fix: bool)
        ensures
            fix == self.spec_fix(),
    {
        self.fix
    }

    /// Diagnostics show absolute paths.
    pub fn verbose(&self) -> (verbose: bool)
        ensures
            verbose == self.spec_verbose(),
    {
        self.verbose
    }
}

} // verus!
