//! Violations as the checker reports them: a file, a position and a kind.
use vstd::prelude::*;

use crate::rules;
use crate::source::Position;
use crate::text::{decimal, join, push_decimal, push_joined, push_str};

verus! {

/// The view of a kind of violation.
pub enum ViolationKindView {
    ItemOrder(rules::item_order::ViolationView),
    ErrorVariants(rules::error_variants::ViolationView),
}

/// The view of a violation.
pub struct ViolationView {
    pub path: Seq<char>,
    pub line: int,
    pub column: int,
    pub modules: Seq<Seq<char>>,
    pub kind: ViolationKindView,
}

#[derive(Debug, Clone, PartialEq, Eq)]
pub enum ViolationKind {
    ItemOrder(rules::item_order::Violation),
    ErrorVariants(rules::error_variants::Violation),
}

impl ViolationKind {
    pub open spec fn view(&self) -> ViolationKindView {
        match self {
            ViolationKind::ItemOrder(v) => ViolationKindView::ItemOrder(v.view()),
            ViolationKind::ErrorVariants(v) => ViolationKindView::ErrorVariants(v.view()),
        }
    }

    /// A copy of the kind.
    pub fn clone_kind(&self) -> (copy: Self)
        ensures
            copy.view() == self.view(),
    {
        match self {
            ViolationKind::ItemOrder(v) => ViolationKind::ItemOrder(v.clone_violation()),
            ViolationKind::ErrorVariants(v) => ViolationKind::ErrorVariants(v.clone_violation()),
        }
    }

    /// The kind as a sentence.
    pub fn message(&self) -> (message: String)
        ensures
            message@ == kind_message(self.view()),
    {
        match self {
            ViolationKind::ItemOrder(v) => v.message(),
            ViolationKind::ErrorVariants(v) => v.message(),
        }
    }
}

/// The sentence that describes a kind of violation.
pub open spec fn kind_message(kind: ViolationKindView) -> Seq<char> {
    match kind {
        ViolationKindView::ItemOrder(v) => rules::item_order::violation_message(v),
        ViolationKindView::ErrorVariants(v) => rules::error_variants::violation_message(v),
    }
}

/// The views of a list of names.
pub open spec fn names_view(names: Seq<String>) -> Seq<Seq<char>> {
    names.map_values(|name: String| name@)
}

/// The 1-based column of a 0-based one; `usize::MAX` stays.
pub open spec fn one_based(column: usize) -> int {
    if column == usize::MAX {
        usize::MAX as int
    } else {
        column + 1
    }
}

/// A violation found in a file.
#[derive(Debug, Clone, PartialEq, Eq)]
pub struct Violation {
    path: String,
    line: usize,
    column: usize,
    modules: Vec<String>,
    kind: ViolationKind,
}

/// The view of the violation that `Violation::at` makes.
pub open spec fn violation_at(
    path: Seq<char>,
    start: Position,
    modules: Seq<Seq<char>>,
    kind: ViolationKindView,
) -> ViolationView {
    ViolationView {
        path,
        line: start.line as int,
        column: one_based(start.column),
        modules,
        kind,
    }
}

/// A copy of a list of names.
pub fn clone_names(names: &Vec<String>) -> (copy: Vec<String>)
    ensures
        copy@ == names@,
{
    let copy = names.clone();
    assert forall|i: int| 0 <= i < names@.len() implies copy@[i] == names@[i] by {
        assert(cloned::<String>(names[i], copy[i]));
    }
    assert(copy@ =~= names@);
    copy
}

impl Violation {
    pub closed spec fn view(&self) -> ViolationView {
        ViolationView {
            path: self.path@,
            line: self.line as int,
            column: self.column as int,
            modules: names_view(self.modules@),
            kind: self.kind.view(),
        }
    }

    /// A violation whose position is the start of `start`, with a 1-based column.
    pub fn at(path: &String, start: Position, modules: &Vec<String>, kind: ViolationKind) -> (violation: Self)
        ensures
            violation.view() == violation_at(path@, start, names_view(modules@), kind.view()),
    {
        Violation {
            path: path.clone(),
            line: start.line,
            column: start.column.saturating_add(1),
            modules: clone_names(modules),
            kind,
        }
    }

    pub fn path(&self) -> (path: &String)
        ensures
            path@ == self.view().path,
    {
        &self.path
    }

    pub fn line(&self) -> (line: usize)
        ensures
            line == self.view().line,
    {
        self.line
    }

    pub fn column(&self) -> (column: usize)
        ensures
            column == self.view().column,
    {
        self.column
    }

    pub fn modules(&self) -> (modules: &Vec<String>)
        ensures
            names_view(modules@) == self.view().modules,
    {
        &self.modules
    }

    pub fn kind(&self) -> (kind: &ViolationKind)
        ensures
            kind.view() == self.view().kind,
    {
        &self.kind
    }

    /// A copy of the violation.
    pub fn clone_violation(&self) -> (copy: Self)
        ensures
            copy.view() == self.view(),
    {
        Violation {
            path: self.path.clone(),
            line: self.line,
            column: self.column,
            modules: clone_names(&self.modules),
            kind: self.kind.clone_kind(),
        }
    }

    /// The violation's message.
    pub fn to_string(&self) -> (message: String)
        ensures
            message@ == kind_message(self.view().kind),
    {
        self.kind.message()
    }
}

/// The lines that report a violation: `path:line:column: error: message`, then, where
/// it lies in an inline module, that module's path joined by `::`.
pub open spec fn report_lines_view(shown_path: Seq<char>, violation: ViolationView) -> Seq<Seq<char>> {
    let first = shown_path + ":"@ + decimal(violation.line as nat) + ":"@ + decimal(
        violation.column as nat,
    ) + ": error: "@ + kind_message(violation.kind);
    if violation.modules.len() == 0 {
        seq![first]
    } else {
        seq![first, "  module: "@ + join(violation.modules, "::"@)]
    }
}

pub open spec fn lines_view(lines: Seq<String>) -> Seq<Seq<char>> {
    lines.map_values(|line: String| line@)
}

impl Violation {
    /// The lines that report the violation, its file shown as `shown_path`.
    pub fn report_lines(&self, shown_path: &str) -> (lines: Vec<String>)
        ensures
            lines_view(lines@) == report_lines_view(shown_path@, self.view()),
    {
        let ghost v = self.view();
        let mut first = String::new();
        push_str(&mut first, shown_path);
        push_str(&mut first, ":");
        push_decimal(&mut first, self.line);
        push_str(&mut first, ":");
        push_decimal(&mut first, self.column);
        push_str(&mut first, ": error: ");
        let message = self.kind.message();
        push_str(&mut first, message.as_str());
        proof {
            reveal_strlit(":");
            reveal_strlit(": error: ");
            assert(first@ =~= shown_path@ + ":"@ + decimal(v.line as nat) + ":"@ + decimal(
                v.column as nat,
            ) + ": error: "@ + kind_message(v.kind));
        }
        let mut lines: Vec<String> = Vec::new();
        lines.push(first);
        if self.modules.len() > 0 {
            let mut second = String::new();
            push_str(&mut second, "  module: ");
            push_joined(&mut second, &self.modules, "::");
            proof {
                assert(self.modules@.map_values(|p: String| p@) =~= names_view(self.modules@));
                assert(second@ =~= "  module: "@ + join(v.modules, "::"@));
            }
            lines.push(second);
        }
        assert(lines_view(lines@) =~= report_lines_view(shown_path@, v));
        lines
    }
}

/// The views of a list of violations.
pub open spec fn violations_view(violations: Seq<Violation>) -> Seq<ViolationView> {
    violations.map_values(|v: Violation| v.view())
}

} // verus!
