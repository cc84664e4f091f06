//! Reports `use` and `mod` items that break the conventional order, grouping and
//! spacing of their run.
use vstd::prelude::*;

use super::model::{
    ClassifiedItem, ClassifiedView, ImportKeyView, ItemGroup, ModuleScope, classify, group_rank,
    group_text, is_conventional_test_module, is_test_module, module_names,
};
use crate::config::{ItemClass, ItemKind, class_rank, class_text};
use crate::diagnostic::{
    Violation as Diagnostic, ViolationKind as DiagnosticKind, ViolationKindView,
    ViolationView as DiagnosticView, names_view, violation_at, violations_view,
};
use crate::source::{Position, Source, line_is_blank, offset_of};
use crate::syntax::{ItemNode, SyntaxItem, VisibilitySyntax};
use crate::text::{has_comment_marker, push_str, range_has_comment_marker};

verus! {

/// What is wrong with an item of an ordered run.
#[derive(Debug, Clone, PartialEq, Eq)]
pub enum Violation {
    MissingBlankLine { previous: ItemGroup, current: ItemGroup },
    UnexpectedBlankLine { group: ItemGroup },
    OrdinaryComment { previous: ItemClass, current: ItemClass },
    TestModuleVisibility,
    ItemOrder { found: ItemClass, must_precede: ItemClass },
    ImportOrder { found: String, must_precede: String },
}

pub enum ViolationView {
    MissingBlankLine { previous: ItemGroup, current: ItemGroup },
    UnexpectedBlankLine { group: ItemGroup },
    OrdinaryComment { previous: ItemClass, current: ItemClass },
    TestModuleVisibility,
    ItemOrder { found: ItemClass, must_precede: ItemClass },
    ImportOrder { found: Seq<char>, must_precede: Seq<char> },
}

/// The sentence that describes a violation.
pub open spec fn violation_message(v: ViolationView) -> Seq<char> {
    match v {
        ViolationView::MissingBlankLine { previous, current } => "items from `"@ + group_text(
            previous,
        ) + "` and `"@ + group_text(current)
            + "` groups with different class or origin must be separated by a blank line"@,
        ViolationView::UnexpectedBlankLine { group } => "imports with `"@ + group_text(group)
            + "` origin and the same visibility must not be separated by a blank line"@,
        ViolationView::OrdinaryComment { previous, current } => "ordinary comments between `"@
            + class_text(previous) + "` and `"@ + class_text(current)
            + "` items are unsupported; use Rustdoc (`///`) on the following item or move the comment outside the ordered run"@,
        ViolationView::TestModuleVisibility => "test module `tests` must be private"@,
        ViolationView::ItemOrder { found, must_precede } => "`"@ + class_text(found)
            + "` must appear before `"@ + class_text(must_precede) + "`"@,
        ViolationView::ImportOrder { found, must_precede } => "import `"@ + found
            + "` must appear before `"@ + must_precede + "`"@,
    }
}

impl Violation {
    pub open spec fn view(&self) -> ViolationView {
        match self {
            Violation::MissingBlankLine { previous, current } => ViolationView::MissingBlankLine {
                previous: *previous,
                current: *current,
            },
            Violation::UnexpectedBlankLine { group } => ViolationView::UnexpectedBlankLine {
                group: *group,
            },
            Violation::OrdinaryComment { previous, current } => ViolationView::OrdinaryComment {
                previous: *previous,
                current: *current,
            },
            Violation::TestModuleVisibility => ViolationView::TestModuleVisibility,
            Violation::ItemOrder { found, must_precede } => ViolationView::ItemOrder {
                found: *found,
                must_precede: *must_precede,
            },
            Violation::ImportOrder { found, must_precede } => ViolationView::ImportOrder {
                found: found@,
                must_precede: must_precede@,
            },
        }
    }

    pub fn clone_violation(&self) -> (copy: Self)
        ensures
            copy.view() == self.view(),
    {
        match self {
            Violation::MissingBlankLine { previous, current } => Violation::MissingBlankLine {
                previous: *previous,
                current: *current,
            },
            Violation::UnexpectedBlankLine { group } => Violation::UnexpectedBlankLine { group: *group },
            Violation::OrdinaryComment { previous, current } => Violation::OrdinaryComment {
                previous: *previous,
                current: *current,
            },
            Violation::TestModuleVisibility => Violation::TestModuleVisibility,
            Violation::ItemOrder { found, must_precede } => Violation::ItemOrder {
                found: *found,
                must_precede: *must_precede,
            },
            Violation::ImportOrder { found, must_precede } => Violation::ImportOrder {
                found: found.clone(),
                must_precede: must_precede.clone(),
            },
        }
    }

    pub fn message(&self) -> (message: String)
        ensures
            message@ == violation_message(self.view()),
    {
        let mut m = String::new();
        match self {
            Violation::MissingBlankLine { previous, current } => {
                push_str(&mut m, "items from `");
                push_str(&mut m, previous.to_string().as_str());
                push_str(&mut m, "` and `");
                push_str(&mut m, current.to_string().as_str());
                push_str(
                    &mut m,
                    "` groups with different class or origin must be separated by a blank line",
                );
            },
            Violation::UnexpectedBlankLine { group } => {
                push_str(&mut m, "imports with `");
                push_str(&mut m, group.to_string().as_str());
                push_str(
                    &mut m,
                    "` origin and the same visibility must not be separated by a blank line",
                );
            },
            Violation::OrdinaryComment { previous, current } => {
                push_str(&mut m, "ordinary comments between `");
                push_str(&mut m, previous.to_string().as_str());
                push_str(&mut m, "` and `");
                push_str(&mut m, current.to_string().as_str());
                push_str(
                    &mut m,
                    "` items are unsupported; use Rustdoc (`///`) on the following item or move the comment outside the ordered run",
                );
            },
            Violation::TestModuleVisibility => {
                push_str(&mut m, "test module `tests` must be private");
            },
            Violation::ItemOrder { found, must_precede } => {
                push_str(&mut m, "`");
                push_str(&mut m, found.to_string().as_str());
                push_str(&mut m, "` must appear before `");
                push_str(&mut m, must_precede.to_string().as_str());
                push_str(&mut m, "`");
            },
            Violation::ImportOrder { found, must_precede } => {
                push_str(&mut m, "import `");
                push_str(&mut m, found.as_str());
                push_str(&mut m, "` must appear before `");
                push_str(&mut m, must_precede.as_str());
                push_str(&mut m, "`");
            },
        }
        proof {
            let e = Seq::<char>::empty();
            assert forall|a: Seq<char>| e + a =~= a by {}
        }
        m
    }
}

/// A violation at a position of the module being checked.
pub struct Report {
    pub at: Position,
    pub kind: ViolationView,
}

/// An ordinary comment stands between the two items' texts.
pub open spec fn comment_between(text: Seq<char>, previous: ClassifiedView, current: ClassifiedView) -> bool {
    match (offset_of(text, previous.full_span.end), offset_of(text, current.full_span.start)) {
        (Some(start), Some(end)) => start <= end <= text.len() && has_comment_marker(
            text.subrange(start, end),
        ),
        _ => false,
    }
}

/// The comments that block a run, each reported at the item that follows it.
pub open spec fn comment_reports(text: Seq<char>, run: Seq<ClassifiedView>) -> Seq<Report>
    decreases run.len(),
{
    if run.len() < 2 {
        Seq::empty()
    } else {
        let previous = run[run.len() - 2];
        let current = run.last();
        comment_reports(text, run.drop_last()) + if comment_between(text, previous, current) {
            seq![
                Report {
                    at: current.span.start,
                    kind: ViolationView::OrdinaryComment {
                        previous: previous.class,
                        current: current.class,
                    },
                },
            ]
        } else {
            Seq::empty()
        }
    }
}

/// A blank line lies among lines `previous_end_line .. current_start_line - 1` (from 0):
/// strictly between the two items, whose lines count from 1.
pub open spec fn blank_between(text: Seq<char>, previous_end_line: int, current_start_line: int) -> bool {
    exists|k: int| previous_end_line <= k < current_start_line - 1 && line_is_blank(text, k)
}

/// The item of a run with the greatest rank so far.
pub struct RankedView {
    pub rank: nat,
    pub class: ItemClass,
    pub import_key: Option<ImportKeyView>,
}

/// The item of a run just before the current one.
pub struct PreviousView {
    pub class: ItemClass,
    pub group: ItemGroup,
    pub end_line: int,
}

pub struct RunState {
    pub highest: Option<RankedView>,
    pub previous: Option<PreviousView>,
}

/// The blank line that a change of class or group needs, and the one that the same
/// import group must not have.
pub open spec fn separation_reports(text: Seq<char>, previous: Option<PreviousView>, current: ClassifiedView) -> Seq<Report> {
    match previous {
        None => Seq::empty(),
        Some(previous) => {
            let group = current.group();
            let changed = current.class != previous.class || group != previous.group;
            let blank = blank_between(text, previous.end_line, current.span.start.line as int);
            if changed && !blank {
                seq![
                    Report {
                        at: current.span.start,
                        kind: ViolationView::MissingBlankLine { previous: previous.group, current: group },
                    },
                ]
            } else if !changed && current.import_key is Some && blank {
                seq![Report { at: current.span.start, kind: ViolationView::UnexpectedBlankLine { group } }]
            } else {
                Seq::empty()
            }
        },
    }
}

pub open spec fn ranked(current: ClassifiedView) -> RankedView {
    RankedView {
        rank: class_rank(current.class),
        class: current.class,
        import_key: current.import_key,
    }
}

/// What the order of one item reports, and the greatest-ranked item after it.
pub open spec fn order_step(highest: Option<RankedView>, current: ClassifiedView) -> (Seq<Report>, Option<RankedView>) {
    let rank = class_rank(current.class);
    match highest {
        None => (Seq::empty(), Some(ranked(current))),
        Some(h) => if rank < h.rank {
            (
                seq![
                    Report {
                        at: current.span.start,
                        kind: ViolationView::ItemOrder { found: current.class, must_precede: h.class },
                    },
                ],
                highest,
            )
        } else if rank > h.rank {
            (Seq::empty(), Some(ranked(current)))
        } else {
            match (current.import_key, h.import_key) {
                (Some(key), Some(highest_key)) => if group_rank(key.group) < group_rank(
                    highest_key.group,
                ) {
                    (
                        seq![
                            Report {
                                at: current.span.start,
                                kind: ViolationView::ImportOrder {
                                    found: key.path,
                                    must_precede: highest_key.path,
                                },
                            },
                        ],
                        highest,
                    )
                } else if group_rank(key.group) == group_rank(highest_key.group) {
                    (Seq::empty(), highest)
                } else {
                    (Seq::empty(), Some(ranked(current)))
                },
                _ => (Seq::empty(), highest),
            }
        },
    }
}

/// What one item of a run reports, and the state after it.
pub open spec fn run_step(text: Seq<char>, state: RunState, current: ClassifiedView) -> (Seq<Report>, RunState) {
    let separation = separation_reports(text, state.previous, current);
    let (order, highest) = order_step(state.highest, current);
    (
        separation + order,
        RunState {
            highest,
            previous: Some(
                PreviousView { class: current.class, group: current.group(), end_line: current.end_line },
            ),
        },
    )
}

/// What the items `k..` of a run report, from the given state.
pub open spec fn run_fold(text: Seq<char>, run: Seq<ClassifiedView>, k: int, state: RunState) -> Seq<Report>
    decreases run.len() - k,
{
    if k < 0 || k >= run.len() {
        Seq::empty()
    } else {
        let (reports, next) = run_step(text, state, run[k]);
        reports + run_fold(text, run, k + 1, next)
    }
}

pub open spec fn initial_state() -> RunState {
    RunState { highest: None, previous: None }
}

/// What a run reports: its ordinary comments where it has any, else the order and
/// spacing of its items.
pub open spec fn run_reports(text: Seq<char>, run: Seq<ClassifiedView>) -> Seq<Report> {
    let comments = comment_reports(text, run);
    if comments.len() > 0 {
        comments
    } else {
        run_fold(text, run, 0, initial_state())
    }
}

/// The test module named `tests` that is not private.
pub open spec fn visibility_reports(item: SyntaxItem) -> Seq<Report> {
    match item.node {
        ItemNode::Mod(m) => if is_test_module(m) && !(m.vis is Inherited) {
            seq![Report { at: m.keyword.start, kind: ViolationView::TestModuleVisibility }]
        } else {
            Seq::empty()
        },
        _ => Seq::empty(),
    }
}

/// What the items `i..` of a module report, given the run that the items before them
/// left open.
pub open spec fn module_scan(
    text: Seq<char>,
    items: Seq<SyntaxItem>,
    i: int,
    run: Seq<ClassifiedView>,
) -> Seq<Report>
    decreases items.len() - i,
{
    if i < 0 || i >= items.len() {
        run_reports(text, run)
    } else {
        let item = items[i];
        visibility_reports(item) + match classify(item, module_names(items)) {
            Some(c) => module_scan(text, items, i + 1, run.push(c)),
            None => run_reports(text, run) + module_scan(text, items, i + 1, Seq::empty()),
        }
    }
}

/// What the items of one module report, inline modules aside.
pub open spec fn module_reports(text: Seq<char>, items: Seq<SyntaxItem>) -> Seq<Report> {
    module_scan(text, items, 0, Seq::empty())
}

/// The violations that reports of a module become.
pub open spec fn reports_view(path: Seq<char>, modules: Seq<Seq<char>>, reports: Seq<Report>) -> Seq<DiagnosticView> {
    reports.map_values(
        |r: Report| violation_at(path, r.at, modules, ViolationKindView::ItemOrder(r.kind)),
    )
}

/// Everything that the item order rule reports for a module and, after it, its inline
/// modules in order.
pub open spec fn item_order_violations(
    path: Seq<char>,
    text: Seq<char>,
    items: Seq<SyntaxItem>,
    modules: Seq<Seq<char>>,
) -> Seq<DiagnosticView>
    decreases items, 1int,
{
    reports_view(path, modules, module_reports(text, items)) + nested_violations(
        path,
        text,
        items,
        modules,
        0,
    )
}

/// The violations of the inline modules among items `k..`.
pub open spec fn nested_violations(
    path: Seq<char>,
    text: Seq<char>,
    items: Seq<SyntaxItem>,
    modules: Seq<Seq<char>>,
    k: int,
) -> Seq<DiagnosticView>
    decreases items, 0int, items.len() - k,
{
    if k < 0 || k >= items.len() {
        Seq::empty()
    } else {
        let here = match items[k].node {
            ItemNode::Mod(m) => match m.content {
                Some(content) => item_order_violations(
                    path,
                    text,
                    content@,
                    modules.push(m.ident@),
                ),
                None => Seq::empty(),
            },
            _ => Seq::empty(),
        };
        here + nested_violations(path, text, items, modules, k + 1)
    }
}

/// The reports of a list of classified items.
pub open spec fn run_view(run: Seq<ClassifiedItem>) -> Seq<ClassifiedView> {
    run.map_values(|c: ClassifiedItem| c.view())
}

proof fn lemma_reports_view_add(
    path: Seq<char>,
    modules: Seq<Seq<char>>,
    a: Seq<Report>,
    b: Seq<Report>,
)
    ensures
        reports_view(path, modules, a + b) == reports_view(path, modules, a) + reports_view(
            path,
            modules,
            b,
        ),
{
    assert(reports_view(path, modules, a + b) =~= reports_view(path, modules, a) + reports_view(
        path,
        modules,
        b,
    ));
}

/// Checks the item order of a file's items, inline modules included, and appends what
/// it finds.
pub fn check(path: &String, source: &Source, items: &Vec<SyntaxItem>, violations: &mut Vec<Diagnostic>)
    requires
        source.wf(),
    ensures
        violations_view(final(violations)@) == violations_view(old(violations)@)
            + item_order_violations(path@, source.chars(), items@, Seq::empty()),
{
    let mut checker = ItemOrderChecker::new(path, source);
    checker.check_items(items);
    let found = checker.violations;
    let ghost before = violations@;
    let mut i: usize = 0;
    while i < found.len()
        invariant
            0 <= i <= found@.len(),
            violations_view(violations@) == violations_view(before) + violations_view(
                found@.take(i as int),
            ),
        decreases found@.len() - i,
    {
        let ghost previous = violations@;
        let copy = found[i].clone_violation();
        violations.push(copy);
        assert(violations_view(violations@) =~= violations_view(previous).push(copy.view()));
        assert(found@.take(i + 1) =~= found@.take(i as int).push(found@[i as int]));
        assert(violations_view(found@.take(i + 1)) =~= violations_view(found@.take(i as int)).push(
            found@[i as int].view(),
        ));
        assert(violations_view(violations@) =~= violations_view(before) + violations_view(
            found@.take(i + 1),
        ));
        i = i + 1;
    }
    assert(found@.take(i as int) =~= found@);
    assert(violations_view(Seq::<Diagnostic>::empty()) =~= Seq::<DiagnosticView>::empty());
    assert(names_view(Seq::<String>::empty()) =~= Seq::<Seq<char>>::empty());
}

/// The greatest-ranked item of a run so far.
struct RankedItem {
    rank: usize,
    class: ItemClass,
    import_key: Option<super::model::ImportKey>,
}

impl RankedItem {
    spec fn view(&self) -> RankedView {
        RankedView {
            rank: self.rank as nat,
            class: self.class,
            import_key: match self.import_key {
                Some(key) => Some(key.view()),
                None => None,
            },
        }
    }

    fn new(item: &ClassifiedItem, rank: usize) -> (result: Self)
        requires
            rank == class_rank(item.class),
        ensures
            result.view() == ranked(item.view()),
    {
        RankedItem {
            rank,
            class: item.class,
            import_key: match &item.import_key {
                Some(key) => Some(
                    super::model::ImportKey { group: key.group, path: key.path.clone() },
                ),
                None => None,
            },
        }
    }
}

/// The item of a run just before the current one.
#[derive(Clone, Copy)]
struct PreviousItem {
    class: ItemClass,
    group: ItemGroup,
    end_line: usize,
}

impl PreviousItem {
    spec fn view(&self) -> PreviousView {
        PreviousView { class: self.class, group: self.group, end_line: self.end_line as int }
    }
}

spec fn previous_view(previous: Option<PreviousItem>) -> Option<PreviousView> {
    match previous {
        Some(p) => Some(p.view()),
        None => None,
    }
}

spec fn highest_view(highest: Option<RankedItem>) -> Option<RankedView> {
    match highest {
        Some(h) => Some(h.view()),
        None => None,
    }
}

/// Walks the items of a module and of its inline modules.
pub struct ItemOrderChecker<'a> {
    path: &'a String,
    source: &'a Source,
    modules: Vec<String>,
    violations: Vec<Diagnostic>,
}

impl<'a> ItemOrderChecker<'a> {
    pub closed spec fn text(&self) -> Seq<char> {
        self.source.chars()
    }

    /// What the checker has found so far.
    pub closed spec fn found(&self) -> Seq<DiagnosticView> {
        violations_view(self.violations@)
    }

    pub closed spec fn same_setting(&self, other: &Self) -> bool {
        &&& self.path == other.path
        &&& self.source == other.source
        &&& self.modules@ == other.modules@
    }

    pub closed spec fn spec_path(&self) -> Seq<char> {
        self.path@
    }

    pub closed spec fn spec_modules(&self) -> Seq<Seq<char>> {
        names_view(self.modules@)
    }

    pub closed spec fn wf(&self) -> bool {
        self.source.wf()
    }

    pub fn new(path: &'a String, source: &'a Source) -> (checker: Self)
        requires
            source.wf(),
        ensures
            checker.wf(),
            checker.found() == Seq::<DiagnosticView>::empty(),
            checker.spec_path() == path@,
            checker.text() == source.chars(),
            checker.spec_modules() == Seq::<Seq<char>>::empty(),
    {
        let checker = ItemOrderChecker { path, source, modules: Vec::new(), violations: Vec::new() };
        assert(violations_view(checker.violations@) =~= Seq::<DiagnosticView>::empty());
        assert(names_view(checker.modules@) =~= Seq::<Seq<char>>::empty());
        checker
    }

    fn report(&mut self, at: Position, kind: Violation)
        ensures
            final(self).same_setting(old(self)),
            final(self).found() == old(self).found().push(
                violation_at(
                    old(self).spec_path(),
                    at,
                    old(self).spec_modules(),
                    ViolationKindView::ItemOrder(kind.view()),
                ),
            ),
    {
        let violation = Diagnostic::at(self.path, at, &self.modules, DiagnosticKind::ItemOrder(kind));
        self.violations.push(violation);
        assert(violations_view(self.violations@) =~= violations_view(old(self).violations@).push(
            violation.view(),
        ));
    }

    /// Lines `previous_end_line + 1 .. current_start_line` (from 1) hold a blank line.
    pub fn has_blank_line(&self, previous_end_line: usize, current_start_line: usize) -> (result: bool)
        requires
            self.wf(),
        ensures
            result == blank_between(self.text(), previous_end_line as int, current_start_line as int),
    {
        let before = if current_start_line > previous_end_line {
            current_start_line - 1
        } else {
            previous_end_line
        };
        self.source.has_blank_line_in(previous_end_line, before)
    }

    fn has_ordinary_comment_between(&self, previous: &ClassifiedItem, current: &ClassifiedItem) -> (result: bool)
        requires
            self.wf(),
        ensures
            result == comment_between(self.text(), previous.view(), current.view()),
    {
        match self.source.range_between(previous.full_span.end, current.full_span.start) {
            Some((start, end)) => range_has_comment_marker(self.source.text(), start, end),
            None => false,
        }
    }

    fn check_test_module_visibility(&mut self, item: &SyntaxItem)
        ensures
            final(self).same_setting(old(self)),
            final(self).found() == old(self).found() + reports_view(
                old(self).spec_path(),
                old(self).spec_modules(),
                visibility_reports(*item),
            ),
    {
        let ghost empty = reports_view(self.path@, self.spec_modules(), Seq::<Report>::empty());
        assert(empty =~= Seq::<DiagnosticView>::empty());
        if let ItemNode::Mod(m) = &item.node {
            if is_conventional_test_module(m) && !matches!(&m.vis, VisibilitySyntax::Inherited) {
                self.report(m.keyword.start, Violation::TestModuleVisibility);
                proof {
                    let r = seq![Report { at: m.keyword.start, kind: ViolationView::TestModuleVisibility }];
                    assert(reports_view(old(self).spec_path(), old(self).spec_modules(), r) =~= seq![
                        violation_at(
                            old(self).spec_path(),
                            m.keyword.start,
                            old(self).spec_modules(),
                            ViolationKindView::ItemOrder(ViolationView::TestModuleVisibility),
                        ),
                    ]);
                }
                return;
            }
        }
        assert(old(self).found() + empty =~= old(self).found());
    }

    /// Reports the ordinary comments between items of a run; true when there is one.
    fn check_ordinary_comments(&mut self, items: &Vec<ClassifiedItem>) -> (found: bool)
        requires
            old(self).wf(),
        ensures
            final(self).same_setting(old(self)),
            final(self).wf(),
            final(self).found() == old(self).found() + reports_view(
                old(self).spec_path(),
                old(self).spec_modules(),
                comment_reports(old(self).text(), run_view(items@)),
            ),
            found == (comment_reports(old(self).text(), run_view(items@)).len() > 0),
    {
        let ghost text = self.text();
        let ghost path = self.spec_path();
        let ghost modules = self.spec_modules();
        let ghost start = self.found();
        let ghost run = run_view(items@);
        assert(reports_view(path, modules, Seq::<Report>::empty()) =~= Seq::<DiagnosticView>::empty());
        if items.len() < 2 {
            assert(start + Seq::<DiagnosticView>::empty() =~= start);
            return false;
        }
        let mut found = false;
        let mut k: usize = 1;
        assert(run.take(1).len() == 1);
        assert(comment_reports(text, run.take(1)) =~= Seq::<Report>::empty());
        assert(reports_view(path, modules, Seq::<Report>::empty()) =~= Seq::<DiagnosticView>::empty());
        assert(start + Seq::<DiagnosticView>::empty() =~= start);
        while k < items.len()
            invariant
                self.wf(),
                self.text() == text,
                self.spec_path() == path,
                self.spec_modules() == modules,
                run == run_view(items@),
                self.same_setting(old(self)),
                1 <= k <= items@.len(),
                self.found() == start + reports_view(path, modules, comment_reports(text, run.take(k as int))),
                found == (comment_reports(text, run.take(k as int)).len() > 0),
            decreases items@.len() - k,
        {
            let ghost prefix = run.take(k + 1);
            assert(prefix.drop_last() =~= run.take(k as int));
            assert(prefix[prefix.len() - 2] == items@[k - 1].view());
            assert(prefix.last() == items@[k as int].view());
            let ghost before = comment_reports(text, run.take(k as int));
            if self.has_ordinary_comment_between(&items[k - 1], &items[k]) {
                found = true;
                self.report(
                    items[k].span.start,
                    Violation::OrdinaryComment { previous: items[k - 1].class, current: items[k].class },
                );
                proof {
                    let r = Report {
                        at: items@[k as int].span.start,
                        kind: ViolationView::OrdinaryComment {
                            previous: items@[k - 1].class,
                            current: items@[k as int].class,
                        },
                    };
                    assert(comment_reports(text, prefix) == before + seq![r]);
                    lemma_reports_view_add(path, modules, before, seq![r]);
                    assert(reports_view(path, modules, seq![r]) =~= seq![
                        violation_at(path, r.at, modules, ViolationKindView::ItemOrder(r.kind)),
                    ]);
                    assert(self.found() =~= start + reports_view(path, modules, comment_reports(text, prefix)));
                }
            } else {
                proof {
                    assert(comment_reports(text, prefix) =~= before);
                }
            }
            k = k + 1;
        }
        assert(run.take(k as int) =~= run);
        found
    }

    fn check_group_separation(&mut self, current: &ClassifiedItem, previous: Option<PreviousItem>)
        requires
            old(self).wf(),
        ensures
            final(self).same_setting(old(self)),
            final(self).wf(),
            final(self).found() == old(self).found() + reports_view(
                old(self).spec_path(),
                old(self).spec_modules(),
                separation_reports(old(self).text(), previous_view(previous), current.view()),
            ),
    {
        let ghost path = self.spec_path();
        let ghost modules = self.spec_modules();
        let ghost expected = separation_reports(self.text(), previous_view(previous), current.view());
        let current_group = current.group();
        let previous = match previous {
            Some(previous) => previous,
            None => {
                assert(reports_view(path, modules, expected) =~= Seq::<DiagnosticView>::empty());
                assert(self.found() + Seq::<DiagnosticView>::empty() =~= self.found());
                return;
            },
        };
        let group_changed = current.class != previous.class || current_group != previous.group;
        let has_blank_line = self.has_blank_line(previous.end_line, current.span.start.line);
        if group_changed && !has_blank_line {
            self.report(
                current.span.start,
                Violation::MissingBlankLine { previous: previous.group, current: current_group },
            );
        } else if !group_changed && current.import_key.is_some() && has_blank_line {
            self.report(current.span.start, Violation::UnexpectedBlankLine { group: current_group });
        } else {
            assert(reports_view(path, modules, expected) =~= Seq::<DiagnosticView>::empty());
            assert(old(self).found() + Seq::<DiagnosticView>::empty() =~= old(self).found());
            return;
        }
        assert(reports_view(path, modules, expected) =~= seq![
            violation_at(path, expected[0].at, modules, ViolationKindView::ItemOrder(expected[0].kind)),
        ]);
    }

    fn check_order(&mut self, current: &ClassifiedItem, highest: Option<RankedItem>) -> (next: Option<RankedItem>)
        requires
            old(self).wf(),
        ensures
            final(self).same_setting(old(self)),
            final(self).wf(),
            final(self).found() == old(self).found() + reports_view(
                old(self).spec_path(),
                old(self).spec_modules(),
                order_step(highest_view(highest), current.view()).0,
            ),
            highest_view(next) == order_step(highest_view(highest), current.view()).1,
    {
        let ghost path = self.spec_path();
        let ghost modules = self.spec_modules();
        let ghost expected = order_step(highest_view(highest), current.view());
        let rank = current.class.rank();
        let highest = match highest {
            Some(highest) => highest,
            None => {
                assert(reports_view(path, modules, expected.0) =~= Seq::<DiagnosticView>::empty());
                assert(self.found() + Seq::<DiagnosticView>::empty() =~= self.found());
                return Some(RankedItem::new(current, rank));
            },
        };
        if rank < highest.rank {
            self.report(
                current.span.start,
                Violation::ItemOrder { found: current.class, must_precede: highest.class },
            );
            assert(reports_view(path, modules, expected.0) =~= seq![
                violation_at(path, expected.0[0].at, modules, ViolationKindView::ItemOrder(expected.0[0].kind)),
            ]);
            return Some(highest);
        } else if rank > highest.rank {
            assert(reports_view(path, modules, expected.0) =~= Seq::<DiagnosticView>::empty());
            assert(self.found() + Seq::<DiagnosticView>::empty() =~= self.found());
            return Some(RankedItem::new(current, rank));
        }
        let (current_key, highest_key) = match (&current.import_key, &highest.import_key) {
            (Some(current_key), Some(highest_key)) => (current_key, highest_key),
            _ => {
                assert(reports_view(path, modules, expected.0) =~= Seq::<DiagnosticView>::empty());
                assert(self.found() + Seq::<DiagnosticView>::empty() =~= self.found());
                return Some(highest);
            },
        };
        let current_rank = current_key.group.rank();
        let highest_rank = highest_key.group.rank();
        if current_rank < highest_rank {
            self.report(
                current.span.start,
                Violation::ImportOrder {
                    found: current_key.path.clone(),
                    must_precede: highest_key.path.clone(),
                },
            );
            assert(reports_view(path, modules, expected.0) =~= seq![
                violation_at(path, expected.0[0].at, modules, ViolationKindView::ItemOrder(expected.0[0].kind)),
            ]);
            Some(highest)
        } else if current_rank == highest_rank {
            assert(reports_view(path, modules, expected.0) =~= Seq::<DiagnosticView>::empty());
            assert(self.found() + Seq::<DiagnosticView>::empty() =~= self.found());
            Some(highest)
        } else {
            assert(reports_view(path, modules, expected.0) =~= Seq::<DiagnosticView>::empty());
            assert(self.found() + Seq::<DiagnosticView>::empty() =~= self.found());
            Some(RankedItem::new(current, rank))
        }
    }

    /// Checks one run of classified items.
    fn check_run(&mut self, items: &Vec<ClassifiedItem>)
        requires
            old(self).wf(),
        ensures
            final(self).same_setting(old(self)),
            final(self).wf(),
            final(self).found() == old(self).found() + reports_view(
                old(self).spec_path(),
                old(self).spec_modules(),
                run_reports(old(self).text(), run_view(items@)),
            ),
    {
        if self.check_ordinary_comments(items) {
            return;
        }
        let ghost text = self.text();
        let ghost path = self.spec_path();
        let ghost modules = self.spec_modules();
        let ghost start = self.found();
        let ghost run = run_view(items@);
        let mut highest: Option<RankedItem> = None;
        let mut previous: Option<PreviousItem> = None;
        let mut k: usize = 0;
        while k < items.len()
            invariant
                self.wf(),
                self.text() == text,
                self.spec_path() == path,
                self.spec_modules() == modules,
                run == run_view(items@),
                self.same_setting(old(self)),
                0 <= k <= items@.len(),
                self.found() + reports_view(
                    path,
                    modules,
                    run_fold(
                        text,
                        run,
                        k as int,
                        RunState { highest: highest_view(highest), previous: previous_view(previous) },
                    ),
                ) == start + reports_view(path, modules, run_fold(text, run, 0, initial_state())),
            decreases items@.len() - k,
        {
            let ghost state = RunState {
                highest: highest_view(highest),
                previous: previous_view(previous),
            };
            let ghost before = self.found();
            let current = &items[k];
            assert(run[k as int] == current.view());
            self.check_group_separation(current, previous);
            highest = self.check_order(current, highest);
            previous = Some(PreviousItem { class: current.class, group: current.group(), end_line: current.end_line });
            proof {
                let (reports, next) = run_step(text, state, run[k as int]);
                assert(next == RunState { highest: highest_view(highest), previous: previous_view(previous) });
                lemma_reports_view_add(path, modules, separation_reports(text, state.previous, run[k as int]), order_step(state.highest, run[k as int]).0);
                lemma_reports_view_add(path, modules, reports, run_fold(text, run, k + 1, next));
                assert(self.found() == before + reports_view(path, modules, reports));
                assert(before + reports_view(path, modules, reports) + reports_view(path, modules, run_fold(text, run, k + 1, next))
                    =~= before + reports_view(path, modules, run_fold(text, run, k as int, state)));
            }
            k = k + 1;
        }
        assert(reports_view(path, modules, run_fold(text, run, k as int, RunState { highest: highest_view(highest), previous: previous_view(previous) })) =~= Seq::<DiagnosticView>::empty());
        assert(self.found() + Seq::<DiagnosticView>::empty() =~= self.found());
    }

    /// Checks the items of a module, then its inline modules.
    pub fn check_items(&mut self, items: &Vec<SyntaxItem>)
        requires
            old(self).wf(),
        ensures
            final(self).same_setting(old(self)),
            final(self).wf(),
            final(self).found() == old(self).found() + item_order_violations(
                old(self).spec_path(),
                old(self).text(),
                items@,
                old(self).spec_modules(),
            ),
        decreases items@,
    {
        let ghost text = self.text();
        let ghost path = self.spec_path();
        let ghost modules = self.spec_modules();
        let ghost start = self.found();
        let scope = ModuleScope::from_items(items);
        let mut run: Vec<ClassifiedItem> = Vec::new();
        let mut i: usize = 0;
        assert(run_view(run@) =~= Seq::<ClassifiedView>::empty());
        while i < items.len()
            invariant
                self.wf(),
                self.text() == text,
                self.spec_path() == path,
                self.spec_modules() == modules,
                self.same_setting(old(self)),
                scope.names() == module_names(items@),
                0 <= i <= items@.len(),
                self.found() + reports_view(path, modules, module_scan(text, items@, i as int, run_view(run@)))
                    == start + reports_view(path, modules, module_reports(text, items@)),
            decreases items@.len() - i,
        {
            let ghost before = self.found();
            let ghost open_run = run_view(run@);
            let item = &items[i];
            self.check_test_module_visibility(item);
            let ghost after_visibility = self.found();
            match ClassifiedItem::from_ast(item, &scope) {
                Some(classified) => {
                    run.push(classified);
                    proof {
                        assert(run_view(run@) =~= open_run.push(classified.view()));
                    }
                },
                None => {
                    self.check_run(&run);
                    run = Vec::new();
                    proof {
                        assert(run_view(run@) =~= Seq::<ClassifiedView>::empty());
                        lemma_reports_view_add(path, modules, run_reports(text, open_run), module_scan(text, items@, i + 1, Seq::empty()));
                    }
                },
            }
            proof {
                let v = visibility_reports(items@[i as int]);
                let rest = match classify(items@[i as int], module_names(items@)) {
                    Some(c) => module_scan(text, items@, i + 1, open_run.push(c)),
                    None => run_reports(text, open_run) + module_scan(text, items@, i + 1, Seq::empty()),
                };
                assert(module_scan(text, items@, i as int, open_run) == v + rest);
                lemma_reports_view_add(path, modules, v, rest);
                assert(self.found() + reports_view(path, modules, module_scan(text, items@, i + 1, run_view(run@)))
                    =~= before + reports_view(path, modules, module_scan(text, items@, i as int, open_run)));
            }
            i = i + 1;
        }
        let ghost last_run = run_view(run@);
        self.check_run(&run);
        assert(module_scan(text, items@, i as int, last_run) == run_reports(text, last_run));
        let ghost after_module = self.found();
        assert(after_module == start + reports_view(path, modules, module_reports(text, items@)));
        let mut k: usize = 0;
        while k < items.len()
            invariant
                self.wf(),
                self.text() == text,
                self.spec_path() == path,
                self.spec_modules() == modules,
                self.same_setting(old(self)),
                0 <= k <= items@.len(),
                self.found() + nested_violations(path, text, items@, modules, k as int)
                    == after_module + nested_violations(path, text, items@, modules, 0),
            decreases items@.len() - k,
        {
            let ghost before = self.found();
            if let ItemNode::Mod(m) = &items[k].node {
                if let Some(content) = &m.content {
                    let ghost saved = self.modules@;
                    self.modules.push(m.ident.clone());
                    proof {
                        assert(names_view(self.modules@) =~= modules.push(m.ident@));
                        assert(decreases_to!(items@ => items@[k as int]));
                        assert(decreases_to!(items@[k as int] => items@[k as int].node));
                        assert(decreases_to!(items@[k as int].node => items@[k as int].node->Mod_0));
                        assert(decreases_to!(items@[k as int].node->Mod_0 => items@[k as int].node->Mod_0.content));
                        assert(decreases_to!(items@[k as int].node->Mod_0.content => items@[k as int].node->Mod_0.content->Some_0));
                        assert(decreases_to!(items@[k as int].node->Mod_0.content->Some_0 => items@[k as int].node->Mod_0.content->Some_0@));
                    }
                    self.check_items(content);
                    self.modules.pop();
                    assert(self.modules@ =~= saved);
                    proof {
                        assert(before + item_order_violations(path, text, content@, modules.push(m.ident@))
                            + nested_violations(path, text, items@, modules, k + 1)
                            =~= before + nested_violations(path, text, items@, modules, k as int));
                    }
                } else {
                    assert(before + nested_violations(path, text, items@, modules, k + 1)
                        =~= before + nested_violations(path, text, items@, modules, k as int));
                }
            } else {
                assert(before + nested_violations(path, text, items@, modules, k + 1)
                    =~= before + nested_violations(path, text, items@, modules, k as int));
            }
            k = k + 1;
        }
        assert(nested_violations(path, text, items@, modules, k as int) =~= Seq::<DiagnosticView>::empty());
        assert(self.found() + Seq::<DiagnosticView>::empty() =~= self.found());
        assert(self.found() =~= start + item_order_violations(path, text, items@, modules));
    }
}

/// While ordinary comments stand between a run's items, they are all that the run
/// reports: its order and spacing are not judged.
pub proof fn lemma_comments_block_run(text: Seq<char>, run: Seq<ClassifiedView>)
    requires
        comment_reports(text, run).len() > 0,
    ensures
        run_reports(text, run) == comment_reports(text, run),
{
}

/// The key by which items of a run are ordered: class rank, then origin group (every
/// module in the group of modules).
pub open spec fn order_key(item: ClassifiedView) -> int {
    (class_rank(item.class) * 4 + group_rank(item.group())) as int
}

/// The key of the greatest item so far; below every item where there is none.
pub open spec fn highest_key(highest: Option<RankedView>) -> int {
    match highest {
        None => -1,
        Some(h) => (h.rank * 4 + match h.import_key {
            Some(key) => group_rank(key.group),
            None => 3nat,
        }) as int,
    }
}

/// Imports, and only they, carry an import key, as `classify` makes items.
pub open spec fn keyed_as_imports(item: ClassifiedView) -> bool {
    (item.import_key is Some) == (item.class.kind == ItemKind::Use)
}

/// The greatest item so far is keyed as `classify` keys items.
pub open spec fn highest_keyed(highest: Option<RankedView>) -> bool {
    highest matches Some(h) ==> (h.import_key is Some) == (h.rank <= 2)
}

/// The order reports of items `k..` of a run, from the greatest item so far.
pub open spec fn order_fold(run: Seq<ClassifiedView>, k: int, highest: Option<RankedView>) -> Seq<Report>
    decreases run.len() - k,
{
    if k < 0 || k >= run.len() {
        Seq::empty()
    } else {
        let (reports, next) = order_step(highest, run[k]);
        reports + order_fold(run, k + 1, next)
    }
}

/// A report of an item's order or of an import's origin.
pub open spec fn is_order_report(report: Report) -> bool {
    report.kind is ItemOrder || report.kind is ImportOrder
}

/// How many of the reports concern order.
pub open spec fn order_report_count(reports: Seq<Report>) -> nat
    decreases reports.len(),
{
    if reports.len() == 0 {
        0
    } else {
        order_report_count(reports.drop_last()) + if is_order_report(reports.last()) {
            1nat
        } else {
            0nat
        }
    }
}

proof fn lemma_order_report_count_add(a: Seq<Report>, b: Seq<Report>)
    ensures
        order_report_count(a + b) == order_report_count(a) + order_report_count(b),
    decreases b.len(),
{
    if b.len() > 0 {
        assert((a + b).drop_last() =~= a + b.drop_last());
        lemma_order_report_count_add(a, b.drop_last());
    } else {
        assert(a + b =~= a);
    }
}

/// One order step reports exactly when the item's key is below the greatest key so
/// far, and the greatest key afterwards is the larger of the two.
proof fn lemma_order_step_keys(highest: Option<RankedView>, item: ClassifiedView)
    requires
        highest_keyed(highest),
        keyed_as_imports(item),
    ensures
        ({
            let (reports, next) = order_step(highest, item);
            &&& order_report_count(reports) == reports.len()
            &&& (reports.len() > 0) == (order_key(item) < highest_key(highest))
            &&& highest_keyed(next)
            &&& highest_key(next) == if order_key(item) < highest_key(highest) {
                highest_key(highest)
            } else {
                order_key(item)
            }
        }),
{
    let (reports, next) = order_step(highest, item);
    assert(order_report_count(Seq::<Report>::empty()) == 0);
    let rank = class_rank(item.class);
    assert((rank <= 2) == (item.class.kind == ItemKind::Use));
    assert(highest_key(Some(ranked(item))) == order_key(item));
    match highest {
        None => {},
        Some(h) => {
            if rank < h.rank {
                assert(reports.drop_last() =~= Seq::<Report>::empty());
            } else if rank > h.rank {
            } else {
                match (item.import_key, h.import_key) {
                    (Some(key), Some(highest_key)) => {
                        if group_rank(key.group) < group_rank(highest_key.group) {
                            assert(reports.drop_last() =~= Seq::<Report>::empty());
                        }
                    },
                    _ => {},
                }
            }
        },
    }
}

/// A separation report never concerns order.
proof fn lemma_separation_not_order(text: Seq<char>, previous: Option<PreviousView>, current: ClassifiedView)
    ensures
        order_report_count(separation_reports(text, previous, current)) == 0,
{
    let reports = separation_reports(text, previous, current);
    assert(order_report_count(Seq::<Report>::empty()) == 0);
    if reports.len() > 0 {
        assert(reports.len() == 1);
        assert(reports.drop_last() =~= Seq::<Report>::empty());
        assert(!is_order_report(reports.last()));
    }
}

/// The reports of a run's items, separations aside, are the order reports.
proof fn lemma_run_fold_order_count(text: Seq<char>, run: Seq<ClassifiedView>, k: int, state: RunState)
    requires
        0 <= k <= run.len(),
        highest_keyed(state.highest),
        forall|i: int| 0 <= i < run.len() ==> keyed_as_imports(#[trigger] run[i]),
    ensures
        order_report_count(run_fold(text, run, k, state)) == order_fold(run, k, state.highest).len(),
    decreases run.len() - k,
{
    if k < run.len() {
        let separation = separation_reports(text, state.previous, run[k]);
        let (order, highest) = order_step(state.highest, run[k]);
        let (reports, next) = run_step(text, state, run[k]);
        lemma_order_step_keys(state.highest, run[k]);
        lemma_run_fold_order_count(text, run, k + 1, next);
        lemma_separation_not_order(text, state.previous, run[k]);
        lemma_order_report_count_add(separation, order);
        lemma_order_report_count_add(reports, run_fold(text, run, k + 1, next));
    }
}

/// From item `k` on, nothing is reported of order exactly when no later key is below
/// the greatest key so far and the later keys do not decrease.
proof fn lemma_order_fold_sorted(run: Seq<ClassifiedView>, k: int, highest: Option<RankedView>)
    requires
        0 <= k <= run.len(),
        highest_keyed(highest),
        forall|i: int| 0 <= i < run.len() ==> keyed_as_imports(#[trigger] run[i]),
    ensures
        (order_fold(run, k, highest).len() == 0) == ((forall|j: int|
            k <= j < run.len() ==> highest_key(highest) <= #[trigger] order_key(run[j])) && forall|i: int, j: int|
            k <= i < j < run.len() ==> order_key(#[trigger] run[i]) <= order_key(#[trigger] run[j])),
    decreases run.len() - k,
{
    if k < run.len() {
        let (reports, next) = order_step(highest, run[k]);
        lemma_order_step_keys(highest, run[k]);
        lemma_order_fold_sorted(run, k + 1, next);
    }
}

/// A run free of ordinary comments draws an order report exactly when its items are
/// not in the conventional order: by class, and imports of one class by origin.
pub proof fn lemma_run_order_reports_iff_unsorted(text: Seq<char>, run: Seq<ClassifiedView>)
    requires
        forall|i: int| 0 <= i < run.len() ==> keyed_as_imports(#[trigger] run[i]),
    ensures
        (order_report_count(run_fold(text, run, 0, initial_state())) == 0) == (forall|i: int, j: int|
            0 <= i < j < run.len() ==> order_key(#[trigger] run[i]) <= order_key(#[trigger] run[j])),
{
    lemma_run_fold_order_count(text, run, 0, initial_state());
    lemma_order_fold_sorted(run, 0, None);
    assert forall|j: int| 0 <= j < run.len() implies highest_key(None) <= #[trigger] order_key(run[j]) by {}
}

/// The greatest item after the first `k` items of a run, as the order steps leave it.
pub open spec fn order_state(run: Seq<ClassifiedView>, k: int) -> Option<RankedView>
    decreases k,
{
    if k <= 0 || k > run.len() {
        None
    } else {
        order_step(order_state(run, k - 1), run[k - 1]).1
    }
}

/// Item `m` is the earliest of the first `k` items of a run with the greatest order
/// key: class rank, then, for imports, origin group.
pub open spec fn earliest_greatest(run: Seq<ClassifiedView>, k: int, m: int) -> bool {
    &&& 0 <= m < k
    &&& forall|j: int| 0 <= j < k ==> order_key(#[trigger] run[j]) <= order_key(run[m])
    &&& forall|j: int| 0 <= j < m ==> order_key(#[trigger] run[j]) < order_key(run[m])
}

/// What the order of `current` reports against the greatest earlier item `h`: that its
/// class must precede `h`'s where its rank is lower; that its path must precede `h`'s
/// where both are imports of one rank and its origin group is lower; else nothing.
pub open spec fn order_reports_against(h: ClassifiedView, current: ClassifiedView) -> Seq<Report> {
    if class_rank(current.class) < class_rank(h.class) {
        seq![
            Report {
                at: current.span.start,
                kind: ViolationView::ItemOrder { found: current.class, must_precede: h.class },
            },
        ]
    } else if class_rank(current.class) == class_rank(h.class) && current.import_key is Some
        && h.import_key is Some && group_rank(current.group()) < group_rank(h.group()) {
        seq![
            Report {
                at: current.span.start,
                kind: ViolationView::ImportOrder {
                    found: current.import_key->Some_0.path,
                    must_precede: h.import_key->Some_0.path,
                },
            },
        ]
    } else {
        Seq::empty()
    }
}

/// After the first `k` items of a run, the greatest item that the order steps keep is
/// the earliest item with the greatest order key.
pub proof fn lemma_order_state_is_earliest_greatest(run: Seq<ClassifiedView>, k: int)
    requires
        0 < k <= run.len(),
        forall|i: int| 0 <= i < run.len() ==> keyed_as_imports(#[trigger] run[i]),
    ensures
        exists|m: int| earliest_greatest(run, k, m) && order_state(run, k) == Some(ranked(run[m])),
    decreases k,
{
    let x = run[k - 1];
    assert(keyed_as_imports(x));
    assert((class_rank(x.class) <= 2) == (x.class.kind == ItemKind::Use));
    if k == 1 {
        assert(earliest_greatest(run, 1, 0));
    } else {
        lemma_order_state_is_earliest_greatest(run, k - 1);
        let m = choose|m: int| earliest_greatest(run, k - 1, m) && order_state(run, k - 1) == Some(ranked(run[m]));
        let h = run[m];
        assert(keyed_as_imports(h));
        assert((class_rank(h.class) <= 2) == (h.class.kind == ItemKind::Use));
        if order_key(x) > order_key(h) {
            assert(order_state(run, k) == Some(ranked(x)));
            assert(earliest_greatest(run, k, k - 1));
        } else {
            assert(order_state(run, k) == Some(ranked(h)));
            assert(earliest_greatest(run, k, m));
        }
    }
}

/// Where the order of an item of a run is judged, its reports are those against the
/// earliest greatest item before it (none for the first item); the order reports of a
/// run are these, item by item.
pub proof fn lemma_order_report_closed_form(run: Seq<ClassifiedView>, n: int)
    requires
        0 <= n < run.len(),
        forall|i: int| 0 <= i < run.len() ==> keyed_as_imports(#[trigger] run[i]),
    ensures
        n == 0 ==> order_step(order_state(run, n), run[n]).0 == Seq::<Report>::empty(),
        forall|m: int|
            earliest_greatest(run, n, m) ==> order_step(order_state(run, n), run[n]).0 == order_reports_against(
                #[trigger] run[m],
                run[n],
            ),
        order_fold(run, n, order_state(run, n)) == order_step(order_state(run, n), run[n]).0 + order_fold(
            run,
            n + 1,
            order_state(run, n + 1),
        ),
{
    let x = run[n];
    assert(keyed_as_imports(x));
    assert((class_rank(x.class) <= 2) == (x.class.kind == ItemKind::Use));
    if n > 0 {
        lemma_order_state_is_earliest_greatest(run, n);
        let m0 = choose|m: int| earliest_greatest(run, n, m) && order_state(run, n) == Some(ranked(run[m]));
        assert forall|m: int| earliest_greatest(run, n, m) implies order_step(order_state(run, n), run[n]).0
            == order_reports_against(#[trigger] run[m], run[n]) by {
            if m < m0 {
                assert(order_key(run[m]) < order_key(run[m0]));
            } else if m > m0 {
                assert(order_key(run[m0]) < order_key(run[m]));
            }
            let h = run[m];
            assert(keyed_as_imports(h));
            assert((class_rank(h.class) <= 2) == (h.class.kind == ItemKind::Use));
        }
    }
}

/// `classify` gives imports, and only them, an import key.
pub proof fn lemma_classified_items_keyed(item: SyntaxItem, names: Seq<Seq<char>>)
    requires
        classify(item, names) is Some,
    ensures
        keyed_as_imports(classify(item, names)->Some_0),
{
}

/// The conventional test module is reported exactly when it is not private; no other
/// item draws that report.
pub proof fn lemma_test_module_must_be_private(item: SyntaxItem)
    ensures
        (visibility_reports(item).len() > 0) == (item.node matches ItemNode::Mod(m) && is_test_module(m)
            && !(m.vis is Inherited)),
{
}

} // verus!
