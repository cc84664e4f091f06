//! Reports error variants that are out of alphabetical order, not spaced by exactly one
//! empty line, or separated by ordinary comments.
use vstd::prelude::*;

use super::model::{ErrorEnum, is_error_enum, unraw_name, variant_name};
use crate::diagnostic::{
    Violation as Diagnostic, ViolationKind as DiagnosticKind, ViolationKindView,
    ViolationView as DiagnosticView, names_view, violation_at, violations_view,
};
use crate::source::{Position, Source, line_is_blank, offset_of};
use crate::syntax::{EnumItem, ItemNode, SyntaxItem, VariantSyntax};
use crate::text::{chars_of, has_comment_marker, push_str, range_has_comment_marker, seq_lt};

verus! {

#[derive(Debug, Clone, PartialEq, Eq)]
pub enum Violation {
    Order { found: String, must_precede: String },
    Spacing { previous: String, current: String },
    OrdinaryComment { previous: String, current: String },
}

pub enum ViolationView {
    Order { found: Seq<char>, must_precede: Seq<char> },
    Spacing { previous: Seq<char>, current: Seq<char> },
    OrdinaryComment { previous: Seq<char>, current: Seq<char> },
}

/// The sentence that describes a violation.
pub open spec fn violation_message(v: ViolationView) -> Seq<char> {
    match v {
        ViolationView::Order { found, must_precede } => "error variant `"@ + found
            + "` must appear before `"@ + must_precede + "`"@,
        ViolationView::Spacing { previous, current } => "error variants `"@ + previous
            + "` and `"@ + current + "` must be separated by exactly one empty line"@,
        ViolationView::OrdinaryComment { previous, current } =>
            "ordinary comments between error variants `"@ + previous + "` and `"@ + current
                + "` are unsupported; use Rustdoc (`///`) on `"@ + current + "`"@,
    }
}

impl Violation {
    pub open spec fn view(&self) -> ViolationView {
        match self {
            Violation::Order { found, must_precede } => ViolationView::Order {
                found: found@,
                must_precede: must_precede@,
            },
            Violation::Spacing { previous, current } => ViolationView::Spacing {
                previous: previous@,
                current: current@,
            },
            Violation::OrdinaryComment { previous, current } => ViolationView::OrdinaryComment {
                previous: previous@,
                current: current@,
            },
        }
    }

    pub fn clone_violation(&self) -> (copy: Self)
        ensures
            copy.view() == self.view(),
    {
        match self {
            Violation::Order { found, must_precede } => Violation::Order {
                found: found.clone(),
                must_precede: must_precede.clone(),
            },
            Violation::Spacing { previous, current } => Violation::Spacing {
                previous: previous.clone(),
                current: current.clone(),
            },
            Violation::OrdinaryComment { previous, current } => Violation::OrdinaryComment {
                previous: previous.clone(),
                current: current.clone(),
            },
        }
    }

    pub fn message(&self) -> (message: String)
        ensures
            message@ == violation_message(self.view()),
    {
        let mut m = String::new();
        match self {
            Violation::Order { found, must_precede } => {
                push_str(&mut m, "error variant `");
                push_str(&mut m, found.as_str());
                push_str(&mut m, "` must appear before `");
                push_str(&mut m, must_precede.as_str());
                push_str(&mut m, "`");
            },
            Violation::Spacing { previous, current } => {
                push_str(&mut m, "error variants `");
                push_str(&mut m, previous.as_str());
                push_str(&mut m, "` and `");
                push_str(&mut m, current.as_str());
                push_str(&mut m, "` must be separated by exactly one empty line");
            },
            Violation::OrdinaryComment { previous, current } => {
                push_str(&mut m, "ordinary comments between error variants `");
                push_str(&mut m, previous.as_str());
                push_str(&mut m, "` and `");
                push_str(&mut m, current.as_str());
                push_str(&mut m, "` are unsupported; use Rustdoc (`///`) on `");
                push_str(&mut m, current.as_str());
                push_str(&mut m, "`");
            },
        }
        proof {
            let e = Seq::<char>::empty();
            assert forall|a: Seq<char>| e + a =~= a by {}
        }
        m
    }
}

/// A violation at a position of the module being checked.
pub struct Report {
    pub at: Position,
    pub kind: ViolationView,
}

/// An ordinary comment stands between two variants' texts.
pub open spec fn comment_between(text: Seq<char>, previous: VariantSyntax, current: VariantSyntax) -> bool {
    match (offset_of(text, previous.span.end), offset_of(text, current.span.start)) {
        (Some(start), Some(end)) => start <= end <= text.len() && has_comment_marker(
            text.subrange(start, end),
        ),
        _ => false,
    }
}

/// The comments between variants, each reported at the name of the variant after it.
pub open spec fn comment_reports(text: Seq<char>, variants: Seq<VariantSyntax>) -> Seq<Report>
    decreases variants.len(),
{
    if variants.len() < 2 {
        Seq::empty()
    } else {
        let previous = variants[variants.len() - 2];
        let current = variants.last();
        comment_reports(text, variants.drop_last()) + if comment_between(text, previous, current) {
            seq![
                Report {
                    at: current.ident_start,
                    kind: ViolationView::OrdinaryComment {
                        previous: variant_name(previous),
                        current: variant_name(current),
                    },
                },
            ]
        } else {
            Seq::empty()
        }
    }
}

/// The variants `k..` whose name is below the greatest name before them.
pub open spec fn order_reports(variants: Seq<VariantSyntax>, k: int, greatest: Seq<char>) -> Seq<Report>
    decreases variants.len() - k,
{
    if k < 0 || k >= variants.len() {
        Seq::empty()
    } else {
        let current = variant_name(variants[k]);
        if !seq_lt(current, greatest) {
            order_reports(variants, k + 1, current)
        } else {
            seq![
                Report {
                    at: variants[k].ident_start,
                    kind: ViolationView::Order { found: current, must_precede: greatest },
                },
            ] + order_reports(variants, k + 1, greatest)
        }
    }
}

/// Line `current_start` (from 1) comes two after line `previous_end`, and the one
/// between is blank.
pub open spec fn one_empty_line(text: Seq<char>, previous_end: int, current_start: int) -> bool {
    current_start == previous_end + 2 && line_is_blank(text, previous_end)
}

/// The adjacent variants that are not separated by exactly one empty line.
pub open spec fn spacing_reports(text: Seq<char>, variants: Seq<VariantSyntax>) -> Seq<Report>
    decreases variants.len(),
{
    if variants.len() < 2 {
        Seq::empty()
    } else {
        let previous = variants[variants.len() - 2];
        let current = variants.last();
        spacing_reports(text, variants.drop_last()) + if !one_empty_line(
            text,
            previous.span.end.line as int,
            current.span.start.line as int,
        ) {
            seq![
                Report {
                    at: current.ident_start,
                    kind: ViolationView::Spacing {
                        previous: variant_name(previous),
                        current: variant_name(current),
                    },
                },
            ]
        } else {
            Seq::empty()
        }
    }
}

/// What an enum reports: nothing unless it derives `Error`; its comments where it has
/// any; else its order, then its spacing.
pub open spec fn enum_reports(text: Seq<char>, item: EnumItem) -> Seq<Report> {
    let variants = item.variants@;
    if !is_error_enum(item) {
        Seq::empty()
    } else if comment_reports(text, variants).len() > 0 {
        comment_reports(text, variants)
    } else {
        (if variants.len() == 0 {
            Seq::empty()
        } else {
            order_reports(variants, 1, variant_name(variants[0]))
        }) + spacing_reports(text, variants)
    }
}

/// The violations that reports of a module become.
pub open spec fn reports_view(path: Seq<char>, modules: Seq<Seq<char>>, reports: Seq<Report>) -> Seq<DiagnosticView> {
    reports.map_values(
        |r: Report| violation_at(path, r.at, modules, ViolationKindView::ErrorVariants(r.kind)),
    )
}

/// Everything that the error variant rule reports for items `k..` of a module, each
/// inline module where it stands.
pub open spec fn error_variant_violations(
    path: Seq<char>,
    text: Seq<char>,
    items: Seq<SyntaxItem>,
    modules: Seq<Seq<char>>,
    k: int,
) -> Seq<DiagnosticView>
    decreases items, items.len() - k,
{
    if k < 0 || k >= items.len() {
        Seq::empty()
    } else {
        let here = match items[k].node {
            ItemNode::Enum(e) => reports_view(path, modules, enum_reports(text, e)),
            ItemNode::Mod(m) => match m.content {
                Some(content) => error_variant_violations(
                    path,
                    text,
                    content@,
                    modules.push(m.ident@),
                    0,
                ),
                None => Seq::empty(),
            },
            _ => Seq::empty(),
        };
        here + error_variant_violations(path, text, items, modules, k + 1)
    }
}

proof fn lemma_reports_view_add(
    path: Seq<char>,
    modules: Seq<Seq<char>>,
    a: Seq<Report>,
    b: Seq<Report>,
)
    ensures
        reports_view(path, modules, a + b) == reports_view(path, modules, a) + reports_view(
            path,
            modules,
            b,
        ),
{
    assert(reports_view(path, modules, a + b) =~= reports_view(path, modules, a) + reports_view(
        path,
        modules,
        b,
    ));
}

/// `a < b` for strings.
pub fn string_lt(a: &String, b: &String) -> (result: bool)
    ensures
        result == seq_lt(a@, b@),
{
    let ca = chars_of(a.as_str());
    let cb = chars_of(b.as_str());
    let mut i: usize = 0;
    assert(ca@.skip(0) =~= ca@);
    assert(cb@.skip(0) =~= cb@);
    while i < ca.len() && i < cb.len() && ca[i] == cb[i]
        invariant
            0 <= i <= ca@.len(),
            i <= cb@.len(),
            seq_lt(ca@, cb@) == seq_lt(ca@.skip(i as int), cb@.skip(i as int)),
        decreases ca@.len() - i,
    {
        let ghost sa = ca@.skip(i as int);
        let ghost sb = cb@.skip(i as int);
        assert(sa.drop_first() =~= ca@.skip(i + 1));
        assert(sb.drop_first() =~= cb@.skip(i + 1));
        i = i + 1;
    }
    let ghost sa = ca@.skip(i as int);
    let ghost sb = cb@.skip(i as int);
    if i == ca.len() {
        assert(sa.len() == 0);
        i < cb.len()
    } else if i == cb.len() {
        false
    } else {
        assert(sa[0] == ca@[i as int] && sb[0] == cb@[i as int]);
        ca[i] < cb[i]
    }
}

/// Walks the items of a module and of its inline modules.
pub struct ErrorVariantChecker<'a> {
    path: &'a String,
    source: &'a Source,
    modules: Vec<String>,
    violations: Vec<Diagnostic>,
}

impl<'a> ErrorVariantChecker<'a> {
    pub closed spec fn text(&self) -> Seq<char> {
        self.source.chars()
    }

    pub closed spec fn found(&self) -> Seq<DiagnosticView> {
        violations_view(self.violations@)
    }

    pub closed spec fn same_setting(&self, other: &Self) -> bool {
        &&& self.path == other.path
        &&& self.source == other.source
        &&& self.modules@ == other.modules@
    }

    pub closed spec fn spec_path(&self) -> Seq<char> {
        self.path@
    }

    pub closed spec fn spec_modules(&self) -> Seq<Seq<char>> {
        names_view(self.modules@)
    }

    pub closed spec fn wf(&self) -> bool {
        self.source.wf()
    }

    pub fn new(path: &'a String, source: &'a Source) -> (checker: Self)
        requires
            source.wf(),
        ensures
            checker.wf(),
            checker.found() == Seq::<DiagnosticView>::empty(),
            checker.spec_path() == path@,
            checker.text() == source.chars(),
            checker.spec_modules() == Seq::<Seq<char>>::empty(),
    {
        let checker = ErrorVariantChecker {
            path,
            source,
            modules: Vec::new(),
            violations: Vec::new(),
        };
        assert(violations_view(checker.violations@) =~= Seq::<DiagnosticView>::empty());
        assert(names_view(checker.modules@) =~= Seq::<Seq<char>>::empty());
        checker
    }

    fn report(&mut self, at: Position, kind: Violation)
        ensures
            final(self).same_setting(old(self)),
            final(self).found() == old(self).found().push(
                violation_at(
                    old(self).spec_path(),
                    at,
                    old(self).spec_modules(),
                    ViolationKindView::ErrorVariants(kind.view()),
                ),
            ),
    {
        let violation = Diagnostic::at(
            self.path,
            at,
            &self.modules,
            DiagnosticKind::ErrorVariants(kind),
        );
        self.violations.push(violation);
        assert(violations_view(self.violations@) =~= violations_view(old(self).violations@).push(
            violation.view(),
        ));
    }

    /// Line `current_start` (from 1) comes two after `previous_end`, and the line between
    /// them is blank.
    pub fn has_one_empty_line(&self, previous_end: usize, current_start: usize) -> (result: bool)
        requires
            self.wf(),
        ensures
            result == one_empty_line(self.text(), previous_end as int, current_start as int),
    {
        if current_start < 2 || current_start - 2 != previous_end {
            return false;
        }
        self.source.line_is_blank(previous_end)
    }

    fn has_ordinary_comment_between(&self, previous: &VariantSyntax, current: &VariantSyntax) -> (result: bool)
        requires
            self.wf(),
        ensures
            result == comment_between(self.text(), *previous, *current),
    {
        match self.source.range_between(previous.span.end, current.span.start) {
            Some((start, end)) => range_has_comment_marker(self.source.text(), start, end),
            None => false,
        }
    }

    /// Reports the comments between variants; true when there is one.
    fn check_ordinary_comments(&mut self, variants: &Vec<VariantSyntax>) -> (found: bool)
        requires
            old(self).wf(),
        ensures
            final(self).same_setting(old(self)),
            final(self).wf(),
            final(self).found() == old(self).found() + reports_view(
                old(self).spec_path(),
                old(self).spec_modules(),
                comment_reports(old(self).text(), variants@),
            ),
            found == (comment_reports(old(self).text(), variants@).len() > 0),
    {
        let ghost text = self.text();
        let ghost path = self.spec_path();
        let ghost modules = self.spec_modules();
        let ghost start = self.found();
        let ghost all = variants@;
        assert(reports_view(path, modules, Seq::<Report>::empty()) =~= Seq::<DiagnosticView>::empty());
        if variants.len() < 2 {
            assert(start + Seq::<DiagnosticView>::empty() =~= start);
            return false;
        }
        let mut found = false;
        let mut k: usize = 1;
        assert(all.take(1).len() == 1);
        assert(comment_reports(text, all.take(1)) =~= Seq::<Report>::empty());
        assert(start + Seq::<DiagnosticView>::empty() =~= start);
        while k < variants.len()
            invariant
                self.wf(),
                self.text() == text,
                self.spec_path() == path,
                self.spec_modules() == modules,
                all == variants@,
                self.same_setting(old(self)),
                1 <= k <= variants@.len(),
                self.found() == start + reports_view(path, modules, comment_reports(text, all.take(k as int))),
                found == (comment_reports(text, all.take(k as int)).len() > 0),
            decreases variants@.len() - k,
        {
            let ghost prefix = all.take(k + 1);
            assert(prefix.drop_last() =~= all.take(k as int));
            assert(prefix[prefix.len() - 2] == variants@[k - 1]);
            assert(prefix.last() == variants@[k as int]);
            let ghost before = comment_reports(text, all.take(k as int));
            if self.has_ordinary_comment_between(&variants[k - 1], &variants[k]) {
                found = true;
                let previous = unraw_name(&variants[k - 1].ident);
                let current = unraw_name(&variants[k].ident);
                self.report(variants[k].ident_start, Violation::OrdinaryComment { previous, current });
                proof {
                    let r = Report {
                        at: variants@[k as int].ident_start,
                        kind: ViolationView::OrdinaryComment {
                            previous: variant_name(variants@[k - 1]),
                            current: variant_name(variants@[k as int]),
                        },
                    };
                    assert(comment_reports(text, prefix) == before + seq![r]);
                    lemma_reports_view_add(path, modules, before, seq![r]);
                    assert(reports_view(path, modules, seq![r]) =~= seq![
                        violation_at(path, r.at, modules, ViolationKindView::ErrorVariants(r.kind)),
                    ]);
                    assert(self.found() =~= start + reports_view(path, modules, comment_reports(text, prefix)));
                }
            } else {
                proof {
                    assert(comment_reports(text, prefix) =~= before);
                }
            }
            k = k + 1;
        }
        assert(all.take(k as int) =~= all);
        found
    }

    fn check_variant_order(&mut self, variants: &Vec<VariantSyntax>)
        requires
            old(self).wf(),
        ensures
            final(self).same_setting(old(self)),
            final(self).wf(),
            final(self).found() == old(self).found() + reports_view(
                old(self).spec_path(),
                old(self).spec_modules(),
                if variants@.len() == 0 {
                    Seq::empty()
                } else {
                    order_reports(variants@, 1, variant_name(variants@[0]))
                },
            ),
    {
        let ghost path = self.spec_path();
        let ghost modules = self.spec_modules();
        let ghost start = self.found();
        assert(reports_view(path, modules, Seq::<Report>::empty()) =~= Seq::<DiagnosticView>::empty());
        assert(start + Seq::<DiagnosticView>::empty() =~= start);
        if variants.len() == 0 {
            return;
        }
        let mut greatest_seen = unraw_name(&variants[0].ident);
        let mut k: usize = 1;
        while k < variants.len()
            invariant
                self.wf(),
                self.spec_path() == path,
                self.spec_modules() == modules,
                self.same_setting(old(self)),
                1 <= k <= variants@.len(),
                self.found() + reports_view(path, modules, order_reports(variants@, k as int, greatest_seen@))
                    == start + reports_view(path, modules, order_reports(variants@, 1, variant_name(variants@[0]))),
            decreases variants@.len() - k,
        {
            let ghost before = self.found();
            let ghost greatest = greatest_seen@;
            let current = unraw_name(&variants[k].ident);
            if !string_lt(&current, &greatest_seen) {
                greatest_seen = current;
            } else {
                let found = current.clone();
                self.report(variants[k].ident_start, Violation::Order { found, must_precede: greatest_seen.clone() });
                proof {
                    let r = Report {
                        at: variants@[k as int].ident_start,
                        kind: ViolationView::Order { found: variant_name(variants@[k as int]), must_precede: greatest },
                    };
                    lemma_reports_view_add(path, modules, seq![r], order_reports(variants@, k + 1, greatest));
                    assert(reports_view(path, modules, seq![r]) =~= seq![
                        violation_at(path, r.at, modules, ViolationKindView::ErrorVariants(r.kind)),
                    ]);
                    assert(self.found() + reports_view(path, modules, order_reports(variants@, k + 1, greatest))
                        =~= before + reports_view(path, modules, order_reports(variants@, k as int, greatest)));
                }
            }
            k = k + 1;
        }
        assert(reports_view(path, modules, order_reports(variants@, k as int, greatest_seen@)) =~= Seq::<DiagnosticView>::empty());
        assert(self.found() + Seq::<DiagnosticView>::empty() =~= self.found());
    }

    fn check_variant_spacing(&mut self, variants: &Vec<VariantSyntax>)
        requires
            old(self).wf(),
        ensures
            final(self).same_setting(old(self)),
            final(self).wf(),
            final(self).found() == old(self).found() + reports_view(
                old(self).spec_path(),
                old(self).spec_modules(),
                spacing_reports(old(self).text(), variants@),
            ),
    {
        let ghost text = self.text();
        let ghost path = self.spec_path();
        let ghost modules = self.spec_modules();
        let ghost start = self.found();
        let ghost all = variants@;
        assert(reports_view(path, modules, Seq::<Report>::empty()) =~= Seq::<DiagnosticView>::empty());
        assert(start + Seq::<DiagnosticView>::empty() =~= start);
        if variants.len() < 2 {
            return;
        }
        let mut k: usize = 1;
        assert(all.take(1).len() == 1);
        assert(spacing_reports(text, all.take(1)) =~= Seq::<Report>::empty());
        while k < variants.len()
            invariant
                self.wf(),
                self.text() == text,
                self.spec_path() == path,
                self.spec_modules() == modules,
                all == variants@,
                self.same_setting(old(self)),
                1 <= k <= variants@.len(),
                self.found() == start + reports_view(path, modules, spacing_reports(text, all.take(k as int))),
            decreases variants@.len() - k,
        {
            let ghost prefix = all.take(k + 1);
            assert(prefix.drop_last() =~= all.take(k as int));
            assert(prefix[prefix.len() - 2] == variants@[k - 1]);
            assert(prefix.last() == variants@[k as int]);
            let ghost before = spacing_reports(text, all.take(k as int));
            let previous = &variants[k - 1];
            let current = &variants[k];
            if !self.has_one_empty_line(previous.span.end.line, current.span.start.line) {
                let previous_name = unraw_name(&previous.ident);
                let current_name = unraw_name(&current.ident);
                self.report(current.ident_start, Violation::Spacing { previous: previous_name, current: current_name });
                proof {
                    let r = Report {
                        at: variants@[k as int].ident_start,
                        kind: ViolationView::Spacing {
                            previous: variant_name(variants@[k - 1]),
                            current: variant_name(variants@[k as int]),
                        },
                    };
                    assert(spacing_reports(text, prefix) == before + seq![r]);
                    lemma_reports_view_add(path, modules, before, seq![r]);
                    assert(reports_view(path, modules, seq![r]) =~= seq![
                        violation_at(path, r.at, modules, ViolationKindView::ErrorVariants(r.kind)),
                    ]);
                    assert(self.found() =~= start + reports_view(path, modules, spacing_reports(text, prefix)));
                }
            } else {
                proof {
                    assert(spacing_reports(text, prefix) =~= before);
                }
            }
            k = k + 1;
        }
        assert(all.take(k as int) =~= all);
    }

    fn check_enum(&mut self, item_enum: &EnumItem)
        requires
            old(self).wf(),
        ensures
            final(self).same_setting(old(self)),
            final(self).wf(),
            final(self).found() == old(self).found() + reports_view(
                old(self).spec_path(),
                old(self).spec_modules(),
                enum_reports(old(self).text(), *item_enum),
            ),
    {
        let ghost path = self.spec_path();
        let ghost modules = self.spec_modules();
        let error_enum = match ErrorEnum::from_ast(item_enum) {
            Some(error_enum) => error_enum,
            None => {
                assert(reports_view(path, modules, Seq::<Report>::empty()) =~= Seq::<DiagnosticView>::empty());
                assert(self.found() + Seq::<DiagnosticView>::empty() =~= self.found());
                return;
            },
        };
        let variants = error_enum.variants();
        if self.check_ordinary_comments(variants) {
            return;
        }
        let ghost variants_view = variants@;
        self.check_variant_order(variants);
        self.check_variant_spacing(variants);
        proof {
            let order = if variants_view.len() == 0 {
                Seq::<Report>::empty()
            } else {
                order_reports(variants_view, 1, variant_name(variants_view[0]))
            };
            lemma_reports_view_add(path, modules, order, spacing_reports(old(self).text(), variants_view));
        }
    }

    /// Checks the enums of a module, and each inline module where it stands.
    pub fn check_items(&mut self, items: &Vec<SyntaxItem>)
        requires
            old(self).wf(),
        ensures
            final(self).same_setting(old(self)),
            final(self).wf(),
            final(self).found() == old(self).found() + error_variant_violations(
                old(self).spec_path(),
                old(self).text(),
                items@,
                old(self).spec_modules(),
                0,
            ),
        decreases items@,
    {
        let ghost text = self.text();
        let ghost path = self.spec_path();
        let ghost modules = self.spec_modules();
        let ghost start = self.found();
        let mut k: usize = 0;
        while k < items.len()
            invariant
                self.wf(),
                self.text() == text,
                self.spec_path() == path,
                self.spec_modules() == modules,
                self.same_setting(old(self)),
                0 <= k <= items@.len(),
                self.found() + error_variant_violations(path, text, items@, modules, k as int)
                    == start + error_variant_violations(path, text, items@, modules, 0),
            decreases items@.len() - k,
        {
            let ghost before = self.found();
            match &items[k].node {
                ItemNode::Enum(item_enum) => {
                    self.check_enum(item_enum);
                },
                ItemNode::Mod(m) => {
                    if let Some(content) = &m.content {
                        let ghost saved = self.modules@;
                        self.modules.push(m.ident.clone());
                        proof {
                            assert(names_view(self.modules@) =~= modules.push(m.ident@));
                            assert(decreases_to!(items@ => items@[k as int]));
                            assert(decreases_to!(items@[k as int] => items@[k as int].node));
                            assert(decreases_to!(items@[k as int].node => items@[k as int].node->Mod_0));
                            assert(decreases_to!(items@[k as int].node->Mod_0 => items@[k as int].node->Mod_0.content));
                            assert(decreases_to!(items@[k as int].node->Mod_0.content => items@[k as int].node->Mod_0.content->Some_0));
                            assert(decreases_to!(items@[k as int].node->Mod_0.content->Some_0 => items@[k as int].node->Mod_0.content->Some_0@));
                        }
                        self.check_items(content);
                        self.modules.pop();
                        assert(self.modules@ =~= saved);
                    } else {
                        assert(before + Seq::<DiagnosticView>::empty() =~= before);
                    }
                },
                _ => {
                    assert(before + Seq::<DiagnosticView>::empty() =~= before);
                },
            }
            assert(before + error_variant_violations(path, text, items@, modules, k as int)
                =~= self.found() + error_variant_violations(path, text, items@, modules, k + 1));
            k = k + 1;
        }
        assert(error_variant_violations(path, text, items@, modules, k as int) =~= Seq::<DiagnosticView>::empty());
        assert(self.found() + Seq::<DiagnosticView>::empty() =~= self.found());
    }
}

/// Checks the error enums of a file's items, inline modules included, and appends what
/// it finds.
pub fn check(path: &String, source: &Source, items: &Vec<SyntaxItem>, violations: &mut Vec<Diagnostic>)
    requires
        source.wf(),
    ensures
        violations_view(final(violations)@) == violations_view(old(violations)@)
            + error_variant_violations(path@, source.chars(), items@, Seq::empty(), 0),
{
    let mut checker = ErrorVariantChecker::new(path, source);
    checker.check_items(items);
    let found = checker.violations;
    let ghost before = violations@;
    let mut i: usize = 0;
    while i < found.len()
        invariant
            0 <= i <= found@.len(),
            violations_view(violations@) == violations_view(before) + violations_view(
                found@.take(i as int),
            ),
        decreases found@.len() - i,
    {
        let ghost previous = violations@;
        let copy = found[i].clone_violation();
        violations.push(copy);
        assert(violations_view(violations@) =~= violations_view(previous).push(copy.view()));
        assert(found@.take(i + 1) =~= found@.take(i as int).push(found@[i as int]));
        assert(violations_view(found@.take(i + 1)) =~= violations_view(found@.take(i as int)).push(
            found@[i as int].view(),
        ));
        assert(violations_view(violations@) =~= violations_view(before) + violations_view(
            found@.take(i + 1),
        ));
        i = i + 1;
    }
    assert(found@.take(i as int) =~= found@);
    assert(violations_view(Seq::<Diagnostic>::empty()) =~= Seq::<DiagnosticView>::empty());
    assert(names_view(Seq::<String>::empty()) =~= Seq::<Seq<char>>::empty());
}

/// The names by which variants are ordered.
pub open spec fn variant_names_of(variants: Seq<VariantSyntax>) -> Seq<Seq<char>> {
    variants.map_values(|v: VariantSyntax| variant_name(v))
}

/// No name comes before one listed ahead of it.
pub open spec fn names_sorted(names: Seq<Seq<char>>) -> bool {
    forall|i: int, j: int| 0 <= i < j < names.len() ==> !seq_lt(#[trigger] names[j], #[trigger] names[i])
}

/// From variant `k` on, with `greatest` the greatest name before it, nothing is
/// reported exactly when no later name comes before `greatest` and the later names are
/// sorted.
proof fn lemma_order_reports_from(variants: Seq<VariantSyntax>, k: int, greatest: Seq<char>)
    requires
        0 <= k <= variants.len(),
    ensures
        (order_reports(variants, k, greatest).len() == 0) == ((forall|j: int|
            k <= j < variants.len() ==> !seq_lt(#[trigger] variant_name(variants[j]), greatest))
            && names_sorted(variant_names_of(variants).skip(k))),
    decreases variants.len() - k,
{
    let names = variant_names_of(variants);
    if k < variants.len() {
        let current = variant_name(variants[k]);
        assert(names[k] == current);
        if !seq_lt(current, greatest) {
            lemma_order_reports_from(variants, k + 1, current);
            crate::order::lemma_name_order_total();
            let le = crate::order::name_order();
            let rest = names.skip(k);
            let tail = names.skip(k + 1);
            if order_reports(variants, k + 1, current).len() == 0 {
                assert forall|j: int| k <= j < variants.len() implies !seq_lt(#[trigger] variant_name(variants[j]), greatest) by {
                    if j > k {
                        assert(le(greatest, current) && le(current, variant_name(variants[j])));
                    }
                }
                assert forall|a: int, b: int| 0 <= a < b < rest.len() implies !seq_lt(#[trigger] rest[b], #[trigger] rest[a]) by {
                    if a == 0 {
                        assert(rest[b] == variant_name(variants[k + b]));
                        assert(rest[0] == current);
                    } else {
                        assert(rest[a] == tail[a - 1] && rest[b] == tail[b - 1]);
                    }
                }
            } else {
                if names_sorted(rest) {
                    assert forall|j: int| k + 1 <= j < variants.len() implies !seq_lt(#[trigger] variant_name(variants[j]), current) by {
                        assert(rest[0] == current && rest[j - k] == variant_name(variants[j]));
                    }
                    assert forall|a: int, b: int| 0 <= a < b < tail.len() implies !seq_lt(#[trigger] tail[b], #[trigger] tail[a]) by {
                        assert(rest[a + 1] == tail[a] && rest[b + 1] == tail[b]);
                    }
                }
            }
        } else {
            lemma_order_reports_from(variants, k + 1, greatest);
        }
    } else {
        assert(names.skip(k).len() == 0);
    }
}

/// An error enum's variants draw an order report exactly when their names are not in
/// alphabetical order.
pub proof fn lemma_order_reports_iff_unsorted(variants: Seq<VariantSyntax>)
    requires
        variants.len() > 0,
    ensures
        (order_reports(variants, 1, variant_name(variants[0])).len() == 0) == names_sorted(
            variant_names_of(variants),
        ),
{
    let names = variant_names_of(variants);
    lemma_order_reports_from(variants, 1, variant_name(variants[0]));
    let tail = names.skip(1);
    if names_sorted(names) {
        assert forall|a: int, b: int| 0 <= a < b < tail.len() implies !seq_lt(#[trigger] tail[b], #[trigger] tail[a]) by {
            assert(names[a + 1] == tail[a] && names[b + 1] == tail[b]);
        }
        assert forall|j: int| 1 <= j < variants.len() implies !seq_lt(#[trigger] variant_name(variants[j]), variant_name(variants[0])) by {
            assert(names[j] == variant_name(variants[j]) && names[0] == variant_name(variants[0]));
        }
    }
    if order_reports(variants, 1, variant_name(variants[0])).len() == 0 {
        assert forall|a: int, b: int| 0 <= a < b < names.len() implies !seq_lt(#[trigger] names[b], #[trigger] names[a]) by {
            if a == 0 {
                assert(names[b] == variant_name(variants[b]));
            } else {
                assert(names[a] == tail[a - 1] && names[b] == tail[b - 1]);
            }
        }
    }
}

/// While ordinary comments stand between an error enum's variants, they are all that
/// it reports.
pub proof fn lemma_comments_suppress_enum_reports(text: Seq<char>, item: EnumItem)
    requires
        is_error_enum(item),
        comment_reports(text, item.variants@).len() > 0,
    ensures
        enum_reports(text, item) == comment_reports(text, item.variants@),
{
}

/// Without comments, an error enum reports its order and then its spacing, each judged
/// on its own.
pub proof fn lemma_order_and_spacing_independent(text: Seq<char>, item: EnumItem)
    requires
        is_error_enum(item),
        comment_reports(text, item.variants@).len() == 0,
        item.variants@.len() > 0,
    ensures
        enum_reports(text, item) == order_reports(item.variants@, 1, variant_name(item.variants@[0]))
            + spacing_reports(text, item.variants@),
{
}

/// An enum that does not derive `Error` reports nothing.
pub proof fn lemma_other_enums_ignored(text: Seq<char>, item: EnumItem)
    requires
        !is_error_enum(item),
    ensures
        enum_reports(text, item) == Seq::<Report>::empty(),
{
}

} // verus!
