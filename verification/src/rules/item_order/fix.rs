//! Reorders runs of `use` and `mod` items into the conventional order.
use vstd::prelude::*;

use super::model::{ClassifiedItem, ItemGroup, ItemPlacement, ModuleScope, classify, group_rank, module_names};
use crate::config::{ItemClass, ItemKind, class_rank};
use crate::edit::{Edit, EditView, edits_view};
use crate::order::{
    is_permutation, lemma_number_order_total, lemma_stable_sort_exists, lemma_stable_sort_is,
    lemma_stable_sort_of_sorted, number_order, stable_order_by_number, stable_sort,
};
use crate::source::{Source, line_start_before, newline_of, offset_of, uses_crlf};
use crate::syntax::{ItemNode, SyntaxItem};
use crate::text::{chars_eq, is_blank, push_range, push_str, range_is_blank};

verus! {

/// The view of an item that the fixer can move: its text range and placement.
pub struct FixableView {
    pub start: int,
    pub end: int,
    pub class: ItemClass,
    pub group: ItemGroup,
}

/// The key by which a run is sorted: rank, then group.
pub open spec fn sort_key(item: FixableView) -> usize {
    (class_rank(item.class) * 4 + group_rank(item.group)) as usize
}

/// An item that the fixer can move: a classified item whose span maps to offsets.
pub open spec fn fixable(text: Seq<char>, item: SyntaxItem, names: Seq<Seq<char>>) -> Option<FixableView> {
    match classify(item, names) {
        Some(c) => match (offset_of(text, item.span.start), offset_of(text, item.span.end)) {
            (Some(start), Some(end)) => Some(
                FixableView { start, end, class: c.class, group: c.group() },
            ),
            _ => None,
        },
        None => None,
    }
}

/// The first index at or after `start` whose item the fixer cannot move.
pub open spec fn run_end(text: Seq<char>, items: Seq<SyntaxItem>, names: Seq<Seq<char>>, start: int) -> int
    decreases items.len() - start,
{
    if start < 0 || start >= items.len() || fixable(text, items[start], names) is None {
        start
    } else {
        run_end(text, items, names, start + 1)
    }
}

/// The fixable items `start..end`.
pub open spec fn run_of(text: Seq<char>, items: Seq<SyntaxItem>, names: Seq<Seq<char>>, start: int, end: int) -> Seq<FixableView> {
    Seq::new((end - start) as nat, |i: int| fixable(text, items[start + i], names).unwrap())
}

/// Every item's range lies in the text, and each ends before the next starts.
pub open spec fn in_text_order(text: Seq<char>, run: Seq<FixableView>) -> bool {
    &&& forall|i: int|
        #![trigger run[i]]
        0 <= i < run.len() ==> 0 <= run[i].start && run[i].start <= run[i].end && run[i].end <= text.len()
    &&& forall|i: int| 0 <= i < run.len() - 1 ==> #[trigger] run[i].end <= run[i + 1].start
}

/// Non-whitespace text between two items of the run.
pub open spec fn has_text_between(text: Seq<char>, run: Seq<FixableView>) -> bool {
    exists|i: int|
        0 <= i < run.len() - 1 && !is_blank(#[trigger] text.subrange(run[i].end, run[i + 1].start))
}

/// The text of an item.
pub open spec fn item_text(text: Seq<char>, item: FixableView) -> Seq<char> {
    text.subrange(item.start, item.end)
}

/// Items joined by a newline, with a blank line where the class or group changes, each
/// after the first indented.
pub open spec fn render(text: Seq<char>, items: Seq<FixableView>, indentation: Seq<char>) -> Seq<char>
    decreases items.len(),
{
    if items.len() == 0 {
        Seq::empty()
    } else if items.len() == 1 {
        item_text(text, items[0])
    } else {
        let previous = items[items.len() - 2];
        let current = items.last();
        let newline = newline_of(text);
        render(text, items.drop_last(), indentation) + newline + (if current.class != previous.class
            || current.group != previous.group {
            newline
        } else {
            Seq::empty()
        }) + indentation + item_text(text, current)
    }
}

pub open spec fn sort_keys(run: Seq<FixableView>) -> Seq<usize> {
    run.map_values(|item: FixableView| sort_key(item))
}

pub open spec fn reordered(run: Seq<FixableView>, order: Seq<usize>) -> Seq<FixableView> {
    order.map_values(|i: usize| run[i as int])
}

/// The edit that sorts a run, where it has two items or more, its items are laid out in
/// order with only whitespace between them, and sorting changes its text.
pub open spec fn run_edit(text: Seq<char>, run: Seq<FixableView>, order: Seq<usize>) -> Option<EditView> {
    if run.len() < 2 || !in_text_order(text, run) || has_text_between(text, run) {
        None
    } else {
        let start = run[0].start;
        let end = run.last().end;
        let replacement = render(
            text,
            reordered(run, order),
            text.subrange(line_start_before(text, start), start),
        );
        if replacement == text.subrange(start, end) {
            None
        } else {
            Some(EditView { start, end, replacement })
        }
    }
}

/// The edits of items `index..` of a module, for the run stable orders that `orders`
/// gives: one per run that sorting changes, and the edits of the inline modules of the
/// runs that it does not, and of the items outside runs.
pub open spec fn module_edits(
    text: Seq<char>,
    items: Seq<SyntaxItem>,
    index: int,
    orders: spec_fn(Seq<usize>) -> Seq<usize>,
) -> Seq<EditView>
    decreases items, 1int, items.len() - index,
{
    let names = module_names(items);
    if index < 0 || index >= items.len() {
        Seq::empty()
    } else if fixable(text, items[index], names) is None {
        nested_edits(text, items, index, index + 1, orders) + module_edits(text, items, index + 1, orders)
    } else {
        let end = run_end(text, items, names, index);
        proof {
            lemma_run_end_after(text, items, names, index);
        }
        let run = run_of(text, items, names, index, end);
        match run_edit(text, run, orders(sort_keys(run))) {
            Some(edit) => seq![edit] + module_edits(text, items, end, orders),
            None => nested_edits(text, items, index, end, orders) + module_edits(text, items, end, orders),
        }
    }
}

/// The edits of the inline modules among items `start..end`.
pub open spec fn nested_edits(
    text: Seq<char>,
    items: Seq<SyntaxItem>,
    start: int,
    end: int,
    orders: spec_fn(Seq<usize>) -> Seq<usize>,
) -> Seq<EditView>
    decreases items, 0int, end - start,
{
    if start < 0 || end > items.len() || start >= end {
        Seq::empty()
    } else {
        let here = match items[start].node {
            ItemNode::Mod(m) => match m.content {
                Some(content) => module_edits(text, content@, 0, orders),
                None => Seq::empty(),
            },
            _ => Seq::empty(),
        };
        here + nested_edits(text, items, start + 1, end, orders)
    }
}

/// The stable order of a list of sort keys.
pub open spec fn stable_order_of_keys() -> spec_fn(Seq<usize>) -> Seq<usize> {
    |keys: Seq<usize>| stable_sort(keys, number_order())
}

/// An item that the fixer can move.
#[derive(Clone, Copy)]
pub struct FixableItem {
    pub start: usize,
    pub end: usize,
    pub placement: ItemPlacement,
}

impl FixableItem {
    pub open spec fn view(&self) -> FixableView {
        FixableView {
            start: self.start as int,
            end: self.end as int,
            class: self.placement.class,
            group: self.placement.group,
        }
    }

    pub fn from_ast(item: &SyntaxItem, source: &Source, scope: &ModuleScope) -> (fixable_item: Option<Self>)
        requires
            source.wf(),
        ensures
            match fixable_item {
                Some(f) => fixable(source.chars(), *item, scope.names()) == Some(f.view()),
                None => fixable(source.chars(), *item, scope.names()) is None,
            },
    {
        let classified = match ClassifiedItem::from_ast(item, scope) {
            Some(classified) => classified,
            None => return None,
        };
        let start = match source.offset(item.span.start) {
            Some(start) => start,
            None => return None,
        };
        let end = match source.offset(item.span.end) {
            Some(end) => end,
            None => return None,
        };
        Some(FixableItem { start, end, placement: ItemPlacement::from_classified(&classified) })
    }

    fn sort_key(&self) -> (key: usize)
        ensures
            key == sort_key(self.view()),
    {
        self.placement.class.rank() * 4 + self.placement.group.rank() as usize
    }
}

pub open spec fn fixables_view(items: Seq<FixableItem>) -> Seq<FixableView> {
    items.map_values(|item: FixableItem| item.view())
}

/// A run of consecutive items that the fixer can move.
pub struct ItemRun {
    pub items: Vec<FixableItem>,
}

impl ItemRun {
    pub open spec fn view(&self) -> Seq<FixableView> {
        fixables_view(self.items@)
    }

    pub fn len(&self) -> (len: usize)
        ensures
            len == self.view().len(),
    {
        self.items.len()
    }

    pub fn start(&self) -> (start: usize)
        requires
            self.view().len() > 0,
        ensures
            start == self.view()[0].start,
    {
        self.items[0].start
    }

    pub fn end(&self) -> (end: usize)
        requires
            self.view().len() > 0,
        ensures
            end == self.view().last().end,
    {
        self.items[self.items.len() - 1].end
    }

    /// The items' ranges lie in the text in order.
    pub fn ranges_ordered(&self, source: &Vec<char>) -> (result: bool)
        ensures
            result == in_text_order(source@, self.view()),
    {
        let ghost run = self.view();
        let mut i: usize = 0;
        while i < self.items.len()
            invariant
                run == self.view(),
                0 <= i <= run.len(),
                forall|j: int|
                    #![trigger run[j]]
                    0 <= j < i ==> 0 <= run[j].start && run[j].start <= run[j].end && run[j].end <= source@.len(),
                forall|j: int| 0 <= j < i && j < run.len() - 1 ==> #[trigger] run[j].end <= run[j + 1].start,
            decreases run.len() - i,
        {
            let item = &self.items[i];
            assert(run[i as int] == item.view());
            if !(item.start <= item.end && item.end <= source.len()) {
                assert(!(0 <= run[i as int].start <= run[i as int].end <= source@.len()));
                return false;
            }
            if i + 1 < self.items.len() && item.end > self.items[i + 1].start {
                assert(run[i + 1] == self.items@[i + 1].view());
                assert(run[i as int].end > run[i + 1].start);
                return false;
            }
            proof {
                if i + 1 < run.len() {
                    assert(run[i + 1] == self.items@[i + 1].view());
                }
            }
            i = i + 1;
        }
        true
    }

    /// Non-whitespace text between two items.
    pub fn has_ambiguous_text(&self, source: &Vec<char>) -> (result: bool)
        requires
            in_text_order(source@, self.view()),
        ensures
            result == has_text_between(source@, self.view()),
    {
        let ghost run = self.view();
        let n = self.items.len();
        if n == 0 {
            return false;
        }
        let last: usize = n - 1;
        let mut i: usize = 0;
        while i < last
            invariant
                n == run.len(),
                last == n - 1,
                n == self.items@.len(),
                run == self.view(),
                in_text_order(source@, run),
                0 <= i <= run.len(),
                forall|j: int|
                    0 <= j < i && j < run.len() - 1 ==> is_blank(
                        #[trigger] source@.subrange(run[j].end, run[j + 1].start),
                    ),
            decreases run.len() - i,
        {
            assert(run[i as int] == self.items@[i as int].view());
            assert(run[i + 1] == self.items@[i + 1].view());
            assert(run[i as int].end <= run[i + 1].start);
            assert(0 <= run[i + 1].start <= run[i + 1].end <= source@.len());
            if !range_is_blank(source, self.items[i].end, self.items[i + 1].start) {
                return true;
            }
            i = i + 1;
        }
        false
    }
}

/// Builds the edits that order `use` and `mod` runs.
pub struct ItemOrderFixer<'a> {
    source: &'a Source,
}

impl<'a> ItemOrderFixer<'a> {
    pub closed spec fn text(&self) -> Seq<char> {
        self.source.chars()
    }

    pub closed spec fn wf(&self) -> bool {
        self.source.wf()
    }

    pub fn new(source: &'a Source) -> (fixer: Self)
        requires
            source.wf(),
        ensures
            fixer.wf(),
            fixer.text() == source.chars(),
    {
        ItemOrderFixer { source }
    }

    /// Appends the separator before `current`: a newline, a second one where the class
    /// or group changes, and the indentation.
    pub fn write_separator(&self, output: &mut String, previous: &FixableItem, current: &FixableItem, indentation: &String)
        requires
            self.wf(),
        ensures
            final(output)@ == old(output)@ + newline_of(self.text()) + (if current.view().class
                != previous.view().class || current.view().group != previous.view().group {
                newline_of(self.text())
            } else {
                Seq::empty()
            }) + indentation@,
    {
        let newline = self.source.newline();
        push_str(output, newline);
        let ghost once = output@;
        if current.placement.starts_new_group_after(previous.placement) {
            push_str(output, newline);
        } else {
            assert(once + Seq::<char>::empty() =~= once);
        }
        push_str(output, indentation.as_str());
    }

    /// The items in the given order, separated as `render` says.
    pub fn render_items(&self, items: &Vec<FixableItem>, order: &Vec<usize>, indentation: &String) -> (replacement: Option<String>)
        requires
            self.wf(),
            in_text_order(self.text(), fixables_view(items@)),
            forall|i: int| 0 <= i < order@.len() ==> #[trigger] order@[i] < items@.len(),
        ensures
            match replacement {
                Some(r) => order@.len() > 0 && r@ == render(
                    self.text(),
                    reordered(fixables_view(items@), order@),
                    indentation@,
                ),
                None => order@.len() == 0,
            },
    {
        let ghost text = self.text();
        let ghost all = fixables_view(items@);
        let ghost listed = reordered(all, order@);
        if order.len() == 0 {
            return None;
        }
        let chars = self.source.text();
        let first = &items[order[0]];
        assert(all[order@[0] as int] == first.view());
        assert(0 <= all[order@[0] as int].start <= all[order@[0] as int].end <= text.len());
        let mut replacement = String::new();
        push_range(&mut replacement, chars, first.start, first.end);
        assert(listed.take(1).len() == 1);
        assert(Seq::<char>::empty() + item_text(text, listed[0]) =~= item_text(text, listed[0]));
        let mut k: usize = 1;
        while k < order.len()
            invariant
                self.wf(),
                text == self.text(),
                chars@ == text,
                all == fixables_view(items@),
                listed == reordered(all, order@),
                in_text_order(text, all),
                forall|i: int| 0 <= i < order@.len() ==> #[trigger] order@[i] < items@.len(),
                1 <= k <= order@.len(),
                replacement@ == render(text, listed.take(k as int), indentation@),
            decreases order@.len() - k,
        {
            let previous = &items[order[k - 1]];
            let current = &items[order[k]];
            assert(listed[k - 1] == previous.view());
            assert(listed[k as int] == current.view());
            assert(0 <= all[order@[k as int] as int].start <= all[order@[k as int] as int].end <= text.len());
            self.write_separator(&mut replacement, previous, current, indentation);
            push_range(&mut replacement, chars, current.start, current.end);
            proof {
                let next = listed.take(k + 1);
                assert(next.drop_last() =~= listed.take(k as int));
                assert(next[next.len() - 2] == previous.view());
                assert(next.last() == current.view());
            }
            k = k + 1;
        }
        assert(listed.take(k as int) =~= listed);
        Some(replacement)
    }

    /// The edit that sorts a run, if one is needed and safe.
    pub fn edit_for_run(&self, run: &ItemRun) -> (edit: Option<Edit>)
        requires
            self.wf(),
        ensures
            match edit {
                Some(e) => run_edit(self.text(), run.view(), stable_order_of_keys()(sort_keys(run.view())))
                    == Some(e.view()),
                None => run_edit(self.text(), run.view(), stable_order_of_keys()(sort_keys(run.view()))) is None,
            },
    {
        let ghost text = self.text();
        let ghost view = run.view();
        let chars = self.source.text();
        if run.len() < 2 || !run.ranges_ordered(chars) || run.has_ambiguous_text(chars) {
            return None;
        }
        let mut keys: Vec<usize> = Vec::new();
        let mut i: usize = 0;
        while i < run.items.len()
            invariant
                view == run.view(),
                0 <= i <= view.len(),
                keys@ == sort_keys(view).take(i as int),
            decreases view.len() - i,
        {
            keys.push(run.items[i].sort_key());
            assert(sort_keys(view).take(i + 1) =~= sort_keys(view).take(i as int).push(sort_key(view[i as int])));
            i = i + 1;
        }
        assert(sort_keys(view).take(i as int) =~= sort_keys(view));
        let order = stable_order_by_number(&keys);
        proof {
            lemma_stable_sort_is(order@, keys@, number_order());
        }
        let start = run.start();
        let end = run.end();
        proof {
            assert(0 <= view[0].start <= view[0].end <= text.len());
            assert(0 <= view.last().start <= view.last().end <= text.len());
            lemma_run_start_before_end(text, view);
        }
        let indentation = self.source.indentation_at(start);
        let replacement = match self.render_items(&run.items, &order, &indentation) {
            Some(replacement) => replacement,
            None => return None,
        };
        let current = crate::text::chars_of(replacement.as_str());
        let mut original: Vec<char> = Vec::new();
        let mut j: usize = start;
        while j < end
            invariant
                start <= j <= end <= chars@.len(),
                original@ == chars@.subrange(start as int, j as int),
            decreases end - j,
        {
            original.push(chars[j]);
            assert(chars@.subrange(start as int, j + 1) =~= chars@.subrange(start as int, j as int).push(chars@[j as int]));
            j = j + 1;
        }
        if chars_eq(&current, &original) {
            return None;
        }
        Some(Edit::new(start, end, replacement))
    }

    /// The run of fixable items from `start`, and the index after it.
    pub fn item_run(&self, items: &Vec<SyntaxItem>, start: usize, scope: &ModuleScope) -> (run: Option<(ItemRun, usize)>)
        requires
            self.wf(),
            start < items@.len(),
        ensures
            match run {
                Some((r, end)) => {
                    &&& fixable(self.text(), items@[start as int], scope.names()) is Some
                    &&& end == run_end(self.text(), items@, scope.names(), start as int)
                    &&& r.view() == run_of(self.text(), items@, scope.names(), start as int, end as int)
                },
                None => fixable(self.text(), items@[start as int], scope.names()) is None,
            },
    {
        let ghost text = self.text();
        let ghost names = scope.names();
        let first = match FixableItem::from_ast(&items[start], self.source, scope) {
            Some(first) => first,
            None => return None,
        };
        let n = items.len();
        let mut fixable_items: Vec<FixableItem> = Vec::new();
        fixable_items.push(first);
        let mut end: usize = start + 1;
        assert(fixables_view(fixable_items@) =~= run_of(text, items@, names, start as int, end as int));
        while end < n
            invariant
                self.wf(),
                text == self.text(),
                names == scope.names(),
                n == items@.len(),
                start < end <= items@.len(),
                fixables_view(fixable_items@) == run_of(text, items@, names, start as int, end as int),
                run_end(text, items@, names, start as int) == run_end(text, items@, names, end as int),
            ensures
                end == items@.len() || fixable(text, items@[end as int], names) is None,
            decreases items@.len() - end,
        {
            let item = match FixableItem::from_ast(&items[end], self.source, scope) {
                Some(item) => item,
                None => break,
            };
            let ghost before = fixables_view(fixable_items@);
            fixable_items.push(item);
            assert(fixables_view(fixable_items@) =~= before.push(item.view()));
            assert(run_of(text, items@, names, start as int, end + 1) =~= run_of(text, items@, names, start as int, end as int).push(item.view()));
            end = end + 1;
        }
        Some((ItemRun { items: fixable_items }, end))
    }

    /// Appends the edits for a module's items, inline modules included.
    pub fn collect_edits_into(&self, items: &Vec<SyntaxItem>, edits: &mut Vec<Edit>)
        requires
            self.wf(),
        ensures
            edits_view(final(edits)@) == edits_view(old(edits)@) + module_edits(self.text(), items@, 0, stable_order_of_keys()),
        decreases items@, 1int,
    {
        let ghost text = self.text();
        let ghost orders = stable_order_of_keys();
        let ghost start_edits = edits_view(edits@);
        let scope = ModuleScope::from_items(items);
        let mut index: usize = 0;
        while index < items.len()
            invariant
                self.wf(),
                text == self.text(),
                orders == stable_order_of_keys(),
                scope.names() == module_names(items@),
                0 <= index <= items@.len(),
                edits_view(edits@) + module_edits(text, items@, index as int, orders)
                    == start_edits + module_edits(text, items@, 0, orders),
            decreases items@.len() - index,
        {
            let ghost before = edits_view(edits@);
            let run_start = index;
            match self.item_run(items, index, &scope) {
                None => {
                    self.collect_nested(items, index, index + 1, edits);
                    index = index + 1;
                    assert(before + nested_edits(text, items@, run_start as int, run_start + 1, orders) + module_edits(text, items@, index as int, orders)
                        =~= before + module_edits(text, items@, run_start as int, orders));
                },
                Some((run, next_index)) => {
                    proof {
                        lemma_run_end_after(text, items@, module_names(items@), run_start as int);
                    }
                    match self.edit_for_run(&run) {
                        Some(edit) => {
                            let ghost e = edit.view();
                            edits.push(edit);
                            assert(edits_view(edits@) =~= before.push(e));
                            assert(before.push(e) + module_edits(text, items@, next_index as int, orders)
                                =~= before + module_edits(text, items@, run_start as int, orders));
                        },
                        None => {
                            self.collect_nested(items, run_start, next_index, edits);
                            assert(edits_view(edits@) + module_edits(text, items@, next_index as int, orders)
                                =~= before + module_edits(text, items@, run_start as int, orders));
                        },
                    }
                    index = next_index;
                },
            }
        }
        assert(module_edits(text, items@, index as int, orders) =~= Seq::<EditView>::empty());
        assert(edits_view(edits@) + Seq::<EditView>::empty() =~= edits_view(edits@));
    }

    /// Appends the edits of the inline modules among items `start..end`.
    fn collect_nested(&self, items: &Vec<SyntaxItem>, start: usize, end: usize, edits: &mut Vec<Edit>)
        requires
            self.wf(),
            start <= end <= items@.len(),
        ensures
            edits_view(final(edits)@) == edits_view(old(edits)@) + nested_edits(self.text(), items@, start as int, end as int, stable_order_of_keys()),
        decreases items@, 0int,
    {
        let ghost text = self.text();
        let ghost orders = stable_order_of_keys();
        let ghost start_edits = edits_view(edits@);
        let mut k: usize = start;
        while k < end
            invariant
                self.wf(),
                text == self.text(),
                orders == stable_order_of_keys(),
                start <= k <= end <= items@.len(),
                edits_view(edits@) + nested_edits(text, items@, k as int, end as int, orders)
                    == start_edits + nested_edits(text, items@, start as int, end as int, orders),
            decreases end - k,
        {
            let ghost before = edits_view(edits@);
            if let ItemNode::Mod(m) = &items[k].node {
                if let Some(content) = &m.content {
                    proof {
                        assert(decreases_to!(items@ => items@[k as int]));
                        assert(decreases_to!(items@[k as int] => items@[k as int].node));
                        assert(decreases_to!(items@[k as int].node => items@[k as int].node->Mod_0));
                        assert(decreases_to!(items@[k as int].node->Mod_0 => items@[k as int].node->Mod_0.content));
                        assert(decreases_to!(items@[k as int].node->Mod_0.content => items@[k as int].node->Mod_0.content->Some_0));
                        assert(decreases_to!(items@[k as int].node->Mod_0.content->Some_0 => items@[k as int].node->Mod_0.content->Some_0@));
                    }
                    self.collect_edits_into(content, edits);
                } else {
                    assert(before + Seq::<EditView>::empty() =~= before);
                }
            } else {
                assert(before + Seq::<EditView>::empty() =~= before);
            }
            assert(before + nested_edits(text, items@, k as int, end as int, orders)
                =~= edits_view(edits@) + nested_edits(text, items@, k + 1, end as int, orders));
            k = k + 1;
        }
        assert(nested_edits(text, items@, k as int, end as int, orders) =~= Seq::<EditView>::empty());
        assert(edits_view(edits@) + Seq::<EditView>::empty() =~= edits_view(edits@));
    }
}

/// A run that starts with a fixable item ends after it.
pub proof fn lemma_run_end_after(text: Seq<char>, items: Seq<SyntaxItem>, names: Seq<Seq<char>>, start: int)
    requires
        0 <= start < items.len(),
        fixable(text, items[start], names) is Some,
    ensures
        start < run_end(text, items, names, start) <= items.len(),
{
    lemma_run_end_bounds(text, items, names, start + 1);
}

pub proof fn lemma_run_end_bounds(text: Seq<char>, items: Seq<SyntaxItem>, names: Seq<Seq<char>>, start: int)
    requires
        0 <= start <= items.len(),
    ensures
        start <= run_end(text, items, names, start) <= items.len(),
    decreases items.len() - start,
{
    if start < items.len() && fixable(text, items[start], names) is Some {
        lemma_run_end_bounds(text, items, names, start + 1);
    }
}

/// In a run laid out in order, the first item starts before the last ends.
proof fn lemma_run_start_before_end(text: Seq<char>, run: Seq<FixableView>)
    requires
        run.len() > 0,
        in_text_order(text, run),
    ensures
        run[0].start <= run.last().end,
    decreases run.len(),
{
    if run.len() > 1 {
        let shorter = run.drop_last();
        assert(in_text_order(text, shorter)) by {
            assert forall|i: int| 0 <= i < shorter.len() - 1 implies #[trigger] shorter[i].end <= shorter[i + 1].start by {
                assert(shorter[i] == run[i] && shorter[i + 1] == run[i + 1]);
            }
        }
        lemma_run_start_before_end(text, shorter);
        assert(run[run.len() - 2].end <= run.last().start);
        assert(0 <= run.last().start <= run.last().end);
    }
}

/// The edits that order the `use` and `mod` runs of a file's items.
pub fn edits(source: &Source, items: &Vec<SyntaxItem>) -> (edits: Vec<Edit>)
    requires
        source.wf(),
    ensures
        edits_view(edits@) == module_edits(source.chars(), items@, 0, stable_order_of_keys()),
{
    let fixer = ItemOrderFixer::new(source);
    let mut edits: Vec<Edit> = Vec::new();
    fixer.collect_edits_into(items, &mut edits);
    assert(edits_view(Seq::<Edit>::empty()) + module_edits(source.chars(), items@, 0, stable_order_of_keys())
        =~= module_edits(source.chars(), items@, 0, stable_order_of_keys()));
    edits
}

/// The order in which the fixer lists a run's items.
pub open spec fn fixed_order(run: Seq<FixableView>) -> Seq<usize> {
    stable_order_of_keys()(sort_keys(run))
}

/// The fixer lists each item of a run once: by class in the conventional order, the
/// imports of one class by origin, and the items of one class and origin in their
/// original order.
pub proof fn lemma_fix_orders_run(run: Seq<FixableView>)
    requires
        run.len() <= usize::MAX,
    ensures
        ({
            let order = fixed_order(run);
            let fixed = reordered(run, order);
            &&& is_permutation(order, run.len())
            &&& forall|i: int, j: int|
                #![trigger fixed[i], fixed[j]]
                0 <= i < j < fixed.len() ==> class_rank(fixed[i].class) < class_rank(fixed[j].class) || (
                class_rank(fixed[i].class) == class_rank(fixed[j].class) && group_rank(fixed[i].group)
                    <= group_rank(fixed[j].group))
            &&& forall|i: int, j: int|
                #![trigger fixed[i], fixed[j]]
                0 <= i < j < fixed.len() && fixed[i].class == fixed[j].class && fixed[i].group
                    == fixed[j].group ==> order[i] < order[j]
        }),
{
    let keys = sort_keys(run);
    lemma_number_order_total();
    lemma_stable_sort_exists(keys, number_order());
    let order = fixed_order(run);
    let fixed = reordered(run, order);
    assert forall|i: int, j: int|
        #![trigger fixed[i], fixed[j]]
        0 <= i < j < fixed.len() implies class_rank(fixed[i].class) < class_rank(fixed[j].class) || (
        class_rank(fixed[i].class) == class_rank(fixed[j].class) && group_rank(fixed[i].group)
            <= group_rank(fixed[j].group)) by {
        assert(fixed[i] == run[order[i] as int] && fixed[j] == run[order[j] as int]);
        assert(keys[order[i] as int] == sort_key(fixed[i]) && keys[order[j] as int] == sort_key(fixed[j]));
        assert(keys[order[i] as int] <= keys[order[j] as int]);
    }
    assert forall|i: int, j: int|
        #![trigger fixed[i], fixed[j]]
        0 <= i < j < fixed.len() && fixed[i].class == fixed[j].class && fixed[i].group == fixed[j].group
            implies order[i] < order[j] by {
        assert(fixed[i] == run[order[i] as int] && fixed[j] == run[order[j] as int]);
        assert(keys[order[i] as int] == sort_key(fixed[i]) && keys[order[j] as int] == sort_key(fixed[j]));
    }
}

/// The fixer moves the conventional test module after every other item of its run.
pub proof fn lemma_fix_puts_test_module_last(run: Seq<FixableView>)
    requires
        run.len() <= usize::MAX,
    ensures
        ({
            let fixed = reordered(run, fixed_order(run));
            forall|i: int, j: int|
                #![trigger fixed[i], fixed[j]]
                0 <= i < j < fixed.len() && fixed[i].class.kind == ItemKind::TestModule ==> fixed[j].class.kind
                    == ItemKind::TestModule
        }),
{
    lemma_fix_orders_run(run);
    let fixed = reordered(run, fixed_order(run));
    assert forall|i: int, j: int|
        #![trigger fixed[i], fixed[j]]
        0 <= i < j < fixed.len() && fixed[i].class.kind == ItemKind::TestModule implies fixed[j].class.kind
            == ItemKind::TestModule by {
        assert(class_rank(fixed[i].class) == 6);
    }
}

/// A run already in order keeps its order: fixing only respaces it, and fixing a fixed
/// run moves nothing.
pub proof fn lemma_fix_keeps_ordered_run(run: Seq<FixableView>)
    requires
        run.len() <= usize::MAX,
        forall|i: int, j: int| 0 <= i < j < run.len() ==> sort_key(#[trigger] run[i]) <= sort_key(#[trigger] run[j]),
    ensures
        reordered(run, fixed_order(run)) == run,
{
    let keys = sort_keys(run);
    assert forall|i: int, j: int| 0 <= i < j < keys.len() implies number_order()(#[trigger] keys[i], #[trigger] keys[j]) by {
        assert(keys[i] == sort_key(run[i]) && keys[j] == sort_key(run[j]));
    }
    lemma_stable_sort_of_sorted(keys, number_order());
    assert(reordered(run, fixed_order(run)) =~= run);
}

/// The fixer leaves a run unchanged when text other than whitespace stands between its
/// items.
pub proof fn lemma_fix_leaves_ambiguous_run(text: Seq<char>, run: Seq<FixableView>, order: Seq<usize>)
    requires
        has_text_between(text, run),
    ensures
        run_edit(text, run, order) is None,
{
}

/// The fixer sorts an item by the key by which the checker orders it, so a run the
/// checker accepts is one the fixer leaves in order.
pub proof fn lemma_fix_key_is_order_key(text: Seq<char>, item: SyntaxItem, names: Seq<Seq<char>>)
    requires
        fixable(text, item, names) is Some,
    ensures
        sort_key(fixable(text, item, names)->Some_0) as int == super::check::order_key(
            classify(item, names)->Some_0,
        ),
{
}

/// Every line feed in `s` ends a `\r\n`.
pub open spec fn only_crlf_line_ends(s: Seq<char>) -> bool {
    forall|i: int| 0 <= i < s.len() && #[trigger] s[i] == '\n' ==> i > 0 && s[i - 1] == '\r'
}

/// `s` holds no carriage return.
pub open spec fn no_carriage_return(s: Seq<char>) -> bool {
    forall|i: int| 0 <= i < s.len() ==> #[trigger] s[i] != '\r'
}

/// Joining keeps CRLF line ends where the second part does not start with a line feed.
proof fn lemma_crlf_join(a: Seq<char>, b: Seq<char>)
    requires
        only_crlf_line_ends(a),
        only_crlf_line_ends(b),
        b.len() == 0 || b[0] != '\n',
    ensures
        only_crlf_line_ends(a + b),
{
    let ab = a + b;
    assert forall|i: int| 0 <= i < ab.len() && #[trigger] ab[i] == '\n' implies i > 0 && ab[i - 1] == '\r' by {
        if i < a.len() {
            assert(a[i] == '\n');
            assert(ab[i - 1] == a[i - 1]);
        } else {
            assert(b[i - a.len()] == '\n');
            assert(ab[i - 1] == b[i - a.len() - 1]);
        }
    }
}

/// Joining parts without carriage returns gives none.
proof fn lemma_no_carriage_return_join(a: Seq<char>, b: Seq<char>)
    requires
        no_carriage_return(a),
        no_carriage_return(b),
    ensures
        no_carriage_return(a + b),
{
    assert forall|i: int| 0 <= i < (a + b).len() implies #[trigger] (a + b)[i] != '\r' by {
        if i < a.len() {
            assert((a + b)[i] == a[i]);
        } else {
            assert((a + b)[i] == b[i - a.len()]);
        }
    }
}

/// In a file with CRLF line ends, the reordered run that the fix writes has only CRLF
/// line ends where its items do: the line breaks it puts between items are the file's
/// own `\r\n`.
pub proof fn lemma_render_keeps_crlf(text: Seq<char>, items: Seq<FixableView>, indentation: Seq<char>)
    requires
        uses_crlf(text),
        forall|i: int|
            0 <= i < items.len() ==> only_crlf_line_ends(#[trigger] item_text(text, items[i])) && (item_text(
                text,
                items[i],
            ).len() == 0 || item_text(text, items[i])[0] != '\n'),
        forall|i: int| 0 <= i < indentation.len() ==> #[trigger] indentation[i] != '\n',
    ensures
        only_crlf_line_ends(render(text, items, indentation)),
    decreases items.len(),
{
    if items.len() == 1 {
        assert(item_text(text, items[0]) == item_text(text, items[0]));
    } else if items.len() > 1 {
        let prefix = items.drop_last();
        assert forall|i: int| 0 <= i < prefix.len() implies only_crlf_line_ends(#[trigger] item_text(text, prefix[i]))
            && (item_text(text, prefix[i]).len() == 0 || item_text(text, prefix[i])[0] != '\n') by {
            assert(prefix[i] == items[i]);
        }
        lemma_render_keeps_crlf(text, prefix, indentation);
        let newline = newline_of(text);
        assert(newline == seq!['\r', '\n']);
        let previous = items[items.len() - 2];
        let current = items.last();
        let extra = if current.class != previous.class || current.group != previous.group {
            newline
        } else {
            Seq::empty()
        };
        let last = item_text(text, items[items.len() - 1]);
        assert(only_crlf_line_ends(newline));
        assert(only_crlf_line_ends(extra));
        assert(only_crlf_line_ends(indentation));
        let r0 = render(text, prefix, indentation);
        lemma_crlf_join(r0, newline);
        lemma_crlf_join(r0 + newline, extra);
        if extra.len() == 0 {
            assert(r0 + newline + extra =~= r0 + newline);
        }
        lemma_crlf_join(r0 + newline + extra, indentation);
        if indentation.len() == 0 {
            assert(r0 + newline + extra + indentation =~= r0 + newline + extra);
            assert((r0 + newline + extra + indentation).last() == '\n');
        } else {
            assert((r0 + newline + extra + indentation).last() == indentation.last());
        }
        lemma_crlf_join(r0 + newline + extra + indentation, last);
    }
}

/// In a file with `\n` line ends only, the reordered run that the fix writes adds no
/// carriage return: where its items and indentation hold none, neither does it.
pub proof fn lemma_render_keeps_lf(text: Seq<char>, items: Seq<FixableView>, indentation: Seq<char>)
    requires
        !uses_crlf(text),
        forall|i: int| 0 <= i < items.len() ==> no_carriage_return(#[trigger] item_text(text, items[i])),
        no_carriage_return(indentation),
    ensures
        no_carriage_return(render(text, items, indentation)),
    decreases items.len(),
{
    if items.len() > 1 {
        let prefix = items.drop_last();
        assert forall|i: int| 0 <= i < prefix.len() implies no_carriage_return(#[trigger] item_text(text, prefix[i])) by {
            assert(prefix[i] == items[i]);
        }
        lemma_render_keeps_lf(text, prefix, indentation);
        let newline = newline_of(text);
        assert(newline == seq!['\n']);
        let previous = items[items.len() - 2];
        let current = items.last();
        let extra = if current.class != previous.class || current.group != previous.group {
            newline
        } else {
            Seq::empty()
        };
        let last = item_text(text, items[items.len() - 1]);
        let r0 = render(text, prefix, indentation);
        lemma_no_carriage_return_join(r0, newline);
        lemma_no_carriage_return_join(r0 + newline, extra);
        lemma_no_carriage_return_join(r0 + newline + extra, indentation);
        lemma_no_carriage_return_join(r0 + newline + extra + indentation, last);
    } else if items.len() == 1 {
        assert(no_carriage_return(item_text(text, items[0])));
    }
}

} // verus!
