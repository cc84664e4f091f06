//! Sorts the variants of error enums by name and spaces them by one empty line.
use vstd::prelude::*;

use super::check::names_sorted;
use super::model::{ErrorEnum, is_error_enum, unraw_name, variant_name};
use crate::edit::{Edit, EditView, edits_view};
use crate::order::{
    is_permutation, lemma_name_order_total, lemma_stable_sort_exists, lemma_stable_sort_is,
    lemma_stable_sort_of_sorted, name_order, names_of, stable_order_by_name, stable_sort,
};
use crate::source::{Source, line_start_before, newline_of, offset_of};
use crate::syntax::{EnumItem, ItemNode, SyntaxItem, VariantSyntax};
use crate::text::{chars_eq, chars_of, is_blank, is_blank_or_comma, push_range, push_str, range_is_blank, range_is_blank_or_comma};

verus! {

/// A variant as the fixer moves it: its text without the comma, the end of the comma
/// after it (or of its text where none follows), and the name it is sorted by.
pub struct VariantView {
    pub start: int,
    pub body_end: int,
    pub full_end: int,
    pub name: Seq<char>,
}

/// The variants of an error enum, whether a comma follows the last one, and the text
/// between the braces.
pub struct RunView {
    pub variants: Seq<VariantView>,
    pub trailing_comma: bool,
    pub content_start: int,
    pub content_end: int,
}

/// The offsets of a variant, where all of them exist.
pub open spec fn variant_view(text: Seq<char>, variant: VariantSyntax) -> Option<VariantView> {
    let full_end = match variant.comma_end {
        Some(comma) => offset_of(text, comma),
        None => offset_of(text, variant.span.end),
    };
    match (offset_of(text, variant.span.start), offset_of(text, variant.span.end), full_end) {
        (Some(start), Some(body_end), Some(full_end)) => Some(
            VariantView { start, body_end, full_end, name: variant_name(variant) },
        ),
        _ => None,
    }
}

/// The run of an enum's variants, where every offset exists.
pub open spec fn run_view(text: Seq<char>, item: EnumItem) -> Option<RunView> {
    let variants = item.variants@;
    if (forall|i: int| 0 <= i < variants.len() ==> #[trigger] variant_view(text, variants[i]) is Some) {
        match (offset_of(text, item.brace_open_end), offset_of(text, item.brace_close_start)) {
            (Some(content_start), Some(content_end)) => Some(
                RunView {
                    variants: Seq::new(
                        variants.len(),
                        |i: int| variant_view(text, variants[i]).unwrap(),
                    ),
                    trailing_comma: item.trailing_comma,
                    content_start,
                    content_end,
                },
            ),
            _ => None,
        }
    } else {
        None
    }
}

/// The offsets lie in the text in order: the braces' content holds the variants one
/// after the other, each with its text before its comma.
pub open spec fn laid_out(text: Seq<char>, run: RunView) -> bool {
    let vs = run.variants;
    &&& vs.len() > 0
    &&& 0 <= run.content_start <= vs[0].start
    &&& vs.last().full_end <= run.content_end <= text.len()
    &&& forall|i: int|
        #![trigger vs[i]]
        0 <= i < vs.len() ==> 0 <= vs[i].start && vs[i].start <= vs[i].body_end && vs[i].body_end
            <= vs[i].full_end && vs[i].full_end <= text.len()
    &&& forall|i: int| 0 <= i < vs.len() - 1 ==> #[trigger] vs[i].full_end <= vs[i + 1].start
}

/// Text other than whitespace between a brace and the nearest variant.
pub open spec fn has_boundary_text(text: Seq<char>, run: RunView) -> bool {
    ||| !is_blank(text.subrange(run.content_start, run.variants[0].start))
    ||| !is_blank(text.subrange(run.variants.last().full_end, run.content_end))
}

/// After some variant, something other than whitespace and one comma.
pub open spec fn has_nonstandard_punctuation(text: Seq<char>, run: RunView) -> bool {
    exists|i: int|
        0 <= i < run.variants.len() && !is_blank_or_comma(
            #[trigger] text.subrange(run.variants[i].body_end, run.variants[i].full_end),
        )
}

/// Text other than whitespace between one variant's comma and the next variant.
pub open spec fn has_inter_variant_text(text: Seq<char>, run: RunView) -> bool {
    exists|i: int|
        0 <= i < run.variants.len() - 1 && !is_blank(
            #[trigger] text.subrange(run.variants[i].full_end, run.variants[i + 1].start),
        )
}

/// Text the fixer would not know where to put once the variants move.
pub open spec fn run_has_ambiguous_text(text: Seq<char>, run: RunView) -> bool {
    has_boundary_text(text, run) || has_nonstandard_punctuation(text, run) || has_inter_variant_text(
        text,
        run,
    )
}

/// The text of variant `k` of `variants` in the rendering: after an empty line and the
/// indentation unless it comes first, and followed by a comma unless it comes last in
/// an enum without a trailing comma.
pub open spec fn variant_piece(
    text: Seq<char>,
    variants: Seq<VariantView>,
    k: int,
    indentation: Seq<char>,
    trailing_comma: bool,
) -> Seq<char> {
    (if k > 0 {
        newline_of(text) + newline_of(text) + indentation
    } else {
        Seq::empty()
    }) + text.subrange(variants[k].start, variants[k].body_end) + (if k + 1 < variants.len()
        || trailing_comma {
        seq![',']
    } else {
        Seq::empty()
    })
}

/// The first `n` pieces of the rendering.
pub open spec fn rendered_prefix(
    text: Seq<char>,
    variants: Seq<VariantView>,
    n: int,
    indentation: Seq<char>,
    trailing_comma: bool,
) -> Seq<char>
    decreases n,
{
    if n <= 0 {
        Seq::empty()
    } else {
        rendered_prefix(text, variants, n - 1, indentation, trailing_comma) + variant_piece(
            text,
            variants,
            n - 1,
            indentation,
            trailing_comma,
        )
    }
}

/// The variants one after the other, as `variant_piece` lays out each.
pub open spec fn rendered(
    text: Seq<char>,
    variants: Seq<VariantView>,
    indentation: Seq<char>,
    trailing_comma: bool,
) -> Seq<char> {
    rendered_prefix(text, variants, variants.len() as int, indentation, trailing_comma)
}

/// The names of the variants.
pub open spec fn variant_names(variants: Seq<VariantView>) -> Seq<Seq<char>> {
    variants.map_values(|v: VariantView| v.name)
}

/// The variants in the given order of their indices.
pub open spec fn reordered_variants(variants: Seq<VariantView>, order: Seq<usize>) -> Seq<VariantView> {
    order.map_values(|i: usize| variants[i as int])
}

/// The stable order of a list of names.
pub open spec fn stable_order_of_names() -> spec_fn(Seq<Seq<char>>) -> Seq<usize> {
    |names: Seq<Seq<char>>| stable_sort(names, name_order())
}

/// The edit that sorts an error enum's variants: where it has two or more, all their
/// offsets exist and lie in order with no ambiguous text, and sorting and spacing them
/// changes the text.
pub open spec fn enum_edit(text: Seq<char>, item: EnumItem) -> Option<EditView> {
    if !is_error_enum(item) {
        None
    } else {
        match run_view(text, item) {
            None => None,
            Some(run) => if run.variants.len() < 2 || !laid_out(text, run) || run_has_ambiguous_text(
                text,
                run,
            ) {
                None
            } else {
                let start = run.variants[0].start;
                let end = run.variants.last().full_end;
                let order = stable_order_of_names()(variant_names(run.variants));
                let replacement = rendered(
                    text,
                    reordered_variants(run.variants, order),
                    text.subrange(line_start_before(text, start), start),
                    run.trailing_comma,
                );
                if replacement == text.subrange(start, end) {
                    None
                } else {
                    Some(EditView { start, end, replacement })
                }
            },
        }
    }
}

/// The edits of the error enums among items `index..` of a module, those of inline
/// modules included, in the order of the items.
pub open spec fn module_enum_edits(text: Seq<char>, items: Seq<SyntaxItem>, index: int) -> Seq<EditView>
    decreases items, items.len() - index,
{
    if index < 0 || index >= items.len() {
        Seq::empty()
    } else {
        let here = match items[index].node {
            ItemNode::Enum(e) => match enum_edit(text, e) {
                Some(edit) => seq![edit],
                None => Seq::empty(),
            },
            ItemNode::Mod(m) => match m.content {
                Some(content) => module_enum_edits(text, content@, 0),
                None => Seq::empty(),
            },
            _ => Seq::empty(),
        };
        here + module_enum_edits(text, items, index + 1)
    }
}

/// A variant that the fixer can move.
pub struct FixableVariant {
    pub start: usize,
    pub body_end: usize,
    pub full_end: usize,
    pub name: String,
}

impl FixableVariant {
    pub open spec fn view(&self) -> VariantView {
        VariantView {
            start: self.start as int,
            body_end: self.body_end as int,
            full_end: self.full_end as int,
            name: self.name@,
        }
    }

    fn clone_variant(&self) -> (copy: Self)
        ensures
            copy.view() == self.view(),
    {
        FixableVariant {
            start: self.start,
            body_end: self.body_end,
            full_end: self.full_end,
            name: self.name.clone(),
        }
    }
}

pub open spec fn variants_view(variants: Seq<FixableVariant>) -> Seq<VariantView> {
    variants.map_values(|v: FixableVariant| v.view())
}

/// The variants of an error enum with the offsets that the fixer needs.
pub struct VariantRun {
    pub variants: Vec<FixableVariant>,
    pub has_trailing_comma: bool,
    pub content_start: usize,
    pub content_end: usize,
}

impl VariantRun {
    pub open spec fn view(&self) -> RunView {
        RunView {
            variants: variants_view(self.variants@),
            trailing_comma: self.has_trailing_comma,
            content_start: self.content_start as int,
            content_end: self.content_end as int,
        }
    }

    /// The run of an error enum's variants, where every offset exists.
    pub fn from_error_enum(error_enum: ErrorEnum, source: &Source) -> (run: Option<Self>)
        requires
            source.wf(),
        ensures
            match run {
                Some(r) => run_view(source.chars(), error_enum.spec_ast()) == Some(r.view()),
                None => run_view(source.chars(), error_enum.spec_ast()) is None,
            },
    {
        let ghost text = source.chars();
        let item_enum = error_enum.ast();
        let listed = error_enum.variants();
        let mut variants: Vec<FixableVariant> = Vec::new();
        let mut i: usize = 0;
        while i < listed.len()
            invariant
                source.wf(),
                text == source.chars(),
                *item_enum == error_enum.spec_ast(),
                listed@ == item_enum.variants@,
                0 <= i <= listed@.len(),
                variants@.len() == i,
                forall|k: int| 0 <= k < i ==> #[trigger] variant_view(text, listed@[k]) == Some(variants@[k].view()),
            decreases listed@.len() - i,
        {
            let variant = &listed[i];
            let body_end = match source.offset(variant.span.end) {
                Some(offset) => offset,
                None => {
                    assert(variant_view(text, item_enum.variants@[i as int]) is None);
                    return None;
                },
            };
            let full_end = match variant.comma_end {
                Some(comma) => match source.offset(comma) {
                    Some(offset) => offset,
                    None => {
                        assert(variant_view(text, item_enum.variants@[i as int]) is None);
                        return None;
                    },
                },
                None => body_end,
            };
            let start = match source.offset(variant.span.start) {
                Some(offset) => offset,
                None => {
                    assert(variant_view(text, item_enum.variants@[i as int]) is None);
                    return None;
                },
            };
            let name = unraw_name(&variant.ident);
            variants.push(FixableVariant { start, body_end, full_end, name });
            i = i + 1;
        }
        let content_start = match source.offset(item_enum.brace_open_end) {
            Some(offset) => offset,
            None => return None,
        };
        let content_end = match source.offset(item_enum.brace_close_start) {
            Some(offset) => offset,
            None => return None,
        };
        let run = VariantRun {
            variants,
            has_trailing_comma: item_enum.trailing_comma,
            content_start,
            content_end,
        };
        proof {
            let expected = run_view(text, *item_enum);
            assert(expected is Some);
            assert(run.view().variants =~= expected->Some_0.variants);
        }
        Some(run)
    }

    pub fn len(&self) -> (len: usize)
        ensures
            len == self.view().variants.len(),
    {
        self.variants.len()
    }

    pub fn start(&self) -> (start: usize)
        requires
            self.view().variants.len() > 0,
        ensures
            start == self.view().variants[0].start,
    {
        self.variants[0].start
    }

    pub fn end(&self) -> (end: usize)
        requires
            self.view().variants.len() > 0,
        ensures
            end == self.view().variants.last().full_end,
    {
        self.variants[self.variants.len() - 1].full_end
    }

    /// The variants' names, in their order.
    fn names(&self) -> (names: Vec<String>)
        ensures
            names_of(names@) == variant_names(self.view().variants),
    {
        let ghost vs = self.view().variants;
        let mut names: Vec<String> = Vec::new();
        let mut i: usize = 0;
        while i < self.variants.len()
            invariant
                vs == self.view().variants,
                0 <= i <= vs.len(),
                names_of(names@) == variant_names(vs).take(i as int),
            decreases vs.len() - i,
        {
            assert(vs[i as int] == self.variants@[i as int].view());
            let name = self.variants[i].name.clone();
            let ghost before = names@;
            names.push(name);
            assert(names@ == before.push(name));
            assert(names_of(names@) =~= names_of(before).push(name@));
            assert(variant_names(vs).take(i + 1) =~= variant_names(vs).take(i as int).push(vs[i as int].name));
            i = i + 1;
        }
        assert(variant_names(vs).take(i as int) =~= variant_names(vs));
        names
    }

    /// The variants in the given order of their indices.
    fn reordered(&self, order: &Vec<usize>) -> (sorted: Vec<FixableVariant>)
        requires
            forall|j: int| 0 <= j < order@.len() ==> #[trigger] order@[j] < self.view().variants.len(),
        ensures
            variants_view(sorted@) == reordered_variants(self.view().variants, order@),
    {
        let ghost vs = self.view().variants;
        let mut sorted: Vec<FixableVariant> = Vec::new();
        let mut k: usize = 0;
        while k < order.len()
            invariant
                vs == self.view().variants,
                forall|j: int| 0 <= j < order@.len() ==> #[trigger] order@[j] < vs.len(),
                0 <= k <= order@.len(),
                variants_view(sorted@) == reordered_variants(vs, order@).take(k as int),
            decreases order@.len() - k,
        {
            let index = order[k];
            assert(vs[index as int] == self.variants@[index as int].view());
            let moved = self.variants[index].clone_variant();
            let ghost before = sorted@;
            sorted.push(moved);
            assert(variants_view(sorted@) =~= variants_view(before).push(moved.view()));
            assert(reordered_variants(vs, order@).take(k + 1) =~= reordered_variants(vs, order@).take(k as int).push(vs[order@[k as int] as int]));
            k = k + 1;
        }
        assert(reordered_variants(vs, order@).take(k as int) =~= reordered_variants(vs, order@));
        sorted
    }

    /// The offsets lie in the text in order.
    pub fn laid_out(&self, source: &Vec<char>) -> (result: bool)
        ensures
            result == laid_out(source@, self.view()),
    {
        let ghost run = self.view();
        let ghost vs = run.variants;
        let n = self.variants.len();
        if n == 0 {
            return false;
        }
        if !(self.content_start <= self.variants[0].start && self.variants[n - 1].full_end
            <= self.content_end && self.content_end <= source.len()) {
            assert(vs[0] == self.variants@[0].view());
            assert(vs.last() == self.variants@[n - 1].view());
            return false;
        }
        assert(vs[0] == self.variants@[0].view());
        assert(vs.last() == self.variants@[n - 1].view());
        let mut i: usize = 0;
        while i < n
            invariant
                run == self.view(),
                vs == run.variants,
                n == vs.len(),
                n == self.variants@.len(),
                0 <= run.content_start <= vs[0].start,
                vs.last().full_end <= run.content_end <= source@.len(),
                0 <= i <= n,
                forall|j: int|
                    #![trigger vs[j]]
                    0 <= j < i ==> 0 <= vs[j].start && vs[j].start <= vs[j].body_end && vs[j].body_end
                        <= vs[j].full_end && vs[j].full_end <= source@.len(),
                forall|j: int| 0 <= j < i && j < n - 1 ==> #[trigger] vs[j].full_end <= vs[j + 1].start,
            decreases n - i,
        {
            let variant = &self.variants[i];
            assert(vs[i as int] == variant.view());
            if !(variant.start <= variant.body_end && variant.body_end <= variant.full_end
                && variant.full_end <= source.len()) {
                return false;
            }
            if i + 1 < n && variant.full_end > self.variants[i + 1].start {
                assert(vs[i + 1] == self.variants@[i + 1].view());
                assert(vs[i as int].full_end > vs[i + 1].start);
                return false;
            }
            proof {
                if i + 1 < n {
                    assert(vs[i + 1] == self.variants@[i + 1].view());
                }
            }
            i = i + 1;
        }
        true
    }

    /// Text other than whitespace between a brace and the nearest variant.
    pub fn has_boundary_text(&self, source: &Vec<char>) -> (result: bool)
        requires
            laid_out(source@, self.view()),
        ensures
            result == has_boundary_text(source@, self.view()),
    {
        let ghost vs = self.view().variants;
        assert(vs[0] == self.variants@[0].view());
        assert(vs.last() == self.variants@[self.variants@.len() - 1].view());
        assert(0 <= vs[0].start);
        assert(vs.last().full_end <= source@.len());
        !range_is_blank(source, self.content_start, self.start()) || !range_is_blank(
            source,
            self.end(),
            self.content_end,
        )
    }

    /// After some variant, something other than whitespace and one comma.
    pub fn has_nonstandard_punctuation(&self, source: &Vec<char>) -> (result: bool)
        requires
            laid_out(source@, self.view()),
        ensures
            result == has_nonstandard_punctuation(source@, self.view()),
    {
        let ghost run = self.view();
        let ghost vs = run.variants;
        let mut i: usize = 0;
        while i < self.variants.len()
            invariant
                run == self.view(),
                vs == run.variants,
                laid_out(source@, run),
                0 <= i <= vs.len(),
                forall|j: int|
                    0 <= j < i ==> is_blank_or_comma(
                        #[trigger] source@.subrange(vs[j].body_end, vs[j].full_end),
                    ),
            decreases vs.len() - i,
        {
            let variant = &self.variants[i];
            assert(vs[i as int] == variant.view());
            if !range_is_blank_or_comma(source, variant.body_end, variant.full_end) {
                return true;
            }
            i = i + 1;
        }
        false
    }

    /// Text other than whitespace between one variant's comma and the next variant.
    pub fn has_inter_variant_text(&self, source: &Vec<char>) -> (result: bool)
        requires
            laid_out(source@, self.view()),
        ensures
            result == has_inter_variant_text(source@, self.view()),
    {
        let ghost run = self.view();
        let ghost vs = run.variants;
        let n = self.variants.len();
        let last: usize = n - 1;
        let mut i: usize = 0;
        while i < last
            invariant
                run == self.view(),
                vs == run.variants,
                laid_out(source@, run),
                n == vs.len(),
                n == self.variants@.len(),
                last == n - 1,
                0 <= i <= last,
                forall|j: int|
                    0 <= j < i ==> is_blank(
                        #[trigger] source@.subrange(vs[j].full_end, vs[j + 1].start),
                    ),
            decreases last - i,
        {
            assert(vs[i as int] == self.variants@[i as int].view());
            assert(vs[i + 1] == self.variants@[i + 1].view());
            assert(vs[i as int].full_end <= vs[i + 1].start);
            if !range_is_blank(source, self.variants[i].full_end, self.variants[i + 1].start) {
                return true;
            }
            i = i + 1;
        }
        false
    }

    /// Text the fixer would not know where to put once the variants move.
    pub fn has_ambiguous_text(&self, source: &Vec<char>) -> (result: bool)
        requires
            laid_out(source@, self.view()),
        ensures
            result == run_has_ambiguous_text(source@, self.view()),
    {
        self.has_boundary_text(source) || self.has_nonstandard_punctuation(source)
            || self.has_inter_variant_text(source)
    }
}

/// Builds the edits that sort error variants.
pub struct ErrorVariantFixer<'a> {
    source: &'a Source,
}

impl<'a> ErrorVariantFixer<'a> {
    pub closed spec fn text(&self) -> Seq<char> {
        self.source.chars()
    }

    pub closed spec fn wf(&self) -> bool {
        self.source.wf()
    }

    pub fn new(source: &'a Source) -> (fixer: Self)
        requires
            source.wf(),
        ensures
            fixer.wf(),
            fixer.text() == source.chars(),
    {
        ErrorVariantFixer { source }
    }

    /// The variants one after the other, as `rendered` lays them out.
    pub fn render_variants(&self, variants: &Vec<FixableVariant>, indentation: &String, has_trailing_comma: bool) -> (replacement: String)
        requires
            self.wf(),
            forall|k: int|
                #![trigger variants@[k]]
                0 <= k < variants@.len() ==> variants@[k].start <= variants@[k].body_end
                    <= self.text().len(),
        ensures
            replacement@ == rendered(self.text(), variants_view(variants@), indentation@, has_trailing_comma),
    {
        let ghost text = self.text();
        let ghost vs = variants_view(variants@);
        let chars = self.source.text();
        let newline = self.source.newline();
        let mut replacement = String::new();
        let mut index: usize = 0;
        while index < variants.len()
            invariant
                self.wf(),
                text == self.text(),
                chars@ == text,
                newline@ == newline_of(text),
                vs == variants_view(variants@),
                forall|k: int|
                    #![trigger variants@[k]]
                    0 <= k < variants@.len() ==> variants@[k].start <= variants@[k].body_end
                        <= text.len(),
                0 <= index <= variants@.len(),
                replacement@ == rendered_prefix(text, vs, index as int, indentation@, has_trailing_comma),
            decreases variants@.len() - index,
        {
            let ghost before = replacement@;
            let variant = &variants[index];
            assert(vs[index as int] == variant.view());
            if index > 0 {
                push_str(&mut replacement, newline);
                push_str(&mut replacement, newline);
                push_str(&mut replacement, indentation.as_str());
            }
            let ghost separated = replacement@;
            push_range(&mut replacement, chars, variant.start, variant.body_end);
            let ghost with_body = replacement@;
            if index + 1 < variants.len() || has_trailing_comma {
                push_str(&mut replacement, ",");
                proof {
                    reveal_strlit(",");
                }
            }
            proof {
                let piece = variant_piece(text, vs, index as int, indentation@, has_trailing_comma);
                if index > 0 {
                    assert(separated == before + (newline_of(text) + newline_of(text) + indentation@));
                } else {
                    assert(separated =~= before + Seq::<char>::empty());
                }
                if index + 1 < variants.len() || has_trailing_comma {
                    assert(replacement@ == with_body + seq![',']);
                } else {
                    assert(replacement@ =~= with_body + Seq::<char>::empty());
                }
                assert(replacement@ =~= before + piece);
            }
            index = index + 1;
        }
        replacement
    }

    /// The edit that sorts an enum's variants, if it derives `Error` and one is needed
    /// and safe.
    pub fn edit_for_enum(&self, item_enum: &EnumItem) -> (edit: Option<Edit>)
        requires
            self.wf(),
        ensures
            match edit {
                Some(e) => enum_edit(self.text(), *item_enum) == Some(e.view()),
                None => enum_edit(self.text(), *item_enum) is None,
            },
    {
        let ghost text = self.text();
        let error_enum = match ErrorEnum::from_ast(item_enum) {
            Some(error_enum) => error_enum,
            None => return None,
        };
        let run = match VariantRun::from_error_enum(error_enum, self.source) {
            Some(run) => run,
            None => return None,
        };
        let ghost view = run.view();
        let chars = self.source.text();
        if run.len() < 2 || !run.laid_out(chars) || run.has_ambiguous_text(chars) {
            return None;
        }
        let names = run.names();
        let order = stable_order_by_name(&names);
        proof {
            lemma_stable_sort_is(order@, variant_names(view.variants), name_order());
        }
        proof {
            assert forall|j: int| 0 <= j < order@.len() implies #[trigger] order@[j] < view.variants.len() by {}
        }
        let sorted = run.reordered(&order);
        let start = run.start();
        let end = run.end();
        proof {
            assert(0 <= view.variants[0].start);
            assert(view.variants.last().full_end <= text.len());
            lemma_first_start_before_last_end(text, view);
            assert forall|j: int| #![trigger sorted@[j]] 0 <= j < sorted@.len() implies sorted@[j].start <= sorted@[j].body_end <= text.len() by {
                assert(variants_view(sorted@)[j] == sorted@[j].view());
                let moved = order@[j] as int;
                assert(variants_view(sorted@)[j] == view.variants[moved]);
                assert(0 <= moved < view.variants.len());
            }
        }
        let indentation = self.source.indentation_at(start);
        let replacement = self.render_variants(&sorted, &indentation, run.has_trailing_comma);
        let current = chars_of(replacement.as_str());
        let mut original: Vec<char> = Vec::new();
        let mut j: usize = start;
        while j < end
            invariant
                start <= j <= end <= chars@.len(),
                original@ == chars@.subrange(start as int, j as int),
            decreases end - j,
        {
            original.push(chars[j]);
            assert(chars@.subrange(start as int, j + 1) =~= chars@.subrange(start as int, j as int).push(chars@[j as int]));
            j = j + 1;
        }
        if chars_eq(&current, &original) {
            return None;
        }
        Some(Edit::new(start, end, replacement))
    }

    /// Appends the edits of the error enums among a module's items, those of inline
    /// modules included.
    pub fn collect_edits_into(&self, items: &Vec<SyntaxItem>, edits: &mut Vec<Edit>)
        requires
            self.wf(),
        ensures
            edits_view(final(edits)@) == edits_view(old(edits)@) + module_enum_edits(self.text(), items@, 0),
        decreases items@,
    {
        let ghost text = self.text();
        let ghost start_edits = edits_view(edits@);
        let mut index: usize = 0;
        while index < items.len()
            invariant
                self.wf(),
                text == self.text(),
                0 <= index <= items@.len(),
                edits_view(edits@) + module_enum_edits(text, items@, index as int)
                    == start_edits + module_enum_edits(text, items@, 0),
            decreases items@.len() - index,
        {
            let ghost before = edits_view(edits@);
            match &items[index].node {
                ItemNode::Enum(item_enum) => {
                    match self.edit_for_enum(item_enum) {
                        Some(edit) => {
                            let ghost e = edit.view();
                            edits.push(edit);
                            assert(edits_view(edits@) =~= before + seq![e]);
                        },
                        None => {
                            assert(before + Seq::<EditView>::empty() =~= before);
                        },
                    }
                },
                ItemNode::Mod(m) => {
                    if let Some(content) = &m.content {
                        proof {
                            assert(decreases_to!(items@ => items@[index as int]));
                            assert(decreases_to!(items@[index as int] => items@[index as int].node));
                            assert(decreases_to!(items@[index as int].node => items@[index as int].node->Mod_0));
                            assert(decreases_to!(items@[index as int].node->Mod_0 => items@[index as int].node->Mod_0.content));
                            assert(decreases_to!(items@[index as int].node->Mod_0.content => items@[index as int].node->Mod_0.content->Some_0));
                            assert(decreases_to!(items@[index as int].node->Mod_0.content->Some_0 => items@[index as int].node->Mod_0.content->Some_0@));
                        }
                        self.collect_edits_into(content, edits);
                    } else {
                        assert(before + Seq::<EditView>::empty() =~= before);
                    }
                },
                _ => {
                    assert(before + Seq::<EditView>::empty() =~= before);
                },
            }
            assert(before + module_enum_edits(text, items@, index as int)
                =~= edits_view(edits@) + module_enum_edits(text, items@, index + 1));
            index = index + 1;
        }
        assert(module_enum_edits(text, items@, index as int) =~= Seq::<EditView>::empty());
        assert(edits_view(edits@) + Seq::<EditView>::empty() =~= edits_view(edits@));
    }
}

/// In a run laid out in order, the first variant starts before the last one ends.
proof fn lemma_first_start_before_last_end(text: Seq<char>, run: RunView)
    requires
        laid_out(text, run),
    ensures
        run.variants[0].start <= run.variants.last().full_end,
    decreases run.variants.len(),
{
    let vs = run.variants;
    if vs.len() > 1 {
        let shorter = RunView { variants: vs.drop_last(), ..run };
        assert(vs[vs.len() - 2].full_end <= vs.last().start);
        assert(vs.last().start <= vs.last().body_end);
        assert(shorter.variants[0] == vs[0]);
        assert(shorter.variants.last() == vs[vs.len() - 2]);
        assert(laid_out(text, RunView { content_end: vs[vs.len() - 2].full_end, ..shorter })) by {
            let s = shorter.variants;
            assert forall|i: int| #![trigger s[i]] 0 <= i < s.len() implies 0 <= s[i].start && s[i].start <= s[i].body_end && s[i].body_end <= s[i].full_end && s[i].full_end <= text.len() by {
                assert(s[i] == vs[i]);
            }
            assert forall|i: int| 0 <= i < s.len() - 1 implies #[trigger] s[i].full_end <= s[i + 1].start by {
                assert(s[i] == vs[i] && s[i + 1] == vs[i + 1]);
            }
        }
        lemma_first_start_before_last_end(text, RunView { content_end: vs[vs.len() - 2].full_end, ..shorter });
    }
}

/// The edits that sort the variants of a file's error enums.
pub fn edits(source: &Source, items: &Vec<SyntaxItem>) -> (edits: Vec<Edit>)
    requires
        source.wf(),
    ensures
        edits_view(edits@) == module_enum_edits(source.chars(), items@, 0),
{
    let fixer = ErrorVariantFixer::new(source);
    let mut edits: Vec<Edit> = Vec::new();
    fixer.collect_edits_into(items, &mut edits);
    assert(edits_view(Seq::<Edit>::empty()) + module_enum_edits(source.chars(), items@, 0)
        =~= module_enum_edits(source.chars(), items@, 0));
    edits
}

/// The fixer lists each variant once, in alphabetical order, variants of one name in
/// their original order.
pub proof fn lemma_fix_sorts_variants(variants: Seq<VariantView>)
    requires
        variants.len() <= usize::MAX,
    ensures
        ({
            let order = stable_order_of_names()(variant_names(variants));
            let fixed = reordered_variants(variants, order);
            &&& is_permutation(order, variants.len())
            &&& names_sorted(variant_names(fixed))
            &&& forall|i: int, j: int|
                #![trigger fixed[i], fixed[j]]
                0 <= i < j < fixed.len() && fixed[i].name == fixed[j].name ==> order[i] < order[j]
        }),
{
    let names = variant_names(variants);
    lemma_name_order_total();
    lemma_stable_sort_exists(names, name_order());
    let order = stable_order_of_names()(names);
    let fixed = reordered_variants(variants, order);
    assert forall|i: int, j: int|
        0 <= i < j < variant_names(fixed).len() implies !crate::text::seq_lt(
            #[trigger] variant_names(fixed)[j],
            #[trigger] variant_names(fixed)[i],
        ) by {
        assert(variant_names(fixed)[i] == names[order[i] as int]);
        assert(variant_names(fixed)[j] == names[order[j] as int]);
    }
    assert forall|i: int, j: int|
        #![trigger fixed[i], fixed[j]]
        0 <= i < j < fixed.len() && fixed[i].name == fixed[j].name implies order[i] < order[j] by {
        assert(fixed[i] == variants[order[i] as int] && fixed[j] == variants[order[j] as int]);
        assert(names[order[i] as int] == fixed[i].name && names[order[j] as int] == fixed[j].name);
        crate::order::lemma_seq_lt_irreflexive(fixed[i].name);
    }
}

/// Variants already in alphabetical order keep their places, so fixing a fixed enum
/// moves nothing.
pub proof fn lemma_fix_keeps_sorted_variants(variants: Seq<VariantView>)
    requires
        variants.len() <= usize::MAX,
        names_sorted(variant_names(variants)),
    ensures
        reordered_variants(variants, stable_order_of_names()(variant_names(variants))) == variants,
{
    let names = variant_names(variants);
    assert forall|i: int, j: int| 0 <= i < j < names.len() implies name_order()(#[trigger] names[i], #[trigger] names[j]) by {}
    lemma_stable_sort_of_sorted(names, name_order());
    assert(reordered_variants(variants, stable_order_of_names()(names)) =~= variants);
}

/// The fixer leaves an error enum unchanged when text it could not place stands around
/// or between its variants.
pub proof fn lemma_fix_leaves_ambiguous_enum(text: Seq<char>, item: EnumItem)
    requires
        run_view(text, item) matches Some(run) && run_has_ambiguous_text(text, run),
    ensures
        enum_edit(text, item) is None,
{
}

/// The fixer leaves an enum that does not derive `Error` unchanged.
pub proof fn lemma_fix_ignores_other_enums(text: Seq<char>, item: EnumItem)
    requires
        !is_error_enum(item),
    ensures
        enum_edit(text, item) is None,
{
}

/// In the fixer's rendering, each variant after the first follows exactly one empty
/// line and the indentation, every variant but the last is followed by a comma, and the
/// last one by a comma exactly where the enum had a trailing comma.
pub proof fn lemma_rendered_layout(
    text: Seq<char>,
    variants: Seq<VariantView>,
    indentation: Seq<char>,
    trailing_comma: bool,
    k: int,
)
    requires
        0 <= k < variants.len(),
    ensures
        variant_piece(text, variants, k, indentation, trailing_comma) == (if k > 0 {
            newline_of(text) + newline_of(text) + indentation
        } else {
            Seq::empty()
        }) + text.subrange(variants[k].start, variants[k].body_end) + (if k + 1 < variants.len() {
            seq![',']
        } else if trailing_comma {
            seq![',']
        } else {
            Seq::empty()
        }),
{
}

} // verus!
