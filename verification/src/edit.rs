//! Replacements of character ranges of a text.
use vstd::prelude::*;

use crate::order::{is_stable_order, lemma_stable_sort_is, number_order, stable_order_by_number, stable_sort};
use crate::text::{chars_of, push_range, push_str};

verus! {

/// A replacement of the characters `start..end`.
pub struct Edit {
    start: usize,
    end: usize,
    replacement: String,
}

pub struct EditView {
    pub start: int,
    pub end: int,
    pub replacement: Seq<char>,
}

/// The text with each edit's range replaced, the edits listed by increasing start and
/// not overlapping: the text before the last edit edited, its replacement, and the rest.
pub open spec fn applied(text: Seq<char>, edits: Seq<EditView>) -> Seq<char>
    decreases edits.len(),
{
    if edits.len() == 0 {
        text
    } else {
        let last = edits.last();
        applied(text.take(last.start), edits.drop_last()) + last.replacement + text.skip(last.end)
    }
}

/// Every edit's range lies within a text of length `len`.
pub open spec fn edits_fit(edits: Seq<EditView>, len: int) -> bool {
    forall|i: int| 0 <= i < edits.len() ==> 0 <= #[trigger] edits[i].start <= edits[i].end <= len
}

/// No two edits start at the same offset or overlap.
pub open spec fn edits_apart(edits: Seq<EditView>) -> bool {
    forall|i: int, j: int|
        #![trigger edits[i], edits[j]]
        0 <= i < edits.len() && 0 <= j < edits.len() && i != j ==> edits[i].start != edits[j].start
            && (edits[i].end <= edits[j].start || edits[j].end <= edits[i].start)
}

/// The edits' starts.
pub open spec fn starts_of(edits: Seq<EditView>) -> Seq<usize> {
    edits.map_values(|e: EditView| e.start as usize)
}

/// The edits listed in the given order of their indices.
pub open spec fn in_order(edits: Seq<EditView>, order: Seq<usize>) -> Seq<EditView> {
    order.map_values(|i: usize| edits[i as int])
}

pub open spec fn edits_view(edits: Seq<Edit>) -> Seq<EditView> {
    edits.map_values(|e: Edit| e.view())
}

/// The order of the edits by their starts.
pub open spec fn by_start(edits: Seq<EditView>) -> Seq<usize> {
    stable_sort(starts_of(edits), number_order())
}

/// What applying the edits gives: each one's range replaced, as when they are applied
/// from the last start to the first.
pub open spec fn edited(text: Seq<char>, edits: Seq<EditView>, order: Seq<usize>) -> Seq<char> {
    applied(text, in_order(edits, order))
}

/// Appending to the text after the last edit appends to what the edits give.
proof fn lemma_applied_extend(text: Seq<char>, edits: Seq<EditView>, a: int, b: int)
    requires
        0 <= a <= b <= text.len(),
        edits.len() > 0 ==> 0 <= edits.last().start <= edits.last().end <= a,
    ensures
        applied(text.take(b), edits) == applied(text.take(a), edits) + text.subrange(a, b),
{
    if edits.len() == 0 {
        assert(text.take(b) =~= text.take(a) + text.subrange(a, b));
    } else {
        let last = edits.last();
        assert(text.take(b).take(last.start) =~= text.take(last.start));
        assert(text.take(a).take(last.start) =~= text.take(last.start));
        assert(text.take(b).skip(last.end) =~= text.take(a).skip(last.end) + text.subrange(a, b));
        assert(applied(text.take(b), edits) =~= applied(text.take(a), edits) + text.subrange(a, b));
    }
}

impl Edit {
    pub closed spec fn view(&self) -> EditView {
        EditView {
            start: self.start as int,
            end: self.end as int,
            replacement: self.replacement@,
        }
    }

    pub fn new(start: usize, end: usize, replacement: String) -> (edit: Self)
        ensures
            edit.view() == (EditView { start: start as int, end: end as int, replacement: replacement@ }),
    {
        Edit { start, end, replacement }
    }

    pub fn start(&self) -> (start: usize)
        ensures
            start == self.view().start,
    {
        self.start
    }

    pub fn end(&self) -> (end: usize)
        ensures
            end == self.view().end,
    {
        self.end
    }

    /// Applies non-overlapping edits with distinct starts: each range is replaced by its
    /// replacement, the offsets all being those of the original text.
    pub fn apply_all(source: String, edits: Vec<Self>) -> (result: String)
        requires
            edits_fit(edits_view(edits@), source@.len() as int),
            edits_apart(edits_view(edits@)),
        ensures
            result@ == edited(source@, edits_view(edits@), by_start(edits_view(edits@))),
    {
        let ghost all = edits_view(edits@);
        let chars = chars_of(source.as_str());
        let mut starts: Vec<usize> = Vec::new();
        let mut i: usize = 0;
        while i < edits.len()
            invariant
                all == edits_view(edits@),
                0 <= i <= edits@.len(),
                starts@ == starts_of(all).take(i as int),
            decreases edits@.len() - i,
        {
            starts.push(edits[i].start);
            assert(starts_of(all).take(i + 1) =~= starts_of(all).take(i as int).push(edits@[i as int].start));
            i = i + 1;
        }
        assert(starts_of(all).take(i as int) =~= starts_of(all));
        let order = stable_order_by_number(&starts);
        let ghost sorted = in_order(all, order@);
        let mut out = String::new();
        let mut pos: usize = 0;
        let mut k: usize = 0;
        assert(sorted.take(0) =~= Seq::<EditView>::empty());
        assert(chars@.take(0) =~= Seq::<char>::empty());
        while k < order.len()
            invariant
                all == edits_view(edits@),
                chars@ == source@,
                edits_fit(all, source@.len() as int),
                edits_apart(all),
                is_stable_order(order@, starts_of(all), number_order()),
                sorted == in_order(all, order@),
                0 <= k <= order@.len(),
                pos <= chars@.len(),
                k > 0 ==> pos == sorted[k - 1].end,
                k == 0 ==> pos == 0,
                k > 0 ==> forall|j: int| k <= j < sorted.len() ==> pos <= #[trigger] sorted[j].start,
                out@ == applied(chars@.take(pos as int), sorted.take(k as int)),
            decreases order@.len() - k,
        {
            let edit = &edits[order[k]];
            let ghost index = order@[k as int] as int;
            assert(sorted[k as int] == all[index]);
            assert(all[index] == edit.view());
            proof {
                assert(0 <= index < all.len());
                assert(0 <= all[index].start <= all[index].end <= source@.len());
                if k > 0 {
                    assert(pos <= sorted[k as int].start);
                }
            }
            push_range(&mut out, &chars, pos, edit.start);
            push_str(&mut out, edit.replacement.as_str());
            proof {
                let text = chars@;
                let e = sorted[k as int];
                lemma_applied_extend(text, sorted.take(k as int), pos as int, e.start);
                let next = sorted.take(k + 1);
                assert(next.drop_last() =~= sorted.take(k as int));
                assert(next.last() == e);
                assert(text.take(e.end).take(e.start) =~= text.take(e.start));
                assert(text.take(e.end).skip(e.end) =~= Seq::<char>::empty());
                assert(applied(text.take(e.end), next) =~= applied(text.take(e.start), sorted.take(k as int)) + e.replacement);
                assert forall|j: int| k + 1 <= j < sorted.len() implies e.end <= #[trigger] sorted[j].start by {
                    let a = order@[k as int] as int;
                    let b = order@[j] as int;
                    assert(order@[k as int] != order@[j]);
                    assert(starts_of(all)[a] == all[a].start as usize);
                    assert(starts_of(all)[b] == all[b].start as usize);
                    assert(all[a].start != all[b].start);
                    assert(all[a].start <= all[b].start);
                }
            }
            pos = edit.end;
            k = k + 1;
        }
        push_range(&mut out, &chars, pos, chars.len());
        proof {
            lemma_applied_extend(chars@, sorted, pos as int, chars@.len() as int);
            assert(sorted.take(k as int) =~= sorted);
            assert(chars@.take(chars@.len() as int) =~= chars@);
            lemma_stable_sort_is(order@, starts_of(all), number_order());
        }
        out
    }
}

/// One edit replaces its range of the text and keeps the rest.
pub proof fn lemma_apply_one_edit(text: Seq<char>, edit: EditView)
    requires
        0 <= edit.start <= edit.end <= text.len(),
    ensures
        edited(text, seq![edit], by_start(seq![edit])) == text.take(edit.start) + edit.replacement + text.skip(
            edit.end,
        ),
{
    let edits = seq![edit];
    crate::order::lemma_stable_sort_of_sorted(starts_of(edits), number_order());
    assert(by_start(edits) =~= seq![0usize]);
    assert(in_order(edits, seq![0usize]) =~= edits);
    assert(edits.drop_last() =~= Seq::<EditView>::empty());
    assert(edits.last() == edit);
    assert(applied(text.take(edit.start), Seq::<EditView>::empty()) == text.take(edit.start));
    assert(applied(text, edits) == applied(text.take(edit.start), edits.drop_last()) + edit.replacement
        + text.skip(edit.end));
}

} // verus!
