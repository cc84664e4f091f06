//! Applies both rules' fixes to a file until none is left to make.
use vstd::prelude::*;

use crate::edit::{Edit, EditView, by_start, edited, edits_apart, edits_fit, edits_view};
use crate::rules::error_variants::fix::module_enum_edits;
use crate::rules::item_order::fix::{module_edits, stable_order_of_keys};
use crate::source::Source;
use crate::syntax::{SyntaxError, SyntaxItem, parse_source, parses_as_rust_file, rust_items};
use crate::text::string_of;

verus! {

/// Why a text could not be fixed.
#[derive(Debug)]
pub enum FixError {
    /// The text, or a text that a pass produced, does not parse.
    Syntax(SyntaxError),
    /// A pass produced edits that overlap or start at one offset.
    OverlappingEdits,
    /// Passes went on making edits longer than the text could need.
    Unsettled,
}

/// The edits of one pass: the item-order edits where there are any, else the
/// error-variant ones.
pub open spec fn pass_edits(text: Seq<char>, items: Seq<SyntaxItem>) -> Seq<EditView> {
    let item_edits = module_edits(text, items, 0, stable_order_of_keys());
    if item_edits.len() > 0 {
        item_edits
    } else {
        module_enum_edits(text, items, 0)
    }
}

/// The edits of one pass over a parsed file.
pub fn next_edits(source: &Source, items: &Vec<SyntaxItem>) -> (edits: Vec<Edit>)
    requires
        source.wf(),
    ensures
        edits_view(edits@) == pass_edits(source.chars(), items@),
{
    let item_edits = crate::rules::item_order::fix::edits(source, items);
    if item_edits.len() > 0 {
        return item_edits;
    }
    crate::rules::error_variants::fix::edits(source, items)
}

/// Whether the edits lie in a text of `len` characters without overlapping.
fn edits_applicable(edits: &Vec<Edit>, len: usize) -> (result: bool)
    ensures
        result == (edits_fit(edits_view(edits@), len as int) && edits_apart(edits_view(edits@))),
{
    let ghost all = edits_view(edits@);
    let mut i: usize = 0;
    while i < edits.len()
        invariant
            all == edits_view(edits@),
            0 <= i <= all.len(),
            forall|a: int| 0 <= a < i ==> 0 <= #[trigger] all[a].start <= all[a].end <= len,
            forall|a: int, b: int|
                #![trigger all[a], all[b]]
                0 <= a < i && 0 <= b < all.len() && a != b ==> all[a].start != all[b].start && (
                all[a].end <= all[b].start || all[b].end <= all[a].start),
        decreases all.len() - i,
    {
        let edit = &edits[i];
        assert(all[i as int] == edit.view());
        if !(edit.start() <= edit.end() && edit.end() <= len) {
            return false;
        }
        let mut j: usize = 0;
        while j < edits.len()
            invariant
                all == edits_view(edits@),
                0 <= i < all.len(),
                all[i as int] == edit.view(),
                0 <= j <= all.len(),
                forall|b: int|
                    #![trigger all[b]]
                    0 <= b < j && b != i ==> all[i as int].start != all[b].start && (all[i as int].end
                        <= all[b].start || all[b].end <= all[i as int].start),
            decreases all.len() - j,
        {
            let other = &edits[j];
            assert(all[j as int] == other.view());
            if j != i && !(edit.start() != other.start() && (edit.end() <= other.start()
                || other.end() <= edit.start())) {
                return false;
            }
            j = j + 1;
        }
        i = i + 1;
    }
    true
}

/// One pass over a text and its parsed items: `None` where the pass has no edits to
/// make, else the text with the pass's edits applied.
pub fn fix_pass(text: &str, items: &Vec<SyntaxItem>) -> (result: Result<Option<String>, FixError>)
    ensures
        pass_edits(text@, items@).len() == 0 ==> result matches Ok(None),
        pass_edits(text@, items@).len() > 0 && edits_fit(pass_edits(text@, items@), text@.len() as int)
            && edits_apart(pass_edits(text@, items@)) ==> (result matches Ok(Some(fixed)) && fixed@
            == edited(text@, pass_edits(text@, items@), by_start(pass_edits(text@, items@)))),
        pass_edits(text@, items@).len() > 0 && !(edits_fit(pass_edits(text@, items@), text@.len() as int)
            && edits_apart(pass_edits(text@, items@))) ==> result matches Err(FixError::OverlappingEdits),
{
    let source = Source::new(text);
    let edits = next_edits(&source, items);
    if edits.len() == 0 {
        return Ok(None);
    }
    let owned = string_of(text);
    if !edits_applicable(&edits, source.text().len()) {
        return Err(FixError::OverlappingEdits);
    }
    Ok(Some(Edit::apply_all(owned, edits)))
}

/// How fixing a text fails, as the contracts speak of it.
pub enum FixFailure {
    Syntax,
    OverlappingEdits,
    Unsettled,
}

/// How many passes may follow the first one when fixing a text of `len` characters.
pub open spec fn pass_limit(len: nat) -> nat {
    if len < usize::MAX - 2 {
        len + 2
    } else {
        usize::MAX as nat
    }
}

/// Fixing a text with `passes_left` more passes allowed: the text itself where it
/// parses and a pass has no edits for it; else the result of fixing the text that the
/// pass's edits give, with one pass less. It fails where the text does not parse, where
/// the pass's edits overlap or leave the text, and where edits remain with no pass left.
pub open spec fn fix_run(text: Seq<char>, passes_left: nat) -> Result<Seq<char>, FixFailure>
    decreases passes_left,
{
    if !parses_as_rust_file(text) {
        Err(FixFailure::Syntax)
    } else {
        let edits = pass_edits(text, rust_items(text));
        if edits.len() == 0 {
            Ok(text)
        } else if !(edits_fit(edits, text.len() as int) && edits_apart(edits)) {
            Err(FixFailure::OverlappingEdits)
        } else if passes_left == 0 {
            Err(FixFailure::Unsettled)
        } else {
            fix_run(edited(text, edits, by_start(edits)), (passes_left - 1) as nat)
        }
    }
}

/// What fixing a text gives: `fix_run` with the pass limit for its length.
pub open spec fn fixed_source(text: Seq<char>) -> Result<Seq<char>, FixFailure> {
    fix_run(text, pass_limit(text.len()))
}

/// A text that fixing yields parses, and a pass has no edits for it.
pub proof fn lemma_fix_run_settles(text: Seq<char>, passes_left: nat)
    ensures
        fix_run(text, passes_left) matches Ok(fixed) ==> parses_as_rust_file(fixed) && pass_edits(
            fixed,
            rust_items(fixed),
        ).len() == 0,
    decreases passes_left,
{
    if parses_as_rust_file(text) && passes_left > 0 {
        let edits = pass_edits(text, rust_items(text));
        lemma_fix_run_settles(edited(text, edits, by_start(edits)), (passes_left - 1) as nat);
    }
}

/// A text that parses and for which a pass has no edits is fixed as it is, whatever
/// number of passes is left.
pub proof fn lemma_settled_text_unchanged(text: Seq<char>, passes_left: nat)
    requires
        parses_as_rust_file(text),
        pass_edits(text, rust_items(text)).len() == 0,
    ensures
        fix_run(text, passes_left) == Ok::<Seq<char>, FixFailure>(text),
{
}

/// Fixing a fixed text changes nothing: where fixing a source gives a text, fixing that
/// text gives it back.
pub proof fn lemma_fix_is_idempotent(source: Seq<char>)
    ensures
        fixed_source(source) matches Ok(fixed) ==> fixed_source(fixed) == Ok::<Seq<char>, FixFailure>(fixed),
{
    lemma_fix_run_settles(source, pass_limit(source.len()));
    if let Ok(fixed) = fixed_source(source) {
        lemma_settled_text_unchanged(fixed, pass_limit(fixed.len()));
    }
}

/// Fixes a file: parses it, applies one pass's edits, and parses the result again,
/// until a pass has nothing left to edit. The result is `fixed_source`: a text that
/// parses and that no pass edits, or the reason it could not be reached.
pub fn fix_source(source: &str) -> (result: Result<String, FixError>)
    ensures
        match fixed_source(source@) {
            Ok(fixed) => result matches Ok(text) && text@ == fixed,
            Err(FixFailure::Syntax) => result matches Err(FixError::Syntax(SyntaxError::Invalid { .. })),
            Err(FixFailure::OverlappingEdits) => result matches Err(FixError::OverlappingEdits),
            Err(FixFailure::Unsettled) => result matches Err(FixError::Unsettled),
        },
        result matches Ok(fixed) ==> parses_as_rust_file(fixed@) && pass_edits(fixed@, rust_items(fixed@)).len()
            == 0,
        parses_as_rust_file(source@) && pass_edits(source@, rust_items(source@)).len() == 0 ==> (result matches Ok(
            fixed,
        ) && fixed@ == source@),
{
    proof {
        lemma_fix_run_settles(source@, pass_limit(source@.len()));
    }
    let mut fixed = string_of(source);
    let length: usize = source.unicode_len();
    let mut passes_left: usize = if length < usize::MAX - 2 {
        length + 2
    } else {
        usize::MAX
    };
    assert(passes_left as nat == pass_limit(source@.len()));
    loop
        invariant
            fixed_source(source@) == fix_run(fixed@, passes_left as nat),
        decreases passes_left,
    {
        let items = match parse_source(fixed.as_str()) {
            Ok(items) => items,
            Err(error) => return Err(FixError::Syntax(error)),
        };
        let next = match fix_pass(fixed.as_str(), &items) {
            Ok(next) => next,
            Err(error) => return Err(error),
        };
        match next {
            None => return Ok(fixed),
            Some(text) => {
                if passes_left == 0 {
                    return Err(FixError::Unsettled);
                }
                passes_left = passes_left - 1;
                fixed = text;
            },
        }
    }
}

} // verus!
