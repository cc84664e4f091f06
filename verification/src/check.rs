//! Both rules run over one file.
use vstd::prelude::*;

use crate::diagnostic::{Violation, ViolationView, violations_view};
use crate::rules::error_variants::check::error_variant_violations;
use crate::rules::item_order::check::item_order_violations;
use crate::source::Source;
use crate::syntax::{SyntaxError, SyntaxItem, parse_source, parses_as_rust_file, rust_items};

verus! {

/// What checking a file's items reports: the item-order violations, then the
/// error-variant ones, each rule in the order of the items.
pub open spec fn file_violations(path: Seq<char>, text: Seq<char>, items: Seq<SyntaxItem>) -> Seq<ViolationView> {
    item_order_violations(path, text, items, Seq::empty()) + error_variant_violations(
        path,
        text,
        items,
        Seq::empty(),
        0,
    )
}

/// Runs both rules over a file's parsed items.
pub fn check_items(path: &String, source: &Source, items: &Vec<SyntaxItem>) -> (violations: Vec<Violation>)
    requires
        source.wf(),
    ensures
        violations_view(violations@) == file_violations(path@, source.chars(), items@),
{
    let mut violations: Vec<Violation> = Vec::new();
    crate::rules::item_order::check::check(path, source, items, &mut violations);
    crate::rules::error_variants::check::check(path, source, items, &mut violations);
    assert(violations_view(Seq::<Violation>::empty()) =~= Seq::<ViolationView>::empty());
    assert(Seq::<ViolationView>::empty() + item_order_violations(path@, source.chars(), items@, Seq::empty())
        =~= item_order_violations(path@, source.chars(), items@, Seq::empty()));
    violations
}

/// Parses a file's text and runs both rules over it. It fails exactly where the text
/// is not Rust, and otherwise reports what `check_items` reports for the file's items.
pub fn check_source(path: &String, text: &str) -> (result: Result<Vec<Violation>, SyntaxError>)
    ensures
        result is Ok <==> parses_as_rust_file(text@),
        result matches Ok(violations) ==> violations_view(violations@) == file_violations(
            path@,
            text@,
            rust_items(text@),
        ),
{
    let items = match parse_source(text) {
        Ok(items) => items,
        Err(error) => return Err(error),
    };
    let source = Source::new(text);
    Ok(check_items(path, &source, &items))
}

} // verus!
