use internal_checks::fix::fix_source;

fn fixed(source: &str) -> String {
    fix_source(source).expect("the source is fixed")
}

#[test]
fn groups_imports_by_visibility_and_source() {
    let fixed = fixed(
        "use crate::private::C;\npub use anyhow::A;\nuse anyhow::B;\nuse std::path::Path;\n",
    );

    assert_eq!(
        fixed,
        "use std::path::Path;\n\nuse anyhow::B;\n\nuse crate::private::C;\n\npub use anyhow::A;\n"
    );
}

#[test]
fn preserves_order_within_an_import_group() {
    let fixed = fixed("use tracing::info;\nuse anyhow::Result;\n");

    assert_eq!(fixed, "use tracing::info;\nuse anyhow::Result;\n");
}

#[test]
fn preserves_rustfmt_order_within_the_local_group() {
    let source = r#"pub use crate::{
    bindings::{cudaFree, cudaMalloc, cudaMemcpy, cudaMemcpy2D, cudaMemcpyAsync, cudaMemcpyKind},
    error::CudaError,
};
pub use async_device_buffer::AsyncDeviceBuffer;
pub use device_buffer::DeviceBuffer;

pub mod async_device_buffer;
pub mod device_buffer;
"#;

    assert_eq!(fixed(source), source);
}

#[test]
fn leaves_runs_with_comments_unchanged() {
    let source = "use crate::local::A;\n// belongs to the next import\nuse anyhow::B;\n";

    assert_eq!(fixed(source), source);
}

#[test]
fn does_not_reorder_across_unrelated_items() {
    let source =
        "pub use crate::public::A;\nconst BOUNDARY: usize = 1;\nuse std::path::Path;\n";

    assert_eq!(fixed(source), source);
}

#[test]
fn orders_module_declarations() {
    let fixed = fixed("pub mod public;\npub(crate) mod internal;\nmod private;\n");

    assert_eq!(
        fixed,
        "mod private;\n\npub(crate) mod internal;\n\npub mod public;\n"
    );
}

#[test]
fn groups_interleaved_imports_and_modules() {
    let fixed = fixed(
        r#"//! Verification and formatting of Rust import order.
mod cli;
use std::collections::BTreeSet;
use anyhow::Result;
use crate::check::Violation;
mod config;
use clap::Parser;
mod check;
use tracing::info;
mod fix;
mod logging;
mod project;
"#,
    );

    assert_eq!(
        fixed,
        r#"//! Verification and formatting of Rust import order.
use std::collections::BTreeSet;

use anyhow::Result;
use clap::Parser;
use tracing::info;

use crate::check::Violation;

mod cli;
mod config;
mod check;
mod fix;
mod logging;
mod project;
"#
    );
}

#[test]
fn preserves_alphabetical_reexports_of_local_modules_named_core() {
    let source = r#"pub use arithmetic::*;
pub use core::*;
pub use encryption::*;
pub use helpers::*;
pub use keys::*;

mod arithmetic;
mod core;
mod encryption;
mod helpers;
mod keys;
"#;

    assert_eq!(fixed(source), source);
}

#[test]
fn moves_attributed_imports_with_their_attributes() {
    let source = r#"use crate::local::Local;
#[cfg(feature = "optional")]
use anyhow::Result;
"#;

    assert_eq!(
        fixed(source),
        r#"#[cfg(feature = "optional")]
use anyhow::Result;

use crate::local::Local;
"#
    );
}

#[test]
fn moves_the_test_module_to_the_end_of_its_run() {
    let source = "#[cfg(test)]\nmod tests {}\npub mod code;\nmod private;\n";

    assert_eq!(
        fixed(source),
        "mod private;\n\npub mod code;\n\n#[cfg(test)]\nmod tests {}\n"
    );
}

#[test]
fn fixes_nested_modules_moved_by_an_outer_fix() {
    let source = "mod outer {\n    mod inner;\n    use std::fmt;\n}\nuse std::path::Path;\n";

    assert_eq!(
        fixed(source),
        "use std::path::Path;\n\nmod outer {\n    use std::fmt;\n\n    mod inner;\n}\n"
    );
}

#[test]
fn fixing_a_fixed_file_changes_nothing() {
    let once = fixed("mod errors;\nuse std::path::Path;\n");

    assert_eq!(once, "use std::path::Path;\n\nmod errors;\n");
    assert_eq!(fixed(&once), once);
}

#[test]
fn fixing_a_fixed_source_changes_nothing() {
    let once = fixed("mod b;\nuse crate::a::A;\npub use std::fmt;\nuse std::io;\n");
    assert_eq!(once, "use std::io;\n\nuse crate::a::A;\n\npub use std::fmt;\n\nmod b;\n");
    assert_eq!(fixed(&once), once);
}
