pub use check::{Violation, ViolationView, violation_message};

pub mod check;
pub mod fix;
pub mod model;
