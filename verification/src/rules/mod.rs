pub mod error_variants;
pub mod item_order;
