//! Unit-of-measure catalogue logic.
pub mod text;
pub mod naming;
pub mod normalize;
pub mod sheet;
pub mod records;
pub mod catalog;
