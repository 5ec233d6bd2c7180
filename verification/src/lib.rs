//! Deciding what counts as a change between two exports of the same table.

pub mod compare;
pub mod diff;
pub mod laws;
pub mod number;
pub mod rows;
pub mod text;
pub mod sort;
pub mod report;
pub mod moves;
