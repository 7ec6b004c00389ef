//! Sorted string tables: immutable sorted runs of records followed by an
//! index and a footer, and the catalog that groups them into levels.
pub mod catalog;
pub mod index;
pub mod table;
