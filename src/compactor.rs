//! Promotion of level-0 tables into level 1: the merge of sorted runs, the
//! writing of merged runs into new tables, and the policy that decides when
//! to run.
pub mod combiner;
pub mod compactor;
