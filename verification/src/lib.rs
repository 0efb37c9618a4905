//! Exact resource-quantity algebra, hierarchical usage aggregation, and
//! tree-prefix rendering for capacity reports.

pub mod bigint;
pub mod qty;
pub mod tree;
pub mod usage;
