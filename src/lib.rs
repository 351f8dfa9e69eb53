//! Resource capacity, demand and usage reporting: exact quantities, grouping
//! of measurement records into a forest of totals, and tree prefixes for
//! rendering that forest.
pub mod collect;
pub mod group;
pub mod laws;

pub mod qty;
pub mod resource;
pub mod tree;

pub use group::{GroupBy, accept_resource, make_group_x_qualifier, make_qualifiers};
pub use qty::{ParseError, Qty, Scale};
pub use resource::{Location, QtyByQualifier, Resource, ResourceQualifier, sum_by_qualifier};
pub use tree::provide_prefix;
