//! Conservative subset, disjointness and emptiness facts about JSON Schema
//! documents, with verified contracts.

pub mod text;
pub mod json;
pub mod copies;
pub mod schema;
pub mod semantics;
pub mod intervals;
pub mod lengths;
pub mod shape;
pub mod lattice;
pub mod floats;
pub mod numeric;
pub mod membership;
pub mod names;
pub mod properties;
pub mod literals;
pub mod emptiness;
pub mod forbidden;
pub mod conflicts;
pub mod name_domains;
pub mod counts;
pub mod integer_values;
pub mod completeness;
pub mod covers;
pub mod partitions;
pub mod number_covers;
pub mod equivalence;
pub mod oneof_partitions;
pub mod anyof_partitions;
pub mod object_partitions;
pub mod complements;
pub mod enumeration;
pub mod hall;
pub mod candidates;
pub mod scalar;
pub mod bits;
pub mod types;
pub mod pointer;
pub mod explanation;
pub mod explainers;
pub mod analysis;
