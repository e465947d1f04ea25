//! Influence maximisation on signed social graphs: the graph model, the
//! edge-list file format, the Epinions sub-graph sampler and the ant walk
//! bookkeeping of the ant-colony search.

pub mod wrappers;
pub mod records;
pub mod graph;
pub mod random;
pub mod ordering;
pub mod epinions;
pub mod ant;
