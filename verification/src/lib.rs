//! Core of a layered, non-destructive raster painting application: the
//! operation graph, the scheduler that lowers it into execution stages under a
//! register budget, and the executor that validates and drives those stages.

pub mod cached_operation_graph;
pub mod codec;
pub mod context;
pub mod depgraph;
pub mod entities;
pub mod execution_order;
pub mod executor;
pub mod id_map;
pub mod image;
pub mod sequences;
pub mod soundness;
pub mod template;
pub mod text;
