pub mod accuracy;
pub mod graph;
pub mod model;
pub mod patterns;
pub mod reconcile;
pub mod seqs;
pub mod snapshot;
pub mod sorting;
pub mod sync_rules;
pub mod text;
pub mod tick;
pub mod tier;
pub mod treesitter;

pub use graph::{GraphError, GraphStats, KnowledgeGraph};
pub use model::{Edge, Evidence, Node, NodeId, Source};
pub use tier::ImportanceTier;
