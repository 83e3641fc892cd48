//! A verified transform-tree core: a registry of named coordinate frames,
//! each with a rigid-body pose relative to its parent, answering queries for
//! the transform between any two frames while caching world transforms
//! lazily under a dirty-set discipline.

mod algebra;
mod tree;

pub use tree::FrameModel;
pub use tree::FrameUpdate;
pub use tree::SnapshotEntry;
pub use tree::TfError;
pub use tree::TfTree;
pub use tree::apply_updates_map;
pub use tree::lemma_batch_parent_covers_child;
pub use tree::lemma_snapshot_round_trip;
pub use tree::opt_view;
pub use tree::seq_views;
pub use tree::snapshot_entry_ok;
pub use tree::snapshot_map;
pub use tree::snapshot_ok;
pub use tree::update_ids;
pub use algebra::Transform;
pub use algebra::compose;
pub use algebra::identity;
pub use algebra::invert_transform;
pub use algebra::is_identity;
pub use algebra::spec_compose;
pub use algebra::spec_invert;
