//! Dependency-graph engine for incremental computation: tasks record which
//! previously computed nodes they read, predecessor lists are interned, and
//! tracked cells are guarded by a per-task lock discipline.

mod cell;
mod graph;
mod safe;

pub use cell::{cell_task_run, lists_cell, locks_accounted, CellState, DepCell, Task, TaskId};
pub use graph::{
    add_pred, after_read, body_effect, closes_frame, distinct_indices, extends_nodes,
    has_anon_node, is_anon_node, name_taken, frame_closed, frame_dropped, frame_opened, task_run, DepGraph, DepNodeIndex, DepNodeName,
    DepNodeView,
};
pub use safe::{AssertDepGraphSafe, DepGraphSafe};
