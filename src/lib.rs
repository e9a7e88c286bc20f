//! Critical Path Method scheduling over a registry of tasks with
//! finish-to-start dependencies.
//!
//! Tasks live in an arena (`TaskMap`) and refer to one another by index.
//! Records are ingested in an order where every dependency precedes its
//! dependents, two zero-length anchors (`START`, `END`) give the graph a
//! single source and sink, a forward and a backward pass fill in the
//! earliest and latest times, and the zero-slack tasks form the critical
//! path.

pub mod error;
pub mod graph;
pub mod laws;
pub mod record;
pub mod schedule;
pub mod task;

pub use error::ScheduleError;
pub use graph::{add_end, add_start, TaskMap, TaskMapView, END_ID, START_ID};
pub use record::add_entry;
pub use schedule::{get_critical_tasks, propagate_backward, propagate_forward};

pub use task::Task;
