//! Tasks, the admission queue that holds them until they are due, and the
//! text form of a task table.

pub mod queue;
pub mod table;
pub mod task;
