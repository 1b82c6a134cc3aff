//! A weighted-fair scheduler simulation on a discrete logical clock.
//!
//! Tasks alternate between CPU bursts and IO bursts and compete for one
//! simulated processor. Runnable tasks are ranked by virtual runtime, a
//! weight-scaled measure of the service they already received; the task
//! with the least of it runs next.
//!
//! * [`proc`] holds the task automaton, the admission queue and the text
//!   form of a task table.
//! * [`sched`] holds the clock, the fairness core, the decisions of a
//!   simulation run, and what is proved of the core: that it is fair, and
//!   that every run ends.
//! * [`tree`] holds the ranking that the core keeps its runnable tasks in,
//!   and tree nodes in an arena with their in-order navigation.
//!
//! Every type has a mathematical model (its view), and every function says
//! in its contract what it does to that model.

pub mod proc;
pub mod sched;
pub mod tree;
