//! The logical clock, the fairness core that schedules against it, the
//! decisions of a simulation run, and what is proved of the core: its
//! fairness, and that every run ends.

pub mod clock;
pub mod fair;
pub mod fairness;
pub mod progress;
pub mod scheduler;
