//! Keeps the health checks of a monitoring service in step with the scheduled
//! jobs of a cluster: tags from job names, the check each job should have, and
//! the environment entry that tells a job which check is its own.
//!
//! The library decides and computes; it neither talks to the cluster nor to
//! the monitoring service. A program around it lists the jobs of a namespace,
//! asks [`sync::plan`] what to request for each, hands every answer to
//! [`check::reconcile`] and [`sync::settle`], and writes back the jobs that
//! [`sync::next_write_back`] names.

pub mod annotate;
pub mod channels;
pub mod check;
pub mod job;
pub mod sync;
pub mod tags;
pub mod target;
pub mod text;
pub mod vocabulary;
