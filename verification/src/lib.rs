//! Unit-test harness for a declarative event-transformation topology.
//!
//! A configuration describes a directed graph of named transforms together
//! with unit tests. Compiling a test reduces the graph to the sub-graph that
//! connects the test's injection point to its extraction points, builds live
//! transform instances and conditions, and either yields a runnable test or a
//! list of human-readable error messages. Running a compiled test drives a
//! synthetic event through the reduced graph and evaluates the conditions
//! against the events observed at each extraction point.

pub mod event;
pub mod text;
pub mod transform;
pub mod graph;
pub mod concat;
pub mod condition;
pub mod config;
