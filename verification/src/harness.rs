//! The scenarios that exercise a group of agents, and how their results are judged.
pub mod messages;
pub mod actions;
pub mod expected;
pub mod plans;
pub mod report;
pub mod group;
pub mod agent;
