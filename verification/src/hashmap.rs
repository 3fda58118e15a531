//! A replicated key-value table over broadcast: its message format and its table.
pub mod formatter;
pub mod table;
pub mod agent;
