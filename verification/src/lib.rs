//! Conversion of radio contact and channel tables between two vendors' CSV
//! layouts, with the zone partitioning engine that groups channels into
//! bounded zones.

pub mod balance;
pub mod contacts;
pub mod export;
pub mod grouping;
pub mod independence;
pub mod lines;
pub mod numbers;
pub mod rows;
pub mod sorting;
pub mod text;
pub mod zones;
