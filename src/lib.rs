//! A batch pipeline over delimited transaction records: load, clean,
//! transform, aggregate and persist, with a memory high-water mark and
//! elapsed-time summary.
pub mod aggregate;
pub mod fields;
pub mod ingest;
pub mod metrics;
pub mod output;
pub mod pipeline;
pub mod stages;
