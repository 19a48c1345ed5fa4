//! Ingestion-side proxy core for the InfluxDB line protocol: framing of a
//! fragmented byte stream into lines, decoding of each line into measurement,
//! tags, fields and timestamp, and re-serialization with a configured set of
//! tag keys stripped.

pub mod bytebuf;
pub mod lines;
pub mod parser;
pub mod processors;
pub mod settings;
