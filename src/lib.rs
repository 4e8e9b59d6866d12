//! Decoder for Maven repository index chunks, and the ingestion of their
//! documents into interned relational tables.

pub mod db;
pub mod doc;
pub mod ingest;
pub mod java;
pub mod nexus;
pub mod pivot;
pub mod text;
pub mod wire;

pub use self::nexus::read;
pub use self::nexus::Doc;
pub use self::nexus::Event;
pub use self::pivot::Db;
