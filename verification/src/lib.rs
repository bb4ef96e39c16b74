//! Parse and write YAML.
//!
//! The scanner turns text into tokens, the parser turns tokens into YAML
//! events, the deserializer resolves the events of a document into data
//! events and the emitter writes data events as block style YAML.
pub mod text;
pub mod error;
pub mod event;
pub mod model;
pub mod resolve;
pub mod encoding;
pub mod quote;
pub mod ser;
pub mod emit;
pub mod de;
pub mod io;
pub mod fields;
pub mod layer;
pub mod state;
pub mod style;
pub mod tag;
pub mod recording;
pub mod scanner;
pub mod parser;
pub mod suite;
pub mod adapters;
