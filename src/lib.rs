//! Data model and file formats of locally managed game-server instances.
//!
//! The server distributions and lifecycle labels, the instance record, the
//! `server.properties` key/value format and the operator roster.
pub mod config;
pub mod ops;
pub mod properties;
pub mod server_type;
pub mod status;
pub mod text;

pub use config::ServerConfig;
pub use ops::{load_ops, OpEntry, StoreError};
pub use properties::ServerProperties;
pub use server_type::ServerType;
pub use status::ServerStatus;
