//! Bundle configuration: the application file, the schema, and their
//! validation.

pub mod app;
pub mod loaded;
pub mod messages;
pub mod schema;
