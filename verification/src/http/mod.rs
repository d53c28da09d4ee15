//! The HTTP surface: health and readiness, request parsing and the
//! decisions of the edge handler.

pub mod health;
pub mod router;
pub mod edge;
