//! A bookmark store with tags, visibility and counts, and the request
//! handlers that sit on top of it.

pub mod application;
pub mod database;
pub mod endpoint;
pub mod entity;
pub mod schema;
