//! A verified core for a small acronym-glossary service: the entry type,
//! an in-memory model of the acronym table with proved CRUD semantics,
//! substring search, and the request-routing and status-mapping rules of
//! the HTTP layer.

pub mod acronym;
pub mod rest;
pub mod store;
pub mod text;
