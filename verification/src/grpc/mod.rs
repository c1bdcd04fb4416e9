//! The messages of the services and what the services answer.

pub mod proto;
pub mod service;
pub mod service_laws;
