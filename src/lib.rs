//! Discovery and registration of Python interpreters in a PEP 514 style
//! hierarchical store.

pub mod discovery;
pub mod platform;
pub mod ranking;
pub mod registration;
pub mod version;
