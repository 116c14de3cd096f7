pub mod artifacts;
pub mod errors;
pub mod identifiers;
pub mod order;
pub mod server;
