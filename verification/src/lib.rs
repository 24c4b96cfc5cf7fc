//! Usage adapters: estimating weekly quota costs from rate limit samples, and
//! discovering and loading session databases.

pub mod order;
pub mod double;
pub mod timeline;
pub mod quota;
pub mod text;
pub mod location;
pub mod files;
pub mod identity;
pub mod connection;
pub mod paths;
pub mod loader;
