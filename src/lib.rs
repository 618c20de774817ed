//! A fixed-size worker pool, as a verified dispatch core, and the request
//! parsing of the small HTTP server that feeds it.
pub mod http;
pub mod pool;
pub mod route;
