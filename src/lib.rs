//! The core of a small HTTP server: an incremental request reader, a route
//! table keyed by method and exact path, and a response builder.

mod bytes;
pub mod method;
pub mod request;
pub mod response;
pub mod server;

pub use method::HttpMethod;
pub use request::{ParsedRequest, ReadError, ReadStep, RequestReader};
pub use response::HttpResponse;
pub use server::Server;
