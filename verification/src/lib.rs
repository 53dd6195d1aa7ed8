//! A small HTTP server library: requests read from the bytes of a stream,
//! responses written as bytes, and routes from paths to handlers.
pub mod context;
pub mod http;
pub mod route;
pub mod route_laws;
pub mod server;
pub mod string_map;
pub mod text;

pub use http::method::{Method, ParseMethodError};
pub use http::request::{ReadStep, Request, RequestReadError};
pub use http::response::Response;
pub use http::status::{ParseStatusError, Status};
