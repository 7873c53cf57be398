//! The messages that a client and a server exchange, and what the server
//! answers to each request.
pub mod request;
pub mod response;
pub mod server;

pub use request::Request;
pub use response::Response;
pub use server::handle_request;
