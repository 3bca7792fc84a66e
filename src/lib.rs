//! A small HTTP/1.1 server core: request framing and parsing, routing with
//! middleware, and response rendering, with their behaviour stated and proved.

pub mod context;
pub mod error;
pub mod framing;
pub mod request;
pub mod response;
pub mod router;
pub mod table;
pub mod text;
pub mod utils;
