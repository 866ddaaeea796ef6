//! The request/response engine of a small static-file HTTP/1.1 server: reading
//! requests off the wire, confining paths to the served directory, delivering large
//! files in capped slices, rendering directory listings, and writing responses.

pub mod clock;
pub mod connection;
pub mod http;
pub mod index;
pub mod mime;
pub mod request;
pub mod resolve;
pub mod text;
pub mod transfer;
