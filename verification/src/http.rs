pub mod handler;
pub mod header;
pub mod http;
pub mod multimap;
pub mod request;
pub mod response;
pub mod value;
