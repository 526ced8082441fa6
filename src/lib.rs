use vstd::prelude::*;

pub mod buffer_utils;
pub mod header_map;
pub mod lexical;
pub mod path_utils;
pub mod request;
pub mod response;
pub mod multipart;
pub mod thread_pool;

pub use response::{Response, HTTP_VERSION};

verus! {

/// The directory that holds the error pages.
pub const ERROR_PATH: &'static str = "errors";

/// The server's settings: where it listens and which directory it serves.
pub struct Opts {
    pub port: u16,
    pub host: String,
    pub directory: String,
}

/// One file of a multipart upload: its name and its content.
pub struct UploadFile {
    pub name: Vec<u8>,
    pub body: Vec<u8>,
}

} // verus!
