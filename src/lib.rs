//! An HTTP/1.1 client whose main feature is a segmented parallel downloader.
//!
//! The library holds the logic: URL parsing, request encoding, the response
//! reader's state machine, and the download coordinator's decisions
//! (redirects, naming, segmentation, scheduling and assembly). The program
//! around it opens the connections and the destination file.

pub mod text;
pub mod error;
pub mod method;
pub mod url;
pub mod url_parser;
pub mod response;
pub mod segment;
pub mod download;
pub mod schedule;
pub mod request;
