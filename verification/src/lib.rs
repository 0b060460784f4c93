//! The archive core of CoZip: ZIP and CoZip directory archives as functions on
//! bytes, entry names, progress and scheduling decisions. Nothing in here reads
//! or writes a file; the callers do, and hand the bytes over.

pub mod error;
pub mod le;
pub mod extra;
pub mod trusted;
pub mod czdi;
pub mod types;
pub mod zip_write;
pub mod names;
pub mod paths;
pub mod zip_read;
pub mod zip_laws;
pub mod zip_layout;
pub mod zip_plain;
pub mod zip_entry;
pub mod zip_single;
pub mod single_laws;
pub mod formats;
pub mod progress;
pub mod options;
pub mod dir_stream;
pub mod dir_encode;
pub mod dispatch;
pub mod dir_prefetch;
pub mod dir_read;
pub mod dir_layout;
pub mod pipeline;
pub mod extract_dir;
pub mod zip_file;
pub mod zip_dir;
pub mod zip_contents;
pub mod routes;
pub mod foreign;
pub mod order;
pub mod installer;
