//! A log-structured key-value store in the Bitcask family, verified with
//! Verus, and two small companions: an evaluator of arithmetic expressions
//! and the messages of a minimal HTTP server.
//!
//! The store appends every write to one log, keeps in memory an ordered
//! index from each live key to the place of its value in the log, and
//! compacts the log on demand:
//!
//! - `codec`: the binary framing of one record;
//! - `order`: the lexicographic order of keys;
//! - `assoc`: sorted lists of keyed entries and the maps they stand for;
//! - `keydir`: the key directory, the ordered index of live keys;
//! - `replay`: what the bytes of a log mean, as records, index and contents;
//! - `data_file`: the log, with append, read and replay;
//! - `store`: the engine, with get, set, delete, scan and merge;
//! - `laws`: what sequences of operations leave, proved for every log.
//!
//! The library works on the bytes of the log and leaves to its user the file
//! that keeps them.
//!
//! The companions are `calculator` for expressions, and `text`, `headers`,
//! `http_request`, `http_response`, `router` and `server` for HTTP, with
//! `tutor_error` for the errors that a service reports to its clients.

pub mod assoc;
pub mod calculator;
pub mod codec;
pub mod data_file;
pub mod headers;
pub mod http_request;
pub mod http_response;
pub mod keydir;
pub mod laws;
pub mod order;
pub mod replay;
pub mod router;
pub mod server;
pub mod store;
pub mod text;
pub mod tutor_error;
