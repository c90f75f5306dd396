//! Core of a directory service for a publish/subscribe fabric: publishers
//! advertise hierarchical paths, subscribers ask which endpoints serve them.

pub mod batch;
pub mod client;
pub mod codec;
pub mod directory;
pub mod endpoint;
pub mod escape;
pub mod laws;
pub mod model;
pub mod pack;
pub mod path;
pub mod pathset;
pub mod protocol;
pub mod registry;
pub mod seqs;
pub mod server;
pub mod stops;
pub mod store;
pub mod token;
pub mod wire;
