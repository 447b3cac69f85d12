//! Decision logic of a local-network file server: who may connect, what a
//! request path names, how a directory is listed, how large a directory is,
//! and under which name an uploaded file is stored.
//!
//! Nothing here touches the disk or the network. What is found there is
//! handed in as plain values, and what is to be done is handed back.

pub mod access;
pub mod cli;
pub mod handlers;
pub mod listing;
pub mod order;
pub mod resolve;
pub mod sizes;
pub mod startup;
pub mod state;
pub mod text;
pub mod upload;
pub mod url;
