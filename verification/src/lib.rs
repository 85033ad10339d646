//! Real-time collaborative editing of one text file.

pub mod convergence;
pub mod crdt;
pub mod differ;
pub mod history;
pub mod protocol;
pub mod ready;
pub mod replica;
pub mod room;
pub mod session;
pub mod text;
pub mod update;
pub mod watcher;
pub mod wire;
pub mod writer;
