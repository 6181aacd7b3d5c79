//! RakNet protocol core: wire codecs for RakNet datagrams and messages,
//! the frame-level reliability layer (acknowledgement sets, send and
//! receive queues, fragmentation and reassembly) and their proofs.

pub mod codec;
pub mod error;
pub mod utils;
pub mod datatype;
pub mod packet;
pub mod arq;
pub mod fragment;
pub mod send;
pub mod conn;
mod wire;
