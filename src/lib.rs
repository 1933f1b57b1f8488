//! A small multi-client chat relay: the frame codec, the command parser,
//! the connection hub that decides what is written to which peer, and the
//! screen arithmetic of the terminal client.
pub mod codec;
pub mod command;
pub mod hub;
pub mod screen;
