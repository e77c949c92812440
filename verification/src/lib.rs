//! A minimal key-value wire protocol: a frame codec, a connection built on
//! byte buffers, command parsing and dispatch, and the key-value store
//! behind them.

mod client;
mod command;
mod connection;
mod frame;
mod server;

pub use client::interpret_reply;
pub use client::ClientError;
pub use command::Command;
pub use connection::Connection;
pub use connection::ConnectionError;
pub use frame::DecodingError;
pub use frame::Frame;
pub use server::handle_frame;
pub use server::DB;
