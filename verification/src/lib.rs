//! An in-memory key/value server library speaking the RESP binary wire
//! protocol. The core is the frame codec: a length oracle that finds frame
//! boundaries in a byte stream without consuming it, an incremental decoder,
//! and an encoder, all verified against a single mathematical model of the
//! wire grammar.
pub mod backend;
pub mod bytesbuf;
pub mod cmd;
pub mod codec;
pub mod decode;
pub mod digits;
pub mod double;
pub mod encode;
pub mod error;
pub mod frame;
pub mod laws;
pub mod length;
pub mod network;
pub mod order;
pub mod textfmt;
pub mod wire;

pub use backend::Backend;
pub use backend::BackendInner;
pub use codec::RespFrameCodec;
pub use codec::parse_frame;
pub use codec::parse_frame_length;
pub use encode::RespEncode;
pub use encode::encode_frame;
pub use error::RespError;
pub use frame::BulkString;
pub use frame::RespArray;
pub use frame::RespFrame;
pub use frame::RespMap;
pub use frame::RespNull;
pub use frame::RespSet;
pub use frame::SimpleError;
pub use frame::SimpleString;
