//! A byte-level codec for the RESP wire protocol: a typed frame model, an
//! encoder whose output is specified byte for byte, and a decoder that
//! accepts exactly those bytes.
pub mod bytes;
pub mod decimal;
pub mod decode;
pub mod double;
pub mod encode;
pub mod frame;
pub mod wire;

pub use crate::decode::{decode_frame, text_is_line_safe, DecodeError, RespDecoder};
pub use crate::double::RespDouble;
pub use crate::encode::{EncodeError, RespEncoder};
pub use crate::frame::{
    frames_equal, BulkString, RespArray, RespFrame, RespMap, RespNull, RespNullArray,
    RespNullBulkString, RespSet, SimpleError, SimpleString,
};
