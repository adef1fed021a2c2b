//! Encoding values of the frame model into wire bytes.
use vstd::prelude::*;

use crate::double::RespDouble;
use crate::frame::{
    write_frame, BulkString, RespArray, RespFrame, RespMap, RespNullBulkString, RespSet,
    SimpleError, SimpleString,
};
use crate::wire::{wire, FrameModel};

verus! {

/// Why a value could not be encoded.
#[derive(Debug, Clone, Copy, PartialEq, Eq, Structural)]
pub enum EncodeError {
    /// The value is, or holds, a variant that has no wire form (`Null`, `NullArray`).
    UnsupportedVariant,
}

/// A value that can be written in the RESP wire format.
pub trait RespEncoder: Sized {
    /// The bytes that encode this value, or `None` where it has no wire form.
    spec fn wire_form(&self) -> Option<Seq<u8>>;

    /// Consumes the value and returns its wire bytes, or
    /// `UnsupportedVariant` exactly when it has no wire form.
    fn encode(self) -> (r: Result<Vec<u8>, EncodeError>)
        ensures
            match r {
                Ok(bytes) => self.wire_form() == Some(bytes@),
                Err(e) => self.wire_form() is None && e == EncodeError::UnsupportedVariant,
            },
    ;
}

/// Encodes `f` into a fresh buffer.
fn encode_frame(f: &RespFrame) -> (r: Result<Vec<u8>, EncodeError>)
    ensures
        match r {
            Ok(bytes) => wire(f@) == Some(bytes@),
            Err(e) => wire(f@) is None && e == EncodeError::UnsupportedVariant,
        },
{
    let mut buf: Vec<u8> = Vec::new();
    if write_frame(f, &mut buf) {
        assert(buf@ =~= wire(f@)->0);
        Ok(buf)
    } else {
        Err(EncodeError::UnsupportedVariant)
    }
}

impl RespEncoder for RespFrame {
    open spec fn wire_form(&self) -> Option<Seq<u8>> {
        wire(self@)
    }

    fn encode(self) -> (r: Result<Vec<u8>, EncodeError>) {
        encode_frame(&self)
    }
}

impl RespEncoder for i64 {
    open spec fn wire_form(&self) -> Option<Seq<u8>> {
        wire(FrameModel::Integer(*self as int))
    }

    fn encode(self) -> (r: Result<Vec<u8>, EncodeError>) {
        encode_frame(&RespFrame::Integer(self))
    }
}

impl RespEncoder for SimpleString {
    open spec fn wire_form(&self) -> Option<Seq<u8>> {
        wire(FrameModel::SimpleString(self@))
    }

    fn encode(self) -> (r: Result<Vec<u8>, EncodeError>) {
        encode_frame(&RespFrame::SimpleString(self))
    }
}

impl RespEncoder for SimpleError {
    open spec fn wire_form(&self) -> Option<Seq<u8>> {
        wire(FrameModel::Error(self@))
    }

    fn encode(self) -> (r: Result<Vec<u8>, EncodeError>) {
        encode_frame(&RespFrame::Error(self))
    }
}

impl RespEncoder for BulkString {
    open spec fn wire_form(&self) -> Option<Seq<u8>> {
        wire(FrameModel::BulkString(self@))
    }

    fn encode(self) -> (r: Result<Vec<u8>, EncodeError>) {
        encode_frame(&RespFrame::BulkString(self))
    }
}

impl RespEncoder for RespNullBulkString {
    open spec fn wire_form(&self) -> Option<Seq<u8>> {
        wire(FrameModel::NullBulkString)
    }

    fn encode(self) -> (r: Result<Vec<u8>, EncodeError>) {
        encode_frame(&RespFrame::NullBulkString(self))
    }
}

impl RespEncoder for RespArray {
    open spec fn wire_form(&self) -> Option<Seq<u8>> {
        wire(FrameModel::Array(self@))
    }

    fn encode(self) -> (r: Result<Vec<u8>, EncodeError>) {
        encode_frame(&RespFrame::Array(self.0))
    }
}

impl RespEncoder for bool {
    open spec fn wire_form(&self) -> Option<Seq<u8>> {
        wire(FrameModel::Boolean(*self))
    }

    fn encode(self) -> (r: Result<Vec<u8>, EncodeError>) {
        encode_frame(&RespFrame::Boolean(self))
    }
}

impl RespEncoder for RespDouble {
    open spec fn wire_form(&self) -> Option<Seq<u8>> {
        wire(FrameModel::Double(self@))
    }

    fn encode(self) -> (r: Result<Vec<u8>, EncodeError>) {
        encode_frame(&RespFrame::Double(self))
    }
}

impl RespEncoder for RespMap {
    open spec fn wire_form(&self) -> Option<Seq<u8>> {
        wire(FrameModel::RespMap(self@))
    }

    fn encode(self) -> (r: Result<Vec<u8>, EncodeError>) {
        encode_frame(&RespFrame::RespMap(self))
    }
}

impl RespEncoder for RespSet {
    open spec fn wire_form(&self) -> Option<Seq<u8>> {
        wire(FrameModel::RespSet(self@))
    }

    fn encode(self) -> (r: Result<Vec<u8>, EncodeError>) {
        encode_frame(&RespFrame::RespSet(self))
    }
}

} // verus!
