//! The vocabulary of the memcached UDP dialect.
//!
//! Client and server values are kept apart: a request decodes to a
//! [`ClientValue`] only, and only a [`ServerValue`] encodes to a response
//! frame, so neither direction of the codec is defined on the other side's
//! values.

use vstd::prelude::*;

pub mod serialize;

verus! {

/// A parsed request packet.
#[derive(Debug)]
pub enum ClientValue {
    /// `Get(request_id, key)`: a `get` request.
    Get(u16, Vec<u8>),
    /// `Put(request_id, key, flags, value)`: a `set` request.
    Put(u16, Vec<u8>, u32, Vec<u8>),
}

/// The model of a parsed request: the same shape over byte sequences.
pub enum ClientValueModel {
    /// A `get` request.
    Get { req_id: u16, key: Seq<u8> },
    /// A `set` request.
    Put { req_id: u16, key: Seq<u8>, flags: u32, data: Seq<u8> },
}

impl View for ClientValue {
    type V = ClientValueModel;

    open spec fn view(&self) -> ClientValueModel {
        match self {
            ClientValue::Get(req_id, key) => ClientValueModel::Get { req_id: *req_id, key: key@ },
            ClientValue::Put(req_id, key, flags, data) => ClientValueModel::Put {
                req_id: *req_id,
                key: key@,
                flags: *flags,
                data: data@,
            },
        }
    }
}

/// A response packet to be sent out.
#[derive(Debug)]
pub enum ServerValue {
    /// `Value(request_id, key, flags, value)`: a `get` hit.
    Value(u16, Vec<u8>, u32, Vec<u8>),
    /// The `set` was applied.
    Stored(u16),
    /// The `set` was refused (oversize key or value).
    NotStored(u16),
    /// Nothing is sent: a `get` miss.
    NoReply,
}

/// The model of a response.
pub enum ServerValueModel {
    Value { req_id: u16, key: Seq<u8>, flags: u32, data: Seq<u8> },
    Stored { req_id: u16 },
    NotStored { req_id: u16 },
    NoReply,
}

impl View for ServerValue {
    type V = ServerValueModel;

    open spec fn view(&self) -> ServerValueModel {
        match self {
            ServerValue::Value(req_id, key, flags, data) => ServerValueModel::Value {
                req_id: *req_id,
                key: key@,
                flags: *flags,
                data: data@,
            },
            ServerValue::Stored(req_id) => ServerValueModel::Stored { req_id: *req_id },
            ServerValue::NotStored(req_id) => ServerValueModel::NotStored { req_id: *req_id },
            ServerValue::NoReply => ServerValueModel::NoReply,
        }
    }
}

/// A decoder error.
#[derive(Debug, Eq, PartialEq, Clone, Copy)]
pub enum DecodeError {
    /// The first token is neither `get ` nor `set `, or a numeric field is
    /// malformed.
    InvalidOpCode,
    /// The buffer ends before a required field does.
    UnexpectedEof,
}

} // verus!
