//! The messages that nodes exchange.

use crate::id::Id;
use crate::routing::NodeInfo;
use vstd::prelude::*;

verus! {

/// Maximum message size sent over the wire
pub const MESSAGE_SIZE: usize = 2000;

/// Request message payload
#[derive(Debug)]
pub enum RequestPayload {
    Ping,
    Store { key: String, value: String },
    FindNode { id: Id },
}

/// Response message payload
#[derive(Debug)]
pub enum ResponsePayload {
    Pong,
    FindNode { closest: Vec<NodeInfo> },
}

/// Wraps request with sender details
#[derive(Debug)]
pub struct RequestHandle {
    pub id: Id,
    pub source: NodeInfo,
    pub request: RequestPayload,
}

/// Wraps responses with the response to a request and the responder's details
#[derive(Debug)]
pub struct ResponseHandle {
    pub id: Id,
    pub source: NodeInfo,
    pub request_id: Id,
    pub response: ResponsePayload,
}

/// A message that is sent between nodes
#[derive(Debug)]
pub enum Message {
    Request(RequestHandle),
    Response(ResponseHandle),
}

} // verus!
