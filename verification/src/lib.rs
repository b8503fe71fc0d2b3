//! A WebSocket bridge between rosbridge protocol clients and ROS 2.
use vstd::prelude::*;

pub mod access;
pub mod assembly;
pub mod backend;
pub mod bridge;
pub mod cbor;
pub mod definitions;
pub mod encoding;
pub mod error;
pub mod incoming;
pub mod json;
pub mod outgoing;
pub mod parameters;
pub mod rosapi;
pub mod rosapi_node;
pub mod session;
pub mod settings;
pub mod text;
pub mod wire;

verus! {
} // verus!
