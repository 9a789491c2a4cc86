//! The link between the coordinator of a render and its workers: frames on
//! a byte stream, the messages that the frames carry, and the rules by
//! which each side answers what it reads.
//!
//! Nothing here opens a connection or waits for one. The owner of a
//! connection does that, and tells the rules what happened.

pub mod client;
pub mod server;
pub mod socket;

use crate::util::{PixelReqBuffer, PixelResBuffer};
use vstd::prelude::*;

pub use client::NetClient;
pub use server::NetServer;
pub use socket::NetSocket;

verus! {

/// What the coordinator sends to a worker. `S` is the scene.
#[derive(Debug)]
pub enum NetCommand<S> {
    Identify,
    /// The scene that the worker is to render from now on.
    ReadScene(S),
    /// A batch of pixels to render.
    RenderPixel(PixelReqBuffer),
}

/// What a worker sends to the coordinator.
#[derive(Debug)]
pub enum NetResponse {
    /// The colours of the pixels of a batch.
    RenderPixel(PixelResBuffer),
}

} // verus!
