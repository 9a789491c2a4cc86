//! The worker's side of a connection.

use crate::net::socket::NetSocket;
use crate::net::NetCommand;
use crate::util::{is_empty_batch, PixelReqBuffer};
use vstd::prelude::*;

verus! {

/// What a worker does with a command.
pub enum ClientStep {
    /// The command brought the scene, which has been stored.
    SceneStored,
    /// The command brought pixels, and they are to be rendered.
    Render(PixelReqBuffer),
    /// The command brought a batch without pixels: the work has ended.
    Finished,
    /// The command brought pixels before any scene. It is dropped.
    NoScene,
    /// The command asks for nothing that a worker does. It is dropped.
    Unknown,
}

/// A worker: its end of the connection to the coordinator, and the scene
/// that it renders once it has been sent one.
pub struct NetClient<S> {
    pub scene: Option<S>,
    pub reader: NetSocket,
}

impl<S> NetClient<S> {
    /// A worker that has no scene and has read nothing.
    pub fn new() -> (r: Self)
        ensures
            r.scene is None,
            r.reader.pending() == Seq::<u8>::empty(),
            r.reader.unsent() == Seq::<u8>::empty(),
    {
        Self { scene: None, reader: NetSocket::new(0) }
    }

    /// Takes a command of the coordinator.
    ///
    /// A scene replaces the one that the worker had. Pixels are to be
    /// rendered where the worker has a scene, unless the batch is empty,
    /// which ends the work. Other commands change nothing.
    pub fn handle_command(&mut self, command: NetCommand<S>) -> (r: ClientStep)
        ensures
            final(self).reader == old(self).reader,
            match command {
                NetCommand::ReadScene(scene) => {
                    &&& r is SceneStored
                    &&& final(self).scene == Some(scene)
                },
                NetCommand::RenderPixel(batch) => {
                    &&& final(self).scene == old(self).scene
                    &&& old(self).scene is None ==> r is NoScene
                    &&& old(self).scene is Some ==> if forall|k: int|
                        0 <= k < batch@.len() ==> batch[k] is None {
                        r is Finished
                    } else {
                        r == ClientStep::Render(batch)
                    }
                },
                NetCommand::Identify => {
                    &&& r is Unknown
                    &&& final(self).scene == old(self).scene
                },
            },
    {
        match command {
            NetCommand::ReadScene(scene) => {
                self.scene = Some(scene);
                ClientStep::SceneStored
            },
            NetCommand::RenderPixel(pixel_req) => {
                if self.scene.is_none() {
                    ClientStep::NoScene
                } else if is_empty_batch(&pixel_req) {
                    ClientStep::Finished
                } else {
                    ClientStep::Render(pixel_req)
                }
            },
            NetCommand::Identify => ClientStep::Unknown,
        }
    }
}

} // verus!
