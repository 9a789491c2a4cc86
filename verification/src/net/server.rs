//! The coordinator's side of a connection.
//!
//! Once in a sweep over its connections the coordinator handles each live
//! one: it reads a result from a worker that has the scene, then sends the
//! next command. What it read and whether the command went out decide the
//! state of the connection.
//!
//! A command is put on the socket of the connection, where it waits until
//! the stream has taken all of it. A write that would have had to wait is
//! no failure and changes no state: what is left of the command goes out
//! in a later sweep, and until then the connection is offered nothing new.

use crate::frame_buffer::{
    all_set, batch_fits, batch_from, handed_out_after, painted_colors, painted_marks, FrameBuffer,
    PixelProvider,
};
use crate::net::socket::NetSocket;
use crate::net::NetCommand;
use crate::resolution::Resolution;
use crate::util::{is_empty_batch, PixelResBuffer, PIXEL_BUFFER_SIZE};
use vstd::prelude::*;

verus! {

/// The state of a connection to a worker.
#[derive(Clone, Copy, Debug, PartialEq, Eq, Structural)]
pub enum SocketState {
    /// The worker has connected and has no scene yet.
    Uninitialized,
    /// The worker has been sent the scene and takes batches of pixels.
    Initiated,
    /// The connection has failed. It is to be dropped.
    Disconnected,
}

impl SocketState {
    /// Whether the connection is still served.
    pub open spec fn spec_is_live(&self) -> bool {
        *self != SocketState::Disconnected
    }

    /// Whether the connection is still served.
    #[verifier::when_used_as_spec(spec_is_live)]
    pub fn is_live(&self) -> (r: bool)
        ensures
            r == self.spec_is_live(),
    {
        match self {
            SocketState::Disconnected => false,
            _ => true,
        }
    }

    /// Whether a result is read from the connection before a command is
    /// sent: from a worker that has the scene.
    pub fn reads(&self) -> (r: bool)
        ensures
            r == (*self == SocketState::Initiated),
    {
        match self {
            SocketState::Initiated => true,
            _ => false,
        }
    }
}

/// What an attempt to read a result from a connection brought.
pub enum ReadEvent {
    /// A whole result.
    Results(PixelResBuffer),
    /// Nothing yet: the read would have had to wait.
    WouldBlock,
    /// An error: a closed connection, a corrupt frame.
    Failed,
}

/// What an attempt to send a command on a connection brought.
#[derive(Clone, Copy, Debug, PartialEq, Eq, Structural)]
pub enum WriteEvent {
    /// All that waited on the socket went out.
    Sent,
    /// The write would have had to wait: bytes still wait on the socket.
    WouldBlock,
    /// An error.
    Failed,
}

/// The state of a connection after an attempt to send on it: an error
/// ends it, and a worker to which a command went out whole has the scene
/// and takes batches from now on. A write that would have had to wait
/// leaves the state as it was: a worker that has not been sent all of the
/// scene is still without it.
pub open spec fn state_after_write(state: SocketState, event: WriteEvent) -> SocketState {
    if state == SocketState::Disconnected || event == WriteEvent::Failed {
        SocketState::Disconnected
    } else if event == WriteEvent::Sent {
        SocketState::Initiated
    } else {
        state
    }
}

/// Whether bytes of an earlier command still wait to be sent on the socket.
pub open spec fn busy(socket: NetSocket) -> bool {
    socket.unsent().len() > 0
}

/// What the coordinator shares between its connections: the scene, the
/// image, and the source of the pixels that are still to be rendered.
pub struct NetServer<S> {
    scene: S,
    frame_buffer: FrameBuffer,
    pixel_stream: PixelProvider,
}

impl<S> NetServer<S> {
    pub closed spec fn scene(&self) -> S {
        self.scene
    }

    pub closed spec fn frame_buffer(&self) -> FrameBuffer {
        self.frame_buffer
    }

    pub closed spec fn pixel_stream(&self) -> PixelProvider {
        self.pixel_stream
    }

    /// Whether the image and the source of pixels are of one resolution.
    pub open spec fn consistent(&self) -> bool {
        self.frame_buffer().resolution() == self.pixel_stream().resolution()
    }

    /// A coordinator for an image of the resolution, nothing of it rendered
    /// or handed out. There is none where the image has more pixels than a
    /// frame buffer holds.
    pub fn new(scene: S, resolution: &Resolution) -> (r: Option<NetServer<S>>)
        ensures
            r is Some <==> resolution.spec_pixels() <= usize::MAX / 8,
            r matches Some(server) ==> {
                &&& server.consistent()
                &&& server.scene() == scene
                &&& server.pixel_stream().resolution() == *resolution
                &&& server.pixel_stream().handed_out() == 0
                &&& server.frame_buffer().colors() == Seq::new(
                    resolution.spec_pixels(),
                    |i: int| 0u32,
                )
                &&& server.frame_buffer().assigned() == Seq::new(
                    resolution.spec_pixels(),
                    |i: int| false,
                )
            },
    {
        match FrameBuffer::new(resolution) {
            Ok(frame_buffer) => Some(
                NetServer { scene, frame_buffer, pixel_stream: PixelProvider::new(resolution) },
            ),
            Err(_) => None,
        }
    }

    /// The image as far as it has been rendered.
    pub fn image(&self) -> (r: &FrameBuffer)
        ensures
            *r == self.frame_buffer(),
    {
        &self.frame_buffer
    }

    /// Whether every pixel of the image has been rendered: the sweep over
    /// the connections ends then.
    pub fn is_complete(&self) -> (r: bool)
        ensures
            r == all_set(self.frame_buffer().assigned()),
    {
        self.frame_buffer.is_complete()
    }

    /// Begins a new pass over the image: all pixels are handed out again.
    pub fn restart(&mut self)
        ensures
            final(self).scene() == old(self).scene(),
            final(self).frame_buffer() == old(self).frame_buffer(),
            final(self).pixel_stream().resolution() == old(self).pixel_stream().resolution(),
            final(self).pixel_stream().handed_out() == 0,
    {
        self.pixel_stream.reset();
    }

    /// Whether the results of the batch all name pixels of the image, so
    /// that `handle_read` takes them.
    pub fn accepts(&self, results: &PixelResBuffer) -> (r: bool)
        ensures
            r == batch_fits(
                self.frame_buffer().resolution().spec_width(),
                self.frame_buffer().spec_pixel_count(),
                results@,
            ),
    {
        self.frame_buffer.accepts(results)
    }

    /// Takes what a read on a connection brought.
    ///
    /// Results of a worker that has the scene are written to the image. A
    /// read that would have had to wait changes nothing. An error ends the
    /// connection. A connection in another state is not read, and what a
    /// read of it brought changes nothing.
    pub fn handle_read(&mut self, state: &mut SocketState, event: ReadEvent)
        requires
            event matches ReadEvent::Results(results) ==> batch_fits(
                old(self).frame_buffer().resolution().spec_width(),
                old(self).frame_buffer().spec_pixel_count(),
                results@,
            ),
        ensures
            final(self).scene() == old(self).scene(),
            final(self).pixel_stream() == old(self).pixel_stream(),
            final(self).frame_buffer().resolution() == old(self).frame_buffer().resolution(),
            *old(state) == SocketState::Initiated ==> match event {
                ReadEvent::Results(results) => {
                    &&& *final(state) == SocketState::Initiated
                    &&& final(self).frame_buffer().colors() == painted_colors(
                        old(self).frame_buffer().colors(),
                        old(self).frame_buffer().resolution().spec_width(),
                        results@,
                    )
                    &&& final(self).frame_buffer().assigned() == painted_marks(
                        old(self).frame_buffer().assigned(),
                        old(self).frame_buffer().resolution().spec_width(),
                        results@,
                    )
                },
                ReadEvent::WouldBlock => {
                    &&& *final(state) == SocketState::Initiated
                    &&& final(self).frame_buffer() == old(self).frame_buffer()
                },
                ReadEvent::Failed => {
                    &&& *final(state) == SocketState::Disconnected
                    &&& final(self).frame_buffer() == old(self).frame_buffer()
                },
            },
            *old(state) != SocketState::Initiated ==> {
                &&& *final(state) == *old(state)
                &&& final(self).frame_buffer() == old(self).frame_buffer()
            },
    {
        if !state.reads() {
            return ;
        }
        match event {
            ReadEvent::Results(results) => {
                self.frame_buffer.set_pixel_from_buffer(&results);
            },
            ReadEvent::WouldBlock => {},
            ReadEvent::Failed => {
                *state = SocketState::Disconnected;
            },
        }
    }

    /// One turn of a connection, up to the command that is to be put on
    /// its socket, if any: what a read brought is taken, and unless that
    /// ended the connection, the next command is chosen.
    ///
    /// Only a worker that has the scene is read (`SocketState::reads`);
    /// for another connection `read` says nothing. An error of the read ends
    /// the connection, and nothing is sent. Results are written to the
    /// image. The command is that of `command` for the state that the
    /// connection then has and for its socket: none while bytes of an
    /// earlier command wait on it.
    pub fn handle_socket(
        &mut self,
        state: &mut SocketState,
        socket: &NetSocket,
        read: ReadEvent,
    ) -> (r: Option<NetCommand<S>>) where S: Clone
        requires
            read matches ReadEvent::Results(results) ==> batch_fits(
                old(self).frame_buffer().resolution().spec_width(),
                old(self).frame_buffer().spec_pixel_count(),
                results@,
            ),
        ensures
            final(self).scene() == old(self).scene(),
            final(self).frame_buffer().resolution() == old(self).frame_buffer().resolution(),
            final(self).pixel_stream().resolution() == old(self).pixel_stream().resolution(),
            *final(state) == if *old(state) == SocketState::Initiated && read is Failed {
                SocketState::Disconnected
            } else {
                *old(state)
            },
            *old(state) == SocketState::Initiated && read is Results ==> {
                &&& final(self).frame_buffer().colors() == painted_colors(
                    old(self).frame_buffer().colors(),
                    old(self).frame_buffer().resolution().spec_width(),
                    read->Results_0@,
                )
                &&& final(self).frame_buffer().assigned() == painted_marks(
                    old(self).frame_buffer().assigned(),
                    old(self).frame_buffer().resolution().spec_width(),
                    read->Results_0@,
                )
            },
            !(*old(state) == SocketState::Initiated && read is Results) ==> final(self).frame_buffer()
                == old(self).frame_buffer(),
            busy(*socket) ==> {
                &&& r is None
                &&& final(self).pixel_stream() == old(self).pixel_stream()
            },
            !busy(*socket) ==> match *final(state) {
                SocketState::Uninitialized => {
                    &&& r matches Some(NetCommand::ReadScene(scene)) && cloned(
                        old(self).scene(),
                        scene,
                    )
                    &&& final(self).pixel_stream() == old(self).pixel_stream()
                },
                SocketState::Initiated => {
                    let provider = old(self).pixel_stream();
                    let pixels = provider.resolution().spec_pixels();
                    &&& final(self).pixel_stream().handed_out() == handed_out_after(
                        provider.handed_out(),
                        pixels,
                        PIXEL_BUFFER_SIZE as nat,
                    )
                    &&& provider.handed_out() == pixels ==> r is None
                    &&& provider.handed_out() != pixels ==> (r matches Some(
                        NetCommand::RenderPixel(batch),
                    ) && batch@ == batch_from(
                        provider.resolution().spec_width(),
                        pixels,
                        provider.handed_out(),
                    ))
                },
                SocketState::Disconnected => {
                    &&& r is None
                    &&& final(self).pixel_stream() == old(self).pixel_stream()
                },
            },
    {
        self.handle_read(state, read);
        self.command(state, socket)
    }

    /// The command that is to be put on the socket of a connection, if
    /// any.
    ///
    /// While bytes of an earlier command wait on the socket there is none,
    /// and no pixel is handed out: what waits is sent first, so that a
    /// scene of which a part has gone out is not sent a second time.
    /// Else a worker without a scene is sent the scene. A worker that has
    /// it is sent the next batch of pixels, unless that batch is empty: the
    /// pass is over then and nothing is sent. Nothing is sent on a
    /// connection that has ended.
    pub fn command(&mut self, state: &SocketState, socket: &NetSocket) -> (r: Option<
        NetCommand<S>,
    >) where S: Clone
        ensures
            final(self).scene() == old(self).scene(),
            final(self).frame_buffer() == old(self).frame_buffer(),
            final(self).pixel_stream().resolution() == old(self).pixel_stream().resolution(),
            busy(*socket) ==> {
                &&& r is None
                &&& final(self).pixel_stream() == old(self).pixel_stream()
            },
            !busy(*socket) ==> match *state {
                SocketState::Uninitialized => {
                    &&& r matches Some(NetCommand::ReadScene(scene)) && cloned(
                        old(self).scene(),
                        scene,
                    )
                    &&& final(self).pixel_stream() == old(self).pixel_stream()
                },
                SocketState::Initiated => {
                    let provider = old(self).pixel_stream();
                    let pixels = provider.resolution().spec_pixels();
                    &&& final(self).pixel_stream().handed_out() == handed_out_after(
                        provider.handed_out(),
                        pixels,
                        PIXEL_BUFFER_SIZE as nat,
                    )
                    &&& provider.handed_out() == pixels ==> r is None
                    &&& provider.handed_out() != pixels ==> (r matches Some(
                        NetCommand::RenderPixel(batch),
                    ) && batch@ == batch_from(
                        provider.resolution().spec_width(),
                        pixels,
                        provider.handed_out(),
                    ))
                },
                SocketState::Disconnected => {
                    &&& r is None
                    &&& final(self).pixel_stream() == old(self).pixel_stream()
                },
            },
    {
        if socket.outgoing().len() > 0 {
            return None;
        }
        match state {
            SocketState::Uninitialized => Some(NetCommand::ReadScene(self.scene.clone())),
            SocketState::Initiated => {
                let coordinate = self.pixel_stream.get_coordinates();
                if is_empty_batch(&coordinate) {
                    None
                } else {
                    Some(NetCommand::RenderPixel(coordinate))
                }
            },
            SocketState::Disconnected => None,
        }
    }
}

/// What an attempt to send what waits on a socket brought, told from the
/// socket after the attempt. `failed` says that the stream gave an error
/// other than that it would have had to wait.
pub fn write_event(socket: &NetSocket, failed: bool) -> (r: WriteEvent)
    ensures
        r == if failed {
            WriteEvent::Failed
        } else if busy(*socket) {
            WriteEvent::WouldBlock
        } else {
            WriteEvent::Sent
        },
{
    if failed {
        WriteEvent::Failed
    } else if socket.outgoing().len() > 0 {
        WriteEvent::WouldBlock
    } else {
        WriteEvent::Sent
    }
}

/// Takes what an attempt to send on a connection brought.
pub fn handle_write(state: &mut SocketState, event: WriteEvent)
    ensures
        *final(state) == state_after_write(*old(state), event),
{
    if let SocketState::Disconnected = *state {
        return ;
    }
    match event {
        WriteEvent::Failed => {
            *state = SocketState::Disconnected;
        },
        WriteEvent::Sent => {
            *state = SocketState::Initiated;
        },
        WriteEvent::WouldBlock => {},
    }
}

/// A worker counts as having the scene only once a command has gone out
/// to it whole: a write that would have had to wait changes no state, and
/// an error ends the connection.
pub proof fn lemma_only_a_sent_scene_initiates(state: SocketState, event: WriteEvent)
    ensures
        state == SocketState::Uninitialized ==> (state_after_write(state, event)
            == SocketState::Initiated <==> event == WriteEvent::Sent),
        event == WriteEvent::WouldBlock ==> state_after_write(state, event) == state,
        event == WriteEvent::Failed ==> state_after_write(state, event)
            == SocketState::Disconnected,
{
}

/// The connections that are still served, in their order.
pub open spec fn live<C>(connections: Seq<(SocketState, C)>) -> Seq<(SocketState, C)> {
    connections.filter(|c: (SocketState, C)| c.0.spec_is_live())
}

/// Drops the connections that have ended. The others stay, in their order.
pub fn prune<C>(connections: &mut Vec<(SocketState, C)>)
    ensures
        final(connections)@ == live(old(connections)@),
{
    let mut kept: Vec<(SocketState, C)> = Vec::new();
    let ghost all = connections@;
    let ghost mut done: int = all.len() as int;
    proof {
        assert(all.skip(done) =~= Seq::<(SocketState, C)>::empty());
        assert(live(all.skip(done)) =~= Seq::<(SocketState, C)>::empty()) by {
            reveal(Seq::filter);
        }
    }
    // The connections are taken from the back and the live ones are
    // collected in reverse, so that none has to be copied.
    while connections.len() > 0
        invariant
            0 <= done <= all.len(),
            connections@ == all.take(done),
            kept@.reverse() == live(all.skip(done)),
        decreases connections.len(),
    {
        let connection = connections.pop().unwrap();
        proof {
            let tail = all.skip(done);
            let longer = all.skip(done - 1);
            assert(longer =~= seq![connection] + tail);
            lemma_live_concat(seq![connection], tail);
            assert(live(seq![connection]) =~= if connection.0.spec_is_live() {
                seq![connection]
            } else {
                Seq::empty()
            }) by {
                reveal_with_fuel(Seq::filter, 2);
                assert(seq![connection].drop_last() =~= Seq::<(SocketState, C)>::empty());
            }
            assert(all.take(done).drop_last() =~= all.take(done - 1));
            done = done - 1;
        }
        if connection.0.is_live() {
            proof {
                assert(kept@.push(connection).reverse() =~= seq![connection] + kept@.reverse());
            }
            kept.push(connection);
        }
    }
    proof {
        assert(all.skip(0) =~= all);
    }
    let ghost goal = live(all);
    while kept.len() > 0
        invariant
            connections@ + kept@.reverse() == goal,
        decreases kept.len(),
    {
        let ghost before = kept@;
        let connection = kept.pop().unwrap();
        proof {
            assert(before.reverse() =~= seq![connection] + kept@.reverse());
            assert(connections@.push(connection) + kept@.reverse() =~= connections@
                + before.reverse());
        }
        connections.push(connection);
    }
    proof {
        assert(kept@.reverse() =~= Seq::<(SocketState, C)>::empty());
        assert(connections@ + Seq::<(SocketState, C)>::empty() =~= connections@);
    }
}

proof fn lemma_live_concat<C>(a: Seq<(SocketState, C)>, b: Seq<(SocketState, C)>)
    ensures
        live(a + b) == live(a) + live(b),
{
    Seq::filter_distributes_over_add(a, b, |c: (SocketState, C)| c.0.spec_is_live());
}

} // verus!
