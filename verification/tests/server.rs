use raytracer::net::client::{ClientStep, NetClient};
use raytracer::net::server::{
    handle_write, prune, write_event, NetServer, ReadEvent, SocketState, WriteEvent,
};
use raytracer::net::NetSocket;
use raytracer::net::{NetCommand, NetResponse};
use raytracer::resolution::{AALevel, Resolution};
use raytracer::util::{PixelReq, PixelReqBuffer, PixelRes, PixelResBuffer, PIXEL_BUFFER_SIZE};
use raytracer::vector::Point;

fn resolution(width: usize, height: usize) -> Resolution {
    Resolution::new(width, height, AALevel::new(1).unwrap()).unwrap()
}

/// A socket on which nothing waits to be sent.
fn idle() -> NetSocket {
    NetSocket::new(0)
}

fn server(width: usize, height: usize) -> NetServer<String> {
    NetServer::new("the scene".to_string(), &resolution(width, height)).unwrap()
}

#[test]
fn there_is_no_coordinator_for_an_image_that_cannot_be_marked() {
    let too_wide = resolution(usize::MAX / 8 + 1, 1);
    assert!(NetServer::new("the scene".to_string(), &too_wide).is_none());
}

#[test]
fn a_worker_without_a_scene_is_sent_the_scene() {
    let mut server = server(3, 2);
    match server.command(&SocketState::Uninitialized, &idle()) {
        Some(NetCommand::ReadScene(scene)) => assert_eq!(scene, "the scene"),
        _ => panic!("the scene was not sent"),
    }
    // the pixels have not been touched
    match server.command(&SocketState::Initiated, &idle()) {
        Some(NetCommand::RenderPixel(batch)) => assert_eq!(batch[0], Some(PixelReq::new(0, 0))),
        _ => panic!("no batch was sent"),
    }
}

#[test]
fn a_worker_with_the_scene_is_sent_batches_until_none_is_left() {
    let mut server = server(30, 10);
    let mut sent = 0;
    let mut pixels = 0;
    while let Some(command) = server.command(&SocketState::Initiated, &idle()) {
        match command {
            NetCommand::RenderPixel(batch) => {
                sent += 1;
                pixels += batch.iter().filter(|slot| slot.is_some()).count();
            }
            _ => panic!("a batch was expected"),
        }
    }
    assert_eq!(sent, 2);
    assert_eq!(pixels, 300);
    assert!(server.command(&SocketState::Initiated, &idle()).is_none());
    server.restart();
    assert!(server.command(&SocketState::Initiated, &idle()).is_some());
}

#[test]
fn nothing_is_sent_on_a_connection_that_has_ended() {
    let mut server = server(3, 2);
    assert!(server.command(&SocketState::Disconnected, &idle()).is_none());
}

#[test]
fn a_write_decides_the_state() {
    let cases = [
        (SocketState::Uninitialized, WriteEvent::Sent, SocketState::Initiated),
        (SocketState::Uninitialized, WriteEvent::WouldBlock, SocketState::Uninitialized),
        (SocketState::Uninitialized, WriteEvent::Failed, SocketState::Disconnected),
        (SocketState::Initiated, WriteEvent::Sent, SocketState::Initiated),
        (SocketState::Initiated, WriteEvent::WouldBlock, SocketState::Initiated),
        (SocketState::Initiated, WriteEvent::Failed, SocketState::Disconnected),
        (SocketState::Disconnected, WriteEvent::Sent, SocketState::Disconnected),
        (SocketState::Disconnected, WriteEvent::WouldBlock, SocketState::Disconnected),
        (SocketState::Disconnected, WriteEvent::Failed, SocketState::Disconnected),
    ];
    for (before, event, after) in cases {
        let mut state = before;
        handle_write(&mut state, event);
        assert_eq!(state, after);
    }
}

fn results() -> PixelResBuffer {
    let mut batch: PixelResBuffer = [None; PIXEL_BUFFER_SIZE];
    batch[0] = Some(PixelRes::new(0, 0, Point::new(255, 0, 0)));
    batch[1] = Some(PixelRes::new(2, 1, Point::new(0, 255, 0)));
    batch
}

#[test]
fn results_are_merged_into_the_image() {
    let mut server = server(3, 2);
    let mut state = SocketState::Initiated;
    assert!(server.accepts(&results()));
    server.handle_read(&mut state, ReadEvent::Results(results()));
    assert_eq!(state, SocketState::Initiated);
    assert_eq!(server.image().get_pixel(0, 0), Some(Point::new(255, 0, 0)));
    assert_eq!(server.image().get_pixel(2, 1), Some(Point::new(0, 255, 0)));
    assert_eq!(server.image().progress().assigned, 2);
    assert!(!server.is_complete());
}

#[test]
fn a_read_that_would_block_changes_nothing() {
    let mut server = server(3, 2);
    let mut state = SocketState::Initiated;
    server.handle_read(&mut state, ReadEvent::WouldBlock);
    assert_eq!(state, SocketState::Initiated);
    assert_eq!(server.image().progress().assigned, 0);
}

#[test]
fn a_failed_read_ends_the_connection() {
    let mut server = server(3, 2);
    let mut state = SocketState::Initiated;
    server.handle_read(&mut state, ReadEvent::Failed);
    assert_eq!(state, SocketState::Disconnected);
    assert!(!state.is_live());
}

#[test]
fn a_worker_without_a_scene_is_not_read() {
    let mut server = server(3, 2);
    for before in [SocketState::Uninitialized, SocketState::Disconnected] {
        assert!(!before.reads());
        for event in [ReadEvent::Results(results()), ReadEvent::WouldBlock, ReadEvent::Failed] {
            let mut state = before;
            server.handle_read(&mut state, event);
            assert_eq!(state, before);
        }
    }
    assert_eq!(server.image().progress().assigned, 0);
    assert!(SocketState::Initiated.reads());
}

#[test]
fn a_batch_with_a_pixel_outside_the_image_is_not_accepted() {
    let server = server(3, 2);
    let mut batch = results();
    batch[2] = Some(PixelRes::new(3, 1, Point::homogeneous(0)));
    assert!(!server.accepts(&batch));
}

#[test]
fn the_render_is_complete_when_every_batch_has_come_back() {
    let mut server = server(5, 4);
    let mut state = SocketState::Uninitialized;
    assert!(matches!(server.command(&state, &idle()), Some(NetCommand::ReadScene(_))));
    handle_write(&mut state, WriteEvent::Sent);
    while let Some(NetCommand::RenderPixel(batch)) = server.command(&state, &idle()) {
        handle_write(&mut state, WriteEvent::Sent);
        let mut answer: PixelResBuffer = [None; PIXEL_BUFFER_SIZE];
        for (k, slot) in batch.iter().enumerate() {
            if let Some(req) = slot {
                answer[k] = Some(PixelRes::new(req.x, req.y, Point::new(255, 0, 0)));
            }
        }
        assert!(!server.is_complete());
        server.handle_read(&mut state, ReadEvent::Results(answer));
    }
    assert!(server.is_complete());
    assert_eq!(state, SocketState::Initiated);
}

#[test]
fn a_worker_that_fails_does_not_stop_the_other() {
    let mut server = server(25, 20);
    let mut states = vec![(SocketState::Initiated, 'a'), (SocketState::Initiated, 'b')];
    // the first takes a batch and fails without an answer
    let lost = match server.command(&states[0].0, &idle()) {
        Some(NetCommand::RenderPixel(batch)) => batch,
        _ => panic!("a batch was expected"),
    };
    server.handle_read(&mut states[0].0, ReadEvent::Failed);
    prune(&mut states);
    assert_eq!(states, vec![(SocketState::Initiated, 'b')]);
    // the second renders what is left
    while let Some(NetCommand::RenderPixel(batch)) = server.command(&states[0].0, &idle()) {
        let mut answer: PixelResBuffer = [None; PIXEL_BUFFER_SIZE];
        for (k, slot) in batch.iter().enumerate() {
            if let Some(req) = slot {
                answer[k] = Some(PixelRes::new(req.x, req.y, Point::homogeneous(1)));
            }
        }
        server.handle_read(&mut states[0].0, ReadEvent::Results(answer));
    }
    // the batch that the failed worker took is not handed out again in
    // this pass
    let lost_pixels = lost.iter().filter(|slot| slot.is_some()).count();
    assert_eq!(lost_pixels, 200);
    assert_eq!(server.image().progress().assigned, 500 - lost_pixels);
    assert!(!server.is_complete());
    // a second pass over the image brings it
    server.restart();
    while let Some(NetCommand::RenderPixel(batch)) = server.command(&states[0].0, &idle()) {
        let mut answer: PixelResBuffer = [None; PIXEL_BUFFER_SIZE];
        for (k, slot) in batch.iter().enumerate() {
            if let Some(req) = slot {
                answer[k] = Some(PixelRes::new(req.x, req.y, Point::homogeneous(1)));
            }
        }
        server.handle_read(&mut states[0].0, ReadEvent::Results(answer));
    }
    assert!(server.is_complete());
}

#[test]
fn a_turn_takes_the_read_and_chooses_the_command() {
    let mut server = server(3, 2);
    // a worker without a scene is not read, and is sent the scene
    let mut state = SocketState::Uninitialized;
    assert!(matches!(
        server.handle_socket(&mut state, &idle(), ReadEvent::Failed),
        Some(NetCommand::ReadScene(_))
    ));
    assert_eq!(state, SocketState::Uninitialized);
    handle_write(&mut state, WriteEvent::Sent);
    // a read that would block is no reason not to send a batch
    assert!(matches!(
        server.handle_socket(&mut state, &idle(), ReadEvent::WouldBlock),
        Some(NetCommand::RenderPixel(_))
    ));
    assert_eq!(state, SocketState::Initiated);
    // results are merged, and no batch is left
    assert!(server.handle_socket(&mut state, &idle(), ReadEvent::Results(results())).is_none());
    assert_eq!(state, SocketState::Initiated);
    assert_eq!(server.image().progress().assigned, 2);
    // an error ends the connection, and nothing is sent
    server.restart();
    assert!(server.handle_socket(&mut state, &idle(), ReadEvent::Failed).is_none());
    assert_eq!(state, SocketState::Disconnected);
    // no pixel was taken for the connection that ended
    let mut other = SocketState::Initiated;
    match server.handle_socket(&mut other, &idle(), ReadEvent::WouldBlock) {
        Some(NetCommand::RenderPixel(batch)) => {
            assert_eq!(batch[0], Some(PixelReq::new(0, 0)))
        }
        _ => panic!("a batch was expected"),
    }
}

#[test]
fn prune_drops_the_connections_that_have_ended() {
    let mut connections = vec![
        (SocketState::Disconnected, 0),
        (SocketState::Initiated, 1),
        (SocketState::Uninitialized, 2),
        (SocketState::Disconnected, 3),
        (SocketState::Disconnected, 4),
        (SocketState::Initiated, 5),
    ];
    prune(&mut connections);
    assert_eq!(
        connections,
        vec![
            (SocketState::Initiated, 1),
            (SocketState::Uninitialized, 2),
            (SocketState::Initiated, 5)
        ]
    );
    prune(&mut connections);
    assert_eq!(connections.len(), 3);
    let mut none: Vec<(SocketState, u8)> = vec![(SocketState::Disconnected, 0)];
    prune(&mut none);
    assert!(none.is_empty());
    prune(&mut none);
    assert!(none.is_empty());
}

fn batch_of_one() -> PixelReqBuffer {
    let mut batch: PixelReqBuffer = [None; PIXEL_BUFFER_SIZE];
    batch[0] = Some(PixelReq::new(4, 5));
    batch
}

#[test]
fn a_worker_stores_the_scene_and_then_renders() {
    let mut client: NetClient<&str> = NetClient::new();
    assert!(client.scene.is_none());
    assert!(matches!(
        client.handle_command(NetCommand::RenderPixel(batch_of_one())),
        ClientStep::NoScene
    ));
    assert!(matches!(client.handle_command(NetCommand::Identify), ClientStep::Unknown));
    assert!(client.scene.is_none());
    assert!(matches!(
        client.handle_command(NetCommand::ReadScene("one")),
        ClientStep::SceneStored
    ));
    assert_eq!(client.scene, Some("one"));
    match client.handle_command(NetCommand::RenderPixel(batch_of_one())) {
        ClientStep::Render(batch) => assert_eq!(batch, batch_of_one()),
        _ => panic!("the batch was not rendered"),
    }
    assert!(matches!(
        client.handle_command(NetCommand::ReadScene("two")),
        ClientStep::SceneStored
    ));
    assert_eq!(client.scene, Some("two"));
}

#[test]
fn an_empty_batch_ends_the_work() {
    let mut client: NetClient<u8> = NetClient::new();
    let empty: PixelReqBuffer = [None; PIXEL_BUFFER_SIZE];
    assert!(matches!(client.handle_command(NetCommand::RenderPixel(empty)), ClientStep::NoScene));
    client.handle_command(NetCommand::ReadScene(1));
    assert!(matches!(client.handle_command(NetCommand::RenderPixel(empty)), ClientStep::Finished));
    assert_eq!(client.scene, Some(1));
}

#[test]
fn a_worker_reads_its_commands_as_frames() {
    let mut client: NetClient<u8> = NetClient::new();
    let frame = raytracer::net::socket::encode(b"command");
    assert_eq!(client.reader.receive(&frame), frame.len());
    assert_eq!(client.reader.read(), Some(Ok(b"command".to_vec())));
}

#[test]
fn a_response_carries_a_batch_of_results() {
    let NetResponse::RenderPixel(batch) = NetResponse::RenderPixel(results());
    assert_eq!(batch[1].unwrap().color, Point::new(0, 255, 0));
}

#[test]
fn a_scene_that_waits_on_the_socket_is_not_offered_again() {
    let mut server = server(3, 2);
    let mut state = SocketState::Uninitialized;
    let mut socket = NetSocket::new(7);
    // the scene is offered and put on the socket; the stream takes a part
    assert!(matches!(
        server.handle_socket(&mut state, &socket, ReadEvent::WouldBlock),
        Some(NetCommand::ReadScene(_))
    ));
    socket.write(b"the scene");
    let whole = socket.outgoing().len();
    assert_eq!(whole, 8 + 9 + 8);
    socket.sent(5);
    assert_eq!(write_event(&socket, false), WriteEvent::WouldBlock);
    handle_write(&mut state, write_event(&socket, false));
    assert_eq!(state, SocketState::Uninitialized);
    // while the rest waits nothing is offered, and nothing is added
    assert!(server.handle_socket(&mut state, &socket, ReadEvent::WouldBlock).is_none());
    assert_eq!(state, SocketState::Uninitialized);
    assert_eq!(socket.outgoing().len(), whole - 5);
    // the rest goes out: the worker has the scene now
    socket.sent(whole - 5);
    assert_eq!(write_event(&socket, false), WriteEvent::Sent);
    handle_write(&mut state, write_event(&socket, false));
    assert_eq!(state, SocketState::Initiated);
    match server.handle_socket(&mut state, &socket, ReadEvent::WouldBlock) {
        Some(NetCommand::RenderPixel(batch)) => assert_eq!(batch[0], Some(PixelReq::new(0, 0))),
        _ => panic!("a batch was expected"),
    }
}

#[test]
fn no_pixel_is_handed_out_while_a_batch_waits_on_the_socket() {
    let mut server = server(3, 2);
    let state = SocketState::Initiated;
    let mut socket = NetSocket::new(7);
    socket.write(b"a batch");
    assert!(server.command(&state, &socket).is_none());
    assert!(server.command(&state, &socket).is_none());
    // results are still read from a worker whose socket is busy
    let mut reading = SocketState::Initiated;
    assert!(server.handle_socket(&mut reading, &socket, ReadEvent::Results(results())).is_none());
    assert_eq!(server.image().progress().assigned, 2);
    assert!(server.handle_socket(&mut reading, &socket, ReadEvent::Failed).is_none());
    assert_eq!(reading, SocketState::Disconnected);
    // once it has gone out, the first batch of the pass is offered
    let waiting = socket.outgoing().len();
    socket.sent(waiting);
    match server.command(&state, &socket) {
        Some(NetCommand::RenderPixel(batch)) => assert_eq!(batch[0], Some(PixelReq::new(0, 0))),
        _ => panic!("a batch was expected"),
    }
}

#[test]
fn an_error_of_the_stream_is_a_failed_write() {
    let mut socket = NetSocket::new(7);
    assert_eq!(write_event(&socket, true), WriteEvent::Failed);
    assert_eq!(write_event(&socket, false), WriteEvent::Sent);
    socket.write(b"a batch");
    assert_eq!(write_event(&socket, true), WriteEvent::Failed);
    assert_eq!(write_event(&socket, false), WriteEvent::WouldBlock);
}
