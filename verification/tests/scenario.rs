use event_relay::bus::DEFAULT_CAPACITY;
use event_relay::client::{Client, ListenState};
use event_relay::models::Event;
use event_relay::server::{AcceptStep, Accepted, TcpServer};

fn event(opcode: u8, payload: &[u8]) -> Event {
    Event { opcode, payload: payload.to_vec() }
}

/// One connection as both ends see it: the peer's own state, the state the
/// server keeps for it, and the bytes under way in either direction.
struct Link {
    id: u64,
    peer: Client,
    served: Client,
    to_server: Vec<u8>,
    to_peer: Vec<u8>,
}

fn connect(server: &mut TcpServer) -> Link {
    match server.start(Accepted::Connection) {
        AcceptStep::Serve(id, served) => {
            Link { id, peer: Client::new(), served, to_server: Vec::new(), to_peer: Vec::new() }
        }
        AcceptStep::Continue => panic!("the server should serve the connection"),
        AcceptStep::Stop => panic!("the server should still accept"),
    }
}

#[test]
fn three_clients_ping_and_are_ponged() {
    let mut server = TcpServer::new(DEFAULT_CAPACITY);
    let mut links = vec![connect(&mut server), connect(&mut server), connect(&mut server)];

    for link in links.iter_mut() {
        match link.peer.send_event(&event(1, b"ping")) {
            Some(frame) => link.to_server.extend_from_slice(&frame),
            None => panic!("ping fits a frame"),
        }
    }

    // The server reads the connections in an order of its own, in small reads.
    for at in [2usize, 0, 1] {
        let link = &mut links[at];
        let bytes: Vec<u8> = link.to_server.drain(..).collect();
        for piece in bytes.chunks(4) {
            let heard = link.served.listen(piece);
            assert_eq!(heard.state, ListenState::Open);
            let queued = server.handle_client(link.id, &heard.events, heard.state);
            assert_eq!(queued, heard.events.len());
        }
    }
    let observed = server.listen_events();
    assert_eq!(observed, vec![event(1, b"ping"), event(1, b"ping"), event(1, b"ping")]);

    let plan = match server.broadcast_event(&event(0, b"pong")) {
        Some(plan) => plan,
        None => panic!("pong fits a frame"),
    };
    assert_eq!(plan.targets.len(), 3);
    for target in &plan.targets {
        let link = links.iter_mut().find(|link| link.id == *target);
        match link {
            Some(link) => link.to_peer.extend_from_slice(&plan.frame),
            None => panic!("target {} is not a connection", target),
        }
    }
    for link in links.iter_mut() {
        let bytes: Vec<u8> = link.to_peer.drain(..).collect();
        let heard = link.peer.listen(&bytes);
        assert_eq!(heard.events, vec![event(0, b"pong")]);
        assert_eq!(heard.state, ListenState::Open);
        assert!(link.to_peer.is_empty());
    }
}

#[test]
fn a_client_that_leaves_is_not_ponged() {
    let mut server = TcpServer::new(DEFAULT_CAPACITY);
    let mut links = vec![connect(&mut server), connect(&mut server), connect(&mut server)];

    // The middle peer hangs up: the server reads the end of its stream.
    let gone = links[1].id;
    let heard = links[1].served.listen(&[]);
    assert_eq!(heard.state, ListenState::Closed);
    assert_eq!(server.handle_client(gone, &heard.events, heard.state), 0);

    for _ in 0..3 {
        let plan = match server.broadcast_event(&event(0, b"pong")) {
            Some(plan) => plan,
            None => panic!("pong fits a frame"),
        };
        assert_eq!(plan.targets, vec![links[0].id, links[2].id]);
    }
}

#[test]
fn a_failed_write_costs_only_its_own_connection() {
    let mut server = TcpServer::new(DEFAULT_CAPACITY);
    let mut links = vec![connect(&mut server), connect(&mut server), connect(&mut server)];
    let plan = match server.broadcast_event(&event(0, b"pong")) {
        Some(plan) => plan,
        None => panic!("pong fits a frame"),
    };
    let mut delivered = 0;
    for target in &plan.targets {
        let link = &mut links[*target as usize];
        if link.id == 0 {
            // The write to the first connection fails.
            link.served.send_failed();
            server.drop_client(link.id);
        } else {
            link.to_peer.extend_from_slice(&plan.frame);
            delivered += 1;
        }
    }
    assert_eq!(delivered, 2);
    assert!(!links[0].served.is_connected());
    for link in links.iter_mut().skip(1) {
        let bytes: Vec<u8> = link.to_peer.drain(..).collect();
        assert_eq!(link.peer.listen(&bytes).events, vec![event(0, b"pong")]);
    }
    match server.broadcast_event(&event(0, b"again")) {
        Some(next) => assert_eq!(next.targets, vec![1, 2]),
        None => panic!("the event fits a frame"),
    }
}
