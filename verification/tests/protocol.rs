use reliable_udp::error::Error;
use reliable_udp::protocol::connection::{Event, RouteUpdate, Verdict, LINGER};
use reliable_udp::protocol::packets::Packet;
use reliable_udp::protocol::routes::Routes;
use reliable_udp::protocol::{hash, Handshake, Protocol, MAX_TRANSMIT};
use std::hash::Hasher;

fn client_addr() -> String {
    String::from("127.0.0.1:8081")
}

fn server_addr() -> String {
    String::from("127.0.0.1:8080")
}

fn accepted_server(server: &mut Protocol, src: &str, client_sequence: u64) {
    let cookie = hash(&String::from(src));
    let ack = Packet::new_ack(client_sequence, cookie + 1);
    assert!(server.dispatch(String::from(src), ack.to_bytes()).is_none());
}

#[test]
fn hash_is_the_standard_digest_of_the_address_bytes() {
    for addr in ["", "a", "127.0.0.1:8080", "[::1]:9000"] {
        let mut hasher = std::collections::hash_map::DefaultHasher::new();
        hasher.write(addr.as_bytes());
        assert_eq!(hash(&String::from(addr)), hasher.finish());
    }
}

#[test]
fn hash_tells_addresses_apart() {
    assert_eq!(hash(&client_addr()), hash(&client_addr()));
    assert_ne!(hash(&client_addr()), hash(&server_addr()));
    assert_ne!(hash(&String::from("127.0.0.1:1")), hash(&String::from("127.0.0.1:2")));
}

#[test]
fn max_transmit_is_five() {
    assert_eq!(MAX_TRANSMIT, 5);
}

#[test]
fn syn_is_answered_without_state() {
    let mut server = Protocol::new();
    for _ in 0..3 {
        let reply = server
            .dispatch(client_addr(), Packet::new_syn(4242).to_bytes())
            .unwrap();
        assert!(reply.is_syn() && reply.is_ack());
        assert!(!reply.is_reset() && !reply.is_fin());
        assert_eq!(reply.get_sequence(), hash(&client_addr()));
        assert_eq!(reply.get_acked(), 4243);
        assert_eq!(reply.get_size(), 0);
    }
    assert!(!server.is_routed(&client_addr()));
    assert!(server.listen().done.is_none());
}

#[test]
fn syn_with_the_last_sequence_is_dropped() {
    let mut server = Protocol::new();
    assert!(server
        .dispatch(client_addr(), Packet::new_syn(u64::MAX).to_bytes())
        .is_none());
    assert!(!server.is_routed(&client_addr()));
}

#[test]
fn synack_is_no_bare_request() {
    let mut server = Protocol::new();
    assert!(server
        .dispatch(client_addr(), Packet::new_synack(1, 2).to_bytes())
        .is_none());
    assert!(!server.is_routed(&client_addr()));
}

#[test]
fn ack_of_the_cookie_makes_a_connection() {
    let mut server = Protocol::new();
    let cookie = hash(&client_addr());
    let ack = Packet::new_ack(4243, cookie + 1);
    assert!(server.dispatch(client_addr(), ack.to_bytes()).is_none());
    assert!(server.is_routed(&client_addr()));
    let step = server.listen();
    let connection = step.done.unwrap().unwrap();
    assert_eq!(connection.get_peer_addr(), client_addr());
    assert_eq!(connection.get_sequence(), cookie + 1);
    assert_eq!(connection.get_ack(), 4243);
    assert_eq!(connection.get_in_flight(), 0);
    assert!(server.listen().done.is_none());
}

#[test]
fn ack_of_another_number_is_discarded() {
    let cookie = hash(&client_addr());
    for acked in [0u64, cookie, cookie.wrapping_add(2), hash(&server_addr()).wrapping_add(1)] {
        let mut server = Protocol::new();
        let ack = Packet::new_ack(4243, acked);
        assert!(server.dispatch(client_addr(), ack.to_bytes()).is_none());
        assert!(!server.is_routed(&client_addr()));
        assert!(server.listen().done.is_none());
    }
}

#[test]
fn frame_without_ack_from_a_stranger_is_discarded() {
    let cookie = hash(&client_addr());
    let mut server = Protocol::new();
    let mut wire = Packet::new_ack(1, cookie + 1).to_bytes();
    wire[0] = 0;
    assert!(server.dispatch(client_addr(), wire).is_none());
    assert!(server
        .dispatch(client_addr(), Packet::new_data(vec![1, 2], 0).to_bytes())
        .is_none());
    assert!(server
        .dispatch(client_addr(), Packet::new_reset(0).to_bytes())
        .is_none());
    assert!(server
        .dispatch(client_addr(), Packet::new_fin(0).to_bytes())
        .is_none());
    assert!(!server.is_routed(&client_addr()));
    assert!(server.listen().done.is_none());
}

#[test]
fn malformed_datagram_is_dropped() {
    let mut server = Protocol::new();
    accepted_server(&mut server, "127.0.0.1:8081", 5);
    assert!(server.dispatch(client_addr(), vec![1, 2, 3]).is_none());
    assert!(server.dispatch(server_addr(), Vec::new()).is_none());
    assert!(server.next_frame(&client_addr()).is_none());
    assert!(!server.is_routed(&server_addr()));
}

#[test]
fn frames_of_a_known_peer_are_queued_in_order() {
    let mut server = Protocol::new();
    accepted_server(&mut server, "127.0.0.1:8081", 5);
    assert!(server.next_frame(&client_addr()).is_none());
    for sequence in [5u64, 7, 6] {
        let frame = Packet::new_data(vec![sequence as u8], sequence);
        assert!(server.dispatch(client_addr(), frame.to_bytes()).is_none());
    }
    assert!(server
        .dispatch(client_addr(), Packet::new_reset(9).to_bytes())
        .is_none());
    for sequence in [5u64, 7, 6] {
        match server.next_frame(&client_addr()) {
            Some(Event::Arrived(frame)) => {
                assert_eq!(frame.get_sequence(), sequence);
                assert_eq!(frame.get_content(), vec![sequence as u8]);
            }
            other => panic!("unexpected {:?}", other),
        }
    }
    match server.next_frame(&client_addr()) {
        Some(Event::Arrived(frame)) => assert!(frame.is_reset()),
        other => panic!("unexpected {:?}", other),
    }
    assert!(server.next_frame(&client_addr()).is_none());
    assert!(server.is_routed(&client_addr()));
}

#[test]
fn peers_have_separate_queues() {
    let mut server = Protocol::new();
    accepted_server(&mut server, "10.0.0.1:1", 5);
    accepted_server(&mut server, "10.0.0.2:1", 5);
    server.dispatch(String::from("10.0.0.2:1"), Packet::new_data(vec![2], 5).to_bytes());
    server.dispatch(String::from("10.0.0.1:1"), Packet::new_data(vec![1], 5).to_bytes());
    match server.next_frame(&String::from("10.0.0.1:1")) {
        Some(Event::Arrived(frame)) => assert_eq!(frame.get_content(), vec![1]),
        other => panic!("unexpected {:?}", other),
    }
    assert!(server.next_frame(&String::from("10.0.0.1:1")).is_none());
    match server.next_frame(&String::from("10.0.0.2:1")) {
        Some(Event::Arrived(frame)) => assert_eq!(frame.get_content(), vec![2]),
        other => panic!("unexpected {:?}", other),
    }
    let first = server.listen().done.unwrap().unwrap();
    let second = server.listen().done.unwrap().unwrap();
    assert_eq!(first.get_peer_addr(), "10.0.0.1:1");
    assert_eq!(second.get_peer_addr(), "10.0.0.2:1");
}

#[test]
fn peer_without_entry_hears_silence() {
    let mut server = Protocol::new();
    assert!(matches!(
        server.next_frame(&client_addr()),
        Some(Event::Silence)
    ));
}

#[test]
fn second_completion_is_a_frame_of_the_connection() {
    let mut server = Protocol::new();
    accepted_server(&mut server, "127.0.0.1:8081", 5);
    accepted_server(&mut server, "127.0.0.1:8081", 5);
    assert!(server.listen().done.unwrap().is_ok());
    assert!(server.listen().done.is_none());
    assert!(matches!(
        server.next_frame(&client_addr()),
        Some(Event::Arrived(_))
    ));
}

#[test]
fn loop_is_started_once() {
    let mut endpoint = Protocol::new();
    assert!(endpoint.receive_loop(None));
    assert!(!endpoint.receive_loop(None));
    assert!(!endpoint.listen().start);
    let mut other = Protocol::new();
    assert!(other.listen().start);
    assert!(!other.listen().start);
    assert!(!other.receive_loop(Some(client_addr())));
    assert!(other.is_routed(&client_addr()));
}

#[test]
fn stopped_endpoint_drops_and_fails() {
    let mut server = Protocol::new();
    accepted_server(&mut server, "127.0.0.1:8081", 5);
    assert!(!server.is_stopped());
    assert!(!server.stop());
    assert!(server.is_stopped());
    assert!(server
        .dispatch(server_addr(), Packet::new_syn(1).to_bytes())
        .is_none());
    server.dispatch(client_addr(), Packet::new_data(vec![1], 5).to_bytes());
    assert!(server.next_frame(&client_addr()).is_none());
    assert!(server.listen().done.unwrap().is_ok());
    assert_eq!(
        server.listen().done.map(|r| r.map(|_| ())),
        Some(Err(Error::NotConnected))
    );
}

#[test]
fn stop_tells_a_running_loop() {
    let mut endpoint = Protocol::new();
    endpoint.receive_loop(None);
    assert!(endpoint.stop());
    assert!(!endpoint.stop());
}

#[test]
fn handshake_starts_empty() {
    let handshake = Handshake::new();
    assert_eq!(handshake.get_attempts(), 0);
    assert_eq!(handshake.get_rto(), 100);
    assert_eq!(handshake.get_sequence(), 0);
}

#[test]
fn connect_backs_off_and_gives_up_after_five_requests() {
    let mut client = Protocol::new();
    let mut handshake = Handshake::new();
    let mut event = Event::Begin;
    for (attempt, wait) in [100u64, 200, 400, 800, 1600].into_iter().enumerate() {
        let fresh = 1000 + attempt as u16;
        let step = client.connect_with(server_addr(), &mut handshake, event, fresh);
        let syn = step.transmit.unwrap();
        assert!(syn.is_syn() && !syn.is_ack() && !syn.is_reset() && !syn.is_fin());
        assert_eq!(syn.get_sequence(), fresh as u64);
        assert_eq!(step.wait, wait);
        assert!(!step.start);
        assert!(step.done.is_none());
        assert_eq!(handshake.get_attempts(), attempt as u64 + 1);
        assert_eq!(handshake.get_rto(), wait);
        assert_eq!(handshake.get_sequence(), fresh as u64);
        event = Event::Silence;
    }
    let step = client.connect_with(server_addr(), &mut handshake, Event::Silence, 7);
    assert!(step.transmit.is_none());
    assert!(matches!(step.done, Some(Err(Error::ConnectionAborted))));
    assert!(!client.is_routed(&server_addr()));
}

#[test]
fn connect_completes_on_a_valid_answer() {
    let mut client = Protocol::new();
    let mut handshake = Handshake::new();
    client.connect_with(server_addr(), &mut handshake, Event::Begin, 500);
    let answer = Packet::new_synack(9000, 501).to_bytes();
    let step = client.connect_with(server_addr(), &mut handshake, Event::Arrived(answer), 1);
    let ack = step.transmit.unwrap();
    assert!(ack.is_ack() && !ack.is_syn() && !ack.is_reset() && !ack.is_fin());
    assert_eq!(ack.get_sequence(), 501);
    assert_eq!(ack.get_acked(), 9001);
    assert!(step.start);
    let connection = step.done.unwrap().unwrap();
    assert_eq!(connection.get_peer_addr(), server_addr());
    assert_eq!(connection.get_sequence(), 501);
    assert_eq!(connection.get_ack(), 9001);
    assert!(client.is_routed(&server_addr()));
    assert!(!client.listen().start);
}

#[test]
fn connect_asks_for_the_loop_only_once() {
    let mut client = Protocol::new();
    client.receive_loop(None);
    let mut handshake = Handshake::new();
    client.connect_with(server_addr(), &mut handshake, Event::Begin, 500);
    let answer = Packet::new_synack(9000, 501).to_bytes();
    let step = client.connect_with(server_addr(), &mut handshake, Event::Arrived(answer), 1);
    assert!(!step.start);
    assert!(step.done.unwrap().is_ok());
    assert!(client.is_routed(&server_addr()));
}

#[test]
fn connect_asks_again_after_an_invalid_answer() {
    let wrong: Vec<Vec<u8>> = vec![
        Packet::new_synack(9000, 500).to_bytes(),
        Packet::new_synack(9000, 502).to_bytes(),
        Packet::new_ack(9000, 501).to_bytes(),
        Packet::new_syn(9000).to_bytes(),
        Packet::new_synack(u64::MAX, 501).to_bytes(),
        vec![3u8; 10],
    ];
    for datagram in wrong {
        let mut client = Protocol::new();
        let mut handshake = Handshake::new();
        client.connect_with(server_addr(), &mut handshake, Event::Begin, 500);
        let step = client.connect_with(server_addr(), &mut handshake, Event::Arrived(datagram), 77);
        assert!(step.done.is_none());
        assert!(!step.start);
        let syn = step.transmit.unwrap();
        assert!(syn.is_syn() && !syn.is_ack());
        assert_eq!(syn.get_sequence(), 77);
        assert_eq!(step.wait, 100);
        assert_eq!(handshake.get_attempts(), 2);
        assert!(!client.is_routed(&server_addr()));
    }
}

#[test]
fn connect_gives_up_after_five_invalid_answers() {
    let mut client = Protocol::new();
    let mut handshake = Handshake::new();
    client.connect_with(server_addr(), &mut handshake, Event::Begin, 500);
    for _ in 0..4 {
        let datagram = Packet::new_ack(1, 1).to_bytes();
        let step = client.connect_with(server_addr(), &mut handshake, Event::Arrived(datagram), 9);
        assert!(step.done.is_none());
    }
    assert_eq!(handshake.get_attempts(), 5);
    let datagram = Packet::new_ack(1, 1).to_bytes();
    let step = client.connect_with(server_addr(), &mut handshake, Event::Arrived(datagram), 9);
    assert!(matches!(step.done, Some(Err(Error::ConnectionAborted))));
    assert!(step.transmit.is_none());
}

#[test]
fn connect_draws_a_sixteen_bit_sequence() {
    let mut seen = std::collections::HashSet::new();
    for _ in 0..64 {
        let mut client = Protocol::new();
        let mut handshake = Handshake::new();
        let step = client.connect(server_addr(), &mut handshake, Event::Begin);
        let syn = step.transmit.unwrap();
        assert!(syn.is_syn() && !syn.is_ack());
        assert!(syn.get_sequence() <= 65535);
        assert_eq!(syn.get_sequence(), handshake.get_sequence());
        assert_eq!(step.wait, 100);
        assert!(step.done.is_none());
        seen.insert(syn.get_sequence());
    }
    assert!(seen.len() > 1);
}

#[test]
fn handshake_over_both_endpoints() {
    let mut client = Protocol::new();
    let mut server = Protocol::new();
    let mut handshake = Handshake::new();
    let first = client.connect(server_addr(), &mut handshake, Event::Begin);
    let syn = first.transmit.unwrap();
    let sequence = syn.get_sequence();
    let synack = server.dispatch(client_addr(), syn.to_bytes()).unwrap();
    let second = client.connect(
        server_addr(),
        &mut handshake,
        Event::Arrived(synack.to_bytes()),
    );
    let ack = second.transmit.unwrap();
    let mut local = second.done.unwrap().unwrap();
    assert!(server.dispatch(client_addr(), ack.to_bytes()).is_none());
    let mut remote = server.listen().done.unwrap().unwrap();
    assert_eq!(local.get_sequence(), sequence + 1);
    assert_eq!(local.get_ack(), hash(&client_addr()) + 1);
    assert_eq!(remote.get_sequence(), local.get_ack());
    assert_eq!(remote.get_ack(), local.get_sequence());
    assert_eq!(remote.get_peer_addr(), client_addr());

    let content = b"Hey".to_vec();
    let init = local.get_sequence();
    let step = local.send(&content, init, Event::Begin);
    for frame in step.transmit {
        assert!(server.dispatch(client_addr(), frame.to_bytes()).is_none());
    }
    let mut heard = remote.recv(Event::Begin);
    assert!(heard.done.is_none());
    while heard.done.is_none() {
        let event = server.next_frame(&client_addr()).unwrap();
        heard = remote.recv(event);
    }
    assert_eq!(heard.done, Some(Ok(b"Hey".to_vec())));
    for frame in heard.transmit {
        assert!(client.dispatch(server_addr(), frame.to_bytes()).is_none());
    }
    let event = client.next_frame(&server_addr()).unwrap();
    let done = local.send(&content, init, event);
    assert_eq!(done.done, Some(Ok(())));
    assert_eq!(local.get_sequence(), init + 3);
}

#[test]
fn valid_reset_removes_the_route_and_a_stale_one_does_not() {
    let mut server = Protocol::new();
    accepted_server(&mut server, "127.0.0.1:8081", 5);
    let mut connection = server.listen().done.unwrap().unwrap();
    connection.receive(Some(Packet::new_data(vec![1, 2, 3], 5)));
    server.dispatch(client_addr(), Packet::new_reset(7).to_bytes());
    server.dispatch(client_addr(), Packet::new_reset(8).to_bytes());
    let stale = connection.receive(match server.next_frame(&client_addr()) {
        Some(Event::Arrived(frame)) => Some(frame),
        _ => None,
    });
    assert_eq!(stale.verdict, Verdict::Discarded);
    server.update_route(&client_addr(), stale.route, 0);
    assert!(server.is_routed(&client_addr()));
    let valid = connection.receive(match server.next_frame(&client_addr()) {
        Some(Event::Arrived(frame)) => Some(frame),
        _ => None,
    });
    assert_eq!(valid.verdict, Verdict::Reset);
    server.update_route(&client_addr(), valid.route, 0);
    assert!(!server.is_routed(&client_addr()));
    assert!(matches!(
        server.next_frame(&client_addr()),
        Some(Event::Silence)
    ));
}

#[test]
fn lingering_route_is_removed_only_after_the_linger() {
    let mut server = Protocol::new();
    accepted_server(&mut server, "127.0.0.1:8081", 5);
    accepted_server(&mut server, "127.0.0.1:9000", 5);
    server.update_route(&client_addr(), RouteUpdate::Linger, 1_000);
    assert!(server.is_routed(&client_addr()));
    for now in [0u64, 1_000, 1_001, 240_999] {
        assert_eq!(server.expire(now), 0);
        assert!(server.is_routed(&client_addr()));
    }
    server.dispatch(client_addr(), Packet::new_fin(5).to_bytes());
    assert!(matches!(
        server.next_frame(&client_addr()),
        Some(Event::Arrived(_))
    ));
    assert_eq!(server.expire(1_000 + LINGER), 1);
    assert!(!server.is_routed(&client_addr()));
    assert!(server.is_routed(&String::from("127.0.0.1:9000")));
    assert_eq!(server.expire(u64::MAX), 0);
}

#[test]
fn linger_of_a_stranger_does_nothing() {
    let mut server = Protocol::new();
    server.update_route(&client_addr(), RouteUpdate::Linger, 5);
    server.update_route(&client_addr(), RouteUpdate::Remove, 5);
    server.update_route(&client_addr(), RouteUpdate::Keep, 5);
    assert!(!server.is_routed(&client_addr()));
    assert_eq!(server.expire(1_000_000), 0);
}

#[test]
fn new_linger_starts_anew() {
    let mut server = Protocol::new();
    accepted_server(&mut server, "127.0.0.1:8081", 5);
    server.update_route(&client_addr(), RouteUpdate::Linger, 0);
    server.update_route(&client_addr(), RouteUpdate::Linger, 100_000);
    assert_eq!(server.expire(LINGER), 0);
    assert_eq!(server.expire(100_000 + LINGER - 1), 0);
    assert_eq!(server.expire(100_000 + LINGER), 1);
}

#[test]
fn routing_table_holds_one_entry_per_peer() {
    let mut routes = Routes::new();
    assert_eq!(routes.len(), 0);
    assert!(!routes.contains(&client_addr()));
    routes.insert(client_addr());
    routes.insert(server_addr());
    routes.push(&client_addr(), Packet::new_fin(1));
    routes.insert(client_addr());
    assert_eq!(routes.len(), 2);
    assert!(routes.pop(&client_addr()).is_none());
    routes.push(&String::from("nobody"), Packet::new_fin(1));
    assert_eq!(routes.len(), 2);
    routes.remove(&client_addr());
    routes.remove(&client_addr());
    assert_eq!(routes.len(), 1);
    assert!(routes.contains(&server_addr()));
    assert!(matches!(routes.pop(&client_addr()), Some(Event::Silence)));
    routes.linger(&server_addr(), 10);
    assert_eq!(routes.expire(10 + LINGER - 1), 0);
    assert_eq!(routes.expire(10 + LINGER), 1);
    assert_eq!(routes.len(), 0);
}
