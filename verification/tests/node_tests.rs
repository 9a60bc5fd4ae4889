use stegoshare::client::{
    apply_control_update, auth_decision, build_indexed_frames, elect_broadcast, is_image_file,
    menu_command, pick_assistant, AuthOutcome, ControlUpdateError, MenuCommand,
};
use stegoshare::codec::{image_to_png, stego_decode, ImageBuf};
use stegoshare::election::{decide_election, Ballot, FailWindow};
use stegoshare::fetch::Assembly;
use stegoshare::messages::{classify_fetch, FetchMsg};
use stegoshare::server::{encode_round, finish_election, Action, ServerNode, DEFAULT_VIEW_BUDGET};
use stegoshare::transport::{Receiver, RxStep};
use stegoshare::views::{format_image_id, parse_image_id, ImageId, ViewStore};

fn b(s: &str) -> Vec<u8> {
    s.as_bytes().to_vec()
}

#[test]
fn lowest_load_wins_smaller_id_breaks_ties() {
    let own = Ballot { load: 30_000, id: 2 };
    let responses = vec![Ballot { load: 10_000, id: 5 }, Ballot { load: 10_000, id: 3 }];
    let outcome = decide_election(own, &responses);
    assert_eq!(outcome.winner, Ballot { load: 10_000, id: 3 });
    assert!(!outcome.is_leader);
    let outcome = decide_election(Ballot { load: 5_000, id: 9 }, &responses);
    assert!(outcome.is_leader);
    assert_eq!(outcome.winner.id, 9);
}

#[test]
fn zero_reachable_peers_makes_the_initiator_leader() {
    let own = Ballot { load: 99_000, id: 7 };
    let outcome = decide_election(own, &Vec::new());
    assert!(outcome.is_leader);
    assert_eq!(outcome.winner, own);
}

#[test]
fn fail_window_lasts_thirty_seconds() {
    let mut w = FailWindow::new();
    assert!(!w.is_down(0));
    w.fail(100);
    assert!(w.is_down(100));
    assert!(w.is_down(129));
    assert!(!w.is_down(130));
}

#[test]
fn failed_replica_ignores_elect_until_the_window_ends() {
    let mut node = ServerNode::new();
    let me = b("127.0.0.1:8081");
    let peers = vec![b("127.0.0.1:8083"), b("127.0.0.1:2010")];
    node.handle_fail(b"FAIL", 100);
    let source = b("127.0.0.1:2005");
    assert!(node.handle_datagram(&me, &peers, b"ELECT", &source, 110).is_empty());
    let actions = node.handle_datagram(&me, &peers, b"ELECT", &source, 135);
    assert_eq!(actions.len(), 1);
    assert!(matches!(&actions[0], Action::StartElection { reply_to } if *reply_to == source));
}

#[test]
fn winner_announces_itself_to_the_requester() {
    let me = b("127.0.0.1:8081");
    let reply_to = b("127.0.0.1:9080");
    let own = Ballot { load: 1_000, id: 4 };
    let responses = vec![Ballot { load: 2_000, id: 1 }];
    match finish_election(&me, own, &responses, &reply_to) {
        Some(Action::Send { to, data }) => {
            assert_eq!(to, reply_to);
            assert_eq!(data, b("LEADER_ACK:127.0.0.1:8081"));
        }
        _ => panic!("the winner must announce itself"),
    }
    let responses = vec![Ballot { load: 500, id: 1 }];
    assert!(finish_election(&me, own, &responses, &reply_to).is_none());
}

#[test]
fn status_beacon_writes_acks_gossips_and_expects_samples() {
    let mut node = ServerNode::new();
    let me = b("127.0.0.1:8081");
    let peers = vec![b("127.0.0.1:8083"), b("127.0.0.1:2010")];
    let source = b("127.0.0.1:7000");
    let beacon = stegoshare::messages::format_status_beacon(b"127.0.0.1:8079", true, b"5");
    let actions = node.handle_datagram(&me, &peers, &beacon, &source, 0);
    assert_eq!(actions.len(), 5);
    assert!(matches!(&actions[0], Action::WriteDosFile { content }
        if *content == b("uid,client_id,status\n127.0.0.1:8079,5,true\n")));
    assert!(matches!(&actions[1], Action::Send { to, data }
        if *to == source && *data == b("STATUS_ACK:127.0.0.1:8081")));
    for (i, peer) in peers.iter().enumerate() {
        assert!(matches!(&actions[2 + i], Action::Send { to, data }
            if to == peer && data.starts_with(b"DIR_OF_SERV:")));
    }
    assert!(matches!(&actions[4], Action::ExpectSamples { owner, from }
        if *owner == b("5") && *from == source));
    // the identical beacon again: no write, no gossip, just the ack and
    // the sample session
    let actions = node.handle_datagram(&me, &peers, &beacon, &source, 0);
    assert_eq!(actions.len(), 2);
    assert!(matches!(&actions[0], Action::Send { .. }));
    assert!(matches!(&actions[1], Action::ExpectSamples { .. }));
}

#[test]
fn gossip_applies_without_ack_or_regossip_of_known_records() {
    let mut node = ServerNode::new();
    let me = b("127.0.0.1:8084");
    let peers = vec![b("127.0.0.1:8083")];
    let source = b("127.0.0.1:8083");
    let gossip = stegoshare::messages::format_dir_of_serv(b"127.0.0.1:8079", true, b"5");
    let actions = node.handle_datagram(&me, &peers, &gossip, &source, 0);
    // a new record: persisted and passed on, but no STATUS_ACK back
    assert_eq!(actions.len(), 2);
    assert!(matches!(&actions[0], Action::WriteDosFile { .. }));
    assert!(matches!(&actions[1], Action::Send { .. }));
    // the same record again is a no-op
    let actions = node.handle_datagram(&me, &peers, &gossip, &source, 0);
    assert!(actions.is_empty());
}

#[test]
fn sample_announcement_carries_its_sender() {
    let mut node = ServerNode::new();
    let me = b("127.0.0.1:8081");
    let peers = vec![b("127.0.0.1:8083")];
    let source = b("127.0.0.1:7000");
    let msg = stegoshare::messages::format_sample_upload(b"5", b"cat");
    let actions = node.handle_datagram(&me, &peers, &msg, &source, 0);
    assert_eq!(actions.len(), 1);
    assert!(matches!(&actions[0], Action::StoreSample { owner, name, from }
        if *owner == b("5") && *name == b("cat") && *from == source));
    let msg = stegoshare::messages::format_sample_sync(b"5", b"dog");
    let actions = node.handle_datagram(&me, &peers, &msg, &source, 0);
    assert!(matches!(&actions[0], Action::StoreSample { from, .. } if *from == source));
}

#[test]
fn unknown_datagrams_are_dropped_silently() {
    let mut node = ServerNode::new();
    let me = b("127.0.0.1:8081");
    let peers = vec![b("127.0.0.1:8083")];
    let source = b("127.0.0.1:7000");
    assert!(node.handle_datagram(&me, &peers, b"whatever this is", &source, 0).is_empty());
    // FAIL belongs to the failure endpoint; on the election endpoint it
    // does nothing
    assert!(node.handle_datagram(&me, &peers, b"FAIL", &source, 0).is_empty());
    // a STATUS frame whose body is not a status JSON is dropped
    assert!(node.handle_datagram(&me, &peers, b"STATUS:nonsense", &source, 0).is_empty());
}

#[test]
fn request_dos_returns_the_file_and_serves_samples() {
    let mut node = ServerNode::new();
    let me = b("127.0.0.1:8081");
    let peers = vec![];
    let source = b("127.0.0.1:7000");
    let beacon = stegoshare::messages::format_status_beacon(b"127.0.0.1:8079", true, b"5");
    node.handle_datagram(&me, &peers, &beacon, &source, 0);
    let actions = node.handle_datagram(&me, &peers, b"Request_DOS", &source, 0);
    assert_eq!(actions.len(), 2);
    assert!(matches!(&actions[0], Action::Send { to, data }
        if *to == source && *data == b("DOS:uid,client_id,status\n127.0.0.1:8079,5,true\n")));
    assert!(matches!(&actions[1], Action::ServeSamples { to } if *to == source));
}

#[test]
fn access_control_forwards_to_the_peer_on_record() {
    let mut node = ServerNode::new();
    let me = b("127.0.0.1:8081");
    let peers = vec![];
    let source = b("127.0.0.1:7000");
    let beacon = stegoshare::messages::format_status_beacon(b"127.0.0.1:6999", true, b"6");
    node.handle_datagram(&me, &peers, &beacon, &source, 0);
    let msg = stegoshare::messages::format_access_control(b"5", b"6", b"5", b"0", b"2");
    let actions = node.handle_datagram(&me, &peers, &msg, &source, 0);
    assert_eq!(actions.len(), 1);
    assert!(matches!(&actions[0], Action::Send { to, data }
        if *to == b("127.0.0.1:6999") && *data == b("CONTROL_UPDATE:6:5_0:2")));
    // an unknown peer: nothing to forward to
    let msg = stegoshare::messages::format_access_control(b"5", b"9", b"5", b"0", b"2");
    assert!(node.handle_datagram(&me, &peers, &msg, &source, 0).is_empty());
}

#[test]
fn encode_round_streams_back_a_decodable_stego_artifact() {
    // the leader's pipeline, end to end: upload, encode, stream, reassemble
    let payload = ImageBuf {
        width: 32,
        height: 8,
        data: (0..32 * 8 * 4).map(|i| (i % 256) as u8).collect(),
    };
    let upload = image_to_png(&payload).expect("payload png");
    let cover = ImageBuf {
        width: 40,
        height: 10,
        data: (0..40 * 10 * 4).map(|i| (i % 253) as u8).collect(),
    };
    let frames = encode_round(&upload, &cover, DEFAULT_VIEW_BUDGET, 6).expect("encode");
    let mut rx = Receiver::new();
    let mut delivered = None;
    for f in &frames {
        if let RxStep::Completed { payload, .. } = rx.on_frame(f) {
            delivered = Some(payload);
        }
    }
    let stego_png = delivered.expect("the transfer must complete");
    let (hidden, views, owner) = stego_decode(&stego_png).expect("decode");
    assert_eq!((views, owner), (DEFAULT_VIEW_BUDGET, 6));
    for i in 0..payload.data.len() {
        assert_eq!(hidden.data[i], payload.data[i] & 0xF0);
    }
}

#[test]
fn indexed_fetch_reassembles_out_of_order() {
    let data: Vec<u8> = (0..2600).map(|i| (i % 241) as u8).collect();
    let frames = build_indexed_frames(&data);
    assert_eq!(frames.len(), 3);
    let mut pieces = Assembly::new(frames.len());
    // deliver 2, 0, 2 (duplicate), 1
    for &i in &[2usize, 0, 2, 1] {
        let f = &frames[i];
        let idx = u32::from_be_bytes([f[0], f[1], f[2], f[3]]) as usize;
        let accepted = pieces.on_chunk(idx, &f[4..]);
        let reply = if accepted {
            stegoshare::messages::format_ack_idx(idx as u32)
        } else {
            stegoshare::messages::format_nack_idx(idx as u32)
        };
        match classify_fetch(&reply) {
            FetchMsg::Ack(n) => assert_eq!(n as usize, idx),
            FetchMsg::Nack(n) => {
                assert_eq!(n as usize, idx);
                assert_eq!(idx, 2, "only the duplicate is refused");
            }
            _ => panic!("feedback must classify"),
        }
    }
    assert!(pieces.is_complete());
    assert_eq!(pieces.assemble(), data);
}

#[test]
fn stray_chunk_indices_are_refused() {
    let mut pieces = Assembly::new(2);
    assert!(!pieces.on_chunk(2, b"xyz"));
    assert!(pieces.on_chunk(0, b"ab"));
    assert!(!pieces.on_chunk(0, b"ab"));
    assert!(!pieces.is_complete());
}

#[test]
fn image_file_names() {
    assert!(is_image_file("cat.png"));
    assert!(is_image_file("cat.JPG"));
    assert!(is_image_file("cat.Jpeg"));
    assert!(is_image_file("cat.gif"));
    assert!(!is_image_file("cat.txt"));
    assert!(!is_image_file("cat"));
    assert!(!is_image_file(".png"));
    assert!(!is_image_file("cat.png.bak"));
}

#[test]
fn auth_gate_decisions() {
    let expected = b("127.0.0.1_1");
    assert_eq!(
        auth_decision(Some(&b("127.0.0.1_1")), &expected, b""),
        AuthOutcome::AlreadyRegistered
    );
    assert_eq!(auth_decision(None, &expected, b"r"), AuthOutcome::Register);
    assert_eq!(auth_decision(None, &expected, b"R"), AuthOutcome::Register);
    assert_eq!(auth_decision(Some(&b("other")), &expected, b"l"), AuthOutcome::Login);
    assert_eq!(auth_decision(None, &expected, b"x"), AuthOutcome::Refused);
    assert_eq!(auth_decision(None, &expected, b"rl"), AuthOutcome::Refused);
}

#[test]
fn menu_letters_are_case_insensitive() {
    assert_eq!(menu_command(b"r"), MenuCommand::RequestImage);
    assert_eq!(menu_command(b"D"), MenuCommand::FetchDirectory);
    assert_eq!(menu_command(b"v"), MenuCommand::ViewImage);
    assert_eq!(menu_command(b"C"), MenuCommand::ChangeAccess);
    assert_eq!(menu_command(b"e"), MenuCommand::Exit);
    assert_eq!(menu_command(b"q"), MenuCommand::Invalid);
    assert_eq!(menu_command(b"rr"), MenuCommand::Invalid);
}

#[test]
fn elect_broadcast_reaches_every_replica() {
    let servers = vec![b("127.0.0.1:8083"), b("127.0.0.1:8084"), b("127.0.0.1:2010")];
    let frames = elect_broadcast(&servers);
    assert_eq!(frames.len(), 3);
    for (i, (to, data)) in frames.iter().enumerate() {
        assert_eq!(*to, servers[i]);
        assert_eq!(*data, b("ELECT"));
    }
}

#[test]
fn assistant_is_one_of_the_replicas() {
    let servers = vec![b("127.0.0.1:8083"), b("127.0.0.1:8084"), b("127.0.0.1:2010")];
    for _ in 0..20 {
        let pick = pick_assistant(&servers);
        assert!(servers.contains(&pick));
    }
}

#[test]
fn image_ids_roundtrip() {
    let id = ImageId { owner: 5, num: 0 };
    assert_eq!(format_image_id(&id), b("5_0"));
    assert_eq!(parse_image_id(b"5_0"), Some(id));
    assert_eq!(parse_image_id(b"50"), None);
    assert_eq!(parse_image_id(b"a_0"), None);
    assert_eq!(parse_image_id(b"5_"), None);
    assert_eq!(parse_image_id(b"_5"), None);
}

#[test]
fn control_update_rewrites_then_views_run_out() {
    let mut store = ViewStore::new();
    let id = ImageId { owner: 5, num: 0 };
    store.put(id, 5);
    assert_eq!(apply_control_update(&mut store, b"5_0", b"2"), Ok(()));
    assert_eq!(store.get(&id), Some(2));
    assert!(store.consume(id).is_ok());
    assert!(store.consume(id).is_ok());
    assert!(store.consume(id).is_err());
    assert_eq!(
        apply_control_update(&mut store, b"9_9", b"2"),
        Err(ControlUpdateError::MissingBudget)
    );
    assert_eq!(
        apply_control_update(&mut store, b"5_0", b"many"),
        Err(ControlUpdateError::BadMessage)
    );
    assert_eq!(
        apply_control_update(&mut store, b"nounderscore", b"2"),
        Err(ControlUpdateError::BadMessage)
    );
}
