use stegoshare::messages::{
    classify_client, classify_fetch, classify_peer, classify_server, format_access_control,
    format_ack_idx, format_control_update, format_dir_of_serv, format_dos, format_image_not_found,
    format_leader_ack, format_nack_idx, format_request_image, format_sample, format_sample_sync,
    format_sample_upload, format_status_ack, format_status_beacon, format_status_json,
    format_total_chunks, parse_status_json, ClientMsg, FetchMsg, PeerMsg, ServerMsg,
};

fn b(s: &str) -> Vec<u8> {
    s.as_bytes().to_vec()
}

#[test]
fn status_json_roundtrip() {
    let body = format_status_json(b"127.0.0.1:8079", true, b"5");
    assert_eq!(body, b(r#"{"ip":"127.0.0.1:8079","status":true,"client_id":"5"}"#));
    let (endpoint, online, owner) = parse_status_json(&body).expect("parse");
    assert_eq!(endpoint, b("127.0.0.1:8079"));
    assert!(online);
    assert_eq!(owner, b("5"));
    let off = format_status_json(b"127.0.0.1:8079", false, b"5");
    let (_, online, _) = parse_status_json(&off).expect("parse");
    assert!(!online);
}

#[test]
fn status_json_rejects_malformed_bodies() {
    assert!(parse_status_json(b"{}").is_none());
    assert!(parse_status_json(b"").is_none());
    assert!(parse_status_json(br#"{"ip":"x","status":maybe,"client_id":"5"}"#).is_none());
    assert!(parse_status_json(br#"{"ip":"x","status":true,"client_id":"5"} extra"#).is_none());
}

#[test]
fn server_classifier_dispatches_by_prefix() {
    assert!(matches!(classify_server(b"ELECT"), ServerMsg::Elect));
    assert!(matches!(classify_server(b"FAIL"), ServerMsg::Fail));
    assert!(matches!(classify_server(b"Request_DOS"), ServerMsg::RequestDos));
    assert!(matches!(classify_server(b"END_SAMPLES"), ServerMsg::EndSamples));
    assert!(matches!(classify_server(b"ELECTION"), ServerMsg::Unknown));
    assert!(matches!(classify_server(b"something else"), ServerMsg::Unknown));

    let beacon = format_status_beacon(b"127.0.0.1:8079", true, b"5");
    match classify_server(&beacon) {
        ServerMsg::Status { body } => {
            let (e, online, o) = parse_status_json(&body).expect("parse");
            assert_eq!((e, online, o), (b("127.0.0.1:8079"), true, b("5")));
        }
        _ => panic!("a STATUS beacon must classify as Status"),
    }

    let gossip = format_dir_of_serv(b"127.0.0.1:8079", false, b"5");
    assert!(matches!(classify_server(&gossip), ServerMsg::DirOfServ { .. }));

    match classify_server(&format_sample_upload(b"5", b"cat")) {
        ServerMsg::SampleUpload { owner, name } => {
            assert_eq!((owner, name), (b("5"), b("cat")));
        }
        _ => panic!("SAMPLE_UPLOAD must classify"),
    }
    match classify_server(&format_sample_sync(b"5", b"cat")) {
        ServerMsg::SampleSync { owner, name } => {
            assert_eq!((owner, name), (b("5"), b("cat")));
        }
        _ => panic!("SAMPLE_SYNC must classify"),
    }
}

#[test]
fn access_control_takes_the_fixed_five_part_split() {
    let msg = format_access_control(b"5", b"6", b"2", b"3", b"2");
    assert_eq!(msg, b("Access_Control:5_6_2_3_2"));
    match classify_server(&msg) {
        ServerMsg::AccessControl { client, peer, image_a, image_b, views } => {
            assert_eq!(
                (client, peer, image_a, image_b, views),
                (b("5"), b("6"), b("2"), b("3"), b("2"))
            );
        }
        _ => panic!("Access_Control must classify"),
    }
    assert!(matches!(
        classify_server(b"Access_Control:5_6_2"),
        ServerMsg::Unknown
    ));
}

#[test]
fn client_classifier_dispatches_by_prefix() {
    match classify_client(&format_leader_ack(b"127.0.0.1:8081")) {
        ClientMsg::LeaderAck { addr } => assert_eq!(addr, b("127.0.0.1:8081")),
        _ => panic!("LEADER_ACK must classify"),
    }
    match classify_client(&format_status_ack(b"127.0.0.1:8081")) {
        ClientMsg::StatusAck { addr } => assert_eq!(addr, b("127.0.0.1:8081")),
        _ => panic!("STATUS_ACK must classify"),
    }
    match classify_client(&format_dos(b"uid,client_id,status\n")) {
        ClientMsg::Dos { body } => assert_eq!(body, b("uid,client_id,status\n")),
        _ => panic!("DOS must classify"),
    }
    match classify_client(&format_sample(b"5", b"cat.jpg")) {
        ClientMsg::Sample { owner, name } => {
            assert_eq!((owner, name), (b("5"), b("cat.jpg")));
        }
        _ => panic!("SAMPLE must classify"),
    }
    assert!(matches!(classify_client(b"NO_SAMPLES"), ClientMsg::NoSamples));
    assert!(matches!(classify_client(b"SAMPLES_DONE"), ClientMsg::SamplesDone));
    assert!(matches!(classify_client(b"ACK"), ClientMsg::Unknown));
}

#[test]
fn peer_classifier_reads_requests_and_control_updates() {
    let req = format_request_image(b"6", b"5_0");
    assert_eq!(req, b("REQUEST_IMAGE_FROM6:5_0"));
    match classify_peer(&req) {
        PeerMsg::RequestImage { requester, image } => {
            assert_eq!((requester, image), (b("6"), b("5_0")));
        }
        _ => panic!("REQUEST_IMAGE_FROM must classify"),
    }
    let upd = format_control_update(b"6", b"5_0", b"2");
    assert_eq!(upd, b("CONTROL_UPDATE:6:5_0:2"));
    match classify_peer(&upd) {
        PeerMsg::ControlUpdate { client, image, views } => {
            assert_eq!((client, image, views), (b("6"), b("5_0"), b("2")));
        }
        _ => panic!("CONTROL_UPDATE must classify"),
    }
    assert!(matches!(classify_peer(b"CONTROL_UPDATE:6:5_0"), PeerMsg::Unknown));
    assert!(matches!(classify_peer(b"hello"), PeerMsg::Unknown));
}

#[test]
fn fetch_classifier_reads_announcements_and_acks() {
    assert_eq!(format_total_chunks(17), b("TOTAL_CHUNKS:17"));
    assert!(matches!(classify_fetch(b"TOTAL_CHUNKS:17"), FetchMsg::TotalChunks(17)));
    assert_eq!(format_ack_idx(3), b("ACK:3"));
    assert_eq!(format_nack_idx(0), b("NACK:0"));
    assert!(matches!(classify_fetch(b"ACK:3"), FetchMsg::Ack(3)));
    assert!(matches!(classify_fetch(b"NACK:0"), FetchMsg::Nack(0)));
    match classify_fetch(&format_image_not_found(b"5_0")) {
        FetchMsg::ImageNotFound { image } => assert_eq!(image, b("5_0")),
        _ => panic!("IMAGE_NOT_FOUND must classify"),
    }
    assert!(matches!(classify_fetch(b"TOTAL_CHUNKS:"), FetchMsg::Unknown));
    assert!(matches!(classify_fetch(b"ACK:abc"), FetchMsg::Unknown));
}
