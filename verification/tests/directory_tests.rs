use stegoshare::directory::{lookup_peer, peer_map_from_dos, Directory};
use stegoshare::views::{ImageId, ViewError, ViewStore};
use stegoshare::bytes::u32_dec;

fn b(s: &str) -> Vec<u8> {
    s.as_bytes().to_vec()
}

#[test]
fn status_appends_then_flips_then_rests() {
    let mut d = Directory::new();
    assert!(d.apply_status(&b("127.0.0.1:8079"), &b("5"), true));
    // the same record again is a no-op
    assert!(!d.apply_status(&b("127.0.0.1:8079"), &b("5"), true));
    // a flipped online bit rewrites the record
    assert!(d.apply_status(&b("127.0.0.1:8079"), &b("5"), false));
    assert!(!d.apply_status(&b("127.0.0.1:8079"), &b("5"), false));
    assert_eq!(
        d.to_csv(),
        b("uid,client_id,status\n127.0.0.1:8079,5,false\n")
    );
}

#[test]
fn gossip_with_record_already_present_is_a_no_op() {
    let mut d = Directory::new();
    d.apply_status(&b("127.0.0.1:8079"), &b("5"), true);
    let before = d.to_csv();
    assert!(!d.apply_status(&b("127.0.0.1:8079"), &b("5"), true));
    assert_eq!(d.to_csv(), before);
}

#[test]
fn distinct_endpoints_commute() {
    let mut d1 = Directory::new();
    d1.apply_status(&b("127.0.0.1:8079"), &b("5"), true);
    d1.apply_status(&b("127.0.0.1:6999"), &b("6"), false);
    let mut d2 = Directory::new();
    d2.apply_status(&b("127.0.0.1:6999"), &b("6"), false);
    d2.apply_status(&b("127.0.0.1:8079"), &b("5"), true);
    // both replicas hold the same set of records
    let mut lines1: Vec<Vec<u8>> = d1.to_csv().split(|&c| c == b'\n').map(|l| l.to_vec()).collect();
    let mut lines2: Vec<Vec<u8>> = d2.to_csv().split(|&c| c == b'\n').map(|l| l.to_vec()).collect();
    lines1.sort();
    lines2.sort();
    assert_eq!(lines1, lines2);
}

#[test]
fn owner_keeps_first_registration() {
    let mut d = Directory::new();
    d.apply_status(&b("127.0.0.1:8079"), &b("5"), true);
    // a record for the same endpoint under another owner only flips the bit
    d.apply_status(&b("127.0.0.1:8079"), &b("9"), false);
    assert_eq!(
        d.to_csv(),
        b("uid,client_id,status\n127.0.0.1:8079,5,false\n")
    );
}

#[test]
fn directory_fetch_shows_offline_after_exit() {
    // two clients online; one exits; the next fetch shows it offline
    let mut d = Directory::new();
    d.apply_status(&b("127.0.0.1:8079"), &b("5"), true);
    d.apply_status(&b("127.0.0.1:6999"), &b("6"), true);
    let seen = peer_map_from_dos(&d.to_csv());
    assert!(lookup_peer(&seen, &b("5")).is_some());
    assert!(lookup_peer(&seen, &b("6")).is_some());
    d.apply_status(&b("127.0.0.1:8079"), &b("5"), false);
    let seen = peer_map_from_dos(&d.to_csv());
    assert_eq!(lookup_peer(&seen, &b("5")), None);
    assert_eq!(lookup_peer(&seen, &b("6")), Some(b("127.0.0.1:6999")));
}

#[test]
fn peer_map_skips_header_and_junk() {
    let body = b("uid,client_id,status\n1.2.3.4:1,7,true\nnot a line\n5.6.7.8:2,8,false\n");
    let seen = peer_map_from_dos(&body);
    assert_eq!(seen.len(), 1);
    assert_eq!(lookup_peer(&seen, &b("7")), Some(b("1.2.3.4:1")));
    assert_eq!(lookup_peer(&seen, &b("8")), None);
}

#[test]
fn endpoint_of_owner_finds_the_peer() {
    let mut d = Directory::new();
    d.apply_status(&b("127.0.0.1:8079"), &b("5"), true);
    d.apply_status(&b("127.0.0.1:6999"), &b("6"), true);
    assert_eq!(d.endpoint_of_owner(&b("6")), Some(b("127.0.0.1:6999")));
    assert_eq!(d.endpoint_of_owner(&b("9")), None);
}

#[test]
fn view_budget_counts_down_and_refuses_at_zero() {
    let mut store = ViewStore::new();
    let id = ImageId { owner: 5, num: 0 };
    store.put(id, 2);
    assert_eq!(store.consume(id), Ok(1));
    assert_eq!(store.consume(id), Ok(0));
    // the third view is refused; the counter never goes below zero
    assert_eq!(store.consume(id), Err(ViewError::Depleted));
    assert_eq!(store.get(&id), Some(0));
}

#[test]
fn view_on_missing_budget_is_refused_not_created() {
    let mut store = ViewStore::new();
    let id = ImageId { owner: 5, num: 3 };
    assert_eq!(store.consume(id), Err(ViewError::Missing));
    assert_eq!(store.get(&id), None);
}

#[test]
fn rewriting_the_same_budget_twice_changes_nothing() {
    let mut store = ViewStore::new();
    let id = ImageId { owner: 5, num: 0 };
    store.put(id, 5);
    assert_eq!(store.set_views(id, 2), Ok(()));
    let first = store.get(&id);
    let first_text = u32_dec(store.get(&id).unwrap());
    assert_eq!(store.set_views(id, 2), Ok(()));
    assert_eq!(store.get(&id), first);
    assert_eq!(u32_dec(store.get(&id).unwrap()), first_text);
    assert_eq!(first_text, b("2"));
}

#[test]
fn set_views_does_not_create_a_missing_budget() {
    let mut store = ViewStore::new();
    let id = ImageId { owner: 6, num: 1 };
    assert_eq!(store.set_views(id, 2), Err(ViewError::Missing));
    assert_eq!(store.get(&id), None);
}
