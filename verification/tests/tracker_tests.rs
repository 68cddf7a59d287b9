use p2psync::tracker::{announce_url, AnnounceRequest, PeerInfo, TrackerState};

fn peer(addr: &str, last_seen: u64) -> PeerInfo {
    PeerInfo { addr: addr.to_string(), last_seen }
}

fn listed(state: &TrackerState) -> Vec<(String, u64)> {
    state.get_peers().into_iter().map(|p| (p.addr, p.last_seen)).collect()
}

#[test]
fn new_tracker_knows_nobody() {
    assert!(TrackerState::new().get_peers().is_empty());
}

#[test]
fn announce_adds_a_peer() {
    let mut state = TrackerState::new();
    state.announce_peer(peer("http://a", 10));
    state.announce_peer(peer("http://b", 11));
    assert_eq!(
        listed(&state),
        vec![("http://a".to_string(), 10), ("http://b".to_string(), 11)]
    );
}

#[test]
fn announce_again_updates_the_peer_in_place() {
    let mut state = TrackerState::new();
    state.announce_peer(peer("http://a", 10));
    state.announce_peer(peer("http://b", 11));
    state.announce_peer(peer("http://a", 99));
    assert_eq!(
        listed(&state),
        vec![("http://a".to_string(), 99), ("http://b".to_string(), 11)]
    );
}

#[test]
fn cleanup_drops_peers_that_are_too_old() {
    let mut state = TrackerState::new();
    state.announce_peer(peer("older", 699));
    state.announce_peer(peer("old", 700));
    state.announce_peer(peer("edge", 701));
    state.announce_peer(peer("fresh", 702));
    state.announce_peer(peer("now", 1001));
    state.cleanup_peers(300, 1001);
    assert_eq!(
        listed(&state),
        vec![
            ("edge".to_string(), 701),
            ("fresh".to_string(), 702),
            ("now".to_string(), 1001)
        ]
    );
}

#[test]
fn cleanup_keeps_peers_seen_after_now() {
    let mut state = TrackerState::new();
    state.announce_peer(peer("ahead", 2000));
    state.announce_peer(peer("gone", 0));
    state.cleanup_peers(300, 1000);
    assert_eq!(listed(&state), vec![("ahead".to_string(), 2000)]);
}

#[test]
fn cleanup_with_zero_timeout_keeps_what_is_not_older_than_now() {
    let mut state = TrackerState::new();
    state.announce_peer(peer("before", 49));
    state.announce_peer(peer("now", 50));
    state.announce_peer(peer("ahead", 51));
    state.cleanup_peers(0, 50);
    assert_eq!(
        listed(&state),
        vec![("now".to_string(), 50), ("ahead".to_string(), 51)]
    );
}

#[test]
fn cleanup_of_an_empty_tracker() {
    let mut state = TrackerState::new();
    state.cleanup_peers(300, u64::MAX);
    assert!(state.get_peers().is_empty());
}

#[test]
fn announce_request_records_the_time() {
    let mut state = TrackerState::new();
    let reply = state.handle_announce(AnnounceRequest { addr: "http://p:1".to_string() }, 1234567890);
    assert_eq!(reply.status, "ok");
    let peers = state.handle_get_peers().peers;
    assert_eq!(peers.len(), 1);
    assert_eq!(peers[0].addr, "http://p:1");
    assert_eq!(peers[0].last_seen, 1234567890);
}

#[test]
fn peer_info_clone_copies_both_fields() {
    let first = peer("http://a", 5);
    let copy = first.clone();
    assert_eq!(copy.addr, "http://a");
    assert_eq!(copy.last_seen, 5);
}

#[test]
fn announce_url_is_below_the_tracker() {
    assert_eq!(announce_url("http://t:9090"), "http://t:9090/announce");
    assert_eq!(announce_url(""), "/announce");
}
