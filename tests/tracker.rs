use bootstore::messages::{Msg, PeerId, RequestType, SharePkg};
use bootstore::request_manager::{Config, RequestManager, ShareAcks, TrackableRequest};
use bootstore::secret::Share;

fn config() -> Config {
    Config { learn_timeout: 3, rack_init_timeout: 5, rack_secret_request_timeout: 4 }
}

#[test]
fn expired_requests_come_out_earliest_first() {
    let mut rm = RequestManager::new(config());
    let init = rm.new_init_rack(0, 7, vec![(PeerId(2), SharePkg { rack_uuid: 7, threshold: 2, share: Share::new(vec![1]) })]);
    let load = rm.new_load_rack_secret(0, 7, 2);
    let learn = rm.new_learn(0, 7, 2, PeerId(9));
    assert!(init != load && load != learn && init != learn);
    assert_eq!(rm.len(), 3);
    assert!(rm.expired(2).is_empty());
    let out = rm.expired(4);
    assert_eq!(out.len(), 2);
    assert!(matches!(out[0], TrackableRequest::Learn { .. }));
    assert!(matches!(out[1], TrackableRequest::LoadRackSecret { .. }));
    assert_eq!(rm.len(), 1);
    let out = rm.expired(100);
    assert!(matches!(out[0], TrackableRequest::InitRack { .. }));
    assert_eq!(rm.len(), 0);
}

#[test]
fn equal_expiries_are_all_kept() {
    let mut rm = RequestManager::new(config());
    rm.new_load_rack_secret(1, 7, 2);
    rm.new_load_rack_secret(1, 7, 2);
    assert_eq!(rm.len(), 2);
    assert_eq!(rm.expired(5).len(), 2);
}

#[test]
fn init_ack_tracking() {
    let mut rm = RequestManager::new(config());
    let pkgs = vec![
        (PeerId(2), SharePkg { rack_uuid: 7, threshold: 2, share: Share::new(vec![2]) }),
        (PeerId(3), SharePkg { rack_uuid: 7, threshold: 2, share: Share::new(vec![3]) }),
    ];
    let id = rm.new_init_rack(0, 7, pkgs);
    assert!(!rm.on_init_ack(PeerId(2), id.wrapping_add(1)));
    assert!(!rm.on_init_ack(PeerId(8), id));
    assert!(!rm.on_init_ack(PeerId(2), id));
    assert!(!rm.on_init_ack(PeerId(2), id));
    assert!(rm.on_init_ack(PeerId(3), id));
    assert!(!rm.on_init_ack(PeerId(3), id));
    assert_eq!(rm.len(), 0);
}

#[test]
fn shares_count_once_per_peer_and_latest_share_wins() {
    let mut rm = RequestManager::new(config());
    let id = rm.new_load_rack_secret(0, 7, 2);
    assert!(rm.on_share(PeerId(2), id, Share::new(vec![2])).is_none());
    assert!(rm.on_share(PeerId(2), id, Share::new(vec![5])).is_none());
    assert!(rm.on_share(PeerId(3), id.wrapping_add(1), Share::new(vec![3])).is_none());
    match rm.on_share(PeerId(3), id, Share::new(vec![3])) {
        Some(TrackableRequest::LoadRackSecret { rack_uuid, acks }) => {
            assert_eq!(rack_uuid, 7);
            assert_eq!(acks.received.len(), 2);
            assert_eq!(acks.received[0].0, PeerId(2));
            assert_eq!(acks.received[0].1.as_bytes(), &[5u8][..]);
        }
        _ => panic!("expected a completed collection"),
    }
    assert_eq!(rm.len(), 0);
}

#[test]
fn share_for_init_request_is_ignored() {
    let mut rm = RequestManager::new(config());
    let pkgs = vec![(PeerId(2), SharePkg { rack_uuid: 7, threshold: 1, share: Share::new(vec![2]) })];
    let id = rm.new_init_rack(0, 7, pkgs);
    assert!(rm.on_share(PeerId(2), id, Share::new(vec![2])).is_none());
    assert_eq!(rm.len(), 1);
}

#[test]
fn connected_peer_gets_what_it_owes() {
    let mut rm = RequestManager::new(config());
    let pkgs = vec![(PeerId(2), SharePkg { rack_uuid: 7, threshold: 2, share: Share::new(vec![2]) })];
    let init = rm.new_init_rack(0, 7, pkgs);
    let load = rm.new_load_rack_secret(0, 7, 3);
    let learn = rm.new_learn(0, 7, 3, PeerId(2));
    let out = rm.on_connected(PeerId(2));
    assert_eq!(out.len(), 3);
    let mut ids = vec![];
    for e in &out {
        assert_eq!(e.to, PeerId(2));
        match &e.msg {
            Msg::Req(r) => {
                ids.push(r.id);
                match &r.type_ {
                    RequestType::Init(p) => assert_eq!(p.share.as_bytes(), &[2u8][..]),
                    RequestType::GetShare { rack_uuid } => assert_eq!(*rack_uuid, 7),
                    RequestType::Learn => panic!("unexpected Learn"),
                }
            }
            _ => panic!("expected requests"),
        }
    }
    assert!(ids.contains(&init) && ids.contains(&load) && ids.contains(&learn));
    rm.on_init_ack(PeerId(2), init);
    rm.on_share(PeerId(2), load, Share::new(vec![2]));
    assert_eq!(rm.on_connected(PeerId(2)).len(), 1);
    rm.on_share(PeerId(2), learn, Share::new(vec![2]));
    assert!(rm.on_connected(PeerId(2)).is_empty());
    assert_eq!(rm.on_connected(PeerId(4)).len(), 2);
}

#[test]
fn share_acks_start_empty() {
    let acks = ShareAcks::new(3);
    assert_eq!(acks.threshold, 3);
    assert!(acks.received.is_empty());
}
