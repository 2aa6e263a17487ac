use bootstore::fsm::{ApiError, ApiOutput, Fsm, Output, RackSecretState, State};
use bootstore::messages::{Envelope, LearnedSharePkg, Msg, PeerId, RequestType, ResponseType, SharePkg};
use bootstore::request_manager::Config;
use bootstore::secret::{RackSecret, Share};

const A: PeerId = PeerId(1);
const B: PeerId = PeerId(2);
const C: PeerId = PeerId(3);
const L: PeerId = PeerId(9);
const RACK: u128 = 0x1234;

fn config() -> Config {
    Config { learn_timeout: 3, rack_init_timeout: 5, rack_secret_request_timeout: 4 }
}

fn pkg(byte: u8, threshold: u8) -> SharePkg {
    SharePkg { rack_uuid: RACK, threshold, share: Share::new(vec![byte, byte]) }
}

fn pkgs(threshold: u8) -> Vec<SharePkg> {
    vec![pkg(1, threshold), pkg(2, threshold), pkg(3, threshold)]
}

fn peer(id: PeerId, others: &[PeerId]) -> Fsm {
    let mut fsm = Fsm::new(id, config(), State::Uninitialized);
    for p in others {
        fsm.insert_peer(*p);
    }
    fsm
}

fn is_quiet(out: &Output) -> bool {
    !out.persist && out.envelopes.is_empty() && out.api_output.is_none()
}

/// A initializes {A, B, C}; B and C store their packages and acknowledge.
fn initialized_rack(threshold: u8) -> (Fsm, Fsm, Fsm) {
    let mut a = peer(A, &[B, C]);
    let mut b = peer(B, &[A, C]);
    let mut c = peer(C, &[A, B]);
    let out = a.init_rack(RACK, vec![A, B, C], Ok(pkgs(threshold)));
    let mut acks = vec![];
    for env in out.envelopes {
        let Envelope { to, msg } = env;
        let reply = if to == B { b.handle(A, msg) } else { c.handle(A, msg) };
        for e in reply.envelopes {
            acks.push((to, e.msg));
        }
    }
    for (from, msg) in acks {
        a.handle(from, msg);
    }
    (a, b, c)
}

#[test]
fn three_peer_rack_init_scenario() {
    let mut a = peer(A, &[B, C]);
    let mut b = peer(B, &[A, C]);
    let mut c = peer(C, &[A, B]);

    let out = a.init_rack(RACK, vec![A, B, C], Ok(pkgs(2)));
    assert!(out.persist);
    assert!(out.api_output.is_none());
    assert_eq!(out.envelopes.len(), 2);
    assert_eq!(out.envelopes[0].to, B);
    assert_eq!(out.envelopes[1].to, C);
    match &out.envelopes[0].msg {
        Msg::Req(req) => match &req.type_ {
            RequestType::Init(p) => assert_eq!(p.share.as_bytes(), &[2u8, 2][..]),
            _ => panic!("expected Init"),
        },
        _ => panic!("expected a request"),
    }
    match &out.envelopes[1].msg {
        Msg::Req(req) => match &req.type_ {
            RequestType::Init(p) => assert_eq!(p.share.as_bytes(), &[3u8, 3][..]),
            _ => panic!("expected Init"),
        },
        _ => panic!("expected a request"),
    }
    assert!(matches!(a.state(), State::InitialMember { .. }));

    let mut envs = out.envelopes.into_iter();
    let to_b = envs.next().unwrap();
    let to_c = envs.next().unwrap();

    let out_b = b.handle(A, to_b.msg);
    assert!(out_b.persist);
    assert_eq!(out_b.envelopes.len(), 1);
    assert_eq!(out_b.envelopes[0].to, A);
    assert!(matches!(&out_b.envelopes[0].msg, Msg::Rsp(r) if matches!(r.type_, ResponseType::InitAck)));
    assert!(matches!(b.state(), State::InitialMember { .. }));

    let out_c = c.handle(A, to_c.msg);
    assert!(out_c.persist);
    assert_eq!(out_c.envelopes.len(), 1);
    assert_eq!(out_c.envelopes[0].to, A);

    let ack_b = out_b.envelopes.into_iter().next().unwrap();
    let out = a.handle(B, ack_b.msg);
    assert!(out.envelopes.is_empty());
    assert!(out.api_output.is_none());

    let ack_c = out_c.envelopes.into_iter().next().unwrap();
    let out = a.handle(C, ack_c.msg);
    assert!(out.envelopes.is_empty());
    assert!(matches!(out.api_output, Some(Ok(ApiOutput::RackInitComplete))));
    match a.state() {
        State::InitialMember { pkg, rack_init, .. } => {
            assert!(rack_init.is_none());
            assert_eq!(pkg.share.as_bytes(), &[1u8, 1][..]);
        }
        _ => panic!("expected InitialMember"),
    }
}

#[test]
fn init_rack_twice_is_refused() {
    let mut a = peer(A, &[B, C]);
    let first = a.init_rack(RACK, vec![A, B, C], Ok(pkgs(2)));
    assert!(first.persist);
    let in_flight = a.request_manager().len();
    let out = a.init_rack(RACK, vec![A, B, C], Ok(pkgs(2)));
    assert!(!out.persist);
    assert!(out.envelopes.is_empty());
    assert!(matches!(out.api_output, Some(Err(ApiError::RackAlreadyInitialized))));
    assert_eq!(a.request_manager().len(), in_flight);
}

#[test]
fn init_rack_split_failure() {
    let mut a = peer(A, &[B, C]);
    let out = a.init_rack(RACK, vec![A, B, C], Err("no entropy".to_string()));
    assert!(out.envelopes.is_empty());
    match out.api_output {
        Some(Err(ApiError::RackInitFailed(m))) => assert_eq!(m, "no entropy"),
        _ => panic!("expected RackInitFailed"),
    }
    assert!(matches!(a.state(), State::Uninitialized));
}

#[test]
fn single_member_rack_completes_at_once() {
    let mut a = peer(A, &[]);
    let out = a.init_rack(RACK, vec![A], Ok(vec![pkg(1, 1)]));
    assert!(out.persist);
    assert!(out.envelopes.is_empty());
    assert!(matches!(out.api_output, Some(Ok(ApiOutput::RackInitComplete))));
}

#[test]
fn duplicate_init_ack_completes_once() {
    let mut a = peer(A, &[B, C]);
    let mut b = peer(B, &[A]);
    let mut c = peer(C, &[A]);
    let out = a.init_rack(RACK, vec![A, B, C], Ok(pkgs(2)));
    let mut envs = out.envelopes.into_iter();
    let rb = b.handle(A, envs.next().unwrap().msg);
    let rc = c.handle(A, envs.next().unwrap().msg);
    let id_b = match &rb.envelopes[0].msg {
        Msg::Rsp(r) => r.request_id,
        _ => panic!("expected a response"),
    };
    let ack = |id: u128| Msg::Rsp(bootstore::messages::Response { request_id: id, type_: ResponseType::InitAck });

    assert!(is_quiet(&a.handle(B, ack(id_b))));
    assert!(is_quiet(&a.handle(B, ack(id_b))));
    let done = a.handle(C, rc.envelopes.into_iter().next().unwrap().msg);
    assert!(matches!(done.api_output, Some(Ok(ApiOutput::RackInitComplete))));
    // Once complete, the same acknowledgement again is a no-op.
    assert!(is_quiet(&a.handle(C, ack(id_b))));
    assert!(is_quiet(&a.handle(B, ack(id_b))));
    assert_eq!(a.request_manager().len(), 0);
}

#[test]
fn unknown_init_ack_is_dropped() {
    let mut a = peer(A, &[B, C]);
    a.init_rack(RACK, vec![A, B, C], Ok(pkgs(2)));
    let before = a.request_manager().len();
    let msg = Msg::Rsp(bootstore::messages::Response { request_id: 42, type_: ResponseType::InitAck });
    let out = a.handle(B, msg);
    assert!(is_quiet(&out));
    assert_eq!(a.request_manager().len(), before);
    match a.state() {
        State::InitialMember { rack_init, .. } => assert!(rack_init.is_some()),
        _ => panic!("expected InitialMember"),
    }
}

fn share_reply(from: &mut Fsm, requester: PeerId, msg: Msg) -> Msg {
    let out = from.handle(requester, msg);
    assert_eq!(out.envelopes.len(), 1);
    out.envelopes.into_iter().next().unwrap().msg
}

#[test]
fn duplicate_share_does_not_reach_threshold() {
    let (mut a, mut b, mut c) = initialized_rack(3);
    let out = a.load_rack_secret();
    assert!(out.api_output.is_none());
    assert_eq!(out.envelopes.len(), 2);
    let mut envs = out.envelopes.into_iter();
    let to_b = envs.next().unwrap();
    let to_c = envs.next().unwrap();
    assert_eq!(to_b.to, B);
    let get_b = match &to_b.msg {
        Msg::Req(r) => r.id,
        _ => panic!("expected a request"),
    };
    let share_b = share_reply(&mut b, A, to_b.msg);
    let again = Msg::Req(bootstore::messages::Request {
        id: get_b,
        type_: RequestType::GetShare { rack_uuid: RACK },
    });
    let share_b_again = share_reply(&mut b, A, again);

    assert!(is_quiet(&a.handle(B, share_b)));
    assert!(is_quiet(&a.handle(B, share_b_again)));
    assert!(matches!(a.state(), State::InitialMember { rack_secret: RackSecretState::Collecting { .. }, .. }));

    let share_c = share_reply(&mut c, A, to_c.msg);
    let out = a.handle(C, share_c);
    match out.api_output {
        Some(Ok(ApiOutput::CombineRackSecret { rack_uuid, threshold, shares })) => {
            assert_eq!(rack_uuid, RACK);
            assert_eq!(threshold, 3);
            let peers: Vec<PeerId> = shares.iter().map(|(p, _)| *p).collect();
            assert_eq!(peers, vec![A, B, C]);
            assert_eq!(shares[1].1.as_bytes(), &[2u8, 2][..]);
        }
        _ => panic!("expected shares to combine"),
    }
    assert!(matches!(a.state(), State::InitialMember { rack_secret: RackSecretState::Combining, .. }));
}

#[test]
fn rack_secret_is_cached_once_combined() {
    let (mut a, mut b, _c) = initialized_rack(2);
    let out = a.load_rack_secret();
    let to_b = out.envelopes.into_iter().next().unwrap();
    let share_b = share_reply(&mut b, A, to_b.msg);
    let out = a.handle(B, share_b);
    assert!(matches!(out.api_output, Some(Ok(ApiOutput::CombineRackSecret { .. }))));

    let out = a.rack_secret_combined(Ok(RackSecret::new(vec![7, 7, 7])));
    match out.api_output {
        Some(Ok(ApiOutput::RackSecret(s))) => assert_eq!(s.as_bytes(), &[7u8, 7, 7][..]),
        _ => panic!("expected the secret"),
    }
    let out = a.load_rack_secret();
    assert!(out.envelopes.is_empty());
    assert!(!out.persist);
    match out.api_output {
        Some(Ok(ApiOutput::RackSecret(s))) => assert_eq!(s.as_bytes(), &[7u8, 7, 7][..]),
        _ => panic!("expected the cached secret"),
    }
}

#[test]
fn failed_combination_is_reported() {
    let mut a = peer(A, &[]);
    a.init_rack(RACK, vec![A], Ok(vec![pkg(1, 1)]));
    let out = a.load_rack_secret();
    assert!(matches!(out.api_output, Some(Ok(ApiOutput::CombineRackSecret { .. }))));
    let out = a.rack_secret_combined(Err("bad shares".to_string()));
    assert!(matches!(out.api_output, Some(Err(ApiError::RackSecretCombineFailed(_)))));
    assert!(matches!(a.state(), State::InitialMember { rack_secret: RackSecretState::NotRequested, .. }));
}

#[test]
fn load_rack_secret_errors() {
    let mut u = peer(A, &[B]);
    assert!(matches!(u.load_rack_secret().api_output, Some(Err(ApiError::RackNotInitialized))));
    u.init_learner();
    assert!(matches!(u.load_rack_secret().api_output, Some(Err(ApiError::StillLearning))));
    assert!(matches!(u.init_learner().api_output, Some(Err(ApiError::PeerAlreadyInitialized))));
}

#[test]
fn rack_secret_load_times_out() {
    let (mut a, _b, _c) = initialized_rack(3);
    a.load_rack_secret();
    for _ in 0..3 {
        assert!(a.tick().api_output.is_none());
    }
    let out = a.tick();
    assert!(matches!(out.api_output, Some(Err(ApiError::RackSecretLoadTimeout))));
    assert!(matches!(a.state(), State::InitialMember { rack_secret: RackSecretState::NotRequested, .. }));
}

#[test]
fn refreshing_load_extends_timeout() {
    let (mut a, _b, _c) = initialized_rack(3);
    a.load_rack_secret();
    a.tick();
    a.tick();
    assert!(is_quiet(&a.load_rack_secret()));
    for _ in 0..3 {
        assert!(a.tick().api_output.is_none());
    }
    assert!(matches!(a.tick().api_output, Some(Err(ApiError::RackSecretLoadTimeout))));
}

#[test]
fn rack_init_times_out() {
    let mut a = peer(A, &[B, C]);
    a.init_rack(RACK, vec![A, B, C], Ok(pkgs(2)));
    for _ in 0..4 {
        assert!(a.tick().api_output.is_none());
    }
    assert!(matches!(a.tick().api_output, Some(Err(ApiError::RackInitTimeout))));
    assert_eq!(a.request_manager().len(), 0);
}

#[test]
fn learner_retries_another_peer_at_timeout() {
    let mut l = peer(L, &[A, B]);
    let out = l.init_learner();
    assert_eq!(out.envelopes.len(), 1);
    assert_eq!(out.envelopes[0].to, A);
    assert!(matches!(&out.envelopes[0].msg, Msg::Req(r) if matches!(r.type_, RequestType::Learn)));
    assert!(is_quiet(&l.tick()));
    assert!(is_quiet(&l.tick()));
    let out = l.tick();
    assert_eq!(out.envelopes.len(), 1);
    assert_eq!(out.envelopes[0].to, B);
    match l.state() {
        State::Learning { attempt: Some(a) } => {
            assert_eq!(a.peer, B);
            assert_eq!(a.expiry, 6);
        }
        _ => panic!("expected a learn attempt"),
    }
    assert!(is_quiet(&l.tick()));
    assert!(is_quiet(&l.tick()));
    let out = l.tick();
    assert_eq!(out.envelopes[0].to, A);
}

#[test]
fn learner_without_peers_asks_once_one_connects() {
    let mut l = peer(L, &[]);
    let out = l.init_learner();
    assert!(out.envelopes.is_empty());
    assert!(matches!(l.state(), State::Learning { attempt: None }));
    l.insert_peer(B);
    let out = l.tick();
    assert_eq!(out.envelopes.len(), 1);
    assert_eq!(out.envelopes[0].to, B);
}

#[test]
fn learn_exchange_completes() {
    let (mut a, mut b, _c) = initialized_rack(2);
    a.insert_peer(L);
    let mut l = peer(L, &[A]);
    let out = l.init_learner();
    let learn = out.envelopes.into_iter().next().unwrap();

    let out = a.handle(L, learn.msg);
    let targets: Vec<PeerId> = out.envelopes.iter().map(|e| e.to).collect();
    assert_eq!(targets, vec![B, C]);
    let to_b = out.envelopes.into_iter().next().unwrap();
    let share_b = share_reply(&mut b, A, to_b.msg);
    let out = a.handle(B, share_b);
    let (learner, request_id) = match out.api_output {
        Some(Ok(ApiOutput::CombineLearnedPkg { learner, request_id, threshold, shares, .. })) => {
            assert_eq!(threshold, 2);
            assert_eq!(shares.len(), 2);
            (learner, request_id)
        }
        _ => panic!("expected shares for the learner"),
    };
    assert_eq!(learner, L);
    let learned = LearnedSharePkg { rack_uuid: RACK, threshold: 2, share: Share::new(vec![9, 9]) };
    let out = a.learned_pkg_combined(learner, request_id, learned);
    assert_eq!(out.envelopes.len(), 1);
    assert_eq!(out.envelopes[0].to, L);

    let out = l.handle(A, out.envelopes.into_iter().next().unwrap().msg);
    assert!(out.persist);
    assert!(matches!(out.api_output, Some(Ok(ApiOutput::LearningCompleted))));
    match l.state() {
        State::Learned { pkg, .. } => assert_eq!(pkg.share.as_bytes(), &[9u8, 9][..]),
        _ => panic!("expected Learned"),
    }
}

#[test]
fn reconnecting_peer_gets_pending_init() {
    let mut a = peer(A, &[B]);
    a.init_rack(RACK, vec![A, B, C], Ok(pkgs(2)));
    a.remove_peer(B);
    assert!(a.peers().is_empty());
    let out = a.insert_peer(C);
    assert_eq!(out.envelopes.len(), 1);
    assert_eq!(out.envelopes[0].to, C);
    match &out.envelopes[0].msg {
        Msg::Req(r) => match &r.type_ {
            RequestType::Init(p) => assert_eq!(p.share.as_bytes(), &[3u8, 3][..]),
            _ => panic!("expected Init"),
        },
        _ => panic!("expected a request"),
    }
    assert!(is_quiet(&a.insert_peer(C)));
    assert!(is_quiet(&a.insert_peer(A)));
}

#[test]
fn get_share_for_another_rack_is_ignored() {
    let (_a, mut b, _c) = initialized_rack(2);
    let msg = Msg::Req(bootstore::messages::Request { id: 5, type_: RequestType::GetShare { rack_uuid: 99 } });
    assert!(is_quiet(&b.handle(A, msg)));
}

#[test]
fn restart_forgets_exchanges_in_flight() {
    let state = State::InitialMember {
        pkg: pkg(1, 2),
        rack_init: None,
        rack_secret: RackSecretState::Collecting { request_id: 3, started: 0 },
    };
    let a = Fsm::new(A, config(), state);
    assert!(matches!(a.state(), State::InitialMember { rack_secret: RackSecretState::NotRequested, .. }));
    assert_eq!(a.clock(), 0);
}

#[test]
fn learner_reports_failure_when_no_peer_is_reachable() {
    let mut l = peer(L, &[A]);
    let out = l.init_learner();
    assert_eq!(out.envelopes[0].to, A);
    l.remove_peer(A);
    assert!(l.peers().is_empty());
    assert!(is_quiet(&l.tick()));
    assert!(is_quiet(&l.tick()));
    let out = l.tick();
    assert!(out.envelopes.is_empty());
    assert!(matches!(out.api_output, Some(Err(ApiError::LearnTimeout))));
    assert!(matches!(l.state(), State::Learning { attempt: None }));
    // Nothing more is reported while no peer is reachable.
    assert!(is_quiet(&l.tick()));
    l.insert_peer(B);
    let out = l.tick();
    assert_eq!(out.envelopes.len(), 1);
    assert_eq!(out.envelopes[0].to, B);
    assert!(out.api_output.is_none());
    match l.state() {
        State::Learning { attempt: Some(a) } => {
            assert_eq!(a.peer, B);
            assert_eq!(a.expiry, 8);
        }
        _ => panic!("expected a new learn attempt"),
    }
}

#[test]
fn simultaneous_timeouts_are_both_reported() {
    let cfg = Config { learn_timeout: 3, rack_init_timeout: 4, rack_secret_request_timeout: 4 };
    let mut a = Fsm::new(A, cfg, State::Uninitialized);
    a.insert_peer(B);
    a.init_rack(RACK, vec![A, B, C], Ok(pkgs(2)));
    a.load_rack_secret();
    for _ in 0..3 {
        assert!(a.tick().api_output.is_none());
    }
    let out = a.tick();
    assert!(matches!(out.api_output, Some(Err(ApiError::RackInitAndSecretLoadTimeout))));
    match a.state() {
        State::InitialMember { rack_init, rack_secret, .. } => {
            assert!(rack_init.is_none());
            assert!(matches!(rack_secret, RackSecretState::NotRequested));
        }
        _ => panic!("expected InitialMember"),
    }
}

#[test]
fn initialized_peer_refuses_any_membership() {
    let (mut a, _b, _c) = initialized_rack(2);
    let out = a.init_rack(RACK, vec![], Err(String::new()));
    assert!(matches!(out.api_output, Some(Err(ApiError::RackAlreadyInitialized))));
    assert!(out.envelopes.is_empty());
    assert!(!out.persist);
}

#[test]
fn removed_peer_is_gone() {
    let mut a = peer(A, &[B, C]);
    a.remove_peer(B);
    assert_eq!(a.peers(), &vec![C]);
    a.remove_peer(B);
    assert_eq!(a.peers(), &vec![C]);
}
