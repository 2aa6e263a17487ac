//! The per-peer state machine.
//!
//! Every operation takes the current state and one event, an API call, an
//! inbound message or a tick, and returns an `Output`: whether the new state
//! must be persisted, the messages to send, and any value for the API caller.
//! The driver persists before sending when asked to.
//!
//! Splitting and combining shares are left to the driver: `init_rack` takes
//! the packages the splitter made, and once a threshold of shares is in, the
//! output hands them over to be combined, the result coming back through
//! `rack_secret_combined` or `learned_pkg_combined`.

use vstd::prelude::*;
use crate::messages::{
    envelopes_view, Envelope, LearnedSharePkg, Msg, MsgView, PeerId, PkgView, Request, RequestType,
    Response, ResponseType, SharePkg,
};
use crate::request_manager::{
    random_request_id, requests_of, after_init_ack, init_ack_completes, is_share_request, with_share, threshold_met, index_of, set_expiry_result, lemma_sorted_pos_range,
    has_id, keys, lemma_package_for, lemma_push_new, package_for, packages_view, peers_contain,
    resends, shares_view, sorted_pos, Config, EntryView, RequestManager, RequestView, TrackableRequest,
};
use crate::secret::{RackSecret, Share};

verus! {

/// Bookkeeping of the initializing peer while rack initialization is out.
#[derive(Clone, Copy, Debug, PartialEq, Eq, Structural)]
pub struct RackInitState {
    /// The tracked request that collects the acknowledgements.
    pub request_id: u128,
    pub start: u64,
    pub total_members: usize,
}

/// An attempt by this peer to learn a package from `peer`.
#[derive(Clone, Copy, Debug, PartialEq, Eq, Structural)]
pub struct LearnAttempt {
    pub peer: PeerId,
    pub request_id: u128,
    pub expiry: u64,
}

/// Where loading the rack secret stands at a member.
pub enum RackSecretState {
    /// Not asked for.
    NotRequested,
    /// Shares are being collected by tracked request `request_id`; the API
    /// caller last asked at tick `started`.
    Collecting { request_id: u128, started: u64 },
    /// A threshold of shares was handed to the driver to combine.
    Combining,
    /// The reconstructed secret, kept for later calls.
    Resolved(RackSecret),
}

#[allow(inconsistent_fields)]
pub enum State {
    Uninitialized,
    InitialMember { pkg: SharePkg, rack_init: Option<RackInitState>, rack_secret: RackSecretState },
    Learning { attempt: Option<LearnAttempt> },
    Learned { pkg: LearnedSharePkg, rack_secret: RackSecretState },
}

/// An error for the API caller.
#[derive(Debug)]
pub enum ApiError {
    RackAlreadyInitialized,
    PeerAlreadyInitialized,
    RackNotInitialized,
    StillLearning,
    /// The splitter failed; its message.
    RackInitFailed(String),
    /// Some founding member did not acknowledge within the rack-init timeout.
    RackInitTimeout,
    /// No threshold of shares came in within the rack-secret timeout.
    RackSecretLoadTimeout,
    /// Both of the above, on the same tick.
    RackInitAndSecretLoadTimeout,
    /// A learn attempt expired and no peer is reachable to ask again.
    LearnTimeout,
    /// Combining the collected shares failed; the combiner's message.
    RackSecretCombineFailed(String),
}

/// A value for the API caller.
pub enum ApiOutput {
    RackInitComplete,
    RackSecret(RackSecret),
    LearningCompleted,
    /// Combine these shares into the rack secret and hand the result to
    /// `rack_secret_combined`.
    CombineRackSecret { rack_uuid: u128, threshold: u8, shares: Vec<(PeerId, Share)> },
    /// Derive a package for `learner` from these shares and hand it to
    /// `learned_pkg_combined` with `request_id`.
    CombineLearnedPkg {
        learner: PeerId,
        request_id: u128,
        rack_uuid: u128,
        threshold: u8,
        shares: Vec<(PeerId, Share)>,
    },
}

/// What every operation returns.
pub struct Output {
    /// The new state must be saved before any envelope is sent.
    pub persist: bool,
    pub envelopes: Vec<Envelope>,
    pub api_output: Option<Result<ApiOutput, ApiError>>,
}

pub ghost enum SecretView {
    NotRequested,
    Collecting { request_id: u128, started: u64 },
    Combining,
    Resolved(Seq<u8>),
}

#[allow(inconsistent_fields)]
pub ghost enum StateView {
    Uninitialized,
    InitialMember { pkg: PkgView, rack_init: Option<RackInitState>, secret: SecretView },
    Learning { attempt: Option<LearnAttempt> },
    Learned { pkg: PkgView, secret: SecretView },
}

pub ghost enum ApiOutputView {
    RackInitComplete,
    RackSecret(Seq<u8>),
    LearningCompleted,
    CombineRackSecret { rack_uuid: u128, threshold: u8, shares: Seq<(PeerId, Seq<u8>)> },
    CombineLearnedPkg {
        learner: PeerId,
        request_id: u128,
        rack_uuid: u128,
        threshold: u8,
        shares: Seq<(PeerId, Seq<u8>)>,
    },
}

pub ghost struct OutputView {
    pub persist: bool,
    pub envelopes: Seq<(PeerId, MsgView)>,
    pub api: Option<Result<ApiOutputView, ApiError>>,
}

impl View for RackSecretState {
    type V = SecretView;

    open spec fn view(&self) -> SecretView {
        match self {
            RackSecretState::NotRequested => SecretView::NotRequested,
            RackSecretState::Collecting { request_id, started } => SecretView::Collecting {
                request_id: *request_id,
                started: *started,
            },
            RackSecretState::Combining => SecretView::Combining,
            RackSecretState::Resolved(s) => SecretView::Resolved(s@),
        }
    }
}

impl View for State {
    type V = StateView;

    open spec fn view(&self) -> StateView {
        match self {
            State::Uninitialized => StateView::Uninitialized,
            State::InitialMember { pkg, rack_init, rack_secret } => StateView::InitialMember {
                pkg: pkg@,
                rack_init: *rack_init,
                secret: rack_secret@,
            },
            State::Learning { attempt } => StateView::Learning { attempt: *attempt },
            State::Learned { pkg, rack_secret } => StateView::Learned { pkg: pkg@, secret: rack_secret@ },
        }
    }
}

impl View for ApiOutput {
    type V = ApiOutputView;

    open spec fn view(&self) -> ApiOutputView {
        match self {
            ApiOutput::RackInitComplete => ApiOutputView::RackInitComplete,
            ApiOutput::RackSecret(s) => ApiOutputView::RackSecret(s@),
            ApiOutput::LearningCompleted => ApiOutputView::LearningCompleted,
            ApiOutput::CombineRackSecret { rack_uuid, threshold, shares } => ApiOutputView::CombineRackSecret {
                rack_uuid: *rack_uuid,
                threshold: *threshold,
                shares: shares_view(shares@),
            },
            ApiOutput::CombineLearnedPkg { learner, request_id, rack_uuid, threshold, shares } =>
                ApiOutputView::CombineLearnedPkg {
                learner: *learner,
                request_id: *request_id,
                rack_uuid: *rack_uuid,
                threshold: *threshold,
                shares: shares_view(shares@),
            },
        }
    }
}

impl View for Output {
    type V = OutputView;

    open spec fn view(&self) -> OutputView {
        OutputView {
            persist: self.persist,
            envelopes: envelopes_view(self.envelopes@),
            api: match &self.api_output {
                None => None,
                Some(Ok(v)) => Some(Ok(v@)),
                Some(Err(e)) => Some(Err(*e)),
            },
        }
    }
}

/// Nothing to persist, send or report.
pub open spec fn quiet() -> OutputView {
    OutputView { persist: false, envelopes: seq![], api: None }
}

/// Only an error for the API caller.
pub open spec fn failure(e: ApiError) -> OutputView {
    OutputView { persist: false, envelopes: seq![], api: Some(Err(e)) }
}

impl Output {
    pub fn none() -> (r: Output)
        ensures
            r@ == quiet(),
    {
        let r = Output { persist: false, envelopes: Vec::new(), api_output: None };
        assert(r@.envelopes =~= seq![]);
        r
    }

    pub fn error(e: ApiError) -> (r: Output)
        ensures
            r@ == failure(e),
    {
        let r = Output { persist: false, envelopes: Vec::new(), api_output: Some(Err(e)) };
        assert(r@.envelopes =~= seq![]);
        r
    }
}

/// The pending parts of a state that do not outlive a restart.
pub open spec fn settled(s: SecretView) -> SecretView {
    match s {
        SecretView::Resolved(x) => SecretView::Resolved(x),
        _ => SecretView::NotRequested,
    }
}

/// A persisted state as it stands again after a restart: exchanges that were
/// in flight are forgotten.
pub open spec fn restarted(s: StateView) -> StateView {
    match s {
        StateView::Uninitialized => StateView::Uninitialized,
        StateView::InitialMember { pkg, secret, .. } => StateView::InitialMember {
            pkg,
            rack_init: None,
            secret: settled(secret),
        },
        StateView::Learning { .. } => StateView::Learning { attempt: None },
        StateView::Learned { pkg, secret } => StateView::Learned { pkg, secret: settled(secret) },
    }
}

/// Each member paired with its package.
pub open spec fn zip_pkgs(members: Seq<PeerId>, pkgs: Seq<SharePkg>) -> Seq<(PeerId, PkgView)> {
    Seq::new(members.len(), |k: int| (members[k], pkgs[k]@))
}

/// The pairs whose peer is not `id`, in order.
pub open spec fn except(s: Seq<(PeerId, PkgView)>, id: PeerId) -> Seq<(PeerId, PkgView)>
    decreases s.len(),
{
    if s.len() == 0 {
        seq![]
    } else if s.last().0 == id {
        except(s.drop_last(), id)
    } else {
        except(s.drop_last(), id).push(s.last())
    }
}

/// One `Init` request with id `rid` to each peer, carrying its package.
pub open spec fn init_msgs(s: Seq<(PeerId, PkgView)>, rid: u128) -> Seq<(PeerId, MsgView)> {
    s.map_values(|p: (PeerId, PkgView)| (p.0, MsgView::Init { id: rid, pkg: p.1 }))
}

proof fn lemma_except(s: Seq<(PeerId, PkgView)>, id: PeerId)
    requires
        keys(s).no_duplicates(),
    ensures
        keys(except(s, id)).no_duplicates(),
        forall|p: PeerId| #[trigger] keys(except(s, id)).contains(p) ==> keys(s).contains(p) && p != id,
    decreases s.len(),
{
    if s.len() > 0 {
        let d = s.drop_last();
        assert(keys(d) =~= keys(s).drop_last());
        lemma_except(d, id);
        let r = except(d, id);
        if s.last().0 != id {
            assert(keys(r.push(s.last())) =~= keys(r).push(s.last().0));
            if keys(r).contains(s.last().0) {
                let k = choose|k: int| 0 <= k < keys(d).len() && keys(d)[k] == s.last().0;
                assert(keys(s)[k] == keys(s)[s.len() - 1]);
            }
            lemma_push_new(keys(r), s.last().0);
            assert forall|p: PeerId| #[trigger] keys(except(s, id)).contains(p) implies keys(s).contains(
                p,
            ) && p != id by {
                if p != s.last().0 {
                    assert(keys(r).contains(p));
                    let k = choose|k: int| 0 <= k < keys(d).len() && keys(d)[k] == p;
                    assert(keys(s)[k] == p);
                } else {
                    assert(keys(s)[s.len() - 1] == p);
                }
            }
        } else {
            assert forall|p: PeerId| #[trigger] keys(except(s, id)).contains(p) implies keys(s).contains(
                p,
            ) && p != id by {
                let k = choose|k: int| 0 <= k < keys(d).len() && keys(d)[k] == p;
                assert(keys(s)[k] == p);
            }
        }
    }
}

/// Whether a state holds a package: a founding member or a learned peer.
pub open spec fn is_member(s: StateView) -> bool {
    s is InitialMember || s is Learned
}

pub open spec fn member_pkg(s: StateView) -> PkgView {
    match s {
        StateView::InitialMember { pkg, .. } => pkg,
        StateView::Learned { pkg, .. } => pkg,
        _ => arbitrary(),
    }
}

pub open spec fn member_secret(s: StateView) -> SecretView {
    match s {
        StateView::InitialMember { secret, .. } => secret,
        StateView::Learned { secret, .. } => secret,
        _ => arbitrary(),
    }
}

/// The same state with its rack-secret state replaced.
pub open spec fn with_secret(s: StateView, secret: SecretView) -> StateView {
    match s {
        StateView::InitialMember { pkg, rack_init, .. } => StateView::InitialMember {
            pkg,
            rack_init,
            secret,
        },
        StateView::Learned { pkg, .. } => StateView::Learned { pkg, secret },
        _ => s,
    }
}

/// The same state with no rack initialization pending.
pub open spec fn without_rack_init(s: StateView) -> StateView {
    match s {
        StateView::InitialMember { pkg, secret, .. } => StateView::InitialMember {
            pkg,
            rack_init: None,
            secret,
        },
        _ => s,
    }
}

/// One `GetShare` request with id `rid` to each of `peers` but `skip`.
pub open spec fn get_share_msgs(peers: Seq<PeerId>, skip: Option<PeerId>, rid: u128, rack_uuid: u128) -> Seq<
    (PeerId, MsgView),
>
    decreases peers.len(),
{
    if peers.len() == 0 {
        seq![]
    } else {
        let r = get_share_msgs(peers.drop_last(), skip, rid, rack_uuid);
        if skip == Some(peers.last()) {
            r
        } else {
            r.push((peers.last(), MsgView::GetShare { id: rid, rack_uuid }))
        }
    }
}

fn get_share_envelopes(peers: &Vec<PeerId>, skip: Option<PeerId>, rid: u128, rack_uuid: u128) -> (r: Vec<
    Envelope,
>)
    ensures
        envelopes_view(r@) == get_share_msgs(peers@, skip, rid, rack_uuid),
{
    let mut envelopes: Vec<Envelope> = Vec::new();
    let mut i: usize = 0;
    assert(peers@.take(0) =~= seq![]);
    assert(envelopes_view(envelopes@) =~= seq![]);
    while i < peers.len()
        invariant
            0 <= i <= peers@.len(),
            envelopes_view(envelopes@) == get_share_msgs(peers@.take(i as int), skip, rid, rack_uuid),
        decreases peers@.len() - i,
    {
        let p = peers[i];
        assert(peers@.take(i + 1).drop_last() =~= peers@.take(i as int));
        assert(peers@.take(i + 1).last() == p);
        let skipped = match skip {
            Some(q) => q == p,
            None => false,
        };
        if !skipped {
            let ghost e0 = envelopes_view(envelopes@);
            let env = Envelope { to: p, msg: Msg::Req(Request { id: rid, type_: RequestType::GetShare { rack_uuid } }) };
            let ghost ev = env@;
            envelopes.push(env);
            assert(envelopes_view(envelopes@) =~= e0.push(ev));
        }
        i += 1;
    }
    assert(peers@.take(peers@.len() as int) =~= peers@);
    envelopes
}

/// The peer to ask when learning: the first reachable peer, or the second
/// one when the first was the one asked last time; none when no peer is
/// reachable.
pub open spec fn pick_peer(peers: Seq<PeerId>, previous: Option<PeerId>) -> Option<PeerId> {
    if peers.len() == 0 {
        None
    } else if previous is None || peers[0] != previous->Some_0 {
        Some(peers[0])
    } else if peers.len() > 1 {
        Some(peers[1])
    } else {
        Some(peers[0])
    }
}

/// `a` is a learn attempt as the policy makes it at tick `now`.
pub open spec fn attempt_ok(
    a: Option<LearnAttempt>,
    peers: Seq<PeerId>,
    previous: Option<PeerId>,
    now: u64,
    timeout: u64,
) -> bool {
    match pick_peer(peers, previous) {
        None => a is None,
        Some(p) => a is Some && a->Some_0.peer == p && a->Some_0.expiry == now.saturating_add(timeout),
    }
}

/// What a learn attempt sends.
pub open spec fn learn_out(a: Option<LearnAttempt>) -> OutputView {
    match a {
        None => quiet(),
        Some(a) => OutputView {
            persist: false,
            envelopes: seq![(a.peer, MsgView::Learn { id: a.request_id })],
            api: None,
        },
    }
}

/// A learner asks again when it has no attempt out or its attempt expired.
pub open spec fn needs_attempt(a: Option<LearnAttempt>, now: u64) -> bool {
    a is None || a->Some_0.expiry <= now
}

pub open spec fn previous_peer(a: Option<LearnAttempt>) -> Option<PeerId> {
    match a {
        None => None,
        Some(a) => Some(a.peer),
    }
}

pub open spec fn any_init(rs: Seq<RequestView>) -> bool {
    exists|i: int| 0 <= i < rs.len() && #[trigger] rs[i] is InitRack
}

pub open spec fn any_load(rs: Seq<RequestView>) -> bool {
    exists|i: int| 0 <= i < rs.len() && #[trigger] rs[i] is LoadRackSecret
}

/// The state once the requests `rs` have expired: a rack initialization is
/// abandoned, and so is a rack-secret collection.
pub open spec fn after_expiry(s: StateView, rs: Seq<RequestView>) -> StateView {
    let s1 = if any_init(rs) {
        without_rack_init(s)
    } else {
        s
    };
    if any_load(rs) && is_member(s1) && member_secret(s1) is Collecting {
        with_secret(s1, SecretView::NotRequested)
    } else {
        s1
    }
}

/// What the API caller learns of the requests `rs` expiring: every
/// abandoned rack initialization or rack-secret collection is reported.
pub open spec fn expiry_api(rs: Seq<RequestView>) -> Option<Result<ApiOutputView, ApiError>> {
    if any_init(rs) && any_load(rs) {
        Some(Err(ApiError::RackInitAndSecretLoadTimeout))
    } else if any_init(rs) {
        Some(Err(ApiError::RackInitTimeout))
    } else if any_load(rs) {
        Some(Err(ApiError::RackSecretLoadTimeout))
    } else {
        None
    }
}

/// The outcome of `load_rack_secret` at a member holding `pkg`, whose rack
/// secret stood at `secret` and whose tracked requests were `reqs`.
pub open spec fn member_load(
    id: PeerId,
    peers: Seq<PeerId>,
    clock: u64,
    timeout: u64,
    pkg: PkgView,
    secret: SecretView,
    reqs: Seq<EntryView>,
    new_secret: SecretView,
    new_reqs: Seq<EntryView>,
    out: OutputView,
) -> bool {
    match secret {
        SecretView::Resolved(x) => new_secret == secret && new_reqs == reqs && out == (OutputView {
            persist: false,
            envelopes: seq![],
            api: Some(Ok(ApiOutputView::RackSecret(x))),
        }),
        SecretView::Combining => new_secret == secret && new_reqs == reqs && out == quiet(),
        SecretView::Collecting { request_id, .. } => {
            &&& new_secret == (SecretView::Collecting { request_id, started: clock })
            &&& new_reqs == set_expiry_result(reqs, request_id, clock.saturating_add(timeout))
            &&& out == quiet()
        },
        SecretView::NotRequested => {
            if pkg.threshold <= 1 {
                &&& new_secret == SecretView::Combining
                &&& new_reqs == reqs
                &&& out == (OutputView {
                    persist: false,
                    envelopes: seq![],
                    api: Some(
                        Ok(
                            ApiOutputView::CombineRackSecret {
                                rack_uuid: pkg.rack_uuid,
                                threshold: pkg.threshold,
                                shares: seq![(id, pkg.share)],
                            },
                        ),
                    ),
                })
            } else {
                &&& new_secret is Collecting
                &&& new_secret->started == clock
                &&& !has_id(reqs, new_secret->request_id)
                &&& new_reqs == reqs.insert(
                    sorted_pos(reqs, clock.saturating_add(timeout)),
                    EntryView {
                        id: new_secret->request_id,
                        expiry: clock.saturating_add(timeout),
                        request: RequestView::LoadRackSecret {
                            rack_uuid: pkg.rack_uuid,
                            threshold: pkg.threshold,
                            received: seq![(id, pkg.share)],
                        },
                    },
                )
                &&& out == (OutputView {
                    persist: false,
                    envelopes: get_share_msgs(peers, None, new_secret->request_id, pkg.rack_uuid),
                    api: None,
                })
            }
        },
    }
}

/// What a learner's tick reports: a learn failure when its attempt expired
/// and no peer was reachable to ask again.
pub open spec fn learn_api(
    previous: Option<LearnAttempt>,
    next: Option<LearnAttempt>,
    rs: Seq<RequestView>,
) -> Option<Result<ApiOutputView, ApiError>> {
    if previous is Some && next is None {
        Some(Err(ApiError::LearnTimeout))
    } else {
        expiry_api(rs)
    }
}

/// What one tick does, given that the first `k` tracked requests expired.
pub open spec fn tick_post(old: FsmView, new: FsmView, out: OutputView, k: int) -> bool {
    let now = (old.clock + 1) as u64;
    let rs = requests_of(old.requests.take(k));
    &&& 0 <= k <= old.requests.len()
    &&& forall|i: int| 0 <= i < k ==> old.requests[i].expiry <= now
    &&& forall|i: int| 0 <= i < new.requests.len() ==> new.requests[i].expiry > now
    &&& new.requests == old.requests.skip(k)
    &&& new.clock == now
    &&& new.id == old.id
    &&& new.config == old.config
    &&& new.peers == old.peers
    &&& if old.state is Learning && needs_attempt(old.state->attempt, now) {
        &&& new.state is Learning
        &&& attempt_ok(
            new.state->attempt,
            old.peers,
            previous_peer(old.state->attempt),
            now,
            old.config.learn_timeout,
        )
        &&& out == (OutputView {
            persist: false,
            envelopes: learn_out(new.state->attempt).envelopes,
            api: learn_api(old.state->attempt, new.state->attempt, rs),
        })
    } else {
        &&& new.state == after_expiry(old.state, rs)
        &&& out == (OutputView { persist: false, envelopes: seq![], api: expiry_api(rs) })
    }
}

proof fn lemma_any_step(rs: Seq<RequestView>, i: int)
    requires
        0 <= i < rs.len(),
    ensures
        any_init(rs.take(i + 1)) == (any_init(rs.take(i)) || rs[i] is InitRack),
        any_load(rs.take(i + 1)) == (any_load(rs.take(i)) || rs[i] is LoadRackSecret),
{
    let a = rs.take(i);
    let b = rs.take(i + 1);
    assert(b[i] == rs[i]);
    if any_init(a) {
        let j = choose|j: int| 0 <= j < a.len() && #[trigger] a[j] is InitRack;
        assert(b[j] == a[j]);
    }
    if any_init(b) {
        let j = choose|j: int| 0 <= j < b.len() && #[trigger] b[j] is InitRack;
        if j < i {
            assert(a[j] == b[j]);
        }
    }
    if any_load(a) {
        let j = choose|j: int| 0 <= j < a.len() && #[trigger] a[j] is LoadRackSecret;
        assert(b[j] == a[j]);
    }
    if any_load(b) {
        let j = choose|j: int| 0 <= j < b.len() && #[trigger] b[j] is LoadRackSecret;
        if j < i {
            assert(a[j] == b[j]);
        }
    }
}

/// One message to `to`, nothing else.
pub open spec fn send(to: PeerId, m: MsgView) -> OutputView {
    OutputView { persist: false, envelopes: seq![(to, m)], api: None }
}

/// Only a value for the API caller.
pub open spec fn report(v: ApiOutputView) -> OutputView {
    OutputView { persist: false, envelopes: seq![], api: Some(Ok(v)) }
}

/// What handling request `m` from `from` does.
pub open spec fn request_post(old: FsmView, new: FsmView, out: OutputView, from: PeerId, m: MsgView) -> bool {
    match m {
        MsgView::Init { id, pkg } => {
            if old.state is Uninitialized {
                &&& new == (FsmView {
                    state: StateView::InitialMember {
                        pkg,
                        rack_init: None,
                        secret: SecretView::NotRequested,
                    },
                    ..old
                })
                &&& out == (OutputView {
                    persist: true,
                    envelopes: seq![(from, MsgView::InitAck { request_id: id })],
                    api: None,
                })
            } else if old.state is InitialMember && member_pkg(old.state).rack_uuid == pkg.rack_uuid {
                new == old && out == send(from, MsgView::InitAck { request_id: id })
            } else {
                new == old && out == quiet()
            }
        },
        MsgView::GetShare { id, rack_uuid } => {
            if is_member(old.state) && member_pkg(old.state).rack_uuid == rack_uuid {
                new == old && out == send(
                    from,
                    MsgView::Share { request_id: id, share: member_pkg(old.state).share },
                )
            } else {
                new == old && out == quiet()
            }
        },
        MsgView::Learn { id } => {
            if is_member(old.state) {
                let pkg = member_pkg(old.state);
                let expiry = old.clock.saturating_add(old.config.learn_timeout);
                if pkg.threshold <= 1 {
                    new == old && out == report(
                        ApiOutputView::CombineLearnedPkg {
                            learner: from,
                            request_id: id,
                            rack_uuid: pkg.rack_uuid,
                            threshold: pkg.threshold,
                            shares: seq![(old.id, pkg.share)],
                        },
                    )
                } else {
                    exists|rid: u128|
                        {
                            &&& !has_id(old.requests, rid)
                            &&& new == (FsmView {
                                requests: old.requests.insert(
                                    sorted_pos(old.requests, expiry),
                                    EntryView {
                                        id: rid,
                                        expiry,
                                        request: RequestView::Learn {
                                            rack_uuid: pkg.rack_uuid,
                                            from,
                                            threshold: pkg.threshold,
                                            received: seq![(old.id, pkg.share)],
                                        },
                                    },
                                ),
                                ..old
                            })
                            &&& out == (OutputView {
                                persist: false,
                                envelopes: get_share_msgs(old.peers, Some(from), rid, pkg.rack_uuid),
                                api: None,
                            })
                        }
                }
            } else {
                new == old && out == quiet()
            }
        },
        _ => true,
    }
}

/// What handling response `m` from `from` does.
pub open spec fn response_post(old: FsmView, new: FsmView, out: OutputView, from: PeerId, m: MsgView) -> bool {
    match m {
        MsgView::InitAck { request_id } => {
            &&& new.requests == after_init_ack(old.requests, from, request_id)
            &&& if init_ack_completes(old.requests, from, request_id) {
                &&& new == (FsmView {
                    state: without_rack_init(old.state),
                    requests: new.requests,
                    ..old
                })
                &&& out == report(ApiOutputView::RackInitComplete)
            } else {
                new == (FsmView { requests: new.requests, ..old }) && out == quiet()
            }
        },
        MsgView::Share { request_id, share } => {
            let i = index_of(old.requests, request_id);
            if i < 0 || !is_share_request(old.requests[i].request) {
                new == old && out == quiet()
            } else {
                let upd = with_share(old.requests[i].request, from, share);
                if !threshold_met(upd) {
                    &&& new == (FsmView {
                        requests: old.requests.update(i, EntryView { request: upd, ..old.requests[i] }),
                        ..old
                    })
                    &&& out == quiet()
                } else {
                    match upd {
                        RequestView::LoadRackSecret { rack_uuid, threshold, received } => {
                            &&& new == (FsmView {
                                state: with_secret(old.state, SecretView::Combining),
                                requests: old.requests.remove(i),
                                ..old
                            })
                            &&& out == report(
                                ApiOutputView::CombineRackSecret { rack_uuid, threshold, shares: received },
                            )
                        },
                        RequestView::Learn { rack_uuid, from: learner, threshold, received } => {
                            &&& new == (FsmView { requests: old.requests.remove(i), ..old })
                            &&& out == report(
                                ApiOutputView::CombineLearnedPkg {
                                    learner,
                                    request_id,
                                    rack_uuid,
                                    threshold,
                                    shares: received,
                                },
                            )
                        },
                        _ => false,
                    }
                }
            }
        },
        MsgView::LearnPkg { pkg, .. } => {
            if old.state is Learning {
                &&& new == (FsmView {
                    state: StateView::Learned { pkg, secret: SecretView::NotRequested },
                    ..old
                })
                &&& out == (OutputView {
                    persist: true,
                    envelopes: seq![],
                    api: Some(Ok(ApiOutputView::LearningCompleted)),
                })
            } else {
                new == old && out == quiet()
            }
        },
        _ => true,
    }
}

/// What handling message `m` from `from` does.
pub open spec fn handle_post(old: FsmView, new: FsmView, out: OutputView, from: PeerId, m: MsgView) -> bool {
    request_post(old, new, out, from, m) && response_post(old, new, out, from, m)
}

/// What `init_rack` does: only an uninitialized peer takes it up; a failed
/// split changes nothing; otherwise this peer keeps its own package and every
/// other member is sent theirs.
pub open spec fn init_rack_post(
    old: FsmView,
    new: FsmView,
    out: OutputView,
    rack_uuid: u128,
    members: Seq<PeerId>,
    pkgs: Result<Vec<SharePkg>, String>,
) -> bool {
    &&& (!(old.state is Uninitialized) ==> new == old && out == failure(ApiError::RackAlreadyInitialized))
    &&& (old.state is Uninitialized && pkgs is Err ==> new == old && out
                == failure(ApiError::RackInitFailed(pkgs->Err_0)))
    &&& (old.state is Uninitialized && pkgs is Ok ==> ({
                let zip = zip_pkgs(members, pkgs->Ok_0@);
                let others = except(zip, old.id);
                let own = package_for(zip, old.id);
                let expiry = old.clock.saturating_add(old.config.rack_init_timeout);
                if others.len() == 0 {
                    &&& new == (FsmView {
                        state: StateView::InitialMember {
                            pkg: own,
                            rack_init: None,
                            secret: SecretView::NotRequested,
                        },
                        ..old
                    })
                    &&& out == (OutputView {
                        persist: true,
                        envelopes: seq![],
                        api: Some(Ok(ApiOutputView::RackInitComplete)),
                    })
                } else {
                    exists|rid: u128|
                        {
                            &&& !has_id(old.requests, rid)
                            &&& new == (FsmView {
                                state: StateView::InitialMember {
                                    pkg: own,
                                    rack_init: Some(
                                        RackInitState {
                                            request_id: rid,
                                            start: old.clock,
                                            total_members: members.len() as usize,
                                        },
                                    ),
                                    secret: SecretView::NotRequested,
                                },
                                requests: old.requests.insert(
                                    sorted_pos(old.requests, expiry),
                                    EntryView {
                                        id: rid,
                                        expiry,
                                        request: RequestView::InitRack {
                                            rack_uuid,
                                            packages: others,
                                            expected: keys(others),
                                            received: seq![],
                                        },
                                    },
                                ),
                                ..old
                            })
                            &&& out == (OutputView {
                                persist: true,
                                envelopes: init_msgs(others, rid),
                                api: None,
                            })
                        }
                }
            }))
}

/// Whether a rack initialization is tracked under `id`.
pub open spec fn tracks_init(reqs: Seq<EntryView>, id: u128) -> bool {
    exists|i: int| 0 <= i < reqs.len() && #[trigger] reqs[i].id == id && reqs[i].request is InitRack
}

/// Whether a rack-secret collection expiring at `expiry` is tracked under `id`.
pub open spec fn tracks_load(reqs: Seq<EntryView>, id: u128, expiry: u64) -> bool {
    exists|i: int|
        0 <= i < reqs.len() && #[trigger] reqs[i].id == id && reqs[i].request is LoadRackSecret
            && reqs[i].expiry == expiry
}

/// Requests that only a member's state gives rise to.
pub open spec fn member_only(r: RequestView) -> bool {
    r is InitRack || r is LoadRackSecret
}

/// The state names the requests it waits on: a pending rack initialization
/// is tracked, a rack-secret collection is tracked and expires one timeout
/// after the caller last asked, and a peer that is not a member tracks
/// neither kind.
pub open spec fn state_links(s: StateView, reqs: Seq<EntryView>, timeout: u64) -> bool {
    &&& (s is InitialMember && s->rack_init is Some) ==> tracks_init(reqs, s->rack_init->Some_0.request_id)
    &&& (is_member(s) && member_secret(s) is Collecting) ==> tracks_load(
        reqs,
        member_secret(s)->request_id,
        member_secret(s)->started.saturating_add(timeout),
    )
    &&& (s is Uninitialized || s is Learning) ==> forall|i: int|
        0 <= i < reqs.len() ==> !member_only(#[trigger] reqs[i].request)
}

proof fn lemma_links_insert(s: StateView, a: Seq<EntryView>, pos: int, e: EntryView, t: u64)
    requires
        state_links(s, a, t),
        0 <= pos <= a.len(),
        (s is Uninitialized || s is Learning) ==> !member_only(e.request),
    ensures
        state_links(s, a.insert(pos, e), t),
{
    let b = a.insert(pos, e);
    if s is InitialMember && s->rack_init is Some {
        let i = choose|i: int| 0 <= i < a.len() && #[trigger] a[i].id == s->rack_init->Some_0.request_id
            && a[i].request is InitRack;
        let j = if i < pos { i } else { i + 1 };
        assert(b[j] == a[i]);
    }
    if is_member(s) && member_secret(s) is Collecting {
        let i = choose|i: int| 0 <= i < a.len() && #[trigger] a[i].id == member_secret(s)->request_id
            && a[i].request is LoadRackSecret && a[i].expiry == member_secret(s)->started.saturating_add(t);
        let j = if i < pos { i } else { i + 1 };
        assert(b[j] == a[i]);
    }
    if s is Uninitialized || s is Learning {
        assert forall|j: int| 0 <= j < b.len() implies !member_only(#[trigger] b[j].request) by {
            if j < pos {
                assert(b[j] == a[j]);
            } else if j > pos {
                assert(b[j] == a[j - 1]);
            }
        }
    }
}

proof fn lemma_links_update(s: StateView, a: Seq<EntryView>, i0: int, e: EntryView, t: u64)
    requires
        state_links(s, a, t),
        0 <= i0 < a.len(),
        e.id == a[i0].id,
        e.expiry == a[i0].expiry,
        (e.request is InitRack) == (a[i0].request is InitRack),
        (e.request is LoadRackSecret) == (a[i0].request is LoadRackSecret),
    ensures
        state_links(s, a.update(i0, e), t),
{
    let b = a.update(i0, e);
    if s is InitialMember && s->rack_init is Some {
        let i = choose|i: int| 0 <= i < a.len() && #[trigger] a[i].id == s->rack_init->Some_0.request_id
            && a[i].request is InitRack;
        assert(b[i].id == a[i].id);
    }
    if is_member(s) && member_secret(s) is Collecting {
        let i = choose|i: int| 0 <= i < a.len() && #[trigger] a[i].id == member_secret(s)->request_id
            && a[i].request is LoadRackSecret && a[i].expiry == member_secret(s)->started.saturating_add(t);
        assert(b[i].id == a[i].id);
    }
    if s is Uninitialized || s is Learning {
        assert forall|j: int| 0 <= j < b.len() implies !member_only(#[trigger] b[j].request) by {
            assert(!member_only(a[j].request));
        }
    }
}

proof fn lemma_links_remove(s: StateView, a: Seq<EntryView>, i0: int, t: u64)
    requires
        state_links(s, a, t),
        0 <= i0 < a.len(),
        a[i0].request is InitRack ==> !(s is InitialMember && s->rack_init is Some),
        a[i0].request is LoadRackSecret ==> !(is_member(s) && member_secret(s) is Collecting),
    ensures
        state_links(s, a.remove(i0), t),
{
    let b = a.remove(i0);
    if s is InitialMember && s->rack_init is Some {
        let i = choose|i: int| 0 <= i < a.len() && #[trigger] a[i].id == s->rack_init->Some_0.request_id
            && a[i].request is InitRack;
        let j = if i < i0 { i } else { i - 1 };
        assert(b[j] == a[i]);
    }
    if is_member(s) && member_secret(s) is Collecting {
        let i = choose|i: int| 0 <= i < a.len() && #[trigger] a[i].id == member_secret(s)->request_id
            && a[i].request is LoadRackSecret && a[i].expiry == member_secret(s)->started.saturating_add(t);
        let j = if i < i0 { i } else { i - 1 };
        assert(b[j] == a[i]);
    }
    if s is Uninitialized || s is Learning {
        assert forall|j: int| 0 <= j < b.len() implies !member_only(#[trigger] b[j].request) by {
            if j < i0 {
                assert(b[j] == a[j]);
            } else {
                assert(b[j] == a[j + 1]);
            }
        }
    }
}

proof fn lemma_links_expire(s: StateView, a: Seq<EntryView>, k: int, now: u64, t: u64)
    requires
        state_links(s, a, t),
        0 <= k <= a.len(),
        forall|i: int| 0 <= i < k ==> a[i].expiry <= now,
        forall|i: int| k <= i < a.len() ==> a[i].expiry > now,
    ensures
        state_links(after_expiry(s, requests_of(a.take(k))), a.skip(k), t),
        s is Learning ==> forall|x: Option<LearnAttempt>|
            #[trigger] state_links(StateView::Learning { attempt: x }, a.skip(k), t),
{
    let rs = requests_of(a.take(k));
    let b = a.skip(k);
    let s2 = after_expiry(s, rs);
    if s is InitialMember && s->rack_init is Some {
        let i = choose|i: int| 0 <= i < a.len() && #[trigger] a[i].id == s->rack_init->Some_0.request_id
            && a[i].request is InitRack;
        if i < k {
            assert(rs[i] is InitRack);
        } else {
            assert(b[i - k] == a[i]);
        }
    }
    if is_member(s) && member_secret(s) is Collecting {
        let i = choose|i: int| 0 <= i < a.len() && #[trigger] a[i].id == member_secret(s)->request_id
            && a[i].request is LoadRackSecret && a[i].expiry == member_secret(s)->started.saturating_add(t);
        if i < k {
            assert(rs[i] is LoadRackSecret);
        } else {
            assert(b[i - k] == a[i]);
        }
    }
    if s is Uninitialized || s is Learning {
        assert forall|j: int| 0 <= j < b.len() implies !member_only(#[trigger] b[j].request) by {
            assert(b[j] == a[j + k]);
        }
    }
}

proof fn lemma_response_links(old: FsmView, new: FsmView, out: OutputView, from: PeerId, m: MsgView, t: u64)
    requires
        crate::request_manager::entries_wf(old.requests),
        state_links(old.state, old.requests, t),
        response_post(old, new, out, from, m),
        m is InitAck || m is Share || m is LearnPkg,
    ensures
        state_links(new.state, new.requests, t),
{
    let reqs = old.requests;
    match m {
        MsgView::InitAck { request_id } => {
            let i = index_of(reqs, request_id);
            if i >= 0 {
                assert(has_id(reqs, request_id));
                assert(0 <= i < reqs.len());
                if let RequestView::InitRack { rack_uuid, packages, expected, received } = reqs[i].request {
                    if init_ack_completes(reqs, from, request_id) {
                        let s1 = without_rack_init(old.state);
                        assert(state_links(s1, reqs, t));
                        lemma_links_remove(s1, reqs, i, t);
                    } else {
                        let e = EntryView {
                            request: RequestView::InitRack {
                                rack_uuid,
                                packages,
                                expected,
                                received: crate::request_manager::acks_after(expected, received, from),
                            },
                            ..reqs[i]
                        };
                        lemma_links_update(old.state, reqs, i, e, t);
                    }
                }
            }
        },
        MsgView::Share { request_id, share } => {
            let i = index_of(reqs, request_id);
            if i >= 0 && is_share_request(reqs[i].request) {
                assert(has_id(reqs, request_id));
                assert(0 <= i < reqs.len());
                let upd = with_share(reqs[i].request, from, share);
                if !threshold_met(upd) {
                    lemma_links_update(old.state, reqs, i, EntryView { request: upd, ..reqs[i] }, t);
                } else if upd is LoadRackSecret {
                    let s1 = with_secret(old.state, SecretView::Combining);
                    assert(state_links(s1, reqs, t));
                    lemma_links_remove(s1, reqs, i, t);
                } else {
                    lemma_links_remove(old.state, reqs, i, t);
                }
            }
        },
        _ => {},
    }
}

/// The state of one peer.
pub struct Fsm {
    id: PeerId,
    config: Config,
    clock: u64,
    /// The peers currently reachable; never this peer itself.
    peers: Vec<PeerId>,
    state: State,
    request_manager: RequestManager,
}

pub ghost struct FsmView {
    pub id: PeerId,
    pub config: Config,
    pub clock: u64,
    pub peers: Seq<PeerId>,
    pub state: StateView,
    pub requests: Seq<EntryView>,
}

impl View for Fsm {
    type V = FsmView;

    closed spec fn view(&self) -> FsmView {
        FsmView {
            id: self.id,
            config: self.config,
            clock: self.clock,
            peers: self.peers@,
            state: self.state@,
            requests: self.request_manager@,
        }
    }
}

fn settle(s: RackSecretState) -> (r: RackSecretState)
    ensures
        r@ == settled(s@),
{
    match s {
        RackSecretState::Resolved(x) => RackSecretState::Resolved(x),
        _ => RackSecretState::NotRequested,
    }
}

impl Fsm {
    /// The peers are distinct and exclude this one; the tracker is
    /// consistent and runs on the same timeouts.
    pub closed spec fn wf(&self) -> bool {
        &&& self.core_wf()
        &&& state_links(self.state@, self.request_manager@, self.config.rack_secret_request_timeout)
    }

    /// Consistency apart from the state, which may be taken out meanwhile.
    closed spec fn core_wf(&self) -> bool {
        &&& self.request_manager.wf()
        &&& self.request_manager.cfg() == self.config
        &&& self.peers@.no_duplicates()
        &&& !self.peers@.contains(self.id)
    }

    /// What consistency of a peer says of its view: tracked requests are
    /// consistent, peers are distinct and exclude this one, and the state
    /// names the requests it waits on.
    pub proof fn lemma_wf(&self)
        requires
            self.wf(),
        ensures
            crate::request_manager::entries_wf(self@.requests),
            self@.peers.no_duplicates(),
            !self@.peers.contains(self@.id),
            state_links(self@.state, self@.requests, self@.config.rack_secret_request_timeout),
    {
    }

    /// A peer starting, or restarting from a persisted `state`, at tick 0
    /// with no peer reachable yet.
    pub fn new(id: PeerId, config: Config, state: State) -> (r: Fsm)
        ensures
            r.wf(),
            r@ == (FsmView {
                id,
                config,
                clock: 0,
                peers: seq![],
                state: restarted(state@),
                requests: seq![],
            }),
    {
        let state = match state {
            State::Uninitialized => State::Uninitialized,
            State::InitialMember { pkg, rack_secret, .. } => State::InitialMember {
                pkg,
                rack_init: None,
                rack_secret: settle(rack_secret),
            },
            State::Learning { .. } => State::Learning { attempt: None },
            State::Learned { pkg, rack_secret } => State::Learned { pkg, rack_secret: settle(rack_secret) },
        };
        let r = Fsm {
            id,
            config,
            clock: 0,
            peers: Vec::new(),
            state,
            request_manager: RequestManager::new(config),
        };
        assert(r.peers@ =~= seq![]);
        assert(r.request_manager@ =~= seq![]);
        r
    }

    pub fn id(&self) -> (r: PeerId)
        ensures
            r == self@.id,
    {
        self.id
    }

    pub fn clock(&self) -> (r: u64)
        ensures
            r == self@.clock,
    {
        self.clock
    }

    pub fn config(&self) -> (r: Config)
        ensures
            r == self@.config,
    {
        self.config
    }

    pub fn state(&self) -> (r: &State)
        ensures
            r@ == self@.state,
    {
        &self.state
    }

    pub fn peers(&self) -> (r: &Vec<PeerId>)
        ensures
            r@ == self@.peers,
    {
        &self.peers
    }

    pub fn request_manager(&self) -> (r: &RequestManager)
        ensures
            r@ == self@.requests,
    {
        &self.request_manager
    }

    /// `peer` became reachable. A peer not known before is added, and is
    /// sent every request in flight that it has not answered yet.
    pub fn insert_peer(&mut self, peer: PeerId) -> (r: Output)
        requires
            old(self).wf(),
        ensures
            final(self).wf(),
            peer == old(self)@.id || old(self)@.peers.contains(peer) ==> final(self)@ == old(self)@
                && r@ == quiet(),
            !(peer == old(self)@.id || old(self)@.peers.contains(peer)) ==> final(self)@ == (FsmView {
                peers: old(self)@.peers.push(peer),
                ..old(self)@
            }) && r@ == (OutputView {
                persist: false,
                envelopes: resends(old(self)@.requests, peer),
                api: None,
            }),
    {
        if peer == self.id || peers_contain(&self.peers, peer) {
            return Output::none();
        }
        let ghost p0 = self.peers@;
        self.peers.push(peer);
        proof {
            lemma_push_new(p0, peer);
            assert(self.peers@.contains(self.id) ==> p0.contains(self.id)) by {
                if self.peers@.contains(self.id) {
                    let k = choose|k: int| 0 <= k < self.peers@.len() && self.peers@[k] == self.id;
                    assert(p0[k] == self.id);
                }
            }
        }
        let envelopes = self.request_manager.on_connected(peer);
        Output { persist: false, envelopes, api_output: None }
    }

    /// `peer` is gone for good: no new request will be sent to it. Requests
    /// in flight are left as they are.
    pub fn remove_peer(&mut self, peer: PeerId)
        requires
            old(self).wf(),
        ensures
            final(self).wf(),
            !final(self)@.peers.contains(peer),
            !old(self)@.peers.contains(peer) ==> final(self)@ == old(self)@,
            old(self)@.peers.contains(peer) ==> exists|k: int|
                0 <= k < old(self)@.peers.len() && old(self)@.peers[k] == peer && final(self)@ == (
                FsmView { peers: old(self)@.peers.remove(k), ..old(self)@ }),
    {
        let mut k: usize = 0;
        while k < self.peers.len()
            invariant
                self.wf(),
                self@ == old(self)@,
                0 <= k <= self.peers@.len(),
                forall|j: int| 0 <= j < k ==> self.peers@[j] != peer,
            decreases self.peers@.len() - k,
        {
            if self.peers[k] == peer {
                let ghost p0 = self.peers@;
                let ghost before = self@;
                self.peers.remove(k);
                proof {
                    assert forall|a: int, b: int|
                        0 <= a < self.peers@.len() && 0 <= b < self.peers@.len() && a != b implies self.peers@[a]
                        != self.peers@[b] by {
                        let sa = if a < k { a } else { a + 1 };
                        let sb = if b < k { b } else { b + 1 };
                        assert(self.peers@[a] == p0[sa] && self.peers@[b] == p0[sb]);
                    }
                    if self.peers@.contains(self.id) {
                        let j = choose|j: int| 0 <= j < self.peers@.len() && self.peers@[j] == self.id;
                        let sj = if j < k { j } else { j + 1 };
                        assert(p0[sj] == self.id);
                    }
                    assert(self@ == (FsmView { peers: p0.remove(k as int), ..before }));
                }
                return;
            }
            k += 1;
        }
    }

    /// Initialize the rack, at the one peer chosen to do so.
    ///
    /// `pkgs` is what the splitter made of a fresh secret for
    /// `initial_membership`: one package per member, in the same order. This
    /// peer keeps its own and sends every other member theirs.
    pub fn init_rack(
        &mut self,
        rack_uuid: u128,
        initial_membership: Vec<PeerId>,
        pkgs: Result<Vec<SharePkg>, String>,
    ) -> (r: Output)
        requires
            old(self).wf(),
            old(self)@.state is Uninitialized ==> initial_membership@.no_duplicates(),
            old(self)@.state is Uninitialized ==> initial_membership@.contains(old(self)@.id),
            old(self)@.state is Uninitialized && pkgs is Ok ==> pkgs->Ok_0@.len() == initial_membership@.len(),
        ensures
            final(self).wf(),
            init_rack_post(old(self)@, final(self)@, r@, rack_uuid, initial_membership@, pkgs),
    {
        if !matches!(self.state, State::Uninitialized) {
            return Output::error(ApiError::RackAlreadyInitialized);
        }
        let pkgs = match pkgs {
            Err(e) => return Output::error(ApiError::RackInitFailed(e)),
            Ok(pkgs) => pkgs,
        };
        let ghost zip = zip_pkgs(initial_membership@, pkgs@);
        let n = initial_membership.len();
        let mut others: Vec<(PeerId, SharePkg)> = Vec::new();
        let mut sends: Vec<(PeerId, SharePkg)> = Vec::new();
        let mut own: Option<SharePkg> = None;
        let mut k: usize = 0;
        assert(zip.take(0) =~= seq![]);
        assert(keys(zip) =~= initial_membership@);
        while k < n
            invariant
                n == initial_membership@.len(),
                n == pkgs@.len(),
                zip == zip_pkgs(initial_membership@, pkgs@),
                keys(zip) == initial_membership@,
                initial_membership@.no_duplicates(),
                0 <= k <= n,
                packages_view(others@) == except(zip.take(k as int), self.id),
                packages_view(sends@) == except(zip.take(k as int), self.id),
                own is Some ==> own->Some_0@ == package_for(zip, self.id),
                (exists|j: int| 0 <= j < k && initial_membership@[j] == self.id) ==> own is Some,
            decreases n - k,
        {
            let peer = initial_membership[k];
            assert(zip.take(k + 1).drop_last() =~= zip.take(k as int));
            assert(zip.take(k + 1).last() == zip[k as int]);
            if peer == self.id {
                proof {
                    lemma_package_for(zip, self.id, k as int);
                }
                own = Some(pkgs[k].duplicate());
            } else {
                let ghost o0 = packages_view(others@);
                others.push((peer, pkgs[k].duplicate()));
                sends.push((peer, pkgs[k].duplicate()));
                assert(packages_view(others@) =~= o0.push(zip[k as int]));
                assert(packages_view(sends@) =~= o0.push(zip[k as int]));
            }
            k += 1;
        }
        assert(zip.take(n as int) =~= zip);
        let own = match own {
            Some(p) => p,
            None => {
                proof {
                    let j = choose|j: int| 0 <= j < n && initial_membership@[j] == self.id;
                }
                return Output::none();
            },
        };
        proof {
            lemma_except(zip, self.id);
        }
        let ghost old_self = self@;
        if others.len() == 0 {
            self.state = State::InitialMember {
                pkg: own,
                rack_init: None,
                rack_secret: RackSecretState::NotRequested,
            };
            let r = Output {
                persist: true,
                envelopes: Vec::new(),
                api_output: Some(Ok(ApiOutput::RackInitComplete)),
            };
            assert(r@.envelopes =~= seq![]);
            return r;
        }
        let rid = self.request_manager.new_init_rack(self.clock, rack_uuid, others);
        self.state = State::InitialMember {
            pkg: own,
            rack_init: Some(RackInitState { request_id: rid, start: self.clock, total_members: n }),
            rack_secret: RackSecretState::NotRequested,
        };
        let mut envelopes: Vec<Envelope> = Vec::new();
        let mut j: usize = 0;
        let ghost others_v = packages_view(sends@);
        while j < sends.len()
            invariant
                0 <= j <= sends@.len(),
                others_v == packages_view(sends@),
                envelopes_view(envelopes@) == init_msgs(others_v, rid).take(j as int),
            decreases sends@.len() - j,
        {
            let env = Envelope {
                to: sends[j].0,
                msg: Msg::Req(Request { id: rid, type_: RequestType::Init(sends[j].1.duplicate()) }),
            };
            let ghost e0 = envelopes_view(envelopes@);
            let ghost ev = env@;
            assert(others_v[j as int] == (sends@[j as int].0, sends@[j as int].1@));
            assert(ev == init_msgs(others_v, rid)[j as int]);
            envelopes.push(env);
            assert(envelopes_view(envelopes@) =~= e0.push(ev));
            assert(envelopes_view(envelopes@) =~= init_msgs(others_v, rid).take(j + 1));
            j += 1;
        }
        assert(init_msgs(others_v, rid).take(sends@.len() as int) =~= init_msgs(others_v, rid));
        let r = Output { persist: true, envelopes, api_output: None };
        assert(self@ == (FsmView {
            state: StateView::InitialMember {
                pkg: package_for(zip, old_self.id),
                rack_init: Some(
                    RackInitState {
                        request_id: rid,
                        start: old_self.clock,
                        total_members: initial_membership@.len() as usize,
                    },
                ),
                secret: SecretView::NotRequested,
            },
            ..self@
        }));
        proof {
            let exp = old_self.clock.saturating_add(old_self.config.rack_init_timeout);
            lemma_sorted_pos_range(old_self.requests, exp);
            let pos = sorted_pos(old_self.requests, exp);
            assert(self@.requests[pos].id == rid && self@.requests[pos].request is InitRack);
        }
        r
    }
    /// A learn attempt made at the current tick, preferring a reachable peer
    /// other than `previous`; none when no peer is reachable.
    fn new_attempt(&self, previous: Option<PeerId>) -> (r: (Option<LearnAttempt>, Output))
        requires
            self.core_wf(),
        ensures
            attempt_ok(r.0, self@.peers, previous, self@.clock, self@.config.learn_timeout),
            r.1@ == learn_out(r.0),
    {
        let n = self.peers.len();
        if n == 0 {
            return (None, Output::none());
        }
        let first = self.peers[0];
        let peer = match previous {
            Some(p) => if first == p && n > 1 {
                self.peers[1]
            } else {
                first
            },
            None => first,
        };
        let a = LearnAttempt {
            peer,
            request_id: random_request_id(),
            expiry: self.clock.saturating_add(self.config.learn_timeout),
        };
        let mut envelopes: Vec<Envelope> = Vec::new();
        envelopes.push(Envelope { to: peer, msg: Msg::Req(Request { id: a.request_id, type_: RequestType::Learn }) });
        let out = Output { persist: false, envelopes, api_output: None };
        assert(out@.envelopes =~= seq![(a.peer, MsgView::Learn { id: a.request_id })]);
        (Some(a), out)
    }

    /// Join a rack that was initialized without this peer: ask a reachable
    /// peer for a package.
    pub fn init_learner(&mut self) -> (r: Output)
        requires
            old(self).wf(),
        ensures
            final(self).wf(),
            !(old(self)@.state is Uninitialized) ==> final(self)@ == old(self)@ && r@ == failure(
                ApiError::PeerAlreadyInitialized,
            ),
            old(self)@.state is Uninitialized ==> {
                &&& final(self)@.state is Learning
                &&& attempt_ok(
                    final(self)@.state->attempt,
                    old(self)@.peers,
                    None,
                    old(self)@.clock,
                    old(self)@.config.learn_timeout,
                )
                &&& final(self)@ == (FsmView {
                    state: StateView::Learning { attempt: final(self)@.state->attempt },
                    ..old(self)@
                })
                &&& r@ == learn_out(final(self)@.state->attempt)
            },
    {
        if !matches!(self.state, State::Uninitialized) {
            return Output::error(ApiError::PeerAlreadyInitialized);
        }
        let (attempt, out) = self.new_attempt(None);
        self.state = State::Learning { attempt };
        out
    }

    fn load_at_member(
        &mut self,
        share: &Share,
        rack_uuid: u128,
        threshold: u8,
        secret: RackSecretState,
        Ghost(s): Ghost<StateView>,
    ) -> (r: (RackSecretState, Output))
        requires
            old(self).core_wf(),
            is_member(s),
            member_secret(s) == secret@,
            state_links(s, old(self)@.requests, old(self)@.config.rack_secret_request_timeout),
        ensures
            final(self).core_wf(),
            state_links(with_secret(s, r.0@), final(self)@.requests, final(self)@.config.rack_secret_request_timeout),
            final(self)@ == (FsmView { requests: final(self)@.requests, ..old(self)@ }),
            member_load(
                old(self)@.id,
                old(self)@.peers,
                old(self)@.clock,
                old(self)@.config.rack_secret_request_timeout,
                PkgView { rack_uuid, threshold, share: share@ },
                secret@,
                old(self)@.requests,
                r.0@,
                final(self)@.requests,
                r.1@,
            ),
    {
        match secret {
            RackSecretState::Resolved(x) => {
                let out = Output {
                    persist: false,
                    envelopes: Vec::new(),
                    api_output: Some(Ok(ApiOutput::RackSecret(x.duplicate()))),
                };
                assert(out@.envelopes =~= seq![]);
                assert(with_secret(s, SecretView::Resolved(x@)) == s);
                (RackSecretState::Resolved(x), out)
            },
            RackSecretState::Combining => {
                assert(with_secret(s, SecretView::Combining) == s);
                (RackSecretState::Combining, Output::none())
            },
            RackSecretState::Collecting { request_id, started } => {
                let ghost reqs = self.request_manager@;
                let ghost t = self.config.rack_secret_request_timeout;
                let expiry = self.clock.saturating_add(self.config.rack_secret_request_timeout);
                self.request_manager.set_expiry(request_id, expiry);
                proof {
                    let i = choose|i: int|
                        0 <= i < reqs.len() && #[trigger] reqs[i].id == request_id
                            && reqs[i].request is LoadRackSecret && reqs[i].expiry == started.saturating_add(t);
                    crate::request_manager::lemma_index_of(reqs, i);
                    let s0 = with_secret(s, SecretView::NotRequested);
                    assert(state_links(s0, reqs, t));
                    lemma_links_remove(s0, reqs, i, t);
                    let rest = reqs.remove(i);
                    let p = sorted_pos(rest, expiry);
                    lemma_sorted_pos_range(rest, expiry);
                    let e = EntryView { expiry, ..reqs[i] };
                    lemma_links_insert(s0, rest, p, e, t);
                    assert(self.request_manager@ == rest.insert(p, e));
                    assert(self.request_manager@[p].id == request_id);
                    let s1 = with_secret(s, SecretView::Collecting { request_id, started: self.clock });
                    assert(tracks_load(self.request_manager@, request_id, self.clock.saturating_add(t)));
                    assert(state_links(s1, self.request_manager@, t));
                }
                (RackSecretState::Collecting { request_id, started: self.clock }, Output::none())
            },
            RackSecretState::NotRequested => {
                if threshold <= 1 {
                    let mut shares: Vec<(PeerId, Share)> = Vec::new();
                    shares.push((self.id, share.duplicate()));
                    let out = Output {
                        persist: false,
                        envelopes: Vec::new(),
                        api_output: Some(Ok(ApiOutput::CombineRackSecret { rack_uuid, threshold, shares })),
                    };
                    assert(out@.envelopes =~= seq![]);
                    assert(shares_view(shares@) =~= seq![(self.id, share@)]);
                    (RackSecretState::Combining, out)
                } else {
                    let ghost reqs = self.request_manager@;
                    let ghost expiry = self.clock.saturating_add(self.config.rack_secret_request_timeout);
                    let rid = self.request_manager.new_load_rack_secret(self.clock, rack_uuid, threshold);
                    let ghost s1 = self.request_manager@;
                    let ghost pos = sorted_pos(reqs, expiry);
                    proof {
                        lemma_sorted_pos_range(reqs, expiry);
                        assert(s1[pos].request == RequestView::LoadRackSecret { rack_uuid, threshold, received: seq![] });
                        assert(!keys(Seq::<(PeerId, Seq<u8>)>::empty()).contains(self.id));
                    }
                    let _ = self.request_manager.on_share(self.id, rid, share.duplicate());
                    assert(self.request_manager@ =~= reqs.insert(
                        pos,
                        EntryView {
                            id: rid,
                            expiry,
                            request: RequestView::LoadRackSecret {
                                rack_uuid,
                                threshold,
                                received: seq![(self.id, share@)],
                            },
                        },
                    ));
                    proof {
                        let t = self.config.rack_secret_request_timeout;
                        let e = EntryView {
                            id: rid,
                            expiry,
                            request: RequestView::LoadRackSecret {
                                rack_uuid,
                                threshold,
                                received: seq![(self.id, share@)],
                            },
                        };
                        lemma_links_insert(s, reqs, pos, e, t);
                        assert(self.request_manager@[pos].id == rid);
                        assert(tracks_load(self.request_manager@, rid, self.clock.saturating_add(t)));
                    }
                    let envelopes = get_share_envelopes(&self.peers, None, rid, rack_uuid);
                    (
                        RackSecretState::Collecting { request_id: rid, started: self.clock },
                        Output { persist: false, envelopes, api_output: None },
                    )
                }
            },
        }
    }

    /// Ask for the rack secret. A member that already has it returns it; one
    /// that does not starts collecting shares, seeded with its own, or, when
    /// a collection is already out, extends its timeout.
    pub fn load_rack_secret(&mut self) -> (r: Output)
        requires
            old(self).wf(),
        ensures
            final(self).wf(),
            old(self)@.state is Uninitialized ==> final(self)@ == old(self)@ && r@ == failure(
                ApiError::RackNotInitialized,
            ),
            old(self)@.state is Learning ==> final(self)@ == old(self)@ && r@ == failure(
                ApiError::StillLearning,
            ),
            is_member(old(self)@.state) ==> {
                let secret = member_secret(final(self)@.state);
                &&& final(self)@ == (FsmView {
                    state: with_secret(old(self)@.state, secret),
                    requests: final(self)@.requests,
                    ..old(self)@
                })
                &&& member_load(
                    old(self)@.id,
                    old(self)@.peers,
                    old(self)@.clock,
                    old(self)@.config.rack_secret_request_timeout,
                    member_pkg(old(self)@.state),
                    member_secret(old(self)@.state),
                    old(self)@.requests,
                    secret,
                    final(self)@.requests,
                    r@,
                )
            },
    {
        let mut st = State::Uninitialized;
        std::mem::swap(&mut self.state, &mut st);
        match st {
            State::Uninitialized => {
                self.state = st;
                Output::error(ApiError::RackNotInitialized)
            },
            State::Learning { attempt } => {
                self.state = State::Learning { attempt };
                Output::error(ApiError::StillLearning)
            },
            State::InitialMember { pkg, rack_init, rack_secret } => {
                let (rack_secret, out) = self.load_at_member(&pkg.share, pkg.rack_uuid, pkg.threshold, rack_secret, Ghost(old(self)@.state));
                self.state = State::InitialMember { pkg, rack_init, rack_secret };
                out
            },
            State::Learned { pkg, rack_secret } => {
                let (rack_secret, out) = self.load_at_member(&pkg.share, pkg.rack_uuid, pkg.threshold, rack_secret, Ghost(old(self)@.state));
                self.state = State::Learned { pkg, rack_secret };
                out
            },
        }
    }
    /// One tick of the logical clock. Requests whose expiry is now or
    /// earlier are abandoned, earliest first: a rack initialization or a
    /// rack-secret collection reports its timeout to the API caller, a
    /// collection for a learner is dropped. A learner whose attempt expired,
    /// or that had no peer to ask, asks a reachable peer again, another one
    /// than before if it can; when none is reachable, an expired attempt ends
    /// in `LearnTimeout`, and the first tick with a reachable peer asks it.
    /// Requests still in time are not sent again here: a peer that connects
    /// is sent what it still owes by `insert_peer`.
    pub fn tick(&mut self) -> (r: Output)
        requires
            old(self).wf(),
            old(self)@.clock < u64::MAX,
        ensures
            final(self).wf(),
            exists|k: int| #[trigger] tick_post(old(self)@, final(self)@, r@, k),
    {
        let ghost old_v = self@;
        proof {
            self.lemma_wf();
        }
        self.clock = self.clock + 1;
        let expired = self.request_manager.expired(self.clock);
        let ghost k = expired@.len() as int;
        let ghost rs = requests_of(old_v.requests.take(k));
        assert(rs =~= expired@.map_values(|t: TrackableRequest| t@));
        let mut any_i = false;
        let mut any_l = false;
        let mut i: usize = 0;
        assert(rs.take(0) =~= seq![]);
        while i < expired.len()
            invariant
                0 <= i <= expired@.len(),
                rs == expired@.map_values(|t: TrackableRequest| t@),
                any_i == any_init(rs.take(i as int)),
                any_l == any_load(rs.take(i as int)),
            decreases expired@.len() - i,
        {
            proof {
                lemma_any_step(rs, i as int);
                assert(rs[i as int] == expired@[i as int]@);
            }
            match &expired[i] {
                TrackableRequest::InitRack { .. } => any_i = true,
                TrackableRequest::LoadRackSecret { .. } => any_l = true,
                TrackableRequest::Learn { .. } => {},
            }
            i += 1;
        }
        assert(rs.take(expired@.len() as int) =~= rs);
        let mut api_output = if any_i && any_l {
            Some(Err(ApiError::RackInitAndSecretLoadTimeout))
        } else if any_i {
            Some(Err(ApiError::RackInitTimeout))
        } else if any_l {
            Some(Err(ApiError::RackSecretLoadTimeout))
        } else {
            None
        };
        let mut st = State::Uninitialized;
        std::mem::swap(&mut self.state, &mut st);
        let mut envelopes: Vec<Envelope> = Vec::new();
        match st {
            State::Uninitialized => {
                self.state = State::Uninitialized;
            },
            State::InitialMember { pkg, rack_init, rack_secret } => {
                let rack_init = if any_i {
                    None
                } else {
                    rack_init
                };
                let rack_secret = if any_l && matches!(rack_secret, RackSecretState::Collecting { .. }) {
                    RackSecretState::NotRequested
                } else {
                    rack_secret
                };
                self.state = State::InitialMember { pkg, rack_init, rack_secret };
            },
            State::Learned { pkg, rack_secret } => {
                let rack_secret = if any_l && matches!(rack_secret, RackSecretState::Collecting { .. }) {
                    RackSecretState::NotRequested
                } else {
                    rack_secret
                };
                self.state = State::Learned { pkg, rack_secret };
            },
            State::Learning { attempt } => {
                let (needed, previous) = match attempt {
                    None => (true, None),
                    Some(a) => (a.expiry <= self.clock, Some(a.peer)),
                };
                if needed {
                    let (next, out) = self.new_attempt(previous);
                    envelopes = out.envelopes;
                    if next.is_none() && previous.is_some() {
                        api_output = Some(Err(ApiError::LearnTimeout));
                    }
                    self.state = State::Learning { attempt: next };
                } else {
                    self.state = State::Learning { attempt };
                }
            },
        }
        let r = Output { persist: false, envelopes, api_output };
        proof {
            if !(old_v.state is Learning && needs_attempt(old_v.state->attempt, self.clock)) {
                assert(r@.envelopes =~= seq![]);
            }
            assert(tick_post(old_v, self@, r@, k));
            let t = self.config.rack_secret_request_timeout;
            assert forall|i: int| k <= i < old_v.requests.len() implies old_v.requests[i].expiry > self.clock by {
                assert(self@.requests[i - k] == old_v.requests[i]);
            }
            lemma_links_expire(old_v.state, old_v.requests, k, self.clock, t);
        }
        r
    }
    fn reply(to: PeerId, request_id: u128, type_: ResponseType) -> (r: Output)
        ensures
            r@ == send(to, Msg::Rsp(Response { request_id, type_ })@),
    {
        let mut envelopes: Vec<Envelope> = Vec::new();
        envelopes.push(Envelope { to, msg: Msg::Rsp(Response { request_id, type_ }) });
        let r = Output { persist: false, envelopes, api_output: None };
        assert(r@.envelopes =~= seq![(to, Msg::Rsp(Response { request_id, type_ })@)]);
        r
    }

    fn learn_at_member(
        &mut self,
        learner: PeerId,
        id: u128,
        share: &Share,
        rack_uuid: u128,
        threshold: u8,
        Ghost(s): Ghost<StateView>,
    ) -> (r: Output)
        requires
            old(self).core_wf(),
            is_member(s),
            state_links(s, old(self)@.requests, old(self)@.config.rack_secret_request_timeout),
        ensures
            final(self).core_wf(),
            state_links(s, final(self)@.requests, final(self)@.config.rack_secret_request_timeout),
            final(self)@.state == old(self)@.state,
            ({
                let pkg = PkgView { rack_uuid, threshold, share: share@ };
                let old = old(self)@;
                let new = final(self)@;
                let out = r@;
                let expiry = old.clock.saturating_add(old.config.learn_timeout);
                if pkg.threshold <= 1 {
                    new == old && out == report(
                        ApiOutputView::CombineLearnedPkg {
                            learner,
                            request_id: id,
                            rack_uuid: pkg.rack_uuid,
                            threshold: pkg.threshold,
                            shares: seq![(old.id, pkg.share)],
                        },
                    )
                } else {
                    exists|rid: u128|
                        {
                            &&& !has_id(old.requests, rid)
                            &&& new == (FsmView {
                                requests: old.requests.insert(
                                    sorted_pos(old.requests, expiry),
                                    EntryView {
                                        id: rid,
                                        expiry,
                                        request: RequestView::Learn {
                                            rack_uuid: pkg.rack_uuid,
                                            from: learner,
                                            threshold: pkg.threshold,
                                            received: seq![(old.id, pkg.share)],
                                        },
                                    },
                                ),
                                ..old
                            })
                            &&& out == (OutputView {
                                persist: false,
                                envelopes: get_share_msgs(old.peers, Some(learner), rid, pkg.rack_uuid),
                                api: None,
                            })
                        }
                }
            }),
    {
        if threshold <= 1 {
            let mut shares: Vec<(PeerId, Share)> = Vec::new();
            shares.push((self.id, share.duplicate()));
            let out = Output {
                persist: false,
                envelopes: Vec::new(),
                api_output: Some(
                    Ok(ApiOutput::CombineLearnedPkg { learner, request_id: id, rack_uuid, threshold, shares }),
                ),
            };
            assert(out@.envelopes =~= seq![]);
            assert(shares_view(shares@) =~= seq![(self.id, share@)]);
            return out;
        }
        let ghost old_v = self@;
        let ghost reqs = self.request_manager@;
        let ghost expiry = self.clock.saturating_add(self.config.learn_timeout);
        let rid = self.request_manager.new_learn(self.clock, rack_uuid, threshold, learner);
        let ghost s1 = self.request_manager@;
        let ghost pos = sorted_pos(reqs, expiry);
        proof {
            lemma_sorted_pos_range(reqs, expiry);
            assert(s1[pos].request == RequestView::Learn { rack_uuid, from: learner, threshold, received: seq![] });
            assert(!keys(Seq::<(PeerId, Seq<u8>)>::empty()).contains(self.id));
        }
        let _ = self.request_manager.on_share(self.id, rid, share.duplicate());
        let ghost e = EntryView {
            id: rid,
            expiry,
            request: RequestView::Learn {
                rack_uuid,
                from: learner,
                threshold,
                received: seq![(self.id, share@)],
            },
        };
        assert(self.request_manager@ =~= reqs.insert(pos, e));
        proof {
            lemma_links_insert(s, reqs, pos, e, self.config.rack_secret_request_timeout);
        }
        let envelopes = get_share_envelopes(&self.peers, Some(learner), rid, rack_uuid);
        let r = Output { persist: false, envelopes, api_output: None };
        assert(self@ == (FsmView { requests: reqs.insert(pos, e), ..old_v }));
        assert(r@ == (OutputView {
            persist: false,
            envelopes: get_share_msgs(old_v.peers, Some(learner), rid, rack_uuid),
            api: None,
        }));
        assert(!has_id(old_v.requests, rid));
        assert(self@.state == old_v.state);
        assert(old_v.requests == reqs);
        assert(expiry == old_v.clock.saturating_add(old_v.config.learn_timeout));
        r
    }

    fn handle_request(&mut self, from: PeerId, request: Request) -> (r: Output)
        requires
            old(self).wf(),
        ensures
            final(self).wf(),
            request_post(old(self)@, final(self)@, r@, from, Msg::Req(request)@),
    {
        let Request { id, type_ } = request;
        match type_ {
            RequestType::Init(pkg) => {
                if matches!(self.state, State::Uninitialized) {
                    self.state = State::InitialMember {
                        pkg,
                        rack_init: None,
                        rack_secret: RackSecretState::NotRequested,
                    };
                    let mut r = Self::reply(from, id, ResponseType::InitAck);
                    r.persist = true;
                    return r;
                }
                let same = match &self.state {
                    State::InitialMember { pkg: own, .. } => own.rack_uuid == pkg.rack_uuid,
                    _ => false,
                };
                if same {
                    Self::reply(from, id, ResponseType::InitAck)
                } else {
                    Output::none()
                }
            },
            RequestType::GetShare { rack_uuid } => {
                let share = match &self.state {
                    State::InitialMember { pkg, .. } => if pkg.rack_uuid == rack_uuid {
                        Some(pkg.share.duplicate())
                    } else {
                        None
                    },
                    State::Learned { pkg, .. } => if pkg.rack_uuid == rack_uuid {
                        Some(pkg.share.duplicate())
                    } else {
                        None
                    },
                    _ => None,
                };
                match share {
                    Some(share) => Self::reply(from, id, ResponseType::Share(share)),
                    None => Output::none(),
                }
            },
            RequestType::Learn => {
                let mut st = State::Uninitialized;
                std::mem::swap(&mut self.state, &mut st);
                let r = match &st {
                    State::InitialMember { pkg, .. } => self.learn_at_member(
                        from,
                        id,
                        &pkg.share,
                        pkg.rack_uuid,
                        pkg.threshold,
                        Ghost(old(self)@.state),
                    ),
                    State::Learned { pkg, .. } => self.learn_at_member(
                        from,
                        id,
                        &pkg.share,
                        pkg.rack_uuid,
                        pkg.threshold,
                        Ghost(old(self)@.state),
                    ),
                    _ => Output::none(),
                };
                self.state = st;
                r
            },
        }
    }

    fn set_combining(&mut self)
        requires
            old(self).core_wf(),
        ensures
            final(self).core_wf(),
            final(self)@ == (FsmView {
                state: with_secret(old(self)@.state, SecretView::Combining),
                ..old(self)@
            }),
    {
        let mut st = State::Uninitialized;
        std::mem::swap(&mut self.state, &mut st);
        self.state = match st {
            State::InitialMember { pkg, rack_init, .. } => State::InitialMember {
                pkg,
                rack_init,
                rack_secret: RackSecretState::Combining,
            },
            State::Learned { pkg, .. } => State::Learned { pkg, rack_secret: RackSecretState::Combining },
            other => other,
        };
    }

    fn handle_response(&mut self, from: PeerId, response: Response) -> (r: Output)
        requires
            old(self).wf(),
        ensures
            final(self).wf(),
            response_post(old(self)@, final(self)@, r@, from, Msg::Rsp(response)@),
    {
        let ghost old_v = self@;
        let ghost m = Msg::Rsp(response)@;
        proof {
            self.lemma_wf();
        }
        let Response { request_id, type_ } = response;
        let r = match type_ {
            ResponseType::InitAck => {
                if self.request_manager.on_init_ack(from, request_id) {
                    let mut st = State::Uninitialized;
                    std::mem::swap(&mut self.state, &mut st);
                    self.state = match st {
                        State::InitialMember { pkg, rack_secret, .. } => State::InitialMember {
                            pkg,
                            rack_init: None,
                            rack_secret,
                        },
                        other => other,
                    };
                    let r = Output {
                        persist: false,
                        envelopes: Vec::new(),
                        api_output: Some(Ok(ApiOutput::RackInitComplete)),
                    };
                    assert(r@.envelopes =~= seq![]);
                    r
                } else {
                    Output::none()
                }
            },
            ResponseType::Share(share) => {
                match self.request_manager.on_share(from, request_id, share) {
                    None => Output::none(),
                    Some(TrackableRequest::LoadRackSecret { rack_uuid, acks }) => {
                        self.set_combining();
                        let r = Output {
                            persist: false,
                            envelopes: Vec::new(),
                            api_output: Some(
                                Ok(
                                    ApiOutput::CombineRackSecret {
                                        rack_uuid,
                                        threshold: acks.threshold,
                                        shares: acks.received,
                                    },
                                ),
                            ),
                        };
                        assert(r@.envelopes =~= seq![]);
                        r
                    },
                    Some(TrackableRequest::Learn { rack_uuid, from: learner, acks }) => {
                        let r = Output {
                            persist: false,
                            envelopes: Vec::new(),
                            api_output: Some(
                                Ok(
                                    ApiOutput::CombineLearnedPkg {
                                        learner,
                                        request_id,
                                        rack_uuid,
                                        threshold: acks.threshold,
                                        shares: acks.received,
                                    },
                                ),
                            ),
                        };
                        assert(r@.envelopes =~= seq![]);
                        r
                    },
                    Some(TrackableRequest::InitRack { .. }) => Output::none(),
                }
            },
            ResponseType::LearnPkg(pkg) => {
                if matches!(self.state, State::Learning { .. }) {
                    self.state = State::Learned { pkg, rack_secret: RackSecretState::NotRequested };
                    let r = Output {
                        persist: true,
                        envelopes: Vec::new(),
                        api_output: Some(Ok(ApiOutput::LearningCompleted)),
                    };
                    assert(r@.envelopes =~= seq![]);
                    r
                } else {
                    Output::none()
                }
            },
        };
        proof {
            assert(response_post(old_v, self@, r@, from, m));
            lemma_response_links(old_v, self@, r@, from, m, self.config.rack_secret_request_timeout);
        }
        r
    }

    /// Handle a message from `from`. The state must be persisted, when the
    /// output asks for it, before the next event or any envelope is sent.
    /// Stale or duplicate messages are dropped, never treated as errors.
    pub fn handle(&mut self, from: PeerId, msg: Msg) -> (r: Output)
        requires
            old(self).wf(),
        ensures
            final(self).wf(),
            handle_post(old(self)@, final(self)@, r@, from, msg@),
    {
        match msg {
            Msg::Req(req) => self.handle_request(from, req),
            Msg::Rsp(rsp) => self.handle_response(from, rsp),
        }
    }

    /// The driver's result of combining the shares that a rack-secret
    /// collection handed over.
    pub fn rack_secret_combined(&mut self, result: Result<RackSecret, String>) -> (r: Output)
        requires
            old(self).wf(),
        ensures
            final(self).wf(),
            !(is_member(old(self)@.state) && member_secret(old(self)@.state) is Combining) ==> final(self)@
                == old(self)@ && r@ == quiet(),
            is_member(old(self)@.state) && member_secret(old(self)@.state) is Combining ==> match result {
                Ok(x) => final(self)@ == (FsmView {
                    state: with_secret(old(self)@.state, SecretView::Resolved(x@)),
                    ..old(self)@
                }) && r@ == report(ApiOutputView::RackSecret(x@)),
                Err(e) => final(self)@ == (FsmView {
                    state: with_secret(old(self)@.state, SecretView::NotRequested),
                    ..old(self)@
                }) && r@ == failure(ApiError::RackSecretCombineFailed(e)),
            },
    {
        let combining = match &self.state {
            State::InitialMember { rack_secret, .. } => matches!(rack_secret, RackSecretState::Combining),
            State::Learned { rack_secret, .. } => matches!(rack_secret, RackSecretState::Combining),
            _ => false,
        };
        if !combining {
            return Output::none();
        }
        let (secret, r) = match result {
            Ok(x) => {
                let copy = x.duplicate();
                let r = Output {
                    persist: false,
                    envelopes: Vec::new(),
                    api_output: Some(Ok(ApiOutput::RackSecret(copy))),
                };
                assert(r@.envelopes =~= seq![]);
                (RackSecretState::Resolved(x), r)
            },
            Err(e) => (RackSecretState::NotRequested, Output::error(ApiError::RackSecretCombineFailed(e))),
        };
        let mut st = State::Uninitialized;
        std::mem::swap(&mut self.state, &mut st);
        self.state = match st {
            State::InitialMember { pkg, rack_init, .. } => State::InitialMember { pkg, rack_init, rack_secret: secret },
            State::Learned { pkg, .. } => State::Learned { pkg, rack_secret: secret },
            other => other,
        };
        r
    }

    /// The driver's package for `learner`, derived from the shares that a
    /// learn collection handed over; it goes to the learner as the answer to
    /// `request_id`.
    pub fn learned_pkg_combined(&mut self, learner: PeerId, request_id: u128, pkg: LearnedSharePkg) -> (r:
        Output)
        requires
            old(self).wf(),
        ensures
            final(self).wf(),
            final(self)@ == old(self)@,
            is_member(old(self)@.state) ==> r@ == send(learner, MsgView::LearnPkg { request_id, pkg: pkg@ }),
            !is_member(old(self)@.state) ==> r@ == quiet(),
    {
        if matches!(self.state, State::InitialMember { .. } | State::Learned { .. }) {
            Self::reply(learner, request_id, ResponseType::LearnPkg(pkg))
        } else {
            Output::none()
        }
    }
}

} // verus!
