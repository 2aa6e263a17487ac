//! Tracking of in-flight multi-party exchanges.
//!
//! Rack initialization, rack-secret loading and learning all follow one
//! pattern: a request goes to several peers, and the exchange completes once
//! enough of them have answered, or expires. The manager keeps each request
//! together with its expiry in one vector ordered by expiry, earliest first,
//! so the expiry index and the set of request ids can never disagree.

use vstd::prelude::*;
use crate::messages::{Envelope, Msg, MsgView, PeerId, PkgView, Request, RequestType, SharePkg};
use crate::secret::Share;

verus! {

/// Timeouts of the state machine, in ticks.
#[derive(Clone, Copy, Debug, PartialEq, Eq, Structural)]
pub struct Config {
    pub learn_timeout: u64,
    pub rack_init_timeout: u64,
    pub rack_secret_request_timeout: u64,
}

/// Relies on uuid's `Uuid::new_v4` and `Uuid::as_u128`: the 128 bits of a
/// random version-4 UUID. Nothing is promised of the value.
#[verifier::external_body]
pub(crate) fn random_request_id() -> (r: u128) {
    uuid::Uuid::new_v4().as_u128()
}

/// Acknowledgement tracking for rack initialization.
pub struct InitAcks {
    /// The peers that must acknowledge.
    pub expected: Vec<PeerId>,
    /// The expected peers that have acknowledged so far.
    pub received: Vec<PeerId>,
}

/// Share collection for loading the rack secret and for learning.
pub struct ShareAcks {
    /// How many distinct peers' shares complete the collection.
    pub threshold: u8,
    /// The shares received so far, at most one per peer.
    pub received: Vec<(PeerId, Share)>,
}

impl ShareAcks {
    pub fn new(threshold: u8) -> (r: ShareAcks)
        ensures
            r.threshold == threshold,
            r.received@.len() == 0,
    {
        ShareAcks { threshold, received: Vec::new() }
    }
}

/// One in-flight exchange.
#[allow(inconsistent_fields)]
pub enum TrackableRequest {
    /// Rack initialization started by the local API caller; only the
    /// initializing peer holds one.
    InitRack { rack_uuid: u128, packages: Vec<(PeerId, SharePkg)>, acks: InitAcks },
    /// Loading of the rack secret asked for by the local API caller.
    LoadRackSecret { rack_uuid: u128, acks: ShareAcks },
    /// Collection of shares on behalf of `from`, a peer that joined late.
    Learn { rack_uuid: u128, from: PeerId, acks: ShareAcks },
}

/// An exchange, as plain values.
#[allow(inconsistent_fields)]
pub ghost enum RequestView {
    InitRack {
        rack_uuid: u128,
        packages: Seq<(PeerId, PkgView)>,
        expected: Seq<PeerId>,
        received: Seq<PeerId>,
    },
    LoadRackSecret { rack_uuid: u128, threshold: u8, received: Seq<(PeerId, Seq<u8>)> },
    Learn { rack_uuid: u128, from: PeerId, threshold: u8, received: Seq<(PeerId, Seq<u8>)> },
}

pub open spec fn shares_view(s: Seq<(PeerId, Share)>) -> Seq<(PeerId, Seq<u8>)> {
    s.map_values(|p: (PeerId, Share)| (p.0, p.1@))
}

pub open spec fn packages_view(s: Seq<(PeerId, SharePkg)>) -> Seq<(PeerId, PkgView)> {
    s.map_values(|p: (PeerId, SharePkg)| (p.0, p.1@))
}

/// The peers of a sequence of pairs keyed by peer.
pub open spec fn keys<V>(s: Seq<(PeerId, V)>) -> Seq<PeerId> {
    s.map_values(|p: (PeerId, V)| p.0)
}

impl View for TrackableRequest {
    type V = RequestView;

    open spec fn view(&self) -> RequestView {
        match self {
            TrackableRequest::InitRack { rack_uuid, packages, acks } => RequestView::InitRack {
                rack_uuid: *rack_uuid,
                packages: packages_view(packages@),
                expected: acks.expected@,
                received: acks.received@,
            },
            TrackableRequest::LoadRackSecret { rack_uuid, acks } => RequestView::LoadRackSecret {
                rack_uuid: *rack_uuid,
                threshold: acks.threshold,
                received: shares_view(acks.received@),
            },
            TrackableRequest::Learn { rack_uuid, from, acks } => RequestView::Learn {
                rack_uuid: *rack_uuid,
                from: *from,
                threshold: acks.threshold,
                received: shares_view(acks.received@),
            },
        }
    }
}

/// A request's own consistency: keys are unique, and only expected peers are
/// recorded as having acknowledged.
pub open spec fn request_wf(r: RequestView) -> bool {
    match r {
        RequestView::InitRack { packages, expected, received, .. } => {
            &&& keys(packages).no_duplicates()
            &&& expected == keys(packages)
            &&& received.no_duplicates()
            &&& received.to_set().subset_of(expected.to_set())
        },
        RequestView::LoadRackSecret { received, .. } => keys(received).no_duplicates(),
        RequestView::Learn { received, .. } => keys(received).no_duplicates(),
    }
}

/// A tracked request with its id and the tick at which it expires.
pub struct TrackedRequest {
    pub id: u128,
    pub expiry: u64,
    pub request: TrackableRequest,
}

pub ghost struct EntryView {
    pub id: u128,
    pub expiry: u64,
    pub request: RequestView,
}

impl View for TrackedRequest {
    type V = EntryView;

    open spec fn view(&self) -> EntryView {
        EntryView { id: self.id, expiry: self.expiry, request: self.request@ }
    }
}

/// Ids are unique, expiries ascend, and each request is consistent.
pub open spec fn entries_wf(s: Seq<EntryView>) -> bool {
    &&& forall|i: int, j: int| 0 <= i < j < s.len() ==> s[i].id != s[j].id
    &&& forall|i: int, j: int| 0 <= i <= j < s.len() ==> s[i].expiry <= s[j].expiry
    &&& forall|i: int| 0 <= i < s.len() ==> request_wf(#[trigger] s[i].request)
}

pub open spec fn has_id(s: Seq<EntryView>, id: u128) -> bool {
    exists|i: int| 0 <= i < s.len() && s[i].id == id
}

/// Where the request with this id stands, or -1.
pub open spec fn index_of(s: Seq<EntryView>, id: u128) -> int {
    if has_id(s, id) {
        choose|i: int| 0 <= i < s.len() && s[i].id == id
    } else {
        -1
    }
}

/// Where an entry expiring at `expiry` goes: just after the last entry that
/// expires no later.
pub open spec fn sorted_pos(s: Seq<EntryView>, expiry: u64) -> int
    decreases s.len(),
{
    if s.len() == 0 {
        0
    } else if s.last().expiry <= expiry {
        s.len() as int
    } else {
        sorted_pos(s.drop_last(), expiry)
    }
}

/// The acknowledgers after `from` acknowledges: only an expected peer counts,
/// and only once.
pub open spec fn acks_after(expected: Seq<PeerId>, received: Seq<PeerId>, from: PeerId) -> Seq<
    PeerId,
> {
    if expected.contains(from) && !received.contains(from) {
        received.push(from)
    } else {
        received
    }
}

/// Whether the acknowledgement of `from` to request `id` completes a rack
/// initialization.
pub open spec fn init_ack_completes(s: Seq<EntryView>, from: PeerId, id: u128) -> bool {
    let i = index_of(s, id);
    i >= 0 && match s[i].request {
        RequestView::InitRack { expected, received, .. } => acks_after(
            expected,
            received,
            from,
        ).to_set() == expected.to_set(),
        _ => false,
    }
}

/// The tracked requests after `from` acknowledges request `id`.
pub open spec fn after_init_ack(s: Seq<EntryView>, from: PeerId, id: u128) -> Seq<EntryView> {
    let i = index_of(s, id);
    if i < 0 {
        s
    } else {
        match s[i].request {
            RequestView::InitRack { rack_uuid, packages, expected, received } => {
                if init_ack_completes(s, from, id) {
                    s.remove(i)
                } else {
                    s.update(
                        i,
                        EntryView {
                            request: RequestView::InitRack {
                                rack_uuid,
                                packages,
                                expected,
                                received: acks_after(expected, received, from),
                            },
                            ..s[i]
                        },
                    )
                }
            },
            _ => s,
        }
    }
}

pub open spec fn is_share_request(r: RequestView) -> bool {
    !(r is InitRack)
}

/// The shares after `from` hands in `share`, keyed by peer: the share of a
/// peer already heard from is replaced, and the peer is not counted again.
pub open spec fn shares_after(received: Seq<(PeerId, Seq<u8>)>, from: PeerId, share: Seq<u8>) -> Seq<
    (PeerId, Seq<u8>),
> {
    if keys(received).contains(from) {
        received.map_values(
            |p: (PeerId, Seq<u8>)|
                if p.0 == from {
                    (from, share)
                } else {
                    p
                },
        )
    } else {
        received.push((from, share))
    }
}

pub open spec fn with_share(r: RequestView, from: PeerId, share: Seq<u8>) -> RequestView {
    match r {
        RequestView::LoadRackSecret { rack_uuid, threshold, received } => RequestView::LoadRackSecret {
            rack_uuid,
            threshold,
            received: shares_after(received, from, share),
        },
        RequestView::Learn { rack_uuid, from: learner, threshold, received } => RequestView::Learn {
            rack_uuid,
            from: learner,
            threshold,
            received: shares_after(received, from, share),
        },
        RequestView::InitRack { .. } => r,
    }
}

/// A share collection holds shares of at least its threshold of peers.
pub open spec fn threshold_met(r: RequestView) -> bool {
    match r {
        RequestView::LoadRackSecret { threshold, received, .. } => received.len() >= threshold,
        RequestView::Learn { threshold, received, .. } => received.len() >= threshold,
        RequestView::InitRack { .. } => false,
    }
}

/// The package for `peer` among `packages`.
pub open spec fn package_for(packages: Seq<(PeerId, PkgView)>, peer: PeerId) -> PkgView
    decreases packages.len(),
{
    if packages.len() == 0 {
        arbitrary()
    } else if packages.last().0 == peer {
        packages.last().1
    } else {
        package_for(packages.drop_last(), peer)
    }
}

pub proof fn lemma_sorted_pos_range(s: Seq<EntryView>, expiry: u64)
    ensures
        0 <= sorted_pos(s, expiry) <= s.len(),
    decreases s.len(),
{
    if s.len() > 0 {
        lemma_sorted_pos_range(s.drop_last(), expiry);
    }
}

pub proof fn lemma_package_for(packages: Seq<(PeerId, PkgView)>, peer: PeerId, i: int)
    requires
        keys(packages).no_duplicates(),
        0 <= i < packages.len(),
        packages[i].0 == peer,
    ensures
        package_for(packages, peer) == packages[i].1,
    decreases packages.len(),
{
    let n = packages.len() - 1;
    if i != n {
        assert(keys(packages)[i] != keys(packages)[n]);
        assert(keys(packages.drop_last()) =~= keys(packages).drop_last());
        lemma_package_for(packages.drop_last(), peer, i);
    }
}

/// What a request asks of `peer` when `peer` connects: what it still owes.
pub open spec fn resend_for(e: EntryView, peer: PeerId) -> Seq<(PeerId, MsgView)> {
    match e.request {
        RequestView::InitRack { packages, received, .. } => {
            if !received.contains(peer) && keys(packages).contains(peer) {
                seq![(peer, MsgView::Init { id: e.id, pkg: package_for(packages, peer) })]
            } else {
                seq![]
            }
        },
        RequestView::LoadRackSecret { rack_uuid, received, .. } => {
            if !keys(received).contains(peer) {
                seq![(peer, MsgView::GetShare { id: e.id, rack_uuid })]
            } else {
                seq![]
            }
        },
        RequestView::Learn { rack_uuid, received, .. } => {
            if !keys(received).contains(peer) {
                seq![(peer, MsgView::GetShare { id: e.id, rack_uuid })]
            } else {
                seq![]
            }
        },
    }
}

pub open spec fn resends(s: Seq<EntryView>, peer: PeerId) -> Seq<(PeerId, MsgView)>
    decreases s.len(),
{
    if s.len() == 0 {
        seq![]
    } else {
        resends(s.drop_last(), peer) + resend_for(s.last(), peer)
    }
}

/// The tracked requests once request `id` is moved to expire at `expiry`.
pub open spec fn set_expiry_result(s: Seq<EntryView>, id: u128, expiry: u64) -> Seq<EntryView> {
    let i = index_of(s, id);
    if i < 0 {
        s
    } else {
        s.remove(i).insert(sorted_pos(s.remove(i), expiry), EntryView { expiry, ..s[i] })
    }
}

pub open spec fn requests_of(s: Seq<EntryView>) -> Seq<RequestView> {
    s.map_values(|e: EntryView| e.request)
}

/// Manages all in-flight requests of one peer: expiry, acknowledgement and
/// retries. Very few are expected at a time.
pub struct RequestManager {
    config: Config,
    requests: Vec<TrackedRequest>,
}

impl View for RequestManager {
    type V = Seq<EntryView>;

    closed spec fn view(&self) -> Seq<EntryView> {
        self.requests@.map_values(|t: TrackedRequest| t@)
    }
}

/// Whether `p` is among `v`.
pub fn peers_contain(v: &Vec<PeerId>, p: PeerId) -> (r: bool)
    ensures
        r == v@.contains(p),
{
    let mut i: usize = 0;
    while i < v.len()
        invariant
            0 <= i <= v@.len(),
            forall|j: int| 0 <= j < i ==> v@[j] != p,
        decreases v@.len() - i,
    {
        if v[i] == p {
            return true;
        }
        i += 1;
    }
    false
}

/// Where the package of `p` stands among `v`.
fn find_package(v: &Vec<(PeerId, SharePkg)>, p: PeerId) -> (r: Option<usize>)
    requires
        keys(packages_view(v@)).no_duplicates(),
    ensures
        r is None ==> !keys(packages_view(v@)).contains(p),
        r is Some ==> r.unwrap() < v@.len(),
        r is Some ==> v@[r.unwrap() as int].0 == p,
        r is Some ==> keys(packages_view(v@)).contains(p),
        r is Some ==> package_for(packages_view(v@), p) == v@[r.unwrap() as int].1@,
{
    let mut i: usize = 0;
    while i < v.len()
        invariant
            0 <= i <= v@.len(),
            keys(packages_view(v@)).no_duplicates(),
            forall|j: int| 0 <= j < i ==> v@[j].0 != p,
        decreases v@.len() - i,
    {
        if v[i].0 == p {
            proof {
                let pk = packages_view(v@);
                assert(keys(pk)[i as int] == p);
                assert(pk[i as int].1 == v@[i as int].1@);
                assert(keys(pk).contains(p));
                lemma_package_for(pk, p, i as int);
            }
            return Some(i);
        }
        i += 1;
    }
    None
}

proof fn lemma_acks_complete(expected: Seq<PeerId>, received: Seq<PeerId>)
    requires
        expected.no_duplicates(),
        received.no_duplicates(),
        received.to_set().subset_of(expected.to_set()),
    ensures
        (received.len() == expected.len()) == (received.to_set() == expected.to_set()),
{
    broadcast use vstd::seq_lib::seq_to_set_is_finite;
    expected.unique_seq_to_set();
    received.unique_seq_to_set();
    if received.len() == expected.len() {
        vstd::set_lib::lemma_subset_equality(received.to_set(), expected.to_set());
    }
}

proof fn lemma_insert_wf(s: Seq<EntryView>, p: int, e: EntryView)
    requires
        entries_wf(s),
        0 <= p <= s.len(),
        !has_id(s, e.id),
        request_wf(e.request),
        forall|j: int| 0 <= j < p ==> #[trigger] s[j].expiry <= e.expiry,
        forall|j: int| p <= j < s.len() ==> #[trigger] s[j].expiry > e.expiry,
    ensures
        entries_wf(s.insert(p, e)),
{
    let t = s.insert(p, e);
    assert forall|i: int, j: int| 0 <= i < j < t.len() implies t[i].id != t[j].id by {
        if i == p {
            assert(t[j] == s[j - 1]);
        } else if j == p {
            assert(t[i] == s[i]);
        } else {
            let si = if i < p { i } else { i - 1 };
            let sj = if j < p { j } else { j - 1 };
            assert(t[i] == s[si] && t[j] == s[sj]);
        }
    }
    assert forall|i: int, j: int| 0 <= i <= j < t.len() implies t[i].expiry <= t[j].expiry by {
        let si = if i < p { i } else { i - 1 };
        let sj = if j < p { j } else { j - 1 };
        if i == p && j == p {
        } else if i == p {
            assert(t[j] == s[sj]);
        } else if j == p {
            assert(t[i] == s[si]);
        } else {
            assert(t[i] == s[si] && t[j] == s[sj]);
        }
    }
    assert forall|i: int| 0 <= i < t.len() implies request_wf(#[trigger] t[i].request) by {
        if i < p {
            assert(t[i] == s[i]);
        } else if i > p {
            assert(t[i] == s[i - 1]);
        }
    }
}

/// With unique ids, the entry found by id is the one at hand.
pub proof fn lemma_index_of(s: Seq<EntryView>, i: int)
    requires
        entries_wf(s),
        0 <= i < s.len(),
    ensures
        has_id(s, s[i].id),
        index_of(s, s[i].id) == i,
{
    assert(has_id(s, s[i].id));
}

proof fn lemma_remove_wf(s: Seq<EntryView>, i: int)
    requires
        entries_wf(s),
        0 <= i < s.len(),
    ensures
        entries_wf(s.remove(i)),
{
    let t = s.remove(i);
    assert forall|a: int, b: int| 0 <= a < b < t.len() implies t[a].id != t[b].id by {
        let sa = if a < i { a } else { a + 1 };
        let sb = if b < i { b } else { b + 1 };
        assert(t[a] == s[sa] && t[b] == s[sb]);
    }
    assert forall|a: int, b: int| 0 <= a <= b < t.len() implies t[a].expiry <= t[b].expiry by {
        let sa = if a < i { a } else { a + 1 };
        let sb = if b < i { b } else { b + 1 };
        assert(t[a] == s[sa] && t[b] == s[sb]);
    }
    assert forall|a: int| 0 <= a < t.len() implies request_wf(#[trigger] t[a].request) by {
        let sa = if a < i { a } else { a + 1 };
        assert(t[a] == s[sa]);
    }
}

proof fn lemma_update_wf(s: Seq<EntryView>, i: int, e: EntryView)
    requires
        entries_wf(s),
        0 <= i < s.len(),
        e.id == s[i].id,
        e.expiry == s[i].expiry,
        request_wf(e.request),
    ensures
        entries_wf(s.update(i, e)),
{
    let t = s.update(i, e);
    assert forall|a: int, b: int| 0 <= a < b < t.len() implies t[a].id != t[b].id by {
        assert(t[a].id == s[a].id && t[b].id == s[b].id);
    }
    assert forall|a: int, b: int| 0 <= a <= b < t.len() implies t[a].expiry <= t[b].expiry by {
        assert(t[a].expiry == s[a].expiry && t[b].expiry == s[b].expiry);
    }
}

pub proof fn lemma_push_new(s: Seq<PeerId>, x: PeerId)
    requires
        s.no_duplicates(),
        !s.contains(x),
    ensures
        s.push(x).no_duplicates(),
        s.push(x).to_set() == s.to_set().insert(x),
{
    let t = s.push(x);
    assert forall|a: int, b: int| 0 <= a < t.len() && 0 <= b < t.len() && a != b implies t[a] != t[b] by {
        if a == s.len() {
            assert(t[b] == s[b]);
        } else if b == s.len() {
            assert(t[a] == s[a]);
        } else {
            assert(t[a] == s[a] && t[b] == s[b]);
        }
    }
    assert forall|y: PeerId| t.to_set().contains(y) == s.to_set().insert(x).contains(y) by {
        if t.contains(y) && y != x {
            let k = choose|k: int| 0 <= k < t.len() && t[k] == y;
            assert(s[k] == y);
        }
        if s.contains(y) {
            let k = choose|k: int| 0 <= k < s.len() && s[k] == y;
            assert(t[k] == y);
        }
        if y == x {
            assert(t[s.len() as int] == x);
        }
    }
    assert(t.to_set() =~= s.to_set().insert(x));
}

/// Where the share of `p` stands among `v`.
fn find_share(v: &Vec<(PeerId, Share)>, p: PeerId) -> (r: Option<usize>)
    ensures
        r is None ==> !keys(shares_view(v@)).contains(p),
        r is Some ==> r.unwrap() < v@.len() && v@[r.unwrap() as int].0 == p,
        r is Some ==> keys(shares_view(v@)).contains(p),
{
    let mut i: usize = 0;
    while i < v.len()
        invariant
            0 <= i <= v@.len(),
            forall|j: int| 0 <= j < i ==> v@[j].0 != p,
        decreases v@.len() - i,
    {
        if v[i].0 == p {
            assert(keys(shares_view(v@))[i as int] == p);
            return Some(i);
        }
        i += 1;
    }
    None
}

/// Add the share of `from`, or replace it if `from` was already heard from.
fn add_share(acks: &mut ShareAcks, from: PeerId, share: Share)
    requires
        keys(shares_view(old(acks).received@)).no_duplicates(),
    ensures
        final(acks).threshold == old(acks).threshold,
        shares_view(final(acks).received@) == shares_after(shares_view(old(acks).received@), from, share@),
        keys(shares_view(final(acks).received@)).no_duplicates(),
{
    let ghost old_received = shares_view(acks.received@);
    let ghost k0 = keys(old_received);
    match find_share(&acks.received, from) {
        None => {
            acks.received.push((from, share));
            proof {
                let k1 = keys(shares_view(acks.received@));
                assert(k1 =~= k0.push(from));
                assert(shares_view(acks.received@) =~= old_received.push((from, share@)));
                lemma_push_new(k0, from);
            }
        },
        Some(i) => {
            let ghost sv = share@;
            acks.received.remove(i);
            acks.received.insert(i, (from, share));
            proof {
                assert(k0[i as int] == from);
                let after = shares_view(acks.received@);
                let expected = old_received.map_values(
                    |p: (PeerId, Seq<u8>)|
                        if p.0 == from {
                            (from, sv)
                        } else {
                            p
                        },
                );
                assert forall|j: int| 0 <= j < after.len() implies after[j] == expected[j] by {
                    if j != i {
                        assert(k0[j] != k0[i as int]);
                    }
                }
                assert(after =~= expected);
                assert(keys(after) =~= k0);
            }
        },
    }
}

impl RequestManager {
    pub open spec fn wf(&self) -> bool {
        entries_wf(self@)
    }

    pub closed spec fn cfg(&self) -> Config {
        self.config
    }

    pub fn new(config: Config) -> (r: RequestManager)
        ensures
            r.wf(),
            r@.len() == 0,
            r.cfg() == config,
    {
        RequestManager { config, requests: Vec::new() }
    }

    pub fn config(&self) -> (r: Config)
        ensures
            r == self.cfg(),
    {
        self.config
    }

    /// The number of requests in flight.
    pub fn len(&self) -> (r: usize)
        ensures
            r == self@.len(),
    {
        self.requests.len()
    }

    fn find(&self, id: u128) -> (r: Option<usize>)
        requires
            self.wf(),
        ensures
            r is Some ==> r.unwrap() as int == index_of(self@, id) && r.unwrap() < self@.len()
                && has_id(self@, id),
            r is None ==> !has_id(self@, id) && index_of(self@, id) == -1,
    {
        let mut i: usize = 0;
        while i < self.requests.len()
            invariant
                0 <= i <= self.requests@.len(),
                self.wf(),
                forall|j: int| 0 <= j < i ==> self@[j].id != id,
            decreases self.requests@.len() - i,
        {
            if self.requests[i].id == id {
                proof {
                    assert(self@[i as int].id == id);
                    assert(has_id(self@, id));
                }
                return Some(i);
            }
            i += 1;
        }
        None
    }

    /// An id that no tracked request has. A random one is drawn first; should
    /// it be taken, the least free id is used.
    fn fresh_id(&self) -> (r: u128)
        requires
            self.wf(),
        ensures
            !has_id(self@, r),
    {
        let drawn = random_request_id();
        if self.find(drawn).is_none() {
            return drawn;
        }
        let n = self.requests.len();
        let mut c: u128 = 0;
        while c <= n as u128
            invariant
                self.wf(),
                n == self@.len(),
                c <= n as u128 + 1,
                forall|k: u128| k < c ==> #[trigger] has_id(self@, k),
            decreases n as u128 + 1 - c,
        {
            if self.find(c).is_none() {
                return c;
            }
            c = c + 1;
        }
        proof {
            broadcast use vstd::seq_lib::seq_to_set_is_finite;
            let ids = self@.map_values(|e: EntryView| e.id as int);
            let range = vstd::set_lib::set_int_range(0, n + 1);
            assert forall|k: int| range.contains(k) implies ids.to_set().contains(k) by {
                assert(has_id(self@, k as u128));
                let i = choose|i: int| 0 <= i < self@.len() && self@[i].id == k as u128;
                assert(ids[i] == k);
            }
            vstd::set_lib::lemma_int_range(0, n + 1);
            vstd::set_lib::lemma_len_subset(range, ids.to_set());
            ids.lemma_cardinality_of_set();
        }
        0
    }

    fn insert_entry(&mut self, entry: TrackedRequest)
        requires
            old(self).wf(),
            !has_id(old(self)@, entry.id),
            request_wf(entry.request@),
        ensures
            final(self).wf(),
            final(self).cfg() == old(self).cfg(),
            final(self)@ == old(self)@.insert(sorted_pos(old(self)@, entry.expiry), entry@),
    {
        let ghost s = self@;
        let x = entry.expiry;
        let mut p = self.requests.len();
        assert(s.take(p as int) =~= s);
        while p > 0 && self.requests[p - 1].expiry > x
            invariant
                self@ == s,
                p <= s.len(),
                s.len() == self.requests@.len(),
                sorted_pos(s, x) == sorted_pos(s.take(p as int), x),
                forall|j: int| p <= j < s.len() ==> #[trigger] s[j].expiry > x,
            decreases p,
        {
            assert(s.take(p as int).drop_last() =~= s.take(p - 1));
            assert(s[p - 1] == self.requests@[p - 1]@);
            p -= 1;
        }
        proof {
            if p > 0 {
                assert(s[p - 1] == self.requests@[p - 1]@);
                assert(s.take(p as int).last() == s[p - 1]);
                assert(forall|j: int| 0 <= j < p ==> #[trigger] s[j].expiry <= s[p - 1].expiry);
            } else {
                assert(s.take(0) =~= Seq::<EntryView>::empty());
            }
            lemma_insert_wf(s, p as int, entry@);
        }
        self.requests.insert(p, entry);
        assert(self@ =~= s.insert(p as int, entry@));
    }

    fn new_request(&mut self, expiry: u64, request: TrackableRequest) -> (r: u128)
        requires
            old(self).wf(),
            request_wf(request@),
        ensures
            final(self).wf(),
            final(self).cfg() == old(self).cfg(),
            !has_id(old(self)@, r),
            final(self)@ == old(self)@.insert(
                sorted_pos(old(self)@, expiry),
                EntryView { id: r, expiry, request: request@ },
            ),
            index_of(final(self)@, r) == sorted_pos(old(self)@, expiry),
    {
        let id = self.fresh_id();
        let ghost s = self@;
        self.insert_entry(TrackedRequest { id, expiry, request });
        proof {
            let pos = sorted_pos(s, expiry);
            assert(0 <= pos <= s.len()) by {
                lemma_sorted_pos_range(s, expiry);
            }
            assert(self@[pos].id == id);
            lemma_index_of(self@, pos);
        }
        id
    }

    /// Track a rack initialization that hands each peer of `packages` its
    /// package; every one of them must acknowledge.
    pub fn new_init_rack(
        &mut self,
        now: u64,
        rack_uuid: u128,
        packages: Vec<(PeerId, SharePkg)>,
    ) -> (r: u128)
        requires
            old(self).wf(),
            keys(packages_view(packages@)).no_duplicates(),
        ensures
            final(self).wf(),
            final(self).cfg() == old(self).cfg(),
            !has_id(old(self)@, r),
            ({
                let expiry = now.saturating_add(old(self).cfg().rack_init_timeout);
                final(self)@ == old(self)@.insert(
                    sorted_pos(old(self)@, expiry),
                    EntryView {
                        id: r,
                        expiry,
                        request: RequestView::InitRack {
                            rack_uuid,
                            packages: packages_view(packages@),
                            expected: keys(packages_view(packages@)),
                            received: seq![],
                        },
                    },
                )
            }),
            index_of(final(self)@, r) == sorted_pos(
                old(self)@,
                now.saturating_add(old(self).cfg().rack_init_timeout),
            ),
    {
        let expiry = now.saturating_add(self.config.rack_init_timeout);
        let mut expected: Vec<PeerId> = Vec::new();
        let mut i: usize = 0;
        while i < packages.len()
            invariant
                0 <= i <= packages@.len(),
                expected@ == keys(packages_view(packages@)).take(i as int),
            decreases packages@.len() - i,
        {
            expected.push(packages[i].0);
            assert(keys(packages_view(packages@)).take(i + 1) =~= expected@);
            i += 1;
        }
        assert(expected@ =~= keys(packages_view(packages@)));
        let acks = InitAcks { expected, received: Vec::new() };
        assert(acks.received@.to_set() =~= Set::<PeerId>::empty());
        self.new_request(expiry, TrackableRequest::InitRack { rack_uuid, packages, acks })
    }

    /// Track the collection of `threshold` shares of the rack secret.
    pub fn new_load_rack_secret(&mut self, now: u64, rack_uuid: u128, threshold: u8) -> (r: u128)
        requires
            old(self).wf(),
        ensures
            final(self).wf(),
            final(self).cfg() == old(self).cfg(),
            !has_id(old(self)@, r),
            ({
                let expiry = now.saturating_add(old(self).cfg().rack_secret_request_timeout);
                final(self)@ == old(self)@.insert(
                    sorted_pos(old(self)@, expiry),
                    EntryView {
                        id: r,
                        expiry,
                        request: RequestView::LoadRackSecret { rack_uuid, threshold, received: seq![] },
                    },
                )
            }),
            index_of(final(self)@, r) == sorted_pos(
                old(self)@,
                now.saturating_add(old(self).cfg().rack_secret_request_timeout),
            ),
    {
        let expiry = now.saturating_add(self.config.rack_secret_request_timeout);
        let acks = ShareAcks::new(threshold);
        assert(shares_view(acks.received@) =~= seq![]);
        self.new_request(expiry, TrackableRequest::LoadRackSecret { rack_uuid, acks })
    }

    /// Track the collection of `threshold` shares on behalf of the learner
    /// `from`.
    pub fn new_learn(&mut self, now: u64, rack_uuid: u128, threshold: u8, from: PeerId) -> (r: u128)
        requires
            old(self).wf(),
        ensures
            final(self).wf(),
            final(self).cfg() == old(self).cfg(),
            !has_id(old(self)@, r),
            ({
                let expiry = now.saturating_add(old(self).cfg().learn_timeout);
                final(self)@ == old(self)@.insert(
                    sorted_pos(old(self)@, expiry),
                    EntryView {
                        id: r,
                        expiry,
                        request: RequestView::Learn { rack_uuid, from, threshold, received: seq![] },
                    },
                )
            }),
            index_of(final(self)@, r) == sorted_pos(
                old(self)@,
                now.saturating_add(old(self).cfg().learn_timeout),
            ),
    {
        let expiry = now.saturating_add(self.config.learn_timeout);
        let acks = ShareAcks::new(threshold);
        assert(shares_view(acks.received@) =~= seq![]);
        self.new_request(expiry, TrackableRequest::Learn { rack_uuid, from, acks })
    }
    /// Remove and return, earliest first, every request that has expired at
    /// `now`: those whose expiry is `now` or earlier.
    pub fn expired(&mut self, now: u64) -> (r: Vec<TrackableRequest>)
        requires
            old(self).wf(),
        ensures
            final(self).wf(),
            final(self).cfg() == old(self).cfg(),
            r@.len() <= old(self)@.len(),
            r@.map_values(|t: TrackableRequest| t@) == requests_of(old(self)@.take(r@.len() as int)),
            final(self)@ == old(self)@.skip(r@.len() as int),
            forall|i: int| 0 <= i < r@.len() ==> old(self)@[i].expiry <= now,
            forall|i: int| 0 <= i < final(self)@.len() ==> final(self)@[i].expiry > now,
    {
        let ghost s0 = self@;
        let mut out: Vec<TrackableRequest> = Vec::new();
        assert(s0.skip(0) =~= s0);
        assert(out@.map_values(|t: TrackableRequest| t@) =~= requests_of(s0.take(0)));
        while self.requests.len() > 0 && self.requests[0].expiry <= now
            invariant
                self.wf(),
                self.config == old(self).config,
                out@.len() <= s0.len(),
                self@ == s0.skip(out@.len() as int),
                out@.map_values(|t: TrackableRequest| t@) == requests_of(s0.take(out@.len() as int)),
                forall|i: int| 0 <= i < out@.len() ==> s0[i].expiry <= now,
            decreases self.requests@.len(),
        {
            let ghost k = out@.len() as int;
            let ghost before = self@;
            proof {
                lemma_remove_wf(before, 0);
                assert(before[0] == s0[k]);
                assert(before[0] == self.requests@[0]@);
            }
            let t = self.requests.remove(0);
            assert(t@ == s0[k]);
            let ghost out_before = out@;
            out.push(t.request);
            assert forall|j: int| 0 <= j < k + 1 implies #[trigger] out@[j]@ == s0[j].request by {
                if j < k {
                    assert(out@[j] == out_before[j]);
                    assert(out_before.map_values(|t: TrackableRequest| t@)[j] == requests_of(s0.take(k))[j]);
                }
            }
            assert(self@ =~= before.remove(0));
            assert(self@ =~= s0.skip(k + 1));
            assert(out@.map_values(|t: TrackableRequest| t@) =~= requests_of(s0.take(k + 1)));
        }
        proof {
            if self@.len() > 0 {
                assert(self@[0] == self.requests@[0]@);
                assert forall|i: int| 0 <= i < self@.len() implies self@[i].expiry > now by {
                    assert(self@[0].expiry <= self@[i].expiry);
                }
            }
        }
        out
    }

    /// Record that `from` acknowledged rack initialization `request_id`.
    /// Returns whether every expected peer has now acknowledged; the request
    /// is then no longer tracked. An unknown id is dropped: it may be a stale
    /// acknowledgement of an abandoned initialization.
    pub fn on_init_ack(&mut self, from: PeerId, request_id: u128) -> (r: bool)
        requires
            old(self).wf(),
        ensures
            final(self).wf(),
            final(self).cfg() == old(self).cfg(),
            r == init_ack_completes(old(self)@, from, request_id),
            final(self)@ == after_init_ack(old(self)@, from, request_id),
    {
        let i = match self.find(request_id) {
            None => return false,
            Some(i) => i,
        };
        let ghost s = self@;
        assert(s[i as int] == self.requests@[i as int]@);
        let entry = self.requests.remove(i);
        assert(self@ =~= s.remove(i as int));
        assert(entry@ == s[i as int]);
        assert(request_wf(s[i as int].request));
        let TrackedRequest { id, expiry, request } = entry;
        match request {
            TrackableRequest::InitRack { rack_uuid, packages, acks } => {
                let InitAcks { expected, mut received } = acks;
                let ghost received0 = received@;
                if peers_contain(&expected, from) && !peers_contain(&received, from) {
                    received.push(from);
                    proof {
                        lemma_push_new(received0, from);
                    }
                }
                proof {
                    lemma_acks_complete(expected@, received@);
                }
                if received.len() == expected.len() {
                    proof {
                        lemma_remove_wf(s, i as int);
                    }
                    true
                } else {
                    let ghost e = EntryView {
                        id,
                        expiry,
                        request: RequestView::InitRack {
                            rack_uuid,
                            packages: packages_view(packages@),
                            expected: expected@,
                            received: received@,
                        },
                    };
                    self.requests.insert(
                        i,
                        TrackedRequest {
                            id,
                            expiry,
                            request: TrackableRequest::InitRack {
                                rack_uuid,
                                packages,
                                acks: InitAcks { expected, received },
                            },
                        },
                    );
                    proof {
                        lemma_update_wf(s, i as int, e);
                    }
                    assert(self@ =~= s.update(i as int, e));
                    false
                }
            },
            other => {
                self.requests.insert(i, TrackedRequest { id, expiry, request: other });
                assert(self@ =~= s);
                false
            },
        }
    }

    /// Record the share of `from` for collection `request_id`, replacing an
    /// earlier share of `from`. Once shares of the threshold's number of
    /// distinct peers are in, the collection is
    /// returned and no longer tracked. A share for an unknown id, or for a
    /// request that collects no shares, is dropped.
    pub fn on_share(&mut self, from: PeerId, request_id: u128, share: Share) -> (r: Option<
        TrackableRequest,
    >)
        requires
            old(self).wf(),
        ensures
            final(self).wf(),
            final(self).cfg() == old(self).cfg(),
            ({
                let s = old(self)@;
                let i = index_of(s, request_id);
                if i < 0 || !is_share_request(s[i].request) {
                    r is None && final(self)@ == s
                } else {
                    let upd = with_share(s[i].request, from, share@);
                    if threshold_met(upd) {
                        r is Some && r.unwrap()@ == upd && final(self)@ == s.remove(i)
                    } else {
                        r is None && final(self)@ == s.update(i, EntryView { request: upd, ..s[i] })
                    }
                }
            }),
    {
        let i = match self.find(request_id) {
            None => return None,
            Some(i) => i,
        };
        let ghost s = self@;
        assert(s[i as int] == self.requests@[i as int]@);
        let entry = self.requests.remove(i);
        assert(self@ =~= s.remove(i as int));
        assert(entry@ == s[i as int]);
        assert(request_wf(s[i as int].request));
        let TrackedRequest { id, expiry, request } = entry;
        let updated = match request {
            TrackableRequest::LoadRackSecret { rack_uuid, mut acks } => {
                add_share(&mut acks, from, share);
                TrackableRequest::LoadRackSecret { rack_uuid, acks }
            },
            TrackableRequest::Learn { rack_uuid, from: learner, mut acks } => {
                add_share(&mut acks, from, share);
                TrackableRequest::Learn { rack_uuid, from: learner, acks }
            },
            other => {
                self.requests.insert(i, TrackedRequest { id, expiry, request: other });
                assert(self@ =~= s);
                return None;
            },
        };
        let met = match &updated {
            TrackableRequest::LoadRackSecret { acks, .. } => acks.received.len() >= acks.threshold as usize,
            TrackableRequest::Learn { acks, .. } => acks.received.len() >= acks.threshold as usize,
            TrackableRequest::InitRack { .. } => false,
        };
        if met {
            proof {
                lemma_remove_wf(s, i as int);
            }
            Some(updated)
        } else {
            let ghost e = EntryView { id, expiry, request: updated@ };
            self.requests.insert(i, TrackedRequest { id, expiry, request: updated });
            proof {
                lemma_update_wf(s, i as int, e);
            }
            assert(self@ =~= s.update(i as int, e));
            None
        }
    }

    /// Move request `request_id` to expire at `expiry` instead.
    pub fn set_expiry(&mut self, request_id: u128, expiry: u64)
        requires
            old(self).wf(),
        ensures
            final(self).wf(),
            final(self).cfg() == old(self).cfg(),
            final(self)@ == set_expiry_result(old(self)@, request_id, expiry),
    {
        let i = match self.find(request_id) {
            None => return,
            Some(i) => i,
        };
        let ghost s = self@;
        assert(s[i as int] == self.requests@[i as int]@);
        proof {
            lemma_remove_wf(s, i as int);
        }
        let entry = self.requests.remove(i);
        assert(self@ =~= s.remove(i as int));
        assert(entry@ == s[i as int]);
        assert(request_wf(s[i as int].request));
        proof {
            assert forall|j: int| 0 <= j < self@.len() implies self@[j].id != entry.id by {
                let sj = if j < i { j } else { j + 1 };
                assert(self@[j] == s[sj]);
            }
        }
        let TrackedRequest { id, request, .. } = entry;
        self.insert_entry(TrackedRequest { id, expiry, request });
    }

    /// What `peer` should be sent now that it is connected: for every request
    /// in flight that it has not answered, the request again.
    pub fn on_connected(&self, peer: PeerId) -> (r: Vec<Envelope>)
        requires
            self.wf(),
        ensures
            crate::messages::envelopes_view(r@) == resends(self@, peer),
    {
        let mut envelopes: Vec<Envelope> = Vec::new();
        let mut i: usize = 0;
        assert(self@.take(0) =~= Seq::<EntryView>::empty());
        assert(crate::messages::envelopes_view(envelopes@) =~= seq![]);
        while i < self.requests.len()
            invariant
                self.wf(),
                0 <= i <= self@.len(),
                self@.len() == self.requests@.len(),
                crate::messages::envelopes_view(envelopes@) == resends(self@.take(i as int), peer),
            decreases self.requests@.len() - i,
        {
            let ghost before = crate::messages::envelopes_view(envelopes@);
            let t = &self.requests[i];
            let ghost e = self@[i as int];
            assert(e == t@);
            assert(self@.take(i + 1).drop_last() =~= self@.take(i as int));
            assert(self@.take(i + 1).last() == e);
            assert(request_wf(e.request));
            match &t.request {
                TrackableRequest::InitRack { packages, acks, .. } => {
                    if !peers_contain(&acks.received, peer) {
                        match find_package(packages, peer) {
                            Some(k) => {
                                let env = Envelope {
                                    to: peer,
                                    msg: Msg::Req(
                                        Request { id: t.id, type_: RequestType::Init(packages[k].1.duplicate()) },
                                    ),
                                };
                                envelopes.push(env);
                                assert(crate::messages::envelopes_view(envelopes@) =~= before + resend_for(e, peer));
                            },
                            None => {
                                assert(resend_for(e, peer) =~= seq![]);
                                assert(before + resend_for(e, peer) =~= before);
                            },
                        }
                    } else {
                        assert(before + resend_for(e, peer) =~= before);
                    }
                },
                TrackableRequest::LoadRackSecret { rack_uuid, acks } => {
                    if find_share(&acks.received, peer).is_none() {
                        let env = Envelope {
                            to: peer,
                            msg: Msg::Req(Request { id: t.id, type_: RequestType::GetShare { rack_uuid: *rack_uuid } }),
                        };
                        envelopes.push(env);
                        assert(crate::messages::envelopes_view(envelopes@) =~= before + resend_for(e, peer));
                    } else {
                        assert(before + resend_for(e, peer) =~= before);
                    }
                },
                TrackableRequest::Learn { rack_uuid, acks, .. } => {
                    if find_share(&acks.received, peer).is_none() {
                        let env = Envelope {
                            to: peer,
                            msg: Msg::Req(Request { id: t.id, type_: RequestType::GetShare { rack_uuid: *rack_uuid } }),
                        };
                        envelopes.push(env);
                        assert(crate::messages::envelopes_view(envelopes@) =~= before + resend_for(e, peer));
                    } else {
                        assert(before + resend_for(e, peer) =~= before);
                    }
                },
            }
            i += 1;
        }
        assert(self@.take(self@.len() as int) =~= self@);
        envelopes
    }
}

} // verus!
