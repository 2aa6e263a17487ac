//! Properties of the protocol that span more than one call.

use vstd::prelude::*;
use crate::fsm::{failure, handle_post, init_rack_post, quiet, tick_post, ApiError, FsmView, OutputView};
use crate::fsm::LearnAttempt;
use crate::messages::{MsgView, PeerId, SharePkg};
use crate::request_manager::{
    after_init_ack, entries_wf, has_id, index_of, init_ack_completes, is_share_request, keys,
    lemma_push_new, request_wf, threshold_met, with_share, EntryView, RequestView,
};

verus! {

/// Rack initialization is taken up once: after a peer has initialized the
/// rack, a second `init_rack` on it fails with `RackAlreadyInitialized`,
/// sends nothing and changes nothing.
pub proof fn init_rack_only_once(
    s0: FsmView,
    s1: FsmView,
    o1: OutputView,
    s2: FsmView,
    o2: OutputView,
    rack_uuid: u128,
    members: Seq<PeerId>,
    pkgs: Result<Vec<SharePkg>, String>,
    rack_uuid2: u128,
    members2: Seq<PeerId>,
    pkgs2: Result<Vec<SharePkg>, String>,
)
    requires
        s0.state is Uninitialized,
        pkgs is Ok,
        init_rack_post(s0, s1, o1, rack_uuid, members, pkgs),
        init_rack_post(s1, s2, o2, rack_uuid2, members2, pkgs2),
    ensures
        s2 == s1,
        o2 == failure(ApiError::RackAlreadyInitialized),
        o2.envelopes.len() == 0,
{
    assert(s1.state is InitialMember);
}

/// A learner whose attempt went unanswered acts at the first tick at or past
/// the attempt's expiry. With a peer reachable it asks again: a new `Learn`
/// goes out to a reachable peer, another one than before when more than one
/// is reachable, and expires one learn timeout later. With none reachable
/// it sends nothing and reports a learn failure. The expired attempt never
/// remains.
pub proof fn learner_retries_at_expiry(old: FsmView, new: FsmView, out: OutputView, k: int)
    requires
        old.state is Learning,
        old.state->attempt is Some,
        old.clock < u64::MAX,
        old.state->attempt->Some_0.expiry <= old.clock + 1,
        old.peers.no_duplicates(),
        tick_post(old, new, out, k),
    ensures
        new.state is Learning,
        old.peers.len() == 0 ==> new.state->attempt is None && out.envelopes.len() == 0 && out.api == Some(
            Err::<crate::fsm::ApiOutputView, ApiError>(ApiError::LearnTimeout),
        ),
        old.peers.len() > 0 ==> new.state->attempt is Some && ({
            let previous = old.state->attempt->Some_0;
            let a = new.state->attempt->Some_0;
            &&& a.expiry == ((old.clock + 1) as u64).saturating_add(old.config.learn_timeout)
            &&& old.peers.contains(a.peer)
            &&& old.peers.len() > 1 ==> a.peer != previous.peer
            &&& out.envelopes == seq![(a.peer, MsgView::Learn { id: a.request_id })]
        }),
{
    let now = (old.clock + 1) as u64;
    assert(crate::fsm::needs_attempt(old.state->attempt, now));
    if old.peers.len() > 0 {
        let a = new.state->attempt->Some_0;
        if a.peer == old.peers[0] {
            assert(old.peers.contains(a.peer));
        } else {
            assert(old.peers[1] == a.peer);
            assert(old.peers.contains(a.peer));
        }
    }
}

/// A tick sends nothing to a peer that is not reachable: every envelope goes
/// to a peer of the peer set.
pub proof fn tick_sends_only_to_peers(old: FsmView, new: FsmView, out: OutputView, k: int)
    requires
        tick_post(old, new, out, k),
    ensures
        forall|i: int| 0 <= i < out.envelopes.len() ==> old.peers.contains(#[trigger] out.envelopes[i].0),
{
    let now = (old.clock + 1) as u64;
    if old.state is Learning && crate::fsm::needs_attempt(old.state->attempt, now) {
        if new.state->attempt is Some {
            let a = new.state->attempt->Some_0;
            if a.peer == old.peers[0] {
                assert(old.peers.contains(a.peer));
            } else {
                assert(old.peers[1] == a.peer);
                assert(old.peers.contains(a.peer));
            }
        }
    }
}

/// Before its attempt expires, a learner that tracks no member's request
/// waits: the attempt stays and nothing is reported or sent.
pub proof fn learner_waits_before_expiry(old: FsmView, new: FsmView, out: OutputView, k: int, t: u64)
    requires
        old.state is Learning,
        old.state->attempt is Some,
        old.clock < u64::MAX,
        old.clock + 1 < old.state->attempt->Some_0.expiry,
        crate::fsm::state_links(old.state, old.requests, t),
        tick_post(old, new, out, k),
    ensures
        new.state == old.state,
        out == quiet(),
{
    let rs = crate::request_manager::requests_of(old.requests.take(k));
    assert forall|i: int| 0 <= i < rs.len() implies !crate::fsm::member_only(#[trigger] rs[i]) by {
        assert(rs[i] == old.requests[i].request);
        assert(!crate::fsm::member_only(old.requests[i].request));
    }
    assert(!crate::fsm::any_init(rs));
    assert(!crate::fsm::any_load(rs));
    assert(out.envelopes =~= seq![]);
}

/// A rack-secret collection whose deadline has come is abandoned at that
/// tick, and its caller is told: the state no longer collects, and the
/// output reports a timeout.
pub proof fn collection_times_out(old: FsmView, new: FsmView, out: OutputView, k: int)
    requires
        crate::fsm::is_member(old.state),
        crate::fsm::member_secret(old.state) is Collecting,
        old.clock < u64::MAX,
        crate::fsm::member_secret(old.state)->started.saturating_add(old.config.rack_secret_request_timeout)
            <= old.clock + 1,
        crate::fsm::state_links(old.state, old.requests, old.config.rack_secret_request_timeout),
        tick_post(old, new, out, k),
    ensures
        !(crate::fsm::member_secret(new.state) is Collecting),
        out.api == Some(Err::<crate::fsm::ApiOutputView, ApiError>(ApiError::RackSecretLoadTimeout)) || out.api
            == Some(Err::<crate::fsm::ApiOutputView, ApiError>(ApiError::RackInitAndSecretLoadTimeout)),
{
    let t = old.config.rack_secret_request_timeout;
    let sec = crate::fsm::member_secret(old.state);
    let i = choose|i: int|
        0 <= i < old.requests.len() && #[trigger] old.requests[i].id == sec->request_id
            && old.requests[i].request is LoadRackSecret && old.requests[i].expiry == sec->started.saturating_add(t);
    if i >= k {
        assert(new.requests[i - k] == old.requests[i]);
    }
    let rs = crate::request_manager::requests_of(old.requests.take(k));
    assert(rs[i] is LoadRackSecret);
    assert(crate::fsm::any_load(rs));
}

/// A tick is deterministic: from the same peer, two outcomes expire the
/// same requests and agree on the state and the output, but for the fresh id
/// of a learner's new attempt.
pub proof fn tick_is_deterministic(
    old: FsmView,
    n1: FsmView,
    o1: OutputView,
    k1: int,
    n2: FsmView,
    o2: OutputView,
    k2: int,
)
    requires
        tick_post(old, n1, o1, k1),
        tick_post(old, n2, o2, k2),
    ensures
        k1 == k2,
        n1.requests == n2.requests,
        o1.api == o2.api,
        o1.persist == o2.persist,
        n1.state is Learning && n1.state->attempt is Some ==> n2.state is Learning && n2.state->attempt is Some
            && (LearnAttempt { request_id: 0, ..n1.state->attempt->Some_0 }) == (LearnAttempt {
            request_id: 0,
            ..n2.state->attempt->Some_0
        }),
        !(n1.state is Learning && n1.state->attempt is Some) ==> n1 == n2 && o1 == o2,
{
    if k1 < k2 {
        assert(n1.requests[0] == old.requests[k1]);
    } else if k2 < k1 {
        assert(n2.requests[0] == old.requests[k2]);
    }
}

/// An acknowledgement delivered twice to the tracker completes at most once:
/// the second delivery reports no completion and changes nothing.
pub proof fn init_ack_idempotent(s: Seq<EntryView>, from: PeerId, id: u128)
    requires
        entries_wf(s),
    ensures
        !init_ack_completes(after_init_ack(s, from, id), from, id),
        after_init_ack(after_init_ack(s, from, id), from, id) == after_init_ack(s, from, id),
{
    let i = index_of(s, id);
    let s1 = after_init_ack(s, from, id);
    if i >= 0 {
        if let RequestView::InitRack { rack_uuid, packages, expected, received } = s[i].request {
            if init_ack_completes(s, from, id) {
                assert(s1 == s.remove(i));
                assert(!has_id(s1, id)) by {
                    if has_id(s1, id) {
                        let j = choose|j: int| 0 <= j < s1.len() && s1[j].id == id;
                        let sj = if j < i { j } else { j + 1 };
                        assert(s1[j] == s[sj]);
                    }
                }
            } else {
                let received1 = crate::request_manager::acks_after(expected, received, from);
                assert(s1[i].id == id);
                assert(s1.len() == s.len());
                assert forall|a: int, b: int| 0 <= a < b < s1.len() implies s1[a].id != s1[b].id by {
                    assert(s1[a].id == s[a].id && s1[b].id == s[b].id);
                }
                assert(has_id(s1, id));
                assert(index_of(s1, id) == i);
                if expected.contains(from) && !received.contains(from) {
                    assert(received1[received.len() as int] == from);
                }
                assert(crate::request_manager::acks_after(expected, received1, from) == received1);
                assert(s1.update(i, s1[i]) =~= s1);
            }
        }
    }
}

/// Delivering the same acknowledgement twice to a peer completes rack
/// initialization at most once: the second delivery outputs nothing and
/// changes nothing.
pub proof fn handled_init_ack_idempotent(
    s0: FsmView,
    s1: FsmView,
    o1: OutputView,
    s2: FsmView,
    o2: OutputView,
    from: PeerId,
    id: u128,
)
    requires
        entries_wf(s0.requests),
        handle_post(s0, s1, o1, from, MsgView::InitAck { request_id: id }),
        handle_post(s1, s2, o2, from, MsgView::InitAck { request_id: id }),
    ensures
        s2 == s1,
        o2 == quiet(),
{
    init_ack_idempotent(s0.requests, from, id);
}

/// An acknowledgement naming a request that is not tracked, at the tracker,
/// completes nothing and changes nothing.
pub proof fn unknown_ack_ignored(s: Seq<EntryView>, from: PeerId, id: u128)
    requires
        !has_id(s, id),
    ensures
        !init_ack_completes(s, from, id),
        after_init_ack(s, from, id) == s,
{
}

/// An acknowledgement naming a request that is not tracked, at a peer,
/// outputs nothing and changes nothing.
pub proof fn handled_unknown_ack_ignored(s0: FsmView, s1: FsmView, o1: OutputView, from: PeerId, id: u128)
    requires
        !has_id(s0.requests, id),
        handle_post(s0, s1, o1, from, MsgView::InitAck { request_id: id }),
    ensures
        s1 == s0,
        o1 == quiet(),
{
}

/// The shares of a collection come from pairwise distinct peers and are at
/// least its threshold in number.
pub open spec fn distinct_threshold(r: RequestView) -> bool {
    match r {
        RequestView::LoadRackSecret { threshold, received, .. } => keys(received).no_duplicates()
            && received.len() >= threshold,
        RequestView::Learn { threshold, received, .. } => keys(received).no_duplicates() && received.len()
            >= threshold,
        RequestView::InitRack { .. } => false,
    }
}

/// The shares a collection holds so far.
pub open spec fn received_of(r: RequestView) -> Seq<(PeerId, Seq<u8>)> {
    match r {
        RequestView::LoadRackSecret { received, .. } => received,
        RequestView::Learn { received, .. } => received,
        RequestView::InitRack { .. } => seq![],
    }
}

/// A peer's share counts once. Delivered again for the same collection, a
/// share of that peer replaces the one held but leaves the same peers, as
/// many as before, so it cannot complete a collection that the first
/// delivery left short; and a collection completes only with shares of at
/// least its threshold of distinct peers.
pub proof fn duplicate_share_not_counted(
    s: Seq<EntryView>,
    from: PeerId,
    id: u128,
    share: Seq<u8>,
    again: Seq<u8>,
)
    requires
        entries_wf(s),
        index_of(s, id) >= 0,
        is_share_request(s[index_of(s, id)].request),
    ensures
        ({
            let upd = with_share(s[index_of(s, id)].request, from, share);
            let upd2 = with_share(upd, from, again);
            &&& keys(received_of(upd2)) == keys(received_of(upd))
            &&& received_of(upd2).len() == received_of(upd).len()
            &&& threshold_met(upd2) == threshold_met(upd)
            &&& threshold_met(upd) ==> distinct_threshold(upd)
        }),
{
    let i = index_of(s, id);
    let r = s[i].request;
    assert(request_wf(r));
    match r {
        RequestView::LoadRackSecret { received, .. } => {
            lemma_keys_after(received, from, share);
            lemma_keys_after(crate::request_manager::shares_after(received, from, share), from, again);
        },
        RequestView::Learn { received, .. } => {
            lemma_keys_after(received, from, share);
            lemma_keys_after(crate::request_manager::shares_after(received, from, share), from, again);
        },
        RequestView::InitRack { .. } => {},
    }
}

proof fn lemma_keys_after(received: Seq<(PeerId, Seq<u8>)>, from: PeerId, share: Seq<u8>)
    requires
        keys(received).no_duplicates(),
    ensures
        keys(crate::request_manager::shares_after(received, from, share)).no_duplicates(),
        keys(crate::request_manager::shares_after(received, from, share)).contains(from),
        keys(received).contains(from) ==> keys(crate::request_manager::shares_after(received, from, share))
            == keys(received) && crate::request_manager::shares_after(received, from, share).len()
            == received.len(),
{
    let after = crate::request_manager::shares_after(received, from, share);
    if !keys(received).contains(from) {
        assert(keys(after) =~= keys(received).push(from));
        lemma_push_new(keys(received), from);
        assert(keys(after)[received.len() as int] == from);
    } else {
        assert(keys(after) =~= keys(received));
    }
}

} // verus!
