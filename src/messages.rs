//! Peer identities, share packages and the wire vocabulary.

use vstd::prelude::*;
use crate::secret::Share;

verus! {

/// Identity of a physical node. Never reused across distinct nodes.
#[derive(Clone, Copy, Debug, PartialEq, Eq, Structural, PartialOrd, Ord, Hash)]
pub struct PeerId(pub u64);

/// The position of a share among the shares that a rack's secret was split
/// into.
#[derive(Clone, Copy, Debug, PartialEq, Eq, Structural, PartialOrd, Ord, Hash)]
pub struct ShareIdx(pub usize);

/// A founding member's secret material, created at rack initialization.
pub struct SharePkg {
    pub rack_uuid: u128,
    pub threshold: u8,
    pub share: Share,
}

/// Secret material obtained later through the learn exchange.
pub struct LearnedSharePkg {
    pub rack_uuid: u128,
    pub threshold: u8,
    pub share: Share,
}

/// What a package holds, as plain values.
pub ghost struct PkgView {
    pub rack_uuid: u128,
    pub threshold: u8,
    pub share: Seq<u8>,
}

impl View for SharePkg {
    type V = PkgView;

    open spec fn view(&self) -> PkgView {
        PkgView { rack_uuid: self.rack_uuid, threshold: self.threshold, share: self.share@ }
    }
}

impl View for LearnedSharePkg {
    type V = PkgView;

    open spec fn view(&self) -> PkgView {
        PkgView { rack_uuid: self.rack_uuid, threshold: self.threshold, share: self.share@ }
    }
}

impl SharePkg {
    pub fn duplicate(&self) -> (r: SharePkg)
        ensures
            r@ == self@,
    {
        SharePkg { rack_uuid: self.rack_uuid, threshold: self.threshold, share: self.share.duplicate() }
    }
}

impl LearnedSharePkg {
    pub fn duplicate(&self) -> (r: LearnedSharePkg)
        ensures
            r@ == self@,
    {
        LearnedSharePkg {
            rack_uuid: self.rack_uuid,
            threshold: self.threshold,
            share: self.share.duplicate(),
        }
    }
}

/// The body of a request.
pub enum RequestType {
    /// Hand a founding member its package.
    Init(SharePkg),
    /// Ask a member for its own share of the given rack.
    GetShare { rack_uuid: u128 },
    /// Ask a member to obtain a package for the sender, who joined late.
    Learn,
}

/// The body of a response.
pub enum ResponseType {
    /// The package of an `Init` was stored.
    InitAck,
    /// The responder's own share, answering `GetShare`.
    Share(Share),
    /// A package for a learner, answering `Learn`.
    LearnPkg(LearnedSharePkg),
}

pub struct Request {
    pub id: u128,
    pub type_: RequestType,
}

pub struct Response {
    pub request_id: u128,
    pub type_: ResponseType,
}

pub enum Msg {
    Req(Request),
    Rsp(Response),
}

/// A message and the peer it goes to.
pub struct Envelope {
    pub to: PeerId,
    pub msg: Msg,
}

/// The parts of a message that the protocol's rules speak of.
pub ghost enum MsgView {
    Init { id: u128, pkg: PkgView },
    GetShare { id: u128, rack_uuid: u128 },
    Learn { id: u128 },
    InitAck { request_id: u128 },
    Share { request_id: u128, share: Seq<u8> },
    LearnPkg { request_id: u128, pkg: PkgView },
}

impl View for Msg {
    type V = MsgView;

    open spec fn view(&self) -> MsgView {
        match self {
            Msg::Req(req) => match &req.type_ {
                RequestType::Init(pkg) => MsgView::Init { id: req.id, pkg: pkg@ },
                RequestType::GetShare { rack_uuid } => MsgView::GetShare { id: req.id, rack_uuid: *rack_uuid },
                RequestType::Learn => MsgView::Learn { id: req.id },
            },
            Msg::Rsp(rsp) => match &rsp.type_ {
                ResponseType::InitAck => MsgView::InitAck { request_id: rsp.request_id },
                ResponseType::Share(share) => MsgView::Share { request_id: rsp.request_id, share: share@ },
                ResponseType::LearnPkg(pkg) => MsgView::LearnPkg { request_id: rsp.request_id, pkg: pkg@ },
            },
        }
    }
}

impl View for Envelope {
    type V = (PeerId, MsgView);

    open spec fn view(&self) -> (PeerId, MsgView) {
        (self.to, self.msg@)
    }
}

/// The views of a sequence of envelopes.
pub open spec fn envelopes_view(s: Seq<Envelope>) -> Seq<(PeerId, MsgView)> {
    s.map_values(|e: Envelope| e@)
}

} // verus!
