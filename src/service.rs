//! The service handler: routes protocol messages and channel-manager events
//! to the state kept for each peer.
//!
//! The handler does no I/O. Responses for peers, events for the operator and
//! instructions for the channel manager are queued, and the caller drains them.

use vstd::prelude::*;

use crate::channel::{intercept_outcome, OpenChannelParams, OutboundJITChannel, OutboundJITChannelState};
use crate::fee::{amounts_of, calculate_amount_to_forward_per_htlc, forwarded_amount, opening_fee, sum_of};
use crate::msgs::{
    APIError, BuyRequest, BuyResponse, GetInfoRequest, GetInfoResponse, HtlcAction, LSPS2Message,
    LSPS2Request, LSPS2Response, LSPS2ServiceEvent, LightningError, PeerId, ResponseError,
    LSPS2_BUY_REQUEST_INVALID_OPENING_FEE_PARAMS_ERROR_CODE,
    LSPS2_BUY_REQUEST_PAYMENT_SIZE_TOO_LARGE_ERROR_CODE,
    LSPS2_BUY_REQUEST_PAYMENT_SIZE_TOO_SMALL_ERROR_CODE,
    LSPS2_GET_INFO_REQUEST_UNRECOGNIZED_OR_STALE_TOKEN_ERROR_CODE,
};
use crate::fee::compute_opening_fee;
use crate::payment_queue::{first_above, flatten, htlcs_total, with_htlc, InterceptedHTLC};
use crate::promise::{is_valid_opening_fee_params, OpeningFeeParams, RawOpeningFeeParams, hmac_sha256_of};
use crate::registry::{
    find_bytes, find_text, find_u128, find_u64, key_index, keys_unique, lookup, text_key_index, text_upserted,
    upsert_bytes, upsert_text, upsert_u128, upsert_u64, upserted,
};

verus! {

/// Server-side configuration.
#[derive(Clone, Copy, Debug)]
pub struct LSPS2ServiceConfig {
    /// Key of the promises handed out with fee parameters. Changing it makes
    /// every promise given out before invalid.
    pub promise_secret: [u8; 32],
}

/// What the service keeps for one peer.
#[derive(Debug)]
pub struct PeerState {
    pub outbound_channels_by_intercept_scid: Vec<(u64, OutboundJITChannel)>,
    pub intercept_scid_by_user_channel_id: Vec<(u128, u64)>,
    pub intercept_scid_by_channel_id: Vec<([u8; 32], u64)>,
    pub pending_requests: Vec<(String, LSPS2Request)>,
}

/// The value of the first entry whose text key reads `k`.
pub open spec fn text_lookup<V>(s: Seq<(String, V)>, k: Seq<char>) -> Option<V> {
    let i = text_key_index(s, k);
    if 0 <= i < s.len() {
        Some(s[i].1)
    } else {
        None
    }
}

impl PeerState {
    /// Every channel's queue is well formed, and no key occurs twice in a map.
    pub open spec fn wf(&self) -> bool {
        &&& forall|j: int|
            0 <= j < self.outbound_channels_by_intercept_scid@.len()
                ==> (#[trigger] self.outbound_channels_by_intercept_scid@[j]).1.wf()
        &&& keys_unique(self.outbound_channels_by_intercept_scid@)
        &&& keys_unique(self.intercept_scid_by_user_channel_id@)
        &&& keys_unique(self.intercept_scid_by_channel_id@)
    }

    /// A peer with nothing recorded.
    pub fn new() -> (r: Self)
        ensures
            r.wf(),
            r.outbound_channels_by_intercept_scid@.len() == 0,
            r.intercept_scid_by_user_channel_id@.len() == 0,
            r.intercept_scid_by_channel_id@.len() == 0,
            r.pending_requests@.len() == 0,
    {
        PeerState {
            outbound_channels_by_intercept_scid: Vec::new(),
            intercept_scid_by_user_channel_id: Vec::new(),
            intercept_scid_by_channel_id: Vec::new(),
            pending_requests: Vec::new(),
        }
    }

    /// Records `channel` under `intercept_scid`, replacing any channel there.
    pub fn insert_outbound_channel(&mut self, intercept_scid: u64, channel: OutboundJITChannel)
        requires
            old(self).wf(),
            channel.wf(),
        ensures
            final(self).wf(),
            final(self).outbound_channels_by_intercept_scid@ == upserted(
                old(self).outbound_channels_by_intercept_scid@,
                intercept_scid,
                channel,
            ),
            final(self).intercept_scid_by_user_channel_id == old(self).intercept_scid_by_user_channel_id,
            final(self).intercept_scid_by_channel_id == old(self).intercept_scid_by_channel_id,
            final(self).pending_requests == old(self).pending_requests,
    {
        proof {
            crate::registry::lemma_upserted_unique(self.outbound_channels_by_intercept_scid@, intercept_scid, channel);
        }
        upsert_u64(&mut self.outbound_channels_by_intercept_scid, intercept_scid, channel);
        proof {
            let s = self.outbound_channels_by_intercept_scid@;
            assert forall|j: int| 0 <= j < s.len() implies (#[trigger] s[j]).1.wf() by {
                let o = old(self).outbound_channels_by_intercept_scid@;
                if j < o.len() && j != key_index(o, intercept_scid) {
                    assert(s[j] == o[j]);
                }
            }
        }
    }
}

/// Why a buy request is turned down, as the error code of the response, or
/// `None` when it is accepted. The payment size is checked first, then the
/// promise and the expiry.
pub open spec fn buy_rejection(
    params: OpeningFeeParams,
    payment_size_msat: Option<u64>,
    promise_secret: Seq<u8>,
    valid_until_in_future: bool,
) -> Option<i32> {
    let size_rejection = match payment_size_msat {
        Some(p) => if p < params.min_payment_size_msat {
            Some(LSPS2_BUY_REQUEST_PAYMENT_SIZE_TOO_SMALL_ERROR_CODE)
        } else if p > params.max_payment_size_msat {
            Some(LSPS2_BUY_REQUEST_PAYMENT_SIZE_TOO_LARGE_ERROR_CODE)
        } else {
            match opening_fee(p as int, params.min_fee_msat as int, params.proportional as int) {
                None => Some(LSPS2_BUY_REQUEST_PAYMENT_SIZE_TOO_LARGE_ERROR_CODE),
                Some(fee) => if fee >= p {
                    Some(LSPS2_BUY_REQUEST_PAYMENT_SIZE_TOO_SMALL_ERROR_CODE)
                } else {
                    None
                },
            }
        },
        None => None,
    };
    if size_rejection is Some {
        size_rejection
    } else if !(valid_until_in_future && params.promise_matches(promise_secret)) {
        Some(LSPS2_BUY_REQUEST_INVALID_OPENING_FEE_PARAMS_ERROR_CODE)
    } else {
        None
    }
}

/// What intercepting `htlc` does to `channel`: the next state and whether to
/// open, or `None` for an error.
pub open spec fn channel_intercept_outcome(channel: OutboundJITChannel, htlc: InterceptedHTLC) -> Option<
    (OutboundJITChannelState, Option<OpenChannelParams>),
> {
    if channel.state == OutboundJITChannelState::PendingInitialPayment {
        let gs = with_htlc(channel.payment_queue.groups(), htlc);
        intercept_outcome(
            channel.opening_fee_params,
            channel.payment_size_msat,
            htlcs_total(flatten(gs)),
            flatten(gs).len() as int,
        )
    } else {
        None
    }
}

/// The instructions that forward `htlcs` over `channel_id`, each with the
/// amount left once its share of `fee` is taken.
pub open spec fn fee_forwards(
    htlcs: Seq<InterceptedHTLC>,
    fee: u64,
    channel_id: [u8; 32],
    peer: PeerId,
) -> Seq<HtlcAction> {
    if fee > sum_of(amounts_of(htlcs)) {
        Seq::empty()
    } else {
        Seq::new(
            htlcs.len(),
            |i: int|
                HtlcAction::Forward {
                    intercept_id: htlcs[i].intercept_id,
                    channel_id,
                    counterparty_node_id: peer,
                    amount_to_forward_msat: forwarded_amount(amounts_of(htlcs), fee as int, i) as u64,
                },
        )
    }
}

/// The instructions that forward `htlcs` over `channel_id` at their full amounts.
pub open spec fn full_forwards(htlcs: Seq<InterceptedHTLC>, channel_id: [u8; 32], peer: PeerId) -> Seq<
    HtlcAction,
> {
    Seq::new(
        htlcs.len(),
        |i: int|
            HtlcAction::Forward {
                intercept_id: htlcs[i].intercept_id,
                channel_id,
                counterparty_node_id: peer,
                amount_to_forward_msat: htlcs[i].expected_outbound_amount_msat,
            },
    )
}

/// The entries without the first one whose text key reads `k`.
pub open spec fn without_request<V>(s: Seq<(String, V)>, k: Seq<char>) -> Seq<(String, V)> {
    let ri = text_key_index(s, k);
    if ri < s.len() {
        s.remove(ri)
    } else {
        s
    }
}

/// Whether `m` turns down request `request_id` of `peer` with `code`.
pub open spec fn is_buy_error(m: (PeerId, LSPS2Message), peer: PeerId, request_id: Seq<char>, code: i32) -> bool {
    &&& m.0 == peer
    &&& m.1 matches LSPS2Message::Response(id, LSPS2Response::BuyError(e))
    &&& id@ == request_id
    &&& e.code == code
}

/// Whether `m` tells `peer` that the token of request `request_id` is unknown.
pub open spec fn is_stale_token_error(m: (PeerId, LSPS2Message), peer: PeerId, request_id: Seq<char>) -> bool {
    &&& m.0 == peer
    &&& m.1 matches LSPS2Message::Response(id, LSPS2Response::GetInfoError(e))
    &&& id@ == request_id
    &&& e.code == LSPS2_GET_INFO_REQUEST_UNRECOGNIZED_OR_STALE_TOKEN_ERROR_CODE
}

/// Whether `signed` is `raw` with the promise `promise_secret` gives it.
pub open spec fn signed_from(signed: OpeningFeeParams, raw: RawOpeningFeeParams, promise_secret: Seq<u8>) -> bool {
    &&& signed.min_fee_msat == raw.min_fee_msat
    &&& signed.proportional == raw.proportional
    &&& signed.valid_until == raw.valid_until
    &&& signed.min_lifetime == raw.min_lifetime
    &&& signed.max_client_to_self_delay == raw.max_client_to_self_delay
    &&& signed.min_payment_size_msat == raw.min_payment_size_msat
    &&& signed.max_payment_size_msat == raw.max_payment_size_msat
    &&& signed.promise@ == hmac_sha256_of(promise_secret, raw.message())
}

/// Parameters signed with a secret carry the promise that the same secret
/// gives them, so they validate under it exactly when they have not expired.
pub proof fn lemma_signed_params_validate(signed: OpeningFeeParams, raw: RawOpeningFeeParams, promise_secret: Seq<u8>)
    requires
        signed_from(signed, raw, promise_secret),
    ensures
        signed.promise_matches(promise_secret),
        signed.message() == raw.message(),
{
}

fn clone_token(token: &Option<String>) -> (r: Option<String>)
    ensures
        r == *token,
{
    match token {
        Some(t) => Some(t.clone()),
        None => None,
    }
}

/// The LSPS2 service: fee negotiation, the sale of intercept SCIDs, and the
/// opening of just-in-time channels when payments arrive.
pub struct LSPS2ServiceHandler {
    pub per_peer_state: Vec<(PeerId, PeerState)>,
    pub peer_by_intercept_scid: Vec<(u64, PeerId)>,
    pub peer_by_channel_id: Vec<([u8; 32], PeerId)>,
    pub config: LSPS2ServiceConfig,
    /// Responses for peers, oldest first.
    pub pending_messages: Vec<(PeerId, LSPS2Message)>,
    /// Events for the operator, oldest first.
    pub pending_events: Vec<LSPS2ServiceEvent>,
    /// Instructions for the channel manager, oldest first.
    pub pending_htlc_actions: Vec<HtlcAction>,
}

impl LSPS2ServiceHandler {
    /// The queues, the reverse indices and the configuration of `self` and
    /// `other` agree.
    pub open spec fn same_outside_peers(&self, other: &Self) -> bool {
        &&& self.pending_messages == other.pending_messages
        &&& self.pending_events == other.pending_events
        &&& self.pending_htlc_actions == other.pending_htlc_actions
        &&& self.peer_by_intercept_scid == other.peer_by_intercept_scid
        &&& self.peer_by_channel_id == other.peer_by_channel_id
        &&& self.config == other.config
    }

    /// `post` holds the peers of `pre` in the same places, with the state of
    /// `peer`, which `pre` holds, replaced by `ps`.
    pub open spec fn peer_updated(post: &Self, pre: &Self, peer: PeerId, ps: PeerState) -> bool {
        let pi = key_index(pre.per_peer_state@, peer);
        &&& pi < pre.per_peer_state@.len()
        &&& post.per_peer_state@ == pre.per_peer_state@.update(pi, (peer, ps))
    }

    /// `post` is `pre` with `request` of `peer` recorded under `request_id`:
    /// in the peer's state, or in a new last state that holds nothing else.
    pub open spec fn request_recorded(
        post: &Self,
        pre: &Self,
        peer: PeerId,
        request_id: String,
        request: LSPS2Request,
    ) -> bool {
        match pre.peer_state(peer) {
            Some(ps) => {
                &&& post.peer_state(peer) matches Some(nps)
                &&& Self::peer_updated(post, pre, peer, nps)
                &&& nps.pending_requests@ == text_upserted(ps.pending_requests@, request_id, request)
                &&& nps.outbound_channels_by_intercept_scid == ps.outbound_channels_by_intercept_scid
                &&& nps.intercept_scid_by_user_channel_id == ps.intercept_scid_by_user_channel_id
                &&& nps.intercept_scid_by_channel_id == ps.intercept_scid_by_channel_id
            },
            None => {
                let last = post.per_peer_state@.last();
                &&& post.per_peer_state@.len() == pre.per_peer_state@.len() + 1
                &&& post.per_peer_state@.drop_last() == pre.per_peer_state@
                &&& last.0 == peer
                &&& last.1.outbound_channels_by_intercept_scid@.len() == 0
                &&& last.1.intercept_scid_by_user_channel_id@.len() == 0
                &&& last.1.intercept_scid_by_channel_id@.len() == 0
                &&& last.1.pending_requests@ == seq![(request_id, request)]
            },
        }
    }

    /// `post` is `pre` with the request of `peer` under `request_id` removed,
    /// if `pre` holds one; nothing else of any peer differs.
    pub open spec fn request_taken(post: &Self, pre: &Self, peer: PeerId, request_id: Seq<char>) -> bool {
        match pre.peer_state(peer) {
            None => post.per_peer_state == pre.per_peer_state,
            Some(ps) => {
                &&& post.peer_state(peer) matches Some(nps)
                &&& Self::peer_updated(post, pre, peer, nps)
                &&& nps.pending_requests@ == without_request(ps.pending_requests@, request_id)
                &&& nps.outbound_channels_by_intercept_scid == ps.outbound_channels_by_intercept_scid
                &&& nps.intercept_scid_by_user_channel_id == ps.intercept_scid_by_user_channel_id
                &&& nps.intercept_scid_by_channel_id == ps.intercept_scid_by_channel_id
            },
        }
    }

    /// What handling a `get_info` request leaves behind: the request awaits
    /// the operator, who is told of it by an event.
    pub open spec fn get_info_handled(
        &self,
        pre: &Self,
        peer: PeerId,
        request_id: String,
        token: Option<String>,
    ) -> bool {
        &&& self.pending_events@ == pre.pending_events@.push(
            LSPS2ServiceEvent::GetInfo { request_id, counterparty_node_id: peer, token },
        )
        &&& self.pending_request(peer, request_id@) == Some(
            LSPS2Request::GetInfo(GetInfoRequest { token }),
        )
        &&& Self::request_recorded(self, pre, peer, request_id, LSPS2Request::GetInfo(GetInfoRequest { token }))
        &&& self.pending_messages == pre.pending_messages
        &&& self.pending_htlc_actions == pre.pending_htlc_actions
        &&& self.peer_by_intercept_scid == pre.peer_by_intercept_scid
        &&& self.peer_by_channel_id == pre.peer_by_channel_id
        &&& self.config == pre.config
    }

    /// What handling a `buy` request leaves behind: a response with the error
    /// code of [`buy_rejection`] and nothing else, or the request awaiting the
    /// operator, who is told of it by an event.
    pub open spec fn buy_handled(
        &self,
        pre: &Self,
        peer: PeerId,
        request_id: String,
        params: OpeningFeeParams,
        payment_size_msat: Option<u64>,
        valid_until_in_future: bool,
        accepted: bool,
    ) -> bool {
        match buy_rejection(params, payment_size_msat, pre.config.promise_secret@, valid_until_in_future) {
            Some(code) => {
                &&& !accepted
                &&& self.pending_messages@.len() == pre.pending_messages@.len() + 1
                &&& self.pending_messages@.drop_last() == pre.pending_messages@
                &&& is_buy_error(self.pending_messages@.last(), peer, request_id@, code)
                &&& self.per_peer_state == pre.per_peer_state
                &&& self.pending_events == pre.pending_events
                &&& self.pending_htlc_actions == pre.pending_htlc_actions
                &&& self.peer_by_intercept_scid == pre.peer_by_intercept_scid
                &&& self.peer_by_channel_id == pre.peer_by_channel_id
                &&& self.config == pre.config
            },
            None => {
                &&& accepted
                &&& self.pending_events@ == pre.pending_events@.push(
                    LSPS2ServiceEvent::BuyRequest {
                        request_id,
                        counterparty_node_id: peer,
                        opening_fee_params: params,
                        payment_size_msat,
                    },
                )
                &&& self.pending_request(peer, request_id@) == Some(
                    LSPS2Request::Buy(BuyRequest { opening_fee_params: params, payment_size_msat }),
                )
                &&& Self::request_recorded(
                    self,
                    pre,
                    peer,
                    request_id,
                    LSPS2Request::Buy(BuyRequest { opening_fee_params: params, payment_size_msat }),
                )
                &&& self.pending_messages == pre.pending_messages
                &&& self.pending_htlc_actions == pre.pending_htlc_actions
                &&& self.peer_by_intercept_scid == pre.peer_by_intercept_scid
                &&& self.peer_by_channel_id == pre.peer_by_channel_id
                &&& self.config == pre.config
            },
        }
    }

    /// The index of `peer`'s state, which is made empty first if there was none.
    fn peer_index_or_insert(&mut self, peer: &PeerId) -> (i: usize)
        requires
            old(self).wf(),
        ensures
            final(self).wf(),
            i < final(self).per_peer_state@.len(),
            i == key_index(final(self).per_peer_state@, *peer),
            final(self).same_outside_peers(old(self)),
            key_index(old(self).per_peer_state@, *peer) < old(self).per_peer_state@.len()
                ==> final(self).per_peer_state == old(self).per_peer_state,
            key_index(old(self).per_peer_state@, *peer) >= old(self).per_peer_state@.len() ==> {
                let last = final(self).per_peer_state@.last();
                &&& final(self).per_peer_state@.len() == old(self).per_peer_state@.len() + 1
                &&& final(self).per_peer_state@.drop_last() == old(self).per_peer_state@
                &&& last.0 == *peer
                &&& last.1.outbound_channels_by_intercept_scid@.len() == 0
                &&& last.1.intercept_scid_by_user_channel_id@.len() == 0
                &&& last.1.intercept_scid_by_channel_id@.len() == 0
                &&& last.1.pending_requests@.len() == 0
            },
    {
        let i = find_bytes(&self.per_peer_state, peer);
        proof {
            crate::registry::lemma_key_index_props(self.per_peer_state@, *peer);
        }
        if i == self.per_peer_state.len() {
            let ghost before = self.per_peer_state@;
            self.per_peer_state.push((*peer, PeerState::new()));
            proof {
                assert forall|j: int| 0 <= j < i implies (#[trigger] self.per_peer_state@[j]).0 != *peer by {
                    assert(self.per_peer_state@[j] == before[j]);
                }
                crate::registry::lemma_key_index(self.per_peer_state@, *peer, i as int);
                assert(self.per_peer_state@.drop_last() =~= before);
                assert forall|j: int| 0 <= j < self.per_peer_state@.len() implies (
                #[trigger] self.per_peer_state@[j]).1.wf() by {
                    if j < before.len() {
                        assert(self.per_peer_state@[j] == before[j]);
                    }
                }
            }
        }
        i
    }

    /// Records `request` of `peer` under `request_id`.
    fn record_request(&mut self, peer: &PeerId, request_id: String, request: LSPS2Request)
        requires
            old(self).wf(),
        ensures
            final(self).wf(),
            final(self).pending_request(*peer, request_id@) == Some(request),
            final(self).same_outside_peers(old(self)),
            Self::request_recorded(final(self), old(self), *peer, request_id, request),
    {
        proof {
            crate::registry::lemma_key_index_props(old(self).per_peer_state@, *peer);
        }
        let ghost rid = request_id;
        let i = self.peer_index_or_insert(peer);
        let ghost mid = self.per_peer_state@;
        let (pid, mut ps) = self.per_peer_state.remove(i);
        let ghost old_requests = ps.pending_requests@;
        upsert_text(&mut ps.pending_requests, request_id, request);
        self.per_peer_state.insert(i, (pid, ps));
        proof {
            assert(self.per_peer_state@ =~= mid.update(i as int, (pid, ps)));
            crate::registry::lemma_key_index_props(mid, *peer);
            crate::registry::lemma_key_index_update(mid, *peer, ps);
            crate::registry::lemma_text_upserted_lookup(old_requests, rid, request);
            crate::registry::lemma_text_key_index_props(old_requests, rid@);
            if key_index(old(self).per_peer_state@, *peer) >= old(self).per_peer_state@.len() {
                assert(mid.drop_last() == old(self).per_peer_state@);
                if i < old(self).per_peer_state@.len() {
                    assert(mid[i as int] == mid.drop_last()[i as int]);
                    assert(false);
                }
                assert(self.per_peer_state@.drop_last() =~= old(self).per_peer_state@);
                assert(old_requests.len() == 0);
                assert(ps.pending_requests@ =~= seq![(rid, request)]);
            } else {
                assert(old(self).per_peer_state@ == mid);
            }
            assert(ps.wf()) by {
                assert(ps.outbound_channels_by_intercept_scid == mid[i as int].1.outbound_channels_by_intercept_scid);
            }
            assert forall|j: int| 0 <= j < self.per_peer_state@.len() implies (
            #[trigger] self.per_peer_state@[j]).1.wf() by {
                if j != i {
                    assert(self.per_peer_state@[j] == mid[j]);
                }
            }
        }
    }

    fn handle_get_info_request(&mut self, request_id: String, counterparty_node_id: &PeerId, params: GetInfoRequest) -> (r: Result<(), LightningError>)
        requires
            old(self).wf(),
        ensures
            final(self).wf(),
            r is Ok,
            final(self).get_info_handled(old(self), *counterparty_node_id, request_id, params.token),
    {
        let token = clone_token(&params.token);
        self.record_request(counterparty_node_id, request_id.clone(), LSPS2Request::GetInfo(params));
        self.pending_events.push(
            LSPS2ServiceEvent::GetInfo { request_id, counterparty_node_id: *counterparty_node_id, token },
        );
        Ok(())
    }

    fn reject_buy(&mut self, counterparty_node_id: &PeerId, request_id: String, code: i32, message: &str) -> (r: Result<(), LightningError>)
        ensures
            r is Err,
            final(self).pending_messages@.len() == old(self).pending_messages@.len() + 1,
            final(self).pending_messages@.drop_last() == old(self).pending_messages@,
            is_buy_error(final(self).pending_messages@.last(), *counterparty_node_id, request_id@, code),
            final(self).per_peer_state == old(self).per_peer_state,
            final(self).pending_events == old(self).pending_events,
            final(self).pending_htlc_actions == old(self).pending_htlc_actions,
            final(self).peer_by_intercept_scid == old(self).peer_by_intercept_scid,
            final(self).peer_by_channel_id == old(self).peer_by_channel_id,
            final(self).config == old(self).config,
    {
        let response = LSPS2Response::BuyError(ResponseError { code, message: message.to_string() });
        self.pending_messages.push((*counterparty_node_id, LSPS2Message::Response(request_id, response)));
        proof {
            assert(self.pending_messages@.drop_last() =~= old(self).pending_messages@);
        }
        Err(LightningError { err: message.to_string() })
    }

    fn handle_buy_request(
        &mut self,
        request_id: String,
        counterparty_node_id: &PeerId,
        params: BuyRequest,
        valid_until_in_future: bool,
    ) -> (r: Result<(), LightningError>)
        requires
            old(self).wf(),
        ensures
            final(self).wf(),
            final(self).buy_handled(
                old(self),
                *counterparty_node_id,
                request_id,
                params.opening_fee_params,
                params.payment_size_msat,
                valid_until_in_future,
                r is Ok,
            ),
    {
        if let Some(payment_size_msat) = params.payment_size_msat {
            if payment_size_msat < params.opening_fee_params.min_payment_size_msat {
                return self.reject_buy(
                    counterparty_node_id,
                    request_id,
                    LSPS2_BUY_REQUEST_PAYMENT_SIZE_TOO_SMALL_ERROR_CODE,
                    "payment size is below our minimum supported payment size",
                );
            }
            if payment_size_msat > params.opening_fee_params.max_payment_size_msat {
                return self.reject_buy(
                    counterparty_node_id,
                    request_id,
                    LSPS2_BUY_REQUEST_PAYMENT_SIZE_TOO_LARGE_ERROR_CODE,
                    "payment size is above our maximum supported payment size",
                );
            }
            match compute_opening_fee(
                payment_size_msat,
                params.opening_fee_params.min_fee_msat,
                params.opening_fee_params.proportional as u64,
            ) {
                Some(opening_fee) => {
                    if opening_fee >= payment_size_msat {
                        return self.reject_buy(
                            counterparty_node_id,
                            request_id,
                            LSPS2_BUY_REQUEST_PAYMENT_SIZE_TOO_SMALL_ERROR_CODE,
                            "payment size is too small to cover the opening fee",
                        );
                    }
                },
                None => {
                    return self.reject_buy(
                        counterparty_node_id,
                        request_id,
                        LSPS2_BUY_REQUEST_PAYMENT_SIZE_TOO_LARGE_ERROR_CODE,
                        "overflow error when calculating opening_fee",
                    );
                },
            }
        }
        if !is_valid_opening_fee_params(
            &params.opening_fee_params,
            &self.config.promise_secret,
            valid_until_in_future,
        ) {
            return self.reject_buy(
                counterparty_node_id,
                request_id,
                LSPS2_BUY_REQUEST_INVALID_OPENING_FEE_PARAMS_ERROR_CODE,
                "valid_until is already past OR the promise did not match the provided parameters",
            );
        }
        let recorded = BuyRequest {
            opening_fee_params: params.opening_fee_params.duplicate(),
            payment_size_msat: params.payment_size_msat,
        };
        self.record_request(counterparty_node_id, request_id.clone(), LSPS2Request::Buy(recorded));
        self.pending_events.push(
            LSPS2ServiceEvent::BuyRequest {
                request_id,
                counterparty_node_id: *counterparty_node_id,
                opening_fee_params: params.opening_fee_params,
                payment_size_msat: params.payment_size_msat,
            },
        );
        Ok(())
    }

    /// Handles a protocol message from `counterparty_node_id`.
    /// `valid_until_in_future` says whether the `valid_until` of the fee
    /// parameters in a `buy` request lies after the current time; other
    /// messages ignore it. A response is refused: this side only serves.
    pub fn handle_message(
        &mut self,
        message: LSPS2Message,
        counterparty_node_id: &PeerId,
        valid_until_in_future: bool,
    ) -> (r: Result<(), LightningError>)
        requires
            old(self).wf(),
        ensures
            final(self).wf(),
            match message {
                LSPS2Message::Request(request_id, LSPS2Request::GetInfo(params)) => {
                    &&& r is Ok
                    &&& final(self).get_info_handled(
                        old(self),
                        *counterparty_node_id,
                        request_id,
                        params.token,
                    )
                },
                LSPS2Message::Request(request_id, LSPS2Request::Buy(params)) => final(self).buy_handled(
                    old(self),
                    *counterparty_node_id,
                    request_id,
                    params.opening_fee_params,
                    params.payment_size_msat,
                    valid_until_in_future,
                    r is Ok,
                ),
                LSPS2Message::Response(_, _) => {
                    &&& r is Err
                    &&& *final(self) == *old(self)
                },
            },
    {
        match message {
            LSPS2Message::Request(request_id, request) => match request {
                LSPS2Request::GetInfo(params) => {
                    self.handle_get_info_request(request_id, counterparty_node_id, params)
                },
                LSPS2Request::Buy(params) => {
                    self.handle_buy_request(request_id, counterparty_node_id, params, valid_until_in_future)
                },
            },
            _ => Err(
                LightningError {
                    err: "Service handler received LSPS2 response message. This should never happen.".to_string(),
                },
            ),
        }
    }

    /// Puts the state `ps` of `peer` back at index `pi`, where it was taken from.
    fn put_peer(&mut self, pi: usize, peer: PeerId, ps: PeerState, Ghost(pre): Ghost<Seq<(PeerId, PeerState)>>)
        requires
            old(self).per_peer_state@ == pre.remove(pi as int),
            0 <= pi < pre.len(),
            pi == key_index(pre, peer),
            ps.wf(),
            forall|i: int| 0 <= i < pre.len() ==> (#[trigger] pre[i]).1.wf(),
            keys_unique(pre),
            keys_unique(old(self).peer_by_intercept_scid@),
            keys_unique(old(self).peer_by_channel_id@),
        ensures
            final(self).wf(),
            final(self).per_peer_state@ == pre.update(pi as int, (peer, ps)),
            key_index(final(self).per_peer_state@, peer) == pi,
            lookup(final(self).per_peer_state@, peer) == Some(ps),
            final(self).same_outside_peers(old(self)),
    {
        self.per_peer_state.insert(pi, (peer, ps));
        proof {
            assert(self.per_peer_state@ =~= pre.update(pi as int, (peer, ps)));
            crate::registry::lemma_key_index_props(pre, peer);
            crate::registry::lemma_update_unique(pre, pi as int, ps);
            crate::registry::lemma_key_index_props(pre, peer);
            crate::registry::lemma_key_index_update(pre, peer, ps);
            assert forall|j: int| 0 <= j < self.per_peer_state@.len() implies (
            #[trigger] self.per_peer_state@[j]).1.wf() by {
                if j != pi {
                    assert(self.per_peer_state@[j] == pre[j]);
                }
            }
        }
    }

    /// Removes the request of `peer` under `request_id` and returns it; `None`
    /// when nothing is kept for `peer`.
    fn take_request(&mut self, peer: &PeerId, request_id: &String) -> (r: Option<Option<LSPS2Request>>)
        requires
            old(self).wf(),
        ensures
            final(self).wf(),
            final(self).same_outside_peers(old(self)),
            Self::request_taken(final(self), old(self), *peer, request_id@),
            r == match old(self).peer_state(*peer) {
                None => None,
                Some(ps) => Some(text_lookup(ps.pending_requests@, request_id@)),
            },
    {
        let pi = find_bytes(&self.per_peer_state, peer);
        proof {
            crate::registry::lemma_key_index_props(self.per_peer_state@, *peer);
        }
        if pi == self.per_peer_state.len() {
            return None;
        }
        let ghost pre = self.per_peer_state@;
        let (pid, mut ps) = self.per_peer_state.remove(pi);
        let ri = find_text(&ps.pending_requests, request_id);
        proof {
            crate::registry::lemma_text_key_index_props(ps.pending_requests@, request_id@);
        }
        let found = if ri < ps.pending_requests.len() {
            let (_, request) = ps.pending_requests.remove(ri);
            Some(request)
        } else {
            None
        };
        proof {
            assert(ps.wf()) by {
                assert(ps.outbound_channels_by_intercept_scid == pre[pi as int].1.outbound_channels_by_intercept_scid);
            }
        }
        self.put_peer(pi, pid, ps, Ghost(pre));
        Some(found)
    }

    /// Tells a client that the token of its `get_info` request is not known.
    /// Called in answer to a `GetInfo` event; fails when no such request of
    /// `counterparty_node_id` awaits an answer.
    pub fn invalid_token_provided(&mut self, counterparty_node_id: &PeerId, request_id: String) -> (r: Result<(), APIError>)
        requires
            old(self).wf(),
        ensures
            final(self).wf(),
            r is Ok <==> old(self).pending_request(*counterparty_node_id, request_id@) matches Some(
                LSPS2Request::GetInfo(_),
            ),
            r is Ok ==> {
                &&& final(self).pending_messages@.len() == old(self).pending_messages@.len() + 1
                &&& final(self).pending_messages@.drop_last() == old(self).pending_messages@
                &&& is_stale_token_error(final(self).pending_messages@.last(), *counterparty_node_id, request_id@)
            },
            r is Err ==> final(self).pending_messages == old(self).pending_messages,
            Self::request_taken(final(self), old(self), *counterparty_node_id, request_id@),
            final(self).pending_events == old(self).pending_events,
            final(self).pending_htlc_actions == old(self).pending_htlc_actions,
            final(self).peer_by_intercept_scid == old(self).peer_by_intercept_scid,
            final(self).peer_by_channel_id == old(self).peer_by_channel_id,
            final(self).config == old(self).config,
    {
        match self.take_request(counterparty_node_id, &request_id) {
            Some(Some(LSPS2Request::GetInfo(_))) => {
                let response = LSPS2Response::GetInfoError(
                    ResponseError {
                        code: LSPS2_GET_INFO_REQUEST_UNRECOGNIZED_OR_STALE_TOKEN_ERROR_CODE,
                        message: "an unrecognized or stale token was provided".to_string(),
                    },
                );
                self.pending_messages.push((*counterparty_node_id, LSPS2Message::Response(request_id, response)));
                proof {
                    assert(self.pending_messages@.drop_last() =~= old(self).pending_messages@);
                }
                Ok(())
            },
            Some(_) => Err(APIError::APIMisuseError { err: "No pending get_info request for request_id".to_string() }),
            None => Err(APIError::APIMisuseError { err: "No state for the counterparty exists".to_string() }),
        }
    }

    /// Signs the fee parameters on offer and sends them to a client. Called in
    /// answer to a `GetInfo` event; fails when no such request of
    /// `counterparty_node_id` awaits an answer.
    pub fn opening_fee_params_generated(
        &mut self,
        counterparty_node_id: &PeerId,
        request_id: String,
        opening_fee_params_menu: Vec<RawOpeningFeeParams>,
    ) -> (r: Result<(), APIError>)
        requires
            old(self).wf(),
        ensures
            final(self).wf(),
            r is Ok <==> old(self).pending_request(*counterparty_node_id, request_id@) matches Some(
                LSPS2Request::GetInfo(_),
            ),
            r is Ok ==> {
                &&& final(self).pending_messages@.len() == old(self).pending_messages@.len() + 1
                &&& final(self).pending_messages@.drop_last() == old(self).pending_messages@
                &&& final(self).pending_messages@.last().0 == *counterparty_node_id
                &&& final(self).pending_messages@.last().1 matches LSPS2Message::Response(
                    id,
                    LSPS2Response::GetInfo(GetInfoResponse { opening_fee_params_menu: menu }),
                )
                &&& id@ == request_id@
                &&& menu@.len() == opening_fee_params_menu@.len()
                &&& forall|i: int|
                    0 <= i < menu@.len() ==> signed_from(
                        #[trigger] menu@[i],
                        opening_fee_params_menu@[i],
                        old(self).config.promise_secret@,
                    )
            },
            r is Err ==> final(self).pending_messages == old(self).pending_messages,
            Self::request_taken(final(self), old(self), *counterparty_node_id, request_id@),
            final(self).pending_events == old(self).pending_events,
            final(self).pending_htlc_actions == old(self).pending_htlc_actions,
            final(self).peer_by_intercept_scid == old(self).peer_by_intercept_scid,
            final(self).peer_by_channel_id == old(self).peer_by_channel_id,
            final(self).config == old(self).config,
    {
        match self.take_request(counterparty_node_id, &request_id) {
            Some(Some(LSPS2Request::GetInfo(_))) => {
                let ghost raw = opening_fee_params_menu@;
                let mut remaining = opening_fee_params_menu;
                let mut signed: Vec<crate::promise::OpeningFeeParams> = Vec::new();
                proof {
                    assert(remaining@ =~= raw.skip(0));
                }
                while remaining.len() > 0
                    invariant
                        signed@.len() + remaining@.len() == raw.len(),
                        remaining@ == raw.skip(signed@.len() as int),
                        forall|i: int|
                            0 <= i < signed@.len() ==> signed_from(
                                #[trigger] signed@[i],
                                raw[i],
                                self.config.promise_secret@,
                            ),
                    decreases remaining@.len(),
                {
                    let item = remaining.remove(0);
                    proof {
                        assert(item == raw[signed@.len() as int]);
                        assert(remaining@ =~= raw.skip(signed@.len() as int + 1));
                    }
                    signed.push(item.into_opening_fee_params(&self.config.promise_secret));
                }
                let response = LSPS2Response::GetInfo(GetInfoResponse { opening_fee_params_menu: signed });
                self.pending_messages.push((*counterparty_node_id, LSPS2Message::Response(request_id, response)));
                proof {
                    assert(self.pending_messages@.drop_last() =~= old(self).pending_messages@);
                }
                Ok(())
            },
            Some(_) => Err(APIError::APIMisuseError { err: "No pending get_info request for request_id".to_string() }),
            None => Err(APIError::APIMisuseError { err: "No state for the counterparty exists".to_string() }),
        }
    }

    /// Sells `intercept_scid` to a client: the channel it pays for is recorded,
    /// awaiting its initial payment, and the client is told what to put in its
    /// invoice. Called in answer to a `BuyRequest` event; fails when no such
    /// request of `counterparty_node_id` awaits an answer.
    pub fn invoice_parameters_generated(
        &mut self,
        counterparty_node_id: &PeerId,
        request_id: String,
        intercept_scid: u64,
        cltv_expiry_delta: u32,
        client_trusts_lsp: bool,
        user_channel_id: u128,
    ) -> (r: Result<(), APIError>)
        requires
            old(self).wf(),
        ensures
            final(self).wf(),
            r is Ok <==> old(self).pending_request(*counterparty_node_id, request_id@) matches Some(
                LSPS2Request::Buy(_),
            ),
            r is Ok ==> {
                &&& old(self).pending_request(*counterparty_node_id, request_id@) matches Some(
                    LSPS2Request::Buy(buy),
                )
                &&& final(self).peer_by_intercept_scid@ == upserted(
                    old(self).peer_by_intercept_scid@,
                    intercept_scid,
                    *counterparty_node_id,
                )
                &&& final(self).peer_state(*counterparty_node_id) matches Some(ps)
                &&& lookup(ps.intercept_scid_by_user_channel_id@, user_channel_id) == Some(intercept_scid)
                &&& lookup(ps.outbound_channels_by_intercept_scid@, intercept_scid) matches Some(channel)
                &&& old(self).peer_state(*counterparty_node_id) matches Some(ops)
                &&& Self::peer_updated(final(self), old(self), *counterparty_node_id, ps)
                &&& ps.pending_requests@ == without_request(ops.pending_requests@, request_id@)
                &&& ps.intercept_scid_by_channel_id == ops.intercept_scid_by_channel_id
                &&& ps.intercept_scid_by_user_channel_id@ == upserted(
                    ops.intercept_scid_by_user_channel_id@,
                    user_channel_id,
                    intercept_scid,
                )
                &&& ps.outbound_channels_by_intercept_scid@ == upserted(
                    ops.outbound_channels_by_intercept_scid@,
                    intercept_scid,
                    channel,
                )
                &&& channel.state == OutboundJITChannelState::PendingInitialPayment
                &&& channel.user_channel_id == user_channel_id
                &&& channel.opening_fee_params == buy.opening_fee_params
                &&& channel.payment_size_msat == buy.payment_size_msat
                &&& channel.payment_queue.groups().len() == 0
                &&& final(self).pending_messages@.len() == old(self).pending_messages@.len() + 1
                &&& final(self).pending_messages@.drop_last() == old(self).pending_messages@
                &&& final(self).pending_messages@.last().0 == *counterparty_node_id
                &&& final(self).pending_messages@.last().1 matches LSPS2Message::Response(
                    id,
                    LSPS2Response::Buy(response),
                )
                &&& id@ == request_id@
                &&& response.intercept_scid == intercept_scid
                &&& response.lsp_cltv_expiry_delta == cltv_expiry_delta
                &&& response.client_trusts_lsp == client_trusts_lsp
            },
            r is Err ==> {
                &&& final(self).pending_messages == old(self).pending_messages
                &&& final(self).peer_by_intercept_scid == old(self).peer_by_intercept_scid
                &&& Self::request_taken(final(self), old(self), *counterparty_node_id, request_id@)
            },
            final(self).pending_events == old(self).pending_events,
            final(self).pending_htlc_actions == old(self).pending_htlc_actions,
            final(self).peer_by_channel_id == old(self).peer_by_channel_id,
            final(self).config == old(self).config,
    {
        match self.take_request(counterparty_node_id, &request_id) {
            Some(Some(LSPS2Request::Buy(buy_request))) => {
                proof {
                    crate::registry::lemma_upserted_unique(self.peer_by_intercept_scid@, intercept_scid, *counterparty_node_id);
                }
                upsert_u64(&mut self.peer_by_intercept_scid, intercept_scid, *counterparty_node_id);
                let channel = OutboundJITChannel::new(
                    buy_request.payment_size_msat,
                    buy_request.opening_fee_params,
                    user_channel_id,
                );
                let pi = find_bytes(&self.per_peer_state, counterparty_node_id);
                proof {
                    crate::registry::lemma_key_index_props(self.per_peer_state@, *counterparty_node_id);
                }
                let ghost pre = self.per_peer_state@;
                let (pid, mut ps) = self.per_peer_state.remove(pi);
                proof {
                    assert(ps == pre[pi as int].1);
                }
                proof {
                    crate::registry::lemma_upserted_unique(ps.intercept_scid_by_user_channel_id@, user_channel_id, intercept_scid);
                }
                upsert_u128(&mut ps.intercept_scid_by_user_channel_id, user_channel_id, intercept_scid);
                ps.insert_outbound_channel(intercept_scid, channel);
                proof {
                    crate::registry::lemma_upserted_lookup(
                        pre[pi as int].1.intercept_scid_by_user_channel_id@,
                        user_channel_id,
                        intercept_scid,
                    );
                    crate::registry::lemma_upserted_lookup(
                        pre[pi as int].1.outbound_channels_by_intercept_scid@,
                        intercept_scid,
                        channel,
                    );
                }
                let ghost psf = ps;
                self.put_peer(pi, pid, ps, Ghost(pre));
                proof {
                    let o = old(self).per_peer_state@;
                    crate::registry::lemma_key_index_props(o, *counterparty_node_id);
                    crate::registry::lemma_key_index_update(o, *counterparty_node_id, pre[pi as int].1);
                    assert(self.per_peer_state@ =~= o.update(key_index(o, *counterparty_node_id), (*counterparty_node_id, psf)));
                }
                let response = LSPS2Response::Buy(
                    BuyResponse { intercept_scid, lsp_cltv_expiry_delta: cltv_expiry_delta, client_trusts_lsp },
                );
                self.pending_messages.push((*counterparty_node_id, LSPS2Message::Response(request_id, response)));
                proof {
                    assert(self.pending_messages@.drop_last() =~= old(self).pending_messages@);
                }
                Ok(())
            },
            Some(_) => Err(APIError::APIMisuseError { err: "No pending buy request for request_id".to_string() }),
            None => Err(APIError::APIMisuseError { err: "No state for the counterparty exists".to_string() }),
        }
    }

    /// Takes an HTLC that the channel manager intercepted towards
    /// `intercept_scid`. When the SCID was sold, the HTLC goes to its channel:
    /// a payment large enough asks the operator, by an `OpenChannel` event, to
    /// open the channel; a payment the offer does not admit has the HTLC
    /// failed back and the channel dropped. An SCID that was not sold, or whose
    /// channel is gone, is left to the channel manager.
    pub fn htlc_intercepted(
        &mut self,
        intercept_scid: u64,
        intercept_id: [u8; 32],
        expected_outbound_amount_msat: u64,
        payment_hash: [u8; 32],
    ) -> (r: Result<(), APIError>)
        requires
            old(self).wf(),
        ensures
            final(self).wf(),
            final(self).pending_messages == old(self).pending_messages,
            final(self).peer_by_intercept_scid == old(self).peer_by_intercept_scid,
            final(self).peer_by_channel_id == old(self).peer_by_channel_id,
            final(self).config == old(self).config,
            ({
                let htlc = InterceptedHTLC { intercept_id, expected_outbound_amount_msat, payment_hash };
                match lookup(old(self).peer_by_intercept_scid@, intercept_scid) {
                    None => r is Ok && *final(self) == *old(self),
                    Some(peer) => match old(self).peer_state(peer) {
                        None => r is Err && *final(self) == *old(self),
                        Some(ps) => match lookup(ps.outbound_channels_by_intercept_scid@, intercept_scid) {
                            None => {
                                &&& r is Ok
                                &&& final(self).pending_events == old(self).pending_events
                                &&& final(self).pending_htlc_actions == old(self).pending_htlc_actions
                                &&& final(self).per_peer_state@ == old(self).per_peer_state@
                            },
                            Some(channel) => match channel_intercept_outcome(channel, htlc) {
                                None => {
                                    &&& r is Err
                                    &&& final(self).pending_events == old(self).pending_events
                                    &&& final(self).pending_htlc_actions@ == old(self).pending_htlc_actions@.push(
                                        HtlcAction::Fail { intercept_id },
                                    )
                                    &&& final(self).peer_state(peer) matches Some(nps)
                                    &&& Self::peer_updated(final(self), old(self), peer, nps)
                                    &&& nps.outbound_channels_by_intercept_scid@ == ps.outbound_channels_by_intercept_scid@.remove(
                                        key_index(ps.outbound_channels_by_intercept_scid@, intercept_scid),
                                    )
                                    &&& lookup(nps.outbound_channels_by_intercept_scid@, intercept_scid) is None
                                    &&& nps.intercept_scid_by_user_channel_id == ps.intercept_scid_by_user_channel_id
                                    &&& nps.intercept_scid_by_channel_id == ps.intercept_scid_by_channel_id
                                    &&& nps.pending_requests == ps.pending_requests
                                },
                                Some((next, open)) => {
                                    &&& r is Ok
                                    &&& final(self).pending_htlc_actions == old(self).pending_htlc_actions
                                    &&& final(self).peer_state(peer) matches Some(nps)
                                    &&& lookup(nps.outbound_channels_by_intercept_scid@, intercept_scid) matches Some(
                                        c,
                                    )
                                    &&& c.state == next
                                    &&& c.payment_queue.groups() == with_htlc(channel.payment_queue.groups(), htlc)
                                    &&& c.user_channel_id == channel.user_channel_id
                                    &&& c.opening_fee_params == channel.opening_fee_params
                                    &&& c.payment_size_msat == channel.payment_size_msat
                                    &&& Self::peer_updated(final(self), old(self), peer, nps)
                                    &&& nps.outbound_channels_by_intercept_scid@ == ps.outbound_channels_by_intercept_scid@.update(
                                        key_index(ps.outbound_channels_by_intercept_scid@, intercept_scid),
                                        (intercept_scid, c),
                                    )
                                    &&& nps.intercept_scid_by_user_channel_id == ps.intercept_scid_by_user_channel_id
                                    &&& nps.intercept_scid_by_channel_id == ps.intercept_scid_by_channel_id
                                    &&& nps.pending_requests == ps.pending_requests
                                    &&& final(self).pending_events@ == match open {
                                        Some(p) => old(self).pending_events@.push(
                                            LSPS2ServiceEvent::OpenChannel {
                                                their_network_key: peer,
                                                amt_to_forward_msat: p.amt_to_forward_msat,
                                                opening_fee_msat: p.opening_fee_msat,
                                                user_channel_id: channel.user_channel_id,
                                                intercept_scid,
                                            },
                                        ),
                                        None => old(self).pending_events@,
                                    }
                                },
                            },
                        },
                    },
                }
            }),
    {
        let si = find_u64(&self.peer_by_intercept_scid, intercept_scid);
        if si == self.peer_by_intercept_scid.len() {
            return Ok(());
        }
        let counterparty_node_id = self.peer_by_intercept_scid[si].1;
        let pi = find_bytes(&self.per_peer_state, &counterparty_node_id);
        proof {
            crate::registry::lemma_key_index_props(self.per_peer_state@, counterparty_node_id);
        }
        if pi == self.per_peer_state.len() {
            return Err(APIError::APIMisuseError { err: "No counterparty found for scid".to_string() });
        }
        let ghost pre = self.per_peer_state@;
        let (pid, mut ps) = self.per_peer_state.remove(pi);
        proof {
            assert(ps == pre[pi as int].1);
        }
        let ci = find_u64(&ps.outbound_channels_by_intercept_scid, intercept_scid);
        if ci == ps.outbound_channels_by_intercept_scid.len() {
            self.put_peer(pi, pid, ps, Ghost(pre));
            proof {
                assert(self.per_peer_state@ =~= old(self).per_peer_state@);
            }
            return Ok(());
        }
        let ghost channels = ps.outbound_channels_by_intercept_scid@;
        let (scid, mut channel) = ps.outbound_channels_by_intercept_scid.remove(ci);
        proof {
            assert(channel.wf());
            assert forall|j: int| 0 <= j < ps.outbound_channels_by_intercept_scid@.len() implies (
            #[trigger] ps.outbound_channels_by_intercept_scid@[j]).1.wf() by {
                assert(ps.outbound_channels_by_intercept_scid@[j] == channels[if j < ci { j } else { j + 1 }]);
            }
        }
        let htlc = InterceptedHTLC { intercept_id, expected_outbound_amount_msat, payment_hash };
        match channel.htlc_intercepted(htlc) {
            Ok(open_channel_params) => {
                let user_channel_id = channel.user_channel_id;
                let ghost next = channel;
                ps.outbound_channels_by_intercept_scid.insert(ci, (scid, channel));
                proof {
                    assert(ps.outbound_channels_by_intercept_scid@ =~= channels.update(ci as int, (scid, next)));
                    crate::registry::lemma_key_index_props(channels, intercept_scid);
                    crate::registry::lemma_update_unique(channels, ci as int, next);
            crate::registry::lemma_key_index_update(channels, intercept_scid, next);
                    assert forall|j: int| 0 <= j < ps.outbound_channels_by_intercept_scid@.len() implies (
                    #[trigger] ps.outbound_channels_by_intercept_scid@[j]).1.wf() by {
                        if j != ci {
                            assert(ps.outbound_channels_by_intercept_scid@[j] == channels[j]);
                        }
                    }
                }
                self.put_peer(pi, pid, ps, Ghost(pre));
                if let Some(params) = open_channel_params {
                    self.pending_events.push(
                        LSPS2ServiceEvent::OpenChannel {
                            their_network_key: counterparty_node_id,
                            amt_to_forward_msat: params.amt_to_forward_msat,
                            opening_fee_msat: params.opening_fee_msat,
                            user_channel_id,
                            intercept_scid,
                        },
                    );
                }
                Ok(())
            },
            Err(e) => {
                proof {
                    crate::registry::lemma_key_index_props(channels, intercept_scid);
                    crate::registry::lemma_remove_unique(channels, intercept_scid);
                    assert(ps.outbound_channels_by_intercept_scid@ == channels.remove(ci as int));
                }
                self.pending_htlc_actions.push(HtlcAction::Fail { intercept_id });
                self.put_peer(pi, pid, ps, Ghost(pre));
                Err(APIError::APIMisuseError { err: e.0 })
            },
        }
    }

    /// Queues the instructions that forward `amounts` over `channel_id`.
    fn forward_all(&mut self, amounts: &Vec<([u8; 32], u64)>, channel_id: &[u8; 32], peer: &PeerId)
        ensures
            final(self).pending_htlc_actions@ == old(self).pending_htlc_actions@ + Seq::new(
                amounts@.len(),
                |i: int|
                    HtlcAction::Forward {
                        intercept_id: amounts@[i].0,
                        channel_id: *channel_id,
                        counterparty_node_id: *peer,
                        amount_to_forward_msat: amounts@[i].1,
                    },
            ),
            final(self).per_peer_state == old(self).per_peer_state,
            final(self).pending_messages == old(self).pending_messages,
            final(self).pending_events == old(self).pending_events,
            final(self).peer_by_intercept_scid == old(self).peer_by_intercept_scid,
            final(self).peer_by_channel_id == old(self).peer_by_channel_id,
            final(self).config == old(self).config,
    {
        let ghost target = Seq::new(
            amounts@.len(),
            |i: int|
                HtlcAction::Forward {
                    intercept_id: amounts@[i].0,
                    channel_id: *channel_id,
                    counterparty_node_id: *peer,
                    amount_to_forward_msat: amounts@[i].1,
                },
        );
        let mut k: usize = 0;
        while k < amounts.len()
            invariant
                0 <= k <= amounts@.len(),
                target.len() == amounts@.len(),
                forall|i: int| 0 <= i < amounts@.len() ==> #[trigger] target[i] == (HtlcAction::Forward {
                    intercept_id: amounts@[i].0,
                    channel_id: *channel_id,
                    counterparty_node_id: *peer,
                    amount_to_forward_msat: amounts@[i].1,
                }),
                self.pending_htlc_actions@ == old(self).pending_htlc_actions@ + target.take(k as int),
                self.per_peer_state == old(self).per_peer_state,
                self.pending_messages == old(self).pending_messages,
                self.pending_events == old(self).pending_events,
                self.peer_by_intercept_scid == old(self).peer_by_intercept_scid,
                self.peer_by_channel_id == old(self).peer_by_channel_id,
                self.config == old(self).config,
            decreases amounts@.len() - k,
        {
            self.pending_htlc_actions.push(
                HtlcAction::Forward {
                    intercept_id: amounts[k].0,
                    channel_id: *channel_id,
                    counterparty_node_id: *peer,
                    amount_to_forward_msat: amounts[k].1,
                },
            );
            proof {
                assert(self.pending_htlc_actions@ =~= old(self).pending_htlc_actions@ + target.take(k as int + 1));
            }
            k = k + 1;
        }
        proof {
            assert(target.take(k as int) =~= target);
        }
    }

    /// Takes the news that the channel opened for `user_channel_id` is ready.
    /// The payment that covers the opening fee is forwarded with the fee taken
    /// from it, spread over its HTLCs; every other HTLC held for the channel is
    /// then forwarded in full. Fails, with nothing forwarded, when nothing is
    /// known of the channel, when it is not being opened, or when no held
    /// payment covers the fee.
    pub fn channel_ready(&mut self, user_channel_id: u128, channel_id: &[u8; 32], counterparty_node_id: &PeerId) -> (r: Result<(), APIError>)
        requires
            old(self).wf(),
        ensures
            final(self).wf(),
            final(self).peer_by_channel_id@ == upserted(
                old(self).peer_by_channel_id@,
                *channel_id,
                *counterparty_node_id,
            ),
            final(self).pending_messages == old(self).pending_messages,
            final(self).pending_events == old(self).pending_events,
            final(self).peer_by_intercept_scid == old(self).peer_by_intercept_scid,
            final(self).config == old(self).config,
            r is Err ==> final(self).pending_htlc_actions == old(self).pending_htlc_actions,
            ({
                let peer = *counterparty_node_id;
                match old(self).peer_state(peer) {
                    None => r is Err && final(self).per_peer_state == old(self).per_peer_state,
                    Some(ps) => match lookup(ps.intercept_scid_by_user_channel_id@, user_channel_id) {
                        None => r is Err && final(self).per_peer_state@ == old(self).per_peer_state@,
                        Some(scid) => {
                            &&& final(self).peer_state(peer) matches Some(nps)
                            &&& Self::peer_updated(final(self), old(self), peer, nps)
                            &&& nps.intercept_scid_by_channel_id@ == upserted(
                                ps.intercept_scid_by_channel_id@,
                                *channel_id,
                                scid,
                            )
                            &&& nps.intercept_scid_by_user_channel_id == ps.intercept_scid_by_user_channel_id
                            &&& nps.pending_requests == ps.pending_requests
                            &&& match lookup(ps.outbound_channels_by_intercept_scid@, scid) {
                                None => {
                                    &&& r is Err
                                    &&& nps.outbound_channels_by_intercept_scid == ps.outbound_channels_by_intercept_scid
                                },
                                Some(channel) => {
                                    let gs = channel.payment_queue.groups();
                                    &&& lookup(nps.outbound_channels_by_intercept_scid@, scid) matches Some(c)
                                    &&& nps.outbound_channels_by_intercept_scid@ == ps.outbound_channels_by_intercept_scid@.update(
                                        key_index(ps.outbound_channels_by_intercept_scid@, scid),
                                        (scid, c),
                                    )
                                    &&& c.user_channel_id == channel.user_channel_id
                                    &&& c.opening_fee_params == channel.opening_fee_params
                                    &&& c.payment_size_msat == channel.payment_size_msat
                                    &&& match channel.state {
                                        OutboundJITChannelState::PendingChannelOpen { opening_fee_msat } => {
                                            let i = first_above(gs, opening_fee_msat as int);
                                            if i < gs.len() {
                                                &&& r is Ok
                                                &&& final(self).pending_htlc_actions@ == old(self).pending_htlc_actions@
                                                    + fee_forwards(gs[i].1, opening_fee_msat, *channel_id, peer)
                                                    + full_forwards(flatten(gs.remove(i)), *channel_id, peer)
                                                &&& c.state == OutboundJITChannelState::PaymentForwarded
                                                &&& c.payment_queue.groups().len() == 0
                                            } else {
                                                &&& r is Err
                                                &&& c.state == channel.state
                                                &&& c.payment_queue.groups() == gs
                                            }
                                        },
                                        _ => {
                                            &&& r is Err
                                            &&& c.state == channel.state
                                            &&& c.payment_queue.groups() == gs
                                        },
                                    }
                                },
                            }
                        },
                    },
                }
            }),
    {
        proof {
            crate::registry::lemma_upserted_unique(self.peer_by_channel_id@, *channel_id, *counterparty_node_id);
        }
        upsert_bytes(&mut self.peer_by_channel_id, *channel_id, *counterparty_node_id);
        let pi = find_bytes(&self.per_peer_state, counterparty_node_id);
        proof {
            crate::registry::lemma_key_index_props(self.per_peer_state@, *counterparty_node_id);
        }
        if pi == self.per_peer_state.len() {
            return Err(APIError::APIMisuseError { err: "No counterparty state".to_string() });
        }
        let ghost pre = self.per_peer_state@;
        let (pid, mut ps) = self.per_peer_state.remove(pi);
        proof {
            assert(ps == pre[pi as int].1);
        }
        let ui = find_u128(&ps.intercept_scid_by_user_channel_id, user_channel_id);
        if ui == ps.intercept_scid_by_user_channel_id.len() {
            self.put_peer(pi, pid, ps, Ghost(pre));
            proof {
                assert(self.per_peer_state@ =~= pre);
            }
            return Err(APIError::APIMisuseError { err: "Could not find a channel with that user_channel_id".to_string() });
        }
        let intercept_scid = ps.intercept_scid_by_user_channel_id[ui].1;
        proof {
            crate::registry::lemma_upserted_unique(ps.intercept_scid_by_channel_id@, *channel_id, intercept_scid);
        }
        upsert_bytes(&mut ps.intercept_scid_by_channel_id, *channel_id, intercept_scid);
        let ci = find_u64(&ps.outbound_channels_by_intercept_scid, intercept_scid);
        if ci == ps.outbound_channels_by_intercept_scid.len() {
            self.put_peer(pi, pid, ps, Ghost(pre));
            return Err(APIError::APIMisuseError { err: "Could not find a channel with user_channel_id".to_string() });
        }
        let ghost channels = ps.outbound_channels_by_intercept_scid@;
        let (scid, mut channel) = ps.outbound_channels_by_intercept_scid.remove(ci);
        proof {
            assert(channel.wf());
        }
        let result = match channel.channel_ready() {
            Ok(payment) => {
                let amounts_to_forward_msat = calculate_amount_to_forward_per_htlc(
                    payment.htlcs.as_slice(),
                    payment.opening_fee_msat,
                );
                self.forward_all(&amounts_to_forward_msat, channel_id, counterparty_node_id);
                proof {
                    let htlcs = payment.htlcs@;
                    let fee = payment.opening_fee_msat;
                    let target = Seq::new(
                        amounts_to_forward_msat@.len(),
                        |i: int|
                            HtlcAction::Forward {
                                intercept_id: amounts_to_forward_msat@[i].0,
                                channel_id: *channel_id,
                                counterparty_node_id: *counterparty_node_id,
                                amount_to_forward_msat: amounts_to_forward_msat@[i].1,
                            },
                    );
                    assert(target =~= fee_forwards(htlcs, fee, *channel_id, *counterparty_node_id));
                }
                let ghost mid_actions = self.pending_htlc_actions@;
                match channel.payment_forwarded() {
                    Ok(htlcs) => {
                        let mut full: Vec<([u8; 32], u64)> = Vec::new();
                        let mut k: usize = 0;
                        while k < htlcs.len()
                            invariant
                                0 <= k <= htlcs@.len(),
                                full@.len() == k,
                                forall|j: int| 0 <= j < k ==> #[trigger] full@[j] == (
                                    htlcs@[j].intercept_id,
                                    htlcs@[j].expected_outbound_amount_msat,
                                ),
                            decreases htlcs@.len() - k,
                        {
                            full.push((htlcs[k].intercept_id, htlcs[k].expected_outbound_amount_msat));
                            k = k + 1;
                        }
                        self.forward_all(&full, channel_id, counterparty_node_id);
                        proof {
                            let target = Seq::new(
                                full@.len(),
                                |i: int|
                                    HtlcAction::Forward {
                                        intercept_id: full@[i].0,
                                        channel_id: *channel_id,
                                        counterparty_node_id: *counterparty_node_id,
                                        amount_to_forward_msat: full@[i].1,
                                    },
                            );
                            assert(target =~= full_forwards(htlcs@, *channel_id, *counterparty_node_id));
                        }
                        Ok(())
                    },
                    Err(e) => Err(APIError::APIMisuseError { err: e.0 }),
                }
            },
            Err(e) => Err(APIError::APIMisuseError { err: e.0 }),
        };
        let ghost next = channel;
        ps.outbound_channels_by_intercept_scid.insert(ci, (scid, channel));
        proof {
            assert(ps.outbound_channels_by_intercept_scid@ =~= channels.update(ci as int, (scid, next)));
            crate::registry::lemma_key_index_props(channels, intercept_scid);
            crate::registry::lemma_update_unique(channels, ci as int, next);
            crate::registry::lemma_key_index_update(channels, intercept_scid, next);
            assert forall|j: int| 0 <= j < ps.outbound_channels_by_intercept_scid@.len() implies (
            #[trigger] ps.outbound_channels_by_intercept_scid@[j]).1.wf() by {
                if j != ci {
                    assert(ps.outbound_channels_by_intercept_scid@[j] == channels[j]);
                }
            }
        }
        self.put_peer(pi, pid, ps, Ghost(pre));
        result
    }

    /// Every peer's state is well formed, and no key occurs twice in a map.
    pub open spec fn wf(&self) -> bool {
        &&& forall|i: int|
            0 <= i < self.per_peer_state@.len() ==> (#[trigger] self.per_peer_state@[i]).1.wf()
        &&& keys_unique(self.per_peer_state@)
        &&& keys_unique(self.peer_by_intercept_scid@)
        &&& keys_unique(self.peer_by_channel_id@)
    }

    /// The state kept for `peer`.
    pub open spec fn peer_state(&self, peer: PeerId) -> Option<PeerState> {
        lookup(self.per_peer_state@, peer)
    }

    /// The request of `peer` under `request_id` that awaits the operator.
    pub open spec fn pending_request(&self, peer: PeerId, request_id: Seq<char>) -> Option<LSPS2Request> {
        match self.peer_state(peer) {
            Some(ps) => text_lookup(ps.pending_requests@, request_id),
            None => None,
        }
    }

    /// A handler with nothing recorded.
    pub fn new(config: LSPS2ServiceConfig) -> (r: Self)
        ensures
            r.wf(),
            r.config == config,
            r.per_peer_state@.len() == 0,
            r.peer_by_intercept_scid@.len() == 0,
            r.peer_by_channel_id@.len() == 0,
            r.pending_messages@.len() == 0,
            r.pending_events@.len() == 0,
            r.pending_htlc_actions@.len() == 0,
    {
        LSPS2ServiceHandler {
            per_peer_state: Vec::new(),
            peer_by_intercept_scid: Vec::new(),
            peer_by_channel_id: Vec::new(),
            config,
            pending_messages: Vec::new(),
            pending_events: Vec::new(),
            pending_htlc_actions: Vec::new(),
        }
    }

    /// Hands out and forgets the queued responses.
    pub fn get_and_clear_pending_messages(&mut self) -> (r: Vec<(PeerId, LSPS2Message)>)
        ensures
            r@ == old(self).pending_messages@,
            final(self).pending_messages@.len() == 0,
            final(self).per_peer_state == old(self).per_peer_state,
            final(self).pending_events == old(self).pending_events,
            final(self).pending_htlc_actions == old(self).pending_htlc_actions,
            final(self).peer_by_intercept_scid == old(self).peer_by_intercept_scid,
            final(self).peer_by_channel_id == old(self).peer_by_channel_id,
            final(self).config == old(self).config,
    {
        let mut out: Vec<(PeerId, LSPS2Message)> = Vec::new();
        out.append(&mut self.pending_messages);
        out
    }

    /// Hands out and forgets the queued events.
    pub fn get_and_clear_pending_events(&mut self) -> (r: Vec<LSPS2ServiceEvent>)
        ensures
            r@ == old(self).pending_events@,
            final(self).pending_events@.len() == 0,
            final(self).per_peer_state == old(self).per_peer_state,
            final(self).pending_messages == old(self).pending_messages,
            final(self).pending_htlc_actions == old(self).pending_htlc_actions,
            final(self).peer_by_intercept_scid == old(self).peer_by_intercept_scid,
            final(self).peer_by_channel_id == old(self).peer_by_channel_id,
            final(self).config == old(self).config,
    {
        let mut out: Vec<LSPS2ServiceEvent> = Vec::new();
        out.append(&mut self.pending_events);
        out
    }

    /// Hands out and forgets the queued channel-manager instructions.
    pub fn get_and_clear_pending_htlc_actions(&mut self) -> (r: Vec<HtlcAction>)
        ensures
            r@ == old(self).pending_htlc_actions@,
            final(self).pending_htlc_actions@.len() == 0,
            final(self).per_peer_state == old(self).per_peer_state,
            final(self).pending_messages == old(self).pending_messages,
            final(self).pending_events == old(self).pending_events,
            final(self).peer_by_intercept_scid == old(self).peer_by_intercept_scid,
            final(self).peer_by_channel_id == old(self).peer_by_channel_id,
            final(self).config == old(self).config,
    {
        let mut out: Vec<HtlcAction> = Vec::new();
        out.append(&mut self.pending_htlc_actions);
        out
    }
}

} // verus!
