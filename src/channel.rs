//! The life of one just-in-time channel: from the first intercepted payment to
//! the forwarding of everything that was held for it.

use vstd::prelude::*;

use crate::fee::{compute_opening_fee, opening_fee};
use crate::payment_queue::{
    find_hash, first_above, flatten, htlcs_total, with_htlc, GroupView, InterceptedHTLC,
    PaymentQueue,
};
use crate::promise::OpeningFeeParams;

verus! {

/// The payment size and opening fee reported when a channel is to be opened.
#[derive(Clone, Copy, Debug, PartialEq, Eq)]
pub struct OpenChannelParams {
    pub opening_fee_msat: u64,
    pub amt_to_forward_msat: u64,
}

/// A payment to forward over the new channel while skimming the opening fee.
#[derive(Debug)]
pub struct FeePayment {
    pub htlcs: Vec<InterceptedHTLC>,
    pub opening_fee_msat: u64,
}

/// A transition that the channel's state does not allow.
#[derive(Debug)]
pub struct ChannelStateError(pub String);

/// The states of a just-in-time channel. The HTLCs it holds live beside the
/// state, in the channel's payment queue.
#[derive(Clone, Copy, Debug, PartialEq, Eq)]
pub enum OutboundJITChannelState {
    /// The SCID was handed out; waiting for a payment large enough to open.
    PendingInitialPayment,
    /// A large enough payment arrived and the channel is being opened.
    PendingChannelOpen { opening_fee_msat: u64 },
    /// The channel is open and the fee-paying payment is being forwarded.
    PendingPaymentForward { opening_fee_msat: u64 },
    /// The fee-paying payment was forwarded; nothing is held any longer.
    PaymentForwarded,
}

/// What intercepting an HTLC leads to, once the queue holds HTLCs summing to
/// `total` over `count` HTLCs: the next state and whether to open the channel,
/// or `None` for an error.
pub open spec fn intercept_outcome(
    params: OpeningFeeParams,
    payment_size_msat: Option<u64>,
    total: int,
    count: int,
) -> Option<(OutboundJITChannelState, Option<OpenChannelParams>)> {
    let expected = match payment_size_msat {
        Some(p) => p as int,
        None => total,
    };
    let mpp_mode = payment_size_msat is Some;
    if !mpp_mode && count != 1 {
        None
    } else if expected < params.min_payment_size_msat || expected > params.max_payment_size_msat {
        None
    } else {
        match opening_fee(expected, params.min_fee_msat as int, params.proportional as int) {
            None => None,
            Some(fee) => if total >= expected && expected - fee > 0 {
                Some(
                    (
                        OutboundJITChannelState::PendingChannelOpen { opening_fee_msat: fee as u64 },
                        Some(
                            OpenChannelParams {
                                opening_fee_msat: fee as u64,
                                amt_to_forward_msat: (expected - fee) as u64,
                            },
                        ),
                    ),
                )
            } else if mpp_mode {
                Some((OutboundJITChannelState::PendingInitialPayment, None))
            } else {
                None
            },
        }
    }
}

proof fn lemma_flatten_push(gs: Seq<GroupView>, g: GroupView)
    ensures
        flatten(gs.push(g)) == flatten(gs) + g.1,
{
    assert(gs.push(g).drop_last() =~= gs);
}

proof fn lemma_flatten_len_update(gs: Seq<GroupView>, i: int, h: InterceptedHTLC)
    requires
        0 <= i < gs.len(),
    ensures
        flatten(gs.update(i, (gs[i].0, gs[i].1.push(h)))).len() == flatten(gs).len() + 1,
    decreases gs.len(),
{
    let u = gs.update(i, (gs[i].0, gs[i].1.push(h)));
    if i == gs.len() - 1 {
        assert(u.drop_last() =~= gs.drop_last());
    } else {
        assert(u.drop_last() =~= gs.drop_last().update(i, (gs[i].0, gs[i].1.push(h))));
        lemma_flatten_len_update(gs.drop_last(), i, h);
    }
}

/// Adding an HTLC to a queue adds one HTLC to all that the queue holds.
pub proof fn lemma_with_htlc_len(gs: Seq<GroupView>, htlc: InterceptedHTLC)
    ensures
        flatten(with_htlc(gs, htlc)).len() == flatten(gs).len() + 1,
{
    let i = find_hash(gs, htlc.payment_hash);
    if i < gs.len() {
        lemma_find_hash_in_range(gs, htlc.payment_hash);
        lemma_flatten_len_update(gs, i, htlc);
    } else {
        lemma_flatten_push(gs, (htlc.payment_hash, seq![htlc]));
    }
}

proof fn lemma_find_hash_in_range(gs: Seq<GroupView>, hash: [u8; 32])
    ensures
        0 <= find_hash(gs, hash) <= gs.len(),
    decreases gs.len(),
{
    if gs.len() > 0 && gs[0].0 != hash {
        lemma_find_hash_in_range(gs.drop_first(), hash);
    }
}

/// A channel awaiting its initial payment, with nothing queued yet, opens on a
/// single HTLC that pays at least the promised payment size, provided that size
/// lies within the parameters' bounds and leaves something after the fee: it
/// moves to opening the channel with that fee and reports the size less the fee.
pub proof fn lemma_single_htlc_opens_channel(
    params: OpeningFeeParams,
    payment_size_msat: u64,
    htlc: InterceptedHTLC,
)
    requires
        htlc.expected_outbound_amount_msat >= payment_size_msat,
        params.min_payment_size_msat <= payment_size_msat <= params.max_payment_size_msat,
        opening_fee(payment_size_msat as int, params.min_fee_msat as int, params.proportional as int)
            is Some,
        payment_size_msat - opening_fee(
            payment_size_msat as int,
            params.min_fee_msat as int,
            params.proportional as int,
        )->Some_0 > 0,
    ensures
        ({
            let gs = with_htlc(Seq::empty(), htlc);
            let fee = opening_fee(
                payment_size_msat as int,
                params.min_fee_msat as int,
                params.proportional as int,
            )->Some_0;
            intercept_outcome(
                params,
                Some(payment_size_msat),
                htlcs_total(flatten(gs)),
                flatten(gs).len() as int,
            ) == Some(
                (
                    OutboundJITChannelState::PendingChannelOpen { opening_fee_msat: fee as u64 },
                    Some(
                        OpenChannelParams {
                            opening_fee_msat: fee as u64,
                            amt_to_forward_msat: (payment_size_msat - fee) as u64,
                        },
                    ),
                ),
            )
        }),
{
    let gs = with_htlc(Seq::empty(), htlc);
    assert(gs =~= seq![(htlc.payment_hash, seq![htlc])]);
    lemma_flatten_push(Seq::empty(), (htlc.payment_hash, seq![htlc]));
    assert(Seq::<GroupView>::empty().push((htlc.payment_hash, seq![htlc])) =~= gs);
    assert(flatten(gs) =~= seq![htlc]);
    crate::payment_queue::lemma_total_single(flatten(gs));
}

/// Without a promised payment size only one HTLC may pay for the channel: once
/// one is queued, intercepting another is an error.
pub proof fn lemma_no_mpp_second_htlc_fails(
    params: OpeningFeeParams,
    gs: Seq<GroupView>,
    htlc: InterceptedHTLC,
)
    requires
        flatten(gs).len() >= 1,
    ensures
        intercept_outcome(
            params,
            None,
            htlcs_total(flatten(with_htlc(gs, htlc))),
            flatten(with_htlc(gs, htlc)).len() as int,
        ) is None,
{
    lemma_with_htlc_len(gs, htlc);
}

fn state_error(message: &str) -> (r: ChannelStateError) {
    ChannelStateError(message.to_string())
}

impl OutboundJITChannelState {
    /// The state of a channel whose SCID was just handed out.
    pub fn new() -> (r: Self)
        ensures
            r == OutboundJITChannelState::PendingInitialPayment,
    {
        OutboundJITChannelState::PendingInitialPayment
    }

    /// Queues `htlc` and decides whether the channel can be opened. Only a
    /// channel awaiting its initial payment takes HTLCs; in any other state
    /// the queue is left alone and an error returned.
    pub fn htlc_intercepted(
        &self,
        payment_queue: &mut PaymentQueue,
        opening_fee_params: &OpeningFeeParams,
        payment_size_msat: Option<u64>,
        htlc: InterceptedHTLC,
    ) -> (r: Result<(Self, Option<OpenChannelParams>), ChannelStateError>)
        requires
            old(payment_queue).wf(),
        ensures
            final(payment_queue).wf(),
            *self == OutboundJITChannelState::PendingInitialPayment ==> {
                let gs = with_htlc(old(payment_queue).groups(), htlc);
                let outcome = intercept_outcome(
                    *opening_fee_params,
                    payment_size_msat,
                    htlcs_total(flatten(gs)),
                    flatten(gs).len() as int,
                );
                &&& final(payment_queue).groups() == gs
                &&& match r {
                    Ok(next) => outcome == Some(next),
                    Err(_) => outcome is None,
                }
            },
            *self != OutboundJITChannelState::PendingInitialPayment ==> {
                &&& r is Err
                &&& final(payment_queue).groups() == old(payment_queue).groups()
            },
    {
        match self {
            OutboundJITChannelState::PendingInitialPayment => {
                let (total_expected_outbound_amount_msat, num_htlcs) = payment_queue.add_htlc(htlc);
                let ghost gs = payment_queue.groups();
                let ghost total = htlcs_total(flatten(gs));
                let ghost count = flatten(gs).len() as int;
                proof {
                    crate::payment_queue::lemma_total_nonneg(flatten(gs));
                    if count == 1 {
                        crate::payment_queue::lemma_total_single(flatten(gs));
                    }
                }
                let expected_payment_size_msat: u64;
                let mpp_mode: bool;
                match payment_size_msat {
                    Some(p) => {
                        expected_payment_size_msat = p;
                        mpp_mode = true;
                    },
                    None => {
                        if num_htlcs != 1 {
                            return Err(
                                state_error(
                                    "Paying via multiple HTLCs is disallowed in \"no-MPP+var-invoice\" mode.",
                                ),
                            );
                        }
                        expected_payment_size_msat = total_expected_outbound_amount_msat;
                        mpp_mode = false;
                    },
                }
                if expected_payment_size_msat < opening_fee_params.min_payment_size_msat
                    || expected_payment_size_msat > opening_fee_params.max_payment_size_msat {
                    return Err(state_error("Payment size violates our limits"));
                }
                let opening_fee_msat = match compute_opening_fee(
                    expected_payment_size_msat,
                    opening_fee_params.min_fee_msat,
                    opening_fee_params.proportional as u64,
                ) {
                    Some(f) => f,
                    None => {
                        return Err(state_error("Could not compute valid opening fee"));
                    },
                };
                let amt_to_forward_msat = expected_payment_size_msat.saturating_sub(
                    opening_fee_msat,
                );
                if total_expected_outbound_amount_msat >= expected_payment_size_msat
                    && amt_to_forward_msat > 0 {
                    Ok(
                        (
                            OutboundJITChannelState::PendingChannelOpen { opening_fee_msat },
                            Some(OpenChannelParams { opening_fee_msat, amt_to_forward_msat }),
                        ),
                    )
                } else if mpp_mode {
                    Ok((OutboundJITChannelState::PendingInitialPayment, None))
                } else {
                    Err(state_error("Intercepted HTLC is too small to pay opening fee"))
                }
            },
            _ => Err(state_error("Intercepted HTLC when JIT Channel was not awaiting a payment")),
        }
    }

    /// Takes the first queued payment that covers the opening fee, to be
    /// forwarded over the now open channel. Only a channel being opened can
    /// become ready; otherwise, or when no payment covers the fee, the queue is
    /// left alone and an error returned.
    pub fn channel_ready(&self, payment_queue: &mut PaymentQueue) -> (r: Result<
        (Self, FeePayment),
        ChannelStateError,
    >)
        requires
            old(payment_queue).wf(),
        ensures
            final(payment_queue).wf(),
            match *self {
                OutboundJITChannelState::PendingChannelOpen { opening_fee_msat } => {
                    let gs = old(payment_queue).groups();
                    let i = first_above(gs, opening_fee_msat as int);
                    if i < gs.len() {
                        &&& r matches Ok((next, payment))
                        &&& next == OutboundJITChannelState::PendingPaymentForward {
                            opening_fee_msat,
                        }
                        &&& payment.opening_fee_msat == opening_fee_msat
                        &&& payment.htlcs@ == gs[i].1
                        &&& final(payment_queue).groups() == gs.remove(i)
                    } else {
                        &&& r is Err
                        &&& final(payment_queue).groups() == gs
                    }
                },
                _ => {
                    &&& r is Err
                    &&& final(payment_queue).groups() == old(payment_queue).groups()
                },
            },
    {
        match self {
            OutboundJITChannelState::PendingChannelOpen { opening_fee_msat } => {
                match payment_queue.pop_greater_than_msat(*opening_fee_msat) {
                    Some((_payment_hash, htlcs)) => {
                        let pending_payment_forward =
                            OutboundJITChannelState::PendingPaymentForward {
                            opening_fee_msat: *opening_fee_msat,
                        };
                        let fee_payment = FeePayment { opening_fee_msat: *opening_fee_msat, htlcs };
                        Ok((pending_payment_forward, fee_payment))
                    },
                    None => Err(
                        state_error("No forwardable payment available when moving to channel ready."),
                    ),
                }
            },
            _ => Err(state_error("Channel ready received when JIT Channel was not being opened")),
        }
    }

    /// Ends the channel's life: hands back every HTLC still queued, to be
    /// forwarded without a fee. Only a channel forwarding its fee-paying
    /// payment can do so; otherwise the queue is left alone and an error
    /// returned.
    pub fn payment_forwarded(&self, payment_queue: &mut PaymentQueue) -> (r: Result<
        (Self, Vec<InterceptedHTLC>),
        ChannelStateError,
    >)
        requires
            old(payment_queue).wf(),
        ensures
            final(payment_queue).wf(),
            *self is PendingPaymentForward ==> {
                &&& r matches Ok((next, htlcs))
                &&& next == OutboundJITChannelState::PaymentForwarded
                &&& htlcs@ == flatten(old(payment_queue).groups())
                &&& final(payment_queue).groups().len() == 0
            },
            !(*self is PendingPaymentForward) ==> {
                &&& r is Err
                &&& final(payment_queue).groups() == old(payment_queue).groups()
            },
    {
        match self {
            OutboundJITChannelState::PendingPaymentForward { .. } => {
                let htlcs = payment_queue.clear();
                Ok((OutboundJITChannelState::PaymentForwarded, htlcs))
            },
            _ => Err(state_error("Payment forwarded when JIT Channel was not forwarding")),
        }
    }
}

/// A just-in-time channel sold to a client, keyed elsewhere by its SCID.
#[derive(Debug)]
pub struct OutboundJITChannel {
    pub state: OutboundJITChannelState,
    pub user_channel_id: u128,
    pub opening_fee_params: OpeningFeeParams,
    pub payment_size_msat: Option<u64>,
    /// The HTLCs held for the channel, grouped by payment.
    pub payment_queue: PaymentQueue,
}

impl OutboundJITChannel {
    /// The channel's queue is well formed.
    pub open spec fn wf(&self) -> bool {
        self.payment_queue.wf()
    }

    /// A channel awaiting its initial payment, with an empty queue.
    pub fn new(
        payment_size_msat: Option<u64>,
        opening_fee_params: OpeningFeeParams,
        user_channel_id: u128,
    ) -> (r: Self)
        ensures
            r.wf(),
            r.state == OutboundJITChannelState::PendingInitialPayment,
            r.user_channel_id == user_channel_id,
            r.opening_fee_params == opening_fee_params,
            r.payment_size_msat == payment_size_msat,
            r.payment_queue.groups().len() == 0,
    {
        OutboundJITChannel {
            user_channel_id,
            state: OutboundJITChannelState::new(),
            opening_fee_params,
            payment_size_msat,
            payment_queue: PaymentQueue::new(),
        }
    }

    /// Runs [`OutboundJITChannelState::htlc_intercepted`] and moves to the
    /// state it gives; on an error the state stays.
    pub fn htlc_intercepted(&mut self, htlc: InterceptedHTLC) -> (r: Result<
        Option<OpenChannelParams>,
        ChannelStateError,
    >)
        requires
            old(self).wf(),
        ensures
            final(self).wf(),
            final(self).user_channel_id == old(self).user_channel_id,
            final(self).opening_fee_params == old(self).opening_fee_params,
            final(self).payment_size_msat == old(self).payment_size_msat,
            old(self).state == OutboundJITChannelState::PendingInitialPayment ==> {
                let gs = with_htlc(old(self).payment_queue.groups(), htlc);
                let outcome = intercept_outcome(
                    old(self).opening_fee_params,
                    old(self).payment_size_msat,
                    htlcs_total(flatten(gs)),
                    flatten(gs).len() as int,
                );
                &&& final(self).payment_queue.groups() == gs
                &&& match r {
                    Ok(open) => outcome == Some((final(self).state, open)),
                    Err(_) => outcome is None && final(self).state == old(self).state,
                }
            },
            old(self).state != OutboundJITChannelState::PendingInitialPayment ==> {
                &&& r is Err
                &&& final(self).state == old(self).state
                &&& final(self).payment_queue.groups() == old(self).payment_queue.groups()
            },
    {
        let (new_state, open_channel_params) = self.state.htlc_intercepted(
            &mut self.payment_queue,
            &self.opening_fee_params,
            self.payment_size_msat,
            htlc,
        )?;
        self.state = new_state;
        Ok(open_channel_params)
    }

    /// Runs [`OutboundJITChannelState::channel_ready`] and moves to the state
    /// it gives; on an error nothing changes.
    pub fn channel_ready(&mut self) -> (r: Result<FeePayment, ChannelStateError>)
        requires
            old(self).wf(),
        ensures
            final(self).wf(),
            final(self).user_channel_id == old(self).user_channel_id,
            final(self).opening_fee_params == old(self).opening_fee_params,
            final(self).payment_size_msat == old(self).payment_size_msat,
            match old(self).state {
                OutboundJITChannelState::PendingChannelOpen { opening_fee_msat } => {
                    let gs = old(self).payment_queue.groups();
                    let i = first_above(gs, opening_fee_msat as int);
                    if i < gs.len() {
                        &&& r matches Ok(payment)
                        &&& final(self).state == OutboundJITChannelState::PendingPaymentForward {
                            opening_fee_msat,
                        }
                        &&& payment.opening_fee_msat == opening_fee_msat
                        &&& payment.htlcs@ == gs[i].1
                        &&& final(self).payment_queue.groups() == gs.remove(i)
                    } else {
                        &&& r is Err
                        &&& final(self).state == old(self).state
                        &&& final(self).payment_queue.groups() == gs
                    }
                },
                _ => {
                    &&& r is Err
                    &&& final(self).state == old(self).state
                    &&& final(self).payment_queue.groups() == old(self).payment_queue.groups()
                },
            },
    {
        let (new_state, payment) = self.state.channel_ready(&mut self.payment_queue)?;
        self.state = new_state;
        Ok(payment)
    }

    /// Runs [`OutboundJITChannelState::payment_forwarded`] and moves to the
    /// state it gives; on an error nothing changes.
    pub fn payment_forwarded(&mut self) -> (r: Result<Vec<InterceptedHTLC>, ChannelStateError>)
        requires
            old(self).wf(),
        ensures
            final(self).wf(),
            final(self).user_channel_id == old(self).user_channel_id,
            final(self).opening_fee_params == old(self).opening_fee_params,
            final(self).payment_size_msat == old(self).payment_size_msat,
            old(self).state is PendingPaymentForward ==> {
                &&& r matches Ok(htlcs)
                &&& htlcs@ == flatten(old(self).payment_queue.groups())
                &&& final(self).state == OutboundJITChannelState::PaymentForwarded
                &&& final(self).payment_queue.groups().len() == 0
            },
            !(old(self).state is PendingPaymentForward) ==> {
                &&& r is Err
                &&& final(self).state == old(self).state
                &&& final(self).payment_queue.groups() == old(self).payment_queue.groups()
            },
    {
        let (new_state, payments) = self.state.payment_forwarded(&mut self.payment_queue)?;
        self.state = new_state;
        Ok(payments)
    }
}

} // verus!
