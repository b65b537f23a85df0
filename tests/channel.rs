use lsps2_service::channel::{OpenChannelParams, OutboundJITChannel, OutboundJITChannelState};
use lsps2_service::payment_queue::{InterceptedHTLC, PaymentQueue};
use lsps2_service::promise::OpeningFeeParams;

fn params(min_fee_msat: u64, proportional: u32) -> OpeningFeeParams {
    OpeningFeeParams {
        min_fee_msat,
        proportional,
        valid_until: "2035-01-01T00:00:00Z".to_string(),
        min_lifetime: 1_000,
        max_client_to_self_delay: 2_016,
        min_payment_size_msat: 1,
        max_payment_size_msat: 100_000_000,
        promise: [0; 32],
    }
}

fn htlc(id: u8, amount: u64, hash: u8) -> InterceptedHTLC {
    InterceptedHTLC {
        intercept_id: [id; 32],
        expected_outbound_amount_msat: amount,
        payment_hash: [hash; 32],
    }
}

#[test]
fn no_mpp_small_htlc_cannot_pay_fee() {
    let mut channel = OutboundJITChannel::new(None, params(100, 0), 1);
    assert!(channel.htlc_intercepted(htlc(0, 10, 0)).is_err());
    assert_eq!(channel.state, OutboundJITChannelState::PendingInitialPayment);
}

#[test]
fn no_mpp_htlc_opens_with_min_fee() {
    let mut channel = OutboundJITChannel::new(None, params(100, 0), 1);
    let open = channel.htlc_intercepted(htlc(0, 1_000, 0)).ok().unwrap();
    assert_eq!(open, Some(OpenChannelParams { opening_fee_msat: 100, amt_to_forward_msat: 900 }));
    assert_eq!(channel.state, OutboundJITChannelState::PendingChannelOpen { opening_fee_msat: 100 });
}

#[test]
fn single_htlc_covering_payment_size_opens() {
    let mut channel = OutboundJITChannel::new(Some(500_000), params(1_000, 10_000), 1);
    let open = channel.htlc_intercepted(htlc(0, 500_000, 0)).ok().unwrap();
    assert_eq!(open, Some(OpenChannelParams { opening_fee_msat: 5_000, amt_to_forward_msat: 495_000 }));
    assert_eq!(channel.state, OutboundJITChannelState::PendingChannelOpen { opening_fee_msat: 5_000 });
}

#[test]
fn mpp_parts_accumulate_until_payment_size() {
    let mut channel = OutboundJITChannel::new(Some(500_000), params(1_000, 10_000), 1);
    assert_eq!(channel.htlc_intercepted(htlc(0, 200_000, 0)).ok().unwrap(), None);
    assert_eq!(channel.state, OutboundJITChannelState::PendingInitialPayment);
    let open = channel.htlc_intercepted(htlc(1, 300_000, 0)).ok().unwrap();
    assert_eq!(open, Some(OpenChannelParams { opening_fee_msat: 5_000, amt_to_forward_msat: 495_000 }));
}

#[test]
fn channel_ready_in_wrong_state_changes_nothing() {
    let mut channel = OutboundJITChannel::new(Some(500_000), params(1_000, 10_000), 1);
    assert!(channel.channel_ready().is_err());
    assert_eq!(channel.state, OutboundJITChannelState::PendingInitialPayment);
    channel.htlc_intercepted(htlc(0, 500_000, 0)).ok().unwrap();
    let payment = channel.channel_ready().ok().unwrap();
    assert!(channel.channel_ready().is_err());
    assert_eq!(channel.state, OutboundJITChannelState::PendingPaymentForward { opening_fee_msat: 5_000 });
    assert_eq!(payment.htlcs.len(), 1);
}

#[test]
fn payment_forwarded_drains_the_rest() {
    let mut channel = OutboundJITChannel::new(Some(500_000), params(1_000, 10_000), 1);
    assert!(channel.payment_forwarded().is_err());
    channel.htlc_intercepted(htlc(0, 2_000, 1)).ok().unwrap();
    channel.htlc_intercepted(htlc(1, 500_000, 2)).ok().unwrap();
    let payment = channel.channel_ready().ok().unwrap();
    assert_eq!(payment.opening_fee_msat, 5_000);
    assert_eq!(payment.htlcs, vec![htlc(1, 500_000, 2)]);
    let rest = channel.payment_forwarded().ok().unwrap();
    assert_eq!(rest, vec![htlc(0, 2_000, 1)]);
    assert_eq!(channel.state, OutboundJITChannelState::PaymentForwarded);
    assert!(channel.payment_forwarded().is_err());
}

#[test]
fn payment_forwarded_with_nothing_left() {
    let mut channel = OutboundJITChannel::new(None, params(100, 0), 1);
    channel.htlc_intercepted(htlc(0, 1_000, 0)).ok().unwrap();
    channel.channel_ready().ok().unwrap();
    assert_eq!(channel.payment_forwarded().ok().unwrap(), vec![]);
}

#[test]
fn no_mpp_second_htlc_fails() {
    let fee_params = params(100, 0);
    let state = OutboundJITChannelState::new();
    let mut queue = PaymentQueue::new();
    // A first HTLC too small to open leaves the queue holding it.
    assert!(state.htlc_intercepted(&mut queue, &fee_params, None, htlc(0, 10, 0)).is_err());
    assert!(state.htlc_intercepted(&mut queue, &fee_params, None, htlc(1, 10_000, 1)).is_err());
    assert!(state.htlc_intercepted(&mut queue, &fee_params, None, htlc(2, 10_000, 0)).is_err());
}

#[test]
fn queue_groups_by_payment_hash() {
    let mut queue = PaymentQueue::new();
    assert_eq!(queue.add_htlc(htlc(0, 5, 1)), (5, 1));
    assert_eq!(queue.add_htlc(htlc(1, 7, 2)), (12, 2));
    assert_eq!(queue.add_htlc(htlc(2, 4, 1)), (16, 3));
    assert_eq!(queue.pop_greater_than_msat(8), Some(([1; 32], vec![htlc(0, 5, 1), htlc(2, 4, 1)])));
    assert_eq!(queue.pop_greater_than_msat(8), None);
    assert_eq!(queue.clear(), vec![htlc(1, 7, 2)]);
    assert_eq!(queue.clear(), vec![]);
}
