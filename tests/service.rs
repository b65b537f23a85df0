use lsps2_service::channel::OutboundJITChannelState;
use lsps2_service::msgs::{
    BuyRequest, GetInfoRequest, HtlcAction, LSPS2Message, LSPS2Request, LSPS2Response,
    LSPS2ServiceEvent, PeerId,
};
use lsps2_service::promise::{is_valid_opening_fee_params, OpeningFeeParams, RawOpeningFeeParams};
use lsps2_service::service::{LSPS2ServiceConfig, LSPS2ServiceHandler};

const SECRET: [u8; 32] = [7; 32];
const PEER: PeerId = [2; 33];

fn raw_params() -> RawOpeningFeeParams {
    RawOpeningFeeParams {
        min_fee_msat: 1_000,
        proportional: 20_000,
        valid_until: "2035-01-01T00:00:00.000Z".to_string(),
        min_lifetime: 1_000,
        max_client_to_self_delay: 2_016,
        min_payment_size_msat: 10_000,
        max_payment_size_msat: 1_000_000,
    }
}

fn signed_params(secret: &[u8; 32]) -> OpeningFeeParams {
    raw_params().into_opening_fee_params(secret)
}

fn buy(handler: &mut LSPS2ServiceHandler, id: &str, params: OpeningFeeParams, size: Option<u64>) -> bool {
    let request = LSPS2Request::Buy(BuyRequest { opening_fee_params: params, payment_size_msat: size });
    handler
        .handle_message(LSPS2Message::Request(id.to_string(), request), &PEER, true)
        .is_ok()
}

fn buy_error_code(handler: &mut LSPS2ServiceHandler) -> i32 {
    let messages = handler.get_and_clear_pending_messages();
    assert_eq!(messages.len(), 1);
    match &messages[0].1 {
        LSPS2Message::Response(_, LSPS2Response::BuyError(e)) => e.code,
        other => panic!("unexpected message {:?}", other),
    }
}

fn new_handler() -> LSPS2ServiceHandler {
    LSPS2ServiceHandler::new(LSPS2ServiceConfig { promise_secret: SECRET })
}

#[test]
fn buy_below_min_payment_size() {
    let mut handler = new_handler();
    assert!(!buy(&mut handler, "a", signed_params(&SECRET), Some(9_999)));
    assert_eq!(buy_error_code(&mut handler), 202);
    assert!(handler.get_and_clear_pending_events().is_empty());
}

#[test]
fn buy_above_max_payment_size() {
    let mut handler = new_handler();
    assert!(!buy(&mut handler, "a", signed_params(&SECRET), Some(1_000_001)));
    assert_eq!(buy_error_code(&mut handler), 203);
}

#[test]
fn buy_too_small_for_fee() {
    let mut handler = new_handler();
    let mut raw = raw_params();
    raw.min_fee_msat = 50_000;
    let params = raw.into_opening_fee_params(&SECRET);
    assert!(!buy(&mut handler, "a", params, Some(50_000)));
    assert_eq!(buy_error_code(&mut handler), 202);
}

#[test]
fn buy_with_fee_overflow() {
    let mut handler = new_handler();
    let mut raw = raw_params();
    raw.proportional = u32::MAX;
    raw.max_payment_size_msat = u64::MAX;
    let params = raw.into_opening_fee_params(&SECRET);
    assert!(!buy(&mut handler, "a", params, Some(u64::MAX / 2)));
    assert_eq!(buy_error_code(&mut handler), 203);
}

#[test]
fn buy_with_promise_of_other_secret() {
    let mut handler = new_handler();
    assert!(!buy(&mut handler, "a", signed_params(&[8; 32]), Some(100_000)));
    assert_eq!(buy_error_code(&mut handler), 201);
}

#[test]
fn buy_with_tampered_params() {
    let mut handler = new_handler();
    let mut params = signed_params(&SECRET);
    params.min_fee_msat = 1;
    assert!(!buy(&mut handler, "a", params, Some(100_000)));
    assert_eq!(buy_error_code(&mut handler), 201);
}

#[test]
fn buy_with_expired_params() {
    let mut handler = new_handler();
    let request = LSPS2Request::Buy(BuyRequest {
        opening_fee_params: signed_params(&SECRET),
        payment_size_msat: Some(100_000),
    });
    assert!(handler
        .handle_message(LSPS2Message::Request("a".to_string(), request), &PEER, false)
        .is_err());
    assert_eq!(buy_error_code(&mut handler), 201);
}

#[test]
fn valid_buy_emits_event_and_waits() {
    let mut handler = new_handler();
    assert!(buy(&mut handler, "a", signed_params(&SECRET), Some(100_000)));
    assert!(handler.get_and_clear_pending_messages().is_empty());
    let events = handler.get_and_clear_pending_events();
    assert_eq!(events.len(), 1);
    match &events[0] {
        LSPS2ServiceEvent::BuyRequest { request_id, counterparty_node_id, payment_size_msat, .. } => {
            assert_eq!(request_id, "a");
            assert_eq!(*counterparty_node_id, PEER);
            assert_eq!(*payment_size_msat, Some(100_000));
        },
        other => panic!("unexpected event {:?}", other),
    }
    assert!(handler.invoice_parameters_generated(&PEER, "a".to_string(), 42, 144, false, 7).is_ok());
    assert!(handler.invoice_parameters_generated(&PEER, "a".to_string(), 42, 144, false, 7).is_err());
}

#[test]
fn promise_round_trip() {
    let params = signed_params(&SECRET);
    assert!(is_valid_opening_fee_params(&params, &SECRET, true));
    assert!(!is_valid_opening_fee_params(&params, &SECRET, false));
    assert!(!is_valid_opening_fee_params(&params, &[8; 32], true));
    assert_ne!(params.promise, [0; 32]);
    assert_ne!(params.promise, signed_params(&[8; 32]).promise);
}

#[test]
fn response_message_is_refused() {
    let mut handler = new_handler();
    let response = LSPS2Response::GetInfoError(lsps2_service::msgs::ResponseError {
        code: 200,
        message: "x".to_string(),
    });
    assert!(handler
        .handle_message(LSPS2Message::Response("a".to_string(), response), &PEER, true)
        .is_err());
    assert!(handler.get_and_clear_pending_events().is_empty());
}

#[test]
fn invalid_token_answers_get_info() {
    let mut handler = new_handler();
    assert!(handler.invalid_token_provided(&PEER, "g".to_string()).is_err());
    let request = LSPS2Request::GetInfo(GetInfoRequest { token: Some("t".to_string()) });
    assert!(handler.handle_message(LSPS2Message::Request("g".to_string(), request), &PEER, true).is_ok());
    assert!(handler.invalid_token_provided(&PEER, "g".to_string()).is_ok());
    let messages = handler.get_and_clear_pending_messages();
    match &messages[0].1 {
        LSPS2Message::Response(id, LSPS2Response::GetInfoError(e)) => {
            assert_eq!(id, "g");
            assert_eq!(e.code, 200);
        },
        other => panic!("unexpected message {:?}", other),
    }
    assert!(handler.invalid_token_provided(&PEER, "g".to_string()).is_err());
}

fn open_jit_channel(handler: &mut LSPS2ServiceHandler) -> OpeningFeeParams {
    let request = LSPS2Request::GetInfo(GetInfoRequest { token: None });
    assert!(handler.handle_message(LSPS2Message::Request("g".to_string(), request), &PEER, true).is_ok());
    match &handler.get_and_clear_pending_events()[0] {
        LSPS2ServiceEvent::GetInfo { request_id, token, .. } => {
            assert_eq!(request_id, "g");
            assert_eq!(*token, None);
        },
        other => panic!("unexpected event {:?}", other),
    }
    assert!(handler.opening_fee_params_generated(&PEER, "g".to_string(), vec![raw_params()]).is_ok());
    let mut messages = handler.get_and_clear_pending_messages();
    let menu = match messages.pop().unwrap().1 {
        LSPS2Message::Response(_, LSPS2Response::GetInfo(response)) => response.opening_fee_params_menu,
        other => panic!("unexpected message {:?}", other),
    };
    assert_eq!(menu.len(), 1);
    assert!(is_valid_opening_fee_params(&menu[0], &SECRET, true));
    let chosen = menu[0].duplicate();
    assert!(buy(handler, "b", menu[0].duplicate(), Some(100_000)));
    handler.get_and_clear_pending_events();
    assert!(handler.invoice_parameters_generated(&PEER, "b".to_string(), 42, 144, false, 7).is_ok());
    match &handler.get_and_clear_pending_messages()[0].1 {
        LSPS2Message::Response(id, LSPS2Response::Buy(response)) => {
            assert_eq!(id, "b");
            assert_eq!(response.intercept_scid, 42);
            assert_eq!(response.lsp_cltv_expiry_delta, 144);
        },
        other => panic!("unexpected message {:?}", other),
    }
    chosen
}

#[test]
fn end_to_end_single_payment() {
    let mut handler = new_handler();
    open_jit_channel(&mut handler);
    assert!(handler.htlc_intercepted(42, [1; 32], 100_000, [9; 32]).is_ok());
    let events = handler.get_and_clear_pending_events();
    match &events[0] {
        LSPS2ServiceEvent::OpenChannel {
            their_network_key,
            amt_to_forward_msat,
            opening_fee_msat,
            user_channel_id,
            intercept_scid,
        } => {
            assert_eq!(*their_network_key, PEER);
            assert_eq!(*opening_fee_msat, 2_000);
            assert_eq!(*amt_to_forward_msat, 98_000);
            assert_eq!(*user_channel_id, 7);
            assert_eq!(*intercept_scid, 42);
        },
        other => panic!("unexpected event {:?}", other),
    }
    assert!(handler.channel_ready(7, &[5; 32], &PEER).is_ok());
    assert_eq!(
        handler.get_and_clear_pending_htlc_actions(),
        vec![HtlcAction::Forward {
            intercept_id: [1; 32],
            channel_id: [5; 32],
            counterparty_node_id: PEER,
            amount_to_forward_msat: 98_000,
        }]
    );
    let channel = &handler.per_peer_state[0].1.outbound_channels_by_intercept_scid[0].1;
    assert_eq!(channel.state, OutboundJITChannelState::PaymentForwarded);
    assert_eq!(handler.per_peer_state[0].1.intercept_scid_by_channel_id, vec![([5; 32], 42)]);
    assert_eq!(handler.peer_by_channel_id, vec![([5; 32], PEER)]);
    assert!(handler.per_peer_state[0].1.pending_requests.is_empty());
}

#[test]
fn end_to_end_queued_payments_are_drained() {
    let mut handler = new_handler();
    open_jit_channel(&mut handler);
    assert!(handler.htlc_intercepted(42, [3; 32], 1_500, [8; 32]).is_ok());
    assert!(handler.get_and_clear_pending_events().is_empty());
    assert!(handler.htlc_intercepted(42, [1; 32], 100_000, [9; 32]).is_ok());
    assert_eq!(handler.get_and_clear_pending_events().len(), 1);
    assert!(handler.channel_ready(7, &[5; 32], &PEER).is_ok());
    assert_eq!(
        handler.get_and_clear_pending_htlc_actions(),
        vec![
            HtlcAction::Forward {
                intercept_id: [1; 32],
                channel_id: [5; 32],
                counterparty_node_id: PEER,
                amount_to_forward_msat: 98_000,
            },
            HtlcAction::Forward {
                intercept_id: [3; 32],
                channel_id: [5; 32],
                counterparty_node_id: PEER,
                amount_to_forward_msat: 1_500,
            },
        ]
    );
}

#[test]
fn late_htlc_while_opening_is_failed() {
    let mut handler = new_handler();
    open_jit_channel(&mut handler);
    assert!(handler.htlc_intercepted(42, [1; 32], 100_000, [9; 32]).is_ok());
    assert!(handler.htlc_intercepted(42, [2; 32], 5_000, [9; 32]).is_err());
    assert!(handler.per_peer_state[0].1.outbound_channels_by_intercept_scid.is_empty());
    assert_eq!(
        handler.get_and_clear_pending_htlc_actions(),
        vec![HtlcAction::Fail { intercept_id: [2; 32] }]
    );
    assert!(handler.channel_ready(7, &[5; 32], &PEER).is_err());
}

#[test]
fn htlc_for_unknown_scid_is_ignored() {
    let mut handler = new_handler();
    assert!(handler.htlc_intercepted(99, [1; 32], 100_000, [9; 32]).is_ok());
    assert!(handler.get_and_clear_pending_htlc_actions().is_empty());
    assert!(handler.get_and_clear_pending_events().is_empty());
}

#[test]
fn channel_ready_before_payment_fails() {
    let mut handler = new_handler();
    assert!(handler.channel_ready(7, &[5; 32], &PEER).is_err());
    open_jit_channel(&mut handler);
    assert!(handler.channel_ready(8, &[5; 32], &PEER).is_err());
    assert!(handler.channel_ready(7, &[5; 32], &PEER).is_err());
    assert!(handler.get_and_clear_pending_htlc_actions().is_empty());
}
