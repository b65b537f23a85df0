//! The LSPS2 protocol messages and the events surfaced to the operator.

use vstd::prelude::*;

use crate::promise::OpeningFeeParams;

verus! {

/// A client that the token it used to ask for fee parameters is not known.
pub const LSPS2_GET_INFO_REQUEST_UNRECOGNIZED_OR_STALE_TOKEN_ERROR_CODE: i32 = 200;

/// A buy request whose fee parameters are expired or carry a wrong promise.
pub const LSPS2_BUY_REQUEST_INVALID_OPENING_FEE_PARAMS_ERROR_CODE: i32 = 201;

/// A buy request whose payment size is too small.
pub const LSPS2_BUY_REQUEST_PAYMENT_SIZE_TOO_SMALL_ERROR_CODE: i32 = 202;

/// A buy request whose payment size is too large.
pub const LSPS2_BUY_REQUEST_PAYMENT_SIZE_TOO_LARGE_ERROR_CODE: i32 = 203;

/// A compressed public key that names a peer.
pub type PeerId = [u8; 33];

/// A client asks for the fee parameters on offer.
#[derive(Debug)]
pub struct GetInfoRequest {
    pub token: Option<String>,
}

/// A client picks fee parameters and, optionally, a payment size.
#[derive(Debug)]
pub struct BuyRequest {
    pub opening_fee_params: OpeningFeeParams,
    pub payment_size_msat: Option<u64>,
}

/// A request of the protocol.
#[derive(Debug)]
pub enum LSPS2Request {
    GetInfo(GetInfoRequest),
    Buy(BuyRequest),
}

/// The error part of a JSON-RPC response.
#[derive(Debug)]
pub struct ResponseError {
    pub code: i32,
    pub message: String,
}

/// The signed fee parameters on offer.
#[derive(Debug)]
pub struct GetInfoResponse {
    pub opening_fee_params_menu: Vec<OpeningFeeParams>,
}

/// What the client puts in its invoice.
#[derive(Debug)]
pub struct BuyResponse {
    pub intercept_scid: u64,
    pub lsp_cltv_expiry_delta: u32,
    pub client_trusts_lsp: bool,
}

/// A response of the protocol.
#[derive(Debug)]
pub enum LSPS2Response {
    GetInfo(GetInfoResponse),
    GetInfoError(ResponseError),
    Buy(BuyResponse),
    BuyError(ResponseError),
}

/// A message of the protocol, with its JSON-RPC request id.
#[derive(Debug)]
pub enum LSPS2Message {
    Request(String, LSPS2Request),
    Response(String, LSPS2Response),
}

/// An event for the operator to act on.
#[derive(Debug)]
pub enum LSPS2ServiceEvent {
    /// A client asked for fee parameters; answer with
    /// `opening_fee_params_generated` or `invalid_token_provided`.
    GetInfo { request_id: String, counterparty_node_id: PeerId, token: Option<String> },
    /// A client wants to buy a channel; answer with `invoice_parameters_generated`.
    BuyRequest {
        request_id: String,
        counterparty_node_id: PeerId,
        opening_fee_params: OpeningFeeParams,
        payment_size_msat: Option<u64>,
    },
    /// A payment for a sold channel arrived; open the channel.
    OpenChannel {
        their_network_key: PeerId,
        amt_to_forward_msat: u64,
        opening_fee_msat: u64,
        user_channel_id: u128,
        intercept_scid: u64,
    },
}

/// An instruction for the channel manager about an intercepted HTLC.
#[derive(Debug, Clone, Copy, PartialEq, Eq)]
pub enum HtlcAction {
    /// Fail the HTLC back.
    Fail { intercept_id: [u8; 32] },
    /// Forward the HTLC over the given channel with the given amount.
    Forward {
        intercept_id: [u8; 32],
        channel_id: [u8; 32],
        counterparty_node_id: PeerId,
        amount_to_forward_msat: u64,
    },
}

/// A call that does not fit the state of the service.
#[derive(Debug)]
pub enum APIError {
    APIMisuseError { err: String },
}

/// A protocol message that was refused; the peer's session goes on.
#[derive(Debug)]
pub struct LightningError {
    pub err: String,
}

} // verus!
