//! Opening-fee parameters and the promise that binds them to this service.

use bitcoin::hashes::hmac::{Hmac, HmacEngine};
use bitcoin::hashes::sha256;
use bitcoin::hashes::HashEngine;
use vstd::prelude::*;
use vstd::utf8::encode_utf8;

verus! {

/// Fee parameters as the operator chooses them, before they are signed.
#[derive(Debug)]
pub struct RawOpeningFeeParams {
    /// The least fee charged for opening the channel.
    pub min_fee_msat: u64,
    /// The fee charged in parts per million of the payment size.
    pub proportional: u32,
    /// The RFC 3339 time after which the parameters no longer hold.
    pub valid_until: String,
    /// The number of blocks the channel is kept open at least.
    pub min_lifetime: u32,
    /// The largest `to_self_delay` the client may ask for.
    pub max_client_to_self_delay: u32,
    /// The smallest payment the parameters admit.
    pub min_payment_size_msat: u64,
    /// The largest payment the parameters admit.
    pub max_payment_size_msat: u64,
}

/// Fee parameters together with the promise that this service issued them.
#[derive(Debug)]
pub struct OpeningFeeParams {
    pub min_fee_msat: u64,
    pub proportional: u32,
    pub valid_until: String,
    pub min_lifetime: u32,
    pub max_client_to_self_delay: u32,
    pub min_payment_size_msat: u64,
    pub max_payment_size_msat: u64,
    /// HMAC-SHA256 over the other fields, keyed by the service's secret.
    pub promise: [u8; 32],
}

/// HMAC-SHA256 of `message` under `key`.
pub uninterp spec fn hmac_sha256_of(key: Seq<u8>, message: Seq<u8>) -> Seq<u8>;

/// Relies on bitcoin::hashes::hmac with sha256: the 32-byte HMAC-SHA256 tag of
/// the message under the key, which depends on those two alone.
#[verifier::external_body]
fn hmac_sha256(key: &[u8; 32], message: &Vec<u8>) -> (r: [u8; 32])
    ensures
        r@ == hmac_sha256_of(key@, message@),
{
    let mut engine = HmacEngine::<sha256::Hash>::new(key);
    engine.input(message);
    let tag = <Hmac<sha256::Hash> as bitcoin::hashes::Hash>::from_engine(engine);
    bitcoin::hashes::Hash::to_byte_array(tag)
}

/// Relies on bitcoin::hashes::cmp::fixed_time_eq: whether two byte strings of
/// one length are equal, read in full whatever they hold. Equal lengths are
/// its one demand, which the types meet.
#[verifier::external_body]
fn fixed_time_eq(a: &[u8; 32], b: &[u8; 32]) -> (r: bool)
    ensures
        r == (a@ == b@),
{
    bitcoin::hashes::cmp::fixed_time_eq(a, b)
}

/// Big-endian bytes of a `u64`.
pub open spec fn be_u64(x: u64) -> Seq<u8> {
    seq![
        (x >> 56u64) as u8,
        (x >> 48u64) as u8,
        (x >> 40u64) as u8,
        (x >> 32u64) as u8,
        (x >> 24u64) as u8,
        (x >> 16u64) as u8,
        (x >> 8u64) as u8,
        x as u8,
    ]
}

/// Big-endian bytes of a `u32`.
pub open spec fn be_u32(x: u32) -> Seq<u8> {
    seq![(x >> 24u32) as u8, (x >> 16u32) as u8, (x >> 8u32) as u8, x as u8]
}

/// The bytes a promise is computed over: each field in order, integers
/// big-endian and the expiry as its text.
pub open spec fn promise_message(
    min_fee_msat: u64,
    proportional: u32,
    valid_until: Seq<char>,
    min_lifetime: u32,
    max_client_to_self_delay: u32,
    min_payment_size_msat: u64,
    max_payment_size_msat: u64,
) -> Seq<u8> {
    be_u64(min_fee_msat) + be_u32(proportional) + encode_utf8(valid_until) + be_u32(min_lifetime)
        + be_u32(max_client_to_self_delay) + be_u64(min_payment_size_msat) + be_u64(
        max_payment_size_msat,
    )
}

impl RawOpeningFeeParams {
    /// The bytes the promise for these parameters is computed over.
    pub open spec fn message(&self) -> Seq<u8> {
        promise_message(
            self.min_fee_msat,
            self.proportional,
            self.valid_until@,
            self.min_lifetime,
            self.max_client_to_self_delay,
            self.min_payment_size_msat,
            self.max_payment_size_msat,
        )
    }

    /// Signs the parameters with `promise_secret`.
    pub fn into_opening_fee_params(self, promise_secret: &[u8; 32]) -> (r: OpeningFeeParams)
        ensures
            r.min_fee_msat == self.min_fee_msat,
            r.proportional == self.proportional,
            r.valid_until == self.valid_until,
            r.min_lifetime == self.min_lifetime,
            r.max_client_to_self_delay == self.max_client_to_self_delay,
            r.min_payment_size_msat == self.min_payment_size_msat,
            r.max_payment_size_msat == self.max_payment_size_msat,
            r.promise@ == hmac_sha256_of(promise_secret@, self.message()),
    {
        let message = encode_promise_message(
            self.min_fee_msat,
            self.proportional,
            &self.valid_until,
            self.min_lifetime,
            self.max_client_to_self_delay,
            self.min_payment_size_msat,
            self.max_payment_size_msat,
        );
        let promise = hmac_sha256(promise_secret, &message);
        OpeningFeeParams {
            min_fee_msat: self.min_fee_msat,
            proportional: self.proportional,
            valid_until: self.valid_until,
            min_lifetime: self.min_lifetime,
            max_client_to_self_delay: self.max_client_to_self_delay,
            min_payment_size_msat: self.min_payment_size_msat,
            max_payment_size_msat: self.max_payment_size_msat,
            promise,
        }
    }
}

impl OpeningFeeParams {
    /// The bytes the promise of these parameters should have been computed over.
    pub open spec fn message(&self) -> Seq<u8> {
        promise_message(
            self.min_fee_msat,
            self.proportional,
            self.valid_until@,
            self.min_lifetime,
            self.max_client_to_self_delay,
            self.min_payment_size_msat,
            self.max_payment_size_msat,
        )
    }

    /// Whether the promise is the one `promise_secret` gives for these fields.
    pub open spec fn promise_matches(&self, promise_secret: Seq<u8>) -> bool {
        self.promise@ == hmac_sha256_of(promise_secret, self.message())
    }

    /// A field-for-field copy.
    pub fn duplicate(&self) -> (r: OpeningFeeParams)
        ensures
            r == *self,
    {
        OpeningFeeParams {
            min_fee_msat: self.min_fee_msat,
            proportional: self.proportional,
            valid_until: self.valid_until.clone(),
            min_lifetime: self.min_lifetime,
            max_client_to_self_delay: self.max_client_to_self_delay,
            min_payment_size_msat: self.min_payment_size_msat,
            max_payment_size_msat: self.max_payment_size_msat,
            promise: self.promise,
        }
    }
}

fn push_be_u64(out: &mut Vec<u8>, x: u64)
    ensures
        final(out)@ == old(out)@ + be_u64(x),
{
    out.push((x >> 56u64) as u8);
    out.push((x >> 48u64) as u8);
    out.push((x >> 40u64) as u8);
    out.push((x >> 32u64) as u8);
    out.push((x >> 24u64) as u8);
    out.push((x >> 16u64) as u8);
    out.push((x >> 8u64) as u8);
    out.push(x as u8);
    proof {
        assert(final(out)@ =~= old(out)@ + be_u64(x));
    }
}

fn push_be_u32(out: &mut Vec<u8>, x: u32)
    ensures
        final(out)@ == old(out)@ + be_u32(x),
{
    out.push((x >> 24u32) as u8);
    out.push((x >> 16u32) as u8);
    out.push((x >> 8u32) as u8);
    out.push(x as u8);
    proof {
        assert(final(out)@ =~= old(out)@ + be_u32(x));
    }
}

/// The bytes a promise is computed over, for the given fields.
pub fn encode_promise_message(
    min_fee_msat: u64,
    proportional: u32,
    valid_until: &String,
    min_lifetime: u32,
    max_client_to_self_delay: u32,
    min_payment_size_msat: u64,
    max_payment_size_msat: u64,
) -> (r: Vec<u8>)
    ensures
        r@ == promise_message(
            min_fee_msat,
            proportional,
            valid_until@,
            min_lifetime,
            max_client_to_self_delay,
            min_payment_size_msat,
            max_payment_size_msat,
        ),
{
    let mut out: Vec<u8> = Vec::new();
    push_be_u64(&mut out, min_fee_msat);
    push_be_u32(&mut out, proportional);
    let text = valid_until.as_str().as_bytes();
    let ghost start = out@;
    let mut i: usize = 0;
    while i < text.len()
        invariant
            0 <= i <= text@.len(),
            text@ == encode_utf8(valid_until@),
            out@ == start + text@.take(i as int),
        decreases text@.len() - i,
    {
        out.push(text[i]);
        proof {
            assert(out@ =~= start + text@.take(i + 1));
        }
        i = i + 1;
    }
    proof {
        assert(text@.take(i as int) =~= text@);
    }
    push_be_u32(&mut out, min_lifetime);
    push_be_u32(&mut out, max_client_to_self_delay);
    push_be_u64(&mut out, min_payment_size_msat);
    push_be_u64(&mut out, max_payment_size_msat);
    proof {
        assert(out@ =~= promise_message(
            min_fee_msat,
            proportional,
            valid_until@,
            min_lifetime,
            max_client_to_self_delay,
            min_payment_size_msat,
            max_payment_size_msat,
        ));
    }
    out
}

/// Whether `params` carry the promise that `promise_secret` gives them and
/// have not expired; `valid_until_in_future` says whether `valid_until` lies
/// after the current time.
pub fn is_valid_opening_fee_params(
    params: &OpeningFeeParams,
    promise_secret: &[u8; 32],
    valid_until_in_future: bool,
) -> (r: bool)
    ensures
        r == (valid_until_in_future && params.promise_matches(promise_secret@)),
{
    if !valid_until_in_future {
        return false;
    }
    let message = encode_promise_message(
        params.min_fee_msat,
        params.proportional,
        &params.valid_until,
        params.min_lifetime,
        params.max_client_to_self_delay,
        params.min_payment_size_msat,
        params.max_payment_size_msat,
    );
    let expected = hmac_sha256(promise_secret, &message);
    let r = fixed_time_eq(&expected, &params.promise);
    r
}

} // verus!
