use lsps2_service::fee::{calculate_amount_to_forward_per_htlc, compute_opening_fee};
use lsps2_service::payment_queue::InterceptedHTLC;

fn htlc(id: u8, amount: u64) -> InterceptedHTLC {
    InterceptedHTLC {
        intercept_id: [id; 32],
        expected_outbound_amount_msat: amount,
        payment_hash: [0; 32],
    }
}

#[test]
fn test_calculate_amount_to_forward() {
    let htlcs = vec![htlc(0, 2), htlc(1, 6), htlc(2, 2)];
    let result = calculate_amount_to_forward_per_htlc(&htlcs, 5);
    assert_eq!(
        result,
        vec![
            (htlcs[0].intercept_id, 1),
            (htlcs[1].intercept_id, 3),
            (htlcs[2].intercept_id, 1),
        ]
    );
}

#[test]
fn forwarding_keeps_order_and_takes_the_whole_fee() {
    let htlcs = vec![htlc(0, 1_000_003), htlc(1, 2_500_000), htlc(2, 777_777)];
    let total: u64 = 1_000_003 + 2_500_000 + 777_777;
    let fee = 123_457;
    let result = calculate_amount_to_forward_per_htlc(&htlcs, fee);
    assert_eq!(result.len(), 3);
    for i in 0..3 {
        assert_eq!(result[i].0, htlcs[i].intercept_id);
        assert!(result[i].1 <= htlcs[i].expected_outbound_amount_msat);
    }
    let forwarded: u64 = result.iter().map(|(_, f)| *f).sum();
    assert_eq!(total - forwarded, fee);
    for i in 0..3 {
        let share = (htlcs[i].expected_outbound_amount_msat - result[i].1) as f64;
        let fair = fee as f64 * htlcs[i].expected_outbound_amount_msat as f64 / total as f64;
        assert!((share - fair).abs() <= fair * 0.05);
    }
}

#[test]
fn fee_above_total_forwards_nothing() {
    let htlcs = vec![htlc(0, 3), htlc(1, 4)];
    assert!(calculate_amount_to_forward_per_htlc(&htlcs, 8).is_empty());
}

#[test]
fn zero_fee_forwards_everything() {
    let htlcs = vec![htlc(0, 3), htlc(1, 4)];
    assert_eq!(
        calculate_amount_to_forward_per_htlc(&htlcs, 0),
        vec![([0; 32], 3), ([1; 32], 4)]
    );
}

#[test]
fn zero_amounts_and_zero_fee() {
    let htlcs = vec![htlc(0, 0), htlc(1, 0)];
    assert_eq!(
        calculate_amount_to_forward_per_htlc(&htlcs, 0),
        vec![([0; 32], 0), ([1; 32], 0)]
    );
}

#[test]
fn residue_larger_than_last_amount_saturates() {
    let htlcs = vec![htlc(0, 2), htlc(1, 2), htlc(2, 1)];
    assert_eq!(
        calculate_amount_to_forward_per_htlc(&htlcs, 4),
        vec![([0; 32], 1), ([1; 32], 1), ([2; 32], 0)]
    );
}

#[test]
fn opening_fee_floor_wins() {
    assert_eq!(compute_opening_fee(1_000_000, 546_000, 5_000), Some(546_000));
}

#[test]
fn opening_fee_rounds_proportional_part_up() {
    assert_eq!(compute_opening_fee(1_000_001, 0, 1), Some(2));
    assert_eq!(compute_opening_fee(100_000, 1_000, 20_000), Some(2_000));
}

#[test]
fn opening_fee_overflow_is_none() {
    assert_eq!(compute_opening_fee(u64::MAX, 0, 2), None);
    assert_eq!(compute_opening_fee(u64::MAX - 999_998, 0, 1), None);
    assert_eq!(compute_opening_fee(u64::MAX - 999_999, 0, 1), Some(18_446_744_073_709));
}

#[test]
fn residue_beyond_last_amount_stays_near_fair() {
    let htlcs = vec![htlc(0, 100), htlc(1, 100), htlc(2, 100)];
    let result = calculate_amount_to_forward_per_htlc(&htlcs, 299);
    assert_eq!(result, vec![([0; 32], 1), ([1; 32], 1), ([2; 32], 0)]);
    for (i, h) in htlcs.iter().enumerate() {
        let taken = (h.expected_outbound_amount_msat - result[i].1) as f64;
        let fair = 299.0 * 100.0 / 300.0;
        assert!((taken - fair).abs() <= fair * 0.05);
    }
}
