use redeem_logic_farming::decimal::Dec;
use redeem_logic_farming::engine::execute_plugin;

fn d(m: u64, scale: u32) -> Dec {
    Dec::new(m, scale)
}

#[test]
fn test_flat_returns() {
    let old_quantity = [10_000; 2];
    let res = execute_plugin(
        old_quantity,
        d(2, 0),
        d(1, 0),
        d(2, 0),
        d(1, 0),
        d(0, 0),
        d(0, 0),
        d(100, 0),
    )
    .unwrap();

    assert_eq!(res.new_quantity[0], 10_000);
    assert_eq!(res.new_quantity[1], 10_000);
    assert_eq!(res.fee_quantity, 0);
    assert_eq!(
        old_quantity.iter().sum::<u64>(),
        res.new_quantity.iter().sum::<u64>() + res.fee_quantity
    )
}

#[test]
fn test_positive_returns_no_il() {
    let old_quantity = [10_000; 2];
    let res = execute_plugin(
        old_quantity,
        d(2, 0),
        d(1, 0),
        d(3, 0),
        d(1, 0),
        d(3, 1),
        d(0, 0),
        d(100, 0),
    )
    .unwrap();

    assert_eq!(res.new_quantity[0], 9_000);
    assert_eq!(res.new_quantity[1], 11_000);
    assert_eq!(res.fee_quantity, 0);
    assert_eq!(
        old_quantity.iter().sum::<u64>(),
        res.new_quantity.iter().sum::<u64>() + res.fee_quantity
    )
}

#[test]
fn test_positive_returns_no_il_rounding() {
    let old_quantity = [10_000; 2];
    let res = execute_plugin(
        old_quantity,
        d(2, 0),
        d(1, 0),
        d(3, 0),
        d(1, 0),
        d(25, 2),
        d(0, 0),
        d(100, 0),
    )
    .unwrap();

    assert_eq!(res.new_quantity[0], 9_166);
    assert_eq!(res.new_quantity[1], 10_833);
    assert_eq!(res.fee_quantity, 1);
    assert_eq!(
        old_quantity.iter().sum::<u64>(),
        res.new_quantity.iter().sum::<u64>() + res.fee_quantity
    )
}

#[test]
fn test_positive_returns_il() {
    let old_quantity = [10_000; 2];
    let res = execute_plugin(
        old_quantity,
        d(2, 0),
        d(1, 0),
        d(21213, 4),
        d(5, 1),
        d(3, 1),
        d(0, 0),
        d(100, 0),
    )
    .unwrap();

    assert_eq!(res.new_quantity[0], 9_404);
    assert_eq!(res.new_quantity[1], 10_595);
    assert_eq!(res.fee_quantity, 1);
    assert_eq!(
        old_quantity.iter().sum::<u64>(),
        res.new_quantity.iter().sum::<u64>() + res.fee_quantity
    )
}

#[test]
fn test_positive_returns_senior_imbalance() {
    let old_quantity = [10_000, 1_000];
    let res = execute_plugin(
        old_quantity,
        d(2, 0),
        d(1, 0),
        d(21213, 4),
        d(5, 1),
        d(3, 1),
        d(0, 0),
        d(100, 0),
    )
    .unwrap();

    assert_eq!(res.new_quantity[0], 9_404);
    assert_eq!(res.new_quantity[1], 1_595);
    assert_eq!(res.fee_quantity, 1);
    assert_eq!(
        old_quantity.iter().sum::<u64>(),
        res.new_quantity.iter().sum::<u64>() + res.fee_quantity
    )
}

#[test]
fn test_positive_returns_junior_imbalance() {
    let old_quantity = [1_000, 10_000];
    let res = execute_plugin(
        old_quantity,
        d(2, 0),
        d(1, 0),
        d(21213, 4),
        d(5, 1),
        d(3, 1),
        d(0, 0),
        d(100, 0),
    )
    .unwrap();

    assert_eq!(res.new_quantity[0], 940);
    assert_eq!(res.new_quantity[1], 10_059);
    assert_eq!(res.fee_quantity, 1);
    assert_eq!(
        old_quantity.iter().sum::<u64>(),
        res.new_quantity.iter().sum::<u64>() + res.fee_quantity
    )
}

#[test]
fn test_negative_returns_no_fees() {
    let old_quantity = [10_000, 1_000];
    let res = execute_plugin(
        old_quantity,
        d(2, 0),
        d(1, 0),
        d(14142, 4),
        d(5, 1),
        d(3, 1),
        d(0, 0),
        d(100, 0),
    )
    .unwrap();

    assert_eq!(res.new_quantity[0], 10_606);
    assert_eq!(res.new_quantity[1], 393);
    assert_eq!(res.fee_quantity, 1);
    assert_eq!(
        old_quantity.iter().sum::<u64>(),
        res.new_quantity.iter().sum::<u64>() + res.fee_quantity
    )
}

#[test]
fn test_negative_returns_fees() {
    let old_quantity = [10_000, 1_000];
    let res = execute_plugin(
        old_quantity,
        d(2, 0),
        d(1, 0),
        d(17678, 4),
        d(5, 1),
        d(3, 1),
        d(0, 0),
        d(100, 0),
    )
    .unwrap();

    assert_eq!(res.new_quantity[0], 9_885);
    assert_eq!(res.new_quantity[1], 1_114);
    assert_eq!(res.fee_quantity, 1);
    assert_eq!(
        old_quantity.iter().sum::<u64>(),
        res.new_quantity.iter().sum::<u64>() + res.fee_quantity
    )
}

#[test]
fn test_junior_wipeout() {
    let old_quantity = [10_000, 1_000];
    let res = execute_plugin(
        old_quantity,
        d(2, 0),
        d(1, 0),
        d(2, 1),
        d(1, 2),
        d(3, 1),
        d(0, 0),
        d(100, 0),
    )
    .unwrap();

    assert_eq!(res.new_quantity[0], 11_000);
    assert_eq!(res.new_quantity[1], 0);
    assert_eq!(res.fee_quantity, 0);
    assert_eq!(
        old_quantity.iter().sum::<u64>(),
        res.new_quantity.iter().sum::<u64>() + res.fee_quantity
    )
}

#[test]
fn test_default() {
    let old_quantity = [10_000, 1_000];
    let res = execute_plugin(
        old_quantity,
        d(0, 0),
        d(1, 0),
        d(2, 0),
        d(1, 0),
        d(3, 1),
        d(0, 0),
        d(100, 0),
    )
    .unwrap();

    assert_eq!(res.new_quantity[0], 11_000);
    assert_eq!(res.new_quantity[1], 0);
    assert_eq!(res.fee_quantity, 0);
    assert_eq!(
        old_quantity.iter().sum::<u64>(),
        res.new_quantity.iter().sum::<u64>() + res.fee_quantity
    )
}

#[test]
fn test_lp_accrued_flat() {
    let old_quantity = [10_000, 1_000];
    let res = execute_plugin(
        old_quantity,
        d(4, 0),
        d(1, 0),
        d(4, 0),
        d(1, 0),
        d(3, 1),
        d(0, 0),
        d(100, 0),
    )
    .unwrap();

    assert_eq!(res.new_quantity[0], 10_000);
    assert_eq!(res.new_quantity[1], 1_000);
    assert_eq!(res.fee_quantity, 0);
    assert_eq!(
        old_quantity.iter().sum::<u64>(),
        res.new_quantity.iter().sum::<u64>() + res.fee_quantity
    )
}

#[test]
fn test_lp_accrued_positive_returns() {
    let old_quantity = [10_000, 1_000];
    let res = execute_plugin(
        old_quantity,
        d(4, 0),
        d(1, 0),
        d(52, 1),
        d(1, 0),
        d(3, 1),
        d(0, 0),
        d(100, 0),
    )
    .unwrap();

    assert_eq!(res.new_quantity[0], 9_307);
    assert_eq!(res.new_quantity[1], 1_692);
    assert_eq!(res.fee_quantity, 1);
    assert_eq!(
        old_quantity.iter().sum::<u64>(),
        res.new_quantity.iter().sum::<u64>() + res.fee_quantity
    )
}

#[test]
fn test_lp_accrued_negative_returns() {
    let old_quantity = [10_000, 1_000];
    let res = execute_plugin(
        old_quantity,
        d(4, 0),
        d(1, 0),
        d(3677, 3),
        d(5, 1),
        d(3, 1),
        d(0, 0),
        d(100, 0),
    )
    .unwrap();

    assert_eq!(res.new_quantity[0], 9_774);
    assert_eq!(res.new_quantity[1], 1_225);
    assert_eq!(res.fee_quantity, 1);
    assert_eq!(
        old_quantity.iter().sum::<u64>(),
        res.new_quantity.iter().sum::<u64>() + res.fee_quantity
    )
}

#[test]
fn test_il_cap_low_no_interest() {
    let old_quantity = [10_000, 10_000];
    let res = execute_plugin(
        old_quantity,
        d(4, 0),
        d(1, 0),
        d(1265, 3),
        d(1, 1),
        d(5, 1),
        d(5, 1),
        d(100, 0),
    )
    .unwrap();

    assert_eq!(res.new_quantity[0], 11_355);
    assert_eq!(res.new_quantity[1], 8_644);
    assert_eq!(res.fee_quantity, 1);
    assert_eq!(
        old_quantity.iter().sum::<u64>(),
        res.new_quantity.iter().sum::<u64>() + res.fee_quantity
    )
}

#[test]
fn test_il_cap_low_interest() {
    let old_quantity = [10_000, 10_000];
    let res = execute_plugin(
        old_quantity,
        d(4, 0),
        d(1, 0),
        d(1581, 3),
        d(1, 1),
        d(5, 1),
        d(5, 1),
        d(100, 0),
    )
    .unwrap();

    assert_eq!(res.new_quantity[0], 10_085);
    assert_eq!(res.new_quantity[1], 9_914);
    assert_eq!(res.fee_quantity, 1);
    assert_eq!(
        old_quantity.iter().sum::<u64>(),
        res.new_quantity.iter().sum::<u64>() + res.fee_quantity
    )
}

#[test]
fn test_il_cap_high_no_interest() {
    let old_quantity = [10_000, 10_000];
    let res = execute_plugin(
        old_quantity,
        d(4, 0),
        d(1, 0),
        d(5657, 3),
        d(2, 0),
        d(5, 1),
        d(0, 0),
        d(15, 1),
    )
    .unwrap();

    assert_eq!(res.new_quantity[0], 10_178);
    assert_eq!(res.new_quantity[1], 9_821);
    assert_eq!(res.fee_quantity, 1);
    assert_eq!(
        old_quantity.iter().sum::<u64>(),
        res.new_quantity.iter().sum::<u64>() + res.fee_quantity
    )
}

#[test]
fn test_il_cap_high_interest() {
    let old_quantity = [10_000, 10_000];
    let res = execute_plugin(
        old_quantity,
        d(4, 0),
        d(1, 0),
        d(7071, 3),
        d(2, 0),
        d(5, 1),
        d(0, 0),
        d(15, 1),
    )
    .unwrap();

    assert_eq!(res.new_quantity[0], 9_142);
    assert_eq!(res.new_quantity[1], 10_857);
    assert_eq!(res.fee_quantity, 1);
    assert_eq!(
        old_quantity.iter().sum::<u64>(),
        res.new_quantity.iter().sum::<u64>() + res.fee_quantity
    )
}

#[test]
fn test_real_values() {
    let old_quantity = [29_995_133, 10_004_866];
    let res = execute_plugin(
        old_quantity,
        d(114306704624445, 14),
        d(31754346528125, 12),
        d(113844621756989, 14),
        d(31506774725, 9),
        d(5, 1),
        d(0, 0),
        d(100, 0),
    )
    .unwrap();

    assert_eq!(res.new_quantity[0], 29_995_362);
    assert_eq!(res.new_quantity[1], 10_004_636);
    assert_eq!(res.fee_quantity, 1);
    assert_eq!(
        old_quantity.iter().sum::<u64>(),
        res.new_quantity.iter().sum::<u64>() + res.fee_quantity
    )
}
