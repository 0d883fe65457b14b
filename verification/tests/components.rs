use rujira_pilot::balance::{coin, Balance, NativeBalancePlus};
use rujira_pilot::bid_pool::{Bid, Pool};
use rujira_pilot::credit::LiquidationPreferenceOrder;
use rujira_pilot::math::{Udec, DEC_ONE};
use rujira_pilot::merge::merge_next;
use rujira_pilot::config::Config;
use rujira_pilot::order_manager::Denoms;
use rujira_pilot::premium::Premium;
use rujira_pilot::tick::Tick;

fn udec(atomics: u128) -> Udec {
    Udec::new(atomics)
}

fn balance_of(entries: &[(&str, u128)]) -> Balance {
    let mut b = Balance::new();
    for (denom, amount) in entries {
        b.add(&denom.to_string(), *amount).unwrap();
    }
    b
}

#[test]
fn decimal() {
    let tick = Tick::new(2u8);

    tick.validate_price(&udec(123 * DEC_ONE)).unwrap_err();

    tick.validate_price(&udec(12 * DEC_ONE)).unwrap();
    tick.validate_price(&udec(123 * (DEC_ONE / 10))).unwrap_err();
    tick.validate_price(&udec(12 * (DEC_ONE / 10))).unwrap();

    tick.validate_price(&udec(1_230_000_000_000)).unwrap_err();

    assert_eq!(tick.truncate_floor(&udec(1_230_000_000_000)), udec(1_200_000_000_000));

    assert_eq!(tick.truncate_floor(&udec(1_290_000_000_000)), udec(1_200_000_000_000));

    tick.validate_price(&udec(120_000_000_000_000)).unwrap();
}

#[test]
fn tick_rejects_zero_size() {
    Tick::new(0).validate().unwrap_err();
    Tick::new(2).validate().unwrap();
}

#[test]
fn validate_self_reference() {
    let mut o = LiquidationPreferenceOrder::new();
    o.insert(&"BTC".to_string(), &"BTC".to_string()).unwrap_err();
}

#[test]
fn validate_transitive_reference() {
    let mut o = LiquidationPreferenceOrder::new();
    o.insert(&"A".to_string(), &"B".to_string()).unwrap();
    o.insert(&"B".to_string(), &"C".to_string()).unwrap();
    o.insert(&"C".to_string(), &"A".to_string()).unwrap_err();
}

#[test]
fn validate_transitive_validation() {
    let mut o = LiquidationPreferenceOrder::new();
    o.insert(&"A".to_string(), &"B".to_string()).unwrap();
    o.insert(&"B".to_string(), &"C".to_string()).unwrap();

    o.validate(&coin(100, "A"), &balance_of(&[("C", 100)])).unwrap_err();
    o.validate(&coin(100, "A"), &balance_of(&[("D", 100)])).unwrap();
}

#[test]
fn preference_remove_clears_constraint() {
    let mut o = LiquidationPreferenceOrder::new();
    o.insert(&"A".to_string(), &"B".to_string()).unwrap();
    assert_eq!(o.remove(&"A".to_string()), Some("B".to_string()));
    assert_eq!(o.remove(&"A".to_string()), None);
    o.validate(&coin(100, "A"), &balance_of(&[("B", 100)])).unwrap();
}

#[test]
fn test_native_balance_plus() {
    assert_eq!(
        balance_of(&[("btc-btc", 10000000), ("eth-eth", 200000000)]).sent(&balance_of(&[
            ("btc-btc", 9000000),
            ("eth-eth", 200000000),
            ("eth-usdc-0xa0b86991c6218b36c1d19d4a2e9eb0ce3606eb48", 109664431951),
        ])),
        balance_of(&[("btc-btc", 1000000)])
    );
    assert_eq!(
        balance_of(&[("btc-btc", 10000000), ("eth-eth", 200000000)]).received(&balance_of(&[
            ("btc-btc", 9000000),
            ("eth-eth", 200000000),
            ("eth-usdc-0xa0b86991c6218b36c1d19d4a2e9eb0ce3606eb48", 109664431951),
        ])),
        balance_of(&[("eth-usdc-0xa0b86991c6218b36c1d19d4a2e9eb0ce3606eb48", 109664431951)])
    );
}

#[test]
fn balance_sub_fails_when_uncovered() {
    let mut b = balance_of(&[("usdc", 100)]);
    b.sub(&"usdc".to_string(), 40).unwrap();
    assert_eq!(b.amount_of(&"usdc".to_string()), 60);
    b.sub(&"usdc".to_string(), 61).unwrap_err();
    b.sub(&"other".to_string(), 1).unwrap_err();
}

// Joining, increasing and retracting conserve the pool's aggregate: it
// always equals the sum of the live bids' deposits.
#[test]
fn pool_conservation_over_membership_changes() {
    let mut pool = Pool::new();
    let mut a: Bid = pool.new_bid(1000).unwrap();
    let mut b: Bid = pool.new_bid(500).unwrap();
    assert_eq!(pool.total(), 1500);
    assert_eq!(a.amount() + b.amount(), 1500);

    a.increase(&mut pool, 250).unwrap();
    assert_eq!(pool.total(), 1750);
    assert_eq!(a.amount() + b.amount(), 1750);

    let refunded = b.retract(&mut pool, Some(200)).unwrap();
    assert_eq!(refunded, 200);
    assert_eq!(pool.total(), 1550);
    assert_eq!(a.amount() + b.amount(), 1550);

    // Retracting more than the unfilled deposit is capped to it
    let refunded = b.retract(&mut pool, None).unwrap();
    assert_eq!(refunded, 300);
    assert_eq!(pool.total(), 1250);
    assert_eq!(a.amount() + b.amount(), 1250);
}

// Claiming twice with no intervening distribution returns zero the second
// time.
#[test]
fn claim_is_idempotent_without_distribution() {
    let mut pool = Pool::new();
    let mut bid = pool.new_bid(1000).unwrap();
    let res = pool.distribute(500, &udec(DEC_ONE));
    assert_eq!(res.consumed_offer, 500);
    assert_eq!(res.consumed_bids, 500);

    let mut ledger = res.snapshots.clone();
    pool.sync_bid(&mut bid, &ledger).unwrap();
    assert_eq!(bid.filled(), 500);
    assert_eq!(bid.amount(), 500);

    let first = bid.claim_filled();
    assert_eq!(first, 500);
    // No distribution in between: re-reconciling moves nothing
    pool.sync_bid(&mut bid, &ledger).unwrap();
    let second = bid.claim_filled();
    assert_eq!(second, 0);

    // After another distribution there is something to claim again
    let res = pool.distribute(100, &udec(DEC_ONE));
    let mut more = res.snapshots.clone();
    ledger.append(&mut more);
    pool.sync_bid(&mut bid, &ledger).unwrap();
    assert_eq!(bid.claim_filled(), 100);
}

// A distribution never consumes more bid-side value than the tier holds.
#[test]
fn distribute_is_capacity_bounded() {
    let mut pool = Pool::new();
    let _bid = pool.new_bid(1000).unwrap();
    let res = pool.distribute(1_000_000, &udec(DEC_ONE));
    assert_eq!(res.consumed_bids, 1000);
    assert_eq!(res.consumed_offer, 1000);
    assert_eq!(pool.total(), 0);

    // A zero offer is a no-op
    let mut pool = Pool::new();
    let _bid = pool.new_bid(1000).unwrap();
    let res = pool.distribute(0, &udec(DEC_ONE));
    assert_eq!(res.consumed_bids, 0);
    assert_eq!(res.consumed_offer, 0);
    assert_eq!(res.snapshots.len(), 0);
    assert_eq!(pool.total(), 1000);
}

#[test]
fn sync_respects_deposit_timing() {
    // A bid joining after a distribution must not receive fill from it
    let mut pool = Pool::new();
    let mut early = pool.new_bid(1000).unwrap();
    let res1 = pool.distribute(400, &udec(DEC_ONE));
    let mut ledger = res1.snapshots.clone();

    let mut late = pool.new_bid(600).unwrap();
    let res2 = pool.distribute(300, &udec(DEC_ONE));
    let mut more = res2.snapshots.clone();
    ledger.append(&mut more);

    pool.sync_bid(&mut early, &ledger).unwrap();
    pool.sync_bid(&mut late, &ledger).unwrap();

    // The early bid took all of the first fill and its share of the second
    assert_eq!(early.filled(), 400 + 150);
    assert_eq!(early.amount(), 1000 - 400 - 150);
    // The late bid only shares in the second distribution
    assert_eq!(late.filled(), 150);
    assert_eq!(late.amount(), 600 - 150);
}

#[test]
fn premium_maps_to_rate() {
    let oracle = udec(100_000 * DEC_ONE);
    assert_eq!(1u8.to_rate(&oracle), udec(99_000 * DEC_ONE));
    assert_eq!(10u8.to_rate(&oracle), udec(90_000 * DEC_ONE));
    assert_eq!(0u8.to_rate(&oracle), oracle);
}

#[test]
fn config_validation() {
    let mut c = Config {
        denoms: Denoms::new("ruji", "usdc"),
        executor: "executor".to_string(),
        max_premium: 30,
        fee_maker: udec(DEC_ONE / 1000),
        fee_taker: udec(DEC_ONE / 1000),
        fee_address: "fee".to_string(),
    };
    c.validate().unwrap();
    c.max_premium = 101;
    c.validate().unwrap_err();
    c.max_premium = 30;
    c.update(Some(udec(0)), None, Some("fee2".to_string()));
    assert_eq!(c.fee_taker, udec(0));
    assert_eq!(c.fee_maker, udec(DEC_ONE / 1000));
    assert_eq!(c.fee_address, "fee2");
    c.validate().unwrap();
}

#[test]
fn merge_groups_equal_ranks_in_order() {
    let mut lanes: Vec<Vec<(u64, &str)>> = vec![
        vec![(1, "a1"), (3, "a3")],
        vec![(1, "b1"), (2, "b2")],
        vec![(2, "c2")],
    ];
    let g = merge_next(&mut lanes).unwrap();
    assert_eq!(g, vec![(1, "a1"), (1, "b1")]);
    let g = merge_next(&mut lanes).unwrap();
    assert_eq!(g, vec![(2, "b2"), (2, "c2")]);
    let g = merge_next(&mut lanes).unwrap();
    assert_eq!(g, vec![(3, "a3")]);
    assert!(merge_next(&mut lanes).is_none());
}

#[test]
fn merge_flattens_sorted_lanes_in_rank_order() {
    let mut lanes: Vec<Vec<(u64, u64)>> = vec![
        vec![(0, 0), (1, 1), (2, 2)],
        vec![(1, 10), (4, 40)],
        vec![],
        vec![(2, 20), (2, 21), (3, 30)],
    ];
    let mut flat: Vec<u64> = vec![];
    let mut count = 0;
    while let Some(group) = merge_next(&mut lanes) {
        let first = group[0].0;
        for (rank, _) in &group {
            assert_eq!(*rank, first);
            flat.push(*rank);
        }
        count += group.len();
    }
    assert_eq!(count, 8);
    for w in flat.windows(2) {
        assert!(w[0] <= w[1]);
    }
}
