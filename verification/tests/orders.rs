use rujira_pilot::balance::Balance;
use rujira_pilot::contract::list_tiers;
use rujira_pilot::exchange::swappable::Swappable;
use rujira_pilot::math::{Udec, DEC_ONE};
use rujira_pilot::order::Order;
use rujira_pilot::order_manager::{Denoms, OrderManager};
use rujira_pilot::pool::Pool;
use rujira_pilot::state::State;

fn one() -> Udec {
    Udec::new(DEC_ONE)
}

fn fee() -> Udec {
    Udec::new(DEC_ONE / 1000)
}

fn balance_of(entries: &[(&str, u128)]) -> Balance {
    let mut b = Balance::new();
    for (denom, amount) in entries {
        b.add(&denom.to_string(), *amount).unwrap();
    }
    b
}

fn manager(funds: Balance) -> OrderManager {
    OrderManager::new(
        Denoms::new("ruji", "usdc"),
        fee(),
        30,
        "addr0000".to_string(),
        0,
        one(),
        funds,
    )
}

#[test]
fn test_simple_success() {
    let mut st = State::new();
    let funds = balance_of(&[("usdc", 1000)]);
    let mut e = manager(funds);

    let res = e.execute_orders(&mut st, vec![(1, 1000)]).unwrap();

    assert_eq!(res.withdraw, Balance::new());
    let event = &res.events[0];
    assert_eq!(event.ty, "rujira-orca/order.create");
    assert_eq!(event.attributes[0].0, "owner");
    assert_eq!(event.attributes[0].1, "addr0000");
    assert_eq!(event.attributes[1].0, "premium");
    assert_eq!(event.attributes[1].1, "1");
    assert_eq!(event.attributes[2].0, "offer");
    assert_eq!(event.attributes[2].1, "1000");
}

#[test]
fn test_multiple_orders() {
    let mut st = State::new();
    let funds = balance_of(&[("usdc", 10000), ("ruji", 10000)]);
    let mut e = manager(funds);

    let res = e
        .execute_orders(&mut st, vec![(0, 2000), (1, 1000), (2, 1200), (14, 1300)])
        .unwrap();
    let returned = balance_of(&[("ruji", 10000), ("usdc", 4500)]);
    assert_eq!(res.withdraw, returned);

    let event = &res.events[0];
    assert_eq!(event.ty, "rujira-orca/order.create");
    assert_eq!(event.attributes[0].1, "addr0000");
    assert_eq!(event.attributes[1].1, "0");
    assert_eq!(event.attributes[2].1, "2000");

    let event = &res.events[1];
    assert_eq!(event.ty, "rujira-orca/order.create");
    assert_eq!(event.attributes[1].1, "1");
    assert_eq!(event.attributes[2].1, "1000");

    let event = &res.events[2];
    assert_eq!(event.ty, "rujira-orca/order.create");
    assert_eq!(event.attributes[1].1, "2");
    assert_eq!(event.attributes[2].1, "1200");

    let event = &res.events[3];
    assert_eq!(event.ty, "rujira-orca/order.create");
    assert_eq!(event.attributes[1].1, "14");
    assert_eq!(event.attributes[2].1, "1300");
}

#[test]
fn test_out_of_funds() {
    let mut st = State::new();
    let mut e = manager(Balance::new());
    e.execute_orders(&mut st, vec![(0, 1000)]).unwrap_err();
}

#[test]
fn test_moving_orders() {
    let mut st = State::new();
    let funds = balance_of(&[("usdc", 10000), ("ruji", 10000)]);
    let mut e = manager(funds);

    e.execute_orders(&mut st, vec![(0, 1000), (1, 2000), (2, 1200), (10, 1300)]).unwrap();

    let mut e = manager(Balance::new());
    let res = e
        .execute_orders(
            &mut st,
            vec![
                (0, 1000),
                // Split 1200 into 2 x 600
                (2, 600),
                (3, 600),
                (9, 1300),
                (10, 0),
            ],
        )
        .unwrap();

    assert_eq!(res.withdraw, Balance::new());
    assert_eq!(res.events.len(), 4);

    let event = &res.events[0];
    assert_eq!(event.ty, "rujira-orca/order.retract");
    assert_eq!(event.attributes[0].1, "addr0000");
    assert_eq!(event.attributes[1].1, "2");
    assert_eq!(event.attributes[2].0, "amount");
    assert_eq!(event.attributes[2].1, "600");

    let event = &res.events[1];
    assert_eq!(event.ty, "rujira-orca/order.create");
    assert_eq!(event.attributes[1].1, "3");
    assert_eq!(event.attributes[2].1, "600");

    let event = &res.events[2];
    assert_eq!(event.ty, "rujira-orca/order.create");
    assert_eq!(event.attributes[1].1, "9");
    assert_eq!(event.attributes[2].1, "1300");

    let event = &res.events[3];
    assert_eq!(event.ty, "rujira-orca/order.retract");
    assert_eq!(event.attributes[1].1, "10");
    assert_eq!(event.attributes[2].1, "1300");

    let mut e = manager(balance_of(&[("usdc", 300)]));
    let res = e.execute_orders(&mut st, vec![(1, 300), (10, 2000)]).unwrap();

    assert_eq!(res.withdraw, Balance::new());
    assert_eq!(res.events.len(), 2);

    let event = &res.events[0];
    assert_eq!(event.ty, "rujira-orca/order.retract");
    assert_eq!(event.attributes[1].1, "1");
    assert_eq!(event.attributes[2].1, "1700");

    let event = &res.events[1];
    assert_eq!(event.ty, "rujira-orca/order.create");
    assert_eq!(event.attributes[1].1, "10");
    assert_eq!(event.attributes[2].1, "2000");
}

#[test]
// Verify that when a tier leaves the active index its accounting state is
// retained, and the correct values are used when loading it again
fn pool_bid_pool_replacement() {
    let mut st = State::new();
    let owner = "owner".to_string();
    let offer: u128 = 100;
    let premium: u8 = 0;
    let oracle = one();
    let mut pool = Pool::load(&st, premium, &oracle);
    pool.create_order(&mut st, 0, &owner, offer).unwrap();

    Swappable::commit(&pool, &mut st).unwrap();
    // Check both the active index and the aggregate are stored
    assert!(st.is_active(premium));
    assert!(st.tier_index(premium).is_some());

    Swappable::swap(&mut pool, 100).unwrap();

    // The tier should have been emptied, so it leaves the active index,
    // but its accounting state should remain
    Swappable::commit(&pool, &mut st).unwrap();
    assert!(!st.is_active(premium));
    assert!(st.tier_index(premium).is_some());
    let reloaded = Pool::load(&st, premium, &oracle);
    // Check it's different from a fresh tier
    assert_ne!(reloaded.pool, rujira_pilot::bid_pool::Pool::new());

    // Now check it's restored to the pool correctly
    assert_eq!(reloaded.pool, pool.pool);
}

#[test]
fn query_order() {
    let mut st = State::new();
    let owner = "owner".to_string();
    let offer: u128 = 100;
    let mut pool = Pool::load(&st, 0, &one());
    pool.create_order(&mut st, 0, &owner, offer).unwrap();

    Swappable::commit(&pool, &mut st).unwrap();

    let order = Order::load(&st, &owner, 0).unwrap();
    assert_eq!(order.owner, owner);
    assert_eq!(order.offer, offer);
}

#[test]
fn query_orders_by_owner() {
    let mut st = State::new();
    let owner = "owner".to_string();
    let owner2 = "owner2".to_string();
    let offer: u128 = 100;
    let oracle = one();
    let mut pool1 = Pool::load(&st, 0, &oracle);
    pool1.create_order(&mut st, 0, &owner, offer).unwrap();
    let mut pool2 = Pool::load(&st, 1, &oracle);
    pool2.create_order(&mut st, 0, &owner, offer).unwrap();
    let mut pool3 = Pool::load(&st, 2, &oracle);
    pool3.create_order(&mut st, 0, &owner, offer).unwrap();
    let mut pool4 = Pool::load(&st, 10, &oracle);
    pool4.create_order(&mut st, 0, &owner, offer).unwrap();
    let mut pool5 = Pool::load(&st, 11, &oracle);
    pool5.create_order(&mut st, 0, &owner, offer).unwrap();
    let mut pool6 = Pool::load(&st, 12, &oracle);
    pool6.create_order(&mut st, 0, &owner, offer).unwrap();

    let mut pool1b = Pool::load(&st, 0, &oracle);
    pool1b.create_order(&mut st, 0, &owner2, offer).unwrap();

    let orders = Order::by_owner(&st, &owner, None, None);
    assert_eq!(orders.len(), 6);
    assert_eq!(orders[0].1.owner, owner);
    assert_eq!(orders[0].1.offer, offer);
}

#[test]
// Positions created against an oracle price of 100000 must report tier
// prices of 99000 and 90000 and capacities matching the deposits exactly
fn tiers_report_prices_and_totals() {
    let mut st = State::new();
    let oracle = Udec::new(100_000 * DEC_ONE);
    let funds = balance_of(&[("usdc", 73_500)]);
    let mut e = OrderManager::new(
        Denoms::new("btc", "usdc"),
        Udec::new(0),
        30,
        "owner".to_string(),
        0,
        oracle,
        funds,
    );
    e.execute_orders(&mut st, vec![(1, 10_000), (10, 12_500), (20, 51_000)]).unwrap();

    let tiers = list_tiers(&st, &oracle, 0, 100);
    assert_eq!(tiers.len(), 3);
    assert_eq!(tiers[0].0, 1);
    assert_eq!(tiers[0].1, Udec::new(99_000 * DEC_ONE));
    assert_eq!(tiers[0].2, 10_000);
    assert_eq!(tiers[1].0, 10);
    assert_eq!(tiers[1].1, Udec::new(90_000 * DEC_ONE));
    assert_eq!(tiers[1].2, 12_500);
    assert_eq!(tiers[2].0, 20);
    assert_eq!(tiers[2].1, Udec::new(80_000 * DEC_ONE));
    assert_eq!(tiers[2].2, 51_000);
}

#[test]
// A swap consumes the best tier first and pays its proceeds to the bidder
fn swap_fills_best_tier_and_pays_bidders() {
    let mut st = State::new();
    let oracle = Udec::new(100_000 * DEC_ONE);
    let funds = balance_of(&[("usdc", 73_500_000)]);
    let mut e = OrderManager::new(
        Denoms::new("btc", "usdc"),
        Udec::new(0),
        30,
        "owner".to_string(),
        0,
        oracle,
        funds,
    );
    e.execute_orders(&mut st, vec![(10, 10_000_000), (15, 12_500_000), (20, 51_000_000)])
        .unwrap();

    let sim = rujira_pilot::contract::simulate_swap(&st, 100, Udec::new(0), &oracle).unwrap();
    assert_eq!(sim.return_amount, 9_000_000);

    let (res, _c) = rujira_pilot::contract::execute_swap(
        &mut st,
        "rujira-pilot",
        100,
        rujira_pilot::exchange::swapper::SwapRequest::Yolo,
        Udec::new(0),
        &oracle,
    )
    .unwrap();
    assert_eq!(res.return_amount, 9_000_000);
    assert_eq!(res.consumed_offer, 100);
    assert_eq!(res.remaining_offer, 0);

    // A second swap drains the best tier and walks into the next ones
    let (res, _c) = rujira_pilot::contract::execute_swap(
        &mut st,
        "rujira-pilot",
        300,
        rujira_pilot::exchange::swapper::SwapRequest::Yolo,
        Udec::new(0),
        &oracle,
    )
    .unwrap();
    assert_eq!(res.events[0].attributes[1].1, "11");
    assert_eq!(res.events[0].attributes[2].1, "1000000");
    assert_eq!(res.events[1].attributes[1].1, "147");
    assert_eq!(res.events[1].attributes[2].1, "12500000");
    assert_eq!(res.events[2].attributes[1].1, "142");
    assert_eq!(res.events[2].attributes[2].1, "11360000");
    assert_eq!(res.return_amount, 24_860_000);

    // Unused offer is reported back to the caller
    let (res, _c) = rujira_pilot::contract::execute_swap(
        &mut st,
        "rujira-pilot",
        1000,
        rujira_pilot::exchange::swapper::SwapRequest::Yolo,
        Udec::new(0),
        &oracle,
    )
    .unwrap();
    assert_eq!(res.events[0].attributes[1].1, "495");
    assert_eq!(res.events[0].attributes[2].1, "39640000");
    assert_eq!(res.remaining_offer, 505);

    // The bidder's position has been filled and can be claimed
    let pos = rujira_pilot::contract::get_position(&st, &"owner".to_string(), 10, &oracle)
        .unwrap();
    assert_eq!(pos.remaining, 0);
    assert_eq!(pos.filled, 100 + 11);
}
