use rujira_pilot::exchange::swappable::{FixedRateSource, Swappable};
use rujira_pilot::exchange::swapper::{SwapRequest, Swapper};
use rujira_pilot::exchange::commitment::Commitment;
use rujira_pilot::math::{Udec, DEC_ONE};

fn dec(atomics: u128) -> Udec {
    Udec::new(atomics)
}

fn pct(hundredths: u128) -> Udec {
    Udec::new(hundredths * (DEC_ONE / 100))
}

// price and capacity must be the same shape for all items: the group
// combinator assumes identical quotes at different sizes.
fn item(amount: u128) -> FixedRateSource {
    FixedRateSource::new(pct(100), amount, vec![("test".to_string(), "attr".to_string())])
}

fn fixtures() -> Vec<FixedRateSource> {
    vec![
        FixedRateSource::new(pct(100), 1000, vec![("test".to_string(), "attr".to_string())]),
        FixedRateSource::new(pct(95), 1000, vec![("test".to_string(), "attr".to_string())]),
        FixedRateSource::new(pct(90), 1000, vec![("test".to_string(), "attr".to_string())]),
        FixedRateSource::new(pct(85), 1000, vec![("test".to_string(), "attr".to_string())]),
        FixedRateSource::new(pct(80), 1000, vec![("test".to_string(), "attr".to_string())]),
        FixedRateSource::new(pct(70), 1000, vec![("test".to_string(), "attr".to_string())]),
        FixedRateSource::new(pct(60), 1000, vec![("test".to_string(), "attr".to_string())]),
    ]
}

#[test]
fn test_swap_execution() {
    let fee = Udec::new(DEC_ONE / 1000);
    let mut iter = fixtures();

    let mut s: Swapper<FixedRateSource> = Swapper::new(
        "some-prefix".to_string(),
        7500,
        SwapRequest::Yolo,
        fee,
    );
    let res = s.swap(&mut iter).unwrap();
    assert_eq!(res.return_amount, 6283);
    assert_eq!(res.fee_amount, 7);
    assert_eq!(res.remaining_offer, 0);

    let event = &res.events[0];
    assert_eq!(event.ty, "some-prefix/trade");
    assert_eq!(event.attributes[0].0, "rate");
    assert_eq!(event.attributes[0].1, "1");
    assert_eq!(event.attributes[1].0, "offer");
    assert_eq!(event.attributes[1].1, "1000");
    assert_eq!(event.attributes[2].0, "bid");
    assert_eq!(event.attributes[2].1, "1000");
    assert_eq!(event.attributes[3].0, "test");
    assert_eq!(event.attributes[3].1, "attr");

    let event = &res.events[1];
    assert_eq!(event.ty, "some-prefix/trade");
    assert_eq!(event.attributes[0].1, "0.95");
    assert_eq!(event.attributes[1].1, "1052");
    assert_eq!(event.attributes[2].1, "1000");

    let event = &res.events[2];
    assert_eq!(event.attributes[0].1, "0.9");
    assert_eq!(event.attributes[1].1, "1111");
    assert_eq!(event.attributes[2].1, "1000");

    let event = &res.events[3];
    assert_eq!(event.attributes[0].1, "0.85");
    assert_eq!(event.attributes[1].1, "1176");
    assert_eq!(event.attributes[2].1, "1000");

    let event = &res.events[4];
    assert_eq!(event.attributes[0].1, "0.8");
    assert_eq!(event.attributes[1].1, "1250");
    assert_eq!(event.attributes[2].1, "1000");

    let event = &res.events[5];
    assert_eq!(event.attributes[0].1, "0.7");
    assert_eq!(event.attributes[1].1, "1428");
    assert_eq!(event.attributes[2].1, "1000");

    let event = &res.events[6];
    assert_eq!(event.attributes[0].1, "0.6");
    assert_eq!(event.attributes[1].1, "483");
    assert_eq!(event.attributes[2].1, "290");
}

#[test]
fn test_swap_variants() {
    let fee = Udec::new(DEC_ONE / 1000);
    let limit_inv = pct(85).inv().unwrap();
    let cases: Vec<(u128, SwapRequest, Option<(u128, u128, u128)>)> = vec![
        (900, SwapRequest::Min { min_return: 1000 }, None),
        (1100, SwapRequest::Min { min_return: 1000 }, Some((1093, 2, 0))),
        (1100, SwapRequest::Exact { exact_return: 1000 }, None),
        // Less fees
        (900, SwapRequest::Exact { exact_return: 899 }, Some((899, 1, 0))),
        (1100, SwapRequest::Limit { price: pct(100) }, Some((999, 1, 100))),
        // Price is inverted from the bid price in the iterator:
        // should get up to the fourth rate and halt, receiving four full
        // capacities less the fee.
        (10000, SwapRequest::Limit { price: limit_inv }, Some((3996, 4, 5661))),
    ];
    for (offer, req, result) in cases {
        let mut iter = fixtures();
        let mut s: Swapper<FixedRateSource> = Swapper::new(
            "some-prefix".to_string(),
            offer,
            req,
            fee,
        );
        let res = s.swap(&mut iter);
        match result {
            Some((returned, fee_amount, remaining)) => {
                let res = res.unwrap();
                assert_eq!(res.return_amount, returned);
                assert_eq!(res.fee_amount, fee_amount);
                assert_eq!(res.remaining_offer, remaining);
            }
            None => {
                res.unwrap_err();
            }
        }
    }
}

#[test]
fn vec_swappable_proportional_even_split_same_price() {
    // Totals: 50 + 50; Offer: 100 -> expect 50/50
    let mut v = vec![item(50), item(50)];
    let (consumed_offer, consumed_bids) = Swappable::swap(&mut v, 100).unwrap();

    assert_eq!(consumed_offer, 100);
    assert_eq!(consumed_bids, 100);
    assert_eq!(v[0].amount, 0);
    assert_eq!(v[1].amount, 0);
}

#[test]
fn vec_swappable_proportional_weighted_same_price() {
    // Totals: 30 + 70; Offer: 100 -> expect 30/70
    let mut v = vec![item(30), item(70)];
    let (consumed_offer, consumed_bids) = Swappable::swap(&mut v, 100).unwrap();

    assert_eq!(consumed_offer, 100);
    assert_eq!(consumed_bids, 100);
    assert_eq!(v[0].amount, 0); // 30 consumed
    assert_eq!(v[1].amount, 0); // 70 consumed
}

#[test]
fn vec_swappable_zero_liquidity_is_ignored_same_price() {
    // Totals: 0 + 100; Offer: 25 -> only second contributes
    let mut v = vec![item(0), item(100)];
    let (consumed_offer, consumed_bids) = Swappable::swap(&mut v, 25).unwrap();

    assert_eq!(consumed_offer, 25);
    assert_eq!(consumed_bids, 25);
    assert_eq!(v[0].amount, 0);
    assert_eq!(v[1].amount, 75); // 25 consumed
}

#[test]
fn vec_swappable_capacity_cap_same_price() {
    // Totals: 10 + 90; Offer: 200 -> can only consume 10 + 90 = 100 total
    let mut v = vec![item(10), item(90)];
    let (consumed_offer, consumed_bids) = Swappable::swap(&mut v, 200).unwrap();

    assert_eq!(consumed_offer, 100);
    assert_eq!(consumed_bids, 100);
    assert_eq!(v[0].amount, 0);
    assert_eq!(v[1].amount, 0);
}

#[test]
fn vec_swappable_three_pools_clean_division_same_price() {
    // Totals: 20 + 30 + 50; Offer: 100 -> expect 20/30/50
    let mut v = vec![item(20), item(30), item(50)];
    let (consumed_offer, consumed_bids) = Swappable::swap(&mut v, 100).unwrap();

    assert_eq!(consumed_offer, 100);
    assert_eq!(consumed_bids, 100);
    assert_eq!(v[0].amount, 0);
    assert_eq!(v[1].amount, 0);
    assert_eq!(v[2].amount, 0);
}

#[test]
fn vec_swappable_rounding_behaviour_same_price() {
    // Totals: 1 + 1 + 1; Offer: 2 -> each target share is 2/3;
    // total consumed = 0 because the proportional share always floors
    let mut v = vec![item(1), item(1), item(1)];
    let (consumed_offer, consumed_bids) = Swappable::swap(&mut v, 2).unwrap();

    assert_eq!(consumed_offer, 0);
    assert_eq!(consumed_bids, 0);

    let remaining: u128 = v.iter().map(|x| x.amount).sum();
    assert_eq!(remaining, 3);
}

#[test]
fn commitment_merge_sums_per_destination() {
    let mut a = Commitment::new(&"maker".to_string(), (10, 20));
    let b = Commitment::new(&"maker".to_string(), (1, 2));
    let c = Commitment::new(&"other".to_string(), (5, 6));
    a.merge(b).unwrap();
    a.merge(c).unwrap();
    let mut seen_maker = false;
    let mut seen_other = false;
    for (addr, pair) in a.entries() {
        if addr == "maker" {
            assert_eq!(*pair, (11, 22));
            seen_maker = true;
        }
        if addr == "other" {
            assert_eq!(*pair, (5, 6));
            seen_other = true;
        }
    }
    assert!(seen_maker && seen_other);
    assert_eq!(a.entries().len(), 2);
}

#[test]
fn formatted_amounts_read_as_decimal_text() {
    assert_eq!(rujira_pilot::fmt::fmt_u128(0), "0");
    assert_eq!(rujira_pilot::fmt::fmt_u128(1052), "1052");
    assert_eq!(rujira_pilot::fmt::fmt_udec(&dec(DEC_ONE)), "1");
    assert_eq!(rujira_pilot::fmt::fmt_udec(&pct(95)), "0.95");
    assert_eq!(rujira_pilot::fmt::fmt_udec(&dec(1_200_000_000_000)), "0.0000012");
    assert_eq!(rujira_pilot::fmt::fmt_udec(&dec(90_000 * DEC_ONE)), "90000");
}

#[test]
fn ratio_math_rounds_as_documented() {
    // 5 * 99 / 100 floors to 4; the inverse of 0.85 floors at the last
    // fixed-point place.
    let r = Udec::from_ratio(95, 100);
    assert_eq!(r, pct(95));
    let inv = pct(85).inv().unwrap();
    assert_eq!(inv, Udec::new(1_176_470_588_235_294_117));
    assert!(Udec::new(0).inv().is_none());
}
