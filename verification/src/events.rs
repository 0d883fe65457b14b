//! The tagged events order management emits: one per creation, increase,
//! retraction or withdrawal, carrying owner, tier and amount.

use vstd::prelude::*;

use crate::exchange::swapper::Event;
use crate::fmt::{dec_chars, fmt_u128};
use crate::order::Order;
use crate::pool::Pool;

verus! {

/// An order event reads as: its tag, then the owner, the tier's premium,
/// and the named amount.
pub open spec fn order_event_matches(
    e: Event,
    ty: Seq<char>,
    owner: Seq<char>,
    premium: int,
    amount_key: Seq<char>,
    amount: int,
) -> bool {
    &&& e.ty@ == ty
    &&& e.attributes@.len() == 3
    &&& e.attributes@[0].0@ == "owner"@ && e.attributes@[0].1@ == owner
    &&& e.attributes@[1].0@ == "premium"@ && e.attributes@[1].1@ == dec_chars(premium)
    &&& e.attributes@[2].0@ == amount_key && e.attributes@[2].1@ == dec_chars(amount)
}

fn order_event(ty: &str, pool: &Pool, owner: &String, amount_key: &str, amount: u128) -> (e: Event)
    ensures
        e.ty@ == ty@,
        e.attributes@.len() == 3,
        e.attributes@[0].0@ == "owner"@ && e.attributes@[0].1@ == owner@,
        e.attributes@[1].0@ == "premium"@ && e.attributes@[1].1@ == dec_chars(pool.premium as int),
        e.attributes@[2].0@ == amount_key@ && e.attributes@[2].1@ == dec_chars(amount as int),
{
    let mut attributes: Vec<(String, String)> = Vec::new();
    attributes.push((String::new().concat("owner"), owner.clone()));
    attributes.push((String::new().concat("premium"), fmt_u128(pool.premium as u128)));
    attributes.push((String::new().concat(amount_key), fmt_u128(amount)));
    Event { ty: String::new().concat(ty), attributes }
}

/// The event for a newly created order: its original offer.
pub fn event_create_order(pool: &Pool, order: &Order) -> (e: Event)
    ensures
        order_event_matches(
            e,
            "rujira-orca/order.create"@,
            order.owner@,
            pool.premium as int,
            "offer"@,
            order.offer as int,
        ),
{
    order_event("rujira-orca/order.create", pool, &order.owner, "offer", order.offer)
}

/// The event for claimed proceeds leaving an order.
pub fn event_withdraw_order(pool: &Pool, order: &Order, amount: &u128) -> (e: Event)
    ensures
        order_event_matches(
            e,
            "rujira-orca/order.withdraw"@,
            order.owner@,
            pool.premium as int,
            "amount"@,
            *amount as int,
        ),
{
    order_event("rujira-orca/order.withdraw", pool, &order.owner, "amount", *amount)
}

/// The event for principal added to an order.
pub fn event_increase_order(pool: &Pool, order: &Order, amount: &u128) -> (e: Event)
    ensures
        order_event_matches(
            e,
            "rujira-orca/order.increase"@,
            order.owner@,
            pool.premium as int,
            "amount"@,
            *amount as int,
        ),
{
    order_event("rujira-orca/order.increase", pool, &order.owner, "amount", *amount)
}

/// The event for principal withdrawn from an order.
pub fn event_retract_order(pool: &Pool, order: &Order, amount: &u128) -> (e: Event)
    ensures
        order_event_matches(
            e,
            "rujira-orca/order.retract"@,
            order.owner@,
            pool.premium as int,
            "amount"@,
            *amount as int,
        ),
{
    order_event("rujira-orca/order.retract", pool, &order.owner, "amount", *amount)
}

} // verus!
