//! Batch validation of priced items before they enter the ledger.
//!
//! Every price of a batch must be a well-formed two-decimal amount; the
//! whole batch is rejected on the first one that is not, so nothing is
//! persisted from a batch with a malformed row.

use crate::money::is_valid_price;
use crate::money::parse_price;
use crate::money::price_val;
use crate::money::spec_trim;
use vstd::prelude::*;

verus! {

/// One ingested record: an item name and its price as entered.
pub struct Item {
    pub name: String,
    pub price: String,
}

/// Rejection of a batch: the first item whose price is not a well-formed
/// two-decimal amount or does not fit in minor units, with the offending
/// raw value.
pub struct MalformedPrice {
    pub item: String,
    pub raw: String,
}

/// An item's price is acceptable: well-formed after trimming, and its value
/// fits in `u32` minor units.
pub open spec fn item_price_ok(it: Item) -> bool {
    is_valid_price(spec_trim(it.price@)) && price_val(spec_trim(it.price@)) <= u32::MAX
}

/// Minor-unit cost of an item with an acceptable price.
pub open spec fn item_cost(it: Item) -> int {
    price_val(spec_trim(it.price@))
}

/// Validate a batch of items, converting each price to minor units.
///
/// Returns the costs in item order exactly when every price is acceptable;
/// otherwise the batch is rejected at its first unacceptable price, naming
/// the item and carrying the raw price value.
pub fn validate_items(items: &Vec<Item>) -> (r: Result<Vec<u32>, MalformedPrice>)
    ensures
        match r {
            Ok(costs) => {
                &&& costs@.len() == items@.len()
                &&& forall|i: int| 0 <= i < items@.len() ==> item_price_ok(#[trigger] items@[i])
                &&& forall|i: int|
                    0 <= i < items@.len() ==> (#[trigger] costs@[i]) as int == item_cost(
                        items@[i],
                    )
            },
            Err(e) => exists|k: int|
                {
                    &&& 0 <= k < items@.len()
                    &&& !item_price_ok(#[trigger] items@[k])
                    &&& (forall|i: int| 0 <= i < k ==> item_price_ok(#[trigger] items@[i]))
                    &&& e.item@ == items@[k].name@
                    &&& e.raw@ == items@[k].price@
                },
        },
{
    let mut costs: Vec<u32> = Vec::new();
    let mut idx: usize = 0;
    while idx < items.len()
        invariant
            idx <= items@.len(),
            costs@.len() == idx,
            forall|i: int| 0 <= i < idx ==> item_price_ok(#[trigger] items@[i]),
            forall|i: int| 0 <= i < idx ==> (#[trigger] costs@[i]) as int == item_cost(items@[i]),
        decreases items@.len() - idx,
    {
        match parse_price(items[idx].price.as_str()) {
            Some(v) => {
                costs.push(v);
            },
            None => {
                let e = MalformedPrice {
                    item: items[idx].name.clone(),
                    raw: items[idx].price.clone(),
                };
                proof {
                    let k = idx as int;
                    assert(0 <= k < items@.len() && !item_price_ok(items@[k]) && (forall|i: int|
                        0 <= i < k ==> item_price_ok(#[trigger] items@[i])) && e.item@
                        == items@[k].name@ && e.raw@ == items@[k].price@);
                }
                return Err(e);
            },
        }
        idx = idx + 1;
    }
    Ok(costs)
}

} // verus!
