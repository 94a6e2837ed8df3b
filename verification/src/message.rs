use vstd::prelude::*;
use vstd::string::{StrSliceExecFns, StringExecFns};
use crate::model::Order;
use crate::process::min_price;
use crate::text::{decimal, decimal_string, str_ends_with};

verus! {

/// How the message links the item: `[Name] Blueprint` for a blueprint,
/// `[Name]` for anything else.
pub open spec fn linked_item_name(item_name: Seq<char>) -> Seq<char> {
    if " Blueprint"@.is_suffix_of(item_name) {
        "["@ + item_name.subrange(0, item_name.len() - " Blueprint"@.len()) + "] Blueprint"@
    } else {
        "["@ + item_name + "]"@
    }
}

/// The whisper to `user` offering to buy `quantity` of `item_name`, listed at
/// `platinum` each, for at most `desired_price` each.
pub open spec fn message_text(
    user: Seq<char>,
    item_name: Seq<char>,
    platinum: u32,
    quantity: u32,
    desired_price: u32,
) -> Seq<char> {
    let price = min_price(desired_price, platinum);
    let total = (price * quantity) as nat;
    let linked = linked_item_name(item_name);
    if quantity == 1 && price == platinum {
        "/w "@ + user + " Hi! I want to buy: "@ + linked + " for "@ + decimal(platinum as nat)
            + " platinum. (warframe.market)"@
    } else if price == platinum {
        "/w "@ + user + " Hi! I want to buy all "@ + decimal(quantity as nat) + " of "@ + linked
            + " for "@ + decimal(platinum as nat) + ":platinum: each (Total: "@ + decimal(total)
            + ":platinum:)."@
    } else {
        "/w "@ + user + " Hi! I want to buy all "@ + decimal(quantity as nat) + " of "@ + linked
            + ". I can offer "@ + decimal(price as nat) + ":platinum: each (Total: "@ + decimal(
            total,
        ) + ":platinum:). Your price was "@ + decimal(platinum as nat)
            + ":platinum: each. Let me know if you are interested!"@
    }
}

/// The message that `generate_message` writes for `order` at `desired_price`.
pub open spec fn order_message(order: Order, desired_price: u32) -> Seq<char> {
    message_text(
        order.user.ingame_name@,
        order.item_name.unwrap()@,
        order.platinum,
        order.quantity,
        desired_price,
    )
}

/// An offer for `order` at `desired_price` can be written: the order names its
/// item and the total offered fits in `u32`.
pub open spec fn can_message(order: Order, desired_price: u32) -> bool {
    &&& order.item_name is Some
    &&& min_price(desired_price, order.platinum) * order.quantity <= u32::MAX
}

/// The item name as the message links it.
fn link_item_name(item_name: &str) -> (res: String)
    ensures
        res@ == linked_item_name(item_name@),
{
    let suffix = " Blueprint";
    if str_ends_with(item_name, suffix) {
        let n = item_name.unicode_len();
        let stripped = item_name.substring_char(0, n - suffix.unicode_len());
        let mut res = String::from_str("[");
        res.append(stripped);
        res.append("] Blueprint");
        res
    } else {
        let mut res = String::from_str("[");
        res.append(item_name);
        res.append("]");
        res
    }
}

/// Generates a message for a single order.
pub fn generate_message(order: &Order, desired_price: u32) -> (res: String)
    requires
        can_message(*order, desired_price),
    ensures
        res@ == order_message(*order, desired_price),
{
    let platinum = order.platinum;
    let quantity = order.quantity;
    let price_to_offer = if desired_price <= platinum { desired_price } else { platinum };
    let total_price = price_to_offer * quantity;
    let item_name = match &order.item_name {
        Some(name) => name,
        None => {
            assert(false);
            return String::new();
        },
    };
    let linked = link_item_name(item_name.as_str());
    let is_offer_equal = price_to_offer == platinum;
    let mut res = String::from_str("/w ");
    res.append(order.user.ingame_name.as_str());
    if quantity == 1 && is_offer_equal {
        res.append(" Hi! I want to buy: ");
        res.append(linked.as_str());
        res.append(" for ");
        res.append(decimal_string(platinum).as_str());
        res.append(" platinum. (warframe.market)");
    } else if is_offer_equal {
        res.append(" Hi! I want to buy all ");
        res.append(decimal_string(quantity).as_str());
        res.append(" of ");
        res.append(linked.as_str());
        res.append(" for ");
        res.append(decimal_string(platinum).as_str());
        res.append(":platinum: each (Total: ");
        res.append(decimal_string(total_price).as_str());
        res.append(":platinum:).");
    } else {
        res.append(" Hi! I want to buy all ");
        res.append(decimal_string(quantity).as_str());
        res.append(" of ");
        res.append(linked.as_str());
        res.append(". I can offer ");
        res.append(decimal_string(price_to_offer).as_str());
        res.append(":platinum: each (Total: ");
        res.append(decimal_string(total_price).as_str());
        res.append(":platinum:). Your price was ");
        res.append(decimal_string(platinum).as_str());
        res.append(":platinum: each. Let me know if you are interested!");
    }
    res
}

/// Generates a message for a single order using the stored price_to_offer.
/// This should be used when displaying messages for processed orders,
/// to ensure the message reflects the offer price at the time of processing.
pub fn generate_message_from_order(order: &Order) -> (res: String)
    requires
        order.price_to_offer is Some,
        can_message(*order, order.price_to_offer.unwrap()),
    ensures
        res@ == order_message(*order, order.price_to_offer.unwrap()),
{
    let price_to_offer = match order.price_to_offer {
        Some(p) => p,
        None => {
            assert(false);
            0
        },
    };
    generate_message(order, price_to_offer)
}

/// Generates messages for all processed orders.
pub fn generate_messages(orders: &[Order], desired_price: u32) -> (res: Vec<String>)
    requires
        forall|i: int| 0 <= i < orders@.len() ==> can_message(#[trigger] orders@[i], desired_price),
    ensures
        res@.len() == orders@.len(),
        forall|i: int|
            0 <= i < orders@.len() ==> (#[trigger] res@[i])@ == order_message(orders@[i], desired_price),
{
    let mut res: Vec<String> = Vec::new();
    let mut i: usize = 0;
    while i < orders.len()
        invariant
            0 <= i <= orders@.len(),
            res@.len() == i,
            forall|k: int| 0 <= k < orders@.len() ==> can_message(#[trigger] orders@[k], desired_price),
            forall|k: int| 0 <= k < i ==> (#[trigger] res@[k])@ == order_message(orders@[k], desired_price),
        decreases orders@.len() - i,
    {
        res.push(generate_message(&orders[i], desired_price));
        i = i + 1;
    }
    res
}

/// Law: the message for a processed order, written at the price stored by
/// processing, is the message for the order as fetched at the offer price of
/// that processing; and it can be written whenever the fetched one can.
pub proof fn law_message_of_processed_order(o: Order, offer_price: u32, with_group: bool)
    ensures
        order_message(
            crate::process::enriched(o, offer_price, with_group),
            min_price(offer_price, o.platinum),
        ) == order_message(o, offer_price),
        can_message(o, offer_price) ==> can_message(
            crate::process::enriched(o, offer_price, with_group),
            min_price(offer_price, o.platinum),
        ),
        crate::process::enriched(o, offer_price, with_group).price_to_offer == Some(
            min_price(offer_price, o.platinum),
        ),
{
}

} // verus!
