use warframe_market_ducats_buyer::message::{generate_message, generate_message_from_order, generate_messages};
use warframe_market_ducats_buyer::model::{Order, User};
use warframe_market_ducats_buyer::process::process_orders;
use warframe_market_ducats_buyer::text::{decimal_string, str_ends_with, str_eq};

fn order(user: &str, item: &str, platinum: u32, quantity: u32) -> Order {
    Order {
        id: "id".to_string(),
        platinum,
        quantity,
        order_type: "sell".to_string(),
        visible: true,
        user: User { ingame_name: user.to_string(), status: "ingame".to_string() },
        item_url: None,
        item_name: Some(item.to_string()),
        price_to_offer: None,
        sum_to_offer: None,
        is_with_group: None,
    }
}

#[test]
fn message_single_item_at_asked_price() {
    let o = order("Seller1", "Akbronco Prime Link", 3, 1);
    assert_eq!(
        generate_message(&o, 5),
        "/w Seller1 Hi! I want to buy: [Akbronco Prime Link] for 3 platinum. (warframe.market)"
    );
}

#[test]
fn message_several_items_at_asked_price() {
    let o = order("Seller2", "Harrow Prime Blueprint", 2, 4);
    assert_eq!(
        generate_message(&o, 3),
        "/w Seller2 Hi! I want to buy all 4 of [Harrow Prime] Blueprint for 2:platinum: each (Total: 8:platinum:)."
    );
}

#[test]
fn message_counter_offer() {
    let o = order("Seller3", "Tatsu Prime Blade", 4, 7);
    assert_eq!(
        generate_message(&o, 3),
        "/w Seller3 Hi! I want to buy all 7 of [Tatsu Prime Blade]. I can offer 3:platinum: each (Total: 21:platinum:). Your price was 4:platinum: each. Let me know if you are interested!"
    );
}

#[test]
fn message_single_item_counter_offer() {
    // one item, but the offer is below the price: the counter-offer form
    let o = order("S", "Nidus Prime Blueprint", 10, 1);
    assert_eq!(
        generate_message(&o, 3),
        "/w S Hi! I want to buy all 1 of [Nidus Prime] Blueprint. I can offer 3:platinum: each (Total: 3:platinum:). Your price was 10:platinum: each. Let me know if you are interested!"
    );
}

#[test]
fn message_blueprint_suffix_only() {
    let o = order("S", " Blueprint", 1, 1);
    assert_eq!(
        generate_message(&o, 1),
        "/w S Hi! I want to buy: [] Blueprint for 1 platinum. (warframe.market)"
    );
    let o = order("S", "Blueprint", 1, 1);
    assert_eq!(
        generate_message(&o, 1),
        "/w S Hi! I want to buy: [Blueprint] for 1 platinum. (warframe.market)"
    );
}

#[test]
fn message_from_order_uses_stored_price() {
    let mut o = order("S", "Zakti Prime Barrel", 4, 3);
    o.price_to_offer = Some(2);
    assert_eq!(generate_message_from_order(&o), generate_message(&o, 2));
    assert_eq!(
        generate_message_from_order(&o),
        "/w S Hi! I want to buy all 3 of [Zakti Prime Barrel]. I can offer 2:platinum: each (Total: 6:platinum:). Your price was 4:platinum: each. Let me know if you are interested!"
    );
}

#[test]
fn generate_messages_one_per_order() {
    let orders = vec![order("A", "Baza Prime Barrel", 3, 1), order("B", "Baza Prime Barrel", 5, 2)];
    let msgs = generate_messages(&orders, 3);
    assert_eq!(msgs.len(), 2);
    assert_eq!(msgs[0], generate_message(&orders[0], 3));
    assert_eq!(msgs[1], generate_message(&orders[1], 3));
    assert!(generate_messages(&[], 3).is_empty());
}

#[test]
fn law_message_of_processed_order_on_samples() {
    let orders = vec![order("A", "Baza Prime Barrel", 5, 2), order("A", "Baza Prime Barrel", 1, 9)];
    let processed = process_orders(orders.clone(), |_: &Order| true, 3);
    for p in &processed {
        let original = orders.iter().find(|o| o.platinum == p.platinum).unwrap();
        assert_eq!(generate_message_from_order(p), generate_message(original, 3));
    }
}

#[test]
fn decimal_string_matches_to_string() {
    for n in [0u32, 1, 9, 10, 11, 99, 100, 101, 12345, 4_000_000_000, u32::MAX] {
        assert_eq!(decimal_string(n), n.to_string());
    }
    for n in 0..2000u32 {
        assert_eq!(decimal_string(n), n.to_string());
    }
}

#[test]
fn string_helpers() {
    assert!(str_eq("ingame", "ingame"));
    assert!(!str_eq("ingame", "ingam"));
    assert!(!str_eq("ingame", "Ingame"));
    assert!(str_eq("", ""));
    assert!(str_ends_with("Harrow Prime Blueprint", " Blueprint"));
    assert!(!str_ends_with("Blueprint", " Blueprint"));
    assert!(str_ends_with("x", ""));
    assert!(str_ends_with("ключ_relic", "_relic"));
}
