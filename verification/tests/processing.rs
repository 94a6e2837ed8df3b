use warframe_market_ducats_buyer::filter::{default_order_filter, OrderFilter, PRICE_TO_OFFER};
use warframe_market_ducats_buyer::model::{Order, User};
use warframe_market_ducats_buyer::process::process_orders;

fn order(id: &str, user: &str, status: &str, platinum: u32, quantity: u32) -> Order {
    Order {
        id: id.to_string(),
        platinum,
        quantity,
        order_type: "sell".to_string(),
        visible: true,
        user: User { ingame_name: user.to_string(), status: status.to_string() },
        item_url: None,
        item_name: Some("Akbronco Prime Link".to_string()),
        price_to_offer: None,
        sum_to_offer: None,
        is_with_group: None,
    }
}

fn sample_orders() -> Vec<Order> {
    vec![
        order("A", "alice", "ingame", 3, 5),
        order("B", "bob", "ingame", 2, 10),
        order("C", "alice", "ingame", 4, 7),
        order("D", "carol", "ingame", 9, 20),
        order("E", "bob", "ingame", 1, 1),
        order("F", "dave", "offline", 1, 30),
        order("G", "erin", "ingame", 4, 12),
    ]
}

fn ids(orders: &[Order]) -> Vec<String> {
    orders.iter().map(|o| o.id.clone()).collect()
}

#[test]
fn process_orders_groups_ranks_and_enriches() {
    let out = process_orders(sample_orders(), |o: &Order| default_order_filter(o), PRICE_TO_OFFER);
    // alice (total 12) and erin (total 12) tie; alice appears first. bob has 10.
    assert_eq!(ids(&out), vec!["C", "A", "G", "B"]);
    assert_eq!(out[0].price_to_offer, Some(3));
    assert_eq!(out[0].sum_to_offer, Some(21));
    assert_eq!(out[0].is_with_group, Some(true));
    assert_eq!(out[1].price_to_offer, Some(3));
    assert_eq!(out[1].sum_to_offer, Some(15));
    assert_eq!(out[1].is_with_group, Some(true));
    assert_eq!(out[2].sum_to_offer, Some(36));
    assert_eq!(out[2].is_with_group, Some(false));
    assert_eq!(out[3].price_to_offer, Some(2));
    assert_eq!(out[3].sum_to_offer, Some(20));
    assert_eq!(out[3].is_with_group, Some(false));
}

#[test]
fn process_orders_keeps_other_fields() {
    let out = process_orders(sample_orders(), |o: &Order| default_order_filter(o), PRICE_TO_OFFER);
    let c = &out[0];
    assert_eq!(c.platinum, 4);
    assert_eq!(c.quantity, 7);
    assert_eq!(c.user.ingame_name, "alice");
    assert_eq!(c.item_name.as_deref(), Some("Akbronco Prime Link"));
}

#[test]
fn process_orders_empty_and_all_filtered() {
    let out = process_orders(Vec::new(), |_: &Order| true, 3);
    assert!(out.is_empty());
    let out = process_orders(sample_orders(), |_: &Order| false, 3);
    assert!(out.is_empty());
}

#[test]
fn process_orders_offer_above_price_keeps_price() {
    let out = process_orders(vec![order("X", "zed", "ingame", 2, 3)], |_: &Order| true, 10);
    assert_eq!(out[0].price_to_offer, Some(2));
    assert_eq!(out[0].sum_to_offer, Some(6));
    assert_eq!(out[0].is_with_group, Some(false));
}

#[test]
fn process_orders_stable_within_seller() {
    // equal quantities keep their input order
    let orders = vec![
        order("1", "u", "ingame", 1, 4),
        order("2", "u", "ingame", 1, 9),
        order("3", "u", "ingame", 1, 4),
        order("4", "u", "ingame", 1, 9),
    ];
    let out = process_orders(orders, |_: &Order| true, 1);
    assert_eq!(ids(&out), vec!["2", "4", "1", "3"]);
}

#[test]
fn law_processed_orders_are_ranked_on_sample() {
    let input = sample_orders();
    let kept: Vec<Order> = input.iter().filter(|o| default_order_filter(o)).cloned().collect();
    let out = process_orders(input, |o: &Order| default_order_filter(o), PRICE_TO_OFFER);
    let total = |name: &str| -> u32 {
        kept.iter().filter(|o| o.user.ingame_name == name).map(|o| o.quantity).sum()
    };
    for i in 0..out.len() {
        for j in i + 1..out.len() {
            let (a, b) = (&out[i], &out[j]);
            if a.user.ingame_name == b.user.ingame_name {
                assert!(a.quantity >= b.quantity);
                for m in i + 1..j {
                    assert_eq!(out[m].user.ingame_name, a.user.ingame_name);
                }
            } else {
                assert!(total(&a.user.ingame_name) >= total(&b.user.ingame_name));
            }
        }
    }
}

#[test]
fn law_processed_orders_are_the_kept_orders_on_sample() {
    let input = sample_orders();
    let kept: Vec<Order> = input.iter().filter(|o| default_order_filter(o)).cloned().collect();
    let out = process_orders(input, |o: &Order| default_order_filter(o), PRICE_TO_OFFER);
    assert_eq!(out.len(), kept.len());
    for k in &kept {
        let count = kept.iter().filter(|o| o.user.ingame_name == k.user.ingame_name).count();
        let price = PRICE_TO_OFFER.min(k.platinum);
        let mut expected = k.clone();
        expected.price_to_offer = Some(price);
        expected.sum_to_offer = Some(price * k.quantity);
        expected.is_with_group = Some(count > 1);
        assert_eq!(out.iter().filter(|o| **o == expected).count(), 1);
    }
}

#[test]
fn default_order_filter_cases() {
    assert!(default_order_filter(&order("a", "u", "ingame", 4, 2)));
    assert!(!default_order_filter(&order("a", "u", "ingame", 5, 2)));
    assert!(!default_order_filter(&order("a", "u", "ingame", 4, 1)));
    assert!(!default_order_filter(&order("a", "u", "online", 4, 2)));
    let mut buy = order("a", "u", "ingame", 4, 2);
    buy.order_type = "buy".to_string();
    assert!(!default_order_filter(&buy));
    let mut hidden = order("a", "u", "ingame", 4, 2);
    hidden.visible = false;
    assert!(!default_order_filter(&hidden));
}

#[test]
fn order_filter_skips_contacted_and_ignored() {
    let filter = OrderFilter {
        max_price: 5,
        min_quantity: 1,
        contacted_order_ids: vec!["done".to_string()],
        ignored_nicknames: vec!["troll".to_string()],
    };
    assert!(filter.matches(&order("new", "friend", "ingame", 5, 1)));
    assert!(!filter.matches(&order("done", "friend", "ingame", 5, 1)));
    assert!(!filter.matches(&order("new", "troll", "ingame", 5, 1)));
    assert!(!filter.matches(&order("new", "friend", "ingame", 6, 1)));
    assert!(!filter.matches(&order("new", "friend", "ingame", 5, 0)));
}

#[test]
fn law_default_filter_is_search_filter_on_samples() {
    let filter = OrderFilter {
        max_price: 4,
        min_quantity: 2,
        contacted_order_ids: Vec::new(),
        ignored_nicknames: Vec::new(),
    };
    for o in sample_orders() {
        assert_eq!(filter.matches(&o), default_order_filter(&o));
    }
}

#[test]
fn process_with_order_filter() {
    let filter = OrderFilter {
        max_price: 4,
        min_quantity: 2,
        contacted_order_ids: vec!["C".to_string()],
        ignored_nicknames: vec!["erin".to_string()],
    };
    let out = process_orders(sample_orders(), |o: &Order| filter.matches(o), 3);
    assert_eq!(ids(&out), vec!["B", "A"]);
    assert_eq!(out[1].is_with_group, Some(false));
}

#[test]
fn user_default_is_random_alphanumeric() {
    let u = User::default();
    assert!(u.ingame_name.len() >= 5 && u.ingame_name.len() < 20);
    assert!(u.ingame_name.chars().all(|c| c.is_ascii_alphanumeric()));
    assert!(u.status.len() >= 5 && u.status.len() < 20);
    let o = Order::default();
    assert_eq!(o.platinum, 0);
    assert!(o.item_name.is_none());
}

#[test]
fn law_processing_twice_changes_nothing_on_sample() {
    let once = process_orders(sample_orders(), |o: &Order| default_order_filter(o), PRICE_TO_OFFER);
    let twice = process_orders(once.clone(), |_: &Order| true, PRICE_TO_OFFER);
    assert_eq!(twice, once);
    let again = process_orders(once.clone(), |o: &Order| default_order_filter(o), PRICE_TO_OFFER);
    assert_eq!(again, once);
}
