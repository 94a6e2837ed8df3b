use warframe_market_ducats_buyer::fetch::{
    fix_relic_url_if_needed, gather_fetched_orders, item_url_for, orders_endpoint,
    relic_url_from_captures, tag_orders_with_item,
};
use warframe_market_ducats_buyer::locale::{Drop, Drop11, En, Pl};
use warframe_market_ducats_buyer::model::{GetOrdersResponse, Order, Payload, User};

fn order(id: &str) -> Order {
    Order {
        id: id.to_string(),
        platinum: 3,
        quantity: 2,
        order_type: "sell".to_string(),
        visible: true,
        user: User { ingame_name: "u".to_string(), status: "ingame".to_string() },
        item_url: None,
        item_name: None,
        price_to_offer: None,
        sum_to_offer: None,
        is_with_group: None,
    }
}

#[test]
fn item_url_for_plain_items() {
    assert_eq!(item_url_for("Harrow Prime Blueprint"), "harrow_prime_blueprint");
    assert_eq!(item_url_for("Dual Keres Prime Blueprint"), "dual_keres_prime_blueprint");
}

#[test]
fn item_url_for_relics() {
    assert_eq!(item_url_for("Axi G14 Relic"), "axi_g14_relic");
}

#[test]
fn fix_relic_url_cases() {
    assert_eq!(fix_relic_url_if_needed("axi_g_14_relic".to_string()), "axi_g14_relic");
    assert_eq!(fix_relic_url_if_needed("lith_a1_relic".to_string()), "lith_a1_relic");
    assert_eq!(fix_relic_url_if_needed("axi_g_14".to_string()), "axi_g_14");
    assert_eq!(fix_relic_url_if_needed("harrow_prime_blueprint".to_string()), "harrow_prime_blueprint");
    assert_eq!(fix_relic_url_if_needed("_relic".to_string()), "_relic");
    assert_eq!(fix_relic_url_if_needed("é_axi_g_14_relic".to_string()), "é_axi_g14_relic");
    // the text around the match is kept; only the underscore goes
    assert_eq!(fix_relic_url_if_needed("x_neo_n_5_relic".to_string()), "x_neo_n5_relic");
    assert_eq!(fix_relic_url_if_needed("x_axi_g_14_relic".to_string()), "x_axi_g14_relic");
    assert_eq!(
        fix_relic_url_if_needed("a_b_1_relic_c_d_2_relic".to_string()),
        "a_b1_relic_c_d_2_relic"
    );
}

#[test]
fn relic_url_from_groups() {
    let snake = "old_axi_g_14_relic_x";
    let groups = vec![
        Some(("old_".to_string(), "axi_g_14_relic".to_string())),
        Some(("old_".to_string(), "axi".to_string())),
        Some(("old_axi_".to_string(), "g".to_string())),
        Some(("old_axi_g_".to_string(), "14".to_string())),
    ];
    assert_eq!(relic_url_from_captures(snake, &groups), "old_axi_g14_relic_x");
}

#[test]
fn orders_endpoint_url() {
    assert_eq!(
        orders_endpoint("harrow_prime_blueprint"),
        "https://api.warframe.market/v1/items/harrow_prime_blueprint/orders"
    );
}

#[test]
fn tag_orders_records_item() {
    let tagged = tag_orders_with_item(vec![order("a"), order("b")], "Axi G14 Relic", "axi_g14_relic");
    assert_eq!(tagged.len(), 2);
    assert_eq!(tagged[1].id, "b");
    for o in &tagged {
        assert_eq!(o.item_name.as_deref(), Some("Axi G14 Relic"));
        assert_eq!(o.item_url.as_deref(), Some("axi_g14_relic"));
        assert_eq!(o.platinum, 3);
    }
}

#[test]
fn gather_appends_successes_only() {
    let mut all = vec![order("a")];
    gather_fetched_orders(&mut all, Ok(vec![order("b"), order("c")]));
    gather_fetched_orders(&mut all, Err("network down".to_string()));
    gather_fetched_orders(&mut all, Ok(Vec::new()));
    let ids: Vec<&str> = all.iter().map(|o| o.id.as_str()).collect();
    assert_eq!(ids, vec!["a", "b", "c"]);
}

#[test]
fn response_and_locale_types_hold_data() {
    let r = GetOrdersResponse { payload: Payload { orders: vec![order("a")] } };
    assert_eq!(r.payload.orders.len(), 1);
    assert_eq!(GetOrdersResponse::default().payload.orders.len(), 0);
    let en = En {
        item_name: "Axi G14 Relic".to_string(),
        description: String::new(),
        wiki_link: String::new(),
        drop: vec![Drop { name: "Void".to_string(), link: String::new() }],
    };
    assert_eq!(en.clone(), en);
    let pl = Pl { drop: vec![Drop11::default()], ..Pl::default() };
    assert_eq!(pl.drop.len(), 1);
}
