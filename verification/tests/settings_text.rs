use warframe_market_ducats_buyer::settings::{
    is_white_space_char, parse_setting_u32, parse_u32, setting_entries, Preset,
};
use warframe_market_ducats_buyer::text::decimal_string;

fn std_entries(text: &str) -> Vec<String> {
    text.lines().map(|s| s.trim().to_string()).filter(|s| !s.is_empty()).collect()
}

#[test]
fn setting_entries_examples() {
    assert_eq!(
        setting_entries("Harrow Prime Blueprint\n  Astilla Prime Stock  \n\n\tBaza Prime Barrel\r\n"),
        vec!["Harrow Prime Blueprint", "Astilla Prime Stock", "Baza Prime Barrel"]
    );
    assert!(setting_entries("").is_empty());
    assert!(setting_entries("\n \n\t\n").is_empty());
    assert_eq!(setting_entries("one"), vec!["one"]);
    assert_eq!(setting_entries("a b \u{3000}"), vec!["a b"]);
}

#[test]
fn setting_entries_agree_with_lines_trim_filter() {
    let samples = [
        "", "\n", "a", "a\nb", "a\r\nb\r\n", " a \n b ", "\r\ra\r\r", "x\n\n\ny\n",
        "\u{a0}nbsp\u{a0}\n\u{2003}em\u{2003}", "mid\rdle\n", "ключ\nзначение ", "\u{85}next\u{85}",
        "tab\tinside\n", "\n\n", "trailing\n",
    ];
    for s in samples {
        assert_eq!(setting_entries(s), std_entries(s), "text {:?}", s);
    }
}

#[test]
fn white_space_agrees_with_std() {
    for c in (0u32..=0x10FFFF).filter_map(char::from_u32) {
        assert_eq!(is_white_space_char(c), c.is_whitespace(), "char {:?}", c);
    }
}

#[test]
fn parse_u32_agrees_with_std() {
    let samples = [
        "", "0", "7", "+7", "-7", "-0", "+", "-", "007", "12a", "a12", " 1", "1 ", "4294967295",
        "4294967296", "99999999999", "+4294967295", "++1", "1_000", "１", "0x10", "10",
    ];
    for s in samples {
        assert_eq!(parse_u32(s), s.parse::<u32>().ok(), "text {:?}", s);
    }
}

#[test]
fn parse_setting_defaults_to_zero() {
    assert_eq!(parse_setting_u32("4"), 4);
    assert_eq!(parse_setting_u32("four"), 0);
    assert_eq!(parse_setting_u32(""), 0);
    assert_eq!(parse_setting_u32("+3"), 3);
}

#[test]
fn law_decimal_reads_back_on_samples() {
    for n in [0u32, 1, 9, 10, 255, 65536, 4_294_967_295] {
        assert_eq!(parse_u32(&decimal_string(n)), Some(n));
        assert_eq!(parse_u32(&n.to_string()), Some(n));
    }
}

#[test]
fn preset_holds_text() {
    let p = Preset {
        name: "cheap".to_string(),
        max_price_to_search: "4".to_string(),
        min_quantity_to_search: "2".to_string(),
        price_to_offer: "3".to_string(),
        item_names: "Harrow Prime Blueprint\nBaza Prime Barrel".to_string(),
    };
    let q = p.clone();
    assert_eq!(parse_setting_u32(&q.max_price_to_search), 4);
    assert_eq!(setting_entries(&q.item_names).len(), 2);
    assert_eq!(q.name, "cheap");
}
