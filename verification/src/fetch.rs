use vstd::prelude::*;
use vstd::string::{StrSliceExecFns, StringExecFns};
use convert_case::{Case, Casing};
use crate::model::Order;
use crate::text::str_ends_with;

verus! {

// ---------------------------------------------------------------------------
// Outside computations
// ---------------------------------------------------------------------------

/// What `convert_case` makes of `s` with `to_case(Case::Snake)`.
pub uninterp spec fn snake_case_of(s: Seq<char>) -> Seq<char>;

/// `convert_case::Casing::to_case` with `Case::Snake`: the snake-case form of
/// `s`, as `convert_case` splits words at its default boundaries. The result is
/// named, not described: this contract says only that it depends on `s` alone.
#[verifier::external_body]
fn to_snake_case(s: &str) -> (res: String)
    ensures
        res@ == snake_case_of(s@),
{
    s.to_case(Case::Snake)
}

/// What `regex` gives for `pattern` and `text`: `None` when the pattern does
/// not compile, `Some(None)` when the text holds no match, and otherwise the
/// capture groups of the leftmost-first match, group 0 being the whole match.
/// A group that took part is given as the text before it and its own text;
/// one that did not take part is `None`.
pub uninterp spec fn regex_captures(pattern: Seq<char>, text: Seq<char>) -> Option<
    Option<Seq<Option<(Seq<char>, Seq<char>)>>>,
>;

/// The characters of each capture group and of the text before it.
pub open spec fn groups_view(groups: Seq<Option<(String, String)>>) -> Seq<
    Option<(Seq<char>, Seq<char>)>,
> {
    groups.map_values(
        |g: Option<(String, String)>|
            match g {
                Some((before, group)) => Some((before@, group@)),
                None => None,
            },
    )
}

/// The characters of what `captures` hands back.
pub open spec fn captures_view(c: Option<Option<Vec<Option<(String, String)>>>>) -> Option<
    Option<Seq<Option<(Seq<char>, Seq<char>)>>>,
> {
    match c {
        None => None,
        Some(None) => Some(None),
        Some(Some(groups)) => Some(Some(groups_view(groups@))),
    }
}

/// The text before a group that took part.
pub open spec fn before_of(g: Option<(Seq<char>, Seq<char>)>) -> Seq<char> {
    match g {
        Some((before, _)) => before,
        None => seq![],
    }
}

/// The text of a group that took part.
pub open spec fn text_of(g: Option<(Seq<char>, Seq<char>)>) -> Seq<char> {
    match g {
        Some((_, group)) => group,
        None => seq![],
    }
}

/// Each group that took part stands in `text` where it says: the text before
/// it followed by the group is the start of `text`.
pub open spec fn groups_within(groups: Seq<Option<(Seq<char>, Seq<char>)>>, text: Seq<char>) -> bool {
    forall|i: int|
        0 <= i < groups.len() && (#[trigger] groups[i]) is Some ==> (before_of(groups[i])
            + text_of(groups[i])).is_prefix_of(text)
}

/// `regex::Regex::new(pattern)` followed by `Regex::captures(text)`, each
/// capture group copied out as the text before it (up to `Match::start`) and
/// its own text (`Match::as_str`). The result is named, not described: this
/// contract says that it depends on the pattern and the text alone, and, as
/// `regex` documents a match as a span of the text, that each group stands in
/// the text where it says.
#[verifier::external_body]
fn captures(pattern: &str, text: &str) -> (res: Option<Option<Vec<Option<(String, String)>>>>)
    ensures
        captures_view(res) == regex_captures(pattern@, text@),
        res matches Some(Some(groups)) ==> groups_within(groups_view(groups@), text@),
{
    match regex::Regex::new(pattern) {
        Ok(re) => Some(
            re.captures(text).map(
                |caps|
                    caps.iter().map(
                        |m| m.map(|m| (text[..m.start()].to_string(), m.as_str().to_string())),
                    ).collect(),
            ),
        ),
        Err(_) => None,
    }
}

// ---------------------------------------------------------------------------
// Item URLs
// ---------------------------------------------------------------------------

/// The pattern of a relic name whose era letter and number were split apart
/// by snake-casing, such as `axi_g_14_relic`.
pub const RELIC_PATTERN: &'static str = "([a-z]+)_([a-z])_(\\d+)_relic";

/// The match and the three parts of a relic name were captured.
pub open spec fn relic_groups_present(groups: Seq<Option<(Seq<char>, Seq<char>)>>) -> bool {
    &&& groups.len() >= 4
    &&& groups[0] is Some
    &&& groups[1] is Some
    &&& groups[2] is Some
    &&& groups[3] is Some
}

/// `snake` with the matched relic name joined back (`axi_g_14_relic` becomes
/// `axi_g14_relic`): the text before the match, the word, `_`, the era letter,
/// the number, `_relic`, then the text after the match.
pub open spec fn rejoined_relic_url(snake: Seq<char>, groups: Seq<Option<(Seq<char>, Seq<char>)>>) -> Seq<
    char,
> {
    let before = before_of(groups[0]);
    let whole = text_of(groups[0]);
    before + text_of(groups[1]) + "_"@ + text_of(groups[2]) + text_of(groups[3]) + "_relic"@ + snake.subrange(
        (before.len() + whole.len()) as int,
        snake.len() as int,
    )
}

/// The URL name of a snake-cased item name, with a split relic name joined back.
pub open spec fn fixed_relic_url(snake: Seq<char>) -> Seq<char> {
    if "_relic"@.is_suffix_of(snake) {
        match regex_captures(RELIC_PATTERN@, snake) {
            Some(Some(groups)) => if relic_groups_present(groups) {
                rejoined_relic_url(snake, groups)
            } else {
                snake
            },
            _ => snake,
        }
    } else {
        snake
    }
}

/// Joins a relic name in `snake` back together from the capture groups of
/// `RELIC_PATTERN`, keeping the text around the match.
pub fn relic_url_from_captures(snake: &str, groups: &Vec<Option<(String, String)>>) -> (res: String)
    requires
        relic_groups_present(groups_view(groups@)),
        groups_within(groups_view(groups@), snake@),
    ensures
        res@ == rejoined_relic_url(snake@, groups_view(groups@)),
{
    let ghost gv = groups_view(groups@);
    assert(gv[0] is Some);
    assert(gv[1] is Some && gv[2] is Some && gv[3] is Some);
    let n = snake.unicode_len();
    let mut res = String::new();
    let mut skip: usize = 0;
    match &groups[0] {
        Some((before, whole)) => {
            assert(gv[0] == Some((before@, whole@)));
            assert((before@ + whole@).is_prefix_of(snake@));
            assert(before@.len() + whole@.len() <= n);
            res.append(before.as_str());
            skip = before.as_str().unicode_len() + whole.as_str().unicode_len();
        },
        None => {},
    }
    match &groups[1] {
        Some((_, word)) => {
            assert(text_of(gv[1]) == word@);
            res.append(word.as_str());
        },
        None => {},
    }
    res.append("_");
    match &groups[2] {
        Some((_, letter)) => {
            assert(text_of(gv[2]) == letter@);
            res.append(letter.as_str());
        },
        None => {},
    }
    match &groups[3] {
        Some((_, number)) => {
            assert(text_of(gv[3]) == number@);
            res.append(number.as_str());
        },
        None => {},
    }
    res.append("_relic");
    res.append(snake.substring_char(skip, n));
    res
}

/// Joins back a relic name that snake-casing split, removing only the
/// underscore between the era letter and the number: `axi_g_14_relic` becomes
/// `axi_g14_relic`, and the text around the match is kept. Any other name is
/// returned as it is.
pub fn fix_relic_url_if_needed(snake: String) -> (res: String)
    ensures
        res@ == fixed_relic_url(snake@),
{
    if str_ends_with(snake.as_str(), "_relic") {
        match captures(RELIC_PATTERN, snake.as_str()) {
            Some(Some(groups)) => {
                let present = groups.len() >= 4 && groups[0].is_some() && groups[1].is_some()
                    && groups[2].is_some() && groups[3].is_some();
                if present {
                    return relic_url_from_captures(snake.as_str(), &groups);
                }
            },
            _ => {},
        }
    }
    snake
}

/// The name under which warframe.market lists an item: the item name in snake
/// case, with a split relic name joined back.
pub fn item_url_for(item_name: &str) -> (res: String)
    ensures
        res@ == fixed_relic_url(snake_case_of(item_name@)),
{
    fix_relic_url_if_needed(to_snake_case(item_name))
}

/// The address of the orders of the item listed as `item_url`.
pub fn orders_endpoint(item_url: &str) -> (res: String)
    ensures
        res@ == "https://api.warframe.market/v1"@ + "/items/"@ + item_url@ + "/orders"@,
{
    let mut res = String::from_str("https://api.warframe.market/v1");
    res.append("/items/");
    res.append(item_url);
    res.append("/orders");
    res
}

// ---------------------------------------------------------------------------
// Fetched orders
// ---------------------------------------------------------------------------

/// `r` is `o` with the item's name and URL name recorded.
pub open spec fn tagged_with_item(r: Order, o: Order, item_name: Seq<char>, item_url: Seq<char>) -> bool {
    &&& r.item_name matches Some(n) && n@ == item_name
    &&& r.item_url matches Some(u) && u@ == item_url
    &&& r.id == o.id
    &&& r.platinum == o.platinum
    &&& r.quantity == o.quantity
    &&& r.order_type == o.order_type
    &&& r.visible == o.visible
    &&& r.user == o.user
    &&& r.price_to_offer == o.price_to_offer
    &&& r.sum_to_offer == o.sum_to_offer
    &&& r.is_with_group == o.is_with_group
}

/// Records on each fetched order the item it was fetched for.
pub fn tag_orders_with_item(orders: Vec<Order>, item_name: &str, item_url: &str) -> (res: Vec<Order>)
    ensures
        res@.len() == orders@.len(),
        forall|i: int|
            0 <= i < orders@.len() ==> tagged_with_item(
                #[trigger] res@[i],
                orders@[i],
                item_name@,
                item_url@,
            ),
{
    let ghost all = orders@;
    let mut res: Vec<Order> = Vec::new();
    for o in it: orders.into_iter()
        invariant
            it.seq() == all,
            res@.len() == it.index(),
            forall|k: int|
                0 <= k < res@.len() ==> tagged_with_item(
                    #[trigger] res@[k],
                    all[k],
                    item_name@,
                    item_url@,
                ),
    {
        let ghost i = it.index();
        assert(all[i as int] == o);
        let mut o = o;
        o.item_name = Some(String::from_str(item_name));
        o.item_url = Some(String::from_str(item_url));
        res.push(o);
    }
    res
}

/// Adds the orders of one finished fetch to those gathered so far; a failed
/// fetch adds nothing.
pub fn gather_fetched_orders(orders: &mut Vec<Order>, fetched: Result<Vec<Order>, String>)
    ensures
        final(orders)@ == match fetched {
            Ok(v) => old(orders)@ + v@,
            Err(_) => old(orders)@,
        },
{
    match fetched {
        Ok(v) => {
            let mut v = v;
            orders.append(&mut v);
        },
        Err(_) => {},
    }
}

} // verus!
