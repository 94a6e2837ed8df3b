use vstd::prelude::*;
use crate::model::Order;
use crate::process::string_views;
use crate::text::str_eq;

verus! {

/// Orders below this quantity are not worth a message.
pub const MIN_QUANTITY_TO_SEARCH: u32 = 2;

/// Orders above this price (in platinum, each) are not worth buying.
pub const MAX_PRICE_TO_SEARCH: u32 = 4;

/// The price (in platinum, each) that messages offer by default.
pub const PRICE_TO_OFFER: u32 = 3;

/// The order is a visible sell order of a user who is in game, at no more than
/// `max_price` each and for at least `min_quantity` items.
pub open spec fn is_profitable(o: Order, max_price: u32, min_quantity: u32) -> bool {
    &&& o.user.status@ == "ingame"@
    &&& o.order_type@ == "sell"@
    &&& o.visible
    &&& o.platinum <= max_price
    &&& o.quantity >= min_quantity
}

/// The order is profitable, was not contacted yet, and its seller is not ignored.
pub open spec fn passes_filter(
    o: Order,
    max_price: u32,
    min_quantity: u32,
    contacted_order_ids: Seq<Seq<char>>,
    ignored_nicknames: Seq<Seq<char>>,
) -> bool {
    &&& is_profitable(o, max_price, min_quantity)
    &&& !contacted_order_ids.contains(o.id@)
    &&& !ignored_nicknames.contains(o.user.ingame_name@)
}

/// Whether an order is worth contacting at the default search settings.
pub fn default_order_filter(order: &Order) -> (r: bool)
    ensures
        r == is_profitable(*order, MAX_PRICE_TO_SEARCH, MIN_QUANTITY_TO_SEARCH),
{
    let is_order_profitable = str_eq(order.user.status.as_str(), "ingame") && str_eq(
        order.order_type.as_str(),
        "sell",
    ) && order.visible && order.platinum <= MAX_PRICE_TO_SEARCH && order.quantity
        >= MIN_QUANTITY_TO_SEARCH;
    is_order_profitable
}

/// Whether `names` holds `name`.
fn holds_name(names: &Vec<String>, name: &String) -> (r: bool)
    ensures
        r == string_views(names@).contains(name@),
{
    let mut i: usize = 0;
    while i < names.len()
        invariant
            0 <= i <= names@.len(),
            forall|k: int| 0 <= k < i ==> (#[trigger] names@[k])@ != name@,
        decreases names@.len() - i,
    {
        if names[i] == *name {
            assert(string_views(names@)[i as int] == name@);
            return true;
        }
        i = i + 1;
    }
    assert forall|k: int| 0 <= k < names@.len() implies #[trigger] string_views(names@)[k] != name@ by {
        assert(names@[k]@ != name@);
    }
    false
}

/// The filter that the search applies: its price and quantity limits, the
/// orders already contacted and the sellers to ignore.
pub struct OrderFilter {
    pub max_price: u32,
    pub min_quantity: u32,
    pub contacted_order_ids: Vec<String>,
    pub ignored_nicknames: Vec<String>,
}

impl OrderFilter {
    /// Whether `order` passes this filter.
    pub fn matches(&self, order: &Order) -> (r: bool)
        ensures
            r == passes_filter(
                *order,
                self.max_price,
                self.min_quantity,
                string_views(self.contacted_order_ids@),
                string_views(self.ignored_nicknames@),
            ),
            (exists|k: int|
                0 <= k < self.contacted_order_ids@.len() && (#[trigger] self.contacted_order_ids@[k])@
                    == order.id@) ==> !r,
            (exists|k: int|
                0 <= k < self.ignored_nicknames@.len() && (#[trigger] self.ignored_nicknames@[k])@
                    == order.user.ingame_name@) ==> !r,
    {
        let r = str_eq(order.user.status.as_str(), "ingame") && order.visible && str_eq(
            order.order_type.as_str(),
            "sell",
        ) && order.platinum <= self.max_price && order.quantity >= self.min_quantity
            && !holds_name(&self.contacted_order_ids, &order.id) && !holds_name(
            &self.ignored_nicknames,
            &order.user.ingame_name,
        );
        proof {
            if exists|k: int|
                0 <= k < self.contacted_order_ids@.len() && (#[trigger] self.contacted_order_ids@[k])@
                    == order.id@ {
                let k = choose|k: int|
                    0 <= k < self.contacted_order_ids@.len() && (#[trigger] self.contacted_order_ids@[k])@
                        == order.id@;
                assert(string_views(self.contacted_order_ids@)[k] == order.id@);
            }
            if exists|k: int|
                0 <= k < self.ignored_nicknames@.len() && (#[trigger] self.ignored_nicknames@[k])@
                    == order.user.ingame_name@ {
                let k = choose|k: int|
                    0 <= k < self.ignored_nicknames@.len() && (#[trigger] self.ignored_nicknames@[k])@
                        == order.user.ingame_name@;
                assert(string_views(self.ignored_nicknames@)[k] == order.user.ingame_name@);
            }
        }
        r
    }
}

/// Law: the default filter is the search filter at the default limits with
/// nothing contacted and nobody ignored.
pub proof fn law_default_filter_is_search_filter(o: Order)
    ensures
        is_profitable(o, MAX_PRICE_TO_SEARCH, MIN_QUANTITY_TO_SEARCH) == passes_filter(
            o,
            MAX_PRICE_TO_SEARCH,
            MIN_QUANTITY_TO_SEARCH,
            Seq::empty(),
            Seq::empty(),
        ),
{
}

/// Law: an order passes the search filter exactly when it is a visible sell
/// order of a seller who is in game, asks at most `max_price` each, offers at
/// least `min_quantity` items, its id equals none of the contacted ids and its
/// seller's name equals none of the ignored nicknames.
pub proof fn law_what_passes_the_filter(
    o: Order,
    max_price: u32,
    min_quantity: u32,
    contacted_order_ids: Seq<Seq<char>>,
    ignored_nicknames: Seq<Seq<char>>,
)
    ensures
        passes_filter(o, max_price, min_quantity, contacted_order_ids, ignored_nicknames) <==> (
        o.user.status@ == "ingame"@ && o.order_type@ == "sell"@ && o.visible && o.platinum
            <= max_price && o.quantity >= min_quantity && (forall|k: int|
            0 <= k < contacted_order_ids.len() ==> #[trigger] contacted_order_ids[k] != o.id@)
            && (forall|k: int|
            0 <= k < ignored_nicknames.len() ==> #[trigger] ignored_nicknames[k]
                != o.user.ingame_name@)),
{
    if exists|k: int| 0 <= k < contacted_order_ids.len() && #[trigger] contacted_order_ids[k] == o.id@ {
        assert(contacted_order_ids.contains(o.id@));
    }
    if exists|k: int| 0 <= k < ignored_nicknames.len() && #[trigger] ignored_nicknames[k] == o.user.ingame_name@ {
        assert(ignored_nicknames.contains(o.user.ingame_name@));
    }
}

/// Law: an order whose id stands anywhere among the contacted ids never
/// passes the filter, whatever the other settings.
pub proof fn law_contacted_order_never_passes(
    o: Order,
    max_price: u32,
    min_quantity: u32,
    contacted_order_ids: Seq<Seq<char>>,
    ignored_nicknames: Seq<Seq<char>>,
    k: int,
)
    requires
        0 <= k < contacted_order_ids.len(),
        contacted_order_ids[k] == o.id@,
    ensures
        !passes_filter(o, max_price, min_quantity, contacted_order_ids, ignored_nicknames),
{
    assert(contacted_order_ids.contains(o.id@));
}

/// Law: an order whose seller's name stands anywhere among the ignored
/// nicknames never passes the filter, whatever the other settings.
pub proof fn law_ignored_seller_never_passes(
    o: Order,
    max_price: u32,
    min_quantity: u32,
    contacted_order_ids: Seq<Seq<char>>,
    ignored_nicknames: Seq<Seq<char>>,
    k: int,
)
    requires
        0 <= k < ignored_nicknames.len(),
        ignored_nicknames[k] == o.user.ingame_name@,
    ensures
        !passes_filter(o, max_price, min_quantity, contacted_order_ids, ignored_nicknames),
{
    assert(ignored_nicknames.contains(o.user.ingame_name@));
}

/// Law: of the contacted ids and the ignored nicknames only two things
/// matter for an order: whether its own id is among the ids and whether its
/// seller's own name is among the nicknames. Two filters that agree on both
/// (and on the limits) give the same answer, however their lists differ
/// otherwise, for instance by a nickname that merely starts like the seller's.
pub proof fn law_only_own_id_and_seller_matter(
    o: Order,
    max_price: u32,
    min_quantity: u32,
    contacted_a: Seq<Seq<char>>,
    ignored_a: Seq<Seq<char>>,
    contacted_b: Seq<Seq<char>>,
    ignored_b: Seq<Seq<char>>,
)
    requires
        contacted_a.contains(o.id@) == contacted_b.contains(o.id@),
        ignored_a.contains(o.user.ingame_name@) == ignored_b.contains(o.user.ingame_name@),
    ensures
        passes_filter(o, max_price, min_quantity, contacted_a, ignored_a) == passes_filter(
            o,
            max_price,
            min_quantity,
            contacted_b,
            ignored_b,
        ),
{
}

/// The names of the items whose orders the search looks at by default.
pub const PROFITABLE_ITEM_NAMES: [&'static str; 34] = [
    "Harrow Prime Blueprint",
    "Astilla Prime Stock",
    "Braton Prime Receiver",
    "Knell Prime Receiver",
    "Corvas Prime Blueprint",
    "Magnus Prime Receiver",
    "Burston Prime Barrel",
    "Akbronco Prime Link",
    "Pandero Prime Barrel",
    "Nagantaka Prime Stock",
    "Scourge Prime Handle",
    "Tekko Prime Blueprint",
    "Orthos Prime Blueprint",
    "Stradavar Prime Barrel",
    "Ninkondi Prime Chain",
    "Zakti Prime Barrel",
    "Afuris Prime Link",
    "Nidus Prime Blueprint",
    "Baza Prime Barrel",
    "Harrow Prime Neuroptics Blueprint",
    "Inaros Prime Chassis Blueprint",
    "Gara Prime Neuroptics Blueprint",
    "Karyst Prime Handle",
    "Tatsu Prime Blade",
    "Volnus Prime Head",
    "Redeemer Prime Blueprint",
    "Dethcube Prime Carapace",
    "Titania Prime Neuroptics Blueprint",
    "Guandao Prime Blueprint",
    "Garuda Prime Chassis Blueprint",
    "Panthera Prime Stock",
    "Khora Prime Chassis Blueprint",
    "Atlas Prime Chassis Blueprint",
    "Dual Keres Prime Blueprint",
];

} // verus!
