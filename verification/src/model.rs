use vstd::prelude::*;
use fake::Fake;

verus! {

/// A warframe.market user as it appears in an order listing.
#[derive(Debug, Clone, PartialEq)]
pub struct User {
    pub ingame_name: String,
    pub status: String,
}

/// One order of the market, with the fields that the search fills in after fetching.
#[derive(Default, Debug, Clone, PartialEq)]
pub struct Order {
    pub id: String,
    pub platinum: u32,
    pub quantity: u32,
    pub order_type: String,
    pub visible: bool,
    pub user: User,
    pub item_url: Option<String>,
    pub item_name: Option<String>,
    pub price_to_offer: Option<u32>,
    pub sum_to_offer: Option<u32>,
    pub is_with_group: Option<bool>,
}

/// The body of warframe.market's answer to a request for an item's orders.
#[derive(Default, Debug, Clone, PartialEq)]
pub struct GetOrdersResponse {
    pub payload: Payload,
}

/// The orders that an answer carries.
#[derive(Default, Debug, Clone, PartialEq)]
pub struct Payload {
    pub orders: Vec<Order>,
}

/// Whether every character is an ASCII letter or digit.
pub open spec fn is_ascii_alphanumeric(s: Seq<char>) -> bool {
    forall|i: int|
        0 <= i < s.len() ==> {
            let c = #[trigger] s[i];
            ('a' <= c <= 'z') || ('A' <= c <= 'Z') || ('0' <= c <= '9')
        }
}

/// `fake`'s `Faker.fake::<String>()`: a random string whose length lies in
/// `5..20` and whose characters are drawn from ASCII letters and digits.
/// The characters themselves are random and nothing more is said of them.
#[verifier::external_body]
fn fake_string() -> (s: String)
    ensures
        5 <= s@.len() < 20,
        is_ascii_alphanumeric(s@),
{
    fake::Faker.fake::<String>()
}

impl Default for User {
    /// A user with a random name and a random status.
    fn default() -> (u: User)
        ensures
            5 <= u.ingame_name@.len() < 20,
            is_ascii_alphanumeric(u.ingame_name@),
            5 <= u.status@.len() < 20,
            is_ascii_alphanumeric(u.status@),
    {
        User { ingame_name: fake_string(), status: fake_string() }
    }
}

} // verus!
