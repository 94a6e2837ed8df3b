use vstd::prelude::*;

verus! {

/// An item's description in English.
#[derive(Default, Debug, Clone, PartialEq)]
pub struct En {
    pub item_name: String,
    pub description: String,
    pub wiki_link: String,
    pub drop: Vec<Drop>,
}

/// A place where the item drops, as the English description names it.
#[derive(Default, Debug, Clone, PartialEq)]
pub struct Drop {
    pub name: String,
    pub link: String,
}

/// An item's description in Russian.
#[derive(Default, Debug, Clone, PartialEq)]
pub struct Ru {
    pub item_name: String,
    pub description: String,
    pub wiki_link: String,
    pub drop: Vec<Drop2>,
}

/// A place where the item drops, as the Russian description names it.
#[derive(Default, Debug, Clone, PartialEq)]
pub struct Drop2 {
    pub name: String,
    pub link: String,
}

/// An item's description in Korean.
#[derive(Default, Debug, Clone, PartialEq)]
pub struct Ko {
    pub item_name: String,
    pub description: String,
    pub wiki_link: String,
    pub drop: Vec<Drop3>,
}

/// A place where the item drops, as the Korean description names it.
#[derive(Default, Debug, Clone, PartialEq)]
pub struct Drop3 {
    pub name: String,
    pub link: String,
}

/// An item's description in French.
#[derive(Default, Debug, Clone, PartialEq)]
pub struct Fr {
    pub item_name: String,
    pub description: String,
    pub wiki_link: String,
    pub drop: Vec<Drop4>,
}

/// A place where the item drops, as the French description names it.
#[derive(Default, Debug, Clone, PartialEq)]
pub struct Drop4 {
    pub name: String,
    pub link: String,
}

/// An item's description in German.
#[derive(Default, Debug, Clone, PartialEq)]
pub struct De {
    pub item_name: String,
    pub description: String,
    pub wiki_link: String,
    pub drop: Vec<Drop5>,
}

/// A place where the item drops, as the German description names it.
#[derive(Default, Debug, Clone, PartialEq)]
pub struct Drop5 {
    pub name: String,
    pub link: String,
}

/// An item's description in Swedish.
#[derive(Default, Debug, Clone, PartialEq)]
pub struct Sv {
    pub item_name: String,
    pub description: String,
    pub wiki_link: String,
    pub drop: Vec<Drop6>,
}

/// A place where the item drops, as the Swedish description names it.
#[derive(Default, Debug, Clone, PartialEq)]
pub struct Drop6 {
    pub name: String,
    pub link: String,
}

/// An item's description in Traditional Chinese.
#[derive(Default, Debug, Clone, PartialEq)]
pub struct ZhHant {
    pub item_name: String,
    pub description: String,
    pub wiki_link: String,
    pub drop: Vec<Drop7>,
}

/// A place where the item drops, as the Traditional Chinese description names it.
#[derive(Default, Debug, Clone, PartialEq)]
pub struct Drop7 {
    pub name: String,
    pub link: String,
}

/// An item's description in Simplified Chinese.
#[derive(Default, Debug, Clone, PartialEq)]
pub struct ZhHans {
    pub item_name: String,
    pub description: String,
    pub wiki_link: String,
    pub drop: Vec<Drop8>,
}

/// A place where the item drops, as the Simplified Chinese description names it.
#[derive(Default, Debug, Clone, PartialEq)]
pub struct Drop8 {
    pub name: String,
    pub link: String,
}

/// An item's description in Portuguese.
#[derive(Default, Debug, Clone, PartialEq)]
pub struct Pt {
    pub item_name: String,
    pub description: String,
    pub wiki_link: String,
    pub drop: Vec<Drop9>,
}

/// A place where the item drops, as the Portuguese description names it.
#[derive(Default, Debug, Clone, PartialEq)]
pub struct Drop9 {
    pub name: String,
    pub link: String,
}

/// An item's description in Spanish.
#[derive(Default, Debug, Clone, PartialEq)]
pub struct Es {
    pub item_name: String,
    pub description: String,
    pub wiki_link: String,
    pub drop: Vec<Drop10>,
}

/// A place where the item drops, as the Spanish description names it.
#[derive(Default, Debug, Clone, PartialEq)]
pub struct Drop10 {
    pub name: String,
    pub link: String,
}

/// An item's description in Polish.
#[derive(Default, Debug, Clone, PartialEq)]
pub struct Pl {
    pub item_name: String,
    pub description: String,
    pub wiki_link: String,
    pub drop: Vec<Drop11>,
}

/// A place where the item drops, as the Polish description names it.
#[derive(Default, Debug, Clone, PartialEq)]
pub struct Drop11 {
    pub name: String,
    pub link: String,
}

} // verus!
