use vstd::prelude::*;
use vstd::multiset::Multiset;
use crate::model::Order;
use crate::process::{total_quantity, lemma_sellers_distinct, arranged, enriched, orders_of, quantity_slot, seller, seller_block, seller_blocks, seller_slot, lemma_sellers_contains_iff, seller_total, sellers, sort_by_quantity, sort_sellers};

verus! {

broadcast use vstd::seq_lib::group_to_multiset_ensures;

// ---------------------------------------------------------------------------
// Sorting by quantity
// ---------------------------------------------------------------------------

/// Quantities never increase along `s`.
pub open spec fn quantities_descending(s: Seq<Order>) -> bool {
    forall|i: int, j: int| 0 <= i < j < s.len() ==> #[trigger] s[i].quantity >= #[trigger] s[j].quantity
}

proof fn lemma_quantity_slot_bounds(r: Seq<Order>, q: u32)
    requires
        quantities_descending(r),
    ensures
        0 <= quantity_slot(r, q) <= r.len(),
        forall|m: int| 0 <= m < quantity_slot(r, q) ==> (#[trigger] r[m]).quantity >= q,
        forall|m: int| quantity_slot(r, q) <= m < r.len() ==> (#[trigger] r[m]).quantity < q,
    decreases r.len(),
{
    if r.len() > 0 {
        let rest = r.drop_first();
        assert(quantities_descending(rest)) by {
            assert forall|i: int, j: int| 0 <= i < j < rest.len() implies #[trigger] rest[i].quantity
                >= #[trigger] rest[j].quantity by {
                assert(rest[i] == r[i + 1] && rest[j] == r[j + 1]);
            }
        }
        lemma_quantity_slot_bounds(rest, q);
        if r[0].quantity < q {
            assert forall|m: int| 0 <= m < r.len() implies (#[trigger] r[m]).quantity < q by {
                if m > 0 {
                    assert(r[0].quantity >= r[m].quantity);
                }
            }
        } else {
            assert forall|m: int| 0 <= m < quantity_slot(r, q) implies (#[trigger] r[m]).quantity
                >= q by {
                if m > 0 {
                    assert(r[m] == rest[m - 1]);
                }
            }
            assert forall|m: int| quantity_slot(r, q) <= m < r.len() implies (#[trigger] r[m]).quantity
                < q by {
                assert(r[m] == rest[m - 1]);
            }
        }
    }
}

/// Sorting by quantity puts the largest quantities first.
pub proof fn lemma_sort_by_quantity_descending(s: Seq<Order>)
    ensures
        quantities_descending(sort_by_quantity(s)),
        sort_by_quantity(s).to_multiset() == s.to_multiset(),
    decreases s.len(),
{
    if s.len() > 0 {
        let r = sort_by_quantity(s.drop_last());
        lemma_sort_by_quantity_descending(s.drop_last());
        let x = s.last();
        let p = quantity_slot(r, x.quantity);
        lemma_quantity_slot_bounds(r, x.quantity);
        let out = r.insert(p, x);
        assert forall|i: int, j: int| 0 <= i < j < out.len() implies #[trigger] out[i].quantity
            >= #[trigger] out[j].quantity by {
            if i < p {
                assert(out[i] == r[i]);
            } else if i > p {
                assert(out[i] == r[i - 1]);
            }
            if j < p {
                assert(out[j] == r[j]);
            } else if j > p {
                assert(out[j] == r[j - 1]);
            }
        }
        vstd::seq_lib::to_multiset_insert(r, p, x);
        assert(s.drop_last().push(x) =~= s);
        vstd::seq_lib::to_multiset_build(s.drop_last(), x);
    }
}

// ---------------------------------------------------------------------------
// Ranking sellers
// ---------------------------------------------------------------------------

/// Sellers' totals never increase along `names`.
pub open spec fn totals_descending(names: Seq<Seq<char>>, kept: Seq<Order>) -> bool {
    forall|i: int, j: int|
        0 <= i < j < names.len() ==> seller_total(kept, #[trigger] names[i]) >= seller_total(
            kept,
            #[trigger] names[j],
        )
}

proof fn lemma_seller_slot_bounds(r: Seq<Seq<char>>, kept: Seq<Order>, t: int)
    requires
        totals_descending(r, kept),
    ensures
        0 <= seller_slot(r, kept, t) <= r.len(),
        forall|m: int| 0 <= m < seller_slot(r, kept, t) ==> seller_total(kept, #[trigger] r[m]) >= t,
        forall|m: int| seller_slot(r, kept, t) <= m < r.len() ==> seller_total(kept, #[trigger] r[m]) < t,
    decreases r.len(),
{
    if r.len() > 0 {
        let rest = r.drop_first();
        assert(totals_descending(rest, kept)) by {
            assert forall|i: int, j: int| 0 <= i < j < rest.len() implies seller_total(
                kept,
                #[trigger] rest[i],
            ) >= seller_total(kept, #[trigger] rest[j]) by {
                assert(rest[i] == r[i + 1] && rest[j] == r[j + 1]);
            }
        }
        lemma_seller_slot_bounds(rest, kept, t);
        if seller_total(kept, r[0]) < t {
            assert forall|m: int| 0 <= m < r.len() implies seller_total(kept, #[trigger] r[m]) < t by {
                if m > 0 {
                    assert(seller_total(kept, r[0]) >= seller_total(kept, r[m]));
                }
            }
        } else {
            assert forall|m: int| 0 <= m < seller_slot(r, kept, t) implies seller_total(
                kept,
                #[trigger] r[m],
            ) >= t by {
                if m > 0 {
                    assert(r[m] == rest[m - 1]);
                }
            }
            assert forall|m: int| seller_slot(r, kept, t) <= m < r.len() implies seller_total(
                kept,
                #[trigger] r[m],
            ) < t by {
                assert(r[m] == rest[m - 1]);
            }
        }
    }
}

/// Ranking sellers orders them by total quantity, largest first, and keeps
/// each seller once.
pub proof fn lemma_sort_sellers_descending(names: Seq<Seq<char>>, kept: Seq<Order>)
    ensures
        totals_descending(sort_sellers(names, kept), kept),
        sort_sellers(names, kept).to_multiset() == names.to_multiset(),
    decreases names.len(),
{
    if names.len() > 0 {
        let r = sort_sellers(names.drop_last(), kept);
        lemma_sort_sellers_descending(names.drop_last(), kept);
        let x = names.last();
        let p = seller_slot(r, kept, seller_total(kept, x));
        lemma_seller_slot_bounds(r, kept, seller_total(kept, x));
        let out = r.insert(p, x);
        assert forall|i: int, j: int| 0 <= i < j < out.len() implies seller_total(
            kept,
            #[trigger] out[i],
        ) >= seller_total(kept, #[trigger] out[j]) by {
            if i < p {
                assert(out[i] == r[i]);
            } else if i > p {
                assert(out[i] == r[i - 1]);
            }
            if j < p {
                assert(out[j] == r[j]);
            } else if j > p {
                assert(out[j] == r[j - 1]);
            }
        }
        vstd::seq_lib::to_multiset_insert(r, p, x);
        assert(names.drop_last().push(x) =~= names);
        vstd::seq_lib::to_multiset_build(names.drop_last(), x);
    }
}

// ---------------------------------------------------------------------------
// The shape of the result
// ---------------------------------------------------------------------------

/// `out` lists the orders seller by seller: two orders of one seller have only
/// that seller's orders between them and come largest quantity first, and of
/// two orders of different sellers the first belongs to the seller with the
/// larger (or equal) total quantity in `kept`.
pub open spec fn well_arranged(out: Seq<Order>, kept: Seq<Order>) -> bool {
    forall|i: int, j: int|
        #![trigger out[i], out[j]]
        0 <= i < j < out.len() ==> if seller(out[i]) == seller(out[j]) {
            &&& out[i].quantity >= out[j].quantity
            &&& forall|m: int| i < m < j ==> seller(#[trigger] out[m]) == seller(out[i])
        } else {
            seller_total(kept, seller(out[i])) >= seller_total(kept, seller(out[j]))
        }
}

/// Each block belongs to the seller at its position in `names`, the sellers
/// are distinct and ranked, and each block is sorted by quantity.
pub open spec fn ranked_blocks(blocks: Seq<Seq<Order>>, names: Seq<Seq<char>>, kept: Seq<Order>) -> bool {
    &&& blocks.len() == names.len()
    &&& names.no_duplicates()
    &&& totals_descending(names, kept)
    &&& forall|k: int, r: int|
        0 <= k < blocks.len() && 0 <= r < blocks[k].len() ==> seller(#[trigger] blocks[k][r])
            == names[k]
    &&& forall|k: int| 0 <= k < blocks.len() ==> quantities_descending(#[trigger] blocks[k])
}

proof fn lemma_ranked_blocks_drop_last(blocks: Seq<Seq<Order>>, names: Seq<Seq<char>>, kept: Seq<Order>)
    requires
        blocks.len() > 0,
        ranked_blocks(blocks, names, kept),
    ensures
        ranked_blocks(blocks.drop_last(), names.drop_last(), kept),
{
    let b2 = blocks.drop_last();
    let n2 = names.drop_last();
    assert forall|k: int, r: int| 0 <= k < b2.len() && 0 <= r < b2[k].len() implies seller(
        #[trigger] b2[k][r],
    ) == n2[k] by {
        assert(b2[k] == blocks[k]);
    }
    assert forall|k: int| 0 <= k < b2.len() implies quantities_descending(#[trigger] b2[k]) by {
        assert(b2[k] == blocks[k]);
    }
    assert forall|i: int, j: int| 0 <= i < j < n2.len() implies seller_total(kept, #[trigger] n2[i])
        >= seller_total(kept, #[trigger] n2[j]) by {
        assert(n2[i] == names[i] && n2[j] == names[j]);
    }
    assert forall|i: int, j: int| 0 <= i < n2.len() && 0 <= j < n2.len() && i != j implies n2[i]
        != n2[j] by {
        assert(n2[i] == names[i] && n2[j] == names[j]);
    }
}

proof fn lemma_flatten_sellers(blocks: Seq<Seq<Order>>, names: Seq<Seq<char>>, kept: Seq<Order>)
    requires
        ranked_blocks(blocks, names, kept),
    ensures
        forall|i: int|
            0 <= i < blocks.flatten().len() ==> names.contains(seller(#[trigger] blocks.flatten()[i])),
    decreases blocks.len(),
{
    if blocks.len() == 0 {
        assert(blocks.flatten() =~= Seq::<Order>::empty());
    } else {
        let b2 = blocks.drop_last();
        let b = blocks.last();
        lemma_ranked_blocks_drop_last(blocks, names, kept);
        lemma_flatten_sellers(b2, names.drop_last(), kept);
        assert(b2.push(b) =~= blocks);
        b2.lemma_flatten_push(b);
        let f = blocks.flatten();
        assert forall|i: int| 0 <= i < f.len() implies names.contains(seller(#[trigger] f[i])) by {
            if i < b2.flatten().len() {
                assert(f[i] == b2.flatten()[i]);
                assert(names.drop_last().contains(seller(b2.flatten()[i])));
                let k = choose|k: int|
                    0 <= k < names.drop_last().len() && names.drop_last()[k] == seller(b2.flatten()[i]);
                assert(names.drop_last()[k] == names[k]);
            } else {
                let r = i - b2.flatten().len();
                assert(f[i] == b[r]);
                assert(b == blocks[blocks.len() - 1]);
                assert(seller(blocks[blocks.len() - 1][r]) == names[names.len() - 1]);
            }
        }
    }
}

proof fn lemma_ranked_blocks_well_arranged(blocks: Seq<Seq<Order>>, names: Seq<Seq<char>>, kept: Seq<Order>)
    requires
        ranked_blocks(blocks, names, kept),
    ensures
        well_arranged(blocks.flatten(), kept),
    decreases blocks.len(),
{
    if blocks.len() > 0 {
        let b2 = blocks.drop_last();
        let n2 = names.drop_last();
        let b = blocks.last();
        let last = names.last();
        lemma_ranked_blocks_drop_last(blocks, names, kept);
        lemma_ranked_blocks_well_arranged(b2, n2, kept);
        lemma_flatten_sellers(b2, n2, kept);
        assert(b2.push(b) =~= blocks);
        b2.lemma_flatten_push(b);
        let f2 = b2.flatten();
        let f = blocks.flatten();
        assert(f == f2 + b);
        assert(b == blocks[blocks.len() - 1]);
        assert(last == names[names.len() - 1]);
        assert(quantities_descending(blocks[blocks.len() - 1]));
        assert forall|i: int, j: int|
            #![trigger f[i], f[j]]
            0 <= i < j < f.len() implies if seller(f[i]) == seller(f[j]) {
            &&& f[i].quantity >= f[j].quantity
            &&& forall|m: int| i < m < j ==> seller(#[trigger] f[m]) == seller(f[i])
        } else {
            seller_total(kept, seller(f[i])) >= seller_total(kept, seller(f[j]))
        } by {
            let n = f2.len() as int;
            if j < n {
                assert(f[i] == f2[i] && f[j] == f2[j]);
                assert forall|m: int| i < m < j implies f[m] == f2[m] by {}
            } else if i >= n {
                assert(f[i] == b[i - n] && f[j] == b[j - n]);
                assert(seller(b[i - n]) == last);
                assert(seller(b[j - n]) == last);
                assert forall|m: int| i < m < j implies seller(#[trigger] f[m]) == seller(f[i]) by {
                    assert(f[m] == b[m - n]);
                    assert(seller(b[m - n]) == last);
                }
            } else {
                assert(f[i] == f2[i] && f[j] == b[j - n]);
                assert(seller(b[j - n]) == last);
                assert(n2.contains(seller(f2[i])));
                let k = choose|k: int| 0 <= k < n2.len() && n2[k] == seller(f2[i]);
                assert(n2[k] == names[k]);
                assert(names[k] != names[names.len() - 1]);
                assert(seller_total(kept, names[k]) >= seller_total(kept, names[names.len() - 1]));
            }
        }
    }
}

proof fn lemma_sort_sellers_distinct(names: Seq<Seq<char>>, kept: Seq<Order>)
    requires
        names.no_duplicates(),
    ensures
        sort_sellers(names, kept).no_duplicates(),
    decreases names.len(),
{
    if names.len() > 0 {
        let prev = names.drop_last();
        let x = names.last();
        assert(prev.no_duplicates()) by {
            assert forall|i: int, j: int| 0 <= i < prev.len() && 0 <= j < prev.len() && i != j implies prev[i]
                != prev[j] by {
                assert(prev[i] == names[i] && prev[j] == names[j]);
            }
        }
        lemma_sort_sellers_distinct(prev, kept);
        lemma_sort_sellers_descending(prev, kept);
        let r = sort_sellers(prev, kept);
        assert(!prev.contains(x)) by {
            if prev.contains(x) {
                let i = choose|i: int| 0 <= i < prev.len() && prev[i] == x;
                assert(names[i] == names[names.len() - 1]);
            }
        }
        vstd::seq_lib::to_multiset_contains(prev, x);
        vstd::seq_lib::to_multiset_contains(r, x);
        assert(!r.contains(x));
        let p = seller_slot(r, kept, seller_total(kept, x));
        lemma_seller_slot_bounds(r, kept, seller_total(kept, x));
        let out = r.insert(p, x);
        assert forall|i: int, j: int| 0 <= i < out.len() && 0 <= j < out.len() && i != j implies out[i]
            != out[j] by {
            if i != p && j != p {
                let ri = if i < p { i } else { i - 1 };
                let rj = if j < p { j } else { j - 1 };
                assert(out[i] == r[ri] && out[j] == r[rj]);
            } else if i == p {
                let rj = if j < p { j } else { j - 1 };
                assert(out[j] == r[rj]);
            } else {
                let ri = if i < p { i } else { i - 1 };
                assert(out[i] == r[ri]);
            }
        }
    }
}

proof fn lemma_seller_block_sellers(kept: Seq<Order>, name: Seq<char>, offer_price: u32)
    ensures
        forall|r: int|
            0 <= r < seller_block(kept, name, offer_price).len() ==> seller(
                #[trigger] seller_block(kept, name, offer_price)[r],
            ) == name,
        quantities_descending(seller_block(kept, name, offer_price)),
{
    let mine = orders_of(kept, name);
    let mapped = mine.map_values(|o: Order| enriched(o, offer_price, mine.len() > 1));
    lemma_sort_by_quantity_descending(mapped);
    lemma_orders_of_sellers(kept, name);
    let block = seller_block(kept, name, offer_price);
    assert forall|r: int| 0 <= r < block.len() implies seller(#[trigger] block[r]) == name by {
        assert(block.contains(block[r]));
        vstd::seq_lib::to_multiset_contains(block, block[r]);
        vstd::seq_lib::to_multiset_contains(mapped, block[r]);
        assert(mapped.contains(block[r]));
        let i = choose|i: int| 0 <= i < mapped.len() && mapped[i] == block[r];
        assert(seller(mine[i]) == name);
    }
}

/// Every order that `orders_of` picks out was placed by that seller.
pub proof fn lemma_orders_of_sellers(s: Seq<Order>, name: Seq<char>)
    ensures
        forall|i: int| 0 <= i < orders_of(s, name).len() ==> seller(#[trigger] orders_of(s, name)[i]) == name,
    decreases s.len(),
{
    if s.len() > 0 {
        lemma_orders_of_sellers(s.drop_last(), name);
        let prev = orders_of(s.drop_last(), name);
        if seller(s.last()) == name {
            assert forall|i: int| 0 <= i < prev.push(s.last()).len() implies seller(
                #[trigger] prev.push(s.last())[i],
            ) == name by {
                if i < prev.len() {
                    assert(prev.push(s.last())[i] == prev[i]);
                }
            }
        }
    }
}

/// Law: processing lists the kept orders seller by seller. The orders of one
/// seller stand together, largest quantity first, and sellers come in order of
/// their total quantity, largest first.
pub proof fn law_processed_orders_are_ranked(kept: Seq<Order>, offer_price: u32)
    ensures
        well_arranged(arranged(kept, offer_price), kept),
{
    lemma_arranged_blocks_ranked(kept, offer_price);
    let names = sort_sellers(sellers(kept), kept);
    lemma_ranked_blocks_well_arranged(seller_blocks(names, kept, offer_price), names, kept);
}

/// The blocks that processing concatenates are ranked blocks of the sellers
/// in ranking order, none of them empty.
proof fn lemma_arranged_blocks_ranked(kept: Seq<Order>, offer_price: u32)
    ensures
        ranked_blocks(
            seller_blocks(sort_sellers(sellers(kept), kept), kept, offer_price),
            sort_sellers(sellers(kept), kept),
            kept,
        ),
        forall|k: int|
            0 <= k < sort_sellers(sellers(kept), kept).len() ==> (#[trigger] seller_blocks(
                sort_sellers(sellers(kept), kept),
                kept,
                offer_price,
            )[k]).len() == orders_of(kept, sort_sellers(sellers(kept), kept)[k]).len()
                && orders_of(kept, sort_sellers(sellers(kept), kept)[k]).len() > 0,
{
    let names = sort_sellers(sellers(kept), kept);
    let blocks = seller_blocks(names, kept, offer_price);
    lemma_sort_sellers_descending(sellers(kept), kept);
    lemma_sellers_distinct(kept);
    assert(sellers(kept).no_duplicates());
    lemma_sort_sellers_distinct(sellers(kept), kept);
    assert forall|k: int, r: int| 0 <= k < blocks.len() && 0 <= r < blocks[k].len() implies seller(
        #[trigger] blocks[k][r],
    ) == names[k] by {
        lemma_seller_block_sellers(kept, names[k], offer_price);
    }
    assert forall|k: int| 0 <= k < blocks.len() implies quantities_descending(#[trigger] blocks[k]) by {
        lemma_seller_block_sellers(kept, names[k], offer_price);
    }
    assert forall|k: int| 0 <= k < names.len() implies (#[trigger] blocks[k]).len() == orders_of(
        kept,
        names[k],
    ).len() && orders_of(kept, names[k]).len() > 0 by {
        let name = names[k];
        let mine = orders_of(kept, name);
        let mapped = mine.map_values(|o: Order| enriched(o, offer_price, mine.len() > 1));
        lemma_sort_by_quantity_descending(mapped);
        vstd::seq_lib::to_multiset_len(mapped);
        vstd::seq_lib::to_multiset_len(sort_by_quantity(mapped));
        assert(names.contains(name));
        vstd::seq_lib::to_multiset_contains(names, name);
        vstd::seq_lib::to_multiset_contains(sellers(kept), name);
        lemma_sellers_contains_iff(kept, name);
    }
}

// ---------------------------------------------------------------------------
// The content of the result
// ---------------------------------------------------------------------------

/// The kept order as processing leaves it: offered for, and marked as part of
/// a group when its seller has more than one order in `kept`.
pub open spec fn processed(o: Order, kept: Seq<Order>, offer_price: u32) -> Order {
    enriched(o, offer_price, orders_of(kept, seller(o)).len() > 1)
}

/// Every kept order, processed, in the order of `kept`.
pub open spec fn all_processed(kept: Seq<Order>, offer_price: u32) -> Seq<Order> {
    kept.map_values(|o: Order| processed(o, kept, offer_price))
}

proof fn lemma_flatten_split(s: Seq<Seq<Order>>, p: int)
    requires
        0 <= p <= s.len(),
    ensures
        s.flatten().to_multiset() =~= s.take(p).flatten().to_multiset().add(
            s.skip(p).flatten().to_multiset(),
        ),
{
    assert(s =~= s.take(p) + s.skip(p));
    vstd::seq_lib::lemma_flatten_concat(s.take(p), s.skip(p));
    vstd::seq_lib::lemma_multiset_commutative(s.take(p).flatten(), s.skip(p).flatten());
}

proof fn lemma_flatten_insert(s: Seq<Seq<Order>>, p: int, y: Seq<Order>)
    requires
        0 <= p <= s.len(),
    ensures
        s.insert(p, y).flatten().to_multiset() =~= s.flatten().to_multiset().add(y.to_multiset()),
{
    broadcast use vstd::multiset::group_multiset_axioms;

    let t = s.insert(p, y);
    lemma_flatten_split(t, p);
    lemma_flatten_split(s, p);
    assert(t.take(p) =~= s.take(p));
    assert(t.skip(p) =~= seq![y] + s.skip(p));
    vstd::seq_lib::lemma_flatten_concat(seq![y], s.skip(p));
    seq![y].lemma_flatten_one_element();
    vstd::seq_lib::lemma_multiset_commutative(y, s.skip(p).flatten());
}

proof fn lemma_flatten_push_into(s: Seq<Seq<Order>>, p: int, y: Order)
    requires
        0 <= p < s.len(),
    ensures
        s.update(p, s[p].push(y)).flatten().to_multiset() =~= s.flatten().to_multiset().insert(y),
{
    broadcast use vstd::multiset::group_multiset_axioms;

    let t = s.update(p, s[p].push(y));
    lemma_flatten_split(t, p);
    lemma_flatten_split(s, p);
    assert(t.take(p) =~= s.take(p));
    assert(t.skip(p) =~= seq![s[p].push(y)] + s.skip(p + 1));
    assert(s.skip(p) =~= seq![s[p]] + s.skip(p + 1));
    vstd::seq_lib::lemma_flatten_concat(seq![s[p].push(y)], s.skip(p + 1));
    vstd::seq_lib::lemma_flatten_concat(seq![s[p]], s.skip(p + 1));
    seq![s[p].push(y)].lemma_flatten_one_element();
    seq![s[p]].lemma_flatten_one_element();
    vstd::seq_lib::lemma_multiset_commutative(s[p].push(y), s.skip(p + 1).flatten());
    vstd::seq_lib::lemma_multiset_commutative(s[p], s.skip(p + 1).flatten());
    vstd::seq_lib::to_multiset_build(s[p], y);
}

/// The blocks of the sellers of `s`, each holding that seller's orders of `s`
/// mapped through `g`.
pub open spec fn mapped_groups(s: Seq<Order>, names: Seq<Seq<char>>, g: spec_fn(Order) -> Order) -> Seq<
    Seq<Order>,
> {
    names.map_values(|name: Seq<char>| orders_of(s, name).map_values(g))
}

proof fn lemma_grouping_keeps_orders(s: Seq<Order>, g: spec_fn(Order) -> Order)
    ensures
        mapped_groups(s, sellers(s), g).flatten().to_multiset() =~= s.map_values(g).to_multiset(),
    decreases s.len(),
{
    broadcast use vstd::multiset::group_multiset_axioms;

    if s.len() == 0 {
        assert(mapped_groups(s, sellers(s), g) =~= Seq::<Seq<Order>>::empty());
        assert(mapped_groups(s, sellers(s), g).flatten() =~= Seq::<Order>::empty());
        assert(s.map_values(g) =~= Seq::<Order>::empty());
    } else {
        let s2 = s.drop_last();
        let x = s.last();
        let nx = seller(x);
        let n2 = sellers(s2);
        lemma_grouping_keeps_orders(s2, g);
        assert(s.map_values(g) =~= s2.map_values(g).push(g(x)));
        vstd::seq_lib::to_multiset_build(s2.map_values(g), g(x));
        let old_groups = mapped_groups(s2, n2, g);
        lemma_sellers_distinct(s2);
        if n2.contains(nx) {
            let p = choose|p: int| 0 <= p < n2.len() && n2[p] == nx;
            assert(orders_of(s, nx) == orders_of(s2, nx).push(x));
            assert(orders_of(s, nx).map_values(g) =~= orders_of(s2, nx).map_values(g).push(g(x)));
            assert(mapped_groups(s, sellers(s), g) =~= old_groups.update(
                p,
                old_groups[p].push(g(x)),
            )) by {
                assert forall|k: int| 0 <= k < n2.len() && k != p implies orders_of(s, #[trigger] n2[k])
                    == orders_of(s2, n2[k]) by {
                    assert(n2[k] != n2[p]);
                }
            }
            lemma_flatten_push_into(old_groups, p, g(x));
        } else {
            lemma_sellers_contains_iff(s2, nx);
            assert(orders_of(s, nx) =~= seq![x]);
            assert(orders_of(s, nx).map_values(g) =~= seq![g(x)]);
            assert(mapped_groups(s, sellers(s), g) =~= old_groups.push(seq![g(x)])) by {
                assert forall|k: int| 0 <= k < n2.len() implies orders_of(s, #[trigger] n2[k])
                    == orders_of(s2, n2[k]) by {
                    assert(n2[k] != nx);
                }
            }
            old_groups.lemma_flatten_push(seq![g(x)]);
            vstd::seq_lib::lemma_multiset_commutative(old_groups.flatten(), seq![g(x)]);
            assert(seq![g(x)].to_multiset() =~= Multiset::empty().insert(g(x))) by {
                vstd::seq_lib::to_multiset_build(Seq::<Order>::empty(), g(x));
                assert(Seq::<Order>::empty().push(g(x)) =~= seq![g(x)]);
            }
        }
    }
}

proof fn lemma_ranking_keeps_blocks(names: Seq<Seq<char>>, kept: Seq<Order>, offer_price: u32)
    ensures
        seller_blocks(sort_sellers(names, kept), kept, offer_price).flatten().to_multiset()
            =~= seller_blocks(names, kept, offer_price).flatten().to_multiset(),
    decreases names.len(),
{
    broadcast use vstd::multiset::group_multiset_axioms;

    if names.len() > 0 {
        let prev = names.drop_last();
        let x = names.last();
        let r = sort_sellers(prev, kept);
        lemma_ranking_keeps_blocks(prev, kept, offer_price);
        lemma_sort_sellers_descending(prev, kept);
        let p = seller_slot(r, kept, seller_total(kept, x));
        lemma_seller_slot_bounds(r, kept, seller_total(kept, x));
        let bx = seller_block(kept, x, offer_price);
        assert(seller_blocks(r.insert(p, x), kept, offer_price) =~= seller_blocks(r, kept, offer_price).insert(p, bx));
        lemma_flatten_insert(seller_blocks(r, kept, offer_price), p, bx);
        assert(seller_blocks(names, kept, offer_price) =~= seller_blocks(prev, kept, offer_price).push(bx));
        seller_blocks(prev, kept, offer_price).lemma_flatten_push(bx);
        vstd::seq_lib::lemma_multiset_commutative(seller_blocks(prev, kept, offer_price).flatten(), bx);
    }
}

/// Law: processing keeps exactly the orders that passed the filter, each
/// once, with its offer filled in and marked as part of a group exactly when
/// its seller has more than one kept order.
pub proof fn law_processed_orders_are_the_kept_orders(kept: Seq<Order>, offer_price: u32)
    ensures
        arranged(kept, offer_price).to_multiset() == all_processed(kept, offer_price).to_multiset(),
        arranged(kept, offer_price).len() == kept.len(),
{
    broadcast use vstd::multiset::group_multiset_axioms;

    let g = |o: Order| processed(o, kept, offer_price);
    let names = sellers(kept);
    lemma_ranking_keeps_blocks(names, kept, offer_price);
    lemma_grouping_keeps_orders(kept, g);
    // each seller's block holds that seller's orders, processed
    assert forall|k: int| 0 <= k < names.len() implies (#[trigger] seller_blocks(names, kept, offer_price)[k]).to_multiset()
        == mapped_groups(kept, names, g)[k].to_multiset() by {
        let name = names[k];
        let mine = orders_of(kept, name);
        let mapped = mine.map_values(|o: Order| enriched(o, offer_price, mine.len() > 1));
        lemma_sort_by_quantity_descending(mapped);
        lemma_orders_of_sellers(kept, name);
        assert(mapped =~= mine.map_values(g));
    }
    lemma_blocks_with_equal_bags(seller_blocks(names, kept, offer_price), mapped_groups(kept, names, g));
    assert(kept.map_values(g) =~= all_processed(kept, offer_price));
    vstd::seq_lib::to_multiset_len(arranged(kept, offer_price));
    vstd::seq_lib::to_multiset_len(all_processed(kept, offer_price));
}

proof fn lemma_blocks_with_equal_bags(a: Seq<Seq<Order>>, b: Seq<Seq<Order>>)
    requires
        a.len() == b.len(),
        forall|k: int| 0 <= k < a.len() ==> (#[trigger] a[k]).to_multiset() == b[k].to_multiset(),
    ensures
        a.flatten().to_multiset() =~= b.flatten().to_multiset(),
    decreases a.len(),
{
    broadcast use vstd::multiset::group_multiset_axioms;

    if a.len() == 0 {
        assert(a.flatten() =~= Seq::<Order>::empty());
        assert(b.flatten() =~= Seq::<Order>::empty());
    } else {
        lemma_blocks_with_equal_bags(a.drop_last(), b.drop_last());
        assert(a.drop_last().push(a.last()) =~= a);
        assert(b.drop_last().push(b.last()) =~= b);
        a.drop_last().lemma_flatten_push(a.last());
        b.drop_last().lemma_flatten_push(b.last());
        vstd::seq_lib::lemma_multiset_commutative(a.drop_last().flatten(), a.last());
        vstd::seq_lib::lemma_multiset_commutative(b.drop_last().flatten(), b.last());
        assert(a.last() == a[a.len() - 1]);
    }
}

// ---------------------------------------------------------------------------
// Processing twice
// ---------------------------------------------------------------------------

proof fn lemma_sort_by_quantity_sorted_unchanged(s: Seq<Order>)
    requires
        quantities_descending(s),
    ensures
        sort_by_quantity(s) == s,
    decreases s.len(),
{
    if s.len() > 0 {
        let prev = s.drop_last();
        assert(quantities_descending(prev)) by {
            assert forall|i: int, j: int| 0 <= i < j < prev.len() implies #[trigger] prev[i].quantity
                >= #[trigger] prev[j].quantity by {
                assert(prev[i] == s[i] && prev[j] == s[j]);
            }
        }
        lemma_sort_by_quantity_sorted_unchanged(prev);
        assert forall|m: int| 0 <= m < prev.len() implies (#[trigger] prev[m]).quantity
            >= s.last().quantity by {
            assert(prev[m] == s[m]);
        }
        crate::process::lemma_quantity_slot(prev, s.last().quantity, prev.len() as int);
        assert(prev.insert(prev.len() as int, s.last()) =~= s);
    }
}

proof fn lemma_sort_sellers_sorted_unchanged(names: Seq<Seq<char>>, kept: Seq<Order>)
    requires
        totals_descending(names, kept),
    ensures
        sort_sellers(names, kept) == names,
    decreases names.len(),
{
    if names.len() > 0 {
        let prev = names.drop_last();
        assert(totals_descending(prev, kept)) by {
            assert forall|i: int, j: int| 0 <= i < j < prev.len() implies seller_total(
                kept,
                #[trigger] prev[i],
            ) >= seller_total(kept, #[trigger] prev[j]) by {
                assert(prev[i] == names[i] && prev[j] == names[j]);
            }
        }
        lemma_sort_sellers_sorted_unchanged(prev, kept);
        let t = seller_total(kept, names.last());
        assert forall|m: int| 0 <= m < prev.len() implies seller_total(kept, #[trigger] prev[m]) >= t by {
            assert(prev[m] == names[m]);
        }
        crate::process::lemma_seller_slot(prev, kept, t, prev.len() as int);
        assert(prev.insert(prev.len() as int, names.last()) =~= names);
    }
}

proof fn lemma_orders_of_concat(a: Seq<Order>, b: Seq<Order>, name: Seq<char>)
    ensures
        orders_of(a + b, name) == orders_of(a, name) + orders_of(b, name),
    decreases b.len(),
{
    if b.len() == 0 {
        assert(a + b =~= a);
        assert(orders_of(a, name) + orders_of(b, name) =~= orders_of(a, name));
    } else {
        lemma_orders_of_concat(a, b.drop_last(), name);
        assert((a + b).drop_last() =~= a + b.drop_last());
        assert((a + b).last() == b.last());
        if seller(b.last()) == name {
            assert(orders_of(a, name) + orders_of(b.drop_last(), name).push(b.last()) =~= (
            orders_of(a, name) + orders_of(b.drop_last(), name)).push(b.last()));
        }
    }
}

proof fn lemma_orders_of_one_seller(b: Seq<Order>, who: Seq<char>, name: Seq<char>)
    requires
        forall|r: int| 0 <= r < b.len() ==> seller(#[trigger] b[r]) == who,
    ensures
        orders_of(b, name) == if who == name {
            b
        } else {
            Seq::<Order>::empty()
        },
    decreases b.len(),
{
    if b.len() == 0 {
        assert(orders_of(b, name) =~= Seq::<Order>::empty());
        assert(b =~= Seq::<Order>::empty());
    } else {
        assert forall|r: int| 0 <= r < b.drop_last().len() implies seller(#[trigger] b.drop_last()[r])
            == who by {
            assert(b.drop_last()[r] == b[r]);
        }
        lemma_orders_of_one_seller(b.drop_last(), who, name);
        assert(seller(b[b.len() - 1]) == who);
        assert(b.drop_last().push(b.last()) =~= b);
    }
}

proof fn lemma_orders_of_blocks(blocks: Seq<Seq<Order>>, names: Seq<Seq<char>>, kept: Seq<Order>, name: Seq<char>)
    requires
        ranked_blocks(blocks, names, kept),
    ensures
        forall|k: int| 0 <= k < names.len() && names[k] == name ==> orders_of(blocks.flatten(), name) == blocks[k],
        !names.contains(name) ==> orders_of(blocks.flatten(), name) == Seq::<Order>::empty(),
    decreases blocks.len(),
{
    if blocks.len() == 0 {
        assert(blocks.flatten() =~= Seq::<Order>::empty());
        assert(orders_of(blocks.flatten(), name) =~= Seq::<Order>::empty());
    } else {
        let b2 = blocks.drop_last();
        let n2 = names.drop_last();
        let b = blocks.last();
        let x = names.last();
        lemma_ranked_blocks_drop_last(blocks, names, kept);
        lemma_orders_of_blocks(b2, n2, kept, name);
        assert(b2.push(b) =~= blocks);
        b2.lemma_flatten_push(b);
        lemma_orders_of_concat(b2.flatten(), b, name);
        assert(b == blocks[blocks.len() - 1]);
        assert(x == names[names.len() - 1]);
        assert forall|r: int| 0 <= r < b.len() implies seller(#[trigger] b[r]) == x by {
            assert(seller(blocks[blocks.len() - 1][r]) == names[names.len() - 1]);
        }
        lemma_orders_of_one_seller(b, x, name);
        if name == x {
            assert(!n2.contains(name)) by {
                if n2.contains(name) {
                    let i = choose|i: int| 0 <= i < n2.len() && n2[i] == name;
                    assert(names[i] == names[names.len() - 1]);
                }
            }
            assert(Seq::<Order>::empty() + b =~= b);
            assert forall|k: int| 0 <= k < names.len() && names[k] == name implies orders_of(
                blocks.flatten(),
                name,
            ) == blocks[k] by {
                if k < names.len() - 1 {
                    assert(names[k] == names[names.len() - 1]);
                }
            }
        } else {
            assert forall|k: int| 0 <= k < names.len() && names[k] == name implies orders_of(
                blocks.flatten(),
                name,
            ) == blocks[k] by {
                assert(k < names.len() - 1);
                assert(n2[k] == names[k]);
                assert(b2[k] == blocks[k]);
                assert(orders_of(b2.flatten(), name) + Seq::<Order>::empty() =~= orders_of(
                    b2.flatten(),
                    name,
                ));
            }
            if !names.contains(name) {
                assert(!n2.contains(name)) by {
                    if n2.contains(name) {
                        let i = choose|i: int| 0 <= i < n2.len() && n2[i] == name;
                        assert(names[i] == name);
                    }
                }
                assert(Seq::<Order>::empty() + Seq::<Order>::empty() =~= Seq::<Order>::empty());
            }
        }
    }
}

proof fn lemma_sellers_append_block(s: Seq<Order>, b: Seq<Order>, who: Seq<char>)
    requires
        b.len() > 0,
        forall|r: int| 0 <= r < b.len() ==> seller(#[trigger] b[r]) == who,
        !sellers(s).contains(who),
    ensures
        sellers(s + b) == sellers(s).push(who),
    decreases b.len(),
{
    let b2 = b.drop_last();
    assert((s + b).drop_last() =~= s + b2);
    assert((s + b).last() == b[b.len() - 1]);
    if b2.len() == 0 {
        assert(s + b2 =~= s);
    } else {
        assert forall|r: int| 0 <= r < b2.len() implies seller(#[trigger] b2[r]) == who by {
            assert(b2[r] == b[r]);
        }
        lemma_sellers_append_block(s, b2, who);
        assert(sellers(s).push(who)[sellers(s).len() as int] == who);
    }
}

proof fn lemma_sellers_of_blocks(blocks: Seq<Seq<Order>>, names: Seq<Seq<char>>, kept: Seq<Order>)
    requires
        ranked_blocks(blocks, names, kept),
        forall|k: int| 0 <= k < blocks.len() ==> (#[trigger] blocks[k]).len() > 0,
    ensures
        sellers(blocks.flatten()) == names,
    decreases blocks.len(),
{
    if blocks.len() == 0 {
        assert(blocks.flatten() =~= Seq::<Order>::empty());
        assert(names =~= Seq::<Seq<char>>::empty());
    } else {
        let b2 = blocks.drop_last();
        let n2 = names.drop_last();
        let b = blocks.last();
        let x = names.last();
        lemma_ranked_blocks_drop_last(blocks, names, kept);
        assert forall|k: int| 0 <= k < b2.len() implies (#[trigger] b2[k]).len() > 0 by {
            assert(b2[k] == blocks[k]);
        }
        lemma_sellers_of_blocks(b2, n2, kept);
        assert(b2.push(b) =~= blocks);
        b2.lemma_flatten_push(b);
        assert(b == blocks[blocks.len() - 1]);
        assert(x == names[names.len() - 1]);
        assert forall|r: int| 0 <= r < b.len() implies seller(#[trigger] b[r]) == x by {
            assert(seller(blocks[blocks.len() - 1][r]) == names[names.len() - 1]);
        }
        assert(!n2.contains(x)) by {
            if n2.contains(x) {
                let i = choose|i: int| 0 <= i < n2.len() && n2[i] == x;
                assert(names[i] == names[names.len() - 1]);
            }
        }
        lemma_sellers_append_block(b2.flatten(), b, x);
        assert(n2.push(x) =~= names);
    }
}

proof fn lemma_total_concat(a: Seq<Order>, b: Seq<Order>)
    ensures
        crate::process::total_quantity(a + b) == crate::process::total_quantity(a)
            + crate::process::total_quantity(b),
    decreases b.len(),
{
    if b.len() == 0 {
        assert(a + b =~= a);
    } else {
        lemma_total_concat(a, b.drop_last());
        assert((a + b).drop_last() =~= a + b.drop_last());
    }
}

proof fn lemma_total_sorted(s: Seq<Order>)
    ensures
        crate::process::total_quantity(sort_by_quantity(s)) == crate::process::total_quantity(s),
    decreases s.len(),
{
    if s.len() > 0 {
        let r = sort_by_quantity(s.drop_last());
        lemma_total_sorted(s.drop_last());
        lemma_sort_by_quantity_descending(s.drop_last());
        let x = s.last();
        let p = quantity_slot(r, x.quantity);
        lemma_quantity_slot_bounds(r, x.quantity);
        assert(r.insert(p, x) =~= r.take(p) + (seq![x] + r.skip(p)));
        assert(r =~= r.take(p) + r.skip(p));
        lemma_total_concat(r.take(p), seq![x] + r.skip(p));
        lemma_total_concat(seq![x], r.skip(p));
        lemma_total_concat(r.take(p), r.skip(p));
        assert(seq![x].drop_last() =~= Seq::<Order>::empty());
        assert(crate::process::total_quantity(Seq::<Order>::empty()) == 0);
        assert(seq![x].last() == x);
        assert(crate::process::total_quantity(seq![x]) == x.quantity);
        assert(sort_by_quantity(s) == r.insert(p, x));
        crate::process::lemma_total_push(s.drop_last(), x);
        assert(s.drop_last().push(x) =~= s);
    }
}

proof fn lemma_total_enriched(s: Seq<Order>, offer_price: u32, with_group: bool)
    ensures
        crate::process::total_quantity(s.map_values(|o: Order| enriched(o, offer_price, with_group)))
            == crate::process::total_quantity(s),
    decreases s.len(),
{
    if s.len() > 0 {
        lemma_total_enriched(s.drop_last(), offer_price, with_group);
        assert(s.map_values(|o: Order| enriched(o, offer_price, with_group)).drop_last()
            =~= s.drop_last().map_values(|o: Order| enriched(o, offer_price, with_group)));
    }
}

/// Every order of the block of `name` already carries the offer and group mark
/// that processing gives it, so processing it again changes nothing.
proof fn lemma_block_enriched_again(kept: Seq<Order>, name: Seq<char>, offer_price: u32)
    ensures
        seller_block(kept, name, offer_price).map_values(
            |o: Order| enriched(o, offer_price, seller_block(kept, name, offer_price).len() > 1),
        ) == seller_block(kept, name, offer_price),
        crate::process::total_quantity(seller_block(kept, name, offer_price))
            == seller_total(kept, name),
{
    let mine = orders_of(kept, name);
    let g = mine.len() > 1;
    let mapped = mine.map_values(|o: Order| enriched(o, offer_price, g));
    let block = seller_block(kept, name, offer_price);
    lemma_sort_by_quantity_descending(mapped);
    vstd::seq_lib::to_multiset_len(mapped);
    vstd::seq_lib::to_multiset_len(block);
    assert(block.len() == mine.len());
    assert forall|r: int| 0 <= r < block.len() implies enriched(#[trigger] block[r], offer_price, g)
        == block[r] by {
        vstd::seq_lib::to_multiset_contains(block, block[r]);
        vstd::seq_lib::to_multiset_contains(mapped, block[r]);
        assert(mapped.contains(block[r]));
        let i = choose|i: int| 0 <= i < mapped.len() && mapped[i] == block[r];
        assert(block[r] == enriched(mine[i], offer_price, g));
    }
    assert(block.map_values(|o: Order| enriched(o, offer_price, block.len() > 1)) =~= block);
    lemma_total_sorted(mapped);
    lemma_total_enriched(mine, offer_price, g);
}

/// Every flag of `keep` is set.
pub open spec fn keeps_all(keep: Seq<bool>) -> bool {
    forall|i: int| 0 <= i < keep.len() ==> #[trigger] keep[i]
}

proof fn lemma_selected_all(s: Seq<Order>, keep: Seq<bool>)
    requires
        keep.len() == s.len(),
        keeps_all(keep),
    ensures
        crate::process::selected(s, keep) == s,
    decreases s.len(),
{
    if s.len() > 0 {
        assert(keeps_all(keep.drop_last())) by {
            assert forall|i: int| 0 <= i < keep.drop_last().len() implies #[trigger] keep.drop_last()[i] by {
                assert(keep.drop_last()[i] == keep[i]);
            }
        }
        lemma_selected_all(s.drop_last(), keep.drop_last());
        assert(keep.last() == keep[keep.len() - 1]);
        assert(s.drop_last().push(s.last()) =~= s);
    }
}

/// Law: processing is idempotent. Processing the result of processing again,
/// with a filter that keeps every order and the same offer price, gives the
/// same result back.
pub proof fn law_processing_twice_changes_nothing(kept: Seq<Order>, offer_price: u32, keep: Seq<bool>)
    requires
        keep.len() == arranged(kept, offer_price).len(),
        keeps_all(keep),
    ensures
        arranged(crate::process::selected(arranged(kept, offer_price), keep), offer_price)
            == arranged(kept, offer_price),
{
    let names = sort_sellers(sellers(kept), kept);
    let blocks = seller_blocks(names, kept, offer_price);
    let out = arranged(kept, offer_price);
    lemma_selected_all(out, keep);
    lemma_arranged_blocks_ranked(kept, offer_price);
    assert forall|k: int| 0 <= k < blocks.len() implies (#[trigger] blocks[k]).len() > 0 by {}
    lemma_sellers_of_blocks(blocks, names, kept);
    // each seller's orders in the result are its block, with the same total
    assert forall|name: Seq<char>| #[trigger] seller_total(out, name) == seller_total(kept, name) by {
        lemma_orders_of_blocks(blocks, names, kept, name);
        lemma_sort_sellers_descending(sellers(kept), kept);
        vstd::seq_lib::to_multiset_contains(names, name);
        vstd::seq_lib::to_multiset_contains(sellers(kept), name);
        if names.contains(name) {
            let k = choose|k: int| 0 <= k < names.len() && names[k] == name;
            lemma_block_enriched_again(kept, name, offer_price);
        } else {
            lemma_sellers_contains_iff(kept, name);
            assert(orders_of(kept, name).len() == 0);
            assert(orders_of(kept, name) =~= Seq::<Order>::empty());
        }
    }
    assert(totals_descending(names, out)) by {
        assert forall|i: int, j: int| 0 <= i < j < names.len() implies seller_total(out, #[trigger] names[i])
            >= seller_total(out, #[trigger] names[j]) by {
            assert(seller_total(out, names[i]) == seller_total(kept, names[i]));
            assert(seller_total(out, names[j]) == seller_total(kept, names[j]));
        }
    }
    lemma_sort_sellers_sorted_unchanged(names, out);
    assert(seller_blocks(names, out, offer_price) =~= blocks) by {
        assert forall|k: int| 0 <= k < names.len() implies #[trigger] seller_blocks(names, out, offer_price)[k]
            == blocks[k] by {
            let name = names[k];
            lemma_orders_of_blocks(blocks, names, kept, name);
            assert(orders_of(out, name) == blocks[k]);
            lemma_block_enriched_again(kept, name, offer_price);
            assert(blocks[k] == seller_block(kept, name, offer_price));
            lemma_sort_by_quantity_sorted_unchanged(blocks[k]);
        }
    }
}

// ---------------------------------------------------------------------------
// Grouping by the seller's in-game name
// ---------------------------------------------------------------------------

/// The orders of `s` whose seller's in-game name is `name`, in order.
pub open spec fn placed_by(s: Seq<Order>, name: Seq<char>) -> Seq<Order> {
    s.filter(has_seller_name(name))
}

/// Whether an order's seller has the in-game name `name`.
pub open spec fn has_seller_name(name: Seq<char>) -> spec_fn(Order) -> bool {
    |o: Order| o.user.ingame_name@ == name
}

/// A seller's orders are the orders that carry that seller's in-game name.
proof fn lemma_orders_of_is_placed_by(s: Seq<Order>, name: Seq<char>)
    ensures
        orders_of(s, name) == placed_by(s, name),
    decreases s.len(),
{
    let p = has_seller_name(name);
    reveal(Seq::filter);
    if s.len() > 0 {
        lemma_orders_of_is_placed_by(s.drop_last(), name);
        assert(p(s.last()) == (seller(s.last()) == name));
        assert(s.filter(p) == if p(s.last()) {
            s.drop_last().filter(p).push(s.last())
        } else {
            s.drop_last().filter(p)
        });
    } else {
        assert(orders_of(s, name) =~= placed_by(s, name));
    }
}

/// Law: processing groups the orders by the in-game name of their seller.
/// Every processed order is marked as part of a group exactly when more than
/// one kept order carries its seller's in-game name; the orders of one name
/// stand together, largest quantity first; and names come ranked by the total
/// quantity of all kept orders that carry them, largest first.
pub proof fn law_orders_are_grouped_by_seller_name(kept: Seq<Order>, offer_price: u32)
    ensures
        forall|i: int|
            0 <= i < arranged(kept, offer_price).len() ==> (#[trigger] arranged(
                kept,
                offer_price,
            )[i]).is_with_group == Some(
                placed_by(kept, arranged(kept, offer_price)[i].user.ingame_name@).len() > 1,
            ),
        forall|i: int, j: int|
            #![trigger arranged(kept, offer_price)[i], arranged(kept, offer_price)[j]]
            0 <= i < j < arranged(kept, offer_price).len() ==> {
                let a = arranged(kept, offer_price)[i];
                let b = arranged(kept, offer_price)[j];
                if a.user.ingame_name@ == b.user.ingame_name@ {
                    &&& a.quantity >= b.quantity
                    &&& forall|m: int|
                        i < m < j ==> (#[trigger] arranged(kept, offer_price)[m]).user.ingame_name@
                            == a.user.ingame_name@
                } else {
                    total_quantity(placed_by(kept, a.user.ingame_name@)) >= total_quantity(
                        placed_by(kept, b.user.ingame_name@),
                    )
                }
            },
{
    let out = arranged(kept, offer_price);
    let all = all_processed(kept, offer_price);
    law_processed_orders_are_the_kept_orders(kept, offer_price);
    law_processed_orders_are_ranked(kept, offer_price);
    assert forall|i: int| 0 <= i < out.len() implies (#[trigger] out[i]).is_with_group == Some(
        placed_by(kept, out[i].user.ingame_name@).len() > 1,
    ) by {
        assert(out.to_multiset().count(out[i]) > 0);
        assert(all.contains(out[i]));
        let k = choose|k: int| 0 <= k < all.len() && all[k] == out[i];
        lemma_orders_of_is_placed_by(kept, kept[k].user.ingame_name@);
    }
    assert forall|i: int, j: int|
        #![trigger out[i], out[j]]
        0 <= i < j < out.len() && out[i].user.ingame_name@ != out[j].user.ingame_name@ implies total_quantity(
        placed_by(kept, out[i].user.ingame_name@),
    ) >= total_quantity(placed_by(kept, out[j].user.ingame_name@)) by {
        lemma_orders_of_is_placed_by(kept, out[i].user.ingame_name@);
        lemma_orders_of_is_placed_by(kept, out[j].user.ingame_name@);
    }
}

/// Law: processing fills in the offer of each kept order and changes nothing
/// else about it. Each processed order is a kept order whose price offered is
/// `offer_price` or the asked price, whichever is lower, whose sum offered is
/// that price times its quantity, and which is marked as part of a group
/// exactly when more than one kept order carries its seller's in-game name;
/// and each kept order comes out so.
pub proof fn law_offer_is_filled_in(kept: Seq<Order>, offer_price: u32)
    ensures
        arranged(kept, offer_price).to_multiset() == kept.map_values(with_offer(kept, offer_price)).to_multiset(),
        forall|i: int|
            #![trigger arranged(kept, offer_price)[i]]
            0 <= i < arranged(kept, offer_price).len() ==> exists|k: int|
                #![trigger kept[k]]
                0 <= k < kept.len() && arranged(kept, offer_price)[i] == (Order {
                    price_to_offer: Some(
                        if offer_price <= kept[k].platinum {
                            offer_price
                        } else {
                            kept[k].platinum
                        },
                    ),
                    sum_to_offer: Some(
                        ((if offer_price <= kept[k].platinum {
                            offer_price
                        } else {
                            kept[k].platinum
                        }) * kept[k].quantity) as u32,
                    ),
                    is_with_group: Some(placed_by(kept, kept[k].user.ingame_name@).len() > 1),
                    ..kept[k]
                }),
        forall|k: int|
            #![trigger kept[k]]
            0 <= k < kept.len() ==> exists|i: int|
                #![trigger arranged(kept, offer_price)[i]]
                0 <= i < arranged(kept, offer_price).len() && arranged(kept, offer_price)[i] == (
                Order {
                    price_to_offer: Some(
                        if offer_price <= kept[k].platinum {
                            offer_price
                        } else {
                            kept[k].platinum
                        },
                    ),
                    sum_to_offer: Some(
                        ((if offer_price <= kept[k].platinum {
                            offer_price
                        } else {
                            kept[k].platinum
                        }) * kept[k].quantity) as u32,
                    ),
                    is_with_group: Some(placed_by(kept, kept[k].user.ingame_name@).len() > 1),
                    ..kept[k]
                }),
{
    let out = arranged(kept, offer_price);
    let all = all_processed(kept, offer_price);
    law_processed_orders_are_the_kept_orders(kept, offer_price);
    assert forall|k: int| 0 <= k < kept.len() implies #[trigger] all[k] == kept.map_values(
        with_offer(kept, offer_price),
    )[k] by {
        lemma_orders_of_is_placed_by(kept, kept[k].user.ingame_name@);
    }
    assert(all =~= kept.map_values(with_offer(kept, offer_price)));
    assert forall|i: int| #![trigger out[i]] 0 <= i < out.len() implies exists|k: int|
        #![trigger kept[k]]
        0 <= k < kept.len() && out[i] == (Order {
            price_to_offer: Some(
                if offer_price <= kept[k].platinum {
                    offer_price
                } else {
                    kept[k].platinum
                },
            ),
            sum_to_offer: Some(
                ((if offer_price <= kept[k].platinum {
                    offer_price
                } else {
                    kept[k].platinum
                }) * kept[k].quantity) as u32,
            ),
            is_with_group: Some(placed_by(kept, kept[k].user.ingame_name@).len() > 1),
            ..kept[k]
        }) by {
        assert(out.to_multiset().count(out[i]) > 0);
        assert(all.contains(out[i]));
        let k = choose|k: int| 0 <= k < all.len() && all[k] == out[i];
        lemma_orders_of_is_placed_by(kept, kept[k].user.ingame_name@);
    }
    assert forall|k: int| #![trigger kept[k]] 0 <= k < kept.len() implies exists|i: int|
        #![trigger out[i]]
        0 <= i < out.len() && out[i] == (Order {
            price_to_offer: Some(
                if offer_price <= kept[k].platinum {
                    offer_price
                } else {
                    kept[k].platinum
                },
            ),
            sum_to_offer: Some(
                ((if offer_price <= kept[k].platinum {
                    offer_price
                } else {
                    kept[k].platinum
                }) * kept[k].quantity) as u32,
            ),
            is_with_group: Some(placed_by(kept, kept[k].user.ingame_name@).len() > 1),
            ..kept[k]
        }) by {
        assert(all[k] == processed(kept[k], kept, offer_price));
        assert(all.contains(all[k]));
        assert(out.to_multiset().count(all[k]) > 0);
        assert(out.contains(all[k]));
        lemma_orders_of_is_placed_by(kept, kept[k].user.ingame_name@);
    }
}

// ---------------------------------------------------------------------------
// Orders of equal quantity
// ---------------------------------------------------------------------------

/// Whether an order is for exactly `q` items.
pub open spec fn has_quantity(q: u32) -> spec_fn(Order) -> bool {
    |o: Order| o.quantity == q
}

/// An order of `kept` with its offer filled in: the price offered is
/// `offer_price` or the asked price, whichever is lower, the sum offered is
/// that price times the quantity, and it is marked as part of a group exactly
/// when more than one order of `kept` carries its seller's in-game name.
pub open spec fn with_offer(kept: Seq<Order>, offer_price: u32) -> spec_fn(Order) -> Order {
    |o: Order|
        Order {
            price_to_offer: Some(
                if offer_price <= o.platinum {
                    offer_price
                } else {
                    o.platinum
                },
            ),
            sum_to_offer: Some(
                ((if offer_price <= o.platinum {
                    offer_price
                } else {
                    o.platinum
                }) * o.quantity) as u32,
            ),
            is_with_group: Some(placed_by(kept, o.user.ingame_name@).len() > 1),
            ..o
        }
}

proof fn lemma_filter_none(s: Seq<Order>, p: spec_fn(Order) -> bool)
    requires
        forall|r: int| 0 <= r < s.len() ==> !p(#[trigger] s[r]),
    ensures
        s.filter(p) == Seq::<Order>::empty(),
    decreases s.len(),
{
    reveal(Seq::filter);
    if s.len() > 0 {
        assert forall|r: int| 0 <= r < s.drop_last().len() implies !p(#[trigger] s.drop_last()[r]) by {
            assert(s.drop_last()[r] == s[r]);
        }
        lemma_filter_none(s.drop_last(), p);
        assert(!p(s[s.len() - 1]));
    } else {
        assert(s =~= Seq::<Order>::empty());
    }
}

proof fn lemma_filter_single(e: Order, p: spec_fn(Order) -> bool)
    ensures
        seq![e].filter(p) == if p(e) {
            seq![e]
        } else {
            Seq::<Order>::empty()
        },
{
    reveal(Seq::filter);
    let one = seq![e];
    assert(one.len() == 1);
    assert(one.drop_last() =~= Seq::<Order>::empty());
    assert(one.drop_last().filter(p) == one.drop_last());
    assert(one.last() == e);
    assert(one.drop_last().push(e) =~= one);
}

/// Sorting by quantity keeps the orders of any one quantity in their order.
proof fn lemma_sort_keeps_equal_quantities(s: Seq<Order>, q: u32)
    ensures
        sort_by_quantity(s).filter(has_quantity(q)) == s.filter(has_quantity(q)),
    decreases s.len(),
{
    reveal(Seq::filter);
    if s.len() > 0 {
        let hq = has_quantity(q);
        let r = sort_by_quantity(s.drop_last());
        lemma_sort_keeps_equal_quantities(s.drop_last(), q);
        lemma_sort_by_quantity_descending(s.drop_last());
        let e = s.last();
        let p = quantity_slot(r, e.quantity);
        lemma_quantity_slot_bounds(r, e.quantity);
        let a = r.take(p);
        let b = r.skip(p);
        assert(r.insert(p, e) =~= a + seq![e] + b);
        assert(r =~= a + b);
        Seq::filter_distributes_over_add(a + seq![e], b, hq);
        Seq::filter_distributes_over_add(a, seq![e], hq);
        Seq::filter_distributes_over_add(a, b, hq);
        lemma_filter_single(e, hq);
        if e.quantity == q {
            assert forall|m: int| 0 <= m < b.len() implies !hq(#[trigger] b[m]) by {
                assert(b[m] == r[p + m]);
            }
            lemma_filter_none(b, hq);
            assert(a.filter(hq) + seq![e] + Seq::<Order>::empty() =~= (a.filter(hq)
                + Seq::<Order>::empty()).push(e));
        } else {
            assert(a.filter(hq) + Seq::<Order>::empty() =~= a.filter(hq));
        }
    }
}

/// Filling in the offers of one seller's orders keeps the orders of any one
/// quantity in their order.
proof fn lemma_offers_keep_equal_quantities(
    s: Seq<Order>,
    m: Seq<Order>,
    kept: Seq<Order>,
    offer_price: u32,
    name: Seq<char>,
    q: u32,
)
    requires
        m.len() == s.len(),
        forall|r: int| 0 <= r < s.len() ==> (#[trigger] s[r]).user.ingame_name@ == name,
        forall|r: int|
            0 <= r < s.len() ==> #[trigger] m[r] == enriched(
                s[r],
                offer_price,
                placed_by(kept, name).len() > 1,
            ),
    ensures
        m.filter(has_quantity(q)) == s.filter(has_quantity(q)).map_values(with_offer(kept, offer_price)),
    decreases s.len(),
{
    reveal(Seq::filter);
    let hq = has_quantity(q);
    let f = with_offer(kept, offer_price);
    if s.len() > 0 {
        let s2 = s.drop_last();
        let m2 = m.drop_last();
        assert forall|r: int| 0 <= r < s2.len() implies (#[trigger] s2[r]).user.ingame_name@ == name by {
            assert(s2[r] == s[r]);
        }
        assert forall|r: int| 0 <= r < s2.len() implies #[trigger] m2[r] == enriched(
            s2[r],
            offer_price,
            placed_by(kept, name).len() > 1,
        ) by {
            assert(m2[r] == m[r] && s2[r] == s[r]);
        }
        lemma_offers_keep_equal_quantities(s2, m2, kept, offer_price, name, q);
        let e = s.last();
        assert(e == s[s.len() - 1]);
        assert(m.last() == m[m.len() - 1]);
        assert(m.last() == f(e));
        assert(hq(m.last()) == hq(e));
        if hq(e) {
            assert(s2.filter(hq).push(e).map_values(f) =~= s2.filter(hq).map_values(f).push(f(e)));
        }
    } else {
        assert(m.filter(hq) =~= Seq::<Order>::empty());
        assert(s.filter(hq).map_values(f) =~= Seq::<Order>::empty());
    }
}

/// Law: processing keeps the order of a seller's orders of equal quantity.
/// Among the processed orders of any seller (by in-game name) and of any one
/// quantity, the orders come in the order in which they were kept, each with
/// its offer filled in.
pub proof fn law_equal_quantities_keep_their_order(
    kept: Seq<Order>,
    offer_price: u32,
    name: Seq<char>,
    q: u32,
)
    ensures
        placed_by(arranged(kept, offer_price), name).filter(has_quantity(q)) == placed_by(
            kept,
            name,
        ).filter(has_quantity(q)).map_values(with_offer(kept, offer_price)),
{
    let out = arranged(kept, offer_price);
    let names = sort_sellers(sellers(kept), kept);
    let blocks = seller_blocks(names, kept, offer_price);
    let mine = orders_of(kept, name);
    lemma_arranged_blocks_ranked(kept, offer_price);
    lemma_orders_of_blocks(blocks, names, kept, name);
    lemma_orders_of_is_placed_by(out, name);
    lemma_orders_of_is_placed_by(kept, name);
    lemma_sort_sellers_descending(sellers(kept), kept);
    vstd::seq_lib::to_multiset_contains(names, name);
    vstd::seq_lib::to_multiset_contains(sellers(kept), name);
    if names.contains(name) {
        let k = choose|k: int| 0 <= k < names.len() && names[k] == name;
        let mapped = mine.map_values(|o: Order| enriched(o, offer_price, mine.len() > 1));
        assert(blocks[k] == sort_by_quantity(mapped));
        lemma_sort_keeps_equal_quantities(mapped, q);
        lemma_orders_of_sellers(kept, name);
        lemma_offers_keep_equal_quantities(mine, mapped, kept, offer_price, name, q);
    } else {
        lemma_sellers_contains_iff(kept, name);
        assert(mine =~= Seq::<Order>::empty());
        reveal(Seq::filter);
        assert(mine.filter(has_quantity(q)).map_values(with_offer(kept, offer_price))
            =~= Seq::<Order>::empty());
    }
}

} // verus!
