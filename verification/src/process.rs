use vstd::prelude::*;
use crate::model::Order;

verus! {

// ---------------------------------------------------------------------------
// The model of processing
// ---------------------------------------------------------------------------

/// The smaller of two prices.
pub open spec fn min_price(a: u32, b: u32) -> u32 {
    if a <= b { a } else { b }
}

/// The name of the user who placed the order.
pub open spec fn seller(o: Order) -> Seq<char> {
    o.user.ingame_name@
}

/// The order with its offer filled in: the price offered is the lower of
/// `offer_price` and the asked price, the sum is that price times the quantity,
/// and `with_group` records whether its seller has other orders in the batch.
pub open spec fn enriched(o: Order, offer_price: u32, with_group: bool) -> Order {
    Order {
        price_to_offer: Some(min_price(offer_price, o.platinum)),
        sum_to_offer: Some((min_price(offer_price, o.platinum) * o.quantity) as u32),
        is_with_group: Some(with_group),
        ..o
    }
}

/// The distinct sellers of `s`, in the order in which they first appear.
pub open spec fn sellers(s: Seq<Order>) -> Seq<Seq<char>>
    decreases s.len(),
{
    if s.len() == 0 {
        seq![]
    } else {
        let prev = sellers(s.drop_last());
        if prev.contains(seller(s.last())) {
            prev
        } else {
            prev.push(seller(s.last()))
        }
    }
}

/// The orders of `s` placed by `name`, in their order in `s`.
pub open spec fn orders_of(s: Seq<Order>, name: Seq<char>) -> Seq<Order>
    decreases s.len(),
{
    if s.len() == 0 {
        seq![]
    } else {
        let prev = orders_of(s.drop_last(), name);
        if seller(s.last()) == name {
            prev.push(s.last())
        } else {
            prev
        }
    }
}

/// The sum of the quantities of `s`.
pub open spec fn total_quantity(s: Seq<Order>) -> int
    decreases s.len(),
{
    if s.len() == 0 {
        0
    } else {
        total_quantity(s.drop_last()) + s.last().quantity
    }
}

/// Where an order of quantity `q` goes in `s`: after every order whose
/// quantity is at least `q`.
pub open spec fn quantity_slot(s: Seq<Order>, q: u32) -> int
    decreases s.len(),
{
    if s.len() == 0 {
        0
    } else if s[0].quantity < q {
        0
    } else {
        1 + quantity_slot(s.drop_first(), q)
    }
}

/// `s` sorted by quantity, largest first; orders of equal quantity keep
/// their relative order (a stable sort, built by insertion).
pub open spec fn sort_by_quantity(s: Seq<Order>) -> Seq<Order>
    decreases s.len(),
{
    if s.len() == 0 {
        s
    } else {
        let r = sort_by_quantity(s.drop_last());
        r.insert(quantity_slot(r, s.last().quantity), s.last())
    }
}

/// The total quantity that `name` offers in `kept`: the key by which sellers are ranked.
pub open spec fn seller_total(kept: Seq<Order>, name: Seq<char>) -> int {
    total_quantity(orders_of(kept, name))
}

/// Where a seller whose total is `t` goes among `names`: after every seller
/// whose total is at least `t`.
pub open spec fn seller_slot(names: Seq<Seq<char>>, kept: Seq<Order>, t: int) -> int
    decreases names.len(),
{
    if names.len() == 0 {
        0
    } else if seller_total(kept, names[0]) < t {
        0
    } else {
        1 + seller_slot(names.drop_first(), kept, t)
    }
}

/// `names` sorted by total quantity in `kept`, largest first, stably.
pub open spec fn sort_sellers(names: Seq<Seq<char>>, kept: Seq<Order>) -> Seq<Seq<char>>
    decreases names.len(),
{
    if names.len() == 0 {
        names
    } else {
        let r = sort_sellers(names.drop_last(), kept);
        r.insert(seller_slot(r, kept, seller_total(kept, names.last())), names.last())
    }
}

/// The block of output for one seller: the seller's orders, enriched and
/// sorted by quantity, largest first.
pub open spec fn seller_block(kept: Seq<Order>, name: Seq<char>, offer_price: u32) -> Seq<Order> {
    let mine = orders_of(kept, name);
    sort_by_quantity(mine.map_values(|o: Order| enriched(o, offer_price, mine.len() > 1)))
}

/// What processing makes of the orders that passed the filter: one block per
/// seller, sellers ranked by total quantity (largest first, ties in order of
/// first appearance), blocks concatenated.
pub open spec fn arranged(kept: Seq<Order>, offer_price: u32) -> Seq<Order> {
    seller_blocks(sort_sellers(sellers(kept), kept), kept, offer_price).flatten()
}

/// The blocks of the sellers `names`, in that order.
pub open spec fn seller_blocks(names: Seq<Seq<char>>, kept: Seq<Order>, offer_price: u32) -> Seq<
    Seq<Order>,
> {
    names.map_values(|name: Seq<char>| seller_block(kept, name, offer_price))
}

/// The orders of `s` whose flag in `keep` is set, in order.
pub open spec fn selected(s: Seq<Order>, keep: Seq<bool>) -> Seq<Order>
    decreases s.len(),
{
    if s.len() == 0 || keep.len() == 0 {
        seq![]
    } else {
        let prev = selected(s.drop_last(), keep.drop_last());
        if keep.last() {
            prev.push(s.last())
        } else {
            prev
        }
    }
}

/// Processing `kept` stays within `u32`: no offered sum and no seller's
/// total quantity exceeds `u32::MAX`.
pub open spec fn processable(kept: Seq<Order>, offer_price: u32) -> bool {
    &&& offers_fit(kept, offer_price)
    &&& forall|name: Seq<char>| #[trigger] seller_total(kept, name) <= u32::MAX
}

/// Every order of `s` can be offered for within `u32`.
pub open spec fn offers_fit(s: Seq<Order>, offer_price: u32) -> bool {
    forall|i: int|
        0 <= i < s.len() ==> min_price(offer_price, #[trigger] s[i].platinum) * s[i].quantity
            <= u32::MAX
}

/// `keep` records one possible answer of `filter` for each order of `s`.
pub open spec fn filter_outcome<F: Fn(&Order) -> bool>(
    filter: F,
    s: Seq<Order>,
    keep: Seq<bool>,
) -> bool {
    &&& keep.len() == s.len()
    &&& forall|i: int| 0 <= i < s.len() ==> call_ensures(filter, (&s[i],), #[trigger] keep[i])
}

// ---------------------------------------------------------------------------
// Grouping
// ---------------------------------------------------------------------------

/// A name is among the sellers of `s` exactly when it placed an order of `s`.
pub proof fn lemma_sellers_contains_iff(s: Seq<Order>, name: Seq<char>)
    ensures
        sellers(s).contains(name) <==> orders_of(s, name).len() > 0,
    decreases s.len(),
{
    if s.len() > 0 {
        let prev = sellers(s.drop_last());
        lemma_sellers_contains_iff(s.drop_last(), name);
        if !prev.contains(seller(s.last())) {
            let now = prev.push(seller(s.last()));
            assert(now[now.len() - 1] == seller(s.last()));
            if prev.contains(name) {
                let k = choose|k: int| 0 <= k < prev.len() && prev[k] == name;
                assert(now[k] == name);
            }
            if now.contains(name) && seller(s.last()) != name {
                let k = choose|k: int| 0 <= k < now.len() && now[k] == name;
                assert(prev[k] == name);
            }
        }
    }
}

/// The views of a sequence of strings.
pub open spec fn string_views(v: Seq<String>) -> Seq<Seq<char>> {
    v.map_values(|n: String| n@)
}

/// The views of a sequence of vectors.
pub open spec fn views(gs: Seq<Vec<Order>>) -> Seq<Seq<Order>> {
    gs.map_values(|g: Vec<Order>| g@)
}

pub proof fn lemma_total_push(s: Seq<Order>, o: Order)
    ensures
        total_quantity(s.push(o)) == total_quantity(s) + o.quantity,
{
    assert(s.push(o).drop_last() =~= s);
}

proof fn lemma_total_of_prefix(s: Seq<Order>, k: int, name: Seq<char>)
    requires
        0 <= k <= s.len(),
    ensures
        total_quantity(orders_of(s.take(k), name)) <= total_quantity(orders_of(s, name)),
    decreases s.len() - k,
{
    if k < s.len() {
        assert(s.drop_last().take(k) =~= s.take(k));
        lemma_total_of_prefix(s.drop_last(), k, name);
        lemma_total_push(orders_of(s.drop_last(), name), s.last());
    } else {
        assert(s.take(k) =~= s);
    }
}

/// The index of the first name in `names` equal to `name`, if there is one.
fn position_of(names: &Vec<String>, name: &String) -> (r: Option<usize>)
    ensures
        match r {
            Some(j) => j < names@.len() && names@[j as int]@ == name@,
            None => forall|k: int| 0 <= k < names@.len() ==> (#[trigger] names@[k])@ != name@,
        },
{
    let mut j: usize = 0;
    while j < names.len()
        invariant
            0 <= j <= names@.len(),
            forall|k: int| 0 <= k < j ==> (#[trigger] names@[k])@ != name@,
        decreases names@.len() - j,
    {
        if names[j] == *name {
            return Some(j);
        }
        j = j + 1;
    }
    None
}

/// Splits `kept` by seller: `names` lists the sellers in order of first
/// appearance, `groups[j]` holds the orders of `names[j]` in their order in
/// `kept`, and `totals[j]` is their total quantity.
fn group_by_seller(kept: Vec<Order>) -> (res: (Vec<String>, Vec<Vec<Order>>, Vec<u32>))
    requires
        forall|name: Seq<char>| #[trigger] seller_total(kept@, name) <= u32::MAX,
    ensures
        string_views(res.0@) == sellers(kept@),
        res.1@.len() == res.0@.len(),
        res.2@.len() == res.0@.len(),
        forall|j: int|
            #![trigger res.1@[j]]
            #![trigger res.2@[j]]
            0 <= j < res.0@.len() ==> res.1@[j]@ == orders_of(kept@, res.0@[j]@)
                && res.2@[j] == seller_total(kept@, res.0@[j]@),
{
    let ghost all = kept@;
    let mut names: Vec<String> = Vec::new();
    let mut groups: Vec<Vec<Order>> = Vec::new();
    let mut totals: Vec<u32> = Vec::new();
    for o in it: kept.into_iter()
        invariant
            it.seq() == all,
            forall|name: Seq<char>| #[trigger] seller_total(all, name) <= u32::MAX,
            string_views(names@) == sellers(all.take(it.index() as int)),
            groups@.len() == names@.len(),
            totals@.len() == names@.len(),
            forall|j: int|
                #![trigger groups@[j]]
                #![trigger totals@[j]]
                0 <= j < names@.len() ==> groups@[j]@ == orders_of(
                    all.take(it.index() as int),
                    names@[j]@,
                ) && totals@[j] == total_quantity(
                    orders_of(all.take(it.index() as int), names@[j]@),
                ),
    {
        let ghost i = it.index();
        let ghost pre = all.take(i);
        let ghost post = all.take(i + 1);
        let ghost name = o.user.ingame_name@;
        let ghost old_names = names@;
        let ghost old_groups = groups@;
        let ghost old_totals = totals@;
        assert(post.drop_last() =~= pre);
        assert(post.last() == o);
        let q = o.quantity;
        match position_of(&names, &o.user.ingame_name) {
            Some(j) => {
                proof {
                    assert(string_views(names@)[j as int] == name);
                    assert(sellers(pre).contains(name));
                    lemma_total_of_prefix(all, i + 1, name);
                    assert(seller_total(all, name) <= u32::MAX);
                    assert(orders_of(post, name) == orders_of(pre, name).push(o));
                    lemma_total_push(orders_of(pre, name), o);
                }
                let mut g = groups.remove(j);
                g.push(o);
                groups.insert(j, g);
                let t = totals[j] + q;
                totals.set(j, t);
                proof {
                    assert forall|k: int|
                        #![trigger groups@[k]]
                        #![trigger totals@[k]]
                        0 <= k < names@.len() implies groups@[k]@
                        == orders_of(post, names@[k]@) && totals@[k] == total_quantity(
                        orders_of(post, names@[k]@),
                    ) by {
                        if k == j {
                            assert(groups@[k] == g);
                        } else {
                            assert(groups@[k] == old_groups[k]);
                            assert(names@[k]@ != name) by {
                                if names@[k]@ == name {
                                    // names are distinct: the sellers of a prefix are
                                    // listed once each
                                    lemma_sellers_distinct(pre);
                                    assert(string_views(old_names)[k] == name);
                                }
                            }
                        }
                    }
                }
            },
            None => {
                proof {
                    assert forall|k: int| 0 <= k < names@.len() implies
                        #[trigger] string_views(names@)[k] != name by {
                        assert(names@[k]@ != name);
                    }
                    assert(!sellers(pre).contains(name));
                    lemma_sellers_contains_iff(pre, name);
                    lemma_total_of_prefix(all, i + 1, name);
                    assert(seller_total(all, name) <= u32::MAX);
                    assert(orders_of(post, name) == orders_of(pre, name).push(o));
                    lemma_total_push(orders_of(pre, name), o);
                }
                names.push(o.user.ingame_name.clone());
                groups.push(vec![o]);
                totals.push(q);
                proof {
                    assert(string_views(names@) =~= string_views(old_names).push(name));
                    assert(groups@.last()@ =~= orders_of(post, name));
                    assert forall|k: int|
                        #![trigger groups@[k]]
                        #![trigger totals@[k]]
                        0 <= k < names@.len() implies groups@[k]@
                        == orders_of(post, names@[k]@) && totals@[k] == total_quantity(
                        orders_of(post, names@[k]@),
                    ) by {
                        if k < old_names.len() {
                            assert(names@[k] == old_names[k]);
                            assert(groups@[k] == old_groups[k]);
                            assert(names@[k]@ != name);
                        }
                    }
                }
            },
        }
    }
    proof {
        assert(all.take(all.len() as int) =~= all);
    }
    (names, groups, totals)
}

/// The sellers of a sequence are listed once each.
pub proof fn lemma_sellers_distinct(s: Seq<Order>)
    ensures
        forall|a: int, b: int|
            0 <= a < b < sellers(s).len() ==> sellers(s)[a] != sellers(s)[b],
    decreases s.len(),
{
    if s.len() > 0 {
        let prev = sellers(s.drop_last());
        lemma_sellers_distinct(s.drop_last());
        if !prev.contains(seller(s.last())) {
            let now = prev.push(seller(s.last()));
            assert forall|a: int, b: int| 0 <= a < b < now.len() implies now[a] != now[b] by {
                if b == now.len() - 1 {
                    assert(now[a] == prev[a]);
                    assert(prev[a] != seller(s.last()));
                }
            }
        }
    }
}

// ---------------------------------------------------------------------------
// Enriching and sorting one seller's orders
// ---------------------------------------------------------------------------

proof fn lemma_orders_of_offers_fit(s: Seq<Order>, name: Seq<char>, offer_price: u32)
    requires
        offers_fit(s, offer_price),
    ensures
        offers_fit(orders_of(s, name), offer_price),
    decreases s.len(),
{
    if s.len() > 0 {
        assert(offers_fit(s.drop_last(), offer_price)) by {
            assert forall|i: int| 0 <= i < s.drop_last().len() implies min_price(
                offer_price,
                #[trigger] s.drop_last()[i].platinum,
            ) * s.drop_last()[i].quantity <= u32::MAX by {
                assert(s.drop_last()[i] == s[i]);
            }
        }
        lemma_orders_of_offers_fit(s.drop_last(), name, offer_price);
        let prev = orders_of(s.drop_last(), name);
        if seller(s.last()) == name {
            assert forall|i: int| 0 <= i < prev.push(s.last()).len() implies min_price(
                offer_price,
                #[trigger] prev.push(s.last())[i].platinum,
            ) * prev.push(s.last())[i].quantity <= u32::MAX by {
                if i < prev.len() {
                    assert(prev.push(s.last())[i] == prev[i]);
                } else {
                    assert(s.last() == s[s.len() - 1]);
                }
            }
        }
    }
}

/// Fills in the offer of each order of one seller's group.
fn enrich_group(group: Vec<Order>, offer_price: u32) -> (res: Vec<Order>)
    requires
        offers_fit(group@, offer_price),
    ensures
        res@ == group@.map_values(|o: Order| enriched(o, offer_price, group@.len() > 1)),
{
    let ghost all = group@;
    let with_group = group.len() > 1;
    let mut res: Vec<Order> = Vec::new();
    for o in it: group.into_iter()
        invariant
            it.seq() == all,
            with_group == (all.len() > 1),
            offers_fit(all, offer_price),
            res@ == all.take(it.index() as int).map_values(
                |o: Order| enriched(o, offer_price, all.len() > 1),
            ),
    {
        let ghost i = it.index();
        assert(all[i as int] == o);
        let mut o = o;
        let price = if offer_price <= o.platinum { offer_price } else { o.platinum };
        o.price_to_offer = Some(price);
        o.sum_to_offer = Some(price * o.quantity);
        o.is_with_group = Some(with_group);
        res.push(o);
        assert(res@ =~= all.take(i + 1).map_values(
            |o: Order| enriched(o, offer_price, all.len() > 1),
        ));
    }
    assert(all.take(all.len() as int) =~= all);
    res
}

pub proof fn lemma_quantity_slot(s: Seq<Order>, q: u32, k: int)
    requires
        0 <= k <= s.len(),
        forall|m: int| 0 <= m < k ==> (#[trigger] s[m]).quantity >= q,
        k == s.len() || s[k].quantity < q,
    ensures
        quantity_slot(s, q) == k,
    decreases k,
{
    if k > 0 {
        assert forall|m: int| 0 <= m < k - 1 implies (#[trigger] s.drop_first()[m]).quantity >= q by {
            assert(s.drop_first()[m] == s[m + 1]);
        }
        if k < s.len() {
            assert(s.drop_first()[k - 1] == s[k]);
        }
        lemma_quantity_slot(s.drop_first(), q, k - 1);
    }
}

/// Sorts orders by quantity, largest first, keeping the order of equal
/// quantities.
fn sort_orders_by_quantity(v: Vec<Order>) -> (res: Vec<Order>)
    ensures
        res@ == sort_by_quantity(v@),
{
    let ghost all = v@;
    let mut res: Vec<Order> = Vec::new();
    for o in it: v.into_iter()
        invariant
            it.seq() == all,
            res@ == sort_by_quantity(all.take(it.index() as int)),
    {
        let ghost i = it.index();
        assert(all[i as int] == o);
        assert(all.take(i + 1).drop_last() =~= all.take(i as int));
        let mut k: usize = 0;
        while k < res.len() && res[k].quantity >= o.quantity
            invariant
                0 <= k <= res@.len(),
                forall|m: int| 0 <= m < k ==> (#[trigger] res@[m]).quantity >= o.quantity,
            decreases res@.len() - k,
        {
            k = k + 1;
        }
        proof {
            lemma_quantity_slot(res@, o.quantity, k as int);
        }
        res.insert(k, o);
    }
    assert(all.take(all.len() as int) =~= all);
    res
}

// ---------------------------------------------------------------------------
// Ranking the sellers
// ---------------------------------------------------------------------------

pub proof fn lemma_seller_slot(names: Seq<Seq<char>>, kept: Seq<Order>, t: int, k: int)
    requires
        0 <= k <= names.len(),
        forall|m: int| 0 <= m < k ==> seller_total(kept, #[trigger] names[m]) >= t,
        k == names.len() || seller_total(kept, names[k]) < t,
    ensures
        seller_slot(names, kept, t) == k,
    decreases k,
{
    if k > 0 {
        assert forall|m: int| 0 <= m < k - 1 implies seller_total(
            kept,
            #[trigger] names.drop_first()[m],
        ) >= t by {
            assert(names.drop_first()[m] == names[m + 1]);
        }
        if k < names.len() {
            assert(names.drop_first()[k - 1] == names[k]);
        }
        lemma_seller_slot(names.drop_first(), kept, t, k - 1);
    }
}

/// Builds each seller's block and puts the blocks in ranking order.
fn rank_blocks(
    kept: Ghost<Seq<Order>>,
    names: Ghost<Seq<Seq<char>>>,
    groups: Vec<Vec<Order>>,
    totals: Vec<u32>,
    offer_price: u32,
) -> (blocks: Vec<Vec<Order>>)
    requires
        offers_fit(kept@, offer_price),
        groups@.len() == names@.len(),
        totals@.len() == names@.len(),
        forall|j: int|
            #![trigger groups@[j]]
            #![trigger totals@[j]]
            0 <= j < names@.len() ==> groups@[j]@ == orders_of(kept@, names@[j])
                && totals@[j] == seller_total(kept@, names@[j]),
    ensures
        views(blocks@) == seller_blocks(sort_sellers(names@, kept@), kept@, offer_price),
{
    let ghost all = groups@;
    let mut blocks: Vec<Vec<Order>> = Vec::new();
    let mut block_totals: Vec<u32> = Vec::new();
    let ghost mut ranked: Seq<Seq<char>> = seq![];
    let n: usize = totals.len();
    let mut j: usize = 0;
    for g in it: groups.into_iter()
        invariant
            it.seq() == all,
            j == it.index(),
            j <= all.len(),
            n == totals@.len(),
            offers_fit(kept@, offer_price),
            all.len() == names@.len(),
            totals@.len() == names@.len(),
            forall|m: int|
                #![trigger all[m]]
                #![trigger totals@[m]]
                0 <= m < names@.len() ==> all[m]@ == orders_of(kept@, names@[m])
                    && totals@[m] == seller_total(kept@, names@[m]),
            ranked == sort_sellers(names@.take(j as int), kept@),
            blocks@.len() == ranked.len(),
            block_totals@.len() == ranked.len(),
            forall|k: int|
                #![trigger blocks@[k]]
                #![trigger block_totals@[k]]
                0 <= k < ranked.len() ==> blocks@[k]@ == seller_block(kept@, ranked[k], offer_price)
                    && block_totals@[k] == seller_total(kept@, ranked[k]),
    {
        assert(all[j as int] == g);
        let ghost name = names@[j as int];
        let t = totals[j];
        proof {
            lemma_orders_of_offers_fit(kept@, name, offer_price);
        }
        let block = sort_orders_by_quantity(enrich_group(g, offer_price));
        let mut k: usize = 0;
        while k < block_totals.len() && block_totals[k] >= t
            invariant
                0 <= k <= block_totals@.len(),
                forall|m: int| 0 <= m < k ==> (#[trigger] block_totals@[m]) >= t,
            decreases block_totals@.len() - k,
        {
            k = k + 1;
        }
        proof {
            assert forall|m: int| 0 <= m < k implies seller_total(kept@, #[trigger] ranked[m])
                >= t by {
                assert(block_totals@[m] >= t);
            }
            if k < ranked.len() {
                assert(block_totals@[k as int] < t);
            }
            lemma_seller_slot(ranked, kept@, t as int, k as int);
            assert(names@.take(j + 1).drop_last() =~= names@.take(j as int));
        }
        let ghost old_blocks = blocks@;
        let ghost old_totals = block_totals@;
        let ghost old_ranked = ranked;
        blocks.insert(k, block);
        block_totals.insert(k, t);
        proof {
            ranked = ranked.insert(k as int, name);
            assert forall|m: int|
                #![trigger blocks@[m]]
                #![trigger block_totals@[m]]
                0 <= m < ranked.len() implies blocks@[m]@ == seller_block(
                kept@,
                ranked[m],
                offer_price,
            ) && block_totals@[m] == seller_total(kept@, ranked[m]) by {
                if m < k {
                    assert(blocks@[m] == old_blocks[m]);
                    assert(ranked[m] == old_ranked[m]);
                } else if m > k {
                    assert(blocks@[m] == old_blocks[m - 1]);
                    assert(block_totals@[m] == old_totals[m - 1]);
                    assert(ranked[m] == old_ranked[m - 1]);
                }
            }
        }
        j = j + 1;
    }
    proof {
        assert(names@.take(names@.len() as int) =~= names@);
        assert(views(blocks@) =~= seller_blocks(ranked, kept@, offer_price));
    }
    blocks
}

// ---------------------------------------------------------------------------
// Processing
// ---------------------------------------------------------------------------

/// Concatenates the blocks in order.
fn concat_blocks(blocks: Vec<Vec<Order>>) -> (res: Vec<Order>)
    ensures
        res@ == views(blocks@).flatten(),
{
    let ghost all = blocks@;
    let mut res: Vec<Order> = Vec::new();
    for b in it: blocks.into_iter()
        invariant
            it.seq() == all,
            res@ == views(all.take(it.index() as int)).flatten(),
    {
        let ghost i = it.index();
        assert(all[i as int] == b);
        let mut b = b;
        res.append(&mut b);
        proof {
            assert(views(all.take(i + 1)) =~= views(all.take(i as int)).push(all[i as int]@));
            views(all.take(i as int)).lemma_flatten_push(all[i as int]@);
        }
    }
    assert(all.take(all.len() as int) =~= all);
    res
}

/// Processes the orders by filtering, enriching fields, sorting.
///
/// The orders for which `filter` answers `true` are kept and grouped by
/// seller. Each kept order is offered the lower of `offer_price` and its own
/// price, for its whole quantity, and is marked as part of a group when its
/// seller has more than one kept order. Within a seller the orders are sorted
/// by quantity, largest first; sellers are ranked by their total quantity,
/// largest first (equal totals keep the order in which the sellers first
/// appear); the result lists the sellers' orders one seller after the other.
pub fn process_orders(orders: Vec<Order>, filter: impl Fn(&Order) -> bool, offer_price: u32) -> (result: Vec<Order>)
    requires
        forall|i: int| 0 <= i < orders@.len() ==> call_requires(filter, (&orders@[i],)),
        forall|keep: Seq<bool>|
            #[trigger] filter_outcome(filter, orders@, keep) ==> processable(
                selected(orders@, keep),
                offer_price,
            ),
    ensures
        exists|keep: Seq<bool>|
            #[trigger] filter_outcome(filter, orders@, keep) && result@ == arranged(
                selected(orders@, keep),
                offer_price,
            ),
{
    let ghost all = orders@;
    let mut kept: Vec<Order> = Vec::new();
    let ghost mut keep: Seq<bool> = seq![];
    for o in it: orders.into_iter()
        invariant
            it.seq() == all,
            forall|i: int| 0 <= i < all.len() ==> call_requires(filter, (&all[i],)),
            keep.len() == it.index(),
            forall|i: int| 0 <= i < keep.len() ==> call_ensures(filter, (&all[i],), #[trigger] keep[i]),
            kept@ == selected(all.take(it.index() as int), keep),
    {
        let ghost i = it.index();
        assert(all[i as int] == o);
        let b = filter(&o);
        proof {
            let old_keep = keep;
            keep = keep.push(b);
            assert(all.take(i + 1).drop_last() =~= all.take(i as int));
            assert(keep.drop_last() =~= old_keep);
            assert forall|m: int| 0 <= m < keep.len() implies call_ensures(
                filter,
                (&all[m],),
                #[trigger] keep[m],
            ) by {
                if m < old_keep.len() {
                    assert(keep[m] == old_keep[m]);
                }
            }
        }
        if b {
            kept.push(o);
        }
    }
    proof {
        assert(all.take(all.len() as int) =~= all);
        assert(filter_outcome(filter, all, keep));
    }
    let ghost k = kept@;
    let (names, groups, totals) = group_by_seller(kept);
    let blocks = rank_blocks(Ghost(k), Ghost(string_views(names@)), groups, totals, offer_price);
    let result = concat_blocks(blocks);
    proof {
        assert(filter_outcome(filter, all, keep) && result@ == arranged(selected(all, keep), offer_price));
    }
    result
}

} // verus!
