use vstd::prelude::*;

verus! {

/// A purchasable unit: a fixed `quantity` of the resource at a fixed `price`.
/// Created once during catalog construction and never mutated.
#[derive(Clone, Copy, PartialEq, Eq, Structural)]
pub struct Packet {
    pub price: usize,
    pub quantity: usize,
}

/// `a` ranks no worse than `b`: `a` has a strictly smaller unit price
/// (compared cross-multiplied, to stay in integers), or the unit prices are
/// equal and `a` offers at least as large a quantity.
pub open spec fn rank_le(a: Packet, b: Packet) -> bool {
    ||| a.price * b.quantity < b.price * a.quantity
    ||| (a.price * b.quantity == b.price * a.quantity && a.quantity >= b.quantity)
}

/// The catalog ordering: most cost-efficient packet first.
pub open spec fn ranked(s: Seq<Packet>) -> bool {
    forall|i: int, j: int| 0 <= i < j < s.len() ==> #[trigger] rank_le(s[i], s[j])
}

/// Every packet has a strictly positive price and quantity.
pub open spec fn packets_pos(s: Seq<Packet>) -> bool {
    forall|i: int| 0 <= i < s.len() ==> (#[trigger] s[i]).price >= 1 && s[i].quantity >= 1
}

/// The packets a price list yields, in position order: one packet for each
/// strictly positive entry, with quantity equal to the entry's 1-based
/// position.
pub open spec fn catalog_of(prices: Seq<isize>) -> Seq<Packet>
    decreases prices.len(),
{
    if prices.len() == 0 {
        Seq::empty()
    } else {
        let front = catalog_of(prices.drop_last());
        if prices.last() > 0 {
            front.push(
                Packet { price: prices.last() as usize, quantity: prices.len() as usize },
            )
        } else {
            front
        }
    }
}

/// `rank_le` is total: of any two packets, one ranks no worse than the other.
proof fn lemma_rank_total(a: Packet, b: Packet)
    ensures
        rank_le(a, b) || rank_le(b, a),
{
}

/// `rank_le` is transitive on packets with positive quantities.
proof fn lemma_rank_trans(a: Packet, b: Packet, c: Packet)
    requires
        a.quantity >= 1,
        b.quantity >= 1,
        c.quantity >= 1,
        rank_le(a, b),
        rank_le(b, c),
    ensures
        rank_le(a, c),
{
    let ap = a.price as int;
    let aq = a.quantity as int;
    let bp = b.price as int;
    let bq = b.quantity as int;
    let cp = c.price as int;
    let cq = c.quantity as int;
    if ap * bq == bp * aq && bp * cq == cp * bq {
        assert(ap * cq == cp * aq) by (nonlinear_arith)
            requires
                ap * bq == bp * aq,
                bp * cq == cp * bq,
                aq >= 1,
                bq >= 1,
                cq >= 1,
        ;
    } else {
        assert(ap * cq < cp * aq) by (nonlinear_arith)
            requires
                ap * bq < bp * aq || (ap * bq == bp * aq && bp * cq < cp * bq),
                ap * bq <= bp * aq,
                bp * cq <= cp * bq,
                aq >= 1,
                bq >= 1,
                cq >= 1,
        ;
    }
}

/// Compares two packets by unit price, cross-multiplied in a width that
/// cannot overflow.
fn rank_le_exec(a: &Packet, b: &Packet) -> (r: bool)
    ensures
        r == rank_le(*a, *b),
{
    proof {
        assert((a.price as int) * (b.quantity as int) <= u128::MAX && (b.price as int) * (
        a.quantity as int) <= u128::MAX) by (nonlinear_arith)
            requires
                a.price <= u64::MAX,
                b.price <= u64::MAX,
                a.quantity <= u64::MAX,
                b.quantity <= u64::MAX,
        ;
    }
    let x: u128 = (a.price as u128) * (b.quantity as u128);
    let y: u128 = (b.price as u128) * (a.quantity as u128);
    if x < y {
        true
    } else if x == y {
        a.quantity >= b.quantity
    } else {
        false
    }
}

/// Reorders a packet list into ranked order; the packets themselves are kept,
/// as a multiset.
fn sort_by_rank(v: &Vec<Packet>) -> (r: Vec<Packet>)
    requires
        packets_pos(v@),
    ensures
        ranked(r@),
        r@.to_multiset() == v@.to_multiset(),
        r@.len() == v@.len(),
        packets_pos(r@),
{
    broadcast use vstd::seq_lib::group_to_multiset_ensures;

    let mut out: Vec<Packet> = Vec::new();
    let mut i: usize = 0;
    while i < v.len()
        invariant
            i <= v.len(),
            packets_pos(v@),
            ranked(out@),
            packets_pos(out@),
            out@.to_multiset() == v@.take(i as int).to_multiset(),
            out@.len() == i,
        decreases v.len() - i,
    {
        let x: Packet = v[i];
        let ghost prev = out@;
        let mut pos: usize = 0;
        while pos < out.len() && rank_le_exec(&out[pos], &x)
            invariant
                pos <= out.len(),
                out@ == prev,
                forall|k: int| 0 <= k < pos ==> rank_le(out@[k], x),
            decreases out.len() - pos,
        {
            pos += 1;
        }
        proof {
            if pos < prev.len() {
                lemma_rank_total(prev[pos as int], x);
            }
            assert forall|j: int| pos <= j < prev.len() implies rank_le(x, prev[j]) by {
                if pos < j {
                    lemma_rank_trans(x, prev[pos as int], prev[j]);
                }
            }
        }
        out.insert(pos, x);
        proof {
            let cur = out@;
            prev.insert_ensures(pos as int, x);
            assert forall|s: int, t: int| 0 <= s < t < cur.len() implies rank_le(
                cur[s],
                cur[t],
            ) by {
                if t < pos {
                    assert(rank_le(prev[s], prev[t]));
                } else if s > pos {
                    assert(rank_le(prev[s - 1], prev[t - 1]));
                } else if s < pos && t == pos {
                    assert(rank_le(prev[s], x));
                } else if s == pos {
                    assert(rank_le(x, prev[t - 1]));
                } else {
                    assert(s < pos && t > pos);
                    assert(rank_le(prev[s], prev[t - 1]));
                }
            }
            assert(cur == prev.insert(pos as int, x));
            vstd::seq_lib::to_multiset_insert(prev, pos as int, x);
            vstd::seq_lib::to_multiset_build(v@.take(i as int), v@[i as int]);
            assert(v@.take(i + 1) =~= v@.take(i as int).push(v@[i as int]));
            assert(cur.to_multiset() == v@.take(i + 1).to_multiset());
            assert(packets_pos(cur)) by {
                assert forall|k: int| 0 <= k < cur.len() implies (#[trigger] cur[k]).price >= 1
                    && cur[k].quantity >= 1 by {
                    if k < pos {
                        assert(prev[k] == cur[k]);
                    } else if k > pos {
                        assert(prev[k - 1] == cur[k]);
                    }
                }
            }
        }
        i += 1;
    }
    proof {
        assert(v@.take(v@.len() as int) == v@);
    }
    out
}

impl Packet {
    /// Builds a packet from its price and quantity.
    pub fn new(price: usize, quantity: usize) -> (r: Packet)
        ensures
            r.price == price,
            r.quantity == quantity,
    {
        Packet { price, quantity }
    }

    /// Builds the ranked catalog for a price list: one packet per strictly
    /// positive entry, with quantity equal to the entry's 1-based position,
    /// ordered most cost-efficient first.
    pub fn from_array(price_list: Vec<isize>) -> (r: Vec<Packet>)
        ensures
            r@.to_multiset() == catalog_of(price_list@).to_multiset(),
            r@.len() == catalog_of(price_list@).len(),
            forall|x: Packet| r@.contains(x) <==> catalog_of(price_list@).contains(x),
            ranked(r@),
            packets_pos(r@),
    {
        broadcast use vstd::seq_lib::group_to_multiset_ensures;

        let mut packet_list: Vec<Packet> = Vec::new();
        let mut index: usize = 0;
        while index < price_list.len()
            invariant
                index <= price_list.len(),
                packet_list@ == catalog_of(price_list@.take(index as int)),
                packets_pos(packet_list@),
            decreases price_list.len() - index,
        {
            let quantity = index + 1;
            let price = price_list[index];
            proof {
                let taken = price_list@.take(index + 1);
                assert(taken.drop_last() == price_list@.take(index as int));
                assert(taken.last() == price_list@[index as int]);
            }
            if price > 0 {
                let new_packet = Packet::new(price as usize, quantity);
                packet_list.push(new_packet);
            }
            index += 1;
        }
        proof {
            assert(price_list@.take(price_list@.len() as int) == price_list@);
        }
        let sorted = sort_by_rank(&packet_list);
        proof {
            assert forall|x: Packet| sorted@.contains(x) <==> catalog_of(
                price_list@,
            ).contains(x) by {
                assert(sorted@.contains(x) <==> sorted@.to_multiset().count(x) > 0);
                assert(catalog_of(price_list@).contains(x) <==> catalog_of(
                    price_list@,
                ).to_multiset().count(x) > 0);
            }
        }
        sorted
    }
}

/// Catalog membership goes exactly by the sign of the price: position `i` of
/// the price list yields a packet (of quantity `i + 1` and that price) when
/// and only when its price is strictly positive.
pub proof fn lemma_catalog_filtering(prices: Seq<isize>, i: int)
    requires
        0 <= i < prices.len(),
        prices.len() <= usize::MAX,
    ensures
        prices[i] > 0 ==> catalog_of(prices).contains(
            Packet { price: prices[i] as usize, quantity: (i + 1) as usize },
        ),
        !(prices[i] > 0) ==> forall|j: int|
            0 <= j < catalog_of(prices).len() ==> (#[trigger] catalog_of(prices)[j]).quantity != i
                + 1,
    decreases prices.len(),
{
    let c = catalog_of(prices);
    let front = catalog_of(prices.drop_last());
    lemma_catalog_quantities(prices);
    if i == prices.len() - 1 {
        if prices[i] > 0 {
            assert(c.last() == Packet { price: prices[i] as usize, quantity: (i + 1) as usize });
            assert(c.contains(c.last()));
        } else {
            lemma_catalog_quantities(prices.drop_last());
        }
    } else {
        lemma_catalog_filtering(prices.drop_last(), i);
        assert(prices.drop_last()[i] == prices[i]);
        if prices[i] > 0 {
            let p = Packet { price: prices[i] as usize, quantity: (i + 1) as usize };
            let j = choose|j: int| 0 <= j < front.len() && front[j] == p;
            assert(c[j] == p);
            assert(c.contains(p));
        }
    }
}

/// Every packet in a catalog records the price standing at its quantity's
/// position: packet `p` implies `prices[p.quantity - 1] == p.price > 0`.
pub proof fn lemma_catalog_sound(prices: Seq<isize>, j: int)
    requires
        0 <= j < catalog_of(prices).len(),
        prices.len() <= usize::MAX,
    ensures
        1 <= catalog_of(prices)[j].quantity <= prices.len(),
        prices[catalog_of(prices)[j].quantity - 1] > 0,
        catalog_of(prices)[j].price == prices[catalog_of(prices)[j].quantity - 1],
    decreases prices.len(),
{
    let c = catalog_of(prices);
    let front = catalog_of(prices.drop_last());
    if prices.last() > 0 && j == c.len() - 1 {
    } else {
        lemma_catalog_sound(prices.drop_last(), j);
        assert(prices.drop_last()[c[j].quantity - 1] == prices[c[j].quantity - 1]);
    }
}

/// Each catalog position holds a quantity between 1 and the price list's
/// length, and quantities grow strictly along the unsorted catalog.
proof fn lemma_catalog_quantities(prices: Seq<isize>)
    requires
        prices.len() <= usize::MAX,
    ensures
        forall|j: int|
            0 <= j < catalog_of(prices).len() ==> 1 <= (#[trigger] catalog_of(
                prices,
            )[j]).quantity <= prices.len(),
        forall|j: int, k: int|
            0 <= j < k < catalog_of(prices).len() ==> (#[trigger] catalog_of(prices)[j]).quantity
                < (#[trigger] catalog_of(prices)[k]).quantity,
    decreases prices.len(),
{
    let c = catalog_of(prices);
    if prices.len() > 0 {
        lemma_catalog_quantities(prices.drop_last());
        let front = catalog_of(prices.drop_last());
        if prices.last() > 0 {
            assert(c == front.push(
                Packet { price: prices.last() as usize, quantity: prices.len() as usize },
            ));
        } else {
            assert(c == front);
        }
        assert forall|j: int| 0 <= j < c.len() implies 1 <= (#[trigger] c[j]).quantity
            <= prices.len() by {
            if j < front.len() {
                assert(c[j] == front[j]);
            }
        }
        assert forall|j: int, k: int| 0 <= j < k < c.len() implies (#[trigger] c[j]).quantity < (
        #[trigger] c[k]).quantity by {
            assert(c[j] == front[j]);
            if k < front.len() {
                assert(c[k] == front[k]);
            } else {
                assert(front[j].quantity <= prices.drop_last().len());
            }
        }
    }
}

} // verus!
