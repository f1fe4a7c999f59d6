use vstd::prelude::*;
use crate::packet::Packet;
use crate::packet::catalog_of;
use crate::packet::packets_pos;
use crate::packet::rank_le;
use crate::packet::ranked;
use crate::possibility::Possibility;
use crate::possibility::cost_of;
use crate::possibility::lemma_single_choice;
use crate::possibility::lemma_sum_concat;
use crate::possibility::lemma_sum_repeat;
use crate::possibility::qty_of;
use crate::possibility::repeat;
use crate::selection::count_sum;
use crate::selection::feasible;
use crate::selection::lemma_count_nonneg;
use crate::selection::lemma_front_rate_bound;
use crate::selection::lemma_sel_all_zero;
use crate::selection::lemma_sel_cons;
use crate::selection::lemma_sel_nonneg;
use crate::selection::lemma_sel_split;
use crate::selection::lemma_zero_choice;
use crate::selection::min_cost_is;
use crate::selection::sel_cost;
use crate::selection::sel_qty;
use crate::selection::valid_sel;
use crate::selection::zero_choice;

verus! {

/// The dearest price standing in a catalog (0 when it is empty).
pub open spec fn max_price(s: Seq<Packet>) -> int
    decreases s.len(),
{
    if s.len() == 0 {
        0
    } else if s[0].price >= max_price(s.drop_first()) {
        s[0].price as int
    } else {
        max_price(s.drop_first())
    }
}

pub proof fn lemma_max_price_nonneg(s: Seq<Packet>)
    ensures
        max_price(s) >= 0,
    decreases s.len(),
{
    if s.len() > 0 {
        lemma_max_price_nonneg(s.drop_first());
    }
}

proof fn lemma_max_price_contains(s: Seq<Packet>, p: Packet)
    requires
        s.contains(p),
    ensures
        p.price <= max_price(s),
    decreases s.len(),
{
    let i = choose|i: int| 0 <= i < s.len() && s[i] == p;
    if i == 0 {
        lemma_max_price_nonneg(s.drop_first());
    } else {
        assert(s.drop_first()[i - 1] == p);
        assert(s.drop_first().contains(p));
        lemma_max_price_contains(s.drop_first(), p);
    }
}

/// Dropping the front packet keeps the catalog ranked and positive, cannot
/// raise its dearest price, and keeps its packets members of the whole.
proof fn lemma_tail_facts(s: Seq<Packet>)
    requires
        s.len() >= 1,
        ranked(s),
        packets_pos(s),
    ensures
        ranked(s.drop_first()),
        packets_pos(s.drop_first()),
        max_price(s.drop_first()) <= max_price(s),
        forall|x: Packet| s.drop_first().contains(x) ==> s.contains(x),
{
    let r = s.drop_first();
    assert forall|i: int, j: int| 0 <= i < j < r.len() implies #[trigger] rank_le(
        r[i],
        r[j],
    ) by {
        assert(r[i] == s[i + 1]);
        assert(r[j] == s[j + 1]);
        assert(rank_le(s[i + 1], s[j + 1]));
    }
    assert forall|i: int| 0 <= i < r.len() implies (#[trigger] r[i]).price >= 1 && r[i].quantity
        >= 1 by {
        assert(r[i] == s[i + 1]);
        assert(s[i + 1].price >= 1 && s[i + 1].quantity >= 1);
    }
    assert forall|x: Packet| r.contains(x) implies s.contains(x) by {
        let j = choose|j: int| 0 <= j < r.len() && r[j] == x;
        assert(s[j + 1] == x);
    }
}

/// A search-tree node: the remaining ranked catalog, the remaining packet
/// budget, and the remaining exact quantity target.
pub struct Problem {
    pub packet_list: Vec<Packet>,
    pub max_packets: usize,
    pub required_apples: usize,
}

impl Problem {
    /// The catalog is ranked and every packet has positive price and
    /// quantity; `new` establishes this and `solution` relies on it.
    pub open spec fn wf(&self) -> bool {
        ranked(self.packet_list@) && packets_pos(self.packet_list@)
    }

    /// No selection within budget can cost more than `usize` holds; this is
    /// what keeps `solution`'s cost arithmetic from overflowing.
    pub open spec fn budget_bounded(&self) -> bool {
        (self.max_packets as int) * max_price(self.packet_list@) <= usize::MAX
    }

    /// Builds the top-level problem: the ranked catalog of the price list,
    /// with the given packet budget and exact quantity target.
    pub fn new(prices: Vec<isize>, max_packets: usize, required_apples: usize) -> (r: Problem)
        ensures
            r.wf(),
            r.packet_list@.to_multiset() == catalog_of(prices@).to_multiset(),
            r.packet_list@.len() == catalog_of(prices@).len(),
            forall|x: Packet| r.packet_list@.contains(x) <==> catalog_of(prices@).contains(x),
            r.max_packets == max_packets,
            r.required_apples == required_apples,
    {
        let packet_list = Packet::from_array(prices);
        Problem { packet_list, max_packets, required_apples }
    }

    /// Whether the packet budget times the dearest catalog price fits in
    /// `usize`; `solution` asks for this bound.
    pub fn budget_fits(&self) -> (r: bool)
        ensures
            r == self.budget_bounded(),
    {
        let mp = self.max_catalog_price();
        proof {
            assert((self.max_packets as int) * (mp as int) <= u128::MAX) by (nonlinear_arith)
                requires
                    self.max_packets <= u64::MAX,
                    mp <= u64::MAX,
            ;
        }
        let prod: u128 = (self.max_packets as u128) * (mp as u128);
        prod <= (usize::MAX as u128)
    }

    /// The dearest price in the catalog, 0 when it is empty.
    fn max_catalog_price(&self) -> (r: usize)
        ensures
            r == max_price(self.packet_list@),
    {
        let ghost s = self.packet_list@;
        let mut cur: usize = 0;
        let mut i: usize = self.packet_list.len();
        proof {
            assert(s.skip(s.len() as int) =~= Seq::<Packet>::empty());
        }
        while i > 0
            invariant
                i <= s.len(),
                s == self.packet_list@,
                cur == max_price(s.skip(i as int)),
            decreases i,
        {
            i = i - 1;
            let p = self.packet_list[i];
            proof {
                assert(s.skip(i as int).drop_first() =~= s.skip(i + 1));
                assert(s.skip(i as int)[0] == s[i as int]);
            }
            if p.price > cur {
                cur = p.price;
            }
        }
        proof {
            assert(s.skip(0) =~= s);
        }
        cur
    }

    /// A copy of the catalog without its front packet: the deeper
    /// subproblem's catalog.
    fn tail_catalog(&self) -> (r: Vec<Packet>)
        requires
            self.packet_list@.len() >= 1,
        ensures
            r@ == self.packet_list@.drop_first(),
    {
        let ghost s = self.packet_list@;
        let mut r: Vec<Packet> = Vec::new();
        let mut i: usize = 1;
        while i < self.packet_list.len()
            invariant
                1 <= i <= s.len(),
                s == self.packet_list@,
                r@ == s.subrange(1, i as int),
            decreases s.len() - i,
        {
            let p = self.packet_list[i];
            r.push(p);
            proof {
                assert(s.subrange(1, i + 1) =~= s.subrange(1, i as int).push(p));
            }
            i = i + 1;
        }
        proof {
            assert(s.subrange(1, s.len() as int) =~= s.drop_first());
        }
        r
    }

    /// The lowest-cost selection that hits the target exactly within the
    /// packet budget, or `None` when no such selection exists (an empty
    /// catalog is always reported infeasible, even for a zero target).
    #[verifier::loop_isolation(false)]
    pub fn solution(&self) -> (r: Option<Possibility>)
        requires
            self.wf(),
            self.budget_bounded(),
        ensures
            solution_post(*self, r),
        decreases self.packet_list@.len(),
    {
        let ghost s = self.packet_list@;
        let ghost m = self.max_packets as int;
        let ghost t = self.required_apples as int;

        if self.packet_list.len() == 0 {
            return None;
        }
        let next_packet: Packet = self.packet_list[0];
        let ghost qq = next_packet.quantity as int;
        let ghost pp = next_packet.price as int;
        proof {
            assert((s[0]).price >= 1 && s[0].quantity >= 1);
            lemma_max_price_nonneg(s);
            assert(s.contains(s[0]));
            lemma_max_price_contains(s, next_packet);
        }
        let step_length: usize = self.required_apples / next_packet.quantity;
        let remainer: usize = self.required_apples % next_packet.quantity;
        let ghost stepg = step_length as int;
        let ghost remg = remainer as int;
        proof {
            vstd::arithmetic::div_mod::lemma_fundamental_div_mod(t, qq);
            assert(t == qq * stepg + remg);
            assert(0 <= remg < qq);
        }
        // Greedy fast path: the front packet has the best-or-tied unit price;
        // when it alone can hit the target exactly within budget, no other
        // selection can cost less.
        if remainer == 0 && step_length <= self.max_packets {
            let mut choices: Vec<usize> = Vec::new();
            choices.push(step_length);
            let possibility = Possibility::new(&self.packet_list, choices);
            proof {
                assert(choices@ =~= seq![step_length]);
                lemma_single_choice(s, step_length);
                lemma_sum_repeat(next_packet, step_length as nat);
                let run = possibility.packet_list@;
                assert(run == repeat(next_packet, step_length as nat));
                assert(stepg * qq == t) by (nonlinear_arith)
                    requires
                        t == qq * stepg + remg,
                        remg == 0,
                ;
                assert(qty_of(run) == t);
                assert(run.len() == stepg);
                assert forall|i: int| 0 <= i < run.len() implies s.contains(
                    #[trigger] run[i],
                ) by {
                    assert(run[i] == next_packet);
                }
                let zc = zero_choice(s.drop_first().len());
                lemma_zero_choice(s.drop_first());
                lemma_sel_cons(s, step_length as nat, zc);
                let w = seq![step_length as nat] + zc;
                assert(valid_sel(s, m, t, w));
                assert(sel_cost(s, w) == stepg * pp);
                assert(cost_of(run) == stepg * pp);
                assert forall|c: Seq<nat>| #[trigger] valid_sel(s, m, t, c) implies sel_cost(
                    s,
                    c,
                ) >= stepg * pp by {
                    assert forall|i: int| 0 <= i < s.len() implies next_packet.price * (
                    #[trigger] s[i]).quantity <= s[i].price * next_packet.quantity by {
                        if i > 0 {
                            assert(rank_le(s[0], s[i]));
                        }
                    }
                    lemma_front_rate_bound(s, c, next_packet);
                    assert(sel_cost(s, c) >= stepg * pp) by (nonlinear_arith)
                        requires
                            sel_cost(s, c) * qq >= sel_qty(s, c) * pp,
                            sel_qty(s, c) == t,
                            t == qq * stepg,
                            qq >= 1,
                            pp >= 0,
                            stepg >= 0,
                    ;
                }
                assert(min_cost_is(s, m, t, cost_of(run)));
                assert(stepg * pp <= m * max_price(s)) by (nonlinear_arith)
                    requires
                        stepg <= m,
                        0 <= pp <= max_price(s),
                        stepg >= 0,
                ;
            }
            return Some(possibility);
        }
        if self.max_packets == 0 {
            proof {
                assert(t > 0) by (nonlinear_arith)
                    requires
                        t == qq * stepg + remg,
                        remg >= 0,
                        qq >= 1,
                        stepg >= 0,
                        remg >= 1 || stepg >= 1,
                ;
                assert forall|c: Seq<nat>| !(#[trigger] valid_sel(s, 0int, t, c)) by {
                    if valid_sel(s, 0int, t, c) {
                        lemma_count_nonneg(c);
                        lemma_sel_all_zero(s, c);
                    }
                }
                assert(!feasible(s, m, t));
            }
            return None;
        }
        let mut hi: usize = step_length;
        if hi > self.max_packets {
            hi = self.max_packets;
        }
        let ghost hig = hi as int;
        proof {
            if step_length <= self.max_packets {
                assert(remg >= 1);
                assert(stepg < usize::MAX) by (nonlinear_arith)
                    requires
                        qq >= 2,
                        t == qq * stepg + remg,
                        1 <= remg < qq,
                        stepg >= 0,
                        t <= usize::MAX,
                ;
            }
            assert(hig < usize::MAX);
            assert((remg >= 1 && hig <= stepg) || (remg == 0 && hig < stepg));
            assert forall|c: Seq<nat>| #[trigger] valid_sel(s, m, t, c) implies (c[0] as int)
                <= hig by {
                lemma_sel_split(s, c);
                lemma_count_nonneg(c.drop_first());
                lemma_sel_nonneg(s.drop_first(), c.drop_first());
                assert((c[0] as int) <= m);
                assert((c[0] as int) * qq <= t);
                assert((c[0] as int) <= stepg) by (nonlinear_arith)
                    requires
                        (c[0] as int) * qq <= t,
                        t == qq * stepg + remg,
                        0 <= remg < qq,
                        qq >= 1,
                        c[0] >= 0,
                        stepg >= 0,
                ;
            }
        }
        let mut best_possibility: Option<Possibility> = None;
        let mut best_cost: usize = 0;
        let deeper_list = self.tail_catalog();
        let ghost rr = s.drop_first();
        proof {
            lemma_tail_facts(s);
        }
        let mut deeper = Problem { packet_list: deeper_list, max_packets: 0, required_apples: 0 };
        let mut cp: usize = hi + 1;
        while cp > 0
            invariant
                cp <= hi + 1,
                deeper.packet_list@ == rr,
                best_possibility is None ==> forall|c: Seq<nat>|
                    #[trigger] valid_sel(s, m, t, c) ==> (c[0] as int) < cp as int,
                best_possibility matches Some(p) ==> {
                    &&& qty_of(p.packet_list@) == t
                    &&& p.packet_list@.len() <= m
                    &&& (forall|i: int|
                        0 <= i < p.packet_list@.len() ==> s.contains(#[trigger] p.packet_list@[i]))
                    &&& cost_of(p.packet_list@) <= m * max_price(s)
                    &&& best_cost == cost_of(p.packet_list@)
                    &&& (exists|c: Seq<nat>|
                        #[trigger] valid_sel(s, m, t, c) && cp as int <= c[0] as int && sel_cost(
                            s,
                            c,
                        ) == cost_of(p.packet_list@))
                    &&& (forall|c: Seq<nat>|
                        #[trigger] valid_sel(s, m, t, c) && cp as int <= c[0] as int ==> sel_cost(
                            s,
                            c,
                        ) >= cost_of(p.packet_list@))
                },
            decreases cp,
        {
            let count = cp - 1;
            let ghost countg = count as int;
            let ghost prev_best = best_possibility;
            let ghost prev_cost = best_cost as int;
            proof {
                assert(countg * qq < t) by (nonlinear_arith)
                    requires
                        countg <= hig,
                        (remg >= 1 && hig <= stepg) || (remg == 0 && hig < stepg),
                        t == qq * stepg + remg,
                        qq >= 1,
                        countg >= 0,
                        stepg >= 0,
                ;
                assert(countg * qq >= 0) by (nonlinear_arith)
                    requires
                        countg >= 0,
                        qq >= 0,
                ;
            }
            let included_apples: usize = count * next_packet.quantity;
            deeper.max_packets = self.max_packets - count;
            deeper.required_apples = self.required_apples - included_apples;
            let ghost tsub = t - countg * qq;
            proof {
                lemma_max_price_nonneg(rr);
                assert((deeper.max_packets as int) * max_price(rr) <= usize::MAX)
                    by (nonlinear_arith)
                    requires
                        0 <= deeper.max_packets as int <= m,
                        0 <= max_price(rr) <= max_price(s),
                        m * max_price(s) <= usize::MAX,
                        m >= 0,
                ;
            }
            let sub = deeper.solution();
            match sub {
                Option::Some(inner_possibility) => {
                    let ghost inner_run = inner_possibility.packet_list@;
                    let mut choices: Vec<usize> = Vec::new();
                    choices.push(count);
                    let mut possibility = Possibility::new(&self.packet_list, choices);
                    proof {
                        assert(choices@ =~= seq![count]);
                        lemma_single_choice(s, count);
                    }
                    possibility.merge(&inner_possibility);
                    let ghost run = possibility.packet_list@;
                    proof {
                        assert(run == repeat(next_packet, count as nat) + inner_run);
                        lemma_sum_concat(repeat(next_packet, count as nat), inner_run);
                        lemma_sum_repeat(next_packet, count as nat);
                        assert(qty_of(run) == countg * qq + tsub);
                        assert(qty_of(run) == t);
                        assert(run.len() == countg + inner_run.len());
                        assert(run.len() <= m);
                        assert forall|i: int| 0 <= i < run.len() implies s.contains(
                            #[trigger] run[i],
                        ) by {
                            if i < countg {
                                assert(run[i] == next_packet);
                            } else {
                                assert(run[i] == inner_run[i - countg]);
                                assert(rr.contains(inner_run[i - countg]));
                            }
                        }
                        assert(cost_of(run) == countg * pp + cost_of(inner_run));
                        assert(cost_of(run) <= m * max_price(s)) by (nonlinear_arith)
                            requires
                                cost_of(run) == countg * pp + cost_of(inner_run),
                                cost_of(inner_run) <= (m - countg) * max_price(rr),
                                0 <= max_price(rr) <= max_price(s),
                                0 <= pp <= max_price(s),
                                0 <= countg <= m,
                        ;
                    }
                    let cand_cost = possibility.total_cost();
                    proof {
                        let cw = choose|c: Seq<nat>|
                            #[trigger] valid_sel(rr, m - countg, tsub, c) && sel_cost(rr, c)
                                == cost_of(inner_run);
                        lemma_sel_cons(s, count as nat, cw);
                        lemma_count_nonneg(cw);
                        let w = seq![count as nat] + cw;
                        assert(count_sum(w) <= m);
                        assert(sel_qty(s, w) == countg * qq + tsub);
                        assert(valid_sel(s, m, t, w));
                        assert(sel_cost(s, w) == cand_cost as int);
                        assert((w[0] as int) == countg);
                        assert forall|c: Seq<nat>|
                            #[trigger] valid_sel(s, m, t, c) && (c[0] as int)
                                == countg implies sel_cost(s, c) >= cand_cost as int by {
                            lemma_sel_split(s, c);
                            assert(count_sum(c.drop_first()) <= m - countg);
                            assert(sel_qty(rr, c.drop_first()) == tsub);
                            assert(valid_sel(rr, m - countg, tsub, c.drop_first()));
                            assert(sel_cost(rr, c.drop_first()) >= cost_of(inner_run));
                            assert(sel_cost(s, c) == countg * pp + sel_cost(rr, c.drop_first()))
                                by (nonlinear_arith)
                                requires
                                    sel_cost(s, c) == (c[0] as int) * (s[0].price as int)
                                        + sel_cost(s.drop_first(), c.drop_first()),
                                    (c[0] as int) == countg,
                                    s[0].price == pp,
                                    rr == s.drop_first(),
                            ;
                        }
                    }
                    let is_better = best_possibility.is_none() || cand_cost < best_cost;
                    if is_better {
                        best_cost = cand_cost;
                        best_possibility = Some(possibility);
                    }
                    proof {
                        assert forall|c: Seq<nat>|
                            #[trigger] valid_sel(s, m, t, c) && countg <= c[0] as int
                                implies sel_cost(s, c) >= best_cost as int by {
                            if c[0] as int == countg {
                                assert(sel_cost(s, c) >= cand_cost as int);
                            } else {
                                assert(cp as int <= c[0] as int);
                                if prev_best is Some {
                                    assert(sel_cost(s, c) >= prev_cost);
                                } else {
                                    assert((c[0] as int) < cp as int);
                                }
                            }
                        }
                        if is_better {
                            let w = choose|c: Seq<nat>|
                                #[trigger] valid_sel(s, m, t, c) && (c[0] as int) == countg
                                    && sel_cost(s, c) == cand_cost as int;
                            assert(valid_sel(s, m, t, w) && countg <= w[0] as int && sel_cost(s, w)
                                == best_cost as int);
                        } else {
                            let w = choose|c: Seq<nat>|
                                #[trigger] valid_sel(s, m, t, c) && cp as int <= c[0] as int
                                    && sel_cost(s, c) == prev_cost;
                            assert(valid_sel(s, m, t, w) && countg <= w[0] as int && sel_cost(s, w)
                                == best_cost as int);
                        }
                    }
                },
                Option::None => {
                    proof {
                        assert forall|c: Seq<nat>|
                            !(#[trigger] valid_sel(s, m, t, c) && (c[0] as int) == countg) by {
                            if valid_sel(s, m, t, c) && (c[0] as int) == countg {
                                lemma_sel_split(s, c);
                                lemma_count_nonneg(c.drop_first());
                                assert(count_sum(c.drop_first()) <= m - countg);
                                assert(sel_qty(rr, c.drop_first()) == tsub);
                                assert(valid_sel(rr, m - countg, tsub, c.drop_first()));
                                assert(tsub > 0);
                                if rr.len() == 0 {
                                    assert(sel_qty(rr, c.drop_first()) == 0);
                                } else {
                                    assert(!feasible(rr, m - countg, tsub));
                                }
                            }
                        }
                    }
                },
            }
            cp = count;
        }
        proof {
            if best_possibility is None {
                assert forall|c: Seq<nat>| !(#[trigger] valid_sel(s, m, t, c)) by {
                    if valid_sel(s, m, t, c) {
                        assert((c[0] as int) < 0);
                    }
                }
                assert(!feasible(s, m, t));
            } else {
                let p = best_possibility->0;
                let w = choose|c: Seq<nat>|
                    #[trigger] valid_sel(s, m, t, c) && 0 <= c[0] as int && sel_cost(s, c)
                        == cost_of(p.packet_list@);
                assert(valid_sel(s, m, t, w) && sel_cost(s, w) == cost_of(p.packet_list@));
                assert forall|c: Seq<nat>| #[trigger] valid_sel(s, m, t, c) implies sel_cost(s, c)
                    >= cost_of(p.packet_list@) by {
                    assert(0int <= c[0] as int);
                }
                assert(min_cost_is(s, m, t, cost_of(p.packet_list@)));
            }
        }
        best_possibility
    }
}

/// What `solution` promises: a returned selection hits the target exactly,
/// stays within the packet budget, draws only catalog packets, and costs the
/// least any solving choice costs; `None` means the catalog is empty or no
/// selection solves the problem.
pub open spec fn solution_post(p: Problem, r: Option<Possibility>) -> bool {
    let s = p.packet_list@;
    let m = p.max_packets as int;
    let t = p.required_apples as int;
    match r {
        Option::Some(sol) => {
            &&& s.len() > 0
            &&& qty_of(sol.packet_list@) == t
            &&& sol.packet_list@.len() <= m
            &&& (forall|i: int|
                0 <= i < sol.packet_list@.len() ==> s.contains(#[trigger] sol.packet_list@[i]))
            &&& min_cost_is(s, m, t, cost_of(sol.packet_list@))
            &&& cost_of(sol.packet_list@) <= m * max_price(s)
        },
        Option::None => s.len() == 0 || !feasible(s, m, t),
    }
}

} // verus!

