use vstd::prelude::*;
use crate::packet::Packet;

verus! {

/// How many packets a choice vector takes in total.
pub open spec fn count_sum(c: Seq<nat>) -> int
    decreases c.len(),
{
    if c.len() == 0 {
        0
    } else {
        c[0] + count_sum(c.drop_first())
    }
}

/// Total quantity a choice vector draws from a catalog: so many copies of
/// each catalog packet as its position of `c` says.
pub open spec fn sel_qty(s: Seq<Packet>, c: Seq<nat>) -> int
    decreases s.len(),
{
    if s.len() == 0 {
        0
    } else {
        c[0] * s[0].quantity + sel_qty(s.drop_first(), c.drop_first())
    }
}

/// Total price of the same choice.
pub open spec fn sel_cost(s: Seq<Packet>, c: Seq<nat>) -> int
    decreases s.len(),
{
    if s.len() == 0 {
        0
    } else {
        c[0] * s[0].price + sel_cost(s.drop_first(), c.drop_first())
    }
}

/// A choice vector that solves the problem: one count per catalog packet, at
/// most `m` packets in total, and exactly quantity `t` delivered.
pub open spec fn valid_sel(s: Seq<Packet>, m: int, t: int, c: Seq<nat>) -> bool {
    c.len() == s.len() && count_sum(c) <= m && sel_qty(s, c) == t
}

/// Some choice vector solves the problem.
pub open spec fn feasible(s: Seq<Packet>, m: int, t: int) -> bool {
    exists|c: Seq<nat>| #[trigger] valid_sel(s, m, t, c)
}

/// `k` is the least cost any solving choice vector reaches.
pub open spec fn min_cost_is(s: Seq<Packet>, m: int, t: int, k: int) -> bool {
    &&& exists|c: Seq<nat>| #[trigger] valid_sel(s, m, t, c) && sel_cost(s, c) == k
    &&& forall|c: Seq<nat>| #[trigger] valid_sel(s, m, t, c) ==> sel_cost(s, c) >= k
}

/// A choice takes a non-negative number of packets.
pub proof fn lemma_count_nonneg(c: Seq<nat>)
    ensures
        count_sum(c) >= 0,
    decreases c.len(),
{
    if c.len() > 0 {
        lemma_count_nonneg(c.drop_first());
    }
}

/// Choice sums are sums of non-negative terms.
pub proof fn lemma_sel_nonneg(s: Seq<Packet>, c: Seq<nat>)
    ensures
        count_sum(c) >= 0,
        sel_qty(s, c) >= 0,
        sel_cost(s, c) >= 0,
    decreases s.len(),
{
    lemma_count_nonneg(c);
    if s.len() > 0 {
        lemma_sel_nonneg(s.drop_first(), c.drop_first());
        assert(c[0] * s[0].quantity >= 0) by (nonlinear_arith)
            requires
                c[0] >= 0,
                s[0].quantity >= 0,
        ;
        assert(c[0] * s[0].price >= 0) by (nonlinear_arith)
            requires
                c[0] >= 0,
                s[0].price >= 0,
        ;
    }
}

/// A choice that takes no packet delivers nothing.
pub proof fn lemma_sel_all_zero(s: Seq<Packet>, c: Seq<nat>)
    requires
        c.len() == s.len(),
        count_sum(c) == 0,
    ensures
        sel_qty(s, c) == 0,
        sel_cost(s, c) == 0,
    decreases s.len(),
{
    if s.len() > 0 {
        lemma_count_nonneg(c.drop_first());
        assert(c[0] + count_sum(c.drop_first()) == 0);
        assert(c[0] == 0);
        assert(c[0] * s[0].quantity == 0) by (nonlinear_arith)
            requires
                c[0] == 0,
        ;
        assert(c[0] * s[0].price == 0) by (nonlinear_arith)
            requires
                c[0] == 0,
        ;
        lemma_sel_all_zero(s.drop_first(), c.drop_first());
    }
}

/// Prepending a count for a fresh front packet adds its contribution.
pub proof fn lemma_sel_cons(s: Seq<Packet>, k: nat, c: Seq<nat>)
    requires
        s.len() >= 1,
        c.len() == s.len() - 1,
    ensures
        (seq![k] + c).len() == s.len(),
        count_sum(seq![k] + c) == k + count_sum(c),
        sel_qty(s, seq![k] + c) == k * s[0].quantity + sel_qty(s.drop_first(), c),
        sel_cost(s, seq![k] + c) == k * s[0].price + sel_cost(s.drop_first(), c),
{
    let full = seq![k] + c;
    assert(full[0] == k);
    assert(full.drop_first() =~= c);
}

/// The whole catalog's choices decompose across its front packet.
pub proof fn lemma_sel_split(s: Seq<Packet>, c: Seq<nat>)
    requires
        s.len() >= 1,
        c.len() == s.len(),
    ensures
        count_sum(c) == c[0] + count_sum(c.drop_first()),
        sel_qty(s, c) == c[0] * s[0].quantity + sel_qty(s.drop_first(), c.drop_first()),
        sel_cost(s, c) == c[0] * s[0].price + sel_cost(s.drop_first(), c.drop_first()),
{
}

/// The choice vector that takes nothing at all.
pub open spec fn zero_choice(n: nat) -> Seq<nat> {
    Seq::new(n, |i: int| 0nat)
}

/// Taking nothing sums to nothing.
pub proof fn lemma_zero_choice(s: Seq<Packet>)
    ensures
        zero_choice(s.len()).len() == s.len(),
        count_sum(zero_choice(s.len())) == 0,
        sel_qty(s, zero_choice(s.len())) == 0,
        sel_cost(s, zero_choice(s.len())) == 0,
{
    lemma_count_zero_choice(s.len());
    lemma_sel_all_zero(s, zero_choice(s.len()));
}

proof fn lemma_count_zero_choice(n: nat)
    ensures
        count_sum(zero_choice(n)) == 0,
    decreases n,
{
    if n > 0 {
        lemma_count_zero_choice((n - 1) as nat);
        assert(zero_choice(n).drop_first() =~= zero_choice((n - 1) as nat));
    }
}

/// The front packet of a ranked catalog is best: any choice's cost, scaled by
/// the front quantity, covers the delivered quantity priced at the front rate.
pub proof fn lemma_front_rate_bound(s: Seq<Packet>, c: Seq<nat>, p0: Packet)
    requires
        c.len() == s.len(),
        p0.quantity >= 1,
        forall|i: int|
            0 <= i < s.len() ==> p0.price * (#[trigger] s[i]).quantity <= s[i].price * p0.quantity,
    ensures
        sel_cost(s, c) * p0.quantity >= sel_qty(s, c) * p0.price,
    decreases s.len(),
{
    if s.len() == 0 {
    } else {
        assert forall|i: int| 0 <= i < s.drop_first().len() implies p0.price * (
        #[trigger] s.drop_first()[i]).quantity <= s.drop_first()[i].price * p0.quantity by {
            assert(s.drop_first()[i] == s[i + 1]);
        }
        lemma_front_rate_bound(s.drop_first(), c.drop_first(), p0);
        let k = c[0] as int;
        let sp = s[0].price as int;
        let sq = s[0].quantity as int;
        let pp = p0.price as int;
        let pq = p0.quantity as int;
        let rc = sel_cost(s.drop_first(), c.drop_first());
        let rq = sel_qty(s.drop_first(), c.drop_first());
        assert((k * sp + rc) * pq >= (k * sq + rq) * pp) by (nonlinear_arith)
            requires
                rc * pq >= rq * pp,
                pp * sq <= sp * pq,
                k >= 0,
        ;
    }
}

/// Loosening the packet budget keeps every solution a solution: the problem
/// stays feasible and its least cost cannot rise.
pub proof fn lemma_budget_monotonic(s: Seq<Packet>, m1: int, m2: int, t: int, k1: int, k2: int)
    requires
        m1 <= m2,
        min_cost_is(s, m1, t, k1),
        min_cost_is(s, m2, t, k2),
    ensures
        feasible(s, m2, t),
        k2 <= k1,
{
    let c = choose|c: Seq<nat>| #[trigger] valid_sel(s, m1, t, c) && sel_cost(s, c) == k1;
    assert(valid_sel(s, m2, t, c));
}

/// Loosening the packet budget never makes a feasible problem infeasible.
pub proof fn lemma_budget_monotonic_feasible(s: Seq<Packet>, m1: int, m2: int, t: int)
    requires
        m1 <= m2,
        feasible(s, m1, t),
    ensures
        feasible(s, m2, t),
{
    let c = choose|c: Seq<nat>| #[trigger] valid_sel(s, m1, t, c);
    assert(valid_sel(s, m2, t, c));
}

} // verus!
