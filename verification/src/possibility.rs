use vstd::prelude::*;
use crate::packet::Packet;

verus! {

/// Total price of a run of packets, one contribution per chosen unit.
pub open spec fn cost_of(ps: Seq<Packet>) -> int
    decreases ps.len(),
{
    if ps.len() == 0 {
        0
    } else {
        ps[0].price + cost_of(ps.drop_first())
    }
}

/// Total quantity delivered by a run of packets.
pub open spec fn qty_of(ps: Seq<Packet>) -> int
    decreases ps.len(),
{
    if ps.len() == 0 {
        0
    } else {
        ps[0].quantity + qty_of(ps.drop_first())
    }
}

/// `n` copies of one packet.
pub open spec fn repeat(p: Packet, n: nat) -> Seq<Packet> {
    Seq::new(n, |i: int| p)
}

/// The packet run a choice vector stands for: for each position, that many
/// copies of the packet at the same position of the catalog, in order.
pub open spec fn chosen_run(avail: Seq<Packet>, choices: Seq<usize>) -> Seq<Packet>
    decreases choices.len(),
{
    if choices.len() == 0 {
        Seq::empty()
    } else {
        chosen_run(avail, choices.drop_last()) + repeat(
            avail[choices.len() - 1],
            choices.last() as nat,
        )
    }
}

/// Cost and quantity split over concatenation.
pub proof fn lemma_sum_concat(a: Seq<Packet>, b: Seq<Packet>)
    ensures
        cost_of(a + b) == cost_of(a) + cost_of(b),
        qty_of(a + b) == qty_of(a) + qty_of(b),
    decreases a.len(),
{
    if a.len() == 0 {
        assert(a + b =~= b);
    } else {
        lemma_sum_concat(a.drop_first(), b);
        assert((a + b).drop_first() =~= a.drop_first() + b);
    }
}

/// Cost and quantity of `n` copies of one packet.
pub proof fn lemma_sum_repeat(p: Packet, n: nat)
    ensures
        cost_of(repeat(p, n)) == n * p.price,
        qty_of(repeat(p, n)) == n * p.quantity,
    decreases n,
{
    if n == 0 {
    } else {
        lemma_sum_repeat(p, (n - 1) as nat);
        assert(repeat(p, n).drop_first() =~= repeat(p, (n - 1) as nat));
        assert(n * p.price == (n - 1) * p.price + p.price) by (nonlinear_arith);
        assert(n * p.quantity == (n - 1) * p.quantity + p.quantity) by (nonlinear_arith);
    }
}

/// Cost and quantity grow by the pushed packet.
pub proof fn lemma_sum_push(ps: Seq<Packet>, p: Packet)
    ensures
        cost_of(ps.push(p)) == cost_of(ps) + p.price,
        qty_of(ps.push(p)) == qty_of(ps) + p.quantity,
{
    assert(ps.push(p) =~= ps + seq![p]);
    lemma_sum_concat(ps, seq![p]);
    assert(seq![p].drop_first() =~= Seq::<Packet>::empty());
    assert(seq![p][0] == p);
    assert(cost_of(seq![p]) == p.price + cost_of(seq![p].drop_first()));
    assert(qty_of(seq![p]) == p.quantity + qty_of(seq![p].drop_first()));
    assert(cost_of(Seq::<Packet>::empty()) == 0);
    assert(qty_of(Seq::<Packet>::empty()) == 0);
}

/// Cost and quantity are sums of non-negative terms.
pub proof fn lemma_sum_nonneg(ps: Seq<Packet>)
    ensures
        cost_of(ps) >= 0,
        qty_of(ps) >= 0,
    decreases ps.len(),
{
    if ps.len() > 0 {
        lemma_sum_nonneg(ps.drop_first());
    }
}

/// An ordered accumulation of chosen packets, with its aggregate cost.
/// Repeats are allowed: the same packet may be chosen many times.
pub struct Possibility {
    pub packet_list: Vec<Packet>,
}

impl Possibility {
    /// Builds the selection that takes, for each position of `choices`, that
    /// many copies of the packet at the same position of `available_packets`.
    pub fn new(available_packets: &Vec<Packet>, choices: Vec<usize>) -> (r: Possibility)
        requires
            choices@.len() <= available_packets@.len(),
        ensures
            r.packet_list@ == chosen_run(available_packets@, choices@),
    {
        let mut new_possibility = Possibility { packet_list: Vec::new() };
        let mut index: usize = 0;
        while index < choices.len()
            invariant
                index <= choices@.len(),
                choices@.len() <= available_packets@.len(),
                new_possibility.packet_list@ == chosen_run(
                    available_packets@,
                    choices@.take(index as int),
                ),
            decreases choices.len() - index,
        {
            let packet_quantity = choices[index];
            let packet = available_packets[index];
            let ghost before = new_possibility.packet_list@;
            let mut count: usize = 0;
            while count < packet_quantity
                invariant
                    count <= packet_quantity,
                    packet == available_packets@[index as int],
                    new_possibility.packet_list@ == before + repeat(packet, count as nat),
                decreases packet_quantity - count,
            {
                new_possibility.packet_list.push(packet);
                proof {
                    assert(before + repeat(packet, (count + 1) as nat) =~= (before + repeat(
                        packet,
                        count as nat,
                    )).push(packet));
                }
                count += 1;
            }
            proof {
                let taken = choices@.take(index + 1);
                assert(taken.drop_last() =~= choices@.take(index as int));
                assert(taken.last() == choices@[index as int]);
                assert(taken.len() - 1 == index);
            }
            index += 1;
        }
        proof {
            assert(choices@.take(choices@.len() as int) =~= choices@);
        }
        new_possibility
    }

    /// The sum of the chosen packets' prices, one contribution per unit.
    pub fn total_cost(&self) -> (r: usize)
        requires
            cost_of(self.packet_list@) <= usize::MAX,
        ensures
            r == cost_of(self.packet_list@),
    {
        let mut sum: usize = 0;
        let mut index: usize = 0;
        while index < self.packet_list.len()
            invariant
                index <= self.packet_list@.len(),
                cost_of(self.packet_list@) <= usize::MAX,
                sum == cost_of(self.packet_list@.take(index as int)),
            decreases self.packet_list.len() - index,
        {
            let packet = self.packet_list[index];
            proof {
                lemma_sum_push(self.packet_list@.take(index as int), packet);
                assert(self.packet_list@.take(index + 1) =~= self.packet_list@.take(
                    index as int,
                ).push(packet));
                lemma_sum_take_bound(self.packet_list@, index + 1);
            }
            sum = sum + packet.price;
            index += 1;
        }
        proof {
            assert(self.packet_list@.take(self.packet_list@.len() as int) =~= self.packet_list@);
        }
        sum
    }

    /// Appends the other selection's packets to this one's, in order.
    pub fn merge(&mut self, other: &Possibility)
        ensures
            final(self).packet_list@ == old(self).packet_list@ + other.packet_list@,
    {
        let mut index: usize = 0;
        while index < other.packet_list.len()
            invariant
                index <= other.packet_list@.len(),
                self.packet_list@ == old(self).packet_list@ + other.packet_list@.take(
                    index as int,
                ),
            decreases other.packet_list.len() - index,
        {
            let packet = other.packet_list[index];
            self.packet_list.push(packet);
            proof {
                assert(old(self).packet_list@ + other.packet_list@.take(index + 1) =~= (old(
                    self,
                ).packet_list@ + other.packet_list@.take(index as int)).push(packet));
            }
            index += 1;
        }
        proof {
            assert(other.packet_list@.take(other.packet_list@.len() as int)
                =~= other.packet_list@);
        }
    }
}

/// A one-entry choice vector stands for so many copies of the front packet.
pub proof fn lemma_single_choice(avail: Seq<Packet>, k: usize)
    requires
        avail.len() >= 1,
    ensures
        chosen_run(avail, seq![k]) == repeat(avail[0], k as nat),
{
    assert(seq![k].drop_last() =~= Seq::<usize>::empty());
    assert(chosen_run(avail, Seq::<usize>::empty()) =~= Seq::<Packet>::empty());
    assert(seq![k].last() == k);
    assert(chosen_run(avail, seq![k]) =~= Seq::<Packet>::empty() + repeat(avail[0], k as nat));
    assert(Seq::<Packet>::empty() + repeat(avail[0], k as nat) =~= repeat(avail[0], k as nat));
}

/// A prefix never costs more than the whole run.
pub proof fn lemma_sum_take_bound(ps: Seq<Packet>, i: int)
    requires
        0 <= i <= ps.len(),
    ensures
        cost_of(ps.take(i)) <= cost_of(ps),
        qty_of(ps.take(i)) <= qty_of(ps),
{
    assert(ps =~= ps.take(i) + ps.skip(i));
    lemma_sum_concat(ps.take(i), ps.skip(i));
    lemma_sum_nonneg(ps.skip(i));
}

} // verus!
