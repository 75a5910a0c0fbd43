//! Choosing an upstream at random, in proportion to its weight.

use crate::load_balancer::{urls_of, ClientAddr, LoadBalancer, WeightedUpstream};
use arc_swap::ArcSwap;
use rand::Rng;
use std::sync::Arc;
use vstd::prelude::*;
use vstd::string::*;

verus! {

/// The sum of the weights.
pub open spec fn total(upstreams: Seq<WeightedUpstream>) -> nat
    decreases upstreams.len(),
{
    if upstreams.len() == 0 {
        0
    } else {
        total(upstreams.drop_last()) + upstreams.last().weight as nat
    }
}

/// The upstream has a weight.
pub open spec fn has_weight() -> spec_fn(WeightedUpstream) -> bool {
    |u: WeightedUpstream| u.weight > 0
}

/// The upstreams that have a weight.
pub open spec fn active(upstreams: Seq<WeightedUpstream>) -> Seq<WeightedUpstream> {
    upstreams.filter(has_weight())
}

/// The upstream at `index` is the one that `draw` falls on: the weights of the upstreams before it
/// add up to less, and with its own to `draw` or more.
pub open spec fn falls_on(upstreams: Seq<WeightedUpstream>, draw: int, index: int) -> bool {
    &&& 0 <= index < upstreams.len()
    &&& total(upstreams.take(index)) < draw <= total(upstreams.take(index + 1))
}

proof fn lemma_total_push(s: Seq<WeightedUpstream>, i: int)
    requires
        0 <= i < s.len(),
    ensures
        total(s.take(i + 1)) == total(s.take(i)) + s[i].weight,
{
    assert(s.take(i + 1).drop_last() =~= s.take(i));
}

/// The sum over the first upstreams grows with their number.
pub proof fn lemma_total_monotonic(s: Seq<WeightedUpstream>, i: int, j: int)
    requires
        0 <= i <= j <= s.len(),
    ensures
        total(s.take(i)) <= total(s.take(j)),
    decreases j - i,
{
    if i < j {
        lemma_total_monotonic(s, i, j - 1);
        lemma_total_push(s, j - 1);
    }
}

proof fn lemma_total_active(s: Seq<WeightedUpstream>)
    ensures
        total(active(s)) == total(s),
        forall|i: int| 0 <= i < active(s).len() ==> (#[trigger] active(s)[i]).weight > 0,
    decreases s.len(),
{
    reveal(Seq::filter);
    if s.len() > 0 {
        lemma_total_active(s.drop_last());
        if s.last().weight > 0 {
            let grown = active(s.drop_last()).push(s.last());
            assert(grown.drop_last() =~= active(s.drop_last()));
        }
    }
}

/// A table of the upstreams from which one is drawn.
#[derive(Debug)]
pub struct WeightedRandomBalancerInner {
    upstreams: Vec<WeightedUpstream>,
    prefix_sums: Vec<u32>,
    total_weight: u32,
}

/// Trusted: `rand::Rng::gen_range` on `rand::thread_rng` returns a number within the bounds. Which
/// one is left to chance, so nothing more is said of it.
#[verifier::external_body]
fn draw_up_to(bound: u32) -> (draw: u32)
    requires
        bound >= 1,
    ensures
        1 <= draw <= bound,
{
    rand::thread_rng().gen_range(1..=bound)
}

impl WeightedRandomBalancerInner {
    /// The upstreams that can be drawn.
    pub closed spec fn view(&self) -> Seq<WeightedUpstream> {
        self.upstreams@
    }

    #[verifier::type_invariant]
    spec fn well_formed(self) -> bool {
        &&& self.prefix_sums@.len() == self.upstreams@.len()
        &&& self.total_weight == total(self.upstreams@)
        &&& forall|i: int|
            0 <= i < self.upstreams@.len() ==> (#[trigger] self.upstreams@[i]).weight > 0
        &&& forall|i: int|
            0 <= i < self.prefix_sums@.len() ==> #[trigger] self.prefix_sums@[i] == total(
                self.upstreams@.take(i + 1),
            )
    }

    /// The upstreams that have a weight, with the sums up to each of them.
    pub fn new(upstreams: Vec<WeightedUpstream>) -> (inner: Self)
        requires
            total(upstreams@) <= u32::MAX,
        ensures
            inner@ == active(upstreams@),
    {
        let mut kept: Vec<WeightedUpstream> = Vec::new();
        let mut prefix_sums: Vec<u32> = Vec::new();
        let mut total_weight: u32 = 0;
        let mut i: usize = 0;
        proof {
            reveal(Seq::filter);
            assert(kept@ =~= active(upstreams@.take(0)));
        }
        while i < upstreams.len()
            invariant
                i <= upstreams@.len(),
                total(upstreams@) <= u32::MAX,
                kept@ == active(upstreams@.take(i as int)),
                total_weight == total(kept@),
                total_weight == total(upstreams@.take(i as int)),
                prefix_sums@.len() == kept@.len(),
                forall|k: int| 0 <= k < kept@.len() ==> (#[trigger] kept@[k]).weight > 0,
                forall|k: int|
                    0 <= k < prefix_sums@.len() ==> #[trigger] prefix_sums@[k] == total(
                        kept@.take(k + 1),
                    ),
            decreases upstreams@.len() - i,
        {
            let ghost seen = upstreams@.take(i as int);
            let ghost before = kept@;
            proof {
                lemma_total_push(upstreams@, i as int);
                lemma_total_monotonic(upstreams@, i + 1, upstreams@.len() as int);
                assert(upstreams@.take(upstreams@.len() as int) =~= upstreams@);
                assert(upstreams@.take(i + 1) =~= seen.push(upstreams@[i as int]));
                assert(seen.push(upstreams@[i as int]).drop_last() =~= seen);
                reveal(Seq::filter);
            }
            if upstreams[i].weight > 0 {
                kept.push(upstreams[i].clone());
                total_weight = total_weight + upstreams[i].weight;
                prefix_sums.push(total_weight);
                proof {
                    assert(kept@ =~= before.push(upstreams@[i as int]));
                    assert(kept@.drop_last() =~= before);
                    assert(kept@.take(kept@.len() as int) =~= kept@);
                    assert forall|k: int| 0 <= k < prefix_sums@.len() implies #[trigger]
                        prefix_sums@[k] == total(kept@.take(k + 1)) by {
                        if k < before.len() {
                            assert(kept@.take(k + 1) =~= before.take(k + 1));
                        }
                    }
                }
            }
            i = i + 1;
        }
        assert(upstreams@.take(i as int) =~= upstreams@);
        WeightedRandomBalancerInner { upstreams: kept, prefix_sums, total_weight }
    }

    /// The upstream that a draw falls on.
    pub fn pick(&self, draw: u32) -> (index: usize)
        requires
            1 <= draw <= total(self@),
        ensures
            falls_on(self@, draw as int, index as int),
    {
        proof {
            use_type_invariant(self);
        }
        let ghost ups = self.upstreams@;
        let len: usize = self.prefix_sums.len();
        proof {
            assert(ups.take(0) =~= Seq::<WeightedUpstream>::empty());
            assert(ups.take(len as int) =~= ups);
            if len == 0 {
                assert(ups =~= Seq::<WeightedUpstream>::empty());
            }
        }
        let mut low: usize = 0;
        let mut high: usize = len - 1;
        while low < high
            invariant
                low <= high < len,
                len == self.prefix_sums@.len(),
                len == ups.len(),
                ups == self.upstreams@,
                total(ups.take(low as int)) < draw <= total(ups.take(high + 1)),
                forall|i: int|
                    0 <= i < self.prefix_sums@.len() ==> #[trigger] self.prefix_sums@[i] == total(
                        ups.take(i + 1),
                    ),
            decreases high - low,
        {
            let middle: usize = low + (high - low) / 2;
            if self.prefix_sums[middle] < draw {
                low = middle + 1;
            } else {
                high = middle;
            }
        }
        low
    }

    /// The number up to which draws go: the sum of the weights.
    pub fn draw_bound(&self) -> (bound: u32)
        ensures
            bound == total(self@),
    {
        proof {
            use_type_invariant(self);
        }
        self.total_weight
    }

    /// Draws an upstream at random, with every draw from 1 to the sum of the weights possible.
    /// Which one it is, is left to chance.
    pub fn select(&self) -> (chosen: Option<String>)
        ensures
            match chosen {
                None => self@.len() == 0,
                Some(url) => exists|draw: int, index: int|
                    #[trigger] falls_on(self@, draw, index) && url@ == self@[index].url@,
            },
    {
        proof {
            use_type_invariant(self);
            if self.upstreams@.len() > 0 {
                let ups = self.upstreams@;
                assert(ups.last() == ups[ups.len() - 1]);
            }
        }
        let bound: u32 = self.draw_bound();
        if self.upstreams.len() == 0 || bound == 0 {
            return None;
        }
        let draw: u32 = draw_up_to(bound);
        let index: usize = self.pick(draw);
        Some(self.upstreams[index].url.clone())
    }
}

/// A table of the upstreams that is replaced as a whole.
#[verifier::external_body]
#[derive(Debug)]
pub struct InnerCell {
    inner: ArcSwap<WeightedRandomBalancerInner>,
}

/// The upstreams that can be drawn from the table in the cell.
pub uninterp spec fn cell_upstreams(cell: InnerCell) -> Seq<WeightedUpstream>;

/// Trusted: `arc_swap::ArcSwap::from_pointee` makes a cell that holds the given value.
#[verifier::external_body]
fn new_inner_cell(inner: WeightedRandomBalancerInner) -> (cell: InnerCell)
    ensures
        cell_upstreams(cell) == inner@,
{
    InnerCell { inner: ArcSwap::from_pointee(inner) }
}

/// Trusted: `arc_swap::ArcSwapAny::load_full` returns the value that the cell holds.
#[verifier::external_body]
fn load_inner(cell: &InnerCell) -> (inner: Arc<WeightedRandomBalancerInner>)
    ensures
        inner@ == cell_upstreams(*cell),
{
    cell.inner.load_full()
}

/// Trusted: `arc_swap::ArcSwapAny::store` replaces the value of the cell by the given one.
#[verifier::external_body]
fn store_inner(cell: &mut InnerCell, inner: WeightedRandomBalancerInner)
    ensures
        cell_upstreams(*final(cell)) == inner@,
{
    cell.inner.store(Arc::new(inner));
}

/// Chooses an upstream at random, in proportion to its weight.
#[derive(Debug)]
pub struct WeightedRandomBalancer {
    inner: InnerCell,
}

impl WeightedRandomBalancer {
    /// The upstreams that can be chosen.
    pub closed spec fn view(&self) -> Seq<WeightedUpstream> {
        cell_upstreams(self.inner)
    }

    /// A balancer over the upstreams that have a weight.
    pub fn new(upstreams: Vec<WeightedUpstream>) -> (b: Self)
        requires
            total(upstreams@) <= u32::MAX,
        ensures
            b@ == active(upstreams@),
    {
        let inner = WeightedRandomBalancerInner::new(upstreams);
        WeightedRandomBalancer { inner: new_inner_cell(inner) }
    }

    /// Draws an upstream at random.
    pub fn select_inner(&self) -> (chosen: Option<String>)
        ensures
            match chosen {
                None => self@.len() == 0,
                Some(url) => exists|draw: int, index: int|
                    #[trigger] falls_on(self@, draw, index) && url@ == self@[index].url@,
            },
    {
        let inner = load_inner(&self.inner);
        assert(self@ == inner@);
        inner.select()
    }
}

impl LoadBalancer for WeightedRandomBalancer {
    open spec fn candidates(&self) -> Seq<Seq<char>> {
        urls_of(self@)
    }

    open spec fn candidates_of(upstreams: Seq<WeightedUpstream>) -> Seq<Seq<char>> {
        urls_of(active(upstreams))
    }

    open spec fn accepts(upstreams: Seq<WeightedUpstream>) -> bool {
        total(upstreams) <= u32::MAX
    }

    open spec fn needs_client(&self) -> bool {
        false
    }

    fn select(&mut self, client_ip: Option<&ClientAddr>) -> (chosen: Option<String>)
        ensures
            final(self)@ == old(self)@,
    {
        let chosen = self.select_inner();
        proof {
            if chosen is Some {
                let (draw, index) = choose|draw: int, index: int|
                    #[trigger] falls_on(self@, draw, index) && chosen->0@ == self@[index].url@;
                assert(urls_of(self@)[index] == chosen->0@);
            }
        }
        chosen
    }

    fn update_upstreams(&mut self, new_upstreams: Vec<WeightedUpstream>)
        ensures
            final(self)@ == active(new_upstreams@),
    {
        store_inner(&mut self.inner, WeightedRandomBalancerInner::new(new_upstreams));
    }
}

// ----- laws -----

/// A draw falls on one upstream only, and a row of draws as long as the upstream's weight falls on
/// it: with every draw from 1 to the sum of the weights equally likely, each upstream is chosen in
/// proportion to its weight.
pub proof fn lemma_draws_in_proportion(upstreams: Seq<WeightedUpstream>, index: int)
    requires
        0 <= index < upstreams.len(),
    ensures
        forall|draw: int| #[trigger]
            falls_on(upstreams, draw, index) <==> total(upstreams.take(index)) < draw <= total(
                upstreams.take(index),
            ) + upstreams[index].weight,
        forall|draw: int, other: int| #[trigger]
            falls_on(upstreams, draw, index) && #[trigger] falls_on(upstreams, draw, other)
                ==> other == index,
{
    lemma_total_push(upstreams, index);
    assert forall|draw: int, other: int| #[trigger]
        falls_on(upstreams, draw, index) && #[trigger] falls_on(
        upstreams,
        draw,
        other,
    ) implies other == index by {
        if other < index {
            lemma_total_monotonic(upstreams, other + 1, index);
        } else if index < other {
            lemma_total_monotonic(upstreams, index + 1, other);
        }
    }
}

/// Every draw from 1 to the sum of the weights falls on an upstream.
pub proof fn lemma_every_draw_falls(upstreams: Seq<WeightedUpstream>, draw: int)
    requires
        1 <= draw <= total(upstreams),
    ensures
        exists|index: int| #[trigger] falls_on(upstreams, draw, index),
    decreases upstreams.len(),
{
    let n = upstreams.len() as int;
    let front = upstreams.drop_last();
    assert(upstreams.take(n) =~= upstreams);
    assert(upstreams.take(n - 1) =~= front);
    if draw <= total(front) {
        lemma_every_draw_falls(front, draw);
        let index = choose|index: int| #[trigger] falls_on(front, draw, index);
        assert(front.take(index) =~= upstreams.take(index));
        assert(front.take(index + 1) =~= upstreams.take(index + 1));
        assert(falls_on(upstreams, draw, index));
    } else {
        assert(falls_on(upstreams, draw, n - 1));
    }
}

/// The upstreams that have a weight are among the given ones.
pub proof fn lemma_active_members(upstreams: Seq<WeightedUpstream>, index: int)
    requires
        0 <= index < active(upstreams).len(),
    ensures
        exists|i: int|
            0 <= i < upstreams.len() && #[trigger] upstreams[i] == active(upstreams)[index],
    decreases upstreams.len(),
{
    reveal(Seq::filter);
    if upstreams.len() > 0 {
        let front = upstreams.drop_last();
        if index < active(front).len() {
            lemma_active_members(front, index);
            let i = choose|i: int|
                0 <= i < front.len() && #[trigger] front[i] == active(front)[index];
            assert(upstreams[i] == active(upstreams)[index]);
        } else {
            assert(upstreams[upstreams.len() - 1] == active(upstreams)[index]);
        }
    }
}

/// Upstreams without a weight are never chosen, and leaving them out changes no sum.
pub proof fn lemma_active_keeps_total(upstreams: Seq<WeightedUpstream>)
    ensures
        total(active(upstreams)) == total(upstreams),
        forall|i: int|
            0 <= i < active(upstreams).len() ==> (#[trigger] active(upstreams)[i]).weight > 0,
{
    lemma_total_active(upstreams);
}

/// The weights of two lists in a row add up to the sum of the two sums, and that of a single
/// upstream to its weight.
pub proof fn lemma_total_in_a_row(
    a: Seq<WeightedUpstream>,
    b: Seq<WeightedUpstream>,
    one: WeightedUpstream,
)
    ensures
        total(a + b) == total(a) + total(b),
        total(seq![one]) == one.weight,
    decreases b.len(),
{
    if b.len() == 0 {
        assert(a + b =~= a);
    } else {
        assert((a + b).drop_last() =~= a + b.drop_last());
        lemma_total_in_a_row(a, b.drop_last(), one);
    }
    assert(seq![one].drop_last() =~= Seq::<WeightedUpstream>::empty());
    assert(total(seq![one].drop_last()) == 0);
}

/// One more upstream can be drawn exactly where it has a weight; it then stands at the end.
pub proof fn lemma_one_more_upstream(upstreams: Seq<WeightedUpstream>, one: WeightedUpstream)
    ensures
        active(Seq::<WeightedUpstream>::empty()).len() == 0,
        one.weight > 0 ==> active(upstreams.push(one)) == active(upstreams).push(one),
        one.weight == 0 ==> active(upstreams.push(one)) == active(upstreams),
{
    reveal(Seq::filter);
    assert(upstreams.push(one).drop_last() =~= upstreams);
}

/// Every upstream with a weight can be drawn, and some draw falls on it.
pub proof fn lemma_weight_can_be_drawn(upstreams: Seq<WeightedUpstream>, i: int)
    requires
        0 <= i < upstreams.len(),
        upstreams[i].weight > 0,
    ensures
        exists|draw: int, index: int| #[trigger]
            falls_on(active(upstreams), draw, index) && 1 <= draw <= total(upstreams)
                && active(upstreams)[index] == upstreams[i],
{
    let kept = active(upstreams);
    lemma_active_holds(upstreams, i);
    let index = choose|index: int|
        0 <= index < kept.len() && #[trigger] kept[index] == upstreams[i];
    lemma_total_push(kept, index);
    lemma_total_monotonic(kept, index + 1, kept.len() as int);
    assert(kept.take(kept.len() as int) =~= kept);
    lemma_total_active(upstreams);
    assert(falls_on(kept, total(kept.take(index + 1)) as int, index));
}

proof fn lemma_active_holds(upstreams: Seq<WeightedUpstream>, i: int)
    requires
        0 <= i < upstreams.len(),
        upstreams[i].weight > 0,
    ensures
        exists|index: int|
            0 <= index < active(upstreams).len() && #[trigger] active(upstreams)[index]
                == upstreams[i],
    decreases upstreams.len(),
{
    reveal(Seq::filter);
    let front = upstreams.drop_last();
    let kept = active(upstreams);
    if i < front.len() {
        lemma_active_holds(front, i);
        let index = choose|index: int|
            0 <= index < active(front).len() && #[trigger] active(front)[index] == front[i];
        assert(kept[index] == upstreams[i]);
    } else {
        assert(kept[kept.len() - 1] == upstreams[i]);
    }
}

} // verus!
