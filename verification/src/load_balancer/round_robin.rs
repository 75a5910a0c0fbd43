//! Choosing the upstreams in turn.

use crate::load_balancer::{
    cell_urls, load_urls, new_url_cell, store_urls, urls, urls_of, ClientAddr, LoadBalancer,
    UrlCell, WeightedUpstream,
};
use crate::text::texts;
use vstd::prelude::*;
use vstd::string::*;

verus! {

/// Chooses the upstreams in turn.
#[derive(Debug)]
pub struct RoundRobinBalancer {
    upstreams: UrlCell,
    current: usize,
}

/// A counter after one more step; it starts over at its limit.
pub open spec fn advanced(n: usize) -> usize {
    if n == usize::MAX {
        0
    } else {
        (n + 1) as usize
    }
}

impl RoundRobinBalancer {
    /// The upstreams, by their URL.
    pub closed spec fn urls(&self) -> Seq<Seq<char>> {
        cell_urls(self.upstreams)
    }

    /// The number of choices made so far.
    pub closed spec fn position(&self) -> usize {
        self.current
    }

    /// A balancer that begins with the first upstream.
    pub fn new(upstreams: Vec<String>) -> (b: Self)
        ensures
            b.urls() == texts(upstreams@),
            b.position() == 0,
    {
        RoundRobinBalancer { upstreams: new_url_cell(upstreams), current: 0 }
    }
}

impl LoadBalancer for RoundRobinBalancer {
    open spec fn candidates(&self) -> Seq<Seq<char>> {
        self.urls()
    }

    open spec fn candidates_of(upstreams: Seq<WeightedUpstream>) -> Seq<Seq<char>> {
        urls_of(upstreams)
    }

    open spec fn accepts(upstreams: Seq<WeightedUpstream>) -> bool {
        true
    }

    open spec fn needs_client(&self) -> bool {
        false
    }

    /// Chooses the upstream whose turn it is.
    fn select(&mut self, client_ip: Option<&ClientAddr>) -> (chosen: Option<String>)
        ensures
            final(self).urls() == old(self).urls(),
            match chosen {
                None => old(self).urls().len() == 0 && final(self).position() == old(
                    self,
                ).position(),
                Some(url) => {
                    &&& old(self).urls().len() > 0
                    &&& url@ == old(self).urls()[old(self).position() as int % old(
                        self,
                    ).urls().len() as int]
                    &&& final(self).position() == advanced(old(self).position())
                },
            },
    {
        let list = load_urls(&self.upstreams);
        assert(list@.len() == texts(list@).len());
        if list.len() == 0 {
            return None;
        }
        let index: usize = self.current % list.len();
        self.current = self.current.wrapping_add(1);
        assert(self.urls()[index as int] == list@[index as int]@);
        assert(self.urls().contains(list@[index as int]@));
        Some(list[index].clone())
    }

    /// Replaces the upstreams. The turn is not reset, so that frequent updates do not favour the
    /// first upstream.
    fn update_upstreams(&mut self, new_upstreams: Vec<WeightedUpstream>)
        ensures
            final(self).urls() == urls_of(new_upstreams@),
            final(self).position() == old(self).position(),
    {
        store_urls(&mut self.upstreams, urls(&new_upstreams));
    }
}

// ----- laws -----

/// The upstream that is chosen after `k` more choices, counted from `position`.
pub open spec fn choice_after(len: nat, position: usize, k: nat) -> int
    recommends
        len > 0,
{
    (position + k) % len as int
}

/// The upstream at `i` is chosen within as many choices in a row as there are upstreams.
pub open spec fn gets_a_turn(len: nat, position: usize, i: int) -> bool {
    exists|k: nat| k < len && #[trigger] choice_after(len, position, k) == i
}

/// In as many choices in a row as there are upstreams, each upstream is chosen once. The counter
/// is taken not to reach its limit meanwhile.
pub proof fn lemma_each_chosen_once(len: nat, position: usize, i: int)
    requires
        0 <= i < len,
        position + len <= usize::MAX,
    ensures
        gets_a_turn(len, position, i),
        forall|k1: nat, k2: nat|
            k1 < len && k2 < len && #[trigger] choice_after(len, position, k1)
                == #[trigger] choice_after(len, position, k2) ==> k1 == k2,
{
    let p = position as int;
    let n = len as int;
    let r = p % n;
    let k: nat = if i >= r {
        (i - r) as nat
    } else {
        (i - r + n) as nat
    };
    assert(choice_after(len, position, k) == i) by {
        lemma_residue(p, n, k as int, if i >= r { 0 } else { 1 });
    }
    assert forall|k1: nat, k2: nat|
        k1 < len && k2 < len && #[trigger] choice_after(len, position, k1)
            == #[trigger] choice_after(len, position, k2) implies k1 == k2 by {
        let a = (p + k1) / n;
        let b = (p + k2) / n;
        vstd::arithmetic::div_mod::lemma_fundamental_div_mod(p + k1, n);
        vstd::arithmetic::div_mod::lemma_fundamental_div_mod(p + k2, n);
        assert(k1 - k2 == n * a - n * b);
        assert(n * a - n * b == n * (a - b)) by (nonlinear_arith);
        assert(a == b) by (nonlinear_arith)
            requires
                n > 0,
                -n < n * (a - b) < n,
        ;
    }
}

/// The remainder of `p + k` where `p % n + k` lies in the given turn.
proof fn lemma_residue(p: int, n: int, k: int, turn: int)
    requires
        n > 0,
        0 <= p % n + k - n * turn < n,
    ensures
        (p + k) % n == p % n + k - n * turn,
{
    vstd::arithmetic::div_mod::lemma_fundamental_div_mod(p, n);
    let r = p % n + k - n * turn;
    let q = p / n + turn;
    assert(n * q == n * (p / n) + n * turn) by (nonlinear_arith)
        requires
            q == p / n + turn,
    ;
    assert(n * q == q * n) by (nonlinear_arith);
    assert(p + k == q * n + r);
    vstd::arithmetic::div_mod::lemma_fundamental_div_mod_converse(p + k, n, q, r);
}

/// With one choice more than there are upstreams the turn comes round to the first of them.
pub proof fn lemma_turn_comes_round(len: nat, position: usize, k: nat)
    requires
        len > 0,
    ensures
        choice_after(len, position, k + len) == choice_after(len, position, k),
{
    vstd::arithmetic::div_mod::lemma_mod_add_multiples_vanish(position + k, len as int);
}

/// The counter goes up by one, from its limit to 0.
pub proof fn lemma_counter_goes_round(n: usize)
    ensures
        advanced(n) as int == (n + 1) % (usize::MAX + 1),
{
    if n == usize::MAX {
        vstd::arithmetic::div_mod::lemma_mod_self_0(usize::MAX + 1);
    } else {
        vstd::arithmetic::div_mod::lemma_small_mod((n + 1) as nat, (usize::MAX + 1) as nat);
    }
}

} // verus!
