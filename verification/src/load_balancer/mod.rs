//! Choosing one upstream for each request.

pub mod ip_hash;
pub mod pool;
pub mod round_robin;
pub mod weighted_random;

use crate::text::texts;
use arc_swap::ArcSwap;
use std::sync::Arc;
use vstd::prelude::*;
use vstd::string::*;

pub use ip_hash::IpHashBalancer;
pub use round_robin::RoundRobinBalancer;
pub use weighted_random::WeightedRandomBalancer;

verus! {

/// An upstream and its weight.
#[derive(Debug)]
pub struct WeightedUpstream {
    pub url: String,
    pub weight: u32,
}

impl Clone for WeightedUpstream {
    fn clone(&self) -> (copy: Self)
        ensures
            copy == *self,
    {
        WeightedUpstream { url: self.url.clone(), weight: self.weight }
    }
}

/// The address that a request came from.
#[derive(Debug, Clone)]
pub struct ClientAddr {
    /// The bytes of the IP address, four or sixteen of them.
    pub ip: Vec<u8>,
    pub port: u16,
}

/// The URLs of the upstreams.
pub open spec fn urls_of(upstreams: Seq<WeightedUpstream>) -> Seq<Seq<char>> {
    Seq::new(upstreams.len(), |i: int| upstreams[i].url@)
}

/// URL and weight of each upstream.
pub open spec fn pairs(upstreams: Seq<WeightedUpstream>) -> Seq<(Seq<char>, u32)> {
    Seq::new(upstreams.len(), |i: int| (upstreams[i].url@, upstreams[i].weight))
}

/// The URLs of the upstreams.
pub fn urls(upstreams: &Vec<WeightedUpstream>) -> (list: Vec<String>)
    ensures
        texts(list@) == urls_of(upstreams@),
{
    let mut list: Vec<String> = Vec::new();
    let mut i: usize = 0;
    while i < upstreams.len()
        invariant
            i <= upstreams@.len(),
            list@.len() == i,
            forall|k: int| 0 <= k < i ==> (#[trigger] list@[k])@ == upstreams@[k].url@,
        decreases upstreams@.len() - i,
    {
        list.push(upstreams[i].url.clone());
        i = i + 1;
    }
    assert(texts(list@) =~= urls_of(upstreams@));
    list
}

/// A copy of the list.
pub fn copy_upstreams(upstreams: &Vec<WeightedUpstream>) -> (list: Vec<WeightedUpstream>)
    ensures
        list@ == upstreams@,
{
    let mut list: Vec<WeightedUpstream> = Vec::new();
    let mut i: usize = 0;
    while i < upstreams.len()
        invariant
            i <= upstreams@.len(),
            list@ == upstreams@.take(i as int),
        decreases upstreams@.len() - i,
    {
        list.push(upstreams[i].clone());
        assert(upstreams@.take(i + 1) =~= upstreams@.take(i as int).push(upstreams@[i as int]));
        i = i + 1;
    }
    assert(upstreams@.take(i as int) =~= upstreams@);
    list
}

/// A list of URLs that is replaced as a whole.
#[verifier::external_body]
#[derive(Debug)]
pub struct UrlCell {
    inner: ArcSwap<Vec<String>>,
}

/// The URLs that the cell holds.
pub uninterp spec fn cell_urls(cell: UrlCell) -> Seq<Seq<char>>;

/// Trusted: `arc_swap::ArcSwap::from_pointee` makes a cell that holds the given value.
#[verifier::external_body]
pub(crate) fn new_url_cell(list: Vec<String>) -> (cell: UrlCell)
    ensures
        cell_urls(cell) == texts(list@),
{
    UrlCell { inner: ArcSwap::from_pointee(list) }
}

/// Trusted: `arc_swap::ArcSwapAny::load_full` returns the value that the cell holds.
#[verifier::external_body]
pub(crate) fn load_urls(cell: &UrlCell) -> (list: Arc<Vec<String>>)
    ensures
        texts(list@) == cell_urls(*cell),
{
    cell.inner.load_full()
}

/// Trusted: `arc_swap::ArcSwapAny::store` replaces the value of the cell by the given one.
#[verifier::external_body]
pub(crate) fn store_urls(cell: &mut UrlCell, list: Vec<String>)
    ensures
        cell_urls(*final(cell)) == texts(list@),
{
    cell.inner.store(Arc::new(list));
}

/// A way to choose one upstream for each request.
pub trait LoadBalancer: Send + Sync {
    /// The upstreams that may be chosen, by their URL.
    spec fn candidates(&self) -> Seq<Seq<char>>;

    /// The candidates after an update with these upstreams.
    spec fn candidates_of(upstreams: Seq<WeightedUpstream>) -> Seq<Seq<char>>;

    /// Whether the balancer can take these upstreams.
    spec fn accepts(upstreams: Seq<WeightedUpstream>) -> bool;

    /// Whether the choice needs the address of the client.
    spec fn needs_client(&self) -> bool;

    /// Chooses an upstream. There is none to choose where there are no candidates, nor where the
    /// balancer needs the client's address and it is not known.
    fn select(&mut self, client_ip: Option<&ClientAddr>) -> (chosen: Option<String>)
        ensures
            final(self).candidates() == old(self).candidates(),
            final(self).needs_client() == old(self).needs_client(),
            chosen is None <==> old(self).candidates().len() == 0 || (old(self).needs_client()
                && client_ip is None),
            chosen matches Some(url) ==> old(self).candidates().contains(url@),
    ;

    /// Replaces the upstreams.
    fn update_upstreams(&mut self, new_upstreams: Vec<WeightedUpstream>)
        requires
            Self::accepts(new_upstreams@),
        ensures
            final(self).candidates() == Self::candidates_of(new_upstreams@),
            final(self).needs_client() == old(self).needs_client(),
    ;
}

} // verus!
