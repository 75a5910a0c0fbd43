//! Choosing the upstream by the address of the client.

use crate::load_balancer::{
    cell_urls, load_urls, new_url_cell, store_urls, urls, urls_of, ClientAddr, LoadBalancer,
    UrlCell, WeightedUpstream,
};
use crate::text::texts;
use vstd::prelude::*;
use vstd::string::*;

verus! {

/// Sends each client to an upstream of its own, as long as the upstreams stay the same.
#[derive(Debug)]
pub struct IpHashBalancer {
    upstreams: UrlCell,
}

/// The hash with which the walk over the bytes begins.
pub const HASH_BASIS: u64 = 0xcbf2_9ce4_8422_2325;

/// The factor of each step.
pub const HASH_PRIME: u64 = 0x0000_0100_0000_01b3;

/// The FNV-1a hash of the bytes, in 64 bits.
pub open spec fn hash_of(bytes: Seq<u8>) -> u64
    decreases bytes.len(),
{
    if bytes.len() == 0 {
        HASH_BASIS
    } else {
        let mixed = hash_of(bytes.drop_last()) ^ (bytes.last() as u64);
        ((mixed * HASH_PRIME) % 0x1_0000_0000_0000_0000) as u64
    }
}

/// The hash of the bytes.
fn hash_bytes(bytes: &Vec<u8>) -> (hash: u64)
    ensures
        hash == hash_of(bytes@),
{
    let mut hash: u64 = HASH_BASIS;
    let mut i: usize = 0;
    assert(bytes@.take(0) =~= Seq::<u8>::empty());
    while i < bytes.len()
        invariant
            i <= bytes@.len(),
            hash == hash_of(bytes@.take(i as int)),
        decreases bytes@.len() - i,
    {
        let mixed: u64 = hash ^ (bytes[i] as u64);
        assert(bytes@.take(i + 1).drop_last() =~= bytes@.take(i as int));
        hash = mixed.wrapping_mul(HASH_PRIME);
        i = i + 1;
    }
    assert(bytes@.take(i as int) =~= bytes@);
    hash
}

impl IpHashBalancer {
    /// The upstreams, by their URL.
    pub closed spec fn urls(&self) -> Seq<Seq<char>> {
        cell_urls(self.upstreams)
    }

    /// A balancer over the given upstreams.
    pub fn new(upstreams: Vec<String>) -> (b: Self)
        ensures
            b.urls() == texts(upstreams@),
    {
        IpHashBalancer { upstreams: new_url_cell(upstreams) }
    }
}

impl LoadBalancer for IpHashBalancer {
    open spec fn candidates(&self) -> Seq<Seq<char>> {
        self.urls()
    }

    open spec fn candidates_of(upstreams: Seq<WeightedUpstream>) -> Seq<Seq<char>> {
        urls_of(upstreams)
    }

    open spec fn accepts(upstreams: Seq<WeightedUpstream>) -> bool {
        true
    }

    open spec fn needs_client(&self) -> bool {
        true
    }

    /// Chooses the upstream that the client's address falls on; the port has no part in it.
    fn select(&mut self, client_ip: Option<&ClientAddr>) -> (chosen: Option<String>)
        ensures
            *final(self) == *old(self),
            match chosen {
                None => old(self).urls().len() == 0 || client_ip is None,
                Some(url) => {
                    &&& old(self).urls().len() > 0
                    &&& client_ip matches Some(client) && url@ == old(self).urls()[hash_of(
                        client.ip@,
                    ) as int % old(self).urls().len() as int]
                },
            },
    {
        let list = load_urls(&self.upstreams);
        assert(list@.len() == texts(list@).len());
        if list.len() == 0 {
            return None;
        }
        match client_ip {
            Some(client) => {
                let hash: u64 = hash_bytes(&client.ip);
                let index: usize = (hash % (list.len() as u64)) as usize;
                assert(self.urls()[index as int] == list@[index as int]@);
                assert(self.urls().contains(list@[index as int]@));
                Some(list[index].clone())
            },
            None => None,
        }
    }

    /// Replaces the upstreams; their weights have no part in the choice.
    fn update_upstreams(&mut self, new_upstreams: Vec<WeightedUpstream>)
        ensures
            final(self).urls() == urls_of(new_upstreams@),
    {
        store_urls(&mut self.upstreams, urls(&new_upstreams));
    }
}

// ----- laws -----

/// The hash of no bytes is the basis, and one more byte is mixed into the hash of those before it:
/// the lowest bits are flipped by the byte, then the whole is multiplied by the prime, in 64 bits.
pub proof fn lemma_hash_step(bytes: Seq<u8>, next: u8)
    ensures
        hash_of(Seq::<u8>::empty()) == 14695981039346656037u64,
        hash_of(bytes.push(next)) as int == ((hash_of(bytes) ^ (next as u64)) * 1099511628211)
            % 0x1_0000_0000_0000_0000,
{
    assert(bytes.push(next).drop_last() =~= bytes);
}

} // verus!
