//! Which shard a stream belongs to.

use vstd::prelude::*;

use crate::be;
use crate::be::put_be;

verus! {

/// The 64-bit XXH3 hash of a byte string with the default secret and no seed,
/// as the `xxhash_rust` crate computes it.
pub uninterp spec fn xxh3(data: Seq<u8>) -> u64;

/// `xxhash_rust::xxh3::xxh3_64`: the hash, a function of the bytes alone.
#[verifier::external_body]
fn xxh3_hash(data: &[u8]) -> (h: u64)
    ensures
        h == xxh3(data@),
{
    xxhash_rust::xxh3::xxh3_64(data)
}

/// The shard that a hash falls to.
pub open spec fn shard_of_hash(hash: u64, num_shards: u16) -> int {
    hash as int % num_shards as int
}

/// Maps a hash to a shard index.
pub fn hash_to_shard(hash: u64, num_shards: u16) -> (shard: u16)
    requires
        num_shards > 0,
    ensures
        shard == shard_of_hash(hash, num_shards),
        shard < num_shards,
{
    (hash % num_shards as u64) as u16
}

/// Routes streams to shards by a stable hash of the stream id.
pub struct ShardRouter {
    num_shards: u16,
}

impl ShardRouter {
    /// The number of shards.
    pub closed spec fn shards(&self) -> u16 {
        self.num_shards
    }

    /// The shard that a stream belongs to: the one that the hash of its id falls
    /// to.
    pub open spec fn route(&self, stream_id: u64) -> int {
        shard_of_hash(xxh3(be::be_bytes(stream_id as nat, 8)), self.shards())
    }

    /// A router over a number of shards.
    pub fn new(num_shards: u16) -> (r: Self)
        ensures
            r.shards() == num_shards,
    {
        Self { num_shards }
    }

    /// Routes a stream id to a shard index.
    pub fn route_stream(&self, stream_id: u64) -> (shard: u16)
        requires
            self.shards() > 0,
        ensures
            shard == self.route(stream_id),
            shard < self.shards(),
    {
        let mut id: Vec<u8> = Vec::new();
        put_be(&mut id, stream_id, 8);
        assert(id@ =~= be::be_bytes(stream_id as nat, 8));
        hash_to_shard(xxh3_hash(id.as_slice()), self.num_shards)
    }

    /// Routers over the same number of shards send a stream to the same shard, and
    /// it is one of them.
    pub proof fn law_equal_routers_agree(&self, other: &Self, stream_id: u64)
        requires
            self.shards() == other.shards(),
            self.shards() > 0,
        ensures
            self.route(stream_id) == other.route(stream_id),
            0 <= self.route(stream_id) < self.shards(),
    {
    }

    /// The number of shards.
    pub fn num_shards(&self) -> (n: u16)
        ensures
            n == self.shards(),
    {
        self.num_shards
    }
}

/// A hash falls to the shard whose number it leaves as its remainder: to one of the
/// shards, and consecutive hashes to consecutive shards, over and over.
pub proof fn law_hashes_go_round(hash: u64, num_shards: u16)
    requires
        num_shards > 0,
    ensures
        0 <= shard_of_hash(hash, num_shards) < num_shards,
        hash < num_shards ==> shard_of_hash(hash, num_shards) == hash,
        hash >= num_shards ==> shard_of_hash(hash, num_shards) == shard_of_hash(
            (hash - num_shards) as u64,
            num_shards,
        ),
{
    let (h, n) = (hash as int, num_shards as int);
    if h < n {
        vstd::arithmetic::div_mod::lemma_small_mod(hash as nat, num_shards as nat);
    } else {
        vstd::arithmetic::div_mod::lemma_mod_sub_multiples_vanish(h, n);
    }
}

impl ShardRouter {
    /// A stream belongs to the shard to which the hash of its id falls, the id taken
    /// as eight bytes with the most significant first: two ids go together exactly if
    /// their hashes do.
    pub proof fn law_streams_go_by_their_hash(&self, stream_id: u64, id: Seq<u8>)
        requires
            self.shards() > 0,
            id.len() == 8,
            be::be_value(id) == stream_id,
        ensures
            self.route(stream_id) == shard_of_hash(xxh3(id), self.shards()),
    {
        be::lemma_be_bytes_of_value(id);
    }
}

} // verus!
