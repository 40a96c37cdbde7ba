//! The configuration of a server.

use vstd::prelude::*;
use vstd::string::*;

verus! {

/// A member of the group and the address of its raft listener.
#[derive(Debug, Clone)]
pub struct PeerConfig {
    pub id: u64,
    pub addr: String,
}

/// The configuration of a server.
#[derive(Debug, Clone)]
pub struct ServerConfig {
    /// Logical Raft node id
    pub node_id: u64,
    /// Listen address, e.g. "0.0.0.0:9876"
    pub listen_addr: String,
    /// Raft peer message listen address, e.g. "0.0.0.0:9976"
    pub raft_listen_addr: String,
    /// Data directory for WAL segment files
    pub data_dir: String,
    /// Number of shards. None = auto-detect (num_cpus - 1)
    pub num_shards: Option<usize>,
    /// Max segment file size in bytes (default 64MB)
    pub segment_max_bytes: u64,
    /// Group commit flush interval in microseconds
    pub group_commit_interval_us: u64,
    /// Max batch size before forced flush
    pub group_commit_max_batch: usize,
    /// Bounded channel capacity per shard
    pub channel_capacity: usize,
    /// Number of committed records to retain per stream for hot tailing reads
    pub tail_cache_entries: usize,
    /// How often to evaluate stream-consumer watermarks for index / segment GC
    pub gc_interval_us: u64,
    /// Raft peers for the single group
    pub peers: Vec<PeerConfig>,
    /// Enable NUMA-aware placement
    pub numa_aware: bool,
}

/// What the command line may set.
pub struct Overrides {
    pub listen: Option<String>,
    pub raft_listen: Option<String>,
    pub node_id: Option<u64>,
    pub shards: Option<usize>,
    pub data_dir: Option<String>,
}

/// A configuration after the command line was applied.
pub open spec fn overridden(c: ServerConfig, o: Overrides) -> ServerConfig {
    ServerConfig {
        listen_addr: match o.listen {
            Some(addr) => addr,
            None => c.listen_addr,
        },
        raft_listen_addr: match o.raft_listen {
            Some(addr) => addr,
            None => c.raft_listen_addr,
        },
        node_id: match o.node_id {
            Some(id) => id,
            None => c.node_id,
        },
        num_shards: match o.shards {
            Some(n) => Some(n),
            None => c.num_shards,
        },
        data_dir: match o.data_dir {
            Some(dir) => dir,
            None => c.data_dir,
        },
        ..c
    }
}

/// Whether a peer has an id and an address.
pub open spec fn is_peer(p: PeerConfig, id: u64, addr: Seq<char>) -> bool {
    p.id == id && p.addr@ == addr
}

fn peer(id: u64, addr: &str) -> (p: PeerConfig)
    ensures
        is_peer(p, id, addr@),
{
    PeerConfig { id, addr: String::from_str(addr) }
}

impl Default for ServerConfig {
    fn default() -> (c: Self)
        ensures
            c.node_id == 1,
            c.listen_addr@ == "0.0.0.0:9876"@,
            c.raft_listen_addr@ == "0.0.0.0:9976"@,
            c.data_dir@ == "/tmp/wal_server/data"@,
            c.num_shards is None,
            c.segment_max_bytes == 64 * 1024 * 1024,
            c.group_commit_interval_us == 200,
            c.group_commit_max_batch == 256,
            c.channel_capacity == 4096,
            c.tail_cache_entries == 128,
            c.gc_interval_us == 50_000,
            c.peers@.len() == 3,
            is_peer(c.peers@[0], 1, "127.0.0.1:9976"@),
            is_peer(c.peers@[1], 2, "127.0.0.1:9977"@),
            is_peer(c.peers@[2], 3, "127.0.0.1:9978"@),
            c.numa_aware,
    {
        let mut peers: Vec<PeerConfig> = Vec::new();
        peers.push(peer(1, "127.0.0.1:9976"));
        peers.push(peer(2, "127.0.0.1:9977"));
        peers.push(peer(3, "127.0.0.1:9978"));
        ServerConfig {
            node_id: 1,
            listen_addr: String::from_str("0.0.0.0:9876"),
            raft_listen_addr: String::from_str("0.0.0.0:9976"),
            data_dir: String::from_str("/tmp/wal_server/data"),
            num_shards: None,
            segment_max_bytes: 64 * 1024 * 1024,
            group_commit_interval_us: 200,
            group_commit_max_batch: 256,
            channel_capacity: 4096,
            tail_cache_entries: 128,
            gc_interval_us: 50_000,
            peers,
            numa_aware: true,
        }
    }
}

impl ServerConfig {
    /// Applies the command line.
    pub fn apply_overrides(&mut self, o: Overrides)
        ensures
            *final(self) == (ServerConfig {
                listen_addr: match o.listen {
                    Some(addr) => addr,
                    None => old(self).listen_addr,
                },
                raft_listen_addr: match o.raft_listen {
                    Some(addr) => addr,
                    None => old(self).raft_listen_addr,
                },
                node_id: match o.node_id {
                    Some(id) => id,
                    None => old(self).node_id,
                },
                num_shards: match o.shards {
                    Some(n) => Some(n),
                    None => old(self).num_shards,
                },
                data_dir: match o.data_dir {
                    Some(dir) => dir,
                    None => old(self).data_dir,
                },
                ..*old(self)
            }),
            *final(self) == overridden(*old(self), o),
    {
        if let Some(addr) = o.listen {
            self.listen_addr = addr;
        }
        if let Some(addr) = o.raft_listen {
            self.raft_listen_addr = addr;
        }
        if let Some(id) = o.node_id {
            self.node_id = id;
        }
        if let Some(n) = o.shards {
            self.num_shards = Some(n);
        }
        if let Some(dir) = o.data_dir {
            self.data_dir = dir;
        }
    }

    /// Runs the server as one group on one shard, until streams can be placed in
    /// several groups. Returns whether the number of shards changed.
    pub fn force_single_group(&mut self) -> (changed: bool)
        ensures
            changed == (old(self).num_shards != Some(1usize)),
            *final(self) == (ServerConfig { num_shards: Some(1), ..*old(self) }),
    {
        let single: bool = match self.num_shards {
            Some(n) => n == 1,
            None => false,
        };
        self.num_shards = Some(1);
        !single
    }

    /// The ids of the members of the group.
    pub fn voters(&self) -> (ids: Vec<u64>)
        ensures
            ids@ == self.peers@.map_values(|p: PeerConfig| p.id),
    {
        let mut ids: Vec<u64> = Vec::new();
        let mut i: usize = 0;
        let ghost all = self.peers@.map_values(|p: PeerConfig| p.id);
        while i < self.peers.len()
            invariant
                i <= self.peers@.len(),
                all == self.peers@.map_values(|p: PeerConfig| p.id),
                ids@ == all.take(i as int),
            decreases self.peers@.len() - i,
        {
            ids.push(self.peers[i].id);
            assert(ids@ =~= all.take(i + 1));
            i = i + 1;
        }
        assert(ids@ =~= all);
        ids
    }
}

/// What the command line sets takes the place of what was configured, and all else
/// stays as it was.
pub proof fn law_command_line_wins(c: ServerConfig, o: Overrides)
    ensures
        ({
            let after = overridden(c, o);
            &&& o.listen is Some ==> after.listen_addr == o.listen->0
            &&& o.listen is None ==> after.listen_addr == c.listen_addr
            &&& o.raft_listen is Some ==> after.raft_listen_addr == o.raft_listen->0
            &&& o.raft_listen is None ==> after.raft_listen_addr == c.raft_listen_addr
            &&& o.node_id is Some ==> after.node_id == o.node_id->0
            &&& o.node_id is None ==> after.node_id == c.node_id
            &&& o.shards is Some ==> after.num_shards == o.shards
            &&& o.shards is None ==> after.num_shards == c.num_shards
            &&& o.data_dir is Some ==> after.data_dir == o.data_dir->0
            &&& o.data_dir is None ==> after.data_dir == c.data_dir
            &&& after.segment_max_bytes == c.segment_max_bytes
            &&& after.group_commit_interval_us == c.group_commit_interval_us
            &&& after.group_commit_max_batch == c.group_commit_max_batch
            &&& after.channel_capacity == c.channel_capacity
            &&& after.tail_cache_entries == c.tail_cache_entries
            &&& after.gc_interval_us == c.gc_interval_us
            &&& after.peers == c.peers
            &&& after.numa_aware == c.numa_aware
        }),
{
}

} // verus!
