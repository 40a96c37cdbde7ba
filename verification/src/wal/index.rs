//! Where the records of each stream lie on disk.

use std::collections::{BTreeMap, HashMap, HashSet};

use vstd::prelude::*;

use crate::keys;
use crate::keys::{hash_keys, tree_keys};

verus! {

/// Location of a record within segment files.
#[derive(Debug, Clone, Copy, PartialEq, Eq, Structural)]
pub struct RecordLocation {
    /// The segment id containing this record.
    pub segment_id: u64,
    /// Byte offset within the segment file.
    pub offset: u64,
    /// Total size of the record on disk.
    pub size: u32,
}

/// In-memory index from (stream, stream LSN) to the location of the record.
/// Lives on a single shard thread, so it needs no synchronization.
pub struct StreamLogIndex {
    entries: HashMap<u64, BTreeMap<u64, RecordLocation>>,
}

/// The locations of one stream, by stream LSN.
pub open spec fn stream_locations(
    index: Map<(u64, u64), RecordLocation>,
    stream_id: u64,
) -> Map<u64, RecordLocation> {
    Map::new(
        |lsn: u64| index.contains_key((stream_id, lsn)),
        |lsn: u64| index[(stream_id, lsn)],
    )
}

/// An index without the records of a stream below an LSN.
pub open spec fn truncated(
    index: Map<(u64, u64), RecordLocation>,
    stream_id: u64,
    stream_lsn: u64,
) -> Map<(u64, u64), RecordLocation> {
    index.restrict(Set::new(|k: (u64, u64)| k.0 != stream_id || k.1 >= stream_lsn))
}

/// The segments that hold at least one indexed record.
pub open spec fn live_segments(index: Map<(u64, u64), RecordLocation>) -> Set<u64> {
    Set::new(
        |segment_id: u64|
            exists|k: (u64, u64)|
                #[trigger] index.contains_key(k) && index[k].segment_id == segment_id,
    )
}

/// The streams that have at least one indexed record.
pub open spec fn indexed_streams(index: Map<(u64, u64), RecordLocation>) -> Set<u64> {
    Set::new(|id: u64| exists|lsn: u64| #[trigger] index.contains_key((id, lsn)))
}

/// Whether a stream has an indexed record at or above an LSN outside a segment.
pub open spec fn has_record_outside(
    index: Map<(u64, u64), RecordLocation>,
    stream_id: u64,
    from_lsn: u64,
    segment_id: u64,
) -> bool {
    exists|lsn: u64|
        #[trigger] index.contains_key((stream_id, lsn)) && lsn >= from_lsn && index[(
            stream_id,
            lsn,
        )].segment_id != segment_id
}

/// The keys (stream, LSN) below the listed streams.
spec fn pairs_below(m: Map<u64, BTreeMap<u64, RecordLocation>>, streams: Seq<u64>) -> Set<
    (u64, u64),
> {
    Set::new(
        |k: (u64, u64)|
            streams.contains(k.0) && m.contains_key(k.0) && m[k.0]@.contains_key(k.1),
    )
}

proof fn lemma_pairs_below_push(
    m: Map<u64, BTreeMap<u64, RecordLocation>>,
    streams: Seq<u64>,
    s: u64,
)
    requires
        pairs_below(m, streams).finite(),
        !streams.contains(s),
        m.contains_key(s),
        m[s]@.dom().finite(),
    ensures
        pairs_below(m, streams.push(s)).finite(),
        pairs_below(m, streams.push(s)).len() == pairs_below(m, streams).len() + m[s]@.len(),
{
    let a = pairs_below(m, streams);
    let lsns = m[s]@.dom();
    let b = Set::new(|k: (u64, u64)| k.0 == s && lsns.contains(k.1));
    let f = |lsn: u64| (s, lsn);
    assert(lsns.map(f) =~= b) by {
        assert forall|k: (u64, u64)| b.contains(k) implies lsns.map(f).contains(k) by {
            assert(f(k.1) == k);
        }
    }
    lsns.lemma_map_finite(f);
    vstd::set_lib::lemma_map_size(lsns, b, f);
    assert(a.disjoint(b));
    assert(pairs_below(m, streams.push(s)) =~= a.union(b)) by {
        assert forall|k: (u64, u64)| a.union(b).contains(k) implies pairs_below(
            m,
            streams.push(s),
        ).contains(k) by {
            if a.contains(k) {
                let i = choose|i: int| 0 <= i < streams.len() && streams[i] == k.0;
                assert(streams.push(s)[i] == k.0);
            } else {
                assert(streams.push(s)[streams.len() as int] == s);
            }
        }
    }
    vstd::set_lib::lemma_set_disjoint_lens(a, b);
}

impl View for StreamLogIndex {
    type V = Map<(u64, u64), RecordLocation>;

    closed spec fn view(&self) -> Map<(u64, u64), RecordLocation> {
        Map::new(
            |k: (u64, u64)|
                self.entries@.contains_key(k.0) && self.entries@[k.0]@.contains_key(k.1),
            |k: (u64, u64)| self.entries@[k.0]@[k.1],
        )
    }
}

impl StreamLogIndex {
    /// An index of no record.
    pub fn new() -> (index: Self)
        ensures
            index@ == Map::<(u64, u64), RecordLocation>::empty(),
    {
        broadcast use vstd::std_specs::hash::group_hash_axioms;

        let index = Self { entries: HashMap::new() };
        assert(index@ =~= Map::<(u64, u64), RecordLocation>::empty());
        index
    }

    /// Records where the record of a stream at an LSN lies.
    pub fn insert(&mut self, stream_id: u64, stream_lsn: u64, loc: RecordLocation)
        ensures
            final(self)@ == old(self)@.insert((stream_id, stream_lsn), loc),
    {
        broadcast use vstd::std_specs::hash::group_hash_axioms;
        broadcast use vstd::std_specs::btree::group_btree_axioms;

        let mut tree: BTreeMap<u64, RecordLocation> = match self.entries.remove(&stream_id) {
            Some(tree) => tree,
            None => BTreeMap::new(),
        };
        tree.insert(stream_lsn, loc);
        self.entries.insert(stream_id, tree);
        assert(self@ =~= old(self)@.insert((stream_id, stream_lsn), loc));
    }

    /// Looks up the record of a stream at an LSN.
    pub fn lookup(&self, stream_id: u64, stream_lsn: u64) -> (r: Option<&RecordLocation>)
        ensures
            r == (if self@.contains_key((stream_id, stream_lsn)) {
                Some(&self@[(stream_id, stream_lsn)])
            } else {
                None
            }),
    {
        broadcast use vstd::std_specs::hash::group_hash_axioms;
        broadcast use vstd::std_specs::btree::group_btree_axioms;

        match self.entries.get(&stream_id) {
            Some(tree) => tree.get(&stream_lsn),
            None => None,
        }
    }

    /// Removes all entries of a stream with an LSN below the given one (for GC).
    pub fn truncate_stream_before(&mut self, stream_id: u64, stream_lsn: u64)
        ensures
            final(self)@ == truncated(old(self)@, stream_id, stream_lsn),
    {
        broadcast use vstd::std_specs::hash::group_hash_axioms;
        broadcast use vstd::std_specs::btree::group_btree_axioms;

        match self.entries.remove(&stream_id) {
            Some(found) => {
                let mut tree: BTreeMap<u64, RecordLocation> = found;
                let ghost whole = tree@;
                let lsns: Vec<u64> = tree_keys(&tree);
                let mut i: usize = 0;
                while i < lsns.len()
                    invariant
                        i <= lsns@.len(),
                        tree@ == whole.remove_keys(
                            lsns@.take(i as int).to_set().filter(|l: u64| l < stream_lsn),
                        ),
                    decreases lsns@.len() - i,
                {
                    let ghost gone = lsns@.take(i as int).to_set().filter(|l: u64| l < stream_lsn);
                    if lsns[i] < stream_lsn {
                        tree.remove(&lsns[i]);
                    }
                    proof {
                        let next = lsns@.take(i + 1);
                        assert(next =~= lsns@.take(i as int).push(lsns@[i as int]));
                        assert(next.to_set() =~= lsns@.take(i as int).to_set().insert(
                            lsns@[i as int],
                        )) by {
                            assert forall|l: u64| lsns@.take(i as int).to_set().insert(
                                lsns@[i as int],
                            ).contains(l) implies next.to_set().contains(l) by {
                                if lsns@.take(i as int).contains(l) {
                                    let j = choose|j: int|
                                        0 <= j < i && lsns@.take(i as int)[j] == l;
                                    assert(next[j] == l);
                                } else {
                                    assert(next[i as int] == l);
                                }
                            }
                        }
                    }
                    i = i + 1;
                }
                assert(lsns@.take(i as int) =~= lsns@);
                self.entries.insert(stream_id, tree);
            },
            None => {},
        }
        assert(self@ =~= truncated(old(self)@, stream_id, stream_lsn));
    }

    /// The number of indexed records.
    pub fn len(&self) -> (n: usize)
        requires
            self@.len() <= usize::MAX,
        ensures
            self@.dom().finite(),
            n == self@.len(),
    {
        broadcast use vstd::std_specs::hash::group_hash_axioms;
        broadcast use vstd::std_specs::btree::group_btree_axioms;

        let streams: Vec<u64> = hash_keys(&self.entries);
        let mut n: usize = 0;
        let mut i: usize = 0;
        proof {
            lemma_pairs_finite(self.entries@, streams@);
            assert(self@.dom() =~= pairs_below(self.entries@, streams@));
            assert(pairs_below(self.entries@, streams@.take(0)) =~= Set::empty());
        }
        while i < streams.len()
            invariant
                i <= streams@.len(),
                keys::lists(streams@, self.entries@.dom()),
                pairs_below(self.entries@, streams@).finite(),
                pairs_below(self.entries@, streams@).len() <= usize::MAX,
                pairs_below(self.entries@, streams@.take(i as int)).finite(),
                n == pairs_below(self.entries@, streams@.take(i as int)).len(),
            decreases streams@.len() - i,
        {
            let ghost done = streams@.take(i as int);
            let ghost s = streams@[i as int];
            proof {
                assert(streams@.take(i + 1) =~= done.push(s));
                assert(streams@.to_set().contains(s));
                lemma_pairs_below_push(self.entries@, done, s);
                assert(pairs_below(self.entries@, done.push(s)).subset_of(
                    pairs_below(self.entries@, streams@),
                )) by {
                    assert forall|k: (u64, u64)| pairs_below(self.entries@, done.push(s)).contains(
                        k,
                    ) implies pairs_below(self.entries@, streams@).contains(k) by {
                        let j = choose|j: int| 0 <= j <= i && done.push(s)[j] == k.0;
                        assert(streams@[j] == k.0);
                    }
                }
                vstd::set_lib::lemma_len_subset(
                    pairs_below(self.entries@, done.push(s)),
                    pairs_below(self.entries@, streams@),
                );
            }
            match self.entries.get(&streams[i]) {
                Some(tree) => {
                    n = n + tree.len();
                },
                None => {},
            }
            i = i + 1;
        }
        assert(streams@.take(i as int) =~= streams@);
        n
    }

    /// Whether no record is indexed.
    pub fn is_empty(&self) -> (r: bool)
        ensures
            r == self@.is_empty(),
    {
        broadcast use vstd::std_specs::hash::group_hash_axioms;
        broadcast use vstd::std_specs::btree::group_btree_axioms;

        let streams: Vec<u64> = hash_keys(&self.entries);
        let mut i: usize = 0;
        while i < streams.len()
            invariant
                i <= streams@.len(),
                keys::lists(streams@, self.entries@.dom()),
                forall|j: int|
                    0 <= j < i ==> self.entries@[#[trigger] streams@[j]]@ == Map::<
                        u64,
                        RecordLocation,
                    >::empty(),
            decreases streams@.len() - i,
        {
            assert(streams@.to_set().contains(streams@[i as int]));
            match self.entries.get(&streams[i]) {
                Some(tree) => {
                    if !tree.is_empty() {
                        proof {
                            let s = streams@[i as int];
                            assert(tree@.dom() != Set::<u64>::empty());
                            let lsn = choose|l: u64| tree@.dom().contains(l);
                            assert(tree@.dom().contains(lsn)) by {
                                if forall|l: u64| !tree@.dom().contains(l) {
                                    assert(tree@.dom() =~= Set::empty());
                                }
                            }
                            assert(self@.dom().contains((s, lsn)));
                        }
                        return false;
                    }
                    assert(tree@ =~= Map::<u64, RecordLocation>::empty());
                },
                None => {},
            }
            i = i + 1;
        }
        assert(self@.dom() =~= Set::empty()) by {
            assert forall|k: (u64, u64)| !self@.dom().contains(k) by {
                if self@.dom().contains(k) {
                    assert(streams@.to_set().contains(k.0));
                }
            }
        }
        true
    }

    /// The number of indexed records of a stream.
    pub fn stream_len(&self, stream_id: u64) -> (n: usize)
        ensures
            n == stream_locations(self@, stream_id).len(),
    {
        broadcast use vstd::std_specs::hash::group_hash_axioms;
        broadcast use vstd::std_specs::btree::group_btree_axioms;

        match self.entries.get(&stream_id) {
            Some(tree) => {
                assert(stream_locations(self@, stream_id) =~= tree@);
                tree.len()
            },
            None => {
                assert(stream_locations(self@, stream_id) =~= Map::empty());
                0
            },
        }
    }

    /// The streams that have at least one indexed record, in no particular order.
    pub fn stream_ids(&self) -> (ids: Vec<u64>)
        ensures
            keys::lists(ids@, indexed_streams(self@)),
    {
        broadcast use vstd::std_specs::hash::group_hash_axioms;
        broadcast use vstd::std_specs::btree::group_btree_axioms;

        let streams: Vec<u64> = hash_keys(&self.entries);
        let mut ids: Vec<u64> = Vec::new();
        let mut i: usize = 0;
        while i < streams.len()
            invariant
                i <= streams@.len(),
                keys::lists(streams@, self.entries@.dom()),
                ids@.no_duplicates(),
                forall|k: int|
                    0 <= k < ids@.len() ==> streams@.take(i as int).contains(#[trigger] ids@[k])
                        && indexed_streams(self@).contains(ids@[k]),
                forall|j: int|
                    0 <= j < i && indexed_streams(self@).contains(#[trigger] streams@[j])
                        ==> ids@.contains(streams@[j]),
            decreases streams@.len() - i,
        {
            let id: u64 = streams[i];
            let ghost before = ids@;
            proof {
                let now = streams@.take(i as int);
                let next = streams@.take(i + 1);
                assert(streams@.to_set().contains(id));
                assert forall|x: u64| now.contains(x) implies next.contains(x) by {
                    let j = choose|j: int| 0 <= j < now.len() && now[j] == x;
                    assert(next[j] == x);
                }
                assert(next[i as int] == id);
                assert(!now.contains(id)) by {
                    if now.contains(id) {
                        let j = choose|j: int| 0 <= j < now.len() && now[j] == id;
                        assert(streams@[j] == streams@[i as int]);
                    }
                }
            }
            match self.entries.get(&id) {
                Some(tree) => {
                    if tree.is_empty() {
                        assert(!indexed_streams(self@).contains(id)) by {
                            if indexed_streams(self@).contains(id) {
                                let lsn = choose|lsn: u64| #[trigger]
                                    self@.contains_key((id, lsn));
                                assert(tree@.dom().contains(lsn));
                            }
                        }
                    } else {
                        proof {
                            assert(tree@.dom() != Set::<u64>::empty());
                            if forall|l: u64| !tree@.dom().contains(l) {
                                assert(tree@.dom() =~= Set::empty());
                            }
                            let lsn = choose|l: u64| tree@.dom().contains(l);
                            assert(self@.contains_key((id, lsn)));
                        }
                        ids.push(id);
                        assert(ids@[before.len() as int] == id);
                    }
                },
                None => {},
            }
            proof {
                assert forall|j: int|
                    0 <= j <= i && indexed_streams(self@).contains(
                        #[trigger] streams@[j],
                    ) implies ids@.contains(streams@[j]) by {
                    if j < i {
                        let k = choose|k: int| 0 <= k < before.len() && before[k] == streams@[j];
                        assert(ids@[k] == streams@[j]);
                    }
                }
            }
            i = i + 1;
        }
        assert(ids@.to_set() =~= indexed_streams(self@)) by {
            assert forall|id: u64| indexed_streams(self@).contains(id) implies ids@.to_set().contains(
                id,
            ) by {
                let lsn = choose|lsn: u64| #[trigger] self@.contains_key((id, lsn));
                assert(streams@.to_set().contains(id));
                let j = choose|j: int| 0 <= j < streams@.len() && streams@[j] == id;
                assert(ids@.contains(streams@[j]));
            }
        }
        ids
    }

    /// Whether a stream has an indexed record at or above an LSN outside a
    /// segment.
    pub fn holds_outside(&self, stream_id: u64, from_lsn: u64, segment_id: u64) -> (r: bool)
        ensures
            r == has_record_outside(self@, stream_id, from_lsn, segment_id),
    {
        broadcast use vstd::std_specs::hash::group_hash_axioms;
        broadcast use vstd::std_specs::btree::group_btree_axioms;

        match self.entries.get(&stream_id) {
            Some(tree) => {
                let lsns: Vec<u64> = tree_keys(tree);
                let mut j: usize = 0;
                while j < lsns.len()
                    invariant
                        j <= lsns@.len(),
                        keys::lists(lsns@, tree@.dom()),
                        self.entries@.contains_key(stream_id),
                        self.entries@[stream_id] == *tree,
                        forall|l: int|
                            0 <= l < j ==> (#[trigger] lsns@[l]) < from_lsn
                                || tree@[lsns@[l]].segment_id == segment_id,
                    decreases lsns@.len() - j,
                {
                    assert(lsns@.to_set().contains(lsns@[j as int]));
                    match tree.get(&lsns[j]) {
                        Some(loc) => {
                            if lsns[j] >= from_lsn && loc.segment_id != segment_id {
                                assert(self@.contains_key((stream_id, lsns@[j as int])));
                                return true;
                            }
                        },
                        None => {},
                    }
                    j = j + 1;
                }
                assert(!has_record_outside(self@, stream_id, from_lsn, segment_id)) by {
                    if has_record_outside(self@, stream_id, from_lsn, segment_id) {
                        let lsn = choose|lsn: u64|
                            #[trigger] self@.contains_key((stream_id, lsn)) && lsn >= from_lsn
                                && self@[(stream_id, lsn)].segment_id != segment_id;
                        assert(lsns@.to_set().contains(lsn));
                        let l = choose|l: int| 0 <= l < lsns@.len() && lsns@[l] == lsn;
                        assert(lsns@[l] < from_lsn || tree@[lsns@[l]].segment_id == segment_id);
                    }
                }
                false
            },
            None => false,
        }
    }

    /// The segments that hold at least one indexed record.
    pub fn live_segment_ids(&self) -> (ids: HashSet<u64>)
        ensures
            ids@ == live_segments(self@),
    {
        broadcast use vstd::std_specs::hash::group_hash_axioms;
        broadcast use vstd::std_specs::btree::group_btree_axioms;

        let mut ids: HashSet<u64> = HashSet::new();
        let streams: Vec<u64> = hash_keys(&self.entries);
        let mut i: usize = 0;
        while i < streams.len()
            invariant
                i <= streams@.len(),
                keys::lists(streams@, self.entries@.dom()),
                forall|id: u64|
                    ids@.contains(id) ==> live_segments(self@).contains(id),
                forall|k: (u64, u64)|
                    #[trigger] self@.contains_key(k) && streams@.take(i as int).contains(k.0)
                        ==> ids@.contains(self@[k].segment_id),
            decreases streams@.len() - i,
        {
            let ghost s = streams@[i as int];
            assert(streams@.to_set().contains(s));
            match self.entries.get(&streams[i]) {
                Some(tree) => {
                    let lsns: Vec<u64> = tree_keys(tree);
                    let mut j: usize = 0;
                    while j < lsns.len()
                        invariant
                            j <= lsns@.len(),
                            keys::lists(lsns@, tree@.dom()),
                            self.entries@.contains_key(s),
                            self.entries@[s] == *tree,
                            forall|id: u64|
                                ids@.contains(id) ==> live_segments(self@).contains(id),
                            forall|k: (u64, u64)|
                                #[trigger] self@.contains_key(k) && streams@.take(i as int).contains(
                                    k.0,
                                ) ==> ids@.contains(self@[k].segment_id),
                            forall|l: int|
                                0 <= l < j ==> ids@.contains(
                                    tree@[#[trigger] lsns@[l]].segment_id,
                                ),
                        decreases lsns@.len() - j,
                    {
                        assert(lsns@.to_set().contains(lsns@[j as int]));
                        match tree.get(&lsns[j]) {
                            Some(loc) => {
                                assert(self@.contains_key((s, lsns@[j as int])));
                                ids.insert(loc.segment_id);
                            },
                            None => {},
                        }
                        j = j + 1;
                    }
                    proof {
                        assert(streams@.take(i + 1) =~= streams@.take(i as int).push(s));
                        assert forall|k: (u64, u64)|
                            #[trigger] self@.contains_key(k) && streams@.take(i + 1).contains(
                                k.0,
                            ) implies ids@.contains(self@[k].segment_id) by {
                            if streams@.take(i as int).contains(k.0) {
                            } else {
                                assert(k.0 == s);
                                assert(lsns@.to_set().contains(k.1));
                            }
                        }
                    }
                },
                None => {},
            }
            i = i + 1;
        }
        proof {
            assert(streams@.take(i as int) =~= streams@);
            assert forall|id: u64| live_segments(self@).contains(id) implies ids@.contains(id) by {
                let k = choose|k: (u64, u64)|
                    #[trigger] self@.contains_key(k) && self@[k].segment_id == id;
                assert(streams@.to_set().contains(k.0));
            }
        }
        assert(ids@ =~= live_segments(self@));
        ids
    }
}

proof fn lemma_pairs_finite(m: Map<u64, BTreeMap<u64, RecordLocation>>, streams: Seq<u64>)
    requires
        streams.no_duplicates(),
        forall|s: u64| streams.contains(s) ==> m.contains_key(s),
    ensures
        pairs_below(m, streams).finite(),
    decreases streams.len(),
{
    broadcast use vstd::std_specs::btree::group_btree_axioms;

    if streams.len() == 0 {
        assert(pairs_below(m, streams) =~= Set::empty());
    } else {
        let init = streams.drop_last();
        let s = streams.last();
        assert(streams.contains(s));
        assert forall|t: u64| init.contains(t) implies m.contains_key(t) by {
            let j = choose|j: int| 0 <= j < init.len() && init[j] == t;
            assert(streams[j] == t);
            assert(streams.contains(t));
        }
        lemma_pairs_finite(m, init);
        assert(!init.contains(s));
        lemma_pairs_below_push(m, init, s);
        assert(init.push(s) =~= streams);
    }
}

proof fn lemma_stream_locations_finite(index: Map<(u64, u64), RecordLocation>, stream_id: u64)
    requires
        index.dom().finite(),
    ensures
        stream_locations(index, stream_id).dom().finite(),
{
    let keys = index.dom().filter(|k: (u64, u64)| k.0 == stream_id);
    let f = |k: (u64, u64)| k.1;
    let lsns = stream_locations(index, stream_id).dom();
    keys.lemma_map_finite(f);
    assert(keys.map(f) =~= lsns) by {
        assert forall|lsn: u64| lsns.contains(lsn) implies keys.map(f).contains(lsn) by {
            assert(keys.contains((stream_id, lsn)));
            assert(f((stream_id, lsn)) == lsn);
        }
    }
}

/// A record that was indexed is found at its location, in place of an older one,
/// and every other one is found where it was. The number of records, and that of
/// its stream, grows by one if none was indexed there, and stays as it is
/// otherwise; that of every other stream stays.
pub proof fn law_insert_indexes_one_record(
    index: Map<(u64, u64), RecordLocation>,
    stream_id: u64,
    stream_lsn: u64,
    loc: RecordLocation,
    other: (u64, u64),
)
    requires
        index.dom().finite(),
        other != (stream_id, stream_lsn),
    ensures
        ({
            let key = (stream_id, stream_lsn);
            let after = index.insert(key, loc);
            let grown: nat = if index.contains_key(key) {
                0
            } else {
                1
            };
            &&& after.get(key) == Some(loc)
            &&& after.get(other) == index.get(other)
            &&& after.dom().finite()
            &&& after.len() == index.len() + grown
            &&& stream_locations(after, stream_id).len() == stream_locations(
                index,
                stream_id,
            ).len() + grown
            &&& other.0 != stream_id ==> stream_locations(after, other.0) == stream_locations(
                index,
                other.0,
            )
        }),
{
    let after = index.insert((stream_id, stream_lsn), loc);
    lemma_stream_locations_finite(index, stream_id);
    assert(stream_locations(after, stream_id) =~= stream_locations(index, stream_id).insert(
        stream_lsn,
        loc,
    ));
    if other.0 != stream_id {
        assert(stream_locations(after, other.0) =~= stream_locations(index, other.0));
    }
}

/// The records of a stream below an LSN.
pub open spec fn keys_below(
    index: Map<(u64, u64), RecordLocation>,
    stream_id: u64,
    stream_lsn: u64,
) -> Set<(u64, u64)> {
    index.dom().filter(|k: (u64, u64)| k.0 == stream_id && k.1 < stream_lsn)
}

/// Truncating a stream drops its records below an LSN and keeps all others where
/// they were. The number of records drops by as many as were dropped. Truncating
/// it again at that LSN or below changes nothing.
pub proof fn law_truncation_drops_what_lies_below(
    index: Map<(u64, u64), RecordLocation>,
    stream_id: u64,
    stream_lsn: u64,
    key: (u64, u64),
    again: u64,
)
    requires
        index.dom().finite(),
        again <= stream_lsn,
    ensures
        ({
            let after = truncated(index, stream_id, stream_lsn);
            &&& after.get(key) == (if key.0 == stream_id && key.1 < stream_lsn {
                None
            } else {
                index.get(key)
            })
            &&& after.dom().finite()
            &&& after.len() + keys_below(index, stream_id, stream_lsn).len() == index.len()
            &&& truncated(after, stream_id, again) == after
        }),
{
    let after = truncated(index, stream_id, stream_lsn);
    let gone = keys_below(index, stream_id, stream_lsn);
    assert(after.dom() =~= index.dom().difference(gone));
    vstd::set_lib::lemma_len_subset(gone, index.dom());
    assert(after.dom().disjoint(gone));
    vstd::set_lib::lemma_set_disjoint_lens(after.dom(), gone);
    assert(after.dom().union(gone) =~= index.dom());
    assert(truncated(after, stream_id, again) =~= after);
}

proof fn lemma_listing(dom: Set<u64>) -> (list: Seq<u64>)
    requires
        dom.finite(),
    ensures
        keys::lists(list, dom),
    decreases dom.len(),
{
    if dom.len() == 0 {
        let list = Seq::<u64>::empty();
        assert(list.to_set() =~= dom);
        list
    } else {
        let x = dom.choose();
        let rest = lemma_listing(dom.remove(x));
        let list = rest.push(x);
        assert forall|i: int| 0 <= i < rest.len() implies rest[i] != x by {
            assert(rest.to_set().contains(rest[i]));
        }
        assert(list.to_set() =~= dom) by {
            assert forall|y: u64| dom.contains(y) implies list.to_set().contains(y) by {
                if y == x {
                    assert(list[rest.len() as int] == y);
                } else {
                    assert(rest.to_set().contains(y));
                    let i = choose|i: int| 0 <= i < rest.len() && rest[i] == y;
                    assert(list[i] == y);
                }
            }
            assert forall|y: u64| list.to_set().contains(y) implies dom.contains(y) by {
                let i = choose|i: int| 0 <= i < list.len() && list[i] == y;
                if i < rest.len() {
                    assert(rest.to_set().contains(rest[i]));
                }
            }
        }
        list
    }
}

impl StreamLogIndex {
    /// An index holds finitely many records.
    pub proof fn law_index_is_finite(&self)
        ensures
            self@.dom().finite(),
    {
        broadcast use vstd::std_specs::hash::group_hash_axioms;

        let streams = lemma_listing(self.entries@.dom());
        assert forall|s: u64| streams.contains(s) implies self.entries@.contains_key(s) by {
            assert(streams.to_set().contains(s));
        }
        lemma_pairs_finite(self.entries@, streams);
        assert(self@.dom() =~= pairs_below(self.entries@, streams)) by {
            assert forall|k: (u64, u64)| self@.dom().contains(k) implies pairs_below(
                self.entries@,
                streams,
            ).contains(k) by {
                assert(streams.to_set().contains(k.0));
            }
        }
    }
}

} // verus!
