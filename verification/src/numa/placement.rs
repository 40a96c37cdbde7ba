//! Which processors run the acceptors and the shards.

use vstd::prelude::*;

use crate::numa::detection::{NumaNode, NumaTopology};

verus! {

/// Assignment of a shard to a CPU core.
#[derive(Debug, Clone, Copy, PartialEq, Eq, Structural)]
pub struct ShardAssignment {
    pub shard_id: u16,
    pub cpu_id: usize,
    pub numa_node: usize,
}

/// Complete placement plan for the server.
#[derive(Debug, Clone)]
pub struct ShardPlacement {
    /// One acceptor CPU per NUMA node.
    pub acceptor_cpus: Vec<usize>,
    /// Shard-to-CPU assignments.
    pub shard_assignments: Vec<ShardAssignment>,
}

/// The first CPU of each node that has one.
pub open spec fn first_cpus(nodes: Seq<NumaNode>) -> Seq<usize>
    decreases nodes.len(),
{
    if nodes.len() == 0 {
        Seq::empty()
    } else {
        let n = nodes.last();
        first_cpus(nodes.drop_last()) + (if n.cpu_ids@.len() == 0 {
            Seq::empty()
        } else {
            seq![n.cpu_ids@[0]]
        })
    }
}

/// The CPUs of a node, each with the number of the node.
pub open spec fn with_node(cpus: Seq<usize>, node_id: usize) -> Seq<(usize, usize)> {
    cpus.map_values(|cpu: usize| (cpu, node_id))
}

/// All CPUs but the first one of each node, each with the number of its node.
pub open spec fn other_cpus(nodes: Seq<NumaNode>) -> Seq<(usize, usize)>
    decreases nodes.len(),
{
    if nodes.len() == 0 {
        Seq::empty()
    } else {
        let n = nodes.last();
        other_cpus(nodes.drop_last()) + (if n.cpu_ids@.len() == 0 {
            Seq::empty()
        } else {
            with_node(n.cpu_ids@.skip(1), n.node_id)
        })
    }
}

/// The CPUs that shards can run on: if the acceptors take all, the first acceptor
/// shares its own.
pub open spec fn shard_cpus(nodes: Seq<NumaNode>) -> Seq<(usize, usize)> {
    if other_cpus(nodes).len() == 0 {
        seq![(first_cpus(nodes)[0], nodes[0].node_id)]
    } else {
        other_cpus(nodes)
    }
}

/// How many shards run: as many as asked for, but no more than there are CPUs.
pub open spec fn shard_count(available: nat, num_shards: Option<usize>) -> nat {
    match num_shards {
        Some(n) => if n < available {
            n as nat
        } else {
            available
        },
        None => available,
    }
}

/// Shard `i` on the CPU at `i`. Shard numbers above 16 bits are cut to their low
/// ones.
pub open spec fn assigned(cpus: Seq<(usize, usize)>, n: nat) -> Seq<ShardAssignment> {
    Seq::new(
        n,
        |i: int|
            ShardAssignment { shard_id: i as u16, cpu_id: cpus[i].0, numa_node: cpus[i].1 },
    )
}

/// Whether some node has a CPU.
pub open spec fn has_cpu(nodes: Seq<NumaNode>) -> bool {
    exists|i: int| 0 <= i < nodes.len() && (#[trigger] nodes[i]).cpu_ids@.len() > 0
}

proof fn lemma_first_cpus_nonempty(nodes: Seq<NumaNode>)
    requires
        has_cpu(nodes),
    ensures
        first_cpus(nodes).len() > 0,
    decreases nodes.len(),
{
    let i = choose|i: int| 0 <= i < nodes.len() && (#[trigger] nodes[i]).cpu_ids@.len() > 0;
    if i < nodes.len() - 1 {
        assert(nodes.drop_last()[i] == nodes[i]);
        lemma_first_cpus_nonempty(nodes.drop_last());
    }
}

impl ShardPlacement {
    /// Computes the placement for a NUMA topology that has a CPU.
    ///
    /// Strategy:
    /// - Reserve the first CPU of each NUMA node for the acceptor.
    /// - Assign remaining CPUs as shard cores.
    /// - If `num_shards` is specified and less than available cores, use that many.
    pub fn compute(topology: &NumaTopology, num_shards: Option<usize>) -> (p: Self)
        requires
            has_cpu(topology.nodes@),
        ensures
            p.acceptor_cpus@ == first_cpus(topology.nodes@),
            p.shard_assignments@ == assigned(
                shard_cpus(topology.nodes@),
                shard_count(shard_cpus(topology.nodes@).len(), num_shards),
            ),
    {
        let ghost nodes = topology.nodes@;
        let mut acceptor_cpus: Vec<usize> = Vec::new();
        let mut available_cpus: Vec<(usize, usize)> = Vec::new();
        let mut i: usize = 0;
        assert(nodes.take(0) =~= Seq::empty());
        while i < topology.nodes.len()
            invariant
                i <= nodes.len(),
                nodes == topology.nodes@,
                acceptor_cpus@ == first_cpus(nodes.take(i as int)),
                available_cpus@ == other_cpus(nodes.take(i as int)),
            decreases nodes.len() - i,
        {
            let node: &NumaNode = &topology.nodes[i];
            let ghost next = nodes.take(i + 1);
            let ghost others = available_cpus@;
            assert(next.drop_last() =~= nodes.take(i as int));
            assert(next.last() == *node);
            if node.cpu_ids.len() > 0 {
                acceptor_cpus.push(node.cpu_ids[0]);
                assert(acceptor_cpus@ =~= first_cpus(next));
                let ghost rest = with_node(node.cpu_ids@.skip(1), node.node_id);
                let mut j: usize = 1;
                assert(others + rest.take(0) =~= others);
                while j < node.cpu_ids.len()
                    invariant
                        1 <= j <= node.cpu_ids@.len(),
                        rest == with_node(node.cpu_ids@.skip(1), node.node_id),
                        available_cpus@ == others + rest.take(j - 1),
                    decreases node.cpu_ids@.len() - j,
                {
                    available_cpus.push((node.cpu_ids[j], node.node_id));
                    assert(rest.take(j as int) =~= rest.take(j - 1).push(rest[j - 1]));
                    assert(available_cpus@ =~= others + rest.take(j as int));
                    j = j + 1;
                }
                assert(rest.take(j - 1) =~= rest);
            } else {
                assert(acceptor_cpus@ =~= first_cpus(next));
                assert(available_cpus@ =~= other_cpus(next));
            }
            i = i + 1;
        }
        assert(nodes.take(i as int) =~= nodes);
        if available_cpus.len() == 0 {
            proof {
                lemma_first_cpus_nonempty(nodes);
            }
            available_cpus.push((acceptor_cpus[0], topology.nodes[0].node_id));
            assert(available_cpus@ =~= shard_cpus(nodes));
        }
        let max_shards: usize = available_cpus.len();
        let target: usize = match num_shards {
            Some(n) => if n < max_shards {
                n
            } else {
                max_shards
            },
            None => max_shards,
        };
        let mut shard_assignments: Vec<ShardAssignment> = Vec::new();
        let mut k: usize = 0;
        while k < target
            invariant
                k <= target <= available_cpus.len(),
                shard_assignments@ == assigned(available_cpus@, k as nat),
            decreases target - k,
        {
            let (cpu_id, numa_node): (usize, usize) = available_cpus[k];
            shard_assignments.push(ShardAssignment { shard_id: k as u16, cpu_id, numa_node });
            k = k + 1;
            assert(shard_assignments@ =~= assigned(available_cpus@, k as nat));
        }
        ShardPlacement { acceptor_cpus, shard_assignments }
    }
}

/// Whether no CPU is named twice, within a node or across nodes.
pub open spec fn cpus_distinct(nodes: Seq<NumaNode>) -> bool {
    forall|a: int, i: int, b: int, j: int|
        0 <= a < nodes.len() && 0 <= b < nodes.len() && 0 <= i < nodes[a].cpu_ids@.len() && 0 <= j
            < nodes[b].cpu_ids@.len() && (a, i) != (b, j) ==> #[trigger] nodes[a].cpu_ids@[i]
            != #[trigger] nodes[b].cpu_ids@[j]
}

proof fn lemma_first_cpu_at(nodes: Seq<NumaNode>, k: int) -> (a: int)
    requires
        0 <= k < first_cpus(nodes).len(),
    ensures
        0 <= a < nodes.len(),
        nodes[a].cpu_ids@.len() > 0,
        first_cpus(nodes)[k] == nodes[a].cpu_ids@[0],
    decreases nodes.len(),
{
    let init = nodes.drop_last();
    if k < first_cpus(init).len() {
        let a = lemma_first_cpu_at(init, k);
        assert(init[a] == nodes[a]);
        a
    } else {
        nodes.len() - 1
    }
}

proof fn lemma_other_cpu_at(nodes: Seq<NumaNode>, k: int) -> (at: (int, int))
    requires
        0 <= k < other_cpus(nodes).len(),
    ensures
        0 <= at.0 < nodes.len(),
        1 <= at.1 < nodes[at.0].cpu_ids@.len(),
        other_cpus(nodes)[k] == (nodes[at.0].cpu_ids@[at.1], nodes[at.0].node_id),
    decreases nodes.len(),
{
    let init = nodes.drop_last();
    if k < other_cpus(init).len() {
        let at = lemma_other_cpu_at(init, k);
        assert(init[at.0] == nodes[at.0]);
        at
    } else {
        (nodes.len() - 1, k - other_cpus(init).len() + 1)
    }
}

proof fn lemma_other_cpus_differ(nodes: Seq<NumaNode>, k: int, l: int)
    requires
        cpus_distinct(nodes),
        0 <= k < l < other_cpus(nodes).len(),
    ensures
        other_cpus(nodes)[k].0 != other_cpus(nodes)[l].0,
    decreases nodes.len(),
{
    let init = nodes.drop_last();
    let last = nodes.len() - 1;
    assert(cpus_distinct(init)) by {
        assert forall|a: int, i: int, b: int, j: int|
            0 <= a < init.len() && 0 <= b < init.len() && 0 <= i < init[a].cpu_ids@.len() && 0 <= j
                < init[b].cpu_ids@.len() && (a, i) != (b, j) implies #[trigger] init[a].cpu_ids@[i]
            != #[trigger] init[b].cpu_ids@[j] by {
            assert(init[a] == nodes[a] && init[b] == nodes[b]);
        }
    }
    let n = other_cpus(init).len() as int;
    if l < n {
        lemma_other_cpus_differ(init, k, l);
    } else if k < n {
        let at = lemma_other_cpu_at(init, k);
        assert(init[at.0] == nodes[at.0]);
        assert(other_cpus(nodes)[l].0 == nodes[last].cpu_ids@[l - n + 1]);
        assert(nodes[at.0].cpu_ids@[at.1] != nodes[last].cpu_ids@[l - n + 1]);
    } else {
        assert(other_cpus(nodes)[k].0 == nodes[last].cpu_ids@[k - n + 1]);
        assert(other_cpus(nodes)[l].0 == nodes[last].cpu_ids@[l - n + 1]);
        assert(nodes[last].cpu_ids@[k - n + 1] != nodes[last].cpu_ids@[l - n + 1]);
    }
}

/// No shard runs on the CPU of an acceptor, unless the acceptors take all CPUs.
pub proof fn law_acceptor_cpus_are_reserved(nodes: Seq<NumaNode>, k: int, l: int)
    requires
        cpus_distinct(nodes),
        other_cpus(nodes).len() > 0,
        0 <= k < shard_cpus(nodes).len(),
        0 <= l < first_cpus(nodes).len(),
    ensures
        shard_cpus(nodes)[k].0 != first_cpus(nodes)[l],
{
    let at = lemma_other_cpu_at(nodes, k);
    let a = lemma_first_cpu_at(nodes, l);
    assert(nodes[at.0].cpu_ids@[at.1] != nodes[a].cpu_ids@[0]);
}

/// No two shards share a CPU.
pub proof fn law_shards_do_not_share_cpus(
    nodes: Seq<NumaNode>,
    num_shards: Option<usize>,
    k: int,
    l: int,
)
    requires
        cpus_distinct(nodes),
        0 <= k < l < shard_count(shard_cpus(nodes).len(), num_shards),
    ensures
        ({
            let n = shard_count(shard_cpus(nodes).len(), num_shards);
            assigned(shard_cpus(nodes), n)[k].cpu_id != assigned(shard_cpus(nodes), n)[l].cpu_id
        }),
{
    lemma_other_cpus_differ(nodes, k, l);
}

/// A shard runs on a CPU of the node that its assignment names, unless the
/// acceptors take all CPUs.
pub proof fn law_assignment_names_its_node(nodes: Seq<NumaNode>, k: int) -> (at: (int, int))
    requires
        other_cpus(nodes).len() > 0,
        0 <= k < shard_cpus(nodes).len(),
    ensures
        0 <= at.0 < nodes.len(),
        0 <= at.1 < nodes[at.0].cpu_ids@.len(),
        shard_cpus(nodes)[k] == (nodes[at.0].cpu_ids@[at.1], nodes[at.0].node_id),
{
    lemma_other_cpu_at(nodes, k)
}

/// Shards are numbered from zero in steps of one, as long as their numbers fit 16
/// bits.
pub proof fn law_shard_ids_are_consecutive(cpus: Seq<(usize, usize)>, n: nat, k: int)
    requires
        0 <= k < n,
        k <= u16::MAX,
    ensures
        assigned(cpus, n)[k].shard_id == k,
{
}

/// At least one shard runs wherever one was asked for, and never more than asked
/// for.
pub proof fn law_shard_count_is_bounded(nodes: Seq<NumaNode>, num_shards: Option<usize>)
    requires
        has_cpu(nodes),
    ensures
        num_shards matches Some(n) ==> shard_count(shard_cpus(nodes).len(), num_shards) <= n,
        num_shards != Some(0usize) ==> shard_count(shard_cpus(nodes).len(), num_shards) >= 1,
{
}

/// Nodes are placed one after the other: the CPUs of two groups of nodes as those of
/// each. Of a single node the first CPU goes to an acceptor and the others, in order,
/// to shards; a node without CPUs gives none.
pub proof fn law_nodes_are_placed_in_order(a: Seq<NumaNode>, b: Seq<NumaNode>, n: NumaNode, i: int)
    ensures
        first_cpus(a + b) == first_cpus(a) + first_cpus(b),
        other_cpus(a + b) == other_cpus(a) + other_cpus(b),
        n.cpu_ids@.len() == 0 ==> first_cpus(seq![n]).len() == 0 && other_cpus(seq![n]).len() == 0,
        n.cpu_ids@.len() > 0 ==> {
            &&& first_cpus(seq![n]) == seq![n.cpu_ids@[0]]
            &&& other_cpus(seq![n]).len() == n.cpu_ids@.len() - 1
            &&& 1 <= i < n.cpu_ids@.len() ==> other_cpus(seq![n])[i - 1] == (
                n.cpu_ids@[i],
                n.node_id,
            )
        },
    decreases b.len(),
{
    assert(seq![n].drop_last() =~= Seq::empty());
    assert(seq![n].last() == n);
    assert(first_cpus(seq![n].drop_last()) =~= Seq::empty());
    assert(other_cpus(seq![n].drop_last()) =~= Seq::empty());
    if n.cpu_ids@.len() > 0 {
        assert(first_cpus(seq![n]) =~= seq![n.cpu_ids@[0]]);
        assert(other_cpus(seq![n]) =~= with_node(n.cpu_ids@.skip(1), n.node_id));
    }
    if b.len() == 0 {
        assert(a + b =~= a);
        assert(first_cpus(a) + first_cpus(b) =~= first_cpus(a));
        assert(other_cpus(a) + other_cpus(b) =~= other_cpus(a));
    } else {
        law_nodes_are_placed_in_order(a, b.drop_last(), n, i);
        assert((a + b).drop_last() =~= a + b.drop_last());
        assert((a + b).last() == b.last());
        assert(first_cpus(a + b) =~= first_cpus(a) + first_cpus(b));
        assert(other_cpus(a + b) =~= other_cpus(a) + other_cpus(b));
    }
}

/// Every CPU runs something: the first one of a node an acceptor, and every other one
/// is there for a shard, with the number of its node.
pub proof fn law_every_cpu_is_used(nodes: Seq<NumaNode>, a: int, i: int) -> (k: int)
    requires
        0 <= a < nodes.len(),
        0 <= i < nodes[a].cpu_ids@.len(),
    ensures
        i == 0 ==> 0 <= k < first_cpus(nodes).len() && first_cpus(nodes)[k]
            == nodes[a].cpu_ids@[0],
        i > 0 ==> 0 <= k < other_cpus(nodes).len() && other_cpus(nodes)[k] == (
            nodes[a].cpu_ids@[i],
            nodes[a].node_id,
        ),
        first_cpus(nodes).len() + other_cpus(nodes).len()
            == crate::numa::detection::cpu_count(nodes),
    decreases nodes.len(),
{
    let init = nodes.drop_last();
    let last = nodes.len() - 1;
    lemma_cpus_are_split(nodes);
    if a < last {
        assert(init[a] == nodes[a]);
        law_every_cpu_is_used(init, a, i)
    } else if i == 0 {
        first_cpus(init).len() as int
    } else {
        other_cpus(init).len() + i - 1
    }
}

proof fn lemma_cpus_are_split(nodes: Seq<NumaNode>)
    ensures
        first_cpus(nodes).len() + other_cpus(nodes).len()
            == crate::numa::detection::cpu_count(nodes),
    decreases nodes.len(),
{
    if nodes.len() > 0 {
        lemma_cpus_are_split(nodes.drop_last());
    }
}

/// Shard `k` runs on the CPU at place `k` of those that shards can run on. There are
/// as many shards as were asked for, or as many as there are CPUs if that is fewer or
/// nothing was asked for.
pub proof fn law_shards_fill_cpus_in_order(
    cpus: Seq<(usize, usize)>,
    num_shards: Option<usize>,
    k: int,
)
    ensures
        ({
            let n = shard_count(cpus.len(), num_shards);
            &&& num_shards is None ==> n == cpus.len()
            &&& num_shards is Some && num_shards->0 <= cpus.len() ==> n == num_shards->0
            &&& num_shards is Some && num_shards->0 > cpus.len() ==> n == cpus.len()
            &&& assigned(cpus, n).len() == n
            &&& 0 <= k < n ==> assigned(cpus, n)[k].cpu_id == cpus[k].0 && assigned(
                cpus,
                n,
            )[k].numa_node == cpus[k].1
        }),
{
}

/// Shards can run on all CPUs that the acceptors do not take. If these take all, one
/// shard runs: on the CPU of the first acceptor.
pub proof fn law_shards_take_what_acceptors_leave(nodes: Seq<NumaNode>)
    requires
        has_cpu(nodes),
    ensures
        other_cpus(nodes).len() > 0 ==> shard_cpus(nodes) == other_cpus(nodes),
        other_cpus(nodes).len() == 0 ==> shard_cpus(nodes).len() == 1 && shard_cpus(nodes)[0].0
            == first_cpus(nodes)[0] && shard_cpus(nodes)[0].1 == nodes[0].node_id,
{
}

} // verus!
