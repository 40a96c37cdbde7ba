//! The memory nodes of a machine and their processors.

use vstd::prelude::*;
use vstd::slice::slice_subrange;
use vstd::string::*;

use crate::order;
use crate::order::insert_ordered;
use crate::text;
use crate::text::{chars_of, find, parse_unsigned, trim};

verus! {

/// A NUMA node with its CPU cores.
#[derive(Debug, Clone)]
pub struct NumaNode {
    pub node_id: usize,
    pub cpu_ids: Vec<usize>,
}

/// System NUMA topology.
#[derive(Debug, Clone)]
pub struct NumaTopology {
    pub nodes: Vec<NumaNode>,
}

/// An entry of the directory that describes the nodes: its name, and what its
/// list of processors says, if it has one.
pub struct NodeEntry {
    pub name: String,
    pub cpulist: Option<String>,
}

/// The numbers from `a` to `b`, both included.
pub open spec fn from_to(a: nat, b: nat) -> Seq<usize> {
    Seq::new(
        if a <= b {
            (b - a + 1) as nat
        } else {
            0
        },
        |i: int| (a + i) as usize,
    )
}

/// The processors that one part of a list names: a range, or a single one. Parts
/// that name none are skipped.
pub open spec fn part_cpus(part: Seq<char>) -> Seq<usize> {
    let p = text::trimmed(part);
    let at = text::first_of(p, '-') as int;
    if at < p.len() {
        match (
            text::parsed_unsigned(p.take(at), usize::MAX as nat),
            text::parsed_unsigned(p.skip(at + 1), usize::MAX as nat),
        ) {
            (Some(a), Some(b)) => from_to(a, b),
            _ => Seq::empty(),
        }
    } else {
        match text::parsed_unsigned(p, usize::MAX as nat) {
            Some(cpu) => seq![cpu as usize],
            None => Seq::empty(),
        }
    }
}

/// The processors that a list such as "0-3,5,7-9" names, part by part.
pub open spec fn listed_cpus(s: Seq<char>) -> Seq<usize>
    decreases s.len(),
{
    let at = text::first_of(s, ',') as int;
    if at < s.len() {
        part_cpus(s.take(at)) + listed_cpus(s.skip(at + 1))
    } else {
        part_cpus(s)
    }
}

/// Appends the numbers from `a` to `b`, both included.
fn push_from_to(cpus: &mut Vec<usize>, a: usize, b: usize)
    ensures
        final(cpus)@ == old(cpus)@ + from_to(a as nat, b as nat),
{
    if a > b {
        assert(cpus@ =~= old(cpus)@ + from_to(a as nat, b as nat));
        return ;
    }
    let mut c: usize = a;
    cpus.push(c);
    assert(cpus@ =~= old(cpus)@ + from_to(a as nat, c as nat));
    while c < b
        invariant
            a <= c <= b,
            cpus@ == old(cpus)@ + from_to(a as nat, c as nat),
        decreases b - c,
    {
        c = c + 1;
        let ghost before = cpus@;
        cpus.push(c);
        assert(cpus@ =~= old(cpus)@ + from_to(a as nat, c as nat));
    }
}

/// Appends the processors that one part of a list names.
fn push_part(cpus: &mut Vec<usize>, part: &[char])
    ensures
        final(cpus)@ == old(cpus)@ + part_cpus(part@),
{
    let p: &[char] = trim(part);
    let at: usize = find(p, '-');
    let max: u64 = usize::MAX as u64;
    if at < p.len() {
        let left: &[char] = slice_subrange(p, 0, at);
        let right: &[char] = slice_subrange(p, at + 1, p.len());
        assert(left@ =~= p@.take(at as int));
        assert(right@ =~= p@.skip(at + 1));
        match (parse_unsigned(left, max), parse_unsigned(right, max)) {
            (Some(a), Some(b)) => {
                push_from_to(cpus, a as usize, b as usize);
            },
            _ => {
                assert(cpus@ =~= old(cpus)@ + part_cpus(part@));
            },
        }
    } else {
        match parse_unsigned(p, max) {
            Some(cpu) => {
                cpus.push(cpu as usize);
            },
            None => {},
        }
        assert(cpus@ =~= old(cpus)@ + part_cpus(part@));
    }
}

fn cpus_of(s: &[char]) -> (cpus: Vec<usize>)
    ensures
        cpus@ == listed_cpus(s@),
{
    let mut cpus: Vec<usize> = Vec::new();
    let mut from: usize = 0;
    assert(s@.skip(0) =~= s@);
    assert(cpus@ + listed_cpus(s@.skip(0)) =~= listed_cpus(s@));
    loop
        invariant
            from <= s.len(),
            cpus@ + listed_cpus(s@.skip(from as int)) == listed_cpus(s@),
        decreases s.len() - from,
    {
        let rest: &[char] = slice_subrange(s, from, s.len());
        assert(rest@ =~= s@.skip(from as int));
        let at: usize = find(rest, ',');
        let ghost before = cpus@;
        if at >= rest.len() {
            push_part(&mut cpus, rest);
            return cpus;
        }
        let part: &[char] = slice_subrange(rest, 0, at);
        assert(part@ =~= rest@.take(at as int));
        push_part(&mut cpus, part);
        proof {
            let tail = s@.skip(from + at + 1);
            assert(rest@.skip(at + 1) =~= tail);
            assert(cpus@ + listed_cpus(tail) =~= before + listed_cpus(rest@));
        }
        from = from + at + 1;
    }
}

/// Parses a Linux cpulist string like "0-3,5,7-9" into a list of CPU ids.
pub fn parse_cpulist(s: &str) -> (cpus: Vec<usize>)
    ensures
        cpus@ == listed_cpus(s@),
{
    let chars: Vec<char> = chars_of(s);
    cpus_of(chars.as_slice())
}

/// The number of the node that a name stands for: the name is "node" and the
/// number.
pub open spec fn named_node(n: Seq<char>) -> Option<usize> {
    if n.len() >= 4 && n.take(4) == seq!['n', 'o', 'd', 'e'] {
        match text::parsed_unsigned(n.skip(4), usize::MAX as nat) {
            Some(id) => Some(id as usize),
            None => None,
        }
    } else {
        None
    }
}

/// The number of the node that a directory entry describes, if it describes one:
/// it is named after a node, and it has a list of processors.
pub open spec fn entry_node(e: NodeEntry) -> Option<usize> {
    if e.cpulist is Some {
        named_node(e.name@)
    } else {
        None
    }
}

/// Whether a node is what a directory entry describes.
pub open spec fn describes(e: NodeEntry, node: NumaNode) -> bool {
    entry_node(e) == Some(node.node_id) && node.cpu_ids@ == listed_cpus(
        text::trimmed(e.cpulist->0@),
    )
}

/// The number of the node that a directory entry is named after, if it is.
pub fn node_id_of(entry_name: &String) -> (r: Option<usize>)
    ensures
        r == named_node(entry_name@),
{
    let all: Vec<char> = chars_of(entry_name.as_str());
    let name: &[char] = all.as_slice();
    let n: usize = name.len();
    if n < 4 || name[0] != 'n' || name[1] != 'o' || name[2] != 'd' || name[3] != 'e' {
        proof {
            if n >= 4 {
                let t = entry_name@.take(4);
                assert(t[0] == name@[0] && t[1] == name@[1] && t[2] == name@[2] && t[3]
                    == name@[3]);
            }
        }
        return None;
    }
    assert(entry_name@.take(4) =~= seq!['n', 'o', 'd', 'e']);
    let digits: &[char] = slice_subrange(name, 4, n);
    assert(digits@ =~= entry_name@.skip(4));
    match parse_unsigned(digits, usize::MAX as u64) {
        Some(id) => Some(id as usize),
        None => None,
    }
}

/// The node that a directory entry describes.
fn node_number(e: &NodeEntry) -> (r: Option<usize>)
    ensures
        r == entry_node(*e),
{
    if e.cpulist.is_none() {
        return None;
    }
    node_id_of(&e.name)
}

/// Whether `list` holds the node entries of a directory: their numbers,
/// ascending, each with its position.
pub open spec fn lists_nodes(entries: Seq<NodeEntry>, list: Seq<(u64, usize)>) -> bool {
    &&& order::ordered(list)
    &&& forall|k: int|
        0 <= k < list.len() ==> (#[trigger] list[k]).1 < entries.len() && entry_node(
            entries[list[k].1 as int],
        ) == Some(list[k].0 as usize) && list[k].0 <= usize::MAX
    &&& forall|i: int|
        0 <= i < entries.len() ==> ((#[trigger] entry_node(entries[i])) matches Some(id)
            ==> list.contains((id as u64, i as usize)))
}

fn sorted_nodes(entries: &Vec<NodeEntry>) -> (list: Vec<(u64, usize)>)
    ensures
        lists_nodes(entries@, list@),
{
    let mut list: Vec<(u64, usize)> = Vec::new();
    let mut i: usize = 0;
    while i < entries.len()
        invariant
            i <= entries@.len(),
            order::ordered(list@),
            forall|k: int|
                0 <= k < list@.len() ==> (#[trigger] list@[k]).1 < i && entry_node(
                    entries@[list@[k].1 as int],
                ) == Some(list@[k].0 as usize) && list@[k].0 <= usize::MAX,
            forall|j: int|
                0 <= j < i ==> ((#[trigger] entry_node(entries@[j])) matches Some(id)
                    ==> list@.contains((id as u64, j as usize))),
        decreases entries@.len() - i,
    {
        let ghost before = list@;
        match node_number(&entries[i]) {
            Some(id) => {
                insert_ordered(&mut list, id as u64, i);
                assert forall|k: int| 0 <= k < list@.len() implies (#[trigger] list@[k]).1 <= i
                    && entry_node(entries@[list@[k].1 as int]) == Some(list@[k].0 as usize)
                    && list@[k].0 <= usize::MAX by {
                    let x = list@[k];
                    assert(list@.contains(x));
                    if x != (id as u64, i) {
                        let j = choose|j: int| 0 <= j < before.len() && before[j] == x;
                        assert(before[j].1 < i);
                    }
                }
            },
            None => {},
        }
        i = i + 1;
    }
    list
}

/// How many CPUs nodes have together.
pub open spec fn cpu_count(nodes: Seq<NumaNode>) -> nat
    decreases nodes.len(),
{
    if nodes.len() == 0 {
        0
    } else {
        cpu_count(nodes.drop_last()) + nodes.last().cpu_ids@.len()
    }
}

proof fn lemma_cpu_count_grows(nodes: Seq<NumaNode>, i: int)
    requires
        0 <= i <= nodes.len(),
    ensures
        cpu_count(nodes.take(i)) <= cpu_count(nodes),
    decreases nodes.len(),
{
    if i == nodes.len() {
        assert(nodes.take(i) =~= nodes);
    } else {
        lemma_cpu_count_grows(nodes.drop_last(), i);
        assert(nodes.drop_last().take(i) =~= nodes.take(i));
    }
}

impl NumaTopology {
    /// The topology that the entries of a node directory describe, nodes in
    /// ascending order; `None` if they describe no node.
    pub fn from_entries(entries: &Vec<NodeEntry>) -> (r: Option<NumaTopology>)
        ensures
            r is None <==> forall|i: int|
                0 <= i < entries@.len() ==> entry_node(#[trigger] entries@[i]) is None,
            r matches Some(topology) ==> exists|list: Seq<(u64, usize)>|
                #[trigger] lists_nodes(entries@, list) && topology.nodes@.len() == list.len()
                    && forall|k: int|
                    0 <= k < list.len() ==> describes(
                        entries@[list[k].1 as int],
                        #[trigger] topology.nodes@[k],
                    ),
    {
        let list: Vec<(u64, usize)> = sorted_nodes(entries);
        let mut nodes: Vec<NumaNode> = Vec::new();
        let mut k: usize = 0;
        while k < list.len()
            invariant
                k <= list@.len(),
                lists_nodes(entries@, list@),
                nodes@.len() == k,
                forall|j: int|
                    0 <= j < k ==> describes(
                        entries@[list@[j].1 as int],
                        #[trigger] nodes@[j],
                    ),
            decreases list@.len() - k,
        {
            let (id, i): (u64, usize) = list[k];
            assert(list@[k as int].1 < entries@.len());
            match &entries[i].cpulist {
                Some(text) => {
                    let all: Vec<char> = chars_of(text.as_str());
                    let cpu_ids: Vec<usize> = cpus_of(trim(all.as_slice()));
                    nodes.push(NumaNode { node_id: id as usize, cpu_ids });
                },
                None => {},
            }
            k = k + 1;
        }
        if nodes.len() == 0 {
            assert forall|i: int| 0 <= i < entries@.len() implies entry_node(
                #[trigger] entries@[i],
            ) is None by {
                if let Some(id) = entry_node(entries@[i]) {
                    assert(list@.contains((id as u64, i as usize)));
                }
            }
            return None;
        }
        proof {
            let x = list@[0];
            assert(entry_node(entries@[x.1 as int]) is Some);
        }
        Some(NumaTopology { nodes })
    }

    /// Fallback: a single NUMA node with all online CPUs, one if their number is
    /// not known.
    pub fn single_node_fallback(num_cpus: Option<usize>) -> (t: NumaTopology)
        ensures
            t.nodes@.len() == 1,
            t.nodes@[0].node_id == 0,
            t.nodes@[0].cpu_ids@ == Seq::new(
                match num_cpus {
                    Some(n) => n as nat,
                    None => 1,
                },
                |i: int| i as usize,
            ),
    {
        let n: usize = match num_cpus {
            Some(n) => n,
            None => 1,
        };
        let mut cpu_ids: Vec<usize> = Vec::new();
        let mut i: usize = 0;
        while i < n
            invariant
                i <= n,
                cpu_ids@ == Seq::new(i as nat, |k: int| k as usize),
            decreases n - i,
        {
            cpu_ids.push(i);
            i = i + 1;
            assert(cpu_ids@ =~= Seq::new(i as nat, |k: int| k as usize));
        }
        let mut nodes: Vec<NumaNode> = Vec::new();
        nodes.push(NumaNode { node_id: 0, cpu_ids });
        NumaTopology { nodes }
    }

    /// Total number of CPUs across all nodes.
    pub fn total_cpus(&self) -> (n: usize)
        requires
            cpu_count(self.nodes@) <= usize::MAX,
        ensures
            n == cpu_count(self.nodes@),
    {
        let mut n: usize = 0;
        let mut i: usize = 0;
        assert(self.nodes@.take(0) =~= Seq::empty());
        while i < self.nodes.len()
            invariant
                i <= self.nodes@.len(),
                cpu_count(self.nodes@) <= usize::MAX,
                n == cpu_count(self.nodes@.take(i as int)),
            decreases self.nodes@.len() - i,
        {
            proof {
                lemma_cpu_count_grows(self.nodes@, i + 1);
                assert(self.nodes@.take(i + 1).drop_last() =~= self.nodes@.take(i as int));
            }
            n = n + self.nodes[i].cpu_ids.len();
            i = i + 1;
        }
        assert(self.nodes@.take(i as int) =~= self.nodes@);
        n
    }
}

/// A list of processors is read part by part: what stands before the first comma
/// names some, and what stands behind it names the others. A list without a comma is
/// one part.
pub proof fn law_list_is_read_part_by_part(part: Seq<char>, rest: Seq<char>)
    requires
        forall|i: int| 0 <= i < part.len() ==> #[trigger] part[i] != ',',
    ensures
        listed_cpus(part) == part_cpus(part),
        listed_cpus(part + seq![','] + rest) == part_cpus(part) + listed_cpus(rest),
{
    text::lemma_first_of_unique(part, ',', part.len());
    let s = part + seq![','] + rest;
    assert forall|i: int| 0 <= i < part.len() implies s[i] != ',' by {
        assert(s[i] == part[i]);
    }
    text::lemma_first_of_unique(s, ',', part.len());
    assert(s.take(part.len() as int) =~= part);
    assert(s.skip(part.len() as int + 1) =~= rest);
}

/// Text that starts and ends with a digit has nothing to trim.
proof fn lemma_nothing_to_trim(s: Seq<char>)
    requires
        s.len() > 0,
        text::is_digit(s[0]),
        text::is_digit(s.last()),
    ensures
        text::trimmed(s) == s,
{
    text::law_white_space(s[0]);
    text::law_white_space(s.last());
    let ends = text::law_trimming_cuts_white_space_only(s);
}

/// A decimal numeral has no dash and reads back as its number.
proof fn lemma_decimal(a: usize)
    ensures
        text::decimal(a as nat).len() > 0,
        text::is_digit(text::decimal(a as nat)[0]),
        text::is_digit(text::decimal(a as nat).last()),
        forall|j: int|
            0 <= j < text::decimal(a as nat).len() ==> #[trigger] text::decimal(a as nat)[j] != '-',
        text::parsed_unsigned(text::decimal(a as nat), usize::MAX as nat) == Some(a as nat),
{
    let x = text::decimal(a as nat);
    text::lemma_numeral_digits(a as nat, 1);
    text::lemma_parse_numeral(a as nat, 1, usize::MAX as nat);
    assert(text::is_digit(x[0]));
    assert(text::is_digit(x[x.len() - 1]));
    assert forall|j: int| 0 <= j < x.len() implies #[trigger] x[j] != '-' by {
        assert(text::is_digit(x[j]));
    }
}

/// A part that is a number names that processor.
pub proof fn law_number_names_a_processor(a: usize)
    ensures
        part_cpus(text::decimal(a as nat)) == seq![a],
{
    let x = text::decimal(a as nat);
    lemma_decimal(a);
    lemma_nothing_to_trim(x);
    text::lemma_first_of_unique(x, '-', x.len());
}

/// A part that is two numbers with a dash between them names all from the first to the
/// second, in order, and none if the first is above the second.
pub proof fn law_dash_names_a_range(a: usize, b: usize, i: int)
    ensures
        ({
            let range = part_cpus(text::decimal(a as nat) + seq!['-'] + text::decimal(b as nat));
            &&& a <= b ==> range.len() == b - a + 1 && (0 <= i <= b - a ==> range[i] == a + i)
            &&& a > b ==> range.len() == 0
        }),
{
    let (x, y) = (text::decimal(a as nat), text::decimal(b as nat));
    let s = x + seq!['-'] + y;
    let n = x.len() as int;
    lemma_decimal(a);
    lemma_decimal(b);
    assert(s[0] == x[0]);
    assert(s.last() == y.last());
    lemma_nothing_to_trim(s);
    assert forall|j: int| 0 <= j < n implies s[j] != '-' by {
        assert(s[j] == x[j]);
    }
    assert(s[n] == '-');
    text::lemma_first_of_unique(s, '-', x.len());
    assert(s.take(n) =~= x);
    assert(s.skip(n + 1) =~= y);
    assert(part_cpus(s) == from_to(a as nat, b as nat));
}

/// White space around a part does not matter, and a part that is no number and no
/// range of numbers names nothing.
pub proof fn law_malformed_part_names_nothing(part: Seq<char>)
    ensures
        text::trimmed(part).len() == 0 ==> part_cpus(part).len() == 0,
        text::parsed_unsigned(text::trimmed(part), usize::MAX as nat) is None && (forall|i: int|
            0 <= i < text::trimmed(part).len() ==> #[trigger] text::trimmed(part)[i] != '-')
            ==> part_cpus(part).len() == 0,
        part_cpus(text::trimmed(part)) == part_cpus(part),
{
    let p = text::trimmed(part);
    text::lemma_first_of(p, '-');
    let ends = text::law_trimming_cuts_white_space_only(part);
    if p.len() > 0 {
        assert(p[0] == part[ends.0] && p.last() == part[ends.1 - 1]);
        let again = text::law_trimming_cuts_white_space_only(p);
    }
}

/// A directory entry stands for a node if it is named "node" and a number, and for
/// that number; it describes the node if it also has a list of processors.
pub proof fn law_entry_is_named_after_its_node(e: NodeEntry, id: usize)
    ensures
        e.name@ == seq!['n', 'o', 'd', 'e'] + text::decimal(id as nat) && e.cpulist is Some
            ==> entry_node(e) == Some(id),
        e.cpulist is None ==> entry_node(e) is None,
        e.name@.len() < 5 || e.name@[0] != 'n' || e.name@[1] != 'o' || e.name@[2] != 'd'
            || e.name@[3] != 'e' ==> entry_node(e) is None,
{
    let d = text::decimal(id as nat);
    let n = seq!['n', 'o', 'd', 'e'] + d;
    text::lemma_numeral_digits(id as nat, 1);
    text::lemma_parse_numeral(id as nat, 1, usize::MAX as nat);
    assert(n.take(4) =~= seq!['n', 'o', 'd', 'e']);
    assert(n.skip(4) =~= d);
    if e.name@.len() == 4 {
        assert(e.name@.skip(4) =~= Seq::empty());
        assert(text::parsed_unsigned(Seq::empty(), usize::MAX as nat) is None);
    }
    if e.name@.len() >= 4 {
        let t = e.name@.take(4);
        assert(t[0] == e.name@[0] && t[1] == e.name@[1] && t[2] == e.name@[2] && t[3]
            == e.name@[3]);
    }
}

/// The CPUs of nodes are counted node by node.
pub proof fn law_cpus_are_counted_node_by_node(a: Seq<NumaNode>, b: Seq<NumaNode>, n: NumaNode)
    ensures
        cpu_count(a + b) == cpu_count(a) + cpu_count(b),
        cpu_count(seq![n]) == n.cpu_ids@.len(),
        cpu_count(Seq::empty()) == 0,
    decreases b.len(),
{
    assert(seq![n].drop_last() =~= Seq::empty());
    assert(cpu_count(seq![n].drop_last()) == 0);
    if b.len() == 0 {
        assert(a + b =~= a);
    } else {
        law_cpus_are_counted_node_by_node(a, b.drop_last(), n);
        assert((a + b).drop_last() =~= a + b.drop_last());
        assert((a + b).last() == b.last());
    }
}

/// A node is what its entry says: it has the number in the name, and the processors that
/// the list names, white space around it aside.
pub proof fn law_node_is_as_its_entry_says(e: NodeEntry, node: NumaNode, id: usize)
    requires
        describes(e, node),
        e.name@ == seq!['n', 'o', 'd', 'e'] + text::decimal(id as nat),
    ensures
        node.node_id == id,
        e.cpulist is Some,
        node.cpu_ids@ == listed_cpus(text::trimmed(e.cpulist->0@)),
{
    law_entry_is_named_after_its_node(e, id);
}

/// The nodes of a directory are listed by their numbers, ascending: every entry that
/// describes one is in the list, and no other is.
pub proof fn law_nodes_are_listed_by_number(
    entries: Seq<NodeEntry>,
    list: Seq<(u64, usize)>,
    i: int,
    j: int,
)
    requires
        lists_nodes(entries, list),
    ensures
        0 <= i < j < list.len() ==> list[i].0 <= list[j].0,
        0 <= i < list.len() ==> list[i].1 < entries.len() && entry_node(
            entries[list[i].1 as int],
        ) == Some(list[i].0 as usize),
        0 <= i < entries.len() && entry_node(entries[i]) is Some ==> list.contains(
            (entry_node(entries[i])->0 as u64, i as usize),
        ),
{
    if 0 <= i < entries.len() && entry_node(entries[i]) is Some {
        let id = entry_node(entries[i])->0;
        assert(list.contains((id as u64, i as usize)));
    }
}

} // verus!
