//! Lists of numbered things, ordered by number.

use vstd::prelude::*;

verus! {

/// Whether items (key, position) stand in ascending order of their keys, and
/// those with one key in ascending order of their positions.
pub open spec fn ordered(list: Seq<(u64, usize)>) -> bool {
    forall|i: int, j: int|
        0 <= i < j < list.len() ==> (list[i].0 < list[j].0 || (list[i].0 == list[j].0 && list[i].1
            < list[j].1))
}

/// Puts an item whose position is above all others into its place.
pub fn insert_ordered(list: &mut Vec<(u64, usize)>, key: u64, position: usize)
    requires
        ordered(old(list)@),
        forall|k: int| 0 <= k < old(list)@.len() ==> (#[trigger] old(list)@[k]).1 < position,
    ensures
        ordered(final(list)@),
        final(list)@.len() == old(list)@.len() + 1,
        forall|x: (u64, usize)|
            final(list)@.contains(x) <==> old(list)@.contains(x) || x == (key, position),
{
    let ghost before = list@;
    let mut at: usize = list.len();
    while at > 0 && list[at - 1].0 > key
        invariant
            at <= list@.len(),
            list@ == before,
            forall|k: int| at <= k < before.len() ==> before[k].0 > key,
        decreases at,
    {
        at = at - 1;
    }
    list.insert(at, (key, position));
    proof {
        let t = list@;
        assert forall|a: int, b: int| 0 <= a < b < t.len() implies (t[a].0 < t[b].0 || (t[a].0
            == t[b].0 && t[a].1 < t[b].1)) by {
            let x = if a < at {
                a
            } else {
                a - 1
            };
            let y = if b < at {
                b
            } else {
                b - 1
            };
            if a == at {
                assert(t[b] == before[y]);
            } else if b == at {
                assert(t[a] == before[a]);
                if a < at - 1 {
                    assert(before[a].0 <= before[at - 1].0);
                }
            } else {
                assert(t[a] == before[x] && t[b] == before[y]);
            }
        }
        assert forall|x: (u64, usize)| t.contains(x) <==> before.contains(x) || x == (
            key,
            position,
        ) by {
            if t.contains(x) {
                let k = choose|k: int| 0 <= k < t.len() && t[k] == x;
                if k < at {
                    assert(before[k] == x);
                } else if k > at {
                    assert(before[k - 1] == x);
                }
            }
            if before.contains(x) {
                let k = choose|k: int| 0 <= k < before.len() && before[k] == x;
                if k < at {
                    assert(t[k] == x);
                } else {
                    assert(t[k + 1] == x);
                }
            }
            assert(t[at as int] == (key, position));
        }
    }
}

/// In a list in order no item comes twice, keys never go down, and of two items with one
/// key the one with the lower position comes first.
pub proof fn law_order(list: Seq<(u64, usize)>, i: int, j: int)
    requires
        ordered(list),
        0 <= i < j < list.len(),
    ensures
        list[i].0 <= list[j].0,
        list[i].0 == list[j].0 ==> list[i].1 < list[j].1,
        list[i] != list[j],
{
}

} // verus!
