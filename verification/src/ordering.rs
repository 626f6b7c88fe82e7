//! Stable descending orders: the permutation a stable sort by a key,
//! largest first, would produce.

use vstd::prelude::*;

verus! {

/// Index `a` precedes index `b`: larger key first, lower index among equal keys.
pub open spec fn desc_before(keys: Seq<u64>, a: int, b: int) -> bool {
    keys[a] > keys[b] || (keys[a] == keys[b] && a < b)
}

/// `order` lists each index of `keys` once, largest key first, ties in index order.
pub open spec fn is_desc_stable_order(keys: Seq<u64>, order: Seq<usize>) -> bool {
    &&& order.len() == keys.len()
    &&& forall|x: usize| x < keys.len() ==> #[trigger] order.contains(x)
    &&& forall|i: int| 0 <= i < order.len() ==> #[trigger] order[i] < keys.len()
    &&& forall|i: int, j: int| 0 <= i < j < order.len() ==> desc_before(keys, order[i] as int, order[j] as int)
}

/// The order in which a stable sort by `keys`, largest first, visits the indices.
pub fn desc_stable_order(keys: &Vec<u64>) -> (order: Vec<usize>)
    ensures
        is_desc_stable_order(keys@, order@),
{
    let n = keys.len();
    let mut order: Vec<usize> = Vec::new();
    let mut k: usize = 0;
    while k < n
        invariant
            0 <= k <= n,
            n == keys@.len(),
            order@.len() == k,
            forall|x: usize| x < k ==> #[trigger] order@.contains(x),
            forall|i: int| 0 <= i < order@.len() ==> #[trigger] order@[i] < k,
            forall|i: int, j: int| 0 <= i < j < order@.len() ==> desc_before(keys@, order@[i] as int, order@[j] as int),
        decreases n - k,
    {
        let g = keys[k];
        let mut pos: usize = 0;
        while pos < order.len() && keys[order[pos]] >= g
            invariant
                0 <= pos <= order@.len(),
                n == keys@.len(),
                forall|i: int| 0 <= i < order@.len() ==> #[trigger] order@[i] < k,
                k < n,
                forall|i: int| 0 <= i < pos ==> keys@[order@[i] as int] >= g,
            decreases order@.len() - pos,
        {
            pos = pos + 1;
        }
        proof {
            assert forall|i: int| pos <= i < order@.len() implies keys@[order@[i] as int] < g by {
                if pos < order@.len() && i > pos {
                    assert(desc_before(keys@, order@[pos as int] as int, order@[i] as int));
                }
            }
        }
        let ghost before = order@;
        order.insert(pos, k);
        proof {
            assert(order@ =~= before.subrange(0, pos as int).push(k).add(before.subrange(pos as int, before.len() as int)));
            assert forall|x: usize| x < k + 1 implies #[trigger] order@.contains(x) by {
                if x == k {
                    assert(order@[pos as int] == k);
                } else {
                    assert(before.contains(x));
                    let j = choose|j: int| 0 <= j < before.len() && before[j] == x;
                    if j < pos {
                        assert(order@[j] == x);
                    } else {
                        assert(order@[j + 1] == x);
                    }
                }
            }
            assert forall|i: int, j: int| 0 <= i < j < order@.len() implies desc_before(keys@, order@[i] as int, order@[j] as int) by {
                if i < pos && j < pos {
                    assert(order@[i] == before[i] && order@[j] == before[j]);
                } else if i < pos && j == pos {
                    assert(order@[i] == before[i]);
                } else if i < pos && j > pos {
                    assert(order@[i] == before[i] && order@[j] == before[j - 1]);
                } else if i == pos {
                    assert(order@[j] == before[j - 1]);
                } else {
                    assert(order@[i] == before[i - 1] && order@[j] == before[j - 1]);
                }
            }
        }
        k = k + 1;
    }
    order
}


/// A stable descending order visits larger keys first: the key at every
/// position is at least every key visited after it, and the first position
/// holds a largest key.
pub proof fn law_larger_keys_first(keys: Seq<u64>, order: Seq<usize>)
    requires
        is_desc_stable_order(keys, order),
        keys.len() <= usize::MAX,
    ensures
        forall|i: int, j: int| 0 <= i < j < order.len() ==> keys[#[trigger] order[i] as int] >= keys[#[trigger] order[j] as int],
        order.len() > 0 ==> forall|x: int| 0 <= x < keys.len() ==> keys[order[0] as int] >= #[trigger] keys[x],
{
    assert forall|i: int, j: int| 0 <= i < j < order.len() implies keys[#[trigger] order[i] as int] >= keys[#[trigger] order[j] as int] by {
        assert(desc_before(keys, order[i] as int, order[j] as int));
    }
    if order.len() > 0 {
        assert forall|x: int| 0 <= x < keys.len() implies keys[order[0] as int] >= #[trigger] keys[x] by {
            assert(order.contains(x as usize));
            let j = choose|j: int| 0 <= j < order.len() && order[j] == x as usize;
            if j > 0 {
                assert(desc_before(keys, order[0] as int, order[j] as int));
            }
        }
    }
}

} // verus!
