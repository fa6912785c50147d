//! Ordering indices by integer keys.
use vstd::prelude::*;

verus! {

/// `order` lists `0..n` once each and `rank` is its inverse.
pub open spec fn is_ranking(order: Seq<usize>, rank: Seq<int>, n: int) -> bool {
    &&& order.len() == n
    &&& rank.len() == n
    &&& forall|m: int| 0 <= m < n ==> #[trigger] order[m] < n && rank[order[m] as int] == m
    &&& forall|x: int| 0 <= x < n ==> 0 <= #[trigger] rank[x] < n && order[rank[x]] == x
}

/// The indices of `keys`, ordered by key.
pub fn order_by_keys(keys: &Vec<i128>) -> (r: (Vec<usize>, Ghost<Seq<int>>))
    ensures
        is_ranking(r.0@, r.1@, keys@.len() as int),
        forall|m1: int, m2: int|
            0 <= m1 < m2 < keys@.len() ==> keys@[r.0@[m1] as int] <= keys@[r.0@[m2] as int],
{
    let n = keys.len();
    let mut order: Vec<usize> = Vec::new();
    let ghost mut rank: Seq<int> = Seq::empty();
    let mut i: usize = 0;
    while i < n
        invariant
            i <= n == keys@.len(),
            is_ranking(order@, rank, i as int),
            forall|m1: int, m2: int|
                0 <= m1 < m2 < i ==> keys@[order@[m1] as int] <= keys@[order@[m2] as int],
        decreases n - i,
    {
        let key = keys[i];
        let mut p: usize = i;
        while p > 0 && keys[order[p - 1]] > key
            invariant
                p <= i == order@.len(),
                i < n == keys@.len(),
                is_ranking(order@, rank, i as int),
                key == keys@[i as int],
                forall|q: int| p <= q < i ==> keys@[order@[q] as int] > key,
            decreases p,
        {
            p = p - 1;
        }
        let ghost before = order@;
        order.insert(p, i);
        proof {
            let new_rank = Seq::new(
                (i + 1) as nat,
                |x: int|
                    if x == i {
                        p as int
                    } else if rank[x] >= p {
                        rank[x] + 1
                    } else {
                        rank[x]
                    },
            );
            assert(order@ == before.subrange(0, p as int).push(i) + before.subrange(
                p as int,
                before.len() as int,
            ));
            assert forall|m: int| 0 <= m < i + 1 implies #[trigger] order@[m] < i + 1
                && new_rank[order@[m] as int] == m by {
                if m < p {
                    assert(order@[m] == before[m]);
                } else if m > p {
                    assert(order@[m] == before[m - 1]);
                }
            }
            assert forall|x: int| 0 <= x < i + 1 implies 0 <= #[trigger] new_rank[x] < i + 1
                && order@[new_rank[x]] == x by {
                if x < i {
                    if rank[x] >= p {
                        assert(order@[rank[x] + 1] == before[rank[x]]);
                    } else {
                        assert(order@[rank[x]] == before[rank[x]]);
                    }
                }
            }
            assert forall|m1: int, m2: int| 0 <= m1 < m2 < i + 1 implies keys@[order@[m1] as int] <= keys@[order@[m2] as int] by {
                if m2 < p {
                } else if m1 > p {
                    assert(order@[m1] == before[m1 - 1]);
                    assert(order@[m2] == before[m2 - 1]);
                } else if m1 == p {
                    assert(order@[m2] == before[m2 - 1]);
                } else if m2 == p {
                    assert(order@[m1] == before[m1]);
                    assert(m1 <= p - 1);
                    if m1 < p - 1 {
                        assert(keys@[before[m1] as int] <= keys@[before[p - 1] as int]);
                    }
                } else {
                    assert(order@[m1] == before[m1]);
                    assert(order@[m2] == before[m2 - 1]);
                }
            }
            rank = new_rank;
        }
        i = i + 1;
    }
    (order, Ghost(rank))
}


} // verus!
