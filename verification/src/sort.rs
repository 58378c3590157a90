//! Stable sorting of positions by key.

use vstd::prelude::*;

verus! {

/// Whether position `a` comes before position `b`: by key, and by position where the keys agree.
pub open spec fn before(keys: Seq<u64>, a: int, b: int) -> bool {
    keys[a] < keys[b] || (keys[a] == keys[b] && a < b)
}

/// `order` lists distinct positions of `keys` in ascending order.
pub open spec fn ascending(keys: Seq<u64>, order: Seq<int>) -> bool {
    &&& forall|i: int| 0 <= i < order.len() ==> 0 <= #[trigger] order[i] < keys.len()
    &&& forall|i: int, j: int|
        0 <= i < j < order.len() ==> before(keys, #[trigger] order[i], #[trigger] order[j])
}

/// How many entries of `order` come before position `p`, as long as they do so from the front.
pub open spec fn insertion_point(keys: Seq<u64>, order: Seq<int>, p: int) -> int
    decreases order.len(),
{
    if order.len() == 0 || before(keys, order.last(), p) {
        order.len() as int
    } else {
        insertion_point(keys, order.drop_last(), p)
    }
}

/// The positions of `keys` sorted by key, equal keys in their original order.
pub open spec fn argsort(keys: Seq<u64>) -> Seq<int>
    decreases keys.len(),
{
    if keys.len() == 0 {
        Seq::empty()
    } else {
        let rest = argsort(keys.drop_last());
        let last = keys.len() - 1;
        rest.insert(insertion_point(keys, rest, last), last)
    }
}

/// A list of machine positions as mathematical ones.
pub open spec fn positions(s: Seq<usize>) -> Seq<int> {
    s.map_values(|x: usize| x as int)
}

pub(crate) proof fn insertion_point_splits(keys: Seq<u64>, order: Seq<int>, p: int)
    requires
        ascending(keys, order),
        0 <= p < keys.len(),
        forall|i: int| 0 <= i < order.len() ==> #[trigger] order[i] != p,
    ensures
        0 <= insertion_point(keys, order, p) <= order.len(),
        forall|i: int|
            0 <= i < insertion_point(keys, order, p) ==> before(keys, #[trigger] order[i], p),
        forall|i: int|
            insertion_point(keys, order, p) <= i < order.len() ==> before(keys, p, #[trigger] order[i]),
    decreases order.len(),
{
    if order.len() == 0 {
    } else if before(keys, order.last(), p) {
        assert forall|i: int| 0 <= i < order.len() implies before(keys, #[trigger] order[i], p) by {
            assert(order.last() == order[order.len() - 1]);
            if i < order.len() - 1 {
                assert(before(keys, order[i], order[order.len() - 1]));
            }
        }
    } else {
        let rest = order.drop_last();
        assert forall|i: int| 0 <= i < rest.len() implies 0 <= #[trigger] rest[i] < keys.len()
            && rest[i] != p by {
            assert(rest[i] == order[i]);
        }
        assert forall|i: int, j: int| 0 <= i < j < rest.len() implies before(
            keys,
            #[trigger] rest[i],
            #[trigger] rest[j],
        ) by {
            assert(rest[i] == order[i] && rest[j] == order[j]);
        }
        insertion_point_splits(keys, rest, p);
        let at = insertion_point(keys, rest, p);
        assert forall|i: int| 0 <= i < at implies before(keys, #[trigger] order[i], p) by {
            assert(rest[i] == order[i]);
        }
        assert forall|i: int| at <= i < order.len() implies before(keys, p, #[trigger] order[i]) by {
            if i < rest.len() {
                assert(rest[i] == order[i]);
            } else {
                assert(order[i] == order.last());
                assert(order[i] != p);
            }
        }
    }
}

/// Sorting lists every position once, in ascending order.
pub proof fn argsort_ascending(keys: Seq<u64>)
    ensures
        argsort(keys).len() == keys.len(),
        ascending(keys, argsort(keys)),
    decreases keys.len(),
{
    if keys.len() > 0 {
        let front = keys.drop_last();
        argsort_ascending(front);
        let rest = argsort(front);
        let last = keys.len() - 1;
        assert forall|i: int| 0 <= i < rest.len() implies 0 <= #[trigger] rest[i] < last by {}
        assert forall|i: int, j: int| 0 <= i < j < rest.len() implies before(
            keys,
            #[trigger] rest[i],
            #[trigger] rest[j],
        ) by {
            assert(before(front, rest[i], rest[j]));
        }
        insertion_point_splits(keys, rest, last);
        let at = insertion_point(keys, rest, last);
        let out = argsort(keys);
        assert(out == rest.insert(at, last));
        assert forall|i: int| 0 <= i < out.len() implies 0 <= #[trigger] out[i] < keys.len() by {
            if i < at {
                assert(out[i] == rest[i]);
            } else if i > at {
                assert(out[i] == rest[i - 1]);
            }
        }
        assert forall|i: int, j: int| 0 <= i < j < out.len() implies before(
            keys,
            #[trigger] out[i],
            #[trigger] out[j],
        ) by {
            if i < at {
                assert(out[i] == rest[i]);
            } else if i > at {
                assert(out[i] == rest[i - 1]);
            }
            if j < at {
                assert(out[j] == rest[j]);
            } else if j > at {
                assert(out[j] == rest[j - 1]);
            }
        }
    }
}

/// An ascending list of as many positions as there are keys names every position.
pub proof fn ascending_covers(keys: Seq<u64>, order: Seq<int>, p: int)
    requires
        ascending(keys, order),
        order.len() == keys.len(),
        0 <= p < keys.len(),
    ensures
        exists|i: int| 0 <= i < order.len() && #[trigger] order[i] == p,
{
    let range = Set::new(|x: int| 0 <= x < keys.len());
    let all = vstd::set_lib::set_int_range(0, keys.len() as int);
    vstd::set_lib::lemma_int_range(0, keys.len() as int);
    assert forall|i: int, j: int| 0 <= i < order.len() && 0 <= j < order.len() && i != j implies
        order[i] != order[j] by {
        if i < j {
            assert(before(keys, order[i], order[j]));
        } else {
            assert(before(keys, order[j], order[i]));
        }
    }
    assert(order.no_duplicates());
    order.unique_seq_to_set();
    assert(order.to_set().subset_of(all)) by {
        assert forall|x: int| order.to_set().contains(x) implies all.contains(x) by {
            let i = choose|i: int| 0 <= i < order.len() && order[i] == x;
            assert(order[i] == x);
        }
    }
    vstd::set_lib::lemma_subset_equality(order.to_set(), all);
    assert(all.contains(p));
    assert(order.to_set().contains(p));
}

/// There is only one ascending list of all positions.
pub proof fn ascending_unique(keys: Seq<u64>, a: Seq<int>, b: Seq<int>)
    requires
        ascending(keys, a),
        ascending(keys, b),
        a.len() == keys.len(),
        b.len() == keys.len(),
    ensures
        a == b,
{
    assert forall|n: int| 0 <= n <= a.len() implies #[trigger] a.take(n) == b.take(n) by {
        ascending_unique_prefix(keys, a, b, n);
    }
    assert(a.take(a.len() as int) == a);
    assert(b.take(a.len() as int) == b);
}

proof fn ascending_unique_prefix(keys: Seq<u64>, a: Seq<int>, b: Seq<int>, n: int)
    requires
        ascending(keys, a),
        ascending(keys, b),
        a.len() == keys.len(),
        b.len() == keys.len(),
        0 <= n <= a.len(),
    ensures
        a.take(n) == b.take(n),
    decreases n,
{
    if n > 0 {
        ascending_unique_prefix(keys, a, b, n - 1);
        assert forall|i: int| 0 <= i < n - 1 implies a[i] == b[i] by {
            assert(a.take(n - 1)[i] == b.take(n - 1)[i]);
        }
        let k = n - 1;
        if a[k] != b[k] {
            ascending_covers(keys, b, a[k]);
            let i = choose|i: int| 0 <= i < b.len() && #[trigger] b[i] == a[k];
            ascending_covers(keys, a, b[k]);
            let j = choose|j: int| 0 <= j < a.len() && #[trigger] a[j] == b[k];
            if i < k {
                assert(a[i] == a[k]);
                assert(before(keys, a[i], a[k]));
            }
            if j < k {
                assert(b[j] == b[k]);
                assert(before(keys, b[j], b[k]));
            }
            assert(before(keys, b[k], b[i]));
            assert(before(keys, a[k], a[j]));
            assert(false);
        }
        assert(a.take(n) =~= b.take(n));
    }
}

/// Sorts the positions `lo..hi` by key.
fn sort_range(keys: &Vec<u64>, lo: usize, hi: usize) -> (order: Vec<usize>)
    requires
        lo <= hi <= keys.len(),
    ensures
        order.len() == hi - lo,
        ascending(keys@, positions(order@)),
        forall|i: int| 0 <= i < order.len() ==> lo <= #[trigger] order[i] < hi,
    decreases hi - lo,
{
    if hi - lo <= 1 {
        let mut out: Vec<usize> = Vec::new();
        if lo < hi {
            out.push(lo);
        }
        return out;
    }
    let mid: usize = lo + (hi - lo) / 2;
    let left = sort_range(keys, lo, mid);
    let right = sort_range(keys, mid, hi);
    merge(keys, &left, &right, mid)
}

/// Merges two sorted lists, the first of positions below `mid`, the second of positions from
/// `mid` on.
fn merge(keys: &Vec<u64>, left: &Vec<usize>, right: &Vec<usize>, mid: usize) -> (out: Vec<usize>)
    requires
        ascending(keys@, positions(left@)),
        ascending(keys@, positions(right@)),
        left.len() + right.len() <= usize::MAX,
        forall|i: int| 0 <= i < left.len() ==> #[trigger] left[i] < mid,
        forall|i: int| 0 <= i < right.len() ==> mid <= #[trigger] right[i],
    ensures
        out.len() == left.len() + right.len(),
        ascending(keys@, positions(out@)),
        forall|i: int|
            0 <= i < out.len() ==> left@.contains(#[trigger] out[i]) || right@.contains(out[i]),
{
    let mut out: Vec<usize> = Vec::with_capacity(left.len() + right.len());
    let mut i: usize = 0;
    let mut j: usize = 0;
    while i < left.len() || j < right.len()
        invariant
            i <= left.len(),
            j <= right.len(),
            left.len() + right.len() <= usize::MAX,
            out.len() == i + j,
            ascending(keys@, positions(left@)),
            ascending(keys@, positions(right@)),
            ascending(keys@, positions(out@)),
            forall|a: int| 0 <= a < left.len() ==> #[trigger] left[a] < mid,
            forall|a: int| 0 <= a < right.len() ==> mid <= #[trigger] right[a],
            forall|a: int|
                0 <= a < out.len() ==> left@.contains(#[trigger] out[a]) || right@.contains(out[a]),
            forall|a: int, b: int|
                0 <= a < out.len() && i <= b < left.len() ==> before(
                    keys@,
                    #[trigger] out[a] as int,
                    #[trigger] left[b] as int,
                ),
            forall|a: int, b: int|
                0 <= a < out.len() && j <= b < right.len() ==> before(
                    keys@,
                    #[trigger] out[a] as int,
                    #[trigger] right[b] as int,
                ),
        decreases left.len() - i + right.len() - j,
    {
        let ghost prev = out@;
        let ghost pl = positions(left@);
        let ghost pr = positions(right@);
        proof {
            assert forall|a: int| 0 <= a < left.len() implies #[trigger] left[a] < keys.len() by {
                assert(pl[a] == left[a]);
            }
            assert forall|a: int| 0 <= a < right.len() implies #[trigger] right[a] < keys.len() by {
                assert(pr[a] == right[a]);
            }
            assert forall|a: int, b: int| 0 <= a < b < left.len() implies before(
                keys@,
                #[trigger] left[a] as int,
                #[trigger] left[b] as int,
            ) by {
                assert(before(keys@, pl[a], pl[b]));
            }
            assert forall|a: int, b: int| 0 <= a < b < right.len() implies before(
                keys@,
                #[trigger] right[a] as int,
                #[trigger] right[b] as int,
            ) by {
                assert(before(keys@, pr[a], pr[b]));
            }
        }
        let take_left = j >= right.len() || (i < left.len() && keys[left[i]] <= keys[right[j]]);
        let x: usize = if take_left { left[i] } else { right[j] };
        out.push(x);
        if take_left {
            i += 1;
        } else {
            j += 1;
        }
        proof {
            let po = positions(out@);
            assert forall|a: int| 0 <= a < out.len() implies 0 <= #[trigger] po[a] < keys.len() by {
                if a < prev.len() {
                    assert(positions(prev)[a] == prev[a]);
                }
            }
            assert forall|a: int, b: int| 0 <= a < b < po.len() implies before(
                keys@,
                #[trigger] po[a],
                #[trigger] po[b],
            ) by {
                assert(out[a] == prev[a]);
                if b < prev.len() {
                    assert(out[b] == prev[b]);
                    assert(before(keys@, positions(prev)[a], positions(prev)[b]));
                }
            }
        }
    }
    out
}

/// Sorts the positions of `keys` by key, equal keys in their original order.
pub fn sort_positions(keys: &Vec<u64>) -> (order: Vec<usize>)
    ensures
        positions(order@) == argsort(keys@),
        order.len() == keys.len(),
        ascending(keys@, positions(order@)),
        forall|i: int| 0 <= i < order.len() ==> #[trigger] order[i] < keys.len(),
{
    let order = sort_range(keys, 0, keys.len());
    proof {
        argsort_ascending(keys@);
        ascending_unique(keys@, positions(order@), argsort(keys@));
    }
    order
}

} // verus!
