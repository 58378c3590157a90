//! Accumulation of candidate edges per source point.
//!
//! Leaves put out edges; they are collected per source and handed on, each neighbour once with its
//! smallest distance, from near to far. A [`CandidatePool`] keeps only the closest edges of a
//! source, an [`AppendOnlyPool`] keeps all.

use crate::knn::Edge;
use crate::number::Real;
use crate::sink::EdgeSink;
use crate::sort::{ascending, ascending_covers, before, positions, sort_positions};
use vstd::multiset::Multiset;
use vstd::prelude::*;
use vstd::seq_lib::{to_multiset_build, to_multiset_contains, to_multiset_insert, to_multiset_len,
    to_multiset_remove};

verus! {

/// A candidate: neighbour and distance.
pub type Candidate = (u32, Real);

/// What a bounded pool holds: its entries, and which one leaves next, with its distance.
pub struct PoolView {
    pub entries: Seq<Candidate>,
    pub farthest: int,
    pub farthest_dist: Real,
}

/// The first entry with the greatest distance, and that distance, among the first `m`. Entries
/// whose distance is not a number are passed over; where there is no other, the first entry and
/// negative infinity.
pub open spec fn first_farthest(entries: Seq<Candidate>, m: int) -> (int, Real)
    decreases m,
{
    if m <= 0 {
        (0, Real::spec_neg_infinity())
    } else {
        let sofar = first_farthest(entries, m - 1);
        if sofar.1.lt(entries[m - 1].1) {
            (m - 1, entries[m - 1].1)
        } else {
            sofar
        }
    }
}

/// An empty pool.
pub open spec fn empty_pool() -> PoolView {
    PoolView { entries: Seq::empty(), farthest: 0, farthest_dist: Real::spec_neg_infinity() }
}

/// The pool after candidate `e` was offered to it.
pub open spec fn offered(p: PoolView, l_max: nat, e: Candidate) -> PoolView {
    if p.entries.len() < l_max {
        let further = p.farthest_dist.le(e.1);
        PoolView {
            entries: p.entries.push(e),
            farthest: if further {
                p.entries.len() as int
            } else {
                p.farthest
            },
            farthest_dist: if further {
                e.1
            } else {
                p.farthest_dist
            },
        }
    } else if l_max == 0 || p.farthest_dist.le(e.1) {
        p
    } else {
        let entries = p.entries.update(p.farthest, e);
        let f = first_farthest(entries, entries.len() as int);
        PoolView { entries, farthest: f.0, farthest_dist: f.1 }
    }
}

/// The pool after a whole history of candidates, offered in order.
pub open spec fn offered_all(p: PoolView, l_max: nat, history: Seq<Candidate>) -> PoolView
    decreases history.len(),
{
    if history.len() == 0 {
        p
    } else {
        offered(offered_all(p, l_max, history.drop_last()), l_max, history.last())
    }
}

/// The candidates that a pool turned away or let go during a history, in order.
pub open spec fn dropped(l_max: nat, history: Seq<Candidate>) -> Seq<Candidate>
    decreases history.len(),
{
    if history.len() == 0 {
        Seq::empty()
    } else {
        let p = offered_all(empty_pool(), l_max, history.drop_last());
        let e = history.last();
        let past = dropped(l_max, history.drop_last());
        if p.entries.len() < l_max {
            past
        } else if l_max == 0 || p.farthest_dist.le(e.1) {
            past.push(e)
        } else {
            past.push(p.entries[p.farthest])
        }
    }
}

/// No distance is undefined.
pub open spec fn all_numbers(list: Seq<Candidate>) -> bool {
    forall|i: int| 0 <= i < list.len() ==> !(#[trigger] list[i]).1.nan()
}

proof fn first_farthest_bounds(entries: Seq<Candidate>, m: int)
    requires
        0 <= m <= entries.len(),
    ensures
        0 <= first_farthest(entries, m).0 < if m > 0 { m } else { 1 },
        !first_farthest(entries, m).1.nan(),
        forall|i: int|
            0 <= i < m && !(#[trigger] entries[i]).1.nan() ==> entries[i].1.le(
                first_farthest(entries, m).1,
            ),
        first_farthest(entries, m).1 == Real::spec_neg_infinity() || (m > 0 && first_farthest(
            entries,
            m,
        ).1 == entries[first_farthest(entries, m).0].1),
    decreases m,
{
    if m > 0 {
        first_farthest_bounds(entries, m - 1);
    }
}

proof fn first_farthest_marks(entries: Seq<Candidate>)
    requires
        entries.len() > 0,
        all_numbers(entries),
    ensures
        ({
            let f = first_farthest(entries, entries.len() as int);
            &&& 0 <= f.0 < entries.len()
            &&& f.1.rank() == entries[f.0].1.rank()
            &&& !f.1.nan()
            &&& forall|i: int| 0 <= i < entries.len() ==> (#[trigger] entries[i]).1.le(f.1)
        }),
{
    let m = entries.len() as int;
    first_farthest_bounds(entries, m);
    let f = first_farthest(entries, m);
    assert(entries[f.0].1.le(f.1));
    if f.1 == Real::spec_neg_infinity() {
        assert(Real::spec_neg_infinity().le(entries[f.0].1));
    }
}

/// A pool whose mark points at a farthest entry.
pub open spec fn pool_valid(p: PoolView, l_max: nat) -> bool {
    &&& p.entries.len() <= l_max
    &&& p.entries.len() > 0 ==> 0 <= p.farthest < p.entries.len()
    &&& p.entries.len() == 0 ==> p.farthest == 0
    &&& !p.farthest_dist.nan()
}

/// Offering keeps a pool valid.
pub proof fn offered_valid(p: PoolView, l_max: nat, e: Candidate)
    requires
        pool_valid(p, l_max),
    ensures
        pool_valid(offered(p, l_max, e), l_max),
{
    if p.entries.len() >= l_max && l_max > 0 && !p.farthest_dist.le(e.1) {
        let entries = p.entries.update(p.farthest, e);
        first_farthest_bounds(entries, entries.len() as int);
    }
}

/// After any history without undefined distances, what a pool keeps and what it dropped together
/// are the history; it keeps as much as it may; and nothing it dropped was closer than anything
/// it keeps.
pub proof fn pool_keeps_closest(l_max: nat, history: Seq<Candidate>)
    requires
        all_numbers(history),
    ensures
        ({
            let p = offered_all(empty_pool(), l_max, history);
            let gone = dropped(l_max, history);
            &&& p.entries.len() == if history.len() < l_max { history.len() } else { l_max }
            &&& p.entries.to_multiset().add(gone.to_multiset()) == history.to_multiset()
            &&& forall|i: int, j: int|
                0 <= i < p.entries.len() && 0 <= j < gone.len() ==> (#[trigger] p.entries[i]).1.le(
                    (#[trigger] gone[j]).1,
                )
        }),
    decreases history.len(),
{
    pool_history(l_max, history);
}

pub(crate) proof fn pool_history(l_max: nat, history: Seq<Candidate>)
    requires
        all_numbers(history),
    ensures
        ({
            let p = offered_all(empty_pool(), l_max, history);
            let gone = dropped(l_max, history);
            &&& all_numbers(p.entries)
            &&& pool_valid(p, l_max)
            &&& p.entries.len() > 0 ==> {
                &&& p.farthest_dist.rank() == p.entries[p.farthest].1.rank()
                &&& forall|i: int|
                    0 <= i < p.entries.len() ==> (#[trigger] p.entries[i]).1.le(p.farthest_dist)
            }
            &&& p.entries.len() == 0 ==> p.farthest_dist == Real::spec_neg_infinity()
            &&& p.entries.len() == if history.len() < l_max { history.len() } else { l_max }
            &&& p.entries.to_multiset().add(gone.to_multiset()) =~= history.to_multiset()
            &&& forall|i: int, j: int|
                0 <= i < p.entries.len() && 0 <= j < gone.len() ==> (#[trigger] p.entries[i]).1.le(
                    (#[trigger] gone[j]).1,
                )
        }),
    decreases history.len(),
{
    if history.len() == 0 {
        assert(Seq::<Candidate>::empty().to_multiset().add(
            Seq::<Candidate>::empty().to_multiset(),
        ) =~= history.to_multiset()) by {
            assert(history =~= Seq::<Candidate>::empty());
            to_multiset_len(Seq::<Candidate>::empty());
            assert(Seq::<Candidate>::empty().to_multiset() =~= Multiset::empty());
        }
    } else {
        let past = history.drop_last();
        let e = history.last();
        assert(all_numbers(past));
        pool_history(l_max, past);
        let p = offered_all(empty_pool(), l_max, past);
        let next = offered_all(empty_pool(), l_max, history);
        let gone = dropped(l_max, past);
        let gone_next = dropped(l_max, history);
        assert(history =~= past.push(e));
        to_multiset_build(past, e);
        assert(!e.1.nan());
        assert(Real::spec_neg_infinity().le(e.1));
        offered_valid(p, l_max, e);
        if p.entries.len() < l_max {
            to_multiset_build(p.entries, e);
            assert(gone.len() == 0) by {
                to_multiset_len(gone);
                to_multiset_len(past);
                to_multiset_len(p.entries);
            }
            assert(next.entries.to_multiset().add(gone_next.to_multiset())
                =~= history.to_multiset());
        } else if l_max == 0 || p.farthest_dist.le(e.1) {
            to_multiset_build(gone, e);
            assert(next.entries.to_multiset().add(gone_next.to_multiset())
                =~= history.to_multiset());
            assert forall|i: int, j: int|
                0 <= i < next.entries.len() && 0 <= j < gone_next.len() implies (
            #[trigger] next.entries[i]).1.le((#[trigger] gone_next[j]).1) by {
                if j < gone.len() {
                    assert(gone_next[j] == gone[j]);
                }
            }
        } else {
            let f = p.farthest;
            let out = p.entries[f];
            to_multiset_build(gone, out);
            to_multiset_remove(p.entries, f);
            to_multiset_insert(p.entries.remove(f), f, e);
            assert(p.entries.remove(f).insert(f, e) =~= next.entries);
            to_multiset_contains(p.entries, out);
            assert(p.entries.contains(out));
            assert(next.entries.to_multiset().add(gone_next.to_multiset())
                =~= history.to_multiset());
            first_farthest_marks(next.entries);
            assert forall|i: int, j: int|
                0 <= i < next.entries.len() && 0 <= j < gone_next.len() implies (
            #[trigger] next.entries[i]).1.le((#[trigger] gone_next[j]).1) by {
                if j < gone.len() {
                    assert(gone_next[j] == gone[j]);
                    assert(p.entries[f].1.le(gone[j].1));
                    assert(p.entries[i].1.le(gone[j].1));
                } else {
                    assert(p.entries[i].1.le(p.farthest_dist));
                }
            }
        }
    }
}

/// The closest candidates of one source.
#[derive(Debug)]
pub struct BoundedPool {
    entries: Vec<Candidate>,
    farthest_idx: usize,
    farthest_dist: Real,
}

impl View for BoundedPool {
    type V = PoolView;

    closed spec fn view(&self) -> PoolView {
        PoolView {
            entries: self.entries@,
            farthest: self.farthest_idx as int,
            farthest_dist: self.farthest_dist,
        }
    }
}

impl BoundedPool {
    /// An empty pool.
    pub fn new() -> (r: Self)
        ensures
            r@ == empty_pool(),
    {
        let r = BoundedPool {
            entries: Vec::new(),
            farthest_idx: 0,
            farthest_dist: Real::neg_infinity(),
        };
        assert(r@.entries =~= Seq::empty());
        r
    }

    /// Offers a candidate to a pool of at most `l_max`.
    pub fn insert(&mut self, neighbor: u32, distance: Real, l_max: usize)
        requires
            pool_valid(old(self)@, l_max as nat),
        ensures
            final(self)@ == offered(old(self)@, l_max as nat, (neighbor, distance)),
            pool_valid(final(self)@, l_max as nat),
    {
        proof {
            offered_valid(self@, l_max as nat, (neighbor, distance));
        }
        let further = self.farthest_dist.is_at_most(distance);
        if self.entries.len() < l_max {
            let idx: usize = self.entries.len();
            self.entries.push((neighbor, distance));
            if further {
                self.farthest_dist = distance;
                self.farthest_idx = idx;
            }
            return ;
        }
        if l_max == 0 || further {
            return ;
        }
        self.entries.set(self.farthest_idx, (neighbor, distance));
        self.recompute_farthest();
    }

    /// Marks the first farthest entry.
    fn recompute_farthest(&mut self)
        ensures
            final(self)@.entries == old(self)@.entries,
            (final(self)@.farthest, final(self)@.farthest_dist) == first_farthest(
                old(self)@.entries,
                old(self)@.entries.len() as int,
            ),
    {
        let mut max_d = Real::neg_infinity();
        let mut max_i: usize = 0;
        let mut i: usize = 0;
        while i < self.entries.len()
            invariant
                i <= self.entries@.len(),
                (max_i as int, max_d) == first_farthest(self.entries@, i as int),
                self.entries@ == old(self).entries@,
            decreases self.entries@.len() - i,
        {
            let d = self.entries[i].1;
            if max_d.is_less(d) {
                max_d = d;
                max_i = i;
            }
            i += 1;
        }
        self.farthest_dist = max_d;
        self.farthest_idx = max_i;
    }

    /// Gives the entries out.
    pub fn into_entries(self) -> (r: Vec<Candidate>)
        ensures
            r@ == self@.entries,
    {
        self.entries
    }
}

/// Whether a list is what remains of `entries` once every neighbour is listed once, with its
/// smallest distance, from near to far, equal distances by neighbour.
pub open spec fn dedupped(entries: Seq<Candidate>, list: Seq<Candidate>) -> bool {
    &&& forall|i: int| 0 <= i < list.len() ==> entries.contains(#[trigger] list[i])
    &&& forall|i: int, j: int|
        0 <= i < j < list.len() ==> {
            &&& (#[trigger] list[i]).0 != (#[trigger] list[j]).0
            &&& list[i].1.rank() < list[j].1.rank() || (list[i].1.rank() == list[j].1.rank()
                && list[i].0 < list[j].0)
        }
    &&& forall|x: int|
        0 <= x < entries.len() ==> exists|i: int|
            #![trigger list[i]]
            0 <= i < list.len() && list[i].0 == (#[trigger] entries[x]).0 && list[i].1.rank()
                <= entries[x].1.rank()
}

/// Sort key of a candidate: by neighbour, then by distance.
spec fn id_key(e: Candidate) -> u64 {
    (e.0 * 0x1_0000_0000 + e.1.rank()) as u64
}

proof fn id_key_order(a: Candidate, b: Candidate)
    requires
        id_key(a) <= id_key(b),
    ensures
        a.0 <= b.0,
        a.0 == b.0 ==> a.1.rank() <= b.1.rank(),
{
}

/// Lists every neighbour once, with its smallest distance, ascending by neighbour.
fn dedup_by_id(entries: &Vec<Candidate>) -> (list: Vec<Candidate>)
    ensures
        forall|i: int| 0 <= i < list@.len() ==> entries@.contains(#[trigger] list@[i]),
        forall|i: int, j: int|
            0 <= i < j < list@.len() ==> (#[trigger] list@[i]).0 < (#[trigger] list@[j]).0,
        forall|x: int|
            0 <= x < entries@.len() ==> exists|i: int|
                #![trigger list@[i]]
                0 <= i < list@.len() && list@[i].0 == (#[trigger] entries@[x]).0
                    && list@[i].1.rank() <= entries@[x].1.rank(),
{
    let n: usize = entries.len();
    let mut keys: Vec<u64> = Vec::with_capacity(n);
    let mut x: usize = 0;
    while x < n
        invariant
            x <= n == entries@.len(),
            keys@.len() == x,
            forall|y: int| 0 <= y < x ==> #[trigger] keys@[y] == id_key(entries@[y]),
        decreases n - x,
    {
        let e = entries[x];
        keys.push(e.0 as u64 * 0x1_0000_0000 + e.1.order_rank() as u64);
        x += 1;
    }
    let order = sort_positions(&keys);
    let ghost ord = positions(order@);
    let mut list: Vec<Candidate> = Vec::with_capacity(n);
    let mut x: usize = 0;
    while x < n
        invariant
            x <= n == entries@.len(),
            order@.len() == n,
            keys@.len() == n,
            ord == positions(order@),
            ascending(keys@, ord),
            forall|y: int| 0 <= y < n ==> #[trigger] keys@[y] == id_key(entries@[y]),
            forall|y: int| 0 <= y < n ==> #[trigger] order@[y] < n,
            forall|i: int| 0 <= i < list@.len() ==> entries@.contains(#[trigger] list@[i]),
            forall|i: int, j: int|
                0 <= i < j < list@.len() ==> (#[trigger] list@[i]).0 < (#[trigger] list@[j]).0,
            x > 0 ==> list@.len() > 0 && list@.last().0 == entries@[ord[x - 1]].0
                && list@.last().1.rank() <= entries@[ord[x - 1]].1.rank(),
            forall|y: int|
                0 <= y < x ==> exists|i: int|
                    #![trigger list@[i]]
                    0 <= i < list@.len() && list@[i].0 == entries@[#[trigger] ord[y]].0
                        && list@[i].1.rank() <= entries@[ord[y]].1.rank(),
            x == 0 ==> list@.len() == 0,
        decreases n - x,
    {
        let e = entries[order[x]];
        let ghost prior = list@;
        assert(ord[x as int] == order@[x as int]);
        proof {
            if x > 0 {
                assert(before(keys@, ord[x - 1], ord[x as int]));
                assert(keys@[ord[x - 1]] == id_key(entries@[ord[x - 1]]));
                assert(keys@[ord[x as int]] == id_key(entries@[ord[x as int]]));
                id_key_order(entries@[ord[x - 1]], e);
            }
        }
        let fresh = x == 0 || list[list.len() - 1].0 != e.0;
        if fresh {
            list.push(e);
        }
        proof {
            if fresh {
                assert(list@.last() == e);
                assert(entries@.contains(e)) by {
                    assert(entries@[ord[x as int]] == e);
                }
                assert forall|i: int, j: int| 0 <= i < j < list@.len() implies (
                #[trigger] list@[i]).0 < (#[trigger] list@[j]).0 by {
                    if j == prior.len() {
                        assert(prior[i].0 <= prior.last().0);
                    }
                }
            }
            assert forall|y: int| 0 <= y < x + 1 implies exists|i: int|
                #![trigger list@[i]]
                0 <= i < list@.len() && list@[i].0 == entries@[#[trigger] ord[y]].0
                    && list@[i].1.rank() <= entries@[ord[y]].1.rank() by {
                if y < x {
                    let i = choose|i: int|
                        #![trigger prior[i]]
                        0 <= i < prior.len() && prior[i].0 == entries@[ord[y]].0
                            && prior[i].1.rank() <= entries@[ord[y]].1.rank();
                    assert(list@[i] == prior[i]);
                } else {
                    let i = list@.len() - 1;
                    assert(list@[i].0 == e.0);
                }
            }
        }
        x += 1;
    }
    proof {
        assert forall|y: int| 0 <= y < entries@.len() implies exists|i: int|
            #![trigger list@[i]]
            0 <= i < list@.len() && list@[i].0 == (#[trigger] entries@[y]).0 && list@[i].1.rank()
                <= entries@[y].1.rank() by {
            ascending_covers(keys@, ord, y);
            let z = choose|z: int| 0 <= z < ord.len() && #[trigger] ord[z] == y;
            assert(entries@[ord[z]] == entries@[y]);
        }
    }
    list
}

/// Lists every neighbour once, with its smallest distance, from near to far.
pub fn dedup_sorted(entries: Vec<Candidate>) -> (out: Vec<Candidate>)
    ensures
        dedupped(entries@, out@),
{
    let list = dedup_by_id(&entries);
    let n: usize = list.len();
    let mut keys: Vec<u64> = Vec::with_capacity(n);
    let mut x: usize = 0;
    while x < n
        invariant
            x <= n == list@.len(),
            keys@.len() == x,
            forall|y: int| 0 <= y < x ==> #[trigger] keys@[y] == list@[y].1.rank() as u64,
        decreases n - x,
    {
        keys.push(list[x].1.order_rank() as u64);
        x += 1;
    }
    let order = sort_positions(&keys);
    let ghost ord = positions(order@);
    let mut out: Vec<Candidate> = Vec::with_capacity(n);
    let mut x: usize = 0;
    while x < n
        invariant
            x <= n == list@.len(),
            order@.len() == n,
            ord == positions(order@),
            forall|y: int| 0 <= y < n ==> #[trigger] order@[y] < n,
            out@.len() == x,
            forall|y: int| 0 <= y < x ==> #[trigger] out@[y] == list@[ord[y]],
        decreases n - x,
    {
        assert(ord[x as int] == order@[x as int]);
        out.push(list[order[x]]);
        x += 1;
    }
    proof {
        assert forall|i: int| 0 <= i < out@.len() implies entries@.contains(#[trigger] out@[i]) by {
            assert(0 <= ord[i] < n);
            assert(entries@.contains(list@[ord[i]]));
        }
        assert forall|i: int, j: int| 0 <= i < j < out@.len() implies {
            &&& (#[trigger] out@[i]).0 != (#[trigger] out@[j]).0
            &&& out@[i].1.rank() < out@[j].1.rank() || (out@[i].1.rank() == out@[j].1.rank()
                && out@[i].0 < out@[j].0)
        } by {
            assert(before(keys@, ord[i], ord[j]));
            assert(0 <= ord[i] < n && 0 <= ord[j] < n);
            assert(keys@[ord[i]] == list@[ord[i]].1.rank() as u64);
            assert(keys@[ord[j]] == list@[ord[j]].1.rank() as u64);
            if ord[i] < ord[j] {
                assert(list@[ord[i]].0 < list@[ord[j]].0);
            } else {
                assert(list@[ord[j]].0 < list@[ord[i]].0);
            }
        }
        assert forall|x: int| 0 <= x < entries@.len() implies exists|i: int|
            #![trigger out@[i]]
            0 <= i < out@.len() && out@[i].0 == (#[trigger] entries@[x]).0 && out@[i].1.rank()
                <= entries@[x].1.rank() by {
            let i = choose|i: int|
                #![trigger list@[i]]
                0 <= i < list@.len() && list@[i].0 == entries@[x].0 && list@[i].1.rank()
                    <= entries@[x].1.rank();
            ascending_covers(keys@, ord, i);
            let z = choose|z: int| 0 <= z < ord.len() && #[trigger] ord[z] == i;
            assert(out@[z] == list@[i]);
        }
    }
    out
}

/// The candidate that an edge makes of its destination; ids wrap at 32 bits.
pub open spec fn candidate_of(e: Edge) -> Candidate {
    ((e.dst as int % 0x1_0000_0000) as u32, e.distance)
}

/// The candidates that the first `m` edges bring to source `p`, in order.
pub open spec fn candidates_from(edges: Seq<Edge>, p: int, m: int) -> Seq<Candidate>
    decreases m,
{
    if m <= 0 {
        Seq::empty()
    } else if edges[m - 1].src == p {
        candidates_from(edges, p, m - 1).push(candidate_of(edges[m - 1]))
    } else {
        candidates_from(edges, p, m - 1)
    }
}

/// Edges that follow each other bring what each part of them brings.
pub proof fn candidates_append(first: Seq<Edge>, second: Seq<Edge>, p: int, m: int)
    requires
        0 <= m <= second.len(),
    ensures
        candidates_from(first + second, p, first.len() + m) == candidates_from(
            first,
            p,
            first.len() as int,
        ) + candidates_from(second, p, m),
    decreases m,
{
    let all = first + second;
    if m == 0 {
        prefix_candidates(first, second, p, first.len() as int);
        assert(candidates_from(all, p, first.len() as int) =~= candidates_from(
            first,
            p,
            first.len() as int,
        ) + candidates_from(second, p, 0));
    } else {
        candidates_append(first, second, p, m - 1);
        assert(all[first.len() + m - 1] == second[m - 1]);
        assert(candidates_from(all, p, first.len() + m) =~= candidates_from(
            first,
            p,
            first.len() as int,
        ) + candidates_from(second, p, m));
    }
}

proof fn prefix_candidates(first: Seq<Edge>, second: Seq<Edge>, p: int, m: int)
    requires
        0 <= m <= first.len(),
    ensures
        candidates_from(first + second, p, m) == candidates_from(first, p, m),
    decreases m,
{
    if m > 0 {
        prefix_candidates(first, second, p, m - 1);
        assert((first + second)[m - 1] == first[m - 1]);
    }
}

/// Two histories one after the other have the effect of both as one.
proof fn offered_appends(p: PoolView, l_max: nat, first: Seq<Candidate>, second: Seq<Candidate>)
    ensures
        offered_all(offered_all(p, l_max, first), l_max, second) == offered_all(
            p,
            l_max,
            first + second,
        ),
    decreases second.len(),
{
    let all = first + second;
    if second.len() == 0 {
        assert(all =~= first);
    } else {
        offered_appends(p, l_max, first, second.drop_last());
        assert(all.drop_last() =~= first + second.drop_last());
        assert(all.last() == second.last());
    }
}

/// Keeps the closest `l_max` candidates per source.
#[derive(Debug)]
pub struct CandidatePool {
    l_max: usize,
    pools: Vec<BoundedPool>,
}

impl CandidatePool {
    /// Number of sources.
    pub closed spec fn count(&self) -> nat {
        self.pools@.len()
    }

    /// Most candidates per source.
    pub closed spec fn capacity(&self) -> nat {
        self.l_max as nat
    }

    /// The pool of source `p`.
    pub closed spec fn pool(&self, p: int) -> PoolView {
        self.pools@[p]@
    }

    /// Every pool is valid.
    pub open spec fn valid(&self) -> bool {
        forall|p: int| 0 <= p < self.count() ==> pool_valid(#[trigger] self.pool(p), self.capacity())
    }

    /// Empty pools for `npoints` sources.
    pub fn new(npoints: usize, l_max: usize) -> (r: Self)
        ensures
            r.valid(),
            r.count() == npoints,
            r.capacity() == l_max,
            forall|p: int| 0 <= p < npoints ==> #[trigger] r.pool(p) == empty_pool(),
    {
        let mut pools: Vec<BoundedPool> = Vec::with_capacity(npoints);
        while pools.len() < npoints
            invariant
                pools@.len() <= npoints,
                forall|p: int| 0 <= p < pools@.len() ==> (#[trigger] pools@[p])@ == empty_pool(),
            decreases npoints - pools@.len(),
        {
            pools.push(BoundedPool::new());
        }
        CandidatePool { l_max, pools }
    }

    /// Offers the destination of every edge to its source.
    pub fn add_edges_batched(&mut self, edges: &[Edge])
        requires
            old(self).valid(),
            forall|i: int| 0 <= i < edges@.len() ==> (#[trigger] edges@[i]).src < old(self).count(),
        ensures
            final(self).valid(),
            final(self).count() == old(self).count(),
            final(self).capacity() == old(self).capacity(),
            forall|p: int|
                0 <= p < old(self).count() ==> (#[trigger] final(self).pool(p)) == offered_all(
                    old(self).pool(p),
                    old(self).capacity(),
                    candidates_from(edges@, p, edges@.len() as int),
                ),
    {
        let ghost before = *self;
        let mut i: usize = 0;
        while i < edges.len()
            invariant
                i <= edges@.len(),
                forall|i: int| 0 <= i < edges@.len() ==> (#[trigger] edges@[i]).src < before.count(),
                self.valid(),
                self.count() == before.count(),
                self.capacity() == before.capacity(),
                forall|p: int|
                    0 <= p < before.count() ==> #[trigger] self.pool(p) == offered_all(
                        before.pool(p),
                        before.capacity(),
                        candidates_from(edges@, p, i as int),
                    ),
            decreases edges@.len() - i,
        {
            let e = edges[i];
            let ghost prior = *self;
            assert(e.src < before.count());
            assert(pool_valid(self.pool(e.src as int), self.capacity()));
            let l_max: usize = self.l_max;
            let id: u32 = (e.dst as u64 % 0x1_0000_0000) as u32;
            self.pools[e.src].insert(id, e.distance, l_max);
            proof {
                assert forall|p: int| 0 <= p < before.count() implies #[trigger] self.pool(p)
                    == offered_all(
                    before.pool(p),
                    before.capacity(),
                    candidates_from(edges@, p, i + 1),
                ) by {
                    assert(prior.pool(p) == offered_all(
                        before.pool(p),
                        before.capacity(),
                        candidates_from(edges@, p, i as int),
                    ));
                    if p == e.src {
                        let list = candidates_from(edges@, p, i as int);
                        let more = candidates_from(edges@, p, i + 1);
                        assert(more.drop_last() =~= list);
                        assert(more.last() == candidate_of(e));
                    } else {
                        assert(self.pools@[p] == prior.pools@[p]);
                    }
                }
                assert forall|p: int| 0 <= p < self.count() implies pool_valid(
                    #[trigger] self.pool(p),
                    self.capacity(),
                ) by {
                    if p != e.src {
                        assert(self.pools@[p] == prior.pools@[p]);
                        assert(pool_valid(prior.pool(p), prior.capacity()));
                    }
                }
            }
            i += 1;
        }
    }

    /// Gives out, per source, every neighbour once with its smallest distance, from near to far.
    pub fn extract_dedupped_sorted(self) -> (out: Vec<Vec<Candidate>>)
        ensures
            out@.len() == self.count(),
            forall|p: int|
                0 <= p < out@.len() ==> dedupped(self.pool(p).entries, (#[trigger] out@[p])@),
    {
        let mut pools = self.pools;
        let ghost all = pools@;
        let mut rev: Vec<Vec<Candidate>> = Vec::with_capacity(pools.len());
        while pools.len() > 0
            invariant
                all == self.pools@,
                pools@.len() + rev@.len() == all.len(),
                pools@ == all.take(pools@.len() as int),
                forall|i: int|
                    0 <= i < rev@.len() ==> dedupped(
                        all[all.len() - 1 - i]@.entries,
                        (#[trigger] rev@[i])@,
                    ),
            decreases pools@.len(),
        {
            match pools.pop() {
                Some(pool) => {
                    rev.push(dedup_sorted(pool.into_entries()));
                },
                None => {},
            }
        }
        reversed(rev)
    }
}

/// A list in reverse order.
fn reversed(list: Vec<Vec<Candidate>>) -> (out: Vec<Vec<Candidate>>)
    ensures
        out@ == list@.reverse(),
{
    let mut list = list;
    let ghost all = list@;
    let mut out: Vec<Vec<Candidate>> = Vec::with_capacity(list.len());
    while list.len() > 0
        invariant
            list@.len() + out@.len() == all.len(),
            list@ == all.take(list@.len() as int),
            forall|i: int| 0 <= i < out@.len() ==> #[trigger] out@[i] == all[all.len() - 1 - i],
        decreases list@.len(),
    {
        match list.pop() {
            Some(v) => {
                out.push(v);
            },
            None => {},
        }
    }
    assert(out@ =~= all.reverse());
    out
}

impl EdgeSink for CandidatePool {
    type State = PoolView;

    type Setup = nat;

    open spec fn setup(&self) -> nat {
        self.capacity()
    }

    open spec fn sources(&self) -> nat {
        self.count()
    }

    open spec fn wf(&self) -> bool {
        self.valid()
    }

    open spec fn collected(&self, p: int) -> PoolView {
        self.pool(p)
    }

    open spec fn after(&self, p: int, had: PoolView, edges: Seq<Edge>) -> PoolView {
        offered_all(had, self.capacity(), candidates_from(edges, p, edges.len() as int))
    }

    proof fn after_appends(&self, p: int, had: PoolView, first: Seq<Edge>, second: Seq<Edge>) {
        candidates_append(first, second, p, second.len() as int);
        offered_appends(
            had,
            self.capacity(),
            candidates_from(first, p, first.len() as int),
            candidates_from(second, p, second.len() as int),
        );
    }

    fn sink_edges(&mut self, edges: &[Edge]) {
        self.add_edges_batched(edges);
    }
}

/// Keeps every candidate.
#[derive(Debug)]
pub struct AppendOnlyPool {
    pools: Vec<Vec<Candidate>>,
}

impl AppendOnlyPool {
    /// Number of sources.
    pub closed spec fn count(&self) -> nat {
        self.pools@.len()
    }

    /// The candidates of source `p`, in order of arrival.
    pub closed spec fn entries(&self, p: int) -> Seq<Candidate> {
        self.pools@[p]@
    }

    /// Empty pools for `npoints` sources.
    pub fn new(npoints: usize) -> (r: Self)
        ensures
            r.count() == npoints,
            forall|p: int| 0 <= p < npoints ==> #[trigger] r.entries(p) == Seq::<Candidate>::empty(),
    {
        let mut pools: Vec<Vec<Candidate>> = Vec::with_capacity(npoints);
        while pools.len() < npoints
            invariant
                pools@.len() <= npoints,
                forall|p: int|
                    0 <= p < pools@.len() ==> (#[trigger] pools@[p])@ == Seq::<Candidate>::empty(),
            decreases npoints - pools@.len(),
        {
            let empty: Vec<Candidate> = Vec::new();
            assert(empty@ =~= Seq::<Candidate>::empty());
            pools.push(empty);
        }
        AppendOnlyPool { pools }
    }

    /// Adds the destination of every edge to its source.
    pub fn add_edges_batched(&mut self, edges: &[Edge])
        requires
            forall|i: int| 0 <= i < edges@.len() ==> (#[trigger] edges@[i]).src < old(self).count(),
        ensures
            final(self).count() == old(self).count(),
            forall|p: int|
                0 <= p < old(self).count() ==> (#[trigger] final(self).entries(p)) == old(self).entries(
                    p,
                ) + candidates_from(edges@, p, edges@.len() as int),
    {
        let ghost before = *self;
        let mut i: usize = 0;
        proof {
            assert forall|p: int| 0 <= p < before.count() implies #[trigger] self.entries(p)
                == before.entries(p) + candidates_from(edges@, p, 0) by {
                assert(self.entries(p) =~= before.entries(p) + candidates_from(edges@, p, 0));
            }
        }
        while i < edges.len()
            invariant
                i <= edges@.len(),
                forall|i: int| 0 <= i < edges@.len() ==> (#[trigger] edges@[i]).src < before.count(),
                self.count() == before.count(),
                forall|p: int|
                    0 <= p < before.count() ==> #[trigger] self.entries(p) == before.entries(p)
                        + candidates_from(edges@, p, i as int),
            decreases edges@.len() - i,
        {
            let e = edges[i];
            let ghost prior = *self;
            assert(e.src < before.count());
            let id: u32 = (e.dst as u64 % 0x1_0000_0000) as u32;
            self.pools[e.src].push((id, e.distance));
            proof {
                assert forall|p: int| 0 <= p < before.count() implies #[trigger] self.entries(p)
                    == before.entries(p) + candidates_from(edges@, p, i + 1) by {
                    assert(prior.entries(p) == before.entries(p) + candidates_from(
                        edges@,
                        p,
                        i as int,
                    ));
                    if p == e.src {
                        assert(self.entries(p) =~= before.entries(p) + candidates_from(
                            edges@,
                            p,
                            i + 1,
                        ));
                    } else {
                        assert(self.pools@[p] == prior.pools@[p]);
                    }
                }
            }
            i += 1;
        }
    }

    /// Gives out, per source, every neighbour once with its smallest distance, from near to far.
    pub fn extract_dedupped_sorted(self) -> (out: Vec<Vec<Candidate>>)
        ensures
            out@.len() == self.count(),
            forall|p: int|
                0 <= p < out@.len() ==> dedupped(self.entries(p), (#[trigger] out@[p])@),
    {
        let mut pools = self.pools;
        let ghost all = pools@;
        let mut rev: Vec<Vec<Candidate>> = Vec::with_capacity(pools.len());
        while pools.len() > 0
            invariant
                all == self.pools@,
                pools@.len() + rev@.len() == all.len(),
                pools@ == all.take(pools@.len() as int),
                forall|i: int|
                    0 <= i < rev@.len() ==> dedupped(
                        all[all.len() - 1 - i]@,
                        (#[trigger] rev@[i])@,
                    ),
            decreases pools@.len(),
        {
            match pools.pop() {
                Some(pool) => {
                    rev.push(dedup_sorted(pool));
                },
                None => {},
            }
        }
        reversed(rev)
    }
}

impl EdgeSink for AppendOnlyPool {
    type State = Seq<Candidate>;

    type Setup = ();

    open spec fn setup(&self) -> () {
        ()
    }

    open spec fn sources(&self) -> nat {
        self.count()
    }

    open spec fn wf(&self) -> bool {
        true
    }

    open spec fn collected(&self, p: int) -> Seq<Candidate> {
        self.entries(p)
    }

    open spec fn after(&self, p: int, had: Seq<Candidate>, edges: Seq<Edge>) -> Seq<Candidate> {
        had + candidates_from(edges, p, edges.len() as int)
    }

    proof fn after_appends(
        &self,
        p: int,
        had: Seq<Candidate>,
        first: Seq<Edge>,
        second: Seq<Edge>,
    ) {
        candidates_append(first, second, p, second.len() as int);
        assert(self.after(p, self.after(p, had, first), second) =~= self.after(
            p,
            had,
            first + second,
        ));
        assert(self.after(p, had, Seq::empty()) =~= had);
    }

    fn sink_edges(&mut self, edges: &[Edge]) {
        self.add_edges_batched(edges);
    }
}

} // verus!
