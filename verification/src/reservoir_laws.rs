//! What the reservoir of a point gives out after any number of edges.

use crate::number::Real;
use crate::reservoir::{
    absorb, absorb_all, absorb_keeps_valid, bucket_of, dist_keys, drained, is_farthest,
    one_per_bucket, reservoir_keeps_closest_buckets, slot_valid, Kept, SlotView,
};
use crate::sort::{argsort, argsort_ascending, ascending_covers, before};
use vstd::prelude::*;

verus! {

/// Offering one more candidate goes on from the slot as it is.
pub proof fn one_more_candidate(l_max: nat, history: Seq<Kept>, e: Kept)
    ensures
        absorb_all(l_max, history.push(e)) == absorb(absorb_all(l_max, history), l_max, e),
{
    assert(history.push(e).drop_last() =~= history);
}

/// The slot took in candidate `e`: in place of the entry of its bucket, which was farther; or, where
/// its bucket had none, as a new entry, or in place of a farthest one if the slot was full.
pub open spec fn took_in(before: SlotView, after: SlotView, l_max: nat, e: Kept) -> bool {
    let n = before.entries.len();
    match bucket_of(before.entries, e.hash) {
        Some(i) => 0 <= i < n && before.entries[i].hash == e.hash && e.dist < before.entries[i].dist
            && after.entries == before.entries.update(i, e),
        None => if n < l_max {
            after.entries == before.entries.push(e)
        } else {
            is_farthest(before.entries, before.farthest) && e.dist
                < before.entries[before.farthest].dist && after.entries == before.entries.update(
                before.farthest,
                e,
            )
        },
    }
}

/// Offering a candidate changes nothing, or exactly one entry, which becomes the candidate; the slot
/// stays valid and grows by one entry at most.
pub proof fn offer_changes_one_entry(s: SlotView, l_max: nat, e: Kept)
    requires
        slot_valid(s, l_max),
    ensures
        slot_valid(absorb(s, l_max, e), l_max),
        absorb(s, l_max, e) == s || took_in(s, absorb(s, l_max, e), l_max, e),
        s.entries.len() <= absorb(s, l_max, e).entries.len() <= s.entries.len() + 1,
{
    absorb_keeps_valid(s, l_max, e);
}

/// The buckets that occur in a history.
pub open spec fn buckets(history: Seq<Kept>) -> Set<u16> {
    history.map_values(|k: Kept| k.hash).to_set()
}

proof fn bucket_members(history: Seq<Kept>, hash: u16)
    ensures
        buckets(history).contains(hash) <==> exists|j: int|
            0 <= j < history.len() && (#[trigger] history[j]).hash == hash,
{
    let hashes = history.map_values(|k: Kept| k.hash);
    if buckets(history).contains(hash) {
        let j = choose|j: int| 0 <= j < hashes.len() && hashes[j] == hash;
        assert(history[j].hash == hash);
    }
    if exists|j: int| 0 <= j < history.len() && (#[trigger] history[j]).hash == hash {
        let j = choose|j: int| 0 <= j < history.len() && (#[trigger] history[j]).hash == hash;
        assert(hashes[j] == hash);
    }
}

/// A slot is full, or has an entry for every bucket.
pub proof fn slot_counts_buckets(l_max: nat, history: Seq<Kept>)
    ensures
        absorb_all(l_max, history).entries.len() == if buckets(history).len() <= l_max {
            buckets(history).len()
        } else {
            l_max
        },
{
    let entries = absorb_all(l_max, history).entries;
    let kept = entries.map_values(|k: Kept| k.hash);
    let all = buckets(history);
    reservoir_keeps_closest_buckets(l_max, history);
    assert(kept.no_duplicates()) by {
        assert forall|i: int, j: int| 0 <= i < j < kept.len() implies kept[i] != kept[j] by {
            assert(entries[i].hash != entries[j].hash);
        }
    }
    kept.unique_seq_to_set();
    history.map_values(|k: Kept| k.hash).lemma_cardinality_of_set();
    assert(kept.to_set().subset_of(all)) by {
        assert forall|h: u16| #[trigger] kept.to_set().contains(h) implies all.contains(h) by {
            bucket_members(entries, h);
            let i = choose|i: int| 0 <= i < entries.len() && (#[trigger] entries[i]).hash == h;
            assert(history.contains(entries[i]));
            let j = choose|j: int| 0 <= j < history.len() && history[j] == entries[i];
            assert(history[j].hash == h);
            bucket_members(history, h);
        }
    }
    vstd::set_lib::lemma_len_subset(kept.to_set(), all);
    if entries.len() < l_max {
        assert(all.subset_of(kept.to_set())) by {
            assert forall|h: u16| #[trigger] all.contains(h) implies kept.to_set().contains(h) by {
                bucket_members(history, h);
                let j = choose|j: int| 0 <= j < history.len() && (#[trigger] history[j]).hash == h;
                assert(bucket_of(entries, history[j].hash) is Some);
                bucket_members(entries, h);
            }
        }
        assert(all =~= kept.to_set());
    }
}

/// The entries that are given out, from near to far.
pub open spec fn given_out(entries: Seq<Kept>, max_degree: nat) -> Seq<Kept> {
    let order = argsort(dist_keys(entries));
    let n = if entries.len() <= max_degree { entries.len() } else { max_degree };
    Seq::new(n, |i: int| entries[order[i]])
}

/// What a point gives out after a history: the closest candidate of each of the closest buckets, as
/// many as there are, as are kept and as are asked for; ascending in distance, and no farther than
/// any candidate of a bucket that is not among them.
pub proof fn neighbors_are_closest_buckets(l_max: nat, history: Seq<Kept>, max_degree: nat)
    ensures
        ({
            let entries = absorb_all(l_max, history).entries;
            let out = given_out(entries, max_degree);
            &&& drained(entries, max_degree) == out.map_values(
                |k: Kept| (k.neighbor, Real::widened(k.dist)),
            )
            &&& out.len() <= max_degree
            &&& out.len() <= l_max
            &&& out.len() <= buckets(history).len()
            &&& out.len() == max_degree || out.len() == l_max || out.len() == buckets(history).len()
            &&& one_per_bucket(out)
            &&& forall|i: int| 0 <= i < out.len() ==> history.contains(#[trigger] out[i])
            &&& forall|i: int, j: int|
                0 <= i < out.len() && 0 <= j < history.len() && (#[trigger] history[j]).hash == (
                #[trigger] out[i]).hash ==> out[i].dist <= history[j].dist
            &&& forall|i: int, j: int|
                0 <= i < j < out.len() ==> (#[trigger] out[i]).dist <= (#[trigger] out[j]).dist
            &&& forall|i: int, j: int|
                0 <= i < out.len() && 0 <= j < history.len() && bucket_of(
                    out,
                    (#[trigger] history[j]).hash,
                ) is None ==> (#[trigger] out[i]).dist <= history[j].dist
        }),
{
    let entries = absorb_all(l_max, history).entries;
    let out = given_out(entries, max_degree);
    let keys = dist_keys(entries);
    let order = argsort(keys);
    reservoir_keeps_closest_buckets(l_max, history);
    slot_counts_buckets(l_max, history);
    argsort_ascending(keys);
    assert(drained(entries, max_degree) =~= out.map_values(
        |k: Kept| (k.neighbor, Real::widened(k.dist)),
    ));
    assert forall|i: int, j: int| 0 <= i < j < out.len() implies (#[trigger] out[i]).dist <= (
    #[trigger] out[j]).dist && out[i].hash != out[j].hash by {
        assert(before(keys, order[i], order[j]));
        assert(keys[order[i]] == entries[order[i]].dist);
        assert(keys[order[j]] == entries[order[j]].dist);
        if order[i] < order[j] {
            assert(entries[order[i]].hash != entries[order[j]].hash);
        } else {
            assert(entries[order[j]].hash != entries[order[i]].hash);
        }
    }
    assert forall|i: int| 0 <= i < out.len() implies history.contains(#[trigger] out[i]) by {
        assert(history.contains(entries[order[i]]));
    }
    assert forall|i: int, j: int|
        0 <= i < out.len() && 0 <= j < history.len() && (#[trigger] history[j]).hash == (
        #[trigger] out[i]).hash implies out[i].dist <= history[j].dist by {
        assert(entries[order[i]].hash == history[j].hash);
    }
    assert forall|i: int, j: int|
        0 <= i < out.len() && 0 <= j < history.len() && bucket_of(
            out,
            (#[trigger] history[j]).hash,
        ) is None implies (#[trigger] out[i]).dist <= history[j].dist by {
        left_out_is_farther(l_max, history, max_degree, i, j);
    }
}

proof fn left_out_is_farther(l_max: nat, history: Seq<Kept>, max_degree: nat, i: int, j: int)
    requires
        ({
            let out = given_out(absorb_all(l_max, history).entries, max_degree);
            0 <= i < out.len() && 0 <= j < history.len() && bucket_of(out, history[j].hash) is None
        }),
    ensures
        given_out(absorb_all(l_max, history).entries, max_degree)[i].dist <= history[j].dist,
{
    let entries = absorb_all(l_max, history).entries;
    let out = given_out(entries, max_degree);
    let keys = dist_keys(entries);
    let order = argsort(keys);
    reservoir_keeps_closest_buckets(l_max, history);
    argsort_ascending(keys);
    assert(out[i] == entries[order[i]]);
    match bucket_of(entries, history[j].hash) {
        None => {
            assert(entries[order[i]].dist <= history[j].dist);
        },
        Some(x) => {
            assert(0 <= x < entries.len() && entries[x].hash == history[j].hash);
            ascending_covers(keys, order, x);
            let y = choose|y: int| 0 <= y < order.len() && order[y] == x;
            if y < out.len() {
                assert(out[y].hash == history[j].hash);
            }
            assert(i < y);
            assert(before(keys, order[i], order[y]));
            assert(keys[order[i]] == entries[order[i]].dist);
            assert(keys[order[y]] == entries[x].dist);
            assert(entries[x].dist <= history[j].dist);
        },
    }
}

} // verus!
