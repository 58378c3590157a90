//! The finished graph: degrees, the on-disk format and greedy search.

use crate::metric::Metric;
use vstd::prelude::*;

verus! {

/// A proximity graph over the points of a data set.
#[derive(Debug)]
pub struct PiPNNGraph {
    /// The neighbours of each point.
    pub adjacency: Vec<Vec<u32>>,
    /// Number of points.
    pub npoints: usize,
    /// Length of a vector.
    pub ndims: usize,
    /// Where search starts.
    pub medoid: usize,
    /// The metric that the graph was built for.
    pub metric: Metric,
}

/// The greatest length among the first `m` lists.
pub open spec fn longest(lists: Seq<Vec<u32>>, m: int) -> nat
    decreases m,
{
    if m <= 0 {
        0
    } else {
        let sofar = longest(lists, m - 1);
        if lists[m - 1]@.len() > sofar {
            lists[m - 1]@.len()
        } else {
            sofar
        }
    }
}

/// How many of the first `m` lists are empty.
pub open spec fn empties(lists: Seq<Vec<u32>>, m: int) -> nat
    decreases m,
{
    if m <= 0 {
        0
    } else {
        empties(lists, m - 1) + if lists[m - 1]@.len() == 0 { 1nat } else { 0nat }
    }
}

/// The lengths of the first `m` lists, summed.
pub open spec fn total_length(lists: Seq<Vec<u32>>, m: int) -> nat
    decreases m,
{
    if m <= 0 {
        0
    } else {
        total_length(lists, m - 1) + lists[m - 1]@.len()
    }
}

/// The greatest length is that of a list, and no list is longer.
pub proof fn longest_is_greatest(lists: Seq<Vec<u32>>, m: int)
    requires
        0 <= m <= lists.len(),
    ensures
        forall|i: int| 0 <= i < m ==> (#[trigger] lists[i])@.len() <= longest(lists, m),
        m > 0 ==> exists|i: int| 0 <= i < m && (#[trigger] lists[i])@.len() == longest(lists, m),
    decreases m,
{
    if m > 0 {
        longest_is_greatest(lists, m - 1);
        if lists[m - 1]@.len() == longest(lists, m) {
            assert(0 <= m - 1 < m && lists[m - 1]@.len() == longest(lists, m));
        } else {
            assert(longest(lists, 0) == 0);
            assert(m > 1);
            let i = choose|i: int|
                0 <= i < m - 1 && (#[trigger] lists[i])@.len() == longest(lists, m - 1);
            assert(0 <= i < m && lists[i]@.len() == longest(lists, m));
        }
    }
}

/// A 32-bit number as four bytes, the lowest first.
pub open spec fn le4(x: u32) -> Seq<u8> {
    seq![
        (x % 256) as u8,
        (x / 256 % 256) as u8,
        (x / 65536 % 256) as u8,
        (x / 16777216 % 256) as u8,
    ]
}

/// A 64-bit number as eight bytes, the lowest first.
pub open spec fn le8(x: u64) -> Seq<u8> {
    le4((x % 0x1_0000_0000) as u32) + le4((x / 0x1_0000_0000) as u32)
}

/// The number that four bytes from `at` on stand for.
pub open spec fn read4(bytes: Seq<u8>, at: int) -> int {
    bytes[at] + 256 * bytes[at + 1] + 65536 * bytes[at + 2] + 16777216 * bytes[at + 3]
}

/// The number that eight bytes from `at` on stand for.
pub open spec fn read8(bytes: Seq<u8>, at: int) -> int {
    read4(bytes, at) + 0x1_0000_0000 * read4(bytes, at + 4)
}

/// Four bytes give back the number that was written.
pub proof fn le4_reads_back(x: u32)
    ensures
        read4(le4(x), 0) == x,
        le4(x).len() == 4,
{
}

/// The ids of the first `m` neighbours, one after another.
pub open spec fn id_bytes(list: Seq<u32>, m: int) -> Seq<u8>
    decreases m,
{
    if m <= 0 {
        Seq::empty()
    } else {
        id_bytes(list, m - 1) + le4(list[m - 1])
    }
}

/// A node on disk: the number of its neighbours, and their ids.
pub open spec fn node_bytes(list: Seq<u32>) -> Seq<u8> {
    le4(list.len() as u32) + id_bytes(list, list.len() as int)
}

/// The first `m` nodes, one after another.
pub open spec fn nodes_bytes(lists: Seq<Vec<u32>>, m: int) -> Seq<u8>
    decreases m,
{
    if m <= 0 {
        Seq::empty()
    } else {
        nodes_bytes(lists, m - 1) + node_bytes(lists[m - 1]@)
    }
}

/// Where node `i` starts on disk.
pub open spec fn node_offset(lists: Seq<Vec<u32>>, i: int) -> int {
    24 + 4 * i + 4 * total_length(lists, i)
}

impl PiPNNGraph {
    /// Every point has its list, and the start is a point.
    pub open spec fn wf(&self) -> bool {
        &&& self.adjacency@.len() == self.npoints
        &&& self.medoid < self.npoints
    }

    /// Number of bytes on disk: the header, all nodes and the start node once more.
    pub open spec fn file_size(&self) -> int {
        let lists = self.adjacency@;
        node_offset(lists, lists.len() as int) + 4 + 4 * lists[self.medoid as int]@.len()
    }

    /// The numbers on disk have the width of the format.
    pub open spec fn storable(&self) -> bool {
        &&& self.medoid < self.adjacency@.len()
        &&& self.medoid <= u32::MAX
        &&& self.file_size() <= usize::MAX
        &&& forall|i: int|
            0 <= i < self.adjacency@.len() ==> (#[trigger] self.adjacency@[i])@.len() <= u32::MAX
    }

    /// The graph on disk. The header holds the number of bytes in all, the greatest degree, the
    /// start, and the number of additional nodes, which is one: after the nodes of all points the
    /// start node follows once more.
    #[verifier::opaque]
    pub open spec fn file_bytes(&self) -> Seq<u8> {
        let lists = self.adjacency@;
        le8(self.file_size() as u64) + le4(longest(lists, lists.len() as int) as u32) + le4(
            self.medoid as u32,
        ) + le8(1) + nodes_bytes(lists, lists.len() as int) + node_bytes(
            lists[self.medoid as int]@,
        )
    }

    /// The neighbours of a point.
    pub fn neighbors(&self, idx: usize) -> (r: &[u32])
        requires
            idx < self.adjacency@.len(),
        ensures
            r@ == self.adjacency@[idx as int]@,
    {
        self.adjacency[idx].as_slice()
    }

    /// The number of edges.
    pub fn total_degree(&self) -> (r: usize)
        requires
            total_length(self.adjacency@, self.adjacency@.len() as int) <= usize::MAX,
        ensures
            r == total_length(self.adjacency@, self.adjacency@.len() as int),
    {
        let mut total: usize = 0;
        let mut i: usize = 0;
        while i < self.adjacency.len()
            invariant
                i <= self.adjacency@.len(),
                total == total_length(self.adjacency@, i as int),
                total_length(self.adjacency@, self.adjacency@.len() as int) <= usize::MAX,
            decreases self.adjacency@.len() - i,
        {
            proof {
                total_grows(self.adjacency@, i + 1, self.adjacency@.len() as int);
            }
            total += self.adjacency[i].len();
            i += 1;
        }
        total
    }

    /// The greatest degree.
    pub fn max_degree(&self) -> (r: usize)
        ensures
            r == longest(self.adjacency@, self.adjacency@.len() as int),
    {
        let mut best: usize = 0;
        let mut i: usize = 0;
        while i < self.adjacency.len()
            invariant
                i <= self.adjacency@.len(),
                best == longest(self.adjacency@, i as int),
            decreases self.adjacency@.len() - i,
        {
            let d: usize = self.adjacency[i].len();
            if d > best {
                best = d;
            }
            i += 1;
        }
        best
    }

    /// The number of points without neighbours.
    pub fn num_isolated(&self) -> (r: usize)
        ensures
            r == empties(self.adjacency@, self.adjacency@.len() as int),
    {
        let mut count: usize = 0;
        let mut i: usize = 0;
        while i < self.adjacency.len()
            invariant
                i <= self.adjacency@.len(),
                count == empties(self.adjacency@, i as int),
                count <= i,
            decreases self.adjacency@.len() - i,
        {
            if self.adjacency[i].len() == 0 {
                count += 1;
            }
            i += 1;
        }
        count
    }

    /// Writes the graph out as it stands on disk.
    pub fn save_graph(&self) -> (out: Vec<u8>)
        requires
            self.storable(),
        ensures
            out@ == self.file_bytes(),
    {
        let n: usize = self.adjacency.len();
        let ghost lists = self.adjacency@;
        let mut size: u64 = 24;
        let mut observed: usize = 0;
        let mut i: usize = 0;
        proof {
            longest_is_greatest(lists, n as int);
        }
        while i < n
            invariant
                i <= n == self.adjacency@.len(),
                lists == self.adjacency@,
                self.storable(),
                size == node_offset(lists, i as int),
                observed == longest(lists, i as int),
            decreases n - i,
        {
            let d: usize = self.adjacency[i].len();
            proof {
                total_grows(lists, i + 1, n as int);
                assert(node_offset(lists, i + 1) <= self.file_size());
            }
            size += 4 + 4 * (d as u64);
            if d > observed {
                observed = d;
            }
            i += 1;
        }
        size += 4 + 4 * (self.adjacency[self.medoid].len() as u64);
        let mut out: Vec<u8> = Vec::new();
        push8(&mut out, size);
        proof {
            if n > 0 {
                let i = choose|i: int|
                    0 <= i < n && (#[trigger] lists[i])@.len() == longest(lists, n as int);
                assert(lists[i]@.len() <= u32::MAX);
            }
        }
        push4(&mut out, observed as u32);
        push4(&mut out, self.medoid as u32);
        push8(&mut out, 1);
        let ghost header = out@;
        let mut i: usize = 0;
        proof {
            assert(header + nodes_bytes(lists, 0) =~= header);
        }
        while i < n
            invariant
                i <= n == self.adjacency@.len(),
                lists == self.adjacency@,
                self.storable(),
                out@ == header + nodes_bytes(lists, i as int),
            decreases n - i,
        {
            assert(lists[i as int]@.len() <= u32::MAX);
            push_node(&mut out, &self.adjacency[i]);
            proof {
                assert(out@ =~= header + nodes_bytes(lists, i + 1));
            }
            i += 1;
        }
        assert(lists[self.medoid as int]@.len() <= u32::MAX);
        push_node(&mut out, &self.adjacency[self.medoid]);
        proof {
            reveal(PiPNNGraph::file_bytes);
            assert(out@ =~= self.file_bytes());
        }
        out
    }
}

proof fn total_grows(lists: Seq<Vec<u32>>, a: int, b: int)
    requires
        a <= b,
    ensures
        total_length(lists, a) <= total_length(lists, b),
    decreases b - a,
{
    if a < b {
        total_grows(lists, a, b - 1);
    }
}

/// Appends a 32-bit number.
pub(crate) fn push4(out: &mut Vec<u8>, x: u32)
    ensures
        final(out)@ == old(out)@ + le4(x),
{
    out.push((x % 256) as u8);
    out.push((x / 256 % 256) as u8);
    out.push((x / 65536 % 256) as u8);
    out.push((x / 16777216 % 256) as u8);
    assert(out@ =~= old(out)@ + le4(x));
}

/// Appends a 64-bit number.
fn push8(out: &mut Vec<u8>, x: u64)
    ensures
        final(out)@ == old(out)@ + le8(x),
{
    push4(out, (x % 0x1_0000_0000) as u32);
    push4(out, (x / 0x1_0000_0000) as u32);
    assert(out@ =~= old(out)@ + le8(x));
}

/// Appends a node.
fn push_node(out: &mut Vec<u8>, list: &Vec<u32>)
    requires
        list@.len() <= u32::MAX,
    ensures
        final(out)@ == old(out)@ + node_bytes(list@),
{
    push4(out, list.len() as u32);
    let ghost base = out@;
    assert(base + id_bytes(list@, 0) =~= base);
    let mut i: usize = 0;
    while i < list.len()
        invariant
            i <= list@.len(),
            out@ == base + id_bytes(list@, i as int),
        decreases list@.len() - i,
    {
        push4(out, list[i]);
        assert(out@ =~= base + id_bytes(list@, i + 1));
        i += 1;
    }
    assert(out@ =~= old(out)@ + node_bytes(list@));
}

proof fn id_bytes_len(list: Seq<u32>, m: int)
    requires
        0 <= m <= list.len(),
    ensures
        id_bytes(list, m).len() == 4 * m,
        forall|t: int| 0 <= t < m ==> #[trigger] read4(id_bytes(list, m), 4 * t) == list[t],
    decreases m,
{
    if m > 0 {
        id_bytes_len(list, m - 1);
        let front = id_bytes(list, m - 1);
        let all = id_bytes(list, m);
        le4_reads_back(list[m - 1]);
        assert forall|t: int| 0 <= t < m implies #[trigger] read4(all, 4 * t) == list[t] by {
            if t < m - 1 {
                assert(read4(front, 4 * t) == list[t]);
            } else {
                assert(all[4 * t] == le4(list[m - 1])[0]);
                assert(all[4 * t + 1] == le4(list[m - 1])[1]);
                assert(all[4 * t + 2] == le4(list[m - 1])[2]);
                assert(all[4 * t + 3] == le4(list[m - 1])[3]);
            }
        }
    }
}

proof fn nodes_bytes_len(lists: Seq<Vec<u32>>, m: int)
    requires
        0 <= m <= lists.len(),
    ensures
        nodes_bytes(lists, m).len() == 4 * m + 4 * total_length(lists, m),
    decreases m,
{
    if m > 0 {
        nodes_bytes_len(lists, m - 1);
        id_bytes_len(lists[m - 1]@, lists[m - 1]@.len() as int);
    }
}

/// Reading at an offset inside a part is reading the part.
proof fn read4_inside(a: Seq<u8>, b: Seq<u8>, c: Seq<u8>, at: int)
    requires
        0 <= at,
        at + 4 <= b.len(),
    ensures
        read4(a + b + c, a.len() + at) == read4(b, at),
{
    let all = a + b + c;
    assert(all[a.len() + at] == b[at]);
    assert(all[a.len() + at + 1] == b[at + 1]);
    assert(all[a.len() + at + 2] == b[at + 2]);
    assert(all[a.len() + at + 3] == b[at + 3]);
}

proof fn nodes_split(lists: Seq<Vec<u32>>, i: int, m: int)
    requires
        0 <= i < m <= lists.len(),
    ensures
        exists|rest: Seq<u8>|
            nodes_bytes(lists, m) == #[trigger] (nodes_bytes(lists, i) + node_bytes(lists[i]@)
                + rest),
    decreases m - i,
{
    if i == m - 1 {
        let rest = Seq::<u8>::empty();
        assert(nodes_bytes(lists, m) =~= nodes_bytes(lists, i) + node_bytes(lists[i]@) + rest);
    } else {
        nodes_split(lists, i, m - 1);
        let rest = choose|rest: Seq<u8>|
            nodes_bytes(lists, m - 1) == #[trigger] (nodes_bytes(lists, i) + node_bytes(lists[i]@)
                + rest);
        let more = rest + node_bytes(lists[m - 1]@);
        assert(nodes_bytes(lists, m) =~= nodes_bytes(lists, i) + node_bytes(lists[i]@) + more);
    }
}

/// What is read from a saved graph: the header holds the length of the file, the greatest degree,
/// the start and one additional node.
#[verifier::rlimit(40)]
pub proof fn saved_header_reads_back(g: PiPNNGraph)
    requires
        g.storable(),
    ensures
        g.file_bytes().len() == g.file_size(),
        read8(g.file_bytes(), 0) == g.file_bytes().len(),
        read4(g.file_bytes(), 8) == longest(g.adjacency@, g.adjacency@.len() as int),
        read4(g.file_bytes(), 12) == g.medoid,
        read8(g.file_bytes(), 16) == 1,
{
    let lists = g.adjacency@;
    let n = lists.len() as int;
    let tail = nodes_bytes(lists, n) + node_bytes(lists[g.medoid as int]@);
    file_length(g);
    greatest_fits(g);
    file_parts(g);
    header_reads_back(g.file_size() as u64, longest(lists, n) as u32, g.medoid as u32, tail);
}

proof fn file_parts(g: PiPNNGraph)
    ensures
        ({
            let lists = g.adjacency@;
            let n = lists.len() as int;
            g.file_bytes() == le8(g.file_size() as u64) + le4(longest(lists, n) as u32) + le4(
                g.medoid as u32,
            ) + le8(1) + (nodes_bytes(lists, n) + node_bytes(lists[g.medoid as int]@))
        }),
{
    reveal(PiPNNGraph::file_bytes);
    let lists = g.adjacency@;
    let n = lists.len() as int;
    join_last(
        le8(g.file_size() as u64) + le4(longest(lists, n) as u32) + le4(g.medoid as u32) + le8(1),
        nodes_bytes(lists, n),
        node_bytes(lists[g.medoid as int]@),
    );
}

proof fn join_last(a: Seq<u8>, b: Seq<u8>, c: Seq<u8>)
    ensures
        a + b + c == a + (b + c),
{
    assert(a + b + c =~= a + (b + c));
}

proof fn file_length(g: PiPNNGraph)
    requires
        g.storable(),
    ensures
        g.file_bytes().len() == g.file_size(),
{
    reveal(PiPNNGraph::file_bytes);
    let lists = g.adjacency@;
    nodes_bytes_len(lists, lists.len() as int);
    id_bytes_len(lists[g.medoid as int]@, lists[g.medoid as int]@.len() as int);
}

proof fn greatest_fits(g: PiPNNGraph)
    requires
        g.storable(),
    ensures
        longest(g.adjacency@, g.adjacency@.len() as int) <= u32::MAX,
{
    let lists = g.adjacency@;
    let n = lists.len() as int;
    longest_is_greatest(lists, n);
    let w = choose|w: int| 0 <= w < n && (#[trigger] lists[w])@.len() == longest(lists, n);
    assert(lists[w]@.len() <= u32::MAX);
}

#[verifier::rlimit(40)]
proof fn header_reads_back(size: u64, degree: u32, start: u32, tail: Seq<u8>)
    ensures
        ({
            let bytes = le8(size) + le4(degree) + le4(start) + le8(1) + tail;
            &&& bytes.len() == 24 + tail.len()
            &&& read8(bytes, 0) == size
            &&& read4(bytes, 8) == degree
            &&& read4(bytes, 12) == start
            &&& read8(bytes, 16) == 1
        }),
{
    let a = le8(size);
    let b = le4(degree);
    let c = le4(start);
    let d = le8(1);
    le8_reads_back(size);
    le4_reads_back(degree);
    le4_reads_back(start);
    le8_reads_back(1);
    parts_read_back(a, b, c, d, tail);
}

proof fn parts_read_back(a: Seq<u8>, b: Seq<u8>, c: Seq<u8>, d: Seq<u8>, tail: Seq<u8>)
    requires
        a.len() == 8,
        b.len() == 4,
        c.len() == 4,
        d.len() == 8,
    ensures
        ({
            let bytes = a + b + c + d + tail;
            &&& read8(bytes, 0) == read8(a, 0)
            &&& read4(bytes, 8) == read4(b, 0)
            &&& read4(bytes, 12) == read4(c, 0)
            &&& read8(bytes, 16) == read8(d, 0)
        }),
{
    let bytes = a + b + c + d + tail;
    let front = Seq::<u8>::empty();
    assert(bytes =~= front + a + (b + c + d + tail));
    read4_inside(front, a, b + c + d + tail, 0);
    read4_inside(front, a, b + c + d + tail, 4);
    assert(bytes =~= a + b + (c + d + tail));
    read4_inside(a, b, c + d + tail, 0);
    assert(bytes =~= (a + b) + c + (d + tail));
    read4_inside(a + b, c, d + tail, 0);
    assert(bytes =~= (a + b + c) + d + tail);
    read4_inside(a + b + c, d, tail, 0);
    read4_inside(a + b + c, d, tail, 4);
}

proof fn le8_reads_back(x: u64)
    ensures
        le8(x).len() == 8,
        read4(le8(x), 0) + 0x1_0000_0000 * read4(le8(x), 4) == x,
{
    let low = (x % 0x1_0000_0000) as u32;
    let high = (x / 0x1_0000_0000) as u32;
    le4_reads_back(low);
    le4_reads_back(high);
    assert(x == low + 0x1_0000_0000 * high);
    assert(le8(x)[4] == le4(high)[0]);
    assert(le8(x)[5] == le4(high)[1]);
    assert(le8(x)[6] == le4(high)[2]);
    assert(le8(x)[7] == le4(high)[3]);
}

/// A node inside a file reads back.
proof fn node_reads_back(before: Seq<u8>, list: Seq<u32>, after: Seq<u8>)
    requires
        list.len() <= u32::MAX,
    ensures
        node_bytes(list).len() == 4 + 4 * list.len(),
        read4(before + node_bytes(list) + after, before.len() as int) == list.len(),
        forall|t: int|
            0 <= t < list.len() ==> #[trigger] read4(
                before + node_bytes(list) + after,
                before.len() + 4 + 4 * t,
            ) == list[t],
{
    let node = node_bytes(list);
    let bytes = before + node + after;
    let ids = id_bytes(list, list.len() as int);
    id_bytes_len(list, list.len() as int);
    le4_reads_back(list.len() as u32);
    read4_inside(before, node, after, 0);
    assert(read4(node, 0) == read4(le4(list.len() as u32), 0));
    assert forall|t: int| 0 <= t < list.len() implies #[trigger] read4(
        bytes,
        before.len() + 4 + 4 * t,
    ) == list[t] by {
        read4_inside(before, node, after, 4 + 4 * t);
        assert(read4(ids, 4 * t) == list[t]);
        assert(node[4 + 4 * t] == ids[4 * t]);
        assert(node[4 + 4 * t + 1] == ids[4 * t + 1]);
        assert(node[4 + 4 * t + 2] == ids[4 * t + 2]);
        assert(node[4 + 4 * t + 3] == ids[4 * t + 3]);
    }
}

/// The list of node `i` on disk; after those of all points, that of the start.
pub open spec fn saved_list(g: PiPNNGraph, i: int) -> Seq<u32> {
    if i < g.adjacency@.len() {
        g.adjacency@[i]@
    } else {
        g.adjacency@[g.medoid as int]@
    }
}

/// What stands before node `i` on disk.
spec fn file_front(g: PiPNNGraph, i: int) -> Seq<u8> {
    let lists = g.adjacency@;
    le8(g.file_size() as u64) + le4(longest(lists, lists.len() as int) as u32) + le4(
        g.medoid as u32,
    ) + le8(1) + nodes_bytes(lists, i)
}

proof fn file_splits(g: PiPNNGraph, i: int) -> (after: Seq<u8>)
    requires
        g.storable(),
        0 <= i <= g.adjacency@.len(),
    ensures
        g.file_bytes() == file_front(g, i) + node_bytes(saved_list(g, i)) + after,
        file_front(g, i).len() == node_offset(g.adjacency@, i),
{
    reveal(PiPNNGraph::file_bytes);
    let lists = g.adjacency@;
    let n = lists.len() as int;
    let start = node_bytes(lists[g.medoid as int]@);
    nodes_bytes_len(lists, i);
    if i < n {
        nodes_split(lists, i, n);
        let rest = choose|rest: Seq<u8>|
            nodes_bytes(lists, n) == #[trigger] (nodes_bytes(lists, i) + node_bytes(lists[i]@)
                + rest);
        let after = rest + start;
        assert(g.file_bytes() =~= file_front(g, i) + node_bytes(saved_list(g, i)) + after);
        after
    } else {
        let after = Seq::<u8>::empty();
        assert(g.file_bytes() =~= file_front(g, i) + node_bytes(saved_list(g, i)) + after);
        after
    }
}

/// What is read from a saved graph: node by node the number of neighbours and their ids, after
/// the last point the start node once more.
#[verifier::rlimit(40)]
pub proof fn saved_nodes_read_back(g: PiPNNGraph, i: int)
    requires
        g.storable(),
        0 <= i <= g.adjacency@.len(),
    ensures
        ({
            let list = saved_list(g, i);
            let at = node_offset(g.adjacency@, i);
            &&& at + 4 + 4 * list.len() <= g.file_bytes().len()
            &&& read4(g.file_bytes(), at) == list.len()
            &&& forall|t: int|
                0 <= t < list.len() ==> #[trigger] read4(g.file_bytes(), at + 4 + 4 * t) == list[t]
        }),
{
    let lists = g.adjacency@;
    let list = saved_list(g, i);
    assert(list.len() <= u32::MAX) by {
        assert(lists[g.medoid as int]@.len() <= u32::MAX);
        if i < lists.len() {
            assert(lists[i]@.len() <= u32::MAX);
        }
    }
    let after = file_splits(g, i);
    let front = file_front(g, i);
    node_reads_back(front, list, after);
    assert forall|t: int| 0 <= t < list.len() implies #[trigger] read4(
        g.file_bytes(),
        node_offset(g.adjacency@, i) + 4 + 4 * t,
    ) == list[t] by {
        assert(read4(g.file_bytes(), front.len() + 4 + 4 * t) == list[t]);
    }
}

} // verus!
