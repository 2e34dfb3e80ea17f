//! A sorted adjacency structure for nodes with multiple ports.
//!
//! Every directed edge between two ports is stored as a pair of [`Entry`]
//! records: an `Outgoing` record at the source node's row and an `Incoming`
//! record at the destination node's row. The records are kept in strictly
//! ascending order of their (row, col, port) key, so a linear scan with an
//! early exit answers point lookups, and each node's records form one
//! contiguous run.

use vstd::prelude::*;

verus! {

/// The direction of an edge record: whether the edge arrives at or leaves
/// from the node that owns the record.
#[derive(Clone, Copy, Debug, PartialEq, Eq, Structural)]
pub enum Dir {
    Incoming,
    Outgoing,
}

impl Dir {
    /// The opposite direction.
    pub open spec fn flipped(self) -> Dir {
        match self {
            Dir::Incoming => Dir::Outgoing,
            Dir::Outgoing => Dir::Incoming,
        }
    }

    /// Flip the direction: the mirror record of an edge's other endpoint
    /// carries the negated tag.
    pub fn neg(self) -> (r: Dir)
        ensures
            r == self.flipped(),
    {
        match self {
            Dir::Incoming => Dir::Outgoing,
            Dir::Outgoing => Dir::Incoming,
        }
    }
}

/// One directed edge endpoint record: the owning node (`row`), the peer node
/// (`col`), the local port on the owning node (`port`), and the direction.
#[derive(Clone, Copy, Debug, PartialEq, Eq, Structural)]
pub struct Entry {
    pub row: usize,
    pub col: usize,
    pub port: usize,
    pub dir: Dir,
}

impl Entry {
    pub fn new(row: usize, col: usize, port: usize, dir: Dir) -> (e: Entry)
        ensures
            e == (Entry { row, col, port, dir }),
    {
        Entry { row, col, port, dir }
    }
}

/// The entry's sort key (row, col, port) is lexicographically below the key
/// (`row`, `col`, `port`).
pub open spec fn key_lt(e: Entry, row: int, col: int, port: int) -> bool {
    e.row < row || (e.row == row && (e.col < col || (e.col == col && e.port < port)))
}

/// The entry's sort key equals the key (`row`, `col`, `port`).
pub open spec fn key_eq(e: Entry, row: int, col: int, port: int) -> bool {
    e.row == row && e.col == col && e.port == port
}

/// The entry's sort key is lexicographically above the key (`row`, `col`, `port`).
pub open spec fn key_gt(e: Entry, row: int, col: int, port: int) -> bool {
    row < e.row || (row == e.row && (col < e.col || (col == e.col && port < e.port)))
}

/// Entry `a` sorts strictly before entry `b`.
pub open spec fn entry_lt(a: Entry, b: Entry) -> bool {
    key_lt(a, b.row as int, b.col as int, b.port as int)
}

/// The sequence is in strictly ascending (row, col, port) order; in
/// particular no two entries share a key.
pub open spec fn sorted(s: Seq<Entry>) -> bool {
    forall|i: int, j: int| 0 <= i < j < s.len() ==> entry_lt(#[trigger] s[i], #[trigger] s[j])
}

/// Some entry of the sequence has the key (`row`, `col`, `port`).
pub open spec fn contains_key(s: Seq<Entry>, row: int, col: int, port: int) -> bool {
    exists|i: int| 0 <= i < s.len() && key_eq(#[trigger] s[i], row, col, port)
}

/// The length of the longest prefix whose entries sort below the key
/// (`row`, `col`, `port`): in a sorted sequence, the position where an entry
/// with that key stands or would have to be inserted.
pub open spec fn key_pos(s: Seq<Entry>, row: int, col: int, port: int) -> int
    decreases s.len(),
{
    if s.len() == 0 {
        0
    } else if key_lt(s[0], row, col, port) {
        1 + key_pos(s.subrange(1, s.len() as int), row, col, port)
    } else {
        0
    }
}

/// The sequence with `e` spliced in at its sorted position.
pub open spec fn spec_insert(s: Seq<Entry>, e: Entry) -> Seq<Entry> {
    s.insert(key_pos(s, e.row as int, e.col as int, e.port as int), e)
}

/// The sequence with the entry keyed (`row`, `col`, `port`) deleted, and the
/// sequence itself when no such entry is stored.
pub open spec fn spec_remove(s: Seq<Entry>, row: int, col: int, port: int) -> Seq<Entry> {
    if contains_key(s, row, col, port) {
        s.remove(key_pos(s, row, col, port))
    } else {
        s
    }
}

/// Holds of the entries owned by `node`.
pub open spec fn row_pred(node: int) -> spec_fn(Entry) -> bool {
    |e: Entry| e.row == node
}

/// The entries owned by `node`, in stored order.
pub open spec fn row_sel(s: Seq<Entry>, node: int) -> Seq<Entry> {
    s.filter(row_pred(node))
}

/// Holds of the entries owned by `node` that pass through its port `port`.
pub open spec fn adj_pred(node: int, port: int) -> spec_fn(Entry) -> bool {
    |e: Entry| e.row == node && e.port == port
}

/// The entries owned by `node` at port `port`, in stored order.
pub open spec fn adj_sel(s: Seq<Entry>, node: int, port: int) -> Seq<Entry> {
    s.filter(adj_pred(node, port))
}

/// Holds of the entries owned by `node` at port `port` with direction `dir`.
pub open spec fn dir_pred(node: int, port: int, dir: Dir) -> spec_fn(Entry) -> bool {
    |e: Entry| e.row == node && e.port == port && e.dir == dir
}

/// The entries owned by `node` at port `port` with direction `dir`.
pub open spec fn dir_sel(s: Seq<Entry>, node: int, port: int, dir: Dir) -> Seq<Entry> {
    s.filter(dir_pred(node, port, dir))
}

/// Holds of the entries owned by `node` with direction `dir`, at any port.
pub open spec fn deg_pred(node: int, dir: Dir) -> spec_fn(Entry) -> bool {
    |e: Entry| e.row == node && e.dir == dir
}

/// The entries owned by `node` with direction `dir`, at any port.
pub open spec fn deg_sel(s: Seq<Entry>, node: int, dir: Dir) -> Seq<Entry> {
    s.filter(deg_pred(node, dir))
}

/// The Outgoing record stored at the source's row when (`src` node, `src`
/// port) is connected to (`dst` node, `dst` port).
pub open spec fn out_entry(src: (usize, usize), dst: (usize, usize)) -> Entry {
    Entry { row: src.0, col: dst.0, port: src.1, dir: Dir::Outgoing }
}

/// The Incoming record stored at the destination's row for the same
/// connection.
pub open spec fn in_entry(src: (usize, usize), dst: (usize, usize)) -> Entry {
    Entry { row: dst.0, col: src.0, port: dst.1, dir: Dir::Incoming }
}

/// A connect can succeed exactly when neither paired key is taken yet and
/// the two keys differ (a port cannot be cabled to itself).
pub open spec fn connect_ok(s: Seq<Entry>, src: (usize, usize), dst: (usize, usize)) -> bool {
    &&& !contains_key(s, src.0 as int, dst.0 as int, src.1 as int)
    &&& !contains_key(s, dst.0 as int, src.0 as int, dst.1 as int)
    &&& !(src.0 == dst.0 && src.1 == dst.1)
}

/// The stored sequence after a successful connect: both paired records
/// spliced in at their sorted positions.
pub open spec fn connect_result(s: Seq<Entry>, src: (usize, usize), dst: (usize, usize)) -> Seq<
    Entry,
> {
    spec_insert(spec_insert(s, out_entry(src, dst)), in_entry(src, dst))
}

/// The stored sequence after a successful disconnect: both paired records
/// deleted.
pub open spec fn disconnect_result(s: Seq<Entry>, src: (usize, usize), dst: (usize, usize)) -> Seq<
    Entry,
> {
    spec_remove(
        spec_remove(s, src.0 as int, dst.0 as int, src.1 as int),
        dst.0 as int,
        src.0 as int,
        dst.1 as int,
    )
}

/// An adjacency matrix: a sequence of edge endpoint records owned by the
/// matrix and kept sorted by (row, col, port).
#[derive(Clone, Debug)]
pub struct AdjMatrix {
    entries: Vec<Entry>,
}

impl View for AdjMatrix {
    type V = Seq<Entry>;

    closed spec fn view(&self) -> Seq<Entry> {
        self.entries@
    }
}

impl Default for AdjMatrix {
    /// An empty matrix.
    fn default() -> (m: AdjMatrix)
        ensures
            m@ == Seq::<Entry>::empty(),
            m.wf(),
    {
        let m = AdjMatrix { entries: Vec::new() };
        proof {
            assert(m@ =~= Seq::<Entry>::empty());
        }
        m
    }
}

/// `key_pos` is the unique index splitting a sequence into a prefix of
/// entries below the key and a suffix of entries not below it.
proof fn lemma_key_pos_of_split(s: Seq<Entry>, row: int, col: int, port: int, i: int)
    requires
        0 <= i <= s.len(),
        forall|j: int| 0 <= j < i ==> key_lt(#[trigger] s[j], row, col, port),
        i < s.len() ==> !key_lt(s[i], row, col, port),
    ensures
        key_pos(s, row, col, port) == i,
    decreases s.len(),
{
    if s.len() == 0 {
    } else if i == 0 {
    } else {
        let tail = s.subrange(1, s.len() as int);
        assert(key_lt(s[0], row, col, port));
        assert forall|j: int| 0 <= j < i - 1 implies key_lt(#[trigger] tail[j], row, col, port) by {
            assert(tail[j] == s[j + 1]);
        }
        if i - 1 < tail.len() {
            assert(tail[i - 1] == s[i]);
        }
        lemma_key_pos_of_split(tail, row, col, port, i - 1);
    }
}

/// Filtering an all-matching sequence keeps it whole.
proof fn lemma_filter_all(s: Seq<Entry>, pred: spec_fn(Entry) -> bool)
    requires
        forall|i: int| 0 <= i < s.len() ==> pred(#[trigger] s[i]),
    ensures
        s.filter(pred) == s,
    decreases s.len(),
{
    reveal(Seq::filter);
    if s.len() == 0 {
        assert(s.filter(pred) =~= s);
    } else {
        let d = s.drop_last();
        assert(forall|i: int| 0 <= i < d.len() ==> pred(#[trigger] d[i]));
        lemma_filter_all(d, pred);
        assert(d.push(s.last()) =~= s);
    }
}

/// Filtering a sequence without a match leaves nothing.
proof fn lemma_filter_none(s: Seq<Entry>, pred: spec_fn(Entry) -> bool)
    requires
        forall|i: int| 0 <= i < s.len() ==> !pred(#[trigger] s[i]),
    ensures
        s.filter(pred) == Seq::<Entry>::empty(),
    decreases s.len(),
{
    reveal(Seq::filter);
    if s.len() == 0 {
        assert(s.filter(pred) =~= Seq::<Entry>::empty());
    } else {
        let d = s.drop_last();
        assert(forall|i: int| 0 <= i < d.len() ==> !pred(#[trigger] d[i]));
        lemma_filter_none(d, pred);
    }
}

/// Every element of a filtered sequence is an element of the original.
proof fn lemma_filter_subset(s: Seq<Entry>, pred: spec_fn(Entry) -> bool)
    ensures
        forall|i: int| 0 <= i < s.filter(pred).len() ==> s.contains(#[trigger] s.filter(pred)[i]),
    decreases s.len(),
{
    reveal(Seq::filter);
    if s.len() > 0 {
        let d = s.drop_last();
        lemma_filter_subset(d, pred);
        let f = s.filter(pred);
        let fd = d.filter(pred);
        assert forall|i: int| 0 <= i < f.len() implies s.contains(#[trigger] f[i]) by {
            if pred(s.last()) && i == f.len() - 1 {
                assert(f[i] == s.last());
                assert(s[s.len() - 1] == s.last());
            } else {
                assert(f[i] == fd[i]);
                assert(d.contains(fd[i]));
                let j = choose|j: int| 0 <= j < d.len() && d[j] == fd[i];
                assert(s[j] == fd[i]);
            }
        }
    }
}

/// Filtering preserves the sort order.
proof fn lemma_filter_sorted(s: Seq<Entry>, pred: spec_fn(Entry) -> bool)
    requires
        sorted(s),
    ensures
        sorted(s.filter(pred)),
    decreases s.len(),
{
    reveal(Seq::filter);
    if s.len() > 0 {
        let d = s.drop_last();
        assert(forall|i: int| 0 <= i < d.len() ==> d[i] == s[i]);
        lemma_filter_sorted(d, pred);
        lemma_filter_subset(d, pred);
        if pred(s.last()) {
            let fd = d.filter(pred);
            assert forall|i: int| 0 <= i < fd.len() implies entry_lt(fd[i], s.last()) by {
                assert(d.contains(fd[i]));
                let j = choose|j: int| 0 <= j < d.len() && d[j] == fd[i];
                assert(entry_lt(s[j], s[s.len() - 1]));
            }
            assert(sorted(fd.push(s.last())));
        }
    }
}

/// One step of filtering a prefix: scanning one more element appends it
/// exactly when it matches.
proof fn lemma_filter_prefix_step(s: Seq<Entry>, pred: spec_fn(Entry) -> bool, i: int)
    requires
        0 <= i < s.len(),
    ensures
        s.subrange(0, i + 1).filter(pred) == (if pred(s[i]) {
            s.subrange(0, i).filter(pred).push(s[i])
        } else {
            s.subrange(0, i).filter(pred)
        }),
{
    reveal(Seq::filter);
    let t = s.subrange(0, i + 1);
    assert(t.drop_last() =~= s.subrange(0, i));
    assert(t.last() == s[i]);
}

/// Two filters in a row are one filter by the conjoined predicate.
proof fn lemma_filter_fuse(
    s: Seq<Entry>,
    p: spec_fn(Entry) -> bool,
    q: spec_fn(Entry) -> bool,
    pq: spec_fn(Entry) -> bool,
)
    requires
        forall|e: Entry| #[trigger] pq(e) == (p(e) && q(e)),
    ensures
        s.filter(p).filter(q) == s.filter(pq),
    decreases s.len(),
{
    reveal(Seq::filter);
    if s.len() > 0 {
        let d = s.drop_last();
        lemma_filter_fuse(d, p, q, pq);
        let x = s.last();
        if p(x) {
            let fp = d.filter(p).push(x);
            assert(s.filter(p) == fp);
            assert(fp.drop_last() =~= d.filter(p));
            assert(fp.last() == x);
        }
    }
}

/// `key_pos` never leaves the sequence bounds.
proof fn lemma_key_pos_le_len(s: Seq<Entry>, row: int, col: int, port: int)
    ensures
        0 <= key_pos(s, row, col, port) <= s.len(),
    decreases s.len(),
{
    if s.len() > 0 && key_lt(s[0], row, col, port) {
        lemma_key_pos_le_len(s.subrange(1, s.len() as int), row, col, port);
    }
}

/// In a sorted sequence the entries below a key form exactly the prefix of
/// length `key_pos`.
proof fn lemma_key_pos_props(s: Seq<Entry>, row: int, col: int, port: int)
    requires
        sorted(s),
    ensures
        0 <= key_pos(s, row, col, port) <= s.len(),
        forall|j: int| 0 <= j < key_pos(s, row, col, port) ==> key_lt(#[trigger] s[j], row, col, port),
        forall|j: int|
            key_pos(s, row, col, port) <= j < s.len() ==> !key_lt(#[trigger] s[j], row, col, port),
    decreases s.len(),
{
    lemma_key_pos_le_len(s, row, col, port);
    if s.len() > 0 && key_lt(s[0], row, col, port) {
        let tail = s.subrange(1, s.len() as int);
        assert(forall|i: int, j: int|
            0 <= i < j < tail.len() ==> entry_lt(#[trigger] tail[i], #[trigger] tail[j]));
        lemma_key_pos_props(tail, row, col, port);
        assert(forall|j: int| 1 <= j < s.len() ==> s[j] == tail[j - 1]);
    } else if s.len() > 0 {
        assert forall|j: int| 0 <= j < s.len() implies !key_lt(#[trigger] s[j], row, col, port) by {
            if j > 0 {
                assert(entry_lt(s[0], s[j]));
            }
        }
    }
}

/// In a sorted sequence a stored key stands exactly at its `key_pos`.
proof fn lemma_key_pos_found(s: Seq<Entry>, row: int, col: int, port: int)
    requires
        sorted(s),
        contains_key(s, row, col, port),
    ensures
        0 <= key_pos(s, row, col, port) < s.len(),
        key_eq(s[key_pos(s, row, col, port)], row, col, port),
{
    let w = choose|w: int| 0 <= w < s.len() && key_eq(#[trigger] s[w], row, col, port);
    assert forall|j: int| 0 <= j < w implies key_lt(#[trigger] s[j], row, col, port) by {
        assert(entry_lt(s[j], s[w]));
    }
    lemma_key_pos_of_split(s, row, col, port, w);
}

/// In a well-formed matrix at most one entry carries a given key.
pub proof fn lemma_unique_keys(s: Seq<Entry>, i: int, j: int)
    requires
        sorted(s),
        0 <= i < s.len(),
        0 <= j < s.len(),
        s[i].row == s[j].row,
        s[i].col == s[j].col,
        s[i].port == s[j].port,
    ensures
        i == j,
{
    if i < j {
        assert(entry_lt(s[i], s[j]));
    } else if j < i {
        assert(entry_lt(s[j], s[i]));
    }
}

/// Splicing a fresh key into a sorted sequence keeps it sorted.
proof fn lemma_insert_sorted(s: Seq<Entry>, e: Entry)
    requires
        sorted(s),
        !contains_key(s, e.row as int, e.col as int, e.port as int),
    ensures
        sorted(spec_insert(s, e)),
{
    let kp = key_pos(s, e.row as int, e.col as int, e.port as int);
    lemma_key_pos_props(s, e.row as int, e.col as int, e.port as int);
    s.insert_ensures(kp, e);
    let t = spec_insert(s, e);
    assert forall|a: int, b: int| 0 <= a < b < t.len() implies entry_lt(
        #[trigger] t[a],
        #[trigger] t[b],
    ) by {
        assert forall|j: int| kp <= j < s.len() implies key_gt(#[trigger] s[j], e.row as int, e.col as int, e.port as int) by {
            assert(!key_lt(s[j], e.row as int, e.col as int, e.port as int));
            assert(!key_eq(s[j], e.row as int, e.col as int, e.port as int));
        }
        if b < kp {
            assert(t[a] == s[a] && t[b] == s[b]);
        } else if a > kp {
            assert(t[a] == s[a - 1] && t[b] == s[b - 1]);
        } else if a < kp && b == kp {
            assert(t[a] == s[a]);
        } else if a == kp && b > kp {
            assert(t[b] == s[b - 1]);
        } else {
            assert(t[a] == s[a] && t[b] == s[b - 1]);
        }
    }
}

/// What an insert stores: the new entry on top of everything already there.
pub proof fn lemma_insert_contents(s: Seq<Entry>, e: Entry)
    ensures
        spec_insert(s, e).len() == s.len() + 1,
        spec_insert(s, e).contains(e),
        forall|x: Entry| #[trigger] spec_insert(s, e).contains(x) <==> (s.contains(x) || x == e),
{
    let kp = key_pos(s, e.row as int, e.col as int, e.port as int);
    lemma_key_pos_le_len(s, e.row as int, e.col as int, e.port as int);
    s.insert_ensures(kp, e);
    let t = spec_insert(s, e);
    assert(t[kp] == e);
    assert forall|x: Entry| #[trigger] t.contains(x) <==> (s.contains(x) || x == e) by {
        if t.contains(x) {
            let j = choose|j: int| 0 <= j < t.len() && t[j] == x;
            if j < kp {
                assert(s[j] == x);
            } else if j > kp {
                assert(s[j - 1] == x);
            }
        }
        if s.contains(x) {
            let j = choose|j: int| 0 <= j < s.len() && s[j] == x;
            if j < kp {
                assert(t[j] == x);
            } else {
                assert(t[j + 1] == x);
            }
        }
        if x == e {
            assert(t[kp] == x);
        }
    }
}

/// Key membership after an insert: the fresh key and every key already
/// stored.
pub proof fn lemma_insert_contains_key(s: Seq<Entry>, e: Entry, row: int, col: int, port: int)
    ensures
        contains_key(spec_insert(s, e), row, col, port) <==> (contains_key(s, row, col, port)
            || key_eq(e, row, col, port)),
{
    let kp = key_pos(s, e.row as int, e.col as int, e.port as int);
    lemma_key_pos_le_len(s, e.row as int, e.col as int, e.port as int);
    s.insert_ensures(kp, e);
    let t = spec_insert(s, e);
    if contains_key(t, row, col, port) {
        let j = choose|j: int| 0 <= j < t.len() && key_eq(#[trigger] t[j], row, col, port);
        if j < kp {
            assert(key_eq(s[j], row, col, port));
        } else if j > kp {
            assert(key_eq(s[j - 1], row, col, port));
        }
    }
    if contains_key(s, row, col, port) {
        let j = choose|j: int| 0 <= j < s.len() && key_eq(#[trigger] s[j], row, col, port);
        if j < kp {
            assert(key_eq(t[j], row, col, port));
        } else {
            assert(key_eq(t[j + 1], row, col, port));
        }
    }
    if key_eq(e, row, col, port) {
        assert(key_eq(t[kp], row, col, port));
    }
}

/// Deleting an index keeps a sorted sequence sorted.
proof fn lemma_remove_idx_sorted(s: Seq<Entry>, i: int)
    requires
        sorted(s),
        0 <= i < s.len(),
    ensures
        sorted(s.remove(i)),
{
    s.remove_ensures(i);
    let t = s.remove(i);
    assert forall|a: int, b: int| 0 <= a < b < t.len() implies entry_lt(
        #[trigger] t[a],
        #[trigger] t[b],
    ) by {
        if b < i {
            assert(t[a] == s[a] && t[b] == s[b]);
        } else if a >= i {
            assert(t[a] == s[a + 1] && t[b] == s[b + 1]);
        } else {
            assert(t[a] == s[a] && t[b] == s[b + 1]);
        }
    }
}

/// What a remove leaves: every stored entry except the one keyed as given,
/// and the sequence untouched when the key is absent.
pub proof fn lemma_remove_contents(s: Seq<Entry>, row: int, col: int, port: int)
    requires
        sorted(s),
    ensures
        sorted(spec_remove(s, row, col, port)),
        contains_key(s, row, col, port) ==> spec_remove(s, row, col, port).len() == s.len() - 1,
        !contains_key(s, row, col, port) ==> spec_remove(s, row, col, port) == s,
        forall|x: Entry| #[trigger] spec_remove(s, row, col, port).contains(x) <==> (s.contains(x)
            && !key_eq(x, row, col, port)),
{
    if contains_key(s, row, col, port) {
        let kp = key_pos(s, row, col, port);
        lemma_key_pos_found(s, row, col, port);
        lemma_remove_idx_sorted(s, kp);
        s.remove_ensures(kp);
        let t = spec_remove(s, row, col, port);
        assert forall|x: Entry| #[trigger] t.contains(x) <==> (s.contains(x) && !key_eq(
            x,
            row,
            col,
            port,
        )) by {
            if t.contains(x) {
                let j = choose|j: int| 0 <= j < t.len() && t[j] == x;
                if j < kp {
                    assert(s[j] == x);
                    if key_eq(x, row, col, port) {
                        lemma_unique_keys(s, j, kp);
                    }
                } else {
                    assert(s[j + 1] == x);
                    if key_eq(x, row, col, port) {
                        lemma_unique_keys(s, j + 1, kp);
                    }
                }
            }
            if s.contains(x) && !key_eq(x, row, col, port) {
                let j = choose|j: int| 0 <= j < s.len() && s[j] == x;
                if j < kp {
                    assert(t[j] == x);
                } else if j > kp {
                    assert(t[j - 1] == x);
                }
            }
        }
    } else {
        assert forall|x: Entry| #[trigger] s.contains(x) implies !key_eq(x, row, col, port) by {
            if key_eq(x, row, col, port) {
                let j = choose|j: int| 0 <= j < s.len() && s[j] == x;
                assert(key_eq(s[j], row, col, port));
            }
        }
    }
}

/// Two well-formed sequences that store the same entries are the same
/// sequence: the sort order leaves no freedom in how entries are arranged.
pub proof fn lemma_sorted_unique(s1: Seq<Entry>, s2: Seq<Entry>)
    requires
        sorted(s1),
        sorted(s2),
        forall|x: Entry| s1.contains(x) <==> s2.contains(x),
    ensures
        s1 == s2,
    decreases s1.len(),
{
    if s1.len() == 0 {
        if s2.len() > 0 {
            assert(s2.contains(s2[0]));
        }
        assert(s1 =~= s2);
    } else {
        assert(s1.contains(s1[0]));
        assert(s2.contains(s1[0]));
        let i = choose|i: int| 0 <= i < s2.len() && s2[i] == s1[0];
        assert(s2.contains(s2[0]));
        assert(s1.contains(s2[0]));
        let j = choose|j: int| 0 <= j < s1.len() && s1[j] == s2[0];
        if i > 0 && j > 0 {
            assert(entry_lt(s2[0], s2[i]));
            assert(entry_lt(s1[0], s1[j]));
        }
        assert(s1[0] == s2[0]);
        let d1 = s1.subrange(1, s1.len() as int);
        let d2 = s2.subrange(1, s2.len() as int);
        assert(forall|a: int, b: int|
            0 <= a < b < d1.len() ==> entry_lt(#[trigger] d1[a], #[trigger] d1[b]));
        assert(forall|a: int, b: int|
            0 <= a < b < d2.len() ==> entry_lt(#[trigger] d2[a], #[trigger] d2[b]));
        assert forall|x: Entry| d1.contains(x) <==> d2.contains(x) by {
            if d1.contains(x) {
                let a = choose|a: int| 0 <= a < d1.len() && d1[a] == x;
                assert(s1[a + 1] == x);
                assert(entry_lt(s1[0], s1[a + 1]));
                assert(s1.contains(x));
                assert(s2.contains(x));
                let b = choose|b: int| 0 <= b < s2.len() && s2[b] == x;
                assert(b != 0);
                assert(d2[b - 1] == x);
            }
            if d2.contains(x) {
                let a = choose|a: int| 0 <= a < d2.len() && d2[a] == x;
                assert(s2[a + 1] == x);
                assert(entry_lt(s2[0], s2[a + 1]));
                assert(s2.contains(x));
                assert(s1.contains(x));
                let b = choose|b: int| 0 <= b < s1.len() && s1[b] == x;
                assert(b != 0);
                assert(d1[b - 1] == x);
            }
        }
        lemma_sorted_unique(d1, d2);
        assert(s1.len() == s2.len());
        assert forall|k: int| 0 <= k < s1.len() implies s1[k] == s2[k] by {
            if k > 0 {
                assert(d1[k - 1] == s1[k]);
                assert(d2[k - 1] == s2[k]);
            }
        }
        assert(s1 =~= s2);
    }
}

/// A sequence split into a prefix of rows below `node`, a block of rows equal
/// to `node` and a suffix of rows above it has that block as its row
/// selection.
proof fn lemma_row_block(s: Seq<Entry>, node: int, p: int, q: int)
    requires
        0 <= p <= q <= s.len(),
        forall|j: int| 0 <= j < p ==> (#[trigger] s[j]).row < node,
        forall|j: int| p <= j < q ==> (#[trigger] s[j]).row == node,
        forall|j: int| q <= j < s.len() ==> (#[trigger] s[j]).row > node,
    ensures
        row_sel(s, node) == s.subrange(p, q),
{
    let pred = row_pred(node);
    let a = s.subrange(0, p);
    let b = s.subrange(p, q);
    let c = s.subrange(q, s.len() as int);
    lemma_filter_none(a, pred);
    lemma_filter_all(b, pred);
    lemma_filter_none(c, pred);
    Seq::filter_distributes_over_add(a, b, pred);
    Seq::filter_distributes_over_add(a + b, c, pred);
    assert((a + b + c).filter(pred) == (a.filter(pred) + b.filter(pred)) + c.filter(pred));
    assert((a.filter(pred) + b.filter(pred)) + c.filter(pred) =~= b);
    assert((a + b + c).len() == s.len());
    assert forall|k: int| 0 <= k < s.len() implies (a + b + c)[k] == s[k] by {
        if k < p {
            assert((a + b + c)[k] == a[k]);
        } else if k < q {
            assert((a + b + c)[k] == b[k - p]);
        } else {
            assert((a + b + c)[k] == c[k - q]);
        }
    }
    assert(a + b + c =~= s);
}

impl AdjMatrix {
    /// The structure's invariant: the stored records are strictly sorted by
    /// their (row, col, port) key.
    pub open spec fn wf(&self) -> bool {
        sorted(self@)
    }

    /// Point lookup. Returns `Ok(i)` with the position of the entry keyed
    /// (`row`, `col`, `port`) when one is stored, and `Err(i)` with the
    /// position where such an entry would have to be inserted to keep the
    /// sort order when none is.
    pub fn lookup(&self, row: usize, col: usize, port: usize) -> (r: Result<usize, usize>)
        requires
            self.wf(),
        ensures
            match r {
                Ok(i) => contains_key(self@, row as int, col as int, port as int) && i < self@.len()
                    && key_eq(self@[i as int], row as int, col as int, port as int)
                    && i as int == key_pos(self@, row as int, col as int, port as int),
                Err(i) => !contains_key(self@, row as int, col as int, port as int)
                    && i <= self@.len()
                    && i as int == key_pos(self@, row as int, col as int, port as int)
                    && (forall|j: int| 0 <= j < i ==> key_lt(#[trigger] self@[j], row as int, col as int, port as int))
                    && (forall|j: int| i <= j < self@.len() ==> key_gt(#[trigger] self@[j], row as int, col as int, port as int)),
            },
    {
        let n = self.entries.len();
        let mut idx: usize = 0;
        while idx < n
            invariant
                self.wf(),
                n == self@.len(),
                idx <= n,
                forall|j: int| 0 <= j < idx ==> key_lt(#[trigger] self@[j], row as int, col as int, port as int),
            decreases n - idx,
        {
            let e = self.entries[idx];
            if e.row == row && e.col == col && e.port == port {
                proof {
                    assert(self@[idx as int] == e);
                    assert(key_eq(self@[idx as int], row as int, col as int, port as int));
                    lemma_key_pos_of_split(self@, row as int, col as int, port as int, idx as int);
                }
                return Ok(idx);
            }
            if e.row > row || (e.row == row && (e.col > col || (e.col == col && e.port > port))) {
                proof {
                    lemma_key_pos_of_split(self@, row as int, col as int, port as int, idx as int);
                    assert forall|j: int| idx <= j < self@.len() implies key_gt(
                        #[trigger] self@[j],
                        row as int,
                        col as int,
                        port as int,
                    ) by {
                        if j != idx {
                            assert(entry_lt(self@[idx as int], self@[j]));
                        }
                    }
                }
                return Err(idx);
            }
            idx = idx + 1;
        }
        proof {
            lemma_key_pos_of_split(self@, row as int, col as int, port as int, idx as int);
        }
        Err(idx)
    }

    /// Insert an entry at its sorted position. A duplicate key is rejected:
    /// when an entry with the same (row, col, port) key is already stored,
    /// the matrix is left unchanged and `false` is returned.
    pub fn insert(&mut self, entry: Entry) -> (inserted: bool)
        requires
            old(self).wf(),
        ensures
            final(self).wf(),
            inserted == !contains_key(
                old(self)@,
                entry.row as int,
                entry.col as int,
                entry.port as int,
            ),
            inserted ==> final(self)@ == spec_insert(old(self)@, entry),
            !inserted ==> final(self)@ == old(self)@,
    {
        let idx = match self.lookup(entry.row, entry.col, entry.port) {
            Ok(_) => {
                return false;
            },
            Err(i) => i,
        };
        let ghost s = self@;
        self.entries.insert(idx, entry);
        proof {
            lemma_insert_sorted(s, entry);
        }
        true
    }

    /// Delete the entry with the given (row, col, port) key. When no such
    /// entry is stored this is a no-op, reported by returning `false`.
    pub fn remove(&mut self, row: usize, col: usize, port: usize) -> (removed: bool)
        requires
            old(self).wf(),
        ensures
            final(self).wf(),
            removed == contains_key(old(self)@, row as int, col as int, port as int),
            final(self)@ == spec_remove(old(self)@, row as int, col as int, port as int),
            !removed ==> final(self)@ == old(self)@,
    {
        match self.lookup(row, col, port) {
            Ok(idx) => {
                let ghost s = self@;
                self.entries.remove(idx);
                proof {
                    lemma_remove_idx_sorted(s, idx as int);
                }
                true
            },
            Err(_) => false,
        }
    }

    /// Delete every entry whose row or column equals `idx`: the bulk removal
    /// used when the node `idx` leaves the graph. The remaining entries keep
    /// their relative order.
    pub fn remove_all(&mut self, idx: usize)
        requires
            old(self).wf(),
        ensures
            final(self).wf(),
            final(self)@ == old(self)@.filter(|e: Entry| e.row != idx && e.col != idx),
            forall|i: int| 0 <= i < final(self)@.len() ==> (#[trigger] final(self)@[i]).row != idx
                && final(self)@[i].col != idx,
    {
        let n = self.entries.len();
        let mut out: Vec<Entry> = Vec::new();
        let mut i: usize = 0;
        proof {
            reveal(Seq::filter);
            assert(self@.subrange(0, 0) =~= Seq::<Entry>::empty());
        }
        while i < n
            invariant
                self.wf(),
                n == self@.len(),
                i <= n,
                out@ == self@.subrange(0, i as int).filter(|e: Entry| e.row != idx && e.col != idx),
                forall|a: int| 0 <= a < out@.len() ==> (#[trigger] out@[a]).row != idx
                    && out@[a].col != idx,
            decreases n - i,
        {
            let e = self.entries[i];
            proof {
                lemma_filter_prefix_step(self@, |e: Entry| e.row != idx && e.col != idx, i as int);
            }
            if e.row != idx && e.col != idx {
                out.push(e);
            }
            i = i + 1;
        }
        proof {
            assert(self@.subrange(0, n as int) =~= self@);
            lemma_filter_sorted(self@, |e: Entry| e.row != idx && e.col != idx);
        }
        self.entries = out;
    }

    /// The contiguous run of entries owned by `node`, found by a prefix
    /// search for the node's first possible key rather than by trusting the
    /// node identifier as a storage position.
    fn entries(&self, node: usize) -> (r: Vec<Entry>)
        requires
            self.wf(),
        ensures
            r@ == row_sel(self@, node as int),
    {
        let n = self.entries.len();
        let start = match self.lookup(node, 0, 0) {
            Ok(i) => i,
            Err(i) => i,
        };
        proof {
            assert forall|j: int| 0 <= j < start implies (#[trigger] self@[j]).row < node by {
                if start as int == key_pos(self@, node as int, 0, 0)
                    && !contains_key(self@, node as int, 0, 0) {
                } else {
                    assert(entry_lt(self@[j], self@[start as int]));
                }
            }
            assert forall|j: int| start <= j < n implies (#[trigger] self@[j]).row >= node by {
                if j > start {
                    assert(entry_lt(self@[start as int], self@[j]));
                }
            }
        }
        let mut out: Vec<Entry> = Vec::new();
        let mut i: usize = start;
        while i < n && self.entries[i].row == node
            invariant
                self.wf(),
                n == self@.len(),
                start <= i <= n,
                forall|j: int| 0 <= j < start ==> (#[trigger] self@[j]).row < node,
                forall|j: int| start <= j < n ==> (#[trigger] self@[j]).row >= node,
                forall|j: int| start <= j < i ==> (#[trigger] self@[j]).row == node,
                out@ == self@.subrange(start as int, i as int),
            decreases n - i,
        {
            let e = self.entries[i];
            proof {
                assert(self@.subrange(start as int, i + 1) =~= self@.subrange(
                    start as int,
                    i as int,
                ).push(self@[i as int]));
            }
            out.push(e);
            i = i + 1;
        }
        proof {
            assert forall|j: int| i <= j < n implies (#[trigger] self@[j]).row > node by {
                if j > i {
                    assert(entry_lt(self@[i as int], self@[j]));
                }
            }
            lemma_row_block(self@, node as int, start as int, i as int);
        }
        out
    }

    /// The entries owned by `node` that pass through its port `port`.
    fn adjacent_entries(&self, node: usize, port: usize) -> (r: Vec<Entry>)
        requires
            self.wf(),
        ensures
            r@ == adj_sel(self@, node as int, port as int),
    {
        let v = self.entries(node);
        let n = v.len();
        let mut out: Vec<Entry> = Vec::new();
        let mut i: usize = 0;
        proof {
            reveal(Seq::filter);
            assert(v@.subrange(0, 0) =~= Seq::<Entry>::empty());
        }
        while i < n
            invariant
                n == v@.len(),
                i <= n,
                v@ == row_sel(self@, node as int),
                out@ == v@.subrange(0, i as int).filter(|e: Entry| e.port == port),
            decreases n - i,
        {
            let e = v[i];
            proof {
                lemma_filter_prefix_step(v@, |e: Entry| e.port == port, i as int);
            }
            if e.port == port {
                out.push(e);
            }
            i = i + 1;
        }
        proof {
            assert(v@.subrange(0, n as int) =~= v@);
            lemma_filter_fuse(
                self@,
                row_pred(node as int),
                |e: Entry| e.port == port,
                adj_pred(node as int, port as int),
            );
        }
        out
    }

    /// The entries owned by `node` at port `port` with direction `dir`.
    fn dir_entries(&self, node: usize, port: usize, dir: Dir) -> (r: Vec<Entry>)
        requires
            self.wf(),
        ensures
            r@ == dir_sel(self@, node as int, port as int, dir),
    {
        let v = self.adjacent_entries(node, port);
        let n = v.len();
        let mut out: Vec<Entry> = Vec::new();
        let mut i: usize = 0;
        proof {
            reveal(Seq::filter);
            assert(v@.subrange(0, 0) =~= Seq::<Entry>::empty());
        }
        while i < n
            invariant
                n == v@.len(),
                i <= n,
                v@ == adj_sel(self@, node as int, port as int),
                out@ == v@.subrange(0, i as int).filter(|e: Entry| e.dir == dir),
            decreases n - i,
        {
            let e = v[i];
            proof {
                lemma_filter_prefix_step(v@, |e: Entry| e.dir == dir, i as int);
            }
            if e.dir == dir {
                out.push(e);
            }
            i = i + 1;
        }
        proof {
            assert(v@.subrange(0, n as int) =~= v@);
            lemma_filter_fuse(
                self@,
                adj_pred(node as int, port as int),
                |e: Entry| e.dir == dir,
                dir_pred(node as int, port as int, dir),
            );
        }
        out
    }

    /// The incoming entries of `node` at port `port`.
    fn incoming_entries(&self, node: usize, port: usize) -> (r: Vec<Entry>)
        requires
            self.wf(),
        ensures
            r@ == dir_sel(self@, node as int, port as int, Dir::Incoming),
    {
        self.dir_entries(node, port, Dir::Incoming)
    }

    /// The outgoing entries of `node` at port `port`.
    fn outgoing_entries(&self, node: usize, port: usize) -> (r: Vec<Entry>)
        requires
            self.wf(),
        ensures
            r@ == dir_sel(self@, node as int, port as int, Dir::Outgoing),
    {
        self.dir_entries(node, port, Dir::Outgoing)
    }

    /// The adjacencies of `node` through its port `port`, as
    /// (peer node, port, direction) triples.
    pub fn adjacent(&self, node: usize, port: usize) -> (r: Vec<(usize, usize, Dir)>)
        requires
            self.wf(),
        ensures
            r@ == adj_sel(self@, node as int, port as int).map_values(
                |e: Entry| (e.col, e.port, e.dir),
            ),
    {
        let v = self.adjacent_entries(node, port);
        let n = v.len();
        let mut out: Vec<(usize, usize, Dir)> = Vec::new();
        let mut i: usize = 0;
        while i < n
            invariant
                n == v@.len(),
                i <= n,
                out@.len() == i,
                forall|j: int| 0 <= j < i ==> out@[j] == ((v@[j].col, v@[j].port, v@[j].dir)),
            decreases n - i,
        {
            let e = v[i];
            out.push((e.col, e.port, e.dir));
            i = i + 1;
        }
        proof {
            assert(out@ =~= v@.map_values(|e: Entry| (e.col, e.port, e.dir)));
        }
        out
    }

    /// The edges arriving at `node` through its port `port`, as
    /// (peer node, port) pairs.
    pub fn incoming(&self, node: usize, port: usize) -> (r: Vec<(usize, usize)>)
        requires
            self.wf(),
        ensures
            r@ == dir_sel(self@, node as int, port as int, Dir::Incoming).map_values(
                |e: Entry| (e.col, e.port),
            ),
    {
        let v = self.incoming_entries(node, port);
        let n = v.len();
        let mut out: Vec<(usize, usize)> = Vec::new();
        let mut i: usize = 0;
        while i < n
            invariant
                n == v@.len(),
                i <= n,
                out@.len() == i,
                forall|j: int| 0 <= j < i ==> out@[j] == ((v@[j].col, v@[j].port)),
            decreases n - i,
        {
            let e = v[i];
            out.push((e.col, e.port));
            i = i + 1;
        }
        proof {
            assert(out@ =~= v@.map_values(|e: Entry| (e.col, e.port)));
        }
        out
    }

    /// The edges leaving `node` through its port `port`, as
    /// (peer node, port) pairs.
    pub fn outgoing(&self, node: usize, port: usize) -> (r: Vec<(usize, usize)>)
        requires
            self.wf(),
        ensures
            r@ == dir_sel(self@, node as int, port as int, Dir::Outgoing).map_values(
                |e: Entry| (e.col, e.port),
            ),
    {
        let v = self.outgoing_entries(node, port);
        let n = v.len();
        let mut out: Vec<(usize, usize)> = Vec::new();
        let mut i: usize = 0;
        while i < n
            invariant
                n == v@.len(),
                i <= n,
                out@.len() == i,
                forall|j: int| 0 <= j < i ==> out@[j] == ((v@[j].col, v@[j].port)),
            decreases n - i,
        {
            let e = v[i];
            out.push((e.col, e.port));
            i = i + 1;
        }
        proof {
            assert(out@ =~= v@.map_values(|e: Entry| (e.col, e.port)));
        }
        out
    }

    /// The number of edges of direction `dir` recorded for `node`, over all
    /// of its ports.
    fn degree(&self, node: usize, dir: Dir) -> (count: usize)
        requires
            self.wf(),
        ensures
            count == deg_sel(self@, node as int, dir).len(),
    {
        let v = self.entries(node);
        let n = v.len();
        let mut count: usize = 0;
        let mut i: usize = 0;
        proof {
            reveal(Seq::filter);
            assert(v@.subrange(0, 0) =~= Seq::<Entry>::empty());
        }
        while i < n
            invariant
                n == v@.len(),
                i <= n,
                count <= i,
                v@ == row_sel(self@, node as int),
                count == v@.subrange(0, i as int).filter(|e: Entry| e.dir == dir).len(),
            decreases n - i,
        {
            let e = v[i];
            proof {
                lemma_filter_prefix_step(v@, |e: Entry| e.dir == dir, i as int);
            }
            if e.dir == dir {
                count = count + 1;
            }
            i = i + 1;
        }
        proof {
            assert(v@.subrange(0, n as int) =~= v@);
            lemma_filter_fuse(
                self@,
                row_pred(node as int),
                |e: Entry| e.dir == dir,
                deg_pred(node as int, dir),
            );
        }
        count
    }

    /// The number of incoming edges recorded for `node`.
    pub fn indegree(&self, node: usize) -> (count: usize)
        requires
            self.wf(),
        ensures
            count == deg_sel(self@, node as int, Dir::Incoming).len(),
    {
        self.degree(node, Dir::Incoming)
    }

    /// The number of outgoing edges recorded for `node`.
    pub fn outdegree(&self, node: usize) -> (count: usize)
        requires
            self.wf(),
        ensures
            count == deg_sel(self@, node as int, Dir::Outgoing).len(),
    {
        self.degree(node, Dir::Outgoing)
    }

    /// The highest node identifier observed across all entries, or zero when
    /// the matrix is empty: a best-effort graph size that undercounts nodes
    /// without edges.
    pub fn num_nodes(&self) -> (r: usize)
        requires
            self.wf(),
        ensures
            r == (if self@.len() == 0 {
                0
            } else {
                self@.last().row
            }),
            forall|i: int| 0 <= i < self@.len() ==> (#[trigger] self@[i]).row <= r,
    {
        let n = self.entries.len();
        if n == 0 {
            0
        } else {
            let r = self.entries[n - 1].row;
            proof {
                assert forall|i: int| 0 <= i < self@.len() implies (#[trigger] self@[i]).row
                    <= r by {
                    if i < n - 1 {
                        assert(entry_lt(self@[i], self@[n - 1]));
                    }
                }
            }
            r
        }
    }

    /// The highest port number observed among the entries owned by `node`,
    /// or zero when the node has none: a best-effort port count.
    pub fn num_ports(&self, node: usize) -> (r: usize)
        requires
            self.wf(),
        ensures
            forall|i: int| 0 <= i < self@.len() && (#[trigger] self@[i]).row == node
                ==> self@[i].port <= r,
            r != 0 ==> exists|i: int| 0 <= i < self@.len() && (#[trigger] self@[i]).row == node
                && self@[i].port == r,
    {
        let v = self.entries(node);
        let n = v.len();
        let mut r: usize = 0;
        let mut i: usize = 0;
        while i < n
            invariant
                n == v@.len(),
                i <= n,
                v@ == row_sel(self@, node as int),
                forall|j: int| 0 <= j < i ==> (#[trigger] v@[j]).port <= r,
                r != 0 ==> exists|j: int| 0 <= j < i && (#[trigger] v@[j]).port == r,
            decreases n - i,
        {
            let e = v[i];
            if e.port > r {
                r = e.port;
            }
            i = i + 1;
        }
        proof {
            lemma_filter_subset(self@, row_pred(node as int));
            assert forall|a: int| 0 <= a < self@.len() && (#[trigger] self@[a]).row == node
                implies self@[a].port <= r by {
                Seq::lemma_filter_contains(self@, row_pred(node as int), a);
                let j = choose|j: int| 0 <= j < v@.len() && v@[j] == self@[a];
            }
            if r != 0 {
                let j = choose|j: int| 0 <= j < v@.len() && (#[trigger] v@[j]).port == r;
                assert(self@.contains(v@[j]));
                let a = choose|a: int| 0 <= a < self@.len() && self@[a] == v@[j];
                assert(v@[j].row == node) by {
                    Seq::lemma_filter_pred(self@, row_pred(node as int), j);
                }
            }
        }
        r
    }

    /// Connect (`src` node, `src` port) to (`dst` node, `dst` port): store
    /// the Outgoing record at the source's row and the Incoming record at
    /// the destination's row, both or neither. Returns `false`, leaving the
    /// matrix unchanged, when either paired key is already taken or the two
    /// keys coincide.
    pub fn connect(&mut self, src: (usize, usize), dst: (usize, usize)) -> (r: bool)
        requires
            old(self).wf(),
        ensures
            final(self).wf(),
            r == connect_ok(old(self)@, src, dst),
            r ==> final(self)@ == connect_result(old(self)@, src, dst),
            !r ==> final(self)@ == old(self)@,
    {
        if src.0 == dst.0 && src.1 == dst.1 {
            return false;
        }
        let first = self.lookup(src.0, dst.0, src.1);
        let second = self.lookup(dst.0, src.0, dst.1);
        match (first, second) {
            (Err(_), Err(_)) => {
                let ghost s0 = self@;
                let eo = Entry::new(src.0, dst.0, src.1, Dir::Outgoing);
                let ei = Entry::new(dst.0, src.0, dst.1, Dir::Incoming);
                let inserted_out = self.insert(eo);
                proof {
                    lemma_insert_contains_key(
                        s0,
                        out_entry(src, dst),
                        dst.0 as int,
                        src.0 as int,
                        dst.1 as int,
                    );
                }
                let inserted_in = self.insert(ei);
                proof {
                    assert(inserted_out && inserted_in);
                }
                true
            },
            _ => false,
        }
    }

    /// Disconnect (`src` node, `src` port) from (`dst` node, `dst` port):
    /// delete both paired records when both are stored. When either is
    /// missing nothing is removed and `false` reports that no such
    /// connection was found.
    pub fn disconnect(&mut self, src: (usize, usize), dst: (usize, usize)) -> (r: bool)
        requires
            old(self).wf(),
        ensures
            final(self).wf(),
            r == (contains_key(old(self)@, src.0 as int, dst.0 as int, src.1 as int)
                && contains_key(old(self)@, dst.0 as int, src.0 as int, dst.1 as int)),
            r ==> final(self)@ == disconnect_result(old(self)@, src, dst),
            !r ==> final(self)@ == old(self)@,
    {
        let first = self.lookup(src.0, dst.0, src.1);
        let second = self.lookup(dst.0, src.0, dst.1);
        match (first, second) {
            (Ok(_), Ok(_)) => {
                self.remove(src.0, dst.0, src.1);
                self.remove(dst.0, src.0, dst.1);
                true
            },
            _ => false,
        }
    }
}

/// Pairing law: a successful connect stores exactly the Outgoing record at
/// the source's row and the Incoming record at the destination's row, on top
/// of what was stored before; by `lemma_unique_keys` each of the two stands
/// in the matrix exactly once.
pub proof fn lemma_connect_pairing(s: Seq<Entry>, src: (usize, usize), dst: (usize, usize))
    requires
        sorted(s),
        connect_ok(s, src, dst),
    ensures
        sorted(connect_result(s, src, dst)),
        connect_result(s, src, dst).len() == s.len() + 2,
        connect_result(s, src, dst).contains(out_entry(src, dst)),
        connect_result(s, src, dst).contains(in_entry(src, dst)),
        forall|x: Entry| #[trigger] connect_result(s, src, dst).contains(x) <==> (s.contains(x)
            || x == out_entry(src, dst) || x == in_entry(src, dst)),
{
    let eo = out_entry(src, dst);
    let ei = in_entry(src, dst);
    let s1 = spec_insert(s, eo);
    lemma_insert_sorted(s, eo);
    lemma_insert_contents(s, eo);
    lemma_insert_contains_key(s, eo, ei.row as int, ei.col as int, ei.port as int);
    lemma_insert_sorted(s1, ei);
    lemma_insert_contents(s1, ei);
}

/// Round-trip law: connecting two ports and immediately disconnecting them
/// returns the matrix to its prior state, entry for entry.
pub proof fn lemma_connect_disconnect_round_trip(
    s: Seq<Entry>,
    src: (usize, usize),
    dst: (usize, usize),
)
    requires
        sorted(s),
        connect_ok(s, src, dst),
    ensures
        disconnect_result(connect_result(s, src, dst), src, dst) == s,
{
    let eo = out_entry(src, dst);
    let ei = in_entry(src, dst);
    let s2 = connect_result(s, src, dst);
    lemma_connect_pairing(s, src, dst);
    let s3 = spec_remove(s2, eo.row as int, eo.col as int, eo.port as int);
    lemma_remove_contents(s2, eo.row as int, eo.col as int, eo.port as int);
    assert(contains_key(s2, eo.row as int, eo.col as int, eo.port as int)) by {
        let j = choose|j: int| 0 <= j < s2.len() && s2[j] == eo;
        assert(key_eq(s2[j], eo.row as int, eo.col as int, eo.port as int));
    }
    lemma_remove_contents(s3, ei.row as int, ei.col as int, ei.port as int);
    let s4 = spec_remove(s3, ei.row as int, ei.col as int, ei.port as int);
    assert forall|x: Entry| s4.contains(x) <==> s.contains(x) by {
        if s.contains(x) {
            assert(!key_eq(x, eo.row as int, eo.col as int, eo.port as int)) by {
                if key_eq(x, eo.row as int, eo.col as int, eo.port as int) {
                    let j = choose|j: int| 0 <= j < s.len() && s[j] == x;
                    assert(key_eq(s[j], eo.row as int, eo.col as int, eo.port as int));
                }
            }
            assert(!key_eq(x, ei.row as int, ei.col as int, ei.port as int)) by {
                if key_eq(x, ei.row as int, ei.col as int, ei.port as int) {
                    let j = choose|j: int| 0 <= j < s.len() && s[j] == x;
                    assert(key_eq(s[j], ei.row as int, ei.col as int, ei.port as int));
                }
            }
            assert(s2.contains(x));
            assert(s3.contains(x));
            assert(s4.contains(x));
        }
        if s4.contains(x) {
            assert(s3.contains(x) && !key_eq(x, ei.row as int, ei.col as int, ei.port as int));
            assert(s2.contains(x) && !key_eq(x, eo.row as int, eo.col as int, eo.port as int));
            assert(x != eo && x != ei);
        }
    }
    lemma_sorted_unique(s4, s);
}

} // verus!
