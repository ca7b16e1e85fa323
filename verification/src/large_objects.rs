//! Chunked upload buffers.
//!
//! A large payload that cannot be delivered in one call is split by the caller
//! into chunks. Chunks either arrive in order and are appended to a growing
//! sequential buffer, or arrive in any order tagged with a position index and
//! are staged in a position-indexed collection until every position is filled.
//! Consolidation concatenates the staged chunks in ascending index order,
//! which reconstructs the original byte sequence regardless of arrival order.

use vstd::prelude::*;

verus! {

use vstd::string::StringExecFns;

/// The indices of a sequence of `(index, payload)` entries.
pub open spec fn index_seq(es: Seq<(u32, Seq<u8>)>) -> Seq<u32> {
    es.map_values(|e: (u32, Seq<u8>)| e.0)
}

/// Each index is strictly smaller than every later one.
pub open spec fn strictly_ascending(ks: Seq<u32>) -> bool {
    forall|i: int, j: int| 0 <= i < j < ks.len() ==> ks[i] < ks[j]
}

/// The map an entry sequence denotes; a later entry for an index overrides an
/// earlier one (irrelevant once indices are unique).
pub open spec fn entries_map(es: Seq<(u32, Seq<u8>)>) -> Map<u32, Seq<u8>>
    decreases es.len(),
{
    if es.len() == 0 {
        Map::empty()
    } else {
        entries_map(es.drop_last()).insert(es.last().0, es.last().1)
    }
}

/// The payloads of the entries, concatenated in entry order.
pub open spec fn concat_payloads(es: Seq<(u32, Seq<u8>)>) -> Seq<u8>
    decreases es.len(),
{
    if es.len() == 0 {
        Seq::empty()
    } else {
        concat_payloads(es.drop_last()) + es.last().1
    }
}

/// The summed payload length of the entries.
pub open spec fn payload_total(es: Seq<(u32, Seq<u8>)>) -> nat
    decreases es.len(),
{
    if es.len() == 0 {
        0
    } else {
        payload_total(es.drop_last()) + es.last().1.len()
    }
}

/// The indices below `n` that are absent from `m`, in ascending order.
pub open spec fn missing_below(m: Map<u32, Seq<u8>>, n: u32) -> Seq<u32>
    decreases n,
{
    if n == 0 {
        Seq::empty()
    } else {
        missing_below(m, (n - 1) as u32) + if m.dom().contains((n - 1) as u32) {
            Seq::<u32>::empty()
        } else {
            seq![(n - 1) as u32]
        }
    }
}

/// The payloads of `m` at indices `0, 1, ..., n - 1`, concatenated in that
/// order.
pub open spec fn ordered_concat(m: Map<u32, Seq<u8>>, n: u32) -> Seq<u8>
    decreases n,
{
    if n == 0 {
        Seq::empty()
    } else {
        ordered_concat(m, (n - 1) as u32) + m[(n - 1) as u32]
    }
}

/// One upload's staging state: the sequential buffer and the position-indexed
/// parallel chunks. The original split is reconstructed from here.
///
/// The parallel chunks are kept as a vector of `(index, payload)` pairs in
/// strictly ascending index order, so each index holds at most one payload
/// and iteration in storage order is iteration in index order.
pub struct ChunkStore {
    buffer: Vec<u8>,
    chunks: Vec<(u32, Vec<u8>)>,
}

impl ChunkStore {
    /// The bytes of the sequential buffer.
    pub closed spec fn buf(self) -> Seq<u8> {
        self.buffer@
    }

    /// The parallel chunks as `(index, payload)` pairs in storage order.
    pub closed spec fn entries(self) -> Seq<(u32, Seq<u8>)> {
        self.chunks@.map_values(|e: (u32, Vec<u8>)| (e.0, e.1@))
    }

    /// The parallel chunks as a map from index to payload.
    pub open spec fn chunk_map(self) -> Map<u32, Seq<u8>> {
        entries_map(self.entries())
    }

    /// Well-formed: parallel entries are sorted strictly by index.
    pub open spec fn wf(self) -> bool {
        strictly_ascending(index_seq(self.entries()))
    }

    /// Exactly the indices `0, ..., expected - 1` are present, and nothing
    /// else.
    pub open spec fn complete_for(self, expected: u32) -> bool {
        &&& self.entries().len() == expected
        &&& forall|i: u32| i < expected ==> self.chunk_map().dom().contains(i)
    }

    /// An empty store: both buffers empty.
    pub fn new() -> (s: ChunkStore)
        ensures
            s.wf(),
            s.buf() == Seq::<u8>::empty(),
            s.entries() == Seq::<(u32, Seq<u8>)>::empty(),
    {
        let s = ChunkStore { buffer: Vec::new(), chunks: Vec::new() };
        proof {
            assert(s.entries() =~= Seq::<(u32, Seq<u8>)>::empty());
        }
        s
    }
}

/// An index is in the denoted map exactly when some entry carries it.
proof fn lemma_entries_map_dom(es: Seq<(u32, Seq<u8>)>)
    ensures
        forall|k: u32| #![auto] entries_map(es).dom().contains(k) <==> index_seq(es).contains(k),
    decreases es.len(),
{
    if es.len() > 0 {
        let es0 = es.drop_last();
        lemma_entries_map_dom(es0);
        assert forall|k: u32| #![auto] entries_map(es).dom().contains(k) implies index_seq(
            es,
        ).contains(k) by {
            if k == es.last().0 {
                assert(index_seq(es)[es.len() - 1] == k);
            } else {
                assert(entries_map(es0).dom().contains(k));
                assert(index_seq(es0).contains(k));
                let i = choose|i: int| 0 <= i < index_seq(es0).len() && index_seq(es0)[i] == k;
                assert(index_seq(es)[i] == k);
            }
        }
        assert forall|k: u32| #![auto] index_seq(es).contains(k) implies entries_map(
            es,
        ).dom().contains(k) by {
            let i = choose|i: int| 0 <= i < index_seq(es).len() && index_seq(es)[i] == k;
            if i < es.len() - 1 {
                assert(index_seq(es0)[i] == k);
                assert(index_seq(es0).contains(k));
                assert(entries_map(es0).dom().contains(k));
            } else {
                assert(k == es.last().0);
            }
        }
    }
}

/// Placing a fresh `(k, v)` entry between `a` and `b` denotes the map of
/// `a + b` updated at `k`, as long as no entry of `b` overrides `k`.
proof fn lemma_entries_map_insert_middle(
    a: Seq<(u32, Seq<u8>)>,
    b: Seq<(u32, Seq<u8>)>,
    k: u32,
    v: Seq<u8>,
)
    requires
        !index_seq(b).contains(k),
    ensures
        entries_map(a + seq![(k, v)] + b) == entries_map(a + b).insert(k, v),
    decreases b.len(),
{
    if b.len() == 0 {
        let whole = a + seq![(k, v)] + b;
        assert(whole.drop_last() =~= a);
        assert(whole.last() == (k, v));
        assert(a + b =~= a);
    } else {
        let t = b.last();
        let b0 = b.drop_last();
        assert(index_seq(b)[b.len() - 1] == t.0);
        assert(forall|i: int|
            0 <= i < b0.len() ==> index_seq(b0)[i] == index_seq(b)[i]);
        assert(!index_seq(b0).contains(k));
        lemma_entries_map_insert_middle(a, b0, k, v);
        let whole = a + seq![(k, v)] + b;
        assert(whole.drop_last() =~= a + seq![(k, v)] + b0);
        assert(whole.last() == t);
        let shorter = a + b;
        assert(shorter.drop_last() =~= a + b0);
        assert(shorter.last() == t);
        assert(t.0 != k);
        assert(entries_map(a + b0).insert(k, v).insert(t.0, t.1) =~= entries_map(a + b0).insert(
            t.0,
            t.1,
        ).insert(k, v));
    }
}

/// A single entry's payload total is that payload's length.
proof fn lemma_payload_total_singleton(k: u32, v: Seq<u8>)
    ensures
        payload_total(seq![(k, v)]) == v.len(),
{
    let s = seq![(k, v)];
    assert(s.drop_last() =~= Seq::<(u32, Seq<u8>)>::empty());
    assert(payload_total(s.drop_last()) == 0);
    assert(s.last() == (k, v));
}

/// Payload lengths sum part by part.
proof fn lemma_payload_total_concat(x: Seq<(u32, Seq<u8>)>, y: Seq<(u32, Seq<u8>)>)
    ensures
        payload_total(x + y) == payload_total(x) + payload_total(y),
    decreases y.len(),
{
    if y.len() == 0 {
        assert(x + y =~= x);
    } else {
        lemma_payload_total_concat(x, y.drop_last());
        assert((x + y).drop_last() =~= x + y.drop_last());
        assert((x + y).last() == y.last());
    }
}

/// An entry with no later override gives the denoted map's value at its
/// index.
proof fn lemma_entries_map_value_at(es: Seq<(u32, Seq<u8>)>, i: int)
    requires
        0 <= i < es.len(),
        forall|j: int| i < j < es.len() ==> es[j].0 != es[i].0,
    ensures
        entries_map(es).dom().contains(es[i].0),
        entries_map(es)[es[i].0] == es[i].1,
    decreases es.len(),
{
    if i < es.len() - 1 {
        let es0 = es.drop_last();
        assert(forall|j: int| 0 <= j < es0.len() ==> es0[j] == es[j]);
        lemma_entries_map_value_at(es0, i);
        assert(es.last().0 != es[i].0);
    }
}

impl ChunkStore {
    /// Whether some parallel entry carries `chunk_id`.
    fn contains_index(&self, chunk_id: u32) -> (r: bool)
        ensures
            r == self.chunk_map().dom().contains(chunk_id),
    {
        proof {
            lemma_entries_map_dom(self.entries());
        }
        let n = self.chunks.len();
        let mut i: usize = 0;
        while i < n
            invariant
                i <= n,
                n == self.chunks@.len(),
                forall|j: int| 0 <= j < i ==> self.chunks@[j].0 != chunk_id,
            decreases n - i,
        {
            if self.chunks[i].0 == chunk_id {
                proof {
                    lemma_entries_map_dom(self.entries());
                    assert(index_seq(self.entries())[i as int] == chunk_id);
                    assert(index_seq(self.entries()).contains(chunk_id));
                    assert(self.chunk_map().dom().contains(chunk_id));
                }
                return true;
            }
            i += 1;
        }
        proof {
            assert(forall|j: int|
                0 <= j < index_seq(self.entries()).len() ==> index_seq(self.entries())[j]
                    != chunk_id);
            assert(!index_seq(self.entries()).contains(chunk_id));
        }
        false
    }
}

/// Extend the sequential buffer with `chunk`, in call order.
pub fn append_chunk(store: &mut ChunkStore, chunk: Vec<u8>)
    ensures
        final(store).buf() == old(store).buf() + chunk@,
        final(store).entries() == old(store).entries(),
        final(store).wf() == old(store).wf(),
{
    let mut chunk = chunk;
    store.buffer.append(&mut chunk);
}

/// The current length of the sequential buffer.
pub fn buffer_size(store: &ChunkStore) -> (n: usize)
    ensures
        n == store.buf().len(),
{
    store.buffer.len()
}

/// Empty the sequential buffer; the parallel chunks are untouched.
pub fn clear_buffer(store: &mut ChunkStore)
    ensures
        final(store).buf() == Seq::<u8>::empty(),
        final(store).entries() == old(store).entries(),
        final(store).wf() == old(store).wf(),
{
    store.buffer.clear();
}

/// Return the sequential buffer's entire contents and empty it, so repeated
/// calls never deliver the same bytes twice.
pub fn get_buffer_data(store: &mut ChunkStore) -> (data: Vec<u8>)
    ensures
        data@ == old(store).buf(),
        final(store).buf() == Seq::<u8>::empty(),
        final(store).entries() == old(store).entries(),
        final(store).wf() == old(store).wf(),
{
    let data = store.buffer.split_off(0);
    proof {
        assert(data@ =~= old(store).buf());
        assert(store.buf() =~= Seq::<u8>::empty());
    }
    data
}

/// Replace the sequential buffer's contents wholesale (used to restore
/// previously extracted state).
pub fn load_to_buffer(store: &mut ChunkStore, data: Vec<u8>)
    ensures
        final(store).buf() == data@,
        final(store).entries() == old(store).entries(),
        final(store).wf() == old(store).wf(),
{
    store.buffer = data;
}

/// Replacing the payload at position `p` keeps the index order, updates the
/// denoted map at that index, and swaps that payload's length in the total.
proof fn lemma_replace_at(es: Seq<(u32, Seq<u8>)>, p: int, v: Seq<u8>)
    requires
        strictly_ascending(index_seq(es)),
        0 <= p < es.len(),
    ensures
        ({
            let new_es = es.update(p, (es[p].0, v));
            &&& strictly_ascending(index_seq(new_es))
            &&& entries_map(new_es) == entries_map(es).insert(es[p].0, v)
            &&& payload_total(new_es) == payload_total(es) - es[p].1.len() + v.len()
            &&& entries_map(es).dom().contains(es[p].0)
            &&& entries_map(es)[es[p].0] == es[p].1
        }),
{
    let k = es[p].0;
    let new_es = es.update(p, (k, v));
    let a = es.take(p);
    let b = es.skip(p + 1);
    assert(new_es =~= a + seq![(k, v)] + b);
    assert(es =~= a + seq![(k, es[p].1)] + b);
    assert(index_seq(es)[p] == k);
    assert forall|j: int| 0 <= j < index_seq(b).len() implies index_seq(b)[j] != k by {
        assert(index_seq(b)[j] == index_seq(es)[p + 1 + j]);
        assert(index_seq(es)[p] < index_seq(es)[p + 1 + j]);
    }
    assert(!index_seq(b).contains(k));
    lemma_entries_map_insert_middle(a, b, k, v);
    lemma_entries_map_insert_middle(a, b, k, es[p].1);
    assert(entries_map(a + b).insert(k, es[p].1).insert(k, v) =~= entries_map(a + b).insert(k, v));
    assert(index_seq(new_es) =~= index_seq(es));
    assert forall|j: int| p < j < es.len() implies es[j].0 != es[p].0 by {
        assert(index_seq(es)[p] < index_seq(es)[j]);
    }
    lemma_entries_map_value_at(es, p);
    lemma_payload_total_concat(a + seq![(k, v)], b);
    lemma_payload_total_concat(a, seq![(k, v)]);
    lemma_payload_total_concat(a + seq![(k, es[p].1)], b);
    lemma_payload_total_concat(a, seq![(k, es[p].1)]);
    lemma_payload_total_singleton(k, v);
    lemma_payload_total_singleton(k, es[p].1);
}

/// Inserting a fresh entry at its sorted position `p` keeps the index
/// order, adds its index to the denoted map, and its length to the total.
proof fn lemma_insert_at(es: Seq<(u32, Seq<u8>)>, p: int, k: u32, v: Seq<u8>)
    requires
        strictly_ascending(index_seq(es)),
        0 <= p <= es.len(),
        forall|j: int| 0 <= j < p ==> es[j].0 < k,
        forall|j: int| p <= j < es.len() ==> es[j].0 > k,
    ensures
        ({
            let new_es = es.take(p) + seq![(k, v)] + es.skip(p);
            &&& strictly_ascending(index_seq(new_es))
            &&& entries_map(new_es) == entries_map(es).insert(k, v)
            &&& payload_total(new_es) == payload_total(es) + v.len()
            &&& !entries_map(es).dom().contains(k)
            &&& new_es.len() == es.len() + 1
        }),
{
    let a = es.take(p);
    let b = es.skip(p);
    let new_es = a + seq![(k, v)] + b;
    assert forall|j: int| 0 <= j < index_seq(b).len() implies index_seq(b)[j] > k by {
        assert(index_seq(b)[j] == es[p + j].0);
    }
    assert(!index_seq(b).contains(k));
    assert(es =~= a + b);
    lemma_entries_map_insert_middle(a, b, k, v);
    lemma_entries_map_dom(es);
    assert forall|j: int| 0 <= j < index_seq(es).len() implies index_seq(es)[j] != k by {
        assert(index_seq(es)[j] == es[j].0);
    }
    assert(!index_seq(es).contains(k));
    let new_idx = index_seq(new_es);
    assert(forall|i: int| 0 <= i < p ==> new_idx[i] == index_seq(es)[i]);
    assert(new_idx[p] == k);
    assert(forall|i: int| p < i < new_idx.len() ==> new_idx[i] == index_seq(es)[i - 1]);
    assert forall|i: int, j: int| 0 <= i < j < new_idx.len() implies new_idx[i] < new_idx[j] by {
        if i < p && j < p {
            assert(index_seq(es)[i] < index_seq(es)[j]);
        } else if j > p && i < p {
            assert(es[i].0 < k);
            assert(es[j - 1].0 > k);
        } else if i > p && j > p {
            assert(index_seq(es)[i - 1] < index_seq(es)[j - 1]);
        }
    }
    lemma_payload_total_concat(a + seq![(k, v)], b);
    lemma_payload_total_concat(a, seq![(k, v)]);
    lemma_payload_total_concat(a, b);
    lemma_payload_total_singleton(k, v);
}

/// Dropping the entry at position `p` keeps the index order, removes its
/// index from the denoted map, and its length from the total.
proof fn lemma_remove_at(es: Seq<(u32, Seq<u8>)>, p: int)
    requires
        strictly_ascending(index_seq(es)),
        0 <= p < es.len(),
    ensures
        ({
            let new_es = es.remove(p);
            &&& strictly_ascending(index_seq(new_es))
            &&& entries_map(new_es) == entries_map(es).remove(es[p].0)
            &&& payload_total(new_es) == payload_total(es) - es[p].1.len()
            &&& entries_map(es).dom().contains(es[p].0)
            &&& entries_map(es)[es[p].0] == es[p].1
        }),
{
    let k = es[p].0;
    let a = es.take(p);
    let b = es.skip(p + 1);
    let new_es = es.remove(p);
    assert(es =~= a + seq![(k, es[p].1)] + b);
    assert(new_es =~= a + b);
    assert forall|j: int| 0 <= j < index_seq(b).len() implies index_seq(b)[j] != k by {
        assert(index_seq(b)[j] == index_seq(es)[p + 1 + j]);
        assert(index_seq(es)[p] < index_seq(es)[p + 1 + j]);
    }
    assert(!index_seq(b).contains(k));
    lemma_entries_map_insert_middle(a, b, k, es[p].1);
    lemma_entries_map_dom(a + b);
    assert forall|j: int| 0 <= j < index_seq(a + b).len() implies index_seq(a + b)[j] != k by {
        if j < p {
            assert(index_seq(a + b)[j] == index_seq(es)[j]);
            assert(index_seq(es)[j] < index_seq(es)[p]);
        } else {
            assert(index_seq(a + b)[j] == index_seq(es)[j + 1]);
            assert(index_seq(es)[p] < index_seq(es)[j + 1]);
        }
    }
    assert(!index_seq(a + b).contains(k));
    assert(!entries_map(a + b).dom().contains(k));
    assert(entries_map(a + b) =~= entries_map(a + b).insert(k, es[p].1).remove(k));
    assert forall|x: int, y: int|
        0 <= x < y < index_seq(new_es).len() implies index_seq(new_es)[x] < index_seq(
        new_es,
    )[y] by {
        let ox: int = if x < p {
            x
        } else {
            x + 1
        };
        let oy: int = if y < p {
            y
        } else {
            y + 1
        };
        assert(index_seq(new_es)[x] == index_seq(es)[ox]);
        assert(index_seq(new_es)[y] == index_seq(es)[oy]);
        assert(index_seq(es)[ox] < index_seq(es)[oy]);
    }
    assert forall|j: int| p < j < es.len() implies es[j].0 != es[p].0 by {
        assert(index_seq(es)[p] < index_seq(es)[j]);
    }
    lemma_entries_map_value_at(es, p);
    lemma_payload_total_concat(a + seq![(k, es[p].1)], b);
    lemma_payload_total_concat(a, seq![(k, es[p].1)]);
    lemma_payload_total_concat(a, b);
    lemma_payload_total_singleton(k, es[p].1);
}

/// Store `chunk` at position `chunk_id`, overwriting any payload already
/// there (last write wins, so a single chunk can be retried). Arrival order
/// is free; the entry goes to its sorted place.
pub fn append_parallel_chunk(store: &mut ChunkStore, chunk_id: u32, chunk: Vec<u8>)
    requires
        old(store).wf(),
    ensures
        final(store).wf(),
        final(store).buf() == old(store).buf(),
        final(store).chunk_map() == old(store).chunk_map().insert(chunk_id, chunk@),
        old(store).chunk_map().dom().contains(chunk_id) ==> final(store).entries().len() == old(
            store,
        ).entries().len() && payload_total(final(store).entries()) == payload_total(
            old(store).entries(),
        ) - old(store).chunk_map()[chunk_id].len() + chunk@.len(),
        !old(store).chunk_map().dom().contains(chunk_id) ==> final(store).entries().len() == old(
            store,
        ).entries().len() + 1 && payload_total(final(store).entries()) == payload_total(
            old(store).entries(),
        ) + chunk@.len(),
{
    let ghost old_es = store.entries();
    let n = store.chunks.len();
    let mut pos: usize = 0;
    while pos < n && store.chunks[pos].0 < chunk_id
        invariant
            pos <= n,
            n == store.chunks@.len(),
            *store == *old(store),
            forall|j: int| 0 <= j < pos ==> store.chunks@[j].0 < chunk_id,
        decreases n - pos,
    {
        pos += 1;
    }
    let ghost p = pos as int;
    let ghost old_idx = index_seq(old_es);
    proof {
        assert(forall|j: int| 0 <= j < old_es.len() ==> old_idx[j] == old(store).chunks@[j].0);
        assert(forall|j: int| 0 <= j < p ==> old_idx[j] < chunk_id);
    }
    if pos < n && store.chunks[pos].0 == chunk_id {
        store.chunks.remove(pos);
        store.chunks.insert(pos, (chunk_id, chunk));
        proof {
            assert(old_es[p].0 == chunk_id);
            assert(store.entries() =~= old_es.update(p, (chunk_id, chunk@)));
            lemma_replace_at(old_es, p, chunk@);
        }
    } else {
        store.chunks.insert(pos, (chunk_id, chunk));
        proof {
            assert forall|j: int| p <= j < old_es.len() implies old_es[j].0 > chunk_id by {
                if j > p {
                    assert(old_idx[p] < old_idx[j]);
                }
                assert(old_idx[j] == old_es[j].0);
            }
            assert(forall|j: int| 0 <= j < p ==> old_es[j].0 < chunk_id);
            assert(store.entries() =~= old_es.take(p) + seq![(chunk_id, chunk@)] + old_es.skip(
                p,
            ));
            lemma_insert_at(old_es, p, chunk_id, chunk@);
        }
    }
}

/// How many parallel chunks are stored.
pub fn parallel_chunk_count(store: &ChunkStore) -> (n: usize)
    ensures
        n == store.entries().len(),
{
    store.chunks.len()
}

/// The stored chunk indices, in ascending order.
pub fn parallel_chunk_ids(store: &ChunkStore) -> (ids: Vec<u32>)
    requires
        store.wf(),
    ensures
        ids@ == index_seq(store.entries()),
        strictly_ascending(ids@),
{
    let n = store.chunks.len();
    let mut ids: Vec<u32> = Vec::new();
    let mut i: usize = 0;
    while i < n
        invariant
            i <= n,
            n == store.chunks@.len(),
            ids@ =~= index_seq(store.entries()).take(i as int),
        decreases n - i,
    {
        ids.push(store.chunks[i].0);
        i += 1;
    }
    proof {
        assert(ids@ =~= index_seq(store.entries()));
    }
    ids
}

/// The summed length of all stored parallel chunks.
///
/// The sum must fit in `usize`: it is accumulated in machine arithmetic,
/// which fails once the total exceeds the machine's range.
pub fn parallel_buffer_size(store: &ChunkStore) -> (total: usize)
    requires
        payload_total(store.entries()) <= usize::MAX,
    ensures
        total == payload_total(store.entries()),
{
    let ghost es = store.entries();
    let n = store.chunks.len();
    let mut total: usize = 0;
    let mut i: usize = 0;
    while i < n
        invariant
            i <= n,
            n == store.chunks@.len(),
            es == store.entries(),
            payload_total(es) <= usize::MAX,
            total == payload_total(es.take(i as int)),
        decreases n - i,
    {
        proof {
            lemma_payload_total_take_step(es, i as int);
            lemma_payload_total_take_bound(es, i + 1);
        }
        total = total + store.chunks[i].1.len();
        i += 1;
    }
    proof {
        assert(es.take(n as int) =~= es);
    }
    total
}

/// True exactly when the indices `0, ..., expected_count - 1` are all
/// present and no further chunk is stored: completeness is strict, a store
/// with gaps or with extra indices is not complete.
pub fn parallel_chunks_complete(store: &ChunkStore, expected_count: u32) -> (r: bool)
    ensures
        r == store.complete_for(expected_count),
{
    let count = store.chunks.len();
    if count != expected_count as usize {
        return false;
    }
    let mut i: u32 = 0;
    while i < expected_count
        invariant
            i <= expected_count,
            store.entries().len() == expected_count,
            forall|j: u32| j < i ==> store.chunk_map().dom().contains(j),
        decreases expected_count - i,
    {
        if !store.contains_index(i) {
            return false;
        }
        i += 1;
    }
    true
}

/// The indices below `expected_count` that have no chunk yet, in ascending
/// order; indices at or above `expected_count` are ignored.
pub fn missing_chunks(store: &ChunkStore, expected_count: u32) -> (missing: Vec<u32>)
    ensures
        missing@ == missing_below(store.chunk_map(), expected_count),
{
    let mut missing: Vec<u32> = Vec::new();
    let mut i: u32 = 0;
    while i < expected_count
        invariant
            i <= expected_count,
            missing@ == missing_below(store.chunk_map(), i),
        decreases expected_count - i,
    {
        let present = store.contains_index(i);
        if !present {
            missing.push(i);
        }
        proof {
            assert(((i + 1) as u32 - 1) as u32 == i);
            if present {
                assert(missing_below(store.chunk_map(), (i + 1) as u32) =~= missing_below(
                    store.chunk_map(),
                    i,
                ));
            } else {
                assert(missing_below(store.chunk_map(), (i + 1) as u32) =~= missing_below(
                    store.chunk_map(),
                    i,
                ).push(i));
            }
        }
        i += 1;
    }
    missing
}

/// `concat_payloads` of one more entry appends that entry's payload.
proof fn lemma_concat_take_step(es: Seq<(u32, Seq<u8>)>, i: int)
    requires
        0 <= i < es.len(),
    ensures
        concat_payloads(es.take(i + 1)) == concat_payloads(es.take(i)) + es[i].1,
{
    assert(es.take(i + 1).drop_last() =~= es.take(i));
    assert(es.take(i + 1).last() == es[i]);
}

/// The stored payloads concatenated in ascending index order.
fn concat_chunks(chunks: &Vec<(u32, Vec<u8>)>, Ghost(es): Ghost<Seq<(u32, Seq<u8>)>>) -> (data: Vec<
    u8,
>)
    requires
        es == chunks@.map_values(|e: (u32, Vec<u8>)| (e.0, e.1@)),
    ensures
        data@ == concat_payloads(es),
{
    let n = chunks.len();
    let mut data: Vec<u8> = Vec::new();
    let mut i: usize = 0;
    while i < n
        invariant
            i <= n,
            n == chunks@.len(),
            es == chunks@.map_values(|e: (u32, Vec<u8>)| (e.0, e.1@)),
            data@ == concat_payloads(es.take(i as int)),
        decreases n - i,
    {
        let mut part = vstd::slice::slice_to_vec(chunks[i].1.as_slice());
        proof {
            assert(part@ == es[i as int].1);
            lemma_concat_take_step(es, i as int);
        }
        data.append(&mut part);
        i += 1;
    }
    proof {
        assert(es.take(n as int) =~= es);
    }
    data
}

/// Concatenate every stored chunk in ascending index order, move the result
/// into the sequential buffer (replacing its previous contents), drop all
/// parallel entries, and return the byte count written. Fails, leaving the
/// store untouched, exactly when no chunk is stored.
pub fn consolidate_parallel_chunks(store: &mut ChunkStore) -> (r: Result<usize, String>)
    ensures
        r is Err <==> old(store).entries().len() == 0,
        r matches Err(m) ==> *final(store) == *old(store) && m@
            == "No parallel chunks to consolidate"@,
        r matches Ok(sz) ==> {
            &&& final(store).buf() == concat_payloads(old(store).entries())
            &&& sz == concat_payloads(old(store).entries()).len()
            &&& final(store).entries() == Seq::<(u32, Seq<u8>)>::empty()
            &&& final(store).chunk_map() == Map::<u32, Seq<u8>>::empty()
        },
        old(store).wf() ==> final(store).wf(),
{
    if store.chunks.is_empty() {
        return Err(String::from_str("No parallel chunks to consolidate"));
    }
    let data = concat_chunks(&store.chunks, Ghost(store.entries()));
    let total = data.len();
    store.buffer = data;
    store.chunks.clear();
    proof {
        assert(store.entries() =~= Seq::<(u32, Seq<u8>)>::empty());
        assert(store.chunk_map() =~= Map::<u32, Seq<u8>>::empty());
    }
    Ok(total)
}

/// The stored chunks concatenated in ascending index order, without touching
/// the store. Fails exactly when no chunk is stored.
pub fn get_parallel_data(store: &ChunkStore) -> (r: Result<Vec<u8>, String>)
    ensures
        r is Err <==> store.entries().len() == 0,
        r matches Err(m) ==> m@ == "No parallel chunks available"@,
        r matches Ok(data) ==> data@ == concat_payloads(store.entries()),
{
    if store.chunks.is_empty() {
        return Err(String::from_str("No parallel chunks available"));
    }
    let data = concat_chunks(&store.chunks, Ghost(store.entries()));
    Ok(data)
}

/// Drop every parallel entry; the sequential buffer is untouched.
pub fn clear_parallel_chunks(store: &mut ChunkStore)
    ensures
        final(store).wf(),
        final(store).buf() == old(store).buf(),
        final(store).entries() == Seq::<(u32, Seq<u8>)>::empty(),
        final(store).chunk_map() == Map::<u32, Seq<u8>>::empty(),
{
    store.chunks.clear();
    proof {
        assert(store.entries() =~= Seq::<(u32, Seq<u8>)>::empty());
        assert(store.chunk_map() =~= Map::<u32, Seq<u8>>::empty());
    }
}

/// Drop the chunk at `chunk_id` if one is stored, reporting whether one was;
/// dropping an absent index is not an error, merely `false`.
pub fn remove_parallel_chunk(store: &mut ChunkStore, chunk_id: u32) -> (removed: bool)
    requires
        old(store).wf(),
    ensures
        final(store).wf(),
        final(store).buf() == old(store).buf(),
        removed == old(store).chunk_map().dom().contains(chunk_id),
        final(store).chunk_map() == old(store).chunk_map().remove(chunk_id),
        removed ==> final(store).entries().len() == old(store).entries().len() - 1
            && payload_total(final(store).entries()) == payload_total(old(store).entries())
            - old(store).chunk_map()[chunk_id].len(),
        !removed ==> *final(store) == *old(store),
{
    proof {
        lemma_entries_map_dom(old(store).entries());
    }
    let ghost old_es = store.entries();
    let ghost old_idx = index_seq(old_es);
    let n = store.chunks.len();
    let mut i: usize = 0;
    while i < n
        invariant
            i <= n,
            n == store.chunks@.len(),
            *store == *old(store),
            old_es == old(store).entries(),
            old_idx == index_seq(old_es),
            strictly_ascending(old_idx),
            forall|j: int| 0 <= j < i ==> store.chunks@[j].0 != chunk_id,
        decreases n - i,
    {
        if store.chunks[i].0 == chunk_id {
            let ghost p = i as int;
            store.chunks.remove(i);
            proof {
                assert(old_es[p].0 == chunk_id);
                assert(store.entries() =~= old_es.remove(p));
                lemma_remove_at(old_es, p);
            }
            return true;
        }
        i += 1;
    }
    proof {
        assert(forall|j: int|
            0 <= j < index_seq(old_es).len() ==> index_seq(old_es)[j] != chunk_id);
        assert(!index_seq(old_es).contains(chunk_id));
        assert(!old(store).chunk_map().dom().contains(chunk_id));
        assert(old(store).chunk_map() =~= old(store).chunk_map().remove(chunk_id));
    }
    false
}

/// A read-only snapshot of both buffers: sequential length, parallel chunk
/// count, summed parallel byte count, and the sorted chunk indices. Advisory
/// only; it is recomputed on each request and never stored.
pub struct StorageStatus {
    pub buffer_size: usize,
    pub parallel_chunk_count: usize,
    pub parallel_buffer_size: usize,
    pub parallel_chunk_ids: Vec<u32>,
}

/// A list of ids as they appear inside its textual rendering: decimal,
/// separated by comma and space.
pub open spec fn ids_text(ids: Seq<u32>) -> Seq<char>
    decreases ids.len(),
{
    if ids.len() == 0 {
        Seq::empty()
    } else if ids.len() == 1 {
        crate::text::decimal_digits(ids[0] as nat)
    } else {
        ids_text(ids.drop_last()) + ", "@ + crate::text::decimal_digits(ids.last() as nat)
    }
}

/// The three-line textual rendering of a snapshot.
pub open spec fn spec_status_text(s: StorageStatus) -> Seq<char> {
    "Sequential buffer: "@ + crate::text::decimal_digits(s.buffer_size as nat) + " bytes\n"@
        + "Parallel chunks: "@ + crate::text::decimal_digits(s.parallel_chunk_count as nat)
        + " chunks, "@ + crate::text::decimal_digits(s.parallel_buffer_size as nat)
        + " bytes total\n"@ + "Chunk IDs: ["@ + ids_text(s.parallel_chunk_ids@) + "]"@
}

impl StorageStatus {
    /// The snapshot as three lines of text: sequential buffer size,
    /// parallel chunk count and byte total, and the chunk id list.
    pub fn to_text(&self) -> (out: String)
        ensures
            out@ == spec_status_text(*self),
    {
        let mut out = String::new();
        out.append("Sequential buffer: ");
        let d = crate::text::u64_to_decimal(self.buffer_size as u64);
        out.append(d.as_str());
        out.append(" bytes\n");
        out.append("Parallel chunks: ");
        let d = crate::text::u64_to_decimal(self.parallel_chunk_count as u64);
        out.append(d.as_str());
        out.append(" chunks, ");
        let d = crate::text::u64_to_decimal(self.parallel_buffer_size as u64);
        out.append(d.as_str());
        out.append(" bytes total\n");
        out.append("Chunk IDs: [");
        let ids = &self.parallel_chunk_ids;
        let n = ids.len();
        let mut i: usize = 0;
        let ghost prefix = out@;
        while i < n
            invariant
                i <= n,
                n == ids@.len(),
                out@ == prefix + ids_text(ids@.take(i as int)),
            decreases n - i,
        {
            if i > 0 {
                out.append(", ");
            }
            let d = crate::text::u64_to_decimal(ids[i] as u64);
            out.append(d.as_str());
            proof {
                assert(ids@.take(i + 1).drop_last() =~= ids@.take(i as int));
                assert(ids@.take(i + 1).last() == ids@[i as int]);
                if i == 0 {
                    assert(out@ =~= prefix + ids_text(ids@.take(i + 1)));
                } else {
                    assert(out@ =~= prefix + ids_text(ids@.take(i + 1)));
                }
            }
            i += 1;
        }
        proof {
            assert(ids@.take(n as int) =~= ids@);
        }
        out.append("]");
        proof {
            assert(out@ =~= spec_status_text(*self));
        }
        out
    }
}

/// Snapshot the current storage state without mutating it.
pub fn storage_status(store: &ChunkStore) -> (status: StorageStatus)
    requires
        store.wf(),
        payload_total(store.entries()) <= usize::MAX,
    ensures
        status.buffer_size == store.buf().len(),
        status.parallel_chunk_count == store.entries().len(),
        status.parallel_buffer_size == payload_total(store.entries()),
        status.parallel_chunk_ids@ == index_seq(store.entries()),
{
    StorageStatus {
        buffer_size: buffer_size(store),
        parallel_chunk_count: parallel_chunk_count(store),
        parallel_buffer_size: parallel_buffer_size(store),
        parallel_chunk_ids: parallel_chunk_ids(store),
    }
}

/// `payload_total` of one more entry adds that entry's payload length.
proof fn lemma_payload_total_take_step(es: Seq<(u32, Seq<u8>)>, i: int)
    requires
        0 <= i < es.len(),
    ensures
        payload_total(es.take(i + 1)) == payload_total(es.take(i)) + es[i].1.len(),
{
    assert(es.take(i + 1).drop_last() =~= es.take(i));
    assert(es.take(i + 1).last() == es[i]);
}

/// A prefix never sums to more than the whole.
proof fn lemma_payload_total_take_bound(es: Seq<(u32, Seq<u8>)>, i: int)
    requires
        0 <= i <= es.len(),
    ensures
        payload_total(es.take(i)) <= payload_total(es),
    decreases es.len() - i,
{
    if i < es.len() {
        lemma_payload_total_take_step(es, i);
        lemma_payload_total_take_bound(es, i + 1);
    } else {
        assert(es.take(i) =~= es);
    }
}

/// What consolidation writes is as long as the chunks it consumes: the
/// concatenated payloads' length is the summed payload length.
pub proof fn lemma_concat_len(es: Seq<(u32, Seq<u8>)>)
    ensures
        concat_payloads(es).len() == payload_total(es),
    decreases es.len(),
{
    if es.len() > 0 {
        lemma_concat_len(es.drop_last());
    }
}

/// Chunks for distinct indices may arrive in either order: the two
/// insertions leave the same map either way.
pub proof fn lemma_insert_order_irrelevant(
    m: Map<u32, Seq<u8>>,
    i: u32,
    p: Seq<u8>,
    j: u32,
    q: Seq<u8>,
)
    requires
        i != j,
    ensures
        m.insert(i, p).insert(j, q) == m.insert(j, q).insert(i, p),
{
    assert(m.insert(i, p).insert(j, q) =~= m.insert(j, q).insert(i, p));
}

/// Storing a payload at an index and then another payload at the same index
/// leaves the map holding only the second payload, and leaves the set of
/// present indices — hence the chunk count — exactly as after the first
/// store: a duplicate insert never changes how many chunks are held.
pub proof fn lemma_overwrite_last_wins(m: Map<u32, Seq<u8>>, i: u32, p1: Seq<u8>, p2: Seq<u8>)
    ensures
        m.insert(i, p1).insert(i, p2) == m.insert(i, p2),
        m.insert(i, p1).insert(i, p2).dom() == m.insert(i, p1).dom(),
{
    assert(m.insert(i, p1).insert(i, p2) =~= m.insert(i, p2));
    assert(m.insert(i, p1).insert(i, p2).dom() =~= m.insert(i, p1).dom());
}

/// The missing-index list below `n` is the ascending complement of the
/// present indices within `0 .. n`: it carries exactly the indices below `n`
/// that the map lacks, in strictly ascending order, whatever indices at or
/// above `n` may be stored.
pub proof fn lemma_missing_below_is_complement(m: Map<u32, Seq<u8>>, n: u32)
    ensures
        strictly_ascending(missing_below(m, n)),
        forall|i: u32| #![trigger missing_below(m, n).contains(i)]
            missing_below(m, n).contains(i) <==> (i < n && !m.dom().contains(i)),
    decreases n,
{
    if n > 0 {
        let n0 = (n - 1) as u32;
        lemma_missing_below_is_complement(m, n0);
        let s0 = missing_below(m, n0);
        let s = missing_below(m, n);
        if m.dom().contains(n0) {
            assert(s =~= s0);
            assert forall|i: u32| #![trigger missing_below(m, n).contains(i)]
                missing_below(m, n).contains(i) <==> (i < n && !m.dom().contains(i)) by {
                assert(missing_below(m, n0).contains(i) <==> (i < n0 && !m.dom().contains(i)));
                assert(missing_below(m, n).contains(i) == missing_below(m, n0).contains(i));
                if i == n0 {
                    assert(m.dom().contains(i));
                }
            }
        } else {
            assert(s =~= s0.push(n0));
            assert forall|i: u32| #![trigger missing_below(m, n).contains(i)]
                missing_below(m, n).contains(i) <==> (i < n && !m.dom().contains(i)) by {
                assert(missing_below(m, n0).contains(i) <==> (i < n0 && !m.dom().contains(i)));
                if missing_below(m, n).contains(i) {
                    let j = choose|j: int| 0 <= j < s.len() && s[j] == i;
                    if j < s0.len() {
                        assert(s0[j] == i);
                        assert(missing_below(m, n0).contains(i));
                    } else {
                        assert(i == n0);
                    }
                }
                if i < n && !m.dom().contains(i) {
                    if i < n0 {
                        assert(missing_below(m, n0).contains(i));
                        let j = choose|j: int| 0 <= j < s0.len() && s0[j] == i;
                        assert(s[j] == i);
                        assert(missing_below(m, n).contains(i));
                    } else {
                        assert(s[s.len() - 1] == i);
                        assert(missing_below(m, n).contains(i));
                    }
                }
            }
            assert forall|x: int, y: int| 0 <= x < y < s.len() implies s[x] < s[y] by {
                if y == s.len() - 1 {
                    assert(s0[x] == s[x]);
                    assert(missing_below(m, n0).contains(s0[x]));
                } else {
                    assert(s0[x] == s[x]);
                    assert(s0[y] == s[y]);
                    assert(strictly_ascending(missing_below(m, n0)));
                }
            }
        }
    }
}

/// A store is complete for `n` exactly when nothing below `n` is missing and
/// the chunk count equals `n`.
pub proof fn lemma_complete_iff_no_missing(s: ChunkStore, n: u32)
    ensures
        s.complete_for(n) <==> (missing_below(s.chunk_map(), n).len() == 0 && s.entries().len()
            == n),
{
    let m = s.chunk_map();
    lemma_missing_below_is_complement(m, n);
    let miss = missing_below(m, n);
    if miss.len() == 0 {
        assert forall|i: u32| i < n implies m.dom().contains(i) by {
            assert(!missing_below(m, n).contains(i));
        }
    } else {
        assert(missing_below(m, n).contains(miss[0]));
        assert(miss[0] < n && !m.dom().contains(miss[0]));
        assert(!s.complete_for(n));
    }
}

/// `ordered_concat` depends only on the payloads below `n`.
proof fn lemma_ordered_concat_congruence(m1: Map<u32, Seq<u8>>, m2: Map<u32, Seq<u8>>, n: u32)
    requires
        forall|i: u32| i < n ==> m1[i] == m2[i],
    ensures
        ordered_concat(m1, n) == ordered_concat(m2, n),
    decreases n,
{
    if n > 0 {
        lemma_ordered_concat_congruence(m1, m2, (n - 1) as u32);
    }
}

/// A sorted entry sequence whose indices are exactly `0 .. n` has length `n`
/// and concatenates to the payloads of `0, 1, ..., n - 1` in that order.
proof fn lemma_sorted_full_range_concat(es: Seq<(u32, Seq<u8>)>, n: u32)
    requires
        strictly_ascending(index_seq(es)),
        forall|i: u32| #![auto] index_seq(es).contains(i) <==> i < n,
    ensures
        es.len() == n,
        concat_payloads(es) == ordered_concat(entries_map(es), n),
    decreases n,
{
    if n == 0 {
        if es.len() > 0 {
            assert(index_seq(es)[0] == es[0].0);
            assert(index_seq(es).contains(es[0].0));
        }
        assert(es =~= Seq::<(u32, Seq<u8>)>::empty());
    } else {
        let n0 = (n - 1) as u32;
        assert(index_seq(es).contains(n0));
        let j = choose|j: int| 0 <= j < index_seq(es).len() && index_seq(es)[j] == n0;
        let last_i = index_seq(es)[es.len() - 1];
        assert(index_seq(es).contains(last_i));
        if j < es.len() - 1 {
            assert(index_seq(es)[j] < last_i);
        }
        assert(last_i == n0);
        let es0 = es.drop_last();
        assert(forall|t: int| 0 <= t < es0.len() ==> index_seq(es0)[t] == index_seq(es)[t]);
        assert forall|i: u32| #![auto] index_seq(es0).contains(i) implies i < n0 by {
            let t = choose|t: int| 0 <= t < index_seq(es0).len() && index_seq(es0)[t] == i;
            assert(index_seq(es)[t] == i);
            assert(index_seq(es).contains(i));
            assert(index_seq(es)[t] < index_seq(es)[es.len() - 1]);
        }
        assert forall|i: u32| #![auto] i < n0 implies index_seq(es0).contains(i) by {
            assert(index_seq(es).contains(i));
            let t = choose|t: int| 0 <= t < index_seq(es).len() && index_seq(es)[t] == i;
            assert(t != es.len() - 1);
            assert(index_seq(es0)[t] == i);
        }
        lemma_sorted_full_range_concat(es0, n0);
        assert(entries_map(es) == entries_map(es0).insert(n0, es.last().1));
        assert(entries_map(es)[n0] == es.last().1);
        assert forall|i: u32| i < n0 implies entries_map(es0)[i] == entries_map(es)[i] by {
            assert(i != n0);
        }
        lemma_ordered_concat_congruence(entries_map(es0), entries_map(es), n0);
    }
}

/// However chunks arrive, once the present indices are exactly
/// `0 .. n` — each index covered once, in any insertion order — the store is
/// complete for `n` and consolidation's concatenation equals the payloads of
/// indices `0, 1, ..., n - 1` joined in ascending index order.
pub proof fn lemma_complete_consolidation(s: ChunkStore, n: u32)
    requires
        s.wf(),
        forall|i: u32| #![auto] s.chunk_map().dom().contains(i) <==> i < n,
    ensures
        s.complete_for(n),
        concat_payloads(s.entries()) == ordered_concat(s.chunk_map(), n),
{
    lemma_entries_map_dom(s.entries());
    assert forall|i: u32| #![auto] index_seq(s.entries()).contains(i) <==> i < n by {
        assert(s.chunk_map().dom().contains(i) <==> i < n);
    }
    lemma_sorted_full_range_concat(s.entries(), n);
}

} // verus!
