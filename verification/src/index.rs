//! The search index: what is known of each file, by the file's id.
use crate::records::ChunkRecord;
use vstd::hash_map::StringHashMap;
use vstd::prelude::*;
use vstd::string::*;

verus! {

use crate::text::views;

/// Components in the vector of one chunk.
pub const BI_HIDDEN: usize = 1024;

/// What the index holds of one file. The vectors of its chunks stand one behind the
/// other, `BI_HIDDEN` components each; `V` is the type of a component.
pub struct IndexEntry<V> {
    pub hmac: Vec<u8>,
    pub chunks: Vec<ChunkRecord>,
    pub vectors: Vec<V>,
}

/// How many chunks of the entry have a whole vector.
pub open spec fn embedded_chunks<V>(e: IndexEntry<V>) -> int {
    let whole = e.vectors@.len() as int / BI_HIDDEN as int;
    if e.chunks@.len() <= whole {
        e.chunks@.len() as int
    } else {
        whole
    }
}

/// The entries of an index, as a map from file ids.
pub type Entries<V> = Map<Seq<char>, IndexEntry<V>>;

/// The file `id` is not in the index, or was indexed with another content.
pub open spec fn is_stale<V>(entries: Entries<V>, id: Seq<char>, hmac: Seq<u8>) -> bool {
    !entries.contains_key(id) || entries[id].hmac@ != hmac
}

/// The chunks of the files `order` that have a vector, file by file.
pub open spec fn searchable_chunks<V>(entries: Entries<V>, order: Seq<Seq<char>>) -> Seq<ChunkRecord> {
    order.flat_map(|id: Seq<char>| entries[id].chunks@.take(embedded_chunks(entries[id])))
}

/// The vectors of those chunks.
pub open spec fn searchable_vectors<V>(entries: Entries<V>, order: Seq<Seq<char>>) -> Seq<V> {
    order.flat_map(
        |id: Seq<char>| entries[id].vectors@.take(embedded_chunks(entries[id]) * BI_HIDDEN as int),
    )
}

/// The number of chunks in the files `order`.
pub open spec fn chunk_total<V>(entries: Entries<V>, order: Seq<Seq<char>>) -> nat
    decreases order.len(),
{
    if order.len() == 0 {
        0
    } else {
        chunk_total(entries, order.drop_last()) + entries[order.last()].chunks@.len()
    }
}

/// An index of files. Its entries have an order, which has no meaning beyond being the
/// one in which the index is walked.
#[verifier::reject_recursive_types(V)]
pub struct Index<V> {
    ids: Vec<String>,
    entries: StringHashMap<IndexEntry<V>>,
}

impl<V> View for Index<V> {
    type V = Entries<V>;

    closed spec fn view(&self) -> Entries<V> {
        self.entries@
    }
}

impl<V> Index<V> {
    /// The ids in the order in which the index is walked.
    pub closed spec fn order(&self) -> Seq<Seq<char>> {
        views(self.ids@)
    }

    /// The order lists every id of the index once, and nothing else.
    pub open spec fn wf(&self) -> bool {
        &&& self.order().no_duplicates()
        &&& forall|id: Seq<char>|
            #![trigger self@.contains_key(id)]
            #![trigger self.order().contains(id)]
            self@.contains_key(id) <==> self.order().contains(id)
    }

    /// An index of no files.
    pub fn new() -> (r: Self)
        ensures
            r.wf(),
            r@ == Map::<Seq<char>, IndexEntry<V>>::empty(),
            r.order() == Seq::<Seq<char>>::empty(),
    {
        let r = Index { ids: Vec::new(), entries: StringHashMap::new() };
        proof {
            assert(r.order() =~= seq![]);
        }
        r
    }

    /// The number of files in the index.
    pub fn len(&self) -> (r: usize)
        ensures
            r == self.order().len(),
    {
        self.ids.len()
    }

    /// The id of the file at place `i` of the order.
    pub fn id_at(&self, i: usize) -> (r: &str)
        requires
            i < self.order().len(),
        ensures
            r@ == self.order()[i as int],
    {
        self.ids[i].as_str()
    }

    /// What the index holds of the file `id`.
    pub fn get(&self, id: &str) -> (r: Option<&IndexEntry<V>>)
        ensures
            r == (if self@.contains_key(id@) {
                Some(&self@[id@])
            } else {
                None
            }),
    {
        self.entries.get(id)
    }

    /// Puts `entry` in the index as what it holds of the file `id`, in place of what it
    /// held before. A file that is new to the index comes last in its order.
    pub fn insert(&mut self, id: String, entry: IndexEntry<V>)
        requires
            old(self).wf(),
        ensures
            final(self).wf(),
            final(self)@ == old(self)@.insert(id@, entry),
            final(self).order() == (if old(self)@.contains_key(id@) {
                old(self).order()
            } else {
                old(self).order().push(id@)
            }),
    {
        if !self.entries.contains_key(id.as_str()) {
            self.ids.push(id.clone());
            proof {
                assert(self.order() =~= old(self).order().push(id@));
            }
        }
        self.entries.insert(id, entry);
        proof {
            let before = old(self).order();
            let after = self.order();
            assert forall|x: Seq<char>| #![trigger self@.contains_key(x)] #![trigger after.contains(x)]
                self@.contains_key(x) <==> after.contains(x) by {
                assert(old(self)@.contains_key(x) <==> before.contains(x));
                if before.contains(x) {
                    let k = choose|k: int| 0 <= k < before.len() && before[k] == x;
                    assert(after[k] == x);
                }
                if x == id@ && !old(self)@.contains_key(id@) {
                    assert(after[after.len() - 1] == x);
                }
                if after.contains(x) {
                    let k = choose|k: int| 0 <= k < after.len() && after[k] == x;
                    if k < before.len() {
                        assert(before[k] == x);
                    }
                }
            }
            assert(after.no_duplicates()) by {
                assert(old(self)@.contains_key(id@) <==> before.contains(id@));
            }
        }
    }

    /// Drops every file whose id is not in `current`.
    pub fn retain(&mut self, current: &Vec<String>)
        requires
            old(self).wf(),
        ensures
            final(self).wf(),
            final(self)@ == old(self)@.restrict(
                Set::new(|id: Seq<char>| views(current@).contains(id)),
            ),
            final(self).order() == old(self).order().filter(
                |id: Seq<char>| views(current@).contains(id),
            ),
    {
        let known = id_set(current);
        let ghost keep = |id: Seq<char>| views(current@).contains(id);
        let ghost all = self.order();
        let ghost map = self@;
        let mut kept: Vec<String> = Vec::new();
        let mut i: usize = 0;
        proof {
            reveal(Seq::filter);
            assert(all.take(0).filter(keep) =~= seq![]);
            assert(views(kept@) =~= seq![]);
        }
        while i < self.ids.len()
            invariant
                i <= all.len(),
                all == views(self.ids@),
                keep == (|id: Seq<char>| views(current@).contains(id)),
                forall|x: Seq<char>| #[trigger] known@.contains_key(x) <==> keep(x),
                views(kept@) == all.take(i as int).filter(keep),
                forall|x: Seq<char>|
                    #[trigger] self.entries@.contains_key(x) <==> map.contains_key(x) && (keep(x)
                        || !all.take(i as int).contains(x)),
                forall|x: Seq<char>|
                    #[trigger] self.entries@.contains_key(x) ==> self.entries@[x] == map[x],
            decreases all.len() - i,
        {
            let ghost id = all[i as int];
            let ghost kept_before = kept@;
            let ghost entries_before = self.entries@;
            proof {
                assert(views(self.ids@)[i as int] == self.ids@[i as int]@);
                assert(all.take(i + 1) =~= all.take(i as int).push(id));
                all.take(i as int).lemma_filter_push(id, keep);
                assert forall|x: Seq<char>| #[trigger] all.take(i + 1).contains(x) <==> all.take(
                    i as int,
                ).contains(x) || x == id by {
                    if all.take(i as int).contains(x) {
                        let k = choose|k: int| 0 <= k < i && all.take(i as int)[k] == x;
                        assert(all.take(i + 1)[k] == x);
                    }
                    if x == id {
                        assert(all.take(i + 1)[i as int] == x);
                    }
                }
            }
            if known.contains_key(self.ids[i].as_str()) {
                kept.push(self.ids[i].clone());
                proof {
                    assert(views(kept@) =~= views(kept_before).push(id));
                }
            } else {
                self.entries.remove(self.ids[i].as_str());
            }
            i += 1;
        }
        self.ids = kept;
        proof {
            assert(all.take(i as int) =~= all);
            let order = self.order();
            assert(self@ =~= map.restrict(Set::new(keep)));
            assert forall|x: Seq<char>| #![trigger self@.contains_key(x)] #![trigger order.contains(x)]
                self@.contains_key(x) <==> order.contains(x) by {
                assert(map.contains_key(x) <==> all.contains(x));
                if order.contains(x) {
                    all.lemma_filter_contains_rev(keep, x);
                    let k = choose|k: int| 0 <= k < order.len() && order[k] == x;
                    all.lemma_filter_pred(keep, k);
                }
                if all.contains(x) && keep(x) {
                    let k = choose|k: int| 0 <= k < all.len() && all[k] == x;
                    all.lemma_filter_contains(keep, k);
                }
            }
            lemma_filter_no_duplicates(all, keep);
        }
    }

    /// Reports whether the file `id`, with the content that `hmac` stands for, has to be
    /// indexed.
    pub fn needs_index(&self, id: &str, hmac: &Vec<u8>) -> (r: bool)
        ensures
            r == is_stale(self@, id@, hmac@),
    {
        match self.entries.get(id) {
            None => true,
            Some(entry) => !same_bytes(&entry.hmac, hmac),
        }
    }

    /// The number of chunks in the index.
    pub fn total_chunks(&self) -> (r: u128)
        requires
            self.wf(),
        ensures
            r == chunk_total(self@, self.order()),
    {
        let ghost all = self.order();
        let mut total: u128 = 0;
        let mut i: usize = 0;
        while i < self.ids.len()
            invariant
                self.wf(),
                all == self.order(),
                all == views(self.ids@),
                self@ == self.entries@,
                i <= all.len(),
                total == chunk_total(self@, all.take(i as int)),
                total <= i * usize::MAX,
            decreases all.len() - i,
        {
            proof {
                assert(views(self.ids@)[i as int] == self.ids@[i as int]@);
                assert(all.contains(all[i as int]));
                assert(all.take(i + 1).drop_last() =~= all.take(i as int));
                assert(all.take(i + 1).last() == all[i as int]);
                assert((i + 1) * usize::MAX == i * usize::MAX + usize::MAX) by (nonlinear_arith);
                assert((i + 1) * usize::MAX <= usize::MAX * usize::MAX) by (nonlinear_arith)
                    requires
                        i + 1 <= usize::MAX,
                ;
                assert(usize::MAX * usize::MAX <= u128::MAX) by (nonlinear_arith)
                    requires
                        usize::MAX <= 0xffff_ffff_ffff_ffff,
                ;
            }
            if let Some(entry) = self.entries.get(self.ids[i].as_str()) {
                total = total + entry.chunks.len() as u128;
            }
            i += 1;
        }
        proof {
            assert(all.take(i as int) =~= all);
        }
        total
    }
}

/// The ids in `ids`, as a set.
fn id_set(ids: &Vec<String>) -> (r: StringHashMap<bool>)
    ensures
        forall|x: Seq<char>| #[trigger] r@.contains_key(x) <==> views(ids@).contains(x),
{
    let ghost all = views(ids@);
    let mut out: StringHashMap<bool> = StringHashMap::new();
    let mut i: usize = 0;
    while i < ids.len()
        invariant
            i <= ids@.len(),
            all == views(ids@),
            forall|x: Seq<char>| #[trigger] out@.contains_key(x) <==> all.take(i as int).contains(x),
        decreases ids@.len() - i,
    {
        let ghost before = out@;
        out.insert(ids[i].clone(), true);
        proof {
            let id = all[i as int];
            assert(id == ids@[i as int]@);
            assert forall|x: Seq<char>| #[trigger] out@.contains_key(x) <==> all.take(
                i + 1,
            ).contains(x) by {
                assert(before.contains_key(x) <==> all.take(i as int).contains(x));
                if all.take(i as int).contains(x) {
                    let k = choose|k: int| 0 <= k < i && all.take(i as int)[k] == x;
                    assert(all.take(i + 1)[k] == x);
                }
                if x == id {
                    assert(all.take(i + 1)[i as int] == x);
                }
                if all.take(i + 1).contains(x) {
                    let longer = all.take(i + 1);
                    let k = choose|k: int| 0 <= k < longer.len() && longer[k] == x;
                    if k < i {
                        assert(all.take(i as int)[k] == x);
                    }
                }
            }
        }
        i += 1;
    }
    proof {
        assert(all.take(i as int) =~= all);
    }
    out
}

fn same_bytes(a: &Vec<u8>, b: &Vec<u8>) -> (r: bool)
    ensures
        r == (a@ == b@),
{
    if a.len() != b.len() {
        return false;
    }
    let mut i: usize = 0;
    while i < a.len()
        invariant
            a@.len() == b@.len(),
            i <= a@.len(),
            forall|k: int| 0 <= k < i ==> a@[k] == b@[k],
        decreases a@.len() - i,
    {
        if a[i] != b[i] {
            return false;
        }
        i += 1;
    }
    proof {
        assert(a@ =~= b@);
    }
    true
}

proof fn lemma_filter_no_duplicates(s: Seq<Seq<char>>, keep: spec_fn(Seq<char>) -> bool)
    requires
        s.no_duplicates(),
    ensures
        s.filter(keep).no_duplicates(),
    decreases s.len(),
{
    reveal(Seq::filter);
    if s.len() > 0 {
        let front = s.drop_last();
        lemma_filter_no_duplicates(front, keep);
        if keep(s.last()) && front.filter(keep).contains(s.last()) {
            front.lemma_filter_contains_rev(keep, s.last());
        }
    }
}

impl<V: Copy> Index<V> {
    /// The chunks that have a vector, and their vectors, in the order of the index.
    pub fn searchable(&self) -> (r: (Vec<&ChunkRecord>, Vec<V>))
        requires
            self.wf(),
        ensures
            r.0@.unref() == searchable_chunks(self@, self.order()),
            r.1@ == searchable_vectors(self@, self.order()),
    {
        let ghost all = self.order();
        let ghost f = |id: Seq<char>| self@[id].chunks@.take(embedded_chunks(self@[id]));
        let ghost g = |id: Seq<char>|
            self@[id].vectors@.take(embedded_chunks(self@[id]) * BI_HIDDEN as int);
        let mut chunks: Vec<&ChunkRecord> = Vec::new();
        let mut vectors: Vec<V> = Vec::new();
        let mut i: usize = 0;
        proof {
            assert(all.take(0).map_values(f) =~= seq![]);
            assert(all.take(0).map_values(g) =~= seq![]);
            assert(chunks@.unref() =~= all.take(0).flat_map(f));
            assert(vectors@ =~= all.take(0).flat_map(g));
        }
        while i < self.ids.len()
            invariant
                self.wf(),
                all == self.order(),
                all == views(self.ids@),
                self@ == self.entries@,
                i <= all.len(),
                f == (|id: Seq<char>| self@[id].chunks@.take(embedded_chunks(self@[id]))),
                g == (|id: Seq<char>|
                    self@[id].vectors@.take(embedded_chunks(self@[id]) * BI_HIDDEN as int)),
                chunks@.unref() == all.take(i as int).flat_map(f),
                vectors@ == all.take(i as int).flat_map(g),
            decreases all.len() - i,
        {
            proof {
                assert(views(self.ids@)[i as int] == self.ids@[i as int]@);
                assert(all.contains(all[i as int]));
                all.lemma_flat_map_take_append(f, i as int);
                all.lemma_flat_map_take_append(g, i as int);
            }
            if let Some(entry) = self.entries.get(self.ids[i].as_str()) {
                let ghost chunks_before = chunks@;
                let ghost vectors_before = vectors@;
                append_entry(entry, &mut chunks, &mut vectors);
                proof {
                    assert(*entry == self@[all[i as int]]);
                    assert(chunks@.unref() =~= chunks_before.unref() + f(all[i as int]));
                    assert(vectors@ =~= vectors_before + g(all[i as int]));
                }
            }
            i += 1;
        }
        proof {
            assert(all.take(i as int) =~= all);
        }
        (chunks, vectors)
    }
}

/// Appends the chunks of `entry` that have a vector, and those vectors.
fn append_entry<'a, V: Copy>(
    entry: &'a IndexEntry<V>,
    chunks: &mut Vec<&'a ChunkRecord>,
    vectors: &mut Vec<V>,
)
    ensures
        final(chunks)@.unref() == old(chunks)@.unref() + entry.chunks@.take(embedded_chunks(*entry)),
        final(vectors)@ == old(vectors)@ + entry.vectors@.take(
            embedded_chunks(*entry) * BI_HIDDEN as int,
        ),
{
    let whole: usize = entry.vectors.len() / BI_HIDDEN;
    let n: usize = if entry.chunks.len() <= whole {
        entry.chunks.len()
    } else {
        whole
    };
    let mut i: usize = 0;
    proof {
        assert(chunks@.unref() =~= old(chunks)@.unref() + entry.chunks@.take(0));
    }
    while i < n
        invariant
            i <= n <= entry.chunks@.len(),
            chunks@.unref() == old(chunks)@.unref() + entry.chunks@.take(i as int),
        decreases n - i,
    {
        let ghost before = chunks@;
        chunks.push(&entry.chunks[i]);
        i += 1;
        proof {
            assert(chunks@.unref() =~= before.unref().push(entry.chunks@[i - 1]));
            assert(entry.chunks@.take(i as int) =~= entry.chunks@.take(i - 1).push(
                entry.chunks@[i - 1],
            ));
            assert(chunks@.unref() =~= old(chunks)@.unref() + entry.chunks@.take(i as int));
        }
    }
    let m: usize = n * BI_HIDDEN;
    let mut j: usize = 0;
    proof {
        assert(vectors@ =~= old(vectors)@ + entry.vectors@.take(0));
    }
    while j < m
        invariant
            j <= m <= entry.vectors@.len(),
            vectors@ == old(vectors)@ + entry.vectors@.take(j as int),
        decreases m - j,
    {
        vectors.push(entry.vectors[j]);
        j += 1;
        proof {
            assert(vectors@ =~= old(vectors)@ + entry.vectors@.take(j as int));
        }
    }
}

/// The vectors are laid out by chunk: `BI_HIDDEN` components for each, and nothing else.
pub proof fn law_vectors_match_chunks<V>(entries: Entries<V>, order: Seq<Seq<char>>)
    ensures
        searchable_vectors(entries, order).len() == searchable_chunks(entries, order).len()
            * BI_HIDDEN,
    decreases order.len(),
{
    let f = |id: Seq<char>| entries[id].chunks@.take(embedded_chunks(entries[id]));
    let g = |id: Seq<char>|
        entries[id].vectors@.take(embedded_chunks(entries[id]) * BI_HIDDEN as int);
    if order.len() == 0 {
        assert(order.map_values(f) =~= seq![]);
        assert(order.map_values(g) =~= seq![]);
    } else {
        let rest = order.drop_first();
        law_vectors_match_chunks(entries, rest);
        assert(order.map_values(f).drop_first() =~= rest.map_values(f));
        assert(order.map_values(g).drop_first() =~= rest.map_values(g));
        assert(order.flat_map(f) == f(order[0]) + rest.flat_map(f));
        assert(order.flat_map(g) == g(order[0]) + rest.flat_map(g));
    }
}

/// The vector at place `i` of the searchable vectors.
pub open spec fn vector_at<V>(vectors: Seq<V>, i: int) -> Seq<V> {
    vectors.subrange(i * BI_HIDDEN, (i + 1) * BI_HIDDEN)
}

/// Searching pairs every chunk with its own vector: what stands at place `i` of the
/// chunks and of the vectors is a chunk of some file of the order and the vector that
/// the file's entry holds for that chunk.
pub proof fn law_chunks_keep_their_vectors<V>(
    entries: Entries<V>,
    order: Seq<Seq<char>>,
    i: int,
) -> (at: (Seq<char>, int))
    requires
        0 <= i < searchable_chunks(entries, order).len(),
    ensures
        order.contains(at.0),
        0 <= at.1 < embedded_chunks(entries[at.0]),
        searchable_chunks(entries, order)[i] == entries[at.0].chunks@[at.1],
        vector_at(searchable_vectors(entries, order), i) == vector_at(
            entries[at.0].vectors@,
            at.1,
        ),
    decreases order.len(),
{
    let f = |id: Seq<char>| entries[id].chunks@.take(embedded_chunks(entries[id]));
    let g = |id: Seq<char>|
        entries[id].vectors@.take(embedded_chunks(entries[id]) * BI_HIDDEN as int);
    let rest = order.drop_first();
    assert(order.map_values(f).drop_first() =~= rest.map_values(f));
    assert(order.map_values(g).drop_first() =~= rest.map_values(g));
    assert(order.flat_map(f) == f(order[0]) + rest.flat_map(f));
    assert(order.flat_map(g) == g(order[0]) + rest.flat_map(g));
    let n = embedded_chunks(entries[order[0]]);
    law_vectors_match_chunks(entries, order);
    law_vectors_match_chunks(entries, rest);
    if i < n {
        assert(order.contains(order[0]));
        assert(vector_at(searchable_vectors(entries, order), i) =~= vector_at(
            entries[order[0]].vectors@,
            i,
        ));
        (order[0], i)
    } else {
        let at = law_chunks_keep_their_vectors(entries, rest, i - n);
        let k = choose|k: int| 0 <= k < rest.len() && rest[k] == at.0;
        assert(order[k + 1] == at.0);
        assert(vector_at(searchable_vectors(entries, order), i) =~= vector_at(
            searchable_vectors(entries, rest),
            i - n,
        ));
        at
    }
}

/// No chunk is left out of a search: every chunk that has a vector stands, with that
/// vector, at some place of what is searched.
pub proof fn law_every_embedded_chunk_is_searched<V>(
    entries: Entries<V>,
    order: Seq<Seq<char>>,
    id: Seq<char>,
    k: int,
) -> (i: int)
    requires
        order.contains(id),
        0 <= k < embedded_chunks(entries[id]),
    ensures
        0 <= i < searchable_chunks(entries, order).len(),
        searchable_chunks(entries, order)[i] == entries[id].chunks@[k],
        vector_at(searchable_vectors(entries, order), i) == vector_at(entries[id].vectors@, k),
    decreases order.len(),
{
    let f = |id: Seq<char>| entries[id].chunks@.take(embedded_chunks(entries[id]));
    let g = |id: Seq<char>|
        entries[id].vectors@.take(embedded_chunks(entries[id]) * BI_HIDDEN as int);
    let rest = order.drop_first();
    assert(order.map_values(f).drop_first() =~= rest.map_values(f));
    assert(order.map_values(g).drop_first() =~= rest.map_values(g));
    assert(order.flat_map(f) == f(order[0]) + rest.flat_map(f));
    assert(order.flat_map(g) == g(order[0]) + rest.flat_map(g));
    let n = embedded_chunks(entries[order[0]]);
    law_vectors_match_chunks(entries, order);
    law_vectors_match_chunks(entries, rest);
    if order[0] == id {
        assert(vector_at(searchable_vectors(entries, order), k) =~= vector_at(
            entries[id].vectors@,
            k,
        ));
        k
    } else {
        let at = choose|at: int| 0 <= at < order.len() && order[at] == id;
        assert(rest[at - 1] == id);
        let i = law_every_embedded_chunk_is_searched(entries, rest, id, k);
        assert(vector_at(searchable_vectors(entries, order), n + i) =~= vector_at(
            searchable_vectors(entries, rest),
            i,
        ));
        n + i
    }
}

/// A file that was just indexed needs no indexing until its content changes, and
/// indexing it changes nothing for the other files.
pub proof fn law_indexing_a_file_settles_it<V>(
    entries: Entries<V>,
    id: Seq<char>,
    entry: IndexEntry<V>,
    other: Seq<char>,
    hmac: Seq<u8>,
)
    ensures
        is_stale(entries.insert(id, entry), id, hmac) <==> hmac != entry.hmac@,
        other != id ==> is_stale(entries.insert(id, entry), other, hmac) == is_stale(
            entries,
            other,
            hmac,
        ),
{
}

/// Dropping the files that are gone leaves what is known of the others as it was.
pub proof fn law_retaining_keeps_current_files<V>(
    entries: Entries<V>,
    current: Set<Seq<char>>,
    id: Seq<char>,
    hmac: Seq<u8>,
)
    requires
        current.contains(id),
    ensures
        is_stale(entries.restrict(current), id, hmac) == is_stale(entries, id, hmac),
{
}

/// As many chunks of an entry are searched as have a whole vector of 1024 components: all,
/// or as many as the vectors are enough for.
pub proof fn law_chunks_with_a_whole_vector_are_searched<V>(e: IndexEntry<V>)
    ensures
        0 <= embedded_chunks(e) <= e.chunks@.len(),
        embedded_chunks(e) * 1024 <= e.vectors@.len(),
        embedded_chunks(e) < e.chunks@.len() ==> e.vectors@.len() < (embedded_chunks(e) + 1) * 1024,
{
}

proof fn lemma_flat_map_add<B>(
    a: Seq<Seq<char>>,
    b: Seq<Seq<char>>,
    f: spec_fn(Seq<char>) -> Seq<B>,
)
    ensures
        (a + b).flat_map(f) == a.flat_map(f) + b.flat_map(f),
    decreases a.len(),
{
    if a.len() == 0 {
        assert(a + b =~= b);
        assert(a.map_values(f) =~= seq![]);
        assert(a.flat_map(f) =~= seq![]);
        assert(a.flat_map(f) + b.flat_map(f) =~= b.flat_map(f));
    } else {
        let rest = a.drop_first();
        lemma_flat_map_add(rest, b, f);
        assert((a + b).map_values(f).drop_first() =~= (rest + b).map_values(f));
        assert(a.map_values(f).drop_first() =~= rest.map_values(f));
        assert((a + b).flat_map(f) == f(a[0]) + (rest + b).flat_map(f));
        assert(a.flat_map(f) == f(a[0]) + rest.flat_map(f));
        assert((a + b).flat_map(f) =~= a.flat_map(f) + b.flat_map(f));
    }
}

proof fn lemma_flat_map_one<B>(id: Seq<char>, f: spec_fn(Seq<char>) -> Seq<B>)
    ensures
        seq![id].flat_map(f) == f(id),
{
    let all = seq![id].map_values(f);
    assert(all.drop_first() =~= seq![]);
    assert(all.drop_first().flatten() =~= seq![]);
    assert(all.flatten() =~= f(id));
}

/// What is searched comes file by file: of one file its chunks that have a vector, in their
/// order, and those vectors; and of more files that of the first ones and behind it that of
/// the others.
pub proof fn law_searches_go_file_by_file<V>(
    entries: Entries<V>,
    a: Seq<Seq<char>>,
    b: Seq<Seq<char>>,
    id: Seq<char>,
)
    ensures
        searchable_chunks(entries, seq![id]) == entries[id].chunks@.take(
            embedded_chunks(entries[id]),
        ),
        searchable_vectors(entries, seq![id]) == entries[id].vectors@.take(
            embedded_chunks(entries[id]) * 1024,
        ),
        searchable_chunks(entries, a + b) == searchable_chunks(entries, a) + searchable_chunks(
            entries,
            b,
        ),
        searchable_vectors(entries, a + b) == searchable_vectors(entries, a) + searchable_vectors(
            entries,
            b,
        ),
        searchable_chunks(entries, Seq::<Seq<char>>::empty()).len() == 0,
        searchable_vectors(entries, Seq::<Seq<char>>::empty()).len() == 0,
{
    let f = |id: Seq<char>| entries[id].chunks@.take(embedded_chunks(entries[id]));
    let g = |id: Seq<char>|
        entries[id].vectors@.take(embedded_chunks(entries[id]) * BI_HIDDEN as int);
    lemma_flat_map_one(id, f);
    lemma_flat_map_one(id, g);
    lemma_flat_map_add(a, b, f);
    lemma_flat_map_add(a, b, g);
    let none = Seq::<Seq<char>>::empty();
    assert(none.map_values(f) =~= seq![]);
    assert(none.map_values(g) =~= seq![]);
}

/// The number of chunks in an index is that of its files together.
pub proof fn law_chunks_are_counted_file_by_file<V>(
    entries: Entries<V>,
    a: Seq<Seq<char>>,
    b: Seq<Seq<char>>,
    id: Seq<char>,
)
    ensures
        chunk_total(entries, Seq::<Seq<char>>::empty()) == 0,
        chunk_total(entries, seq![id]) == entries[id].chunks@.len(),
        chunk_total(entries, a + b) == chunk_total(entries, a) + chunk_total(entries, b),
    decreases b.len(),
{
    let none = Seq::<Seq<char>>::empty();
    assert(seq![id].drop_last() =~= none);
    assert(chunk_total(entries, none) == 0);
    assert(chunk_total(entries, seq![id]) == chunk_total(entries, none)
        + entries[id].chunks@.len());
    if b.len() == 0 {
        assert(a + b =~= a);
    } else {
        law_chunks_are_counted_file_by_file(entries, a, b.drop_last(), id);
        assert((a + b).drop_last() =~= a + b.drop_last());
    }
}

/// A file has to be indexed exactly where the index does not have it, or has it with
/// another content.
pub proof fn law_new_and_changed_files_are_stale<V>(
    entries: Entries<V>,
    id: Seq<char>,
    hmac: Seq<u8>,
)
    ensures
        !entries.dom().contains(id) ==> is_stale(entries, id, hmac),
        entries.dom().contains(id) ==> (is_stale(entries, id, hmac) <==> entries[id].hmac@ != hmac),
{
}

/// The order of an index lists the ids of its entries, and each of them once.
pub proof fn law_the_order_lists_each_file_once<V>(index: Index<V>)
    requires
        index.wf(),
    ensures
        index.order().no_duplicates(),
        index.order().to_set() == index@.dom(),
{
    assert(index.order().to_set() =~= index@.dom()) by {
        assert forall|id: Seq<char>| index.order().to_set().contains(id) <==> index@.dom().contains(
            id,
        ) by {
            assert(index@.contains_key(id) <==> index.order().contains(id));
        }
    }
}

} // verus!
