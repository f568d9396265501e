//! Per-root caches for the retrieval hot paths: the embedding pool and the
//! ids waiting to be re-embedded, the entity index, the tag / reason / hash
//! indexes over the vault's front matter, and the short-lived cache of
//! expanded search queries. Store mutations call `on_doc_changed` /
//! `on_doc_deleted` so that every cached view stays coherent.
//!
//! A cache value belongs to one wiki root; the process-wide registry of
//! roots lives with the caller. Time is passed in as milliseconds of a
//! monotonic clock.

use vstd::prelude::*;
use vstd::string::StringSliceAdditionalSpecFns;
use crate::keyed::{KeyedMap, TtlMap, fresh_part, is_fresh};
use crate::text::{bytes_le, has_prefix, lemma_bytes_le_total, lemma_bytes_le_trans, str_eq, str_le};

verus! {

/// How long an expanded query list is served, in milliseconds.
pub const EXPAND_TTL_MS: u64 = 300_000;

/// A document addressed by its type directory and id.
#[derive(Clone, Debug, PartialEq, Eq, Hash)]
pub struct DocRef {
    pub doc_type: String,
    pub id: String,
}

impl View for DocRef {
    type V = (Seq<char>, Seq<char>);

    open spec fn view(&self) -> (Seq<char>, Seq<char>) {
        (self.doc_type@, self.id@)
    }
}

impl DocRef {
    /// An equal copy.
    pub fn dup(&self) -> (r: DocRef)
        ensures
            r@ == self@,
    {
        DocRef { doc_type: self.doc_type.clone(), id: self.id.clone() }
    }

    /// Same type and id.
    pub fn same_as(&self, other: &DocRef) -> (r: bool)
        ensures
            r == (self@ == other@),
    {
        str_eq(self.doc_type.as_str(), other.doc_type.as_str()) && str_eq(
            self.id.as_str(),
            other.id.as_str(),
        )
    }
}

/// Reason edges touching a node: reasons leaving it and reasons arriving at
/// it, by reason id.
#[derive(Clone, Debug)]
pub struct ReasonAdjacency {
    /// Reason ids whose `from_id` is this node.
    pub from: Vec<String>,
    /// Reason ids whose `to_id` is this node.
    pub to: Vec<String>,
}

impl Default for ReasonAdjacency {
    fn default() -> (r: Self)
        ensures
            r.from@.len() == 0,
            r.to@.len() == 0,
    {
        ReasonAdjacency { from: Vec::new(), to: Vec::new() }
    }
}

/// What the indexes read from one document's front matter: its type
/// directory, id, tags, and (for reasons) the ends of the edge, empty when
/// absent.
#[derive(Clone, Debug)]
pub struct IndexRecord {
    pub doc_type: String,
    pub id: String,
    pub tags: Vec<String>,
    pub from_id: String,
    pub to_id: String,
}

pub ghost struct IndexRecordView {
    pub doc_type: Seq<char>,
    pub id: Seq<char>,
    pub tags: Seq<Seq<char>>,
    pub from_id: Seq<char>,
    pub to_id: Seq<char>,
}

pub open spec fn strings_view(v: Seq<String>) -> Seq<Seq<char>> {
    v.map_values(|s: String| s@)
}

impl View for IndexRecord {
    type V = IndexRecordView;

    open spec fn view(&self) -> IndexRecordView {
        IndexRecordView {
            doc_type: self.doc_type@,
            id: self.id@,
            tags: strings_view(self.tags@),
            from_id: self.from_id@,
            to_id: self.to_id@,
        }
    }
}

pub open spec fn records_view(v: Seq<IndexRecord>) -> Seq<IndexRecordView> {
    v.map_values(|r: IndexRecord| r@)
}

pub open spec fn refs_view(v: Seq<DocRef>) -> Seq<(Seq<char>, Seq<char>)> {
    v.map_values(|d: DocRef| d@)
}

/// How often `tag` occurs in `tags`.
pub open spec fn count_tag(tags: Seq<Seq<char>>, tag: Seq<char>) -> nat
    decreases tags.len(),
{
    if tags.len() == 0 {
        0
    } else {
        count_tag(tags.drop_last(), tag) + if tags.last() == tag {
            1nat
        } else {
            0nat
        }
    }
}

/// One reference to each document for each time it carries `tag`, in
/// record order.
pub open spec fn tag_hits(rs: Seq<IndexRecordView>, tag: Seq<char>) -> Seq<(Seq<char>, Seq<char>)>
    decreases rs.len(),
{
    if rs.len() == 0 {
        seq![]
    } else {
        let r = rs.last();
        tag_hits(rs.drop_last(), tag) + Seq::new(
            count_tag(r.tags, tag),
            |_i: int| (r.doc_type, r.id),
        )
    }
}

/// Sort key of a reference: the bytes of its id.
pub open spec fn id_key(d: (Seq<char>, Seq<char>)) -> Seq<u8> {
    vstd::utf8::encode_utf8(d.1)
}

/// `t` with `x` placed after every element whose id is not greater.
pub open spec fn insert_by_id(t: Seq<(Seq<char>, Seq<char>)>, x: (Seq<char>, Seq<char>)) -> Seq<
    (Seq<char>, Seq<char>),
>
    decreases t.len(),
{
    if t.len() == 0 {
        seq![x]
    } else if bytes_le(id_key(t.last()), id_key(x)) {
        t.push(x)
    } else {
        insert_by_id(t.drop_last(), x).push(t.last())
    }
}

/// Stable sort by id.
pub open spec fn sort_by_id(s: Seq<(Seq<char>, Seq<char>)>) -> Seq<(Seq<char>, Seq<char>)>
    decreases s.len(),
{
    if s.len() == 0 {
        s
    } else {
        insert_by_id(sort_by_id(s.drop_last()), s.last())
    }
}

/// `s` with each run of equal neighbours reduced to its first element.
pub open spec fn dedup_adjacent<A>(s: Seq<A>) -> Seq<A>
    decreases s.len(),
{
    if s.len() <= 1 {
        s
    } else if s.last() == s[s.len() - 2] {
        dedup_adjacent(s.drop_last())
    } else {
        dedup_adjacent(s.drop_last()).push(s.last())
    }
}

/// Documents carrying `tag`, ordered by id, without repeated neighbours.
pub open spec fn tag_lookup_spec(rs: Seq<IndexRecordView>, tag: Seq<char>) -> Seq<
    (Seq<char>, Seq<char>),
> {
    dedup_adjacent(sort_by_id(tag_hits(rs, tag)))
}

/// The prefix of question-hash tags.
pub open spec fn q_prefix() -> Seq<char> {
    seq!['q', '-']
}

/// Documents carrying the question-hash tag `tag`, in record order; only
/// tags starting with `q-` are indexed.
pub open spec fn hash_lookup_spec(rs: Seq<IndexRecordView>, tag: Seq<char>) -> Seq<
    (Seq<char>, Seq<char>),
> {
    if has_prefix(tag, q_prefix()) {
        tag_hits(rs, tag)
    } else {
        seq![]
    }
}

pub open spec fn reasons_word() -> Seq<char> {
    seq!['r', 'e', 'a', 's', 'o', 'n', 's']
}

pub open spec fn entities_word() -> Seq<char> {
    seq!['e', 'n', 't', 'i', 't', 'i', 'e', 's']
}

/// Ids of the reasons whose `from_id` (when `outgoing`) or `to_id` is
/// `node`, in record order; an empty end is never indexed.
pub open spec fn reason_ids(rs: Seq<IndexRecordView>, node: Seq<char>, outgoing: bool) -> Seq<
    Seq<char>,
>
    decreases rs.len(),
{
    if rs.len() == 0 {
        seq![]
    } else {
        let r = rs.last();
        let end = if outgoing {
            r.from_id
        } else {
            r.to_id
        };
        reason_ids(rs.drop_last(), node, outgoing) + if r.doc_type == reasons_word() && end
            == node && node.len() > 0 {
            seq![r.id]
        } else {
            seq![]
        }
    }
}

/// Text set of a list of ids.
pub open spec fn id_set(s: Seq<String>) -> Set<Seq<char>> {
    Set::new(|k: Seq<char>| exists|i: int| 0 <= i < s.len() && (#[trigger] s[i])@ == k)
}

pub open spec fn ids_distinct(s: Seq<String>) -> bool {
    forall|i: int, j: int| 0 <= i < j < s.len() ==> (#[trigger] s[i])@ != (#[trigger] s[j])@
}

/// Abstract state of a [`RootCache`].
pub ghost struct CacheView<P, E> {
    pub pool: Map<Seq<char>, P>,
    pub pool_seeded: bool,
    pub dirty: Set<Seq<char>>,
    pub entities: Option<Seq<E>>,
    pub index: Option<Seq<IndexRecordView>>,
    pub expand: Map<Seq<char>, (u64, Vec<String>)>,
}

/// The caches of one wiki root. `P` is an embedding-pool entry, `E` an
/// entry of the entity index.
pub struct RootCache<P, E> {
    pool: KeyedMap<P>,
    pool_seeded: bool,
    dirty_pool_ids: Vec<String>,
    entity_index: Option<Vec<E>>,
    index_records: Option<Vec<IndexRecord>>,
    expand: TtlMap<Vec<String>>,
}

impl<P, E> View for RootCache<P, E> {
    type V = CacheView<P, E>;

    closed spec fn view(&self) -> CacheView<P, E> {
        CacheView {
            pool: self.pool@,
            pool_seeded: self.pool_seeded,
            dirty: id_set(self.dirty_pool_ids@),
            entities: match self.entity_index {
                Some(v) => Some(v@),
                None => None,
            },
            index: match self.index_records {
                Some(v) => Some(records_view(v@)),
                None => None,
            },
            expand: self.expand@,
        }
    }
}

/// State after a document changed or was deleted: its pool entry dropped,
/// its id waiting for re-embedding, the entity index dropped for an entity,
/// and the front-matter indexes dropped.
pub open spec fn after_doc_event<P, E>(s: CacheView<P, E>, id: Seq<char>, doc_type: Seq<char>) -> CacheView<
    P,
    E,
> {
    CacheView {
        pool: s.pool.remove(id),
        dirty: s.dirty.insert(id),
        entities: if doc_type == entities_word() {
            None
        } else {
            s.entities
        },
        index: None,
        ..s
    }
}

proof fn lemma_id_set_push(s: Seq<String>, x: String)
    ensures
        id_set(s.push(x)) == id_set(s).insert(x@),
{
    let t = s.push(x);
    assert forall|k: Seq<char>| id_set(t).contains(k) <==> id_set(s).insert(x@).contains(k) by {
        if id_set(t).contains(k) {
            let i = choose|i: int| 0 <= i < t.len() && (#[trigger] t[i])@ == k;
            if i < s.len() {
                assert(s[i] == t[i]);
            }
        }
        if id_set(s).contains(k) {
            let i = choose|i: int| 0 <= i < s.len() && (#[trigger] s[i])@ == k;
            assert(t[i] == s[i]);
        }
        if k == x@ {
            assert(t[s.len() as int] == x);
        }
    }
    assert(id_set(t) =~= id_set(s).insert(x@));
}

impl<P, E> RootCache<P, E> {
    /// Internal consistency: the pool and query maps hold each key once, the
    /// dirty list holds each id once, queries expire after five minutes.
    pub closed spec fn wf(&self) -> bool {
        &&& self.pool.wf()
        &&& self.expand.wf()
        &&& self.expand.ttl() == EXPAND_TTL_MS
        &&& ids_distinct(self.dirty_pool_ids@)
    }

    /// An empty cache.
    pub fn new() -> (r: Self)
        ensures
            r.wf(),
            r@.pool == Map::<Seq<char>, P>::empty(),
            !r@.pool_seeded,
            r@.dirty == Set::<Seq<char>>::empty(),
            r@.entities is None,
            r@.index is None,
            r@.expand == Map::<Seq<char>, (u64, Vec<String>)>::empty(),
    {
        let r = RootCache {
            pool: KeyedMap::new(),
            pool_seeded: false,
            dirty_pool_ids: Vec::new(),
            entity_index: None,
            index_records: None,
            expand: TtlMap::new(EXPAND_TTL_MS),
        };
        assert(id_set(r.dirty_pool_ids@) =~= Set::<Seq<char>>::empty());
        r
    }

    // ── Embedding pool ──────────────────────────────────────────────────

    /// Whether the pool was filled from disk once.
    pub fn pool_seeded(&self) -> (r: bool)
        ensures
            r == self@.pool_seeded,
    {
        self.pool_seeded
    }

    pub fn mark_pool_seeded(&mut self)
        requires
            old(self).wf(),
        ensures
            final(self).wf(),
            final(self)@ == (CacheView { pool_seeded: true, ..old(self)@ }),
    {
        self.pool_seeded = true;
    }

    pub fn pool_get(&self, id: &str) -> (r: Option<&P>)
        requires
            self.wf(),
        ensures
            r is Some <==> self@.pool.dom().contains(id@),
            r matches Some(p) ==> *p == self@.pool[id@],
    {
        self.pool.get(id)
    }

    pub fn pool_insert(&mut self, id: String, entry: P)
        requires
            old(self).wf(),
        ensures
            final(self).wf(),
            final(self)@ == (CacheView { pool: old(self)@.pool.insert(id@, entry), ..old(self)@ }),
    {
        self.pool.insert(id, entry);
    }

    /// Number of stored pool entries.
    pub closed spec fn pool_size(&self) -> nat {
        self.pool.size()
    }

    /// Number of pool entries.
    pub fn pool_len(&self) -> (r: usize)
        ensures
            r == self.pool_size(),
    {
        self.pool.len()
    }

    /// The `i`-th pool entry.
    pub fn pool_entry_at(&self, i: usize) -> (r: (&String, &P))
        requires
            self.wf(),
            i < self.pool_size(),
        ensures
            self@.pool.dom().contains(r.0@),
            self@.pool[r.0@] == *r.1,
    {
        self.pool.entry_at(i)
    }

    /// Drops the pool entry of `id` and marks it for re-embedding.
    pub fn pool_remove(&mut self, id: &str)
        requires
            old(self).wf(),
        ensures
            final(self).wf(),
            final(self)@ == (CacheView {
                pool: old(self)@.pool.remove(id@),
                dirty: old(self)@.dirty.insert(id@),
                ..old(self)@
            }),
    {
        let _ = self.pool.remove(id);
        self.mark_pool_dirty(id);
    }

    /// Marks `id` as needing re-embedding on the next pool refresh.
    pub fn mark_pool_dirty(&mut self, id: &str)
        requires
            old(self).wf(),
        ensures
            final(self).wf(),
            final(self)@ == (CacheView { dirty: old(self)@.dirty.insert(id@), ..old(self)@ }),
    {
        let mut i: usize = 0;
        while i < self.dirty_pool_ids.len()
            invariant
                self.wf(),
                self@ == old(self)@,
                i <= self.dirty_pool_ids@.len(),
                forall|j: int| 0 <= j < i ==> (#[trigger] self.dirty_pool_ids@[j])@ != id@,
            decreases self.dirty_pool_ids@.len() - i,
        {
            if str_eq(self.dirty_pool_ids[i].as_str(), id) {
                proof {
                    assert(id_set(self.dirty_pool_ids@).contains(id@));
                    assert(id_set(self.dirty_pool_ids@).insert(id@) =~= id_set(
                        self.dirty_pool_ids@,
                    ));
                }
                return;
            }
            i = i + 1;
        }
        let ghost before = self.dirty_pool_ids@;
        let s = id.to_owned();
        self.dirty_pool_ids.push(s);
        proof {
            lemma_id_set_push(before, s);
            let t = self.dirty_pool_ids@;
            assert forall|a: int, b: int| 0 <= a < b < t.len() implies (#[trigger] t[a])@ != (
            #[trigger] t[b])@ by {
                assert(t[a] == before[a]);
                if b < before.len() {
                    assert(t[b] == before[b]);
                }
            }
        }
    }

    /// Hands out every id marked for re-embedding, each once, and empties
    /// the set.
    pub fn drain_dirty_pool(&mut self) -> (r: Vec<String>)
        requires
            old(self).wf(),
        ensures
            final(self).wf(),
            id_set(r@) == old(self)@.dirty,
            ids_distinct(r@),
            final(self)@ == (CacheView { dirty: Set::<Seq<char>>::empty(), ..old(self)@ }),
    {
        let mut out: Vec<String> = Vec::new();
        std::mem::swap(&mut out, &mut self.dirty_pool_ids);
        assert(id_set(self.dirty_pool_ids@) =~= Set::<Seq<char>>::empty());
        out
    }

    // ── Entity index ────────────────────────────────────────────────────

    pub fn entity_index_get(&self) -> (r: Option<&Vec<E>>)
        ensures
            r is Some <==> self@.entities is Some,
            r matches Some(v) ==> self@.entities == Some(v@),
    {
        match &self.entity_index {
            Some(v) => Some(v),
            None => None,
        }
    }

    pub fn entity_index_set(&mut self, v: Vec<E>)
        requires
            old(self).wf(),
        ensures
            final(self).wf(),
            final(self)@ == (CacheView { entities: Some(v@), ..old(self)@ }),
    {
        self.entity_index = Some(v);
    }

    pub fn invalidate_entities(&mut self)
        requires
            old(self).wf(),
        ensures
            final(self).wf(),
            final(self)@ == (CacheView { entities: None, ..old(self)@ }),
    {
        self.entity_index = None;
    }

    // ── Tag / reason / hash indexes ─────────────────────────────────────

    /// Whether the front-matter indexes are built.
    pub fn indexes_built(&self) -> (r: bool)
        ensures
            r == self@.index is Some,
    {
        self.index_records.is_some()
    }

    /// Builds the indexes from the documents' front matter, read in
    /// type-directory order.
    pub fn set_index_records(&mut self, records: Vec<IndexRecord>)
        requires
            old(self).wf(),
        ensures
            final(self).wf(),
            final(self)@ == (CacheView { index: Some(records_view(records@)), ..old(self)@ }),
    {
        self.index_records = Some(records);
    }

    /// Documents tagged `tag`, by id, each adjacent duplicate once; `None`
    /// while the indexes are not built.
    pub fn tag_index_lookup(&self, tag: &str) -> (r: Option<Vec<DocRef>>)
        ensures
            r is Some <==> self@.index is Some,
            r matches Some(v) ==> refs_view(v@) == tag_lookup_spec(self@.index->0, tag@),
    {
        match &self.index_records {
            None => None,
            Some(rs) => {
                let hits = collect_tag_hits(rs, tag);
                let sorted = sort_refs_by_id(&hits);
                Some(dedup_refs(&sorted))
            },
        }
    }

    /// Reason edges leaving and entering `node_id`; `None` while the indexes
    /// are not built.
    pub fn reason_index_lookup(&self, node_id: &str) -> (r: Option<ReasonAdjacency>)
        ensures
            r is Some <==> self@.index is Some,
            r matches Some(a) ==> strings_view(a.from@) == reason_ids(self@.index->0, node_id@, true)
                && strings_view(a.to@) == reason_ids(self@.index->0, node_id@, false),
    {
        match &self.index_records {
            None => None,
            Some(rs) => {
                let from = collect_reason_ids(rs, node_id, true);
                let to = collect_reason_ids(rs, node_id, false);
                Some(ReasonAdjacency { from, to })
            },
        }
    }

    /// Documents carrying the question-hash tag `hash_tag`; `None` while the
    /// indexes are not built.
    pub fn hash_index_lookup(&self, hash_tag: &str) -> (r: Option<Vec<DocRef>>)
        ensures
            r is Some <==> self@.index is Some,
            r matches Some(v) ==> refs_view(v@) == hash_lookup_spec(self@.index->0, hash_tag@),
    {
        match &self.index_records {
            None => None,
            Some(rs) => {
                let cs = crate::text::chars_of(hash_tag);
                let q: [char; 2] = ['q', '-'];
                assert(q@ == q_prefix());
                if crate::text::starts_with_chars(cs.as_slice(), &q) {
                    Some(collect_tag_hits(rs, hash_tag))
                } else {
                    Some(Vec::new())
                }
            },
        }
    }

    pub fn invalidate_indexes(&mut self)
        requires
            old(self).wf(),
        ensures
            final(self).wf(),
            final(self)@ == (CacheView { index: None, ..old(self)@ }),
    {
        self.index_records = None;
    }

    // ── Expanded queries ────────────────────────────────────────────────

    /// Queries expanded from `prompt`, if stored less than five minutes
    /// before `now`.
    pub fn expand_get(&self, prompt: &str, now: u64) -> (r: Option<Vec<String>>)
        requires
            self.wf(),
        ensures
            r is Some <==> (self@.expand.dom().contains(prompt@) && is_fresh(
                self@.expand[prompt@].0,
                now,
                EXPAND_TTL_MS,
            )),
            r matches Some(v) ==> v@ == self@.expand[prompt@].1@,
    {
        match self.expand.get(prompt, now) {
            Some(v) => Some(copy_strings(v)),
            None => None,
        }
    }

    /// Stores `queries` for `prompt` at `now`, dropping expired entries.
    pub fn expand_set(&mut self, prompt: &str, queries: Vec<String>, now: u64)
        requires
            old(self).wf(),
        ensures
            final(self).wf(),
            final(self)@ == (CacheView {
                expand: fresh_part(old(self)@.expand, now, EXPAND_TTL_MS).insert(
                    prompt@,
                    (now, queries),
                ),
                ..old(self)@
            }),
    {
        self.expand.set(prompt.to_owned(), queries, now);
    }

    // ── Store events ────────────────────────────────────────────────────

    fn on_doc_event(&mut self, id: &str, doc_type: &str)
        requires
            old(self).wf(),
        ensures
            final(self).wf(),
            final(self)@ == after_doc_event(old(self)@, id@, doc_type@),
    {
        self.pool_remove(id);
        self.mark_pool_dirty(id);
        proof {
            reveal_strlit("entities");
            assert("entities"@ == entities_word());
        }
        if str_eq(doc_type, "entities") {
            self.invalidate_entities();
        }
        self.invalidate_indexes();
        proof {
            assert(old(self)@.dirty.insert(id@).insert(id@) =~= old(self)@.dirty.insert(id@));
        }
    }

    /// A document was created or updated.
    pub fn on_doc_changed(&mut self, id: &str, doc_type: &str)
        requires
            old(self).wf(),
        ensures
            final(self).wf(),
            final(self)@ == after_doc_event(old(self)@, id@, doc_type@),
    {
        self.on_doc_event(id, doc_type);
    }

    /// A document was deleted.
    pub fn on_doc_deleted(&mut self, id: &str, doc_type: &str)
        requires
            old(self).wf(),
        ensures
            final(self).wf(),
            final(self)@ == after_doc_event(old(self)@, id@, doc_type@),
    {
        self.on_doc_event(id, doc_type);
    }
}

/// Equal copies of `v`.
fn copy_strings(v: &Vec<String>) -> (r: Vec<String>)
    ensures
        r@ == v@,
{
    let mut out: Vec<String> = Vec::new();
    let mut i: usize = 0;
    while i < v.len()
        invariant
            i <= v@.len(),
            out@ =~= v@.subrange(0, i as int),
        decreases v@.len() - i,
    {
        out.push(v[i].clone());
        i = i + 1;
    }
    out
}

/// References of the documents carrying `tag`, once per occurrence.
fn collect_tag_hits(rs: &Vec<IndexRecord>, tag: &str) -> (r: Vec<DocRef>)
    ensures
        refs_view(r@) == tag_hits(records_view(rs@), tag@),
{
    let ghost rv = records_view(rs@);
    let mut out: Vec<DocRef> = Vec::new();
    let mut i: usize = 0;
    while i < rs.len()
        invariant
            i <= rs@.len(),
            rv == records_view(rs@),
            refs_view(out@) == tag_hits(rv.subrange(0, i as int), tag@),
        decreases rs@.len() - i,
    {
        let r = &rs[i];
        let ghost tv = strings_view(r.tags@);
        let ghost base = refs_view(out@);
        let mut j: usize = 0;
        while j < r.tags.len()
            invariant
                j <= r.tags@.len(),
                tv == strings_view(r.tags@),
                refs_view(out@) == base + Seq::new(
                    count_tag(tv.subrange(0, j as int), tag@),
                    |_k: int| (r.doc_type@, r.id@),
                ),
            decreases r.tags@.len() - j,
        {
            let ghost before = refs_view(out@);
            let ghost c = count_tag(tv.subrange(0, j as int), tag@);
            assert(tv.subrange(0, j + 1).drop_last() =~= tv.subrange(0, j as int));
            if str_eq(r.tags[j].as_str(), tag) {
                out.push(DocRef { doc_type: r.doc_type.clone(), id: r.id.clone() });
                proof {
                    assert(refs_view(out@) =~= before.push((r.doc_type@, r.id@)));
                    assert(base + Seq::new(c + 1, |_k: int| (r.doc_type@, r.id@)) =~= (base
                        + Seq::new(c, |_k: int| (r.doc_type@, r.id@))).push((r.doc_type@, r.id@)));
                }
            }
            j = j + 1;
        }
        proof {
            assert(tv.subrange(0, r.tags@.len() as int) =~= tv);
            let s = rv.subrange(0, i + 1);
            assert(s.drop_last() =~= rv.subrange(0, i as int));
            assert(s.last() == rs@[i as int]@);
        }
        i = i + 1;
    }
    assert(rv.subrange(0, rs@.len() as int) =~= rv);
    out
}

/// Ids of the reasons leaving (`outgoing`) or entering `node`.
fn collect_reason_ids(rs: &Vec<IndexRecord>, node: &str, outgoing: bool) -> (r: Vec<String>)
    ensures
        strings_view(r@) == reason_ids(records_view(rs@), node@, outgoing),
{
    let ghost rv = records_view(rs@);
    proof {
        reveal_strlit("reasons");
        assert("reasons"@ == reasons_word());
    }
    let mut out: Vec<String> = Vec::new();
    let mut i: usize = 0;
    while i < rs.len()
        invariant
            i <= rs@.len(),
            rv == records_view(rs@),
            "reasons"@ == reasons_word(),
            strings_view(out@) == reason_ids(rv.subrange(0, i as int), node@, outgoing),
        decreases rs@.len() - i,
    {
        let r = &rs[i];
        let end = if outgoing {
            r.from_id.as_str()
        } else {
            r.to_id.as_str()
        };
        let ghost before = strings_view(out@);
        proof {
            let s = rv.subrange(0, i + 1);
            assert(s.drop_last() =~= rv.subrange(0, i as int));
            assert(s.last() == rs@[i as int]@);
        }
        let is_reason = str_eq(r.doc_type.as_str(), "reasons");
        let same = str_eq(end, node);
        let nonempty = !node.is_empty();
        if is_reason && same && nonempty {
            out.push(r.id.clone());
            assert(strings_view(out@) =~= before.push(rs@[i as int].id@));
        } else {
            assert(strings_view(out@) =~= before + Seq::<Seq<char>>::empty());
        }
        i = i + 1;
    }
    assert(rv.subrange(0, rs@.len() as int) =~= rv);
    out
}

proof fn lemma_insert_by_id(t: Seq<(Seq<char>, Seq<char>)>, x: (Seq<char>, Seq<char>), pos: int)
    requires
        0 <= pos <= t.len(),
        forall|k: int| pos <= k < t.len() ==> !bytes_le(id_key(#[trigger] t[k]), id_key(x)),
        pos == 0 || bytes_le(id_key(t[pos - 1]), id_key(x)),
    ensures
        insert_by_id(t, x) == t.insert(pos, x),
    decreases t.len(),
{
    if t.len() == 0 {
        assert(t.insert(pos, x) =~= seq![x]);
    } else if pos == t.len() {
        assert(t.insert(pos, x) =~= t.push(x));
    } else {
        assert(!bytes_le(id_key(t[t.len() - 1]), id_key(x)));
        let d = t.drop_last();
        assert forall|k: int| pos <= k < d.len() implies !bytes_le(id_key(#[trigger] d[k]), id_key(x)) by {
            assert(d[k] == t[k]);
        }
        if pos > 0 {
            assert(d[pos - 1] == t[pos - 1]);
        }
        lemma_insert_by_id(d, x, pos);
        assert(t.insert(pos, x) =~= d.insert(pos, x).push(t.last()));
    }
}

/// Stable sort of references by id.
fn sort_refs_by_id(v: &Vec<DocRef>) -> (r: Vec<DocRef>)
    ensures
        refs_view(r@) == sort_by_id(refs_view(v@)),
{
    let ghost sv = refs_view(v@);
    let mut out: Vec<DocRef> = Vec::new();
    let mut i: usize = 0;
    assert(sv.subrange(0, 0) =~= Seq::<(Seq<char>, Seq<char>)>::empty());
    while i < v.len()
        invariant
            i <= v@.len(),
            sv == refs_view(v@),
            refs_view(out@) == sort_by_id(sv.subrange(0, i as int)),
        decreases v@.len() - i,
    {
        let x = v[i].dup();
        let ghost t = refs_view(out@);
        let mut pos: usize = out.len();
        while pos > 0 && !str_le(out[pos - 1].id.as_str(), x.id.as_str())
            invariant
                pos <= out@.len(),
                t == refs_view(out@),
                forall|k: int| pos <= k < t.len() ==> !bytes_le(id_key(#[trigger] t[k]), id_key(x@)),
            decreases pos,
        {
            pos = pos - 1;
        }
        proof {
            if pos > 0 {
                assert(t[pos - 1] == out@[pos - 1]@);
            }
            lemma_insert_by_id(t, x@, pos as int);
            let s = sv.subrange(0, i + 1);
            assert(s.drop_last() =~= sv.subrange(0, i as int));
            assert(s.last() == v@[i as int]@);
        }
        out.insert(pos, x);
        assert(refs_view(out@) =~= t.insert(pos as int, x@));
        i = i + 1;
    }
    assert(sv.subrange(0, v@.len() as int) =~= sv);
    out
}

proof fn lemma_dedup_last<A>(s: Seq<A>)
    requires
        s.len() > 0,
    ensures
        dedup_adjacent(s).len() > 0,
        dedup_adjacent(s).last() == s.last(),
    decreases s.len(),
{
    if s.len() > 1 {
        lemma_dedup_last(s.drop_last());
    }
}

/// Removes adjacent repeats.
fn dedup_refs(v: &Vec<DocRef>) -> (r: Vec<DocRef>)
    ensures
        refs_view(r@) == dedup_adjacent(refs_view(v@)),
{
    let ghost sv = refs_view(v@);
    let mut out: Vec<DocRef> = Vec::new();
    let mut i: usize = 0;
    while i < v.len()
        invariant
            i <= v@.len(),
            sv == refs_view(v@),
            refs_view(out@) == dedup_adjacent(sv.subrange(0, i as int)),
            i > 0 ==> out@.len() > 0 && out@.last()@ == sv[i - 1],
        decreases v@.len() - i,
    {
        let ghost before = refs_view(out@);
        let ghost s = sv.subrange(0, i + 1);
        proof {
            assert(s.drop_last() =~= sv.subrange(0, i as int));
            if i > 0 {
                assert(s[s.len() - 2] == sv[i - 1]);
                lemma_dedup_last(sv.subrange(0, i as int));
            }
        }
        if out.len() == 0 || !out[out.len() - 1].same_as(&v[i]) {
            out.push(v[i].dup());
            assert(refs_view(out@) =~= before.push(sv[i as int]));
        }
        i = i + 1;
    }
    assert(sv.subrange(0, v@.len() as int) =~= sv);
    out
}

// ── Laws ────────────────────────────────────────────────────────────────

/// A marked id is handed out by the next drain, and a drain leaves nothing
/// for the one after it.
pub proof fn law_mark_then_drain<P, E>(s: CacheView<P, E>, id: Seq<char>)
    ensures
        (CacheView { dirty: s.dirty.insert(id), ..s }).dirty.contains(id),
        (CacheView { dirty: Set::<Seq<char>>::empty(), ..s }).dirty == Set::<Seq<char>>::empty(),
{
}

/// After a document event the id waits for re-embedding, its pool entry is
/// gone, and the indexes are stale until rebuilt; other pool entries and
/// waiting ids stay.
pub proof fn law_doc_event<P, E>(s: CacheView<P, E>, id: Seq<char>, doc_type: Seq<char>, other: Seq<char>)
    requires
        other != id,
    ensures
        after_doc_event(s, id, doc_type).dirty.contains(id),
        !after_doc_event(s, id, doc_type).pool.dom().contains(id),
        after_doc_event(s, id, doc_type).index is None,
        doc_type == entities_word() ==> after_doc_event(s, id, doc_type).entities is None,
        doc_type != entities_word() ==> after_doc_event(s, id, doc_type).entities == s.entities,
        after_doc_event(s, id, doc_type).pool.dom().contains(other) == s.pool.dom().contains(other),
        s.dirty.contains(other) ==> after_doc_event(s, id, doc_type).dirty.contains(other),
{
}

/// Queries stored for a prompt are served until five minutes have passed
/// and not after.
pub proof fn law_expand_ttl(m: Map<Seq<char>, (u64, Vec<String>)>, prompt: Seq<char>, q: Vec<String>, now: u64, later: u64)
    requires
        now <= later,
    ensures
        ({
            let m2 = fresh_part(m, now, EXPAND_TTL_MS).insert(prompt, (now, q));
            &&& m2.dom().contains(prompt)
            &&& m2[prompt].1 == q
            &&& is_fresh(m2[prompt].0, later, EXPAND_TTL_MS) <==> later - now < EXPAND_TTL_MS
        }),
{
}

/// Id order on references.
pub open spec fn sorted_by_id(s: Seq<(Seq<char>, Seq<char>)>) -> bool {
    forall|i: int, j: int| 0 <= i < j < s.len() ==> bytes_le(id_key(#[trigger] s[i]), id_key(#[trigger] s[j]))
}

proof fn lemma_insert_by_id_elems(t: Seq<(Seq<char>, Seq<char>)>, x: (Seq<char>, Seq<char>))
    ensures
        insert_by_id(t, x).len() == t.len() + 1,
        insert_by_id(t, x).contains(x),
        forall|k: int| 0 <= k < t.len() ==> insert_by_id(t, x).contains(#[trigger] t[k]),
        forall|k: int| 0 <= k < insert_by_id(t, x).len() ==> (#[trigger] insert_by_id(t, x)[k] == x
            || t.contains(insert_by_id(t, x)[k])),
    decreases t.len(),
{
    let r = insert_by_id(t, x);
    if t.len() == 0 {
        assert(r[0] == x);
    } else if bytes_le(id_key(t.last()), id_key(x)) {
        assert(r[t.len() as int] == x);
        assert forall|k: int| 0 <= k < t.len() implies r.contains(#[trigger] t[k]) by {
            assert(r[k] == t[k]);
        }
        assert forall|k: int| 0 <= k < r.len() implies (#[trigger] r[k] == x || t.contains(r[k])) by {
            if k < t.len() {
                assert(r[k] == t[k]);
            }
        }
    } else {
        let d = t.drop_last();
        let u = insert_by_id(d, x);
        lemma_insert_by_id_elems(d, x);
        assert(r == u.push(t.last()));
        let w = choose|w: int| 0 <= w < u.len() && u[w] == x;
        assert(r[w] == x);
        assert forall|k: int| 0 <= k < t.len() implies r.contains(#[trigger] t[k]) by {
            if k == t.len() - 1 {
                assert(r[u.len() as int] == t[k]);
            } else {
                assert(d[k] == t[k]);
                let w2 = choose|w2: int| 0 <= w2 < u.len() && u[w2] == d[k];
                assert(r[w2] == t[k]);
            }
        }
        assert forall|k: int| 0 <= k < r.len() implies (#[trigger] r[k] == x || t.contains(r[k])) by {
            if k == u.len() {
                assert(r[k] == t[t.len() - 1]);
            } else {
                assert(r[k] == u[k]);
                if u[k] != x {
                    let w3 = choose|w3: int| 0 <= w3 < d.len() && d[w3] == u[k];
                    assert(t[w3] == d[w3]);
                }
            }
        }
    }
}

proof fn lemma_insert_by_id_sorted(t: Seq<(Seq<char>, Seq<char>)>, x: (Seq<char>, Seq<char>))
    requires
        sorted_by_id(t),
    ensures
        sorted_by_id(insert_by_id(t, x)),
    decreases t.len(),
{
    let r = insert_by_id(t, x);
    if t.len() == 0 {
    } else if bytes_le(id_key(t.last()), id_key(x)) {
        assert forall|i: int, j: int| 0 <= i < j < r.len() implies bytes_le(id_key(#[trigger] r[i]), id_key(#[trigger] r[j])) by {
            if j == t.len() {
                if i < t.len() - 1 {
                    lemma_bytes_le_trans(id_key(t[i]), id_key(t.last()), id_key(x));
                }
            }
        }
    } else {
        let d = t.drop_last();
        let u = insert_by_id(d, x);
        assert(sorted_by_id(d)) by {
            assert forall|i: int, j: int| 0 <= i < j < d.len() implies bytes_le(id_key(#[trigger] d[i]), id_key(#[trigger] d[j])) by {
                assert(d[i] == t[i] && d[j] == t[j]);
            }
        }
        lemma_insert_by_id_sorted(d, x);
        lemma_insert_by_id_elems(d, x);
        lemma_bytes_le_total(id_key(t.last()), id_key(x));
        assert forall|i: int, j: int| 0 <= i < j < r.len() implies bytes_le(id_key(#[trigger] r[i]), id_key(#[trigger] r[j])) by {
            if j == u.len() {
                assert(r[i] == u[i]);
                assert(r[j] == t.last());
                if u[i] != x {
                    let w = choose|w: int| 0 <= w < d.len() && d[w] == u[i];
                    assert(t[w] == d[w]);
                }
            } else {
                assert(r[i] == u[i] && r[j] == u[j]);
            }
        }
    }
}

proof fn lemma_sort_by_id(s: Seq<(Seq<char>, Seq<char>)>)
    ensures
        sorted_by_id(sort_by_id(s)),
        sort_by_id(s).len() == s.len(),
        forall|k: int| 0 <= k < s.len() ==> sort_by_id(s).contains(#[trigger] s[k]),
        forall|k: int| 0 <= k < sort_by_id(s).len() ==> s.contains(#[trigger] sort_by_id(s)[k]),
    decreases s.len(),
{
    if s.len() > 0 {
        let d = s.drop_last();
        let t = sort_by_id(d);
        lemma_sort_by_id(d);
        lemma_insert_by_id_sorted(t, s.last());
        lemma_insert_by_id_elems(t, s.last());
        let r = sort_by_id(s);
        assert forall|k: int| 0 <= k < s.len() implies r.contains(#[trigger] s[k]) by {
            if k < s.len() - 1 {
                assert(d[k] == s[k]);
                let w = choose|w: int| 0 <= w < t.len() && t[w] == d[k];
                assert(t.contains(t[w]));
            }
        }
        assert forall|k: int| 0 <= k < r.len() implies s.contains(#[trigger] r[k]) by {
            if r[k] == s.last() {
                assert(s[s.len() - 1] == r[k]);
            } else {
                let w = choose|w: int| 0 <= w < t.len() && t[w] == r[k];
                let w2 = choose|w2: int| 0 <= w2 < d.len() && d[w2] == t[w];
                assert(s[w2] == d[w2]);
            }
        }
    }
}

proof fn lemma_dedup_elems<A>(s: Seq<A>)
    ensures
        forall|k: int| 0 <= k < dedup_adjacent(s).len() ==> s.contains(#[trigger] dedup_adjacent(s)[k]),
        forall|k: int| 0 <= k < s.len() ==> dedup_adjacent(s).contains(#[trigger] s[k]),
        dedup_adjacent(s).len() <= s.len(),
    decreases s.len(),
{
    if s.len() > 1 {
        let d = s.drop_last();
        let t = dedup_adjacent(d);
        lemma_dedup_elems(d);
        let r = dedup_adjacent(s);
        assert forall|k: int| 0 <= k < r.len() implies s.contains(#[trigger] r[k]) by {
            if k < t.len() {
                assert(r[k] == t[k]);
                let w = choose|w: int| 0 <= w < d.len() && d[w] == t[k];
                assert(s[w] == d[w]);
            } else {
                assert(r[k] == s.last());
                assert(s[s.len() - 1] == s.last());
            }
        }
        assert forall|k: int| 0 <= k < s.len() implies r.contains(#[trigger] s[k]) by {
            if k < s.len() - 1 {
                assert(d[k] == s[k]);
                let w = choose|w: int| 0 <= w < t.len() && t[w] == d[k];
                if s.last() == s[s.len() - 2] {
                    assert(r[w] == t[w]);
                } else {
                    assert(r[w] == t[w]);
                }
            } else {
                if s.last() == s[s.len() - 2] {
                    assert(d[s.len() - 2] == s[s.len() - 2]);
                    let w = choose|w: int| 0 <= w < t.len() && t[w] == d[s.len() - 2];
                    assert(r[w] == t[w]);
                } else {
                    assert(r[t.len() as int] == s.last());
                }
            }
        }
    }
}

proof fn lemma_dedup_sorted(s: Seq<(Seq<char>, Seq<char>)>)
    requires
        sorted_by_id(s),
    ensures
        sorted_by_id(dedup_adjacent(s)),
    decreases s.len(),
{
    if s.len() > 1 {
        let d = s.drop_last();
        assert(sorted_by_id(d)) by {
            assert forall|i: int, j: int| 0 <= i < j < d.len() implies bytes_le(id_key(#[trigger] d[i]), id_key(#[trigger] d[j])) by {
                assert(d[i] == s[i] && d[j] == s[j]);
            }
        }
        lemma_dedup_sorted(d);
        lemma_dedup_elems(d);
        let t = dedup_adjacent(d);
        let r = dedup_adjacent(s);
        if s.last() != s[s.len() - 2] {
            assert forall|i: int, j: int| 0 <= i < j < r.len() implies bytes_le(id_key(#[trigger] r[i]), id_key(#[trigger] r[j])) by {
                if j == t.len() {
                    assert(r[i] == t[i]);
                    let w = choose|w: int| 0 <= w < d.len() && d[w] == t[i];
                    assert(s[w] == d[w]);
                    assert(r[j] == s[s.len() - 1]);
                } else {
                    assert(r[i] == t[i] && r[j] == t[j]);
                }
            }
        }
    }
}

proof fn lemma_dedup_no_repeats<A>(s: Seq<A>)
    ensures
        forall|i: int| 0 <= i < dedup_adjacent(s).len() - 1 ==> #[trigger] dedup_adjacent(s)[i]
            != dedup_adjacent(s)[i + 1],
    decreases s.len(),
{
    if s.len() > 1 {
        let d = s.drop_last();
        lemma_dedup_no_repeats(d);
        lemma_dedup_last(d);
        let t = dedup_adjacent(d);
        let r = dedup_adjacent(s);
        if s.last() != s[s.len() - 2] {
            assert forall|i: int| 0 <= i < r.len() - 1 implies #[trigger] r[i] != r[i + 1] by {
                if i == t.len() - 1 {
                    assert(r[i] == t.last());
                    assert(d.last() == s[s.len() - 2]);
                } else {
                    assert(r[i] == t[i] && r[i + 1] == t[i + 1]);
                }
            }
        }
    }
}

/// The documents listed for a tag come in id order, with no entry repeated
/// next to itself.
pub proof fn law_tag_lookup_ordered(rs: Seq<IndexRecordView>, tag: Seq<char>)
    ensures
        sorted_by_id(tag_lookup_spec(rs, tag)),
        forall|i: int| 0 <= i < tag_lookup_spec(rs, tag).len() - 1 ==> #[trigger] tag_lookup_spec(rs, tag)[i]
            != tag_lookup_spec(rs, tag)[i + 1],
{
    lemma_sort_by_id(tag_hits(rs, tag));
    lemma_dedup_sorted(sort_by_id(tag_hits(rs, tag)));
    lemma_dedup_no_repeats(sort_by_id(tag_hits(rs, tag)));
}

proof fn lemma_count_tag_pos(tags: Seq<Seq<char>>, tag: Seq<char>, k: int)
    requires
        0 <= k < tags.len(),
        tags[k] == tag,
    ensures
        count_tag(tags, tag) > 0,
    decreases tags.len(),
{
    if k < tags.len() - 1 {
        assert(tags.drop_last()[k] == tags[k]);
        lemma_count_tag_pos(tags.drop_last(), tag, k);
    }
}

proof fn lemma_tag_hits_has(rs: Seq<IndexRecordView>, tag: Seq<char>, k: int)
    requires
        0 <= k < rs.len(),
        rs[k].tags.contains(tag),
    ensures
        tag_hits(rs, tag).contains((rs[k].doc_type, rs[k].id)),
    decreases rs.len(),
{
    let h = tag_hits(rs, tag);
    if k < rs.len() - 1 {
        let d = rs.drop_last();
        assert(d[k] == rs[k]);
        lemma_tag_hits_has(d, tag, k);
        let p = tag_hits(d, tag);
        let w = choose|w: int| 0 <= w < p.len() && p[w] == (rs[k].doc_type, rs[k].id);
        assert(h[w] == p[w]);
    } else {
        let r = rs.last();
        let w = choose|w: int| 0 <= w < r.tags.len() && r.tags[w] == tag;
        lemma_count_tag_pos(r.tags, tag, w);
        let p = tag_hits(rs.drop_last(), tag);
        assert(h[p.len() as int] == (r.doc_type, r.id));
    }
}

/// Every document carrying a tag is listed for it.
pub proof fn law_tagged_doc_listed(rs: Seq<IndexRecordView>, tag: Seq<char>, k: int)
    requires
        0 <= k < rs.len(),
        rs[k].tags.contains(tag),
    ensures
        tag_lookup_spec(rs, tag).contains((rs[k].doc_type, rs[k].id)),
{
    lemma_tag_hits_has(rs, tag, k);
    let h = tag_hits(rs, tag);
    lemma_sort_by_id(h);
    lemma_dedup_elems(sort_by_id(h));
    let w = choose|w: int| 0 <= w < h.len() && h[w] == (rs[k].doc_type, rs[k].id);
    let w2 = choose|w2: int| 0 <= w2 < sort_by_id(h).len() && sort_by_id(h)[w2] == h[w];
    assert(dedup_adjacent(sort_by_id(h)).contains(sort_by_id(h)[w2]));
}

/// Every reason is listed at both of its (non-empty) ends.
pub proof fn law_reason_listed(rs: Seq<IndexRecordView>, k: int)
    requires
        0 <= k < rs.len(),
        rs[k].doc_type == reasons_word(),
    ensures
        rs[k].from_id.len() > 0 ==> reason_ids(rs, rs[k].from_id, true).contains(rs[k].id),
        rs[k].to_id.len() > 0 ==> reason_ids(rs, rs[k].to_id, false).contains(rs[k].id),
    decreases rs.len(),
{
    let d = rs.drop_last();
    if k < rs.len() - 1 {
        assert(d[k] == rs[k]);
        law_reason_listed(d, k);
        if rs[k].from_id.len() > 0 {
            let p = reason_ids(d, rs[k].from_id, true);
            let w = choose|w: int| 0 <= w < p.len() && p[w] == rs[k].id;
            assert(reason_ids(rs, rs[k].from_id, true)[w] == p[w]);
        }
        if rs[k].to_id.len() > 0 {
            let p = reason_ids(d, rs[k].to_id, false);
            let w = choose|w: int| 0 <= w < p.len() && p[w] == rs[k].id;
            assert(reason_ids(rs, rs[k].to_id, false)[w] == p[w]);
        }
    } else {
        if rs[k].from_id.len() > 0 {
            let p = reason_ids(d, rs[k].from_id, true);
            assert(reason_ids(rs, rs[k].from_id, true)[p.len() as int] == rs[k].id);
        }
        if rs[k].to_id.len() > 0 {
            let p = reason_ids(d, rs[k].to_id, false);
            assert(reason_ids(rs, rs[k].to_id, false)[p.len() as int] == rs[k].id);
        }
    }
}

} // verus!
