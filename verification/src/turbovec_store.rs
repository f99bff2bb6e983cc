//! The in-memory store: a quantized index with the texts of its documents.

use crate::blob::InMemoryBackend;
use crate::document::{EmbeddedDoc, ScoredDoc, ScoredView, SearchSource};
use crate::error::TurboError;
use crate::json::{
    distinct_fields, gives_texts, holds_texts, json_members, json_number, lists_members,
    optional_text, read_members, read_number, write_object,
};
use crate::payload::{bytes_of, to_buffer, to_vec};
use crate::quantized::{
    all_coordinates, answer_len, askable, codes_may_find, hit_ids, hit_scores, index_image,
    law_batch_adds_all, law_batch_only_adds, law_single_query, may_find, may_repeat, pairs_of,
    per_row, rows_descend, rows_distinct, valid_shape, vectors_after, QuantizedIndex,
};
use crate::request::{SearchRequest, SearchType};
use crate::scalar::Scalar;
use crate::text::{
    join3, decimal, law_decimal_injective, law_parse_printed, parse_unsigned, parsed_unsigned,
    print_unsigned,
};
use bytes::Bytes;
use std::collections::HashMap;
use vstd::prelude::*;
use vstd::std_specs::iter::IteratorSpec;

verus! {

broadcast use vstd::std_specs::hash::group_hash_axioms;

/// An in-memory store of quantized vectors and the texts that belong to them.
pub struct TurboVecStore {
    index: QuantizedIndex,
    texts: HashMap<u64, String>,
    table_name: String,
    warm: bool,
    count: usize,
    dim: usize,
    bits: usize,
}

/// The texts of a map.
pub open spec fn text_map(texts: Map<u64, String>) -> Map<u64, Seq<char>> {
    texts.map_values(|t: String| t@)
}

/// The pairs of identifier and vector of documents.
pub open spec fn doc_pairs(docs: Seq<EmbeddedDoc>) -> Seq<(u64, Seq<Scalar>)> {
    Seq::new(docs.len(), |i: int| (docs[i].id, docs[i].embedding@))
}

/// The texts known after documents came in: of each identifier the last.
pub open spec fn texts_after(
    texts: Map<u64, Seq<char>>,
    docs: Seq<EmbeddedDoc>,
) -> Map<u64, Seq<char>>
    decreases docs.len(),
{
    if docs.len() == 0 {
        texts
    } else {
        texts_after(texts, docs.drop_last()).insert(docs.last().id, docs.last().text@)
    }
}

/// What a hit says as a result: the text is the one known for the identifier, or
/// empty where none is.
pub open spec fn hit_view(texts: Map<u64, Seq<char>>, hit: (u64, Scalar)) -> ScoredView {
    ScoredView {
        id: hit.0,
        text: if texts.contains_key(hit.0) {
            texts[hit.0]
        } else {
            Seq::empty()
        },
        score: hit.1,
        source: SearchSource::TurboVec,
        metadata: Map::empty(),
    }
}

/// The scores of results.
pub open spec fn scores_of(docs: Seq<ScoredDoc>) -> Seq<Scalar> {
    Seq::new(docs.len(), |i: int| docs[i].score)
}

/// The identifiers of results.
pub open spec fn ids_of(docs: Seq<ScoredDoc>) -> Seq<u64> {
    Seq::new(docs.len(), |i: int| docs[i].id)
}

/// Whether `after` is what `before` becomes when documents come in: nothing changes
/// where there are none; otherwise the index has their vectors, as far as it admits
/// them, and their texts are known.
pub open spec fn took_in(
    before: TurboVecStore,
    docs: Seq<EmbeddedDoc>,
    after: TurboVecStore,
) -> bool {
    &&& docs.len() == 0 ==> after == before
    &&& docs.len() > 0 ==> {
        &&& after.vectors() == vectors_after(
            before.vectors(),
            before.coordinates().unwrap(),
            doc_pairs(docs),
        )
        &&& after.known_texts() == texts_after(before.known_texts(), docs)
        &&& after.total() == before.total().wrapping_add(docs.len() as usize)
        &&& after.ready()
    }
    &&& after.coordinates() == before.coordinates()
    &&& after.width() == before.width()
    &&& after.same_table(before)
}

/// The key under which the index of a table is stored.
pub open spec fn index_key_of(table: Seq<char>) -> Seq<char> {
    "turbovec/"@ + table + "/index.tq"@
}

/// The key under which the counts and texts of a table are stored.
pub open spec fn meta_key_of(table: Seq<char>) -> Seq<char> {
    "turbovec/"@ + table + "/meta.json"@
}

/// No two blobs of tables have the same key: neither the two of one table nor
/// any of different tables.
pub proof fn law_keys_distinct(a: Seq<char>, b: Seq<char>)
    ensures
        index_key_of(a) != meta_key_of(b),
        index_key_of(a) == index_key_of(b) ==> a == b,
        meta_key_of(a) == meta_key_of(b) ==> a == b,
{
    let head = "turbovec/"@;
    let index = "/index.tq"@;
    let meta = "/meta.json"@;
    reveal_strlit("/index.tq");
    reveal_strlit("/meta.json");
    assert(index.last() == 'q' && meta.last() == 'n');
    assert(index_key_of(a).last() == 'q');
    assert(meta_key_of(b).last() == 'n');
    let n = head.len() as int;
    assert(index_key_of(a).subrange(n, index_key_of(a).len() - index.len()) =~= a);
    assert(index_key_of(b).subrange(n, index_key_of(b).len() - index.len()) =~= b);
    assert(meta_key_of(a).subrange(n, meta_key_of(a).len() - meta.len()) =~= a);
    assert(meta_key_of(b).subrange(n, meta_key_of(b).len() - meta.len()) =~= b);
}

impl TurboVecStore {
    /// The vectors that the index was given and still holds, by identifier.
    pub closed spec fn vectors(self) -> Map<u64, Seq<Scalar>> {
        self.index.vectors()
    }

    /// The identifiers that the index holds a vector for.
    pub open spec fn ids(self) -> Set<u64> {
        self.vectors().dom()
    }

    /// What the index keeps of its vectors and answers from, as bytes.
    pub closed spec fn codes(self) -> Seq<u8> {
        self.index.codes()
    }

    /// The bits that the index keeps per coordinate.
    pub closed spec fn width(self) -> usize {
        self.index.width()
    }

    /// The number of coordinates of the index, where that is settled.
    pub closed spec fn coordinates(self) -> Option<usize> {
        self.index.coordinates()
    }

    /// The texts that are known, by identifier.
    pub closed spec fn known_texts(self) -> Map<u64, Seq<char>> {
        text_map(self.texts@)
    }

    /// The name of the table.
    pub closed spec fn table(self) -> Seq<char> {
        self.table_name@
    }

    /// Whether the store is ready to answer.
    pub closed spec fn ready(self) -> bool {
        self.warm
    }

    /// The number of documents counted.
    pub closed spec fn total(self) -> usize {
        self.count
    }

    /// The dimension and the bits per coordinate that the store was made with.
    pub closed spec fn shape(self) -> (usize, usize) {
        (self.dim, self.bits)
    }

    /// Whether these are the blobs that the store is kept as.
    pub open spec fn is_kept_as(self, stored: StoredIndex) -> bool {
        &&& stored.index_key@ == index_key_of(self.table())
        &&& stored.meta_key@ == meta_key_of(self.table())
        &&& is_stored(self, bytes_of(stored.index), bytes_of(stored.meta))
    }

    /// Whether two stores have the same table and shape.
    pub open spec fn same_table(self, other: Self) -> bool {
        self.table() == other.table() && self.shape() == other.shape()
    }

    /// Whether `r` is what a store with these codes and texts may answer: an error
    /// to searches by text, and otherwise documents of the index with the texts that
    /// are known, best first.
    pub open spec fn may_give(
        self,
        request: &SearchRequest<'_>,
        r: Result<Vec<ScoredDoc>, TurboError>,
    ) -> bool {
        match r {
            Ok(docs) => {
                &&& request.search_type == SearchType::Vector
                &&& docs@.len() == answer_len(
                    self.ids(),
                    self.coordinates(),
                    request.query_embedding@,
                    request.k as int,
                )
                &&& forall|i: int|
                    0 <= i < docs@.len() ==> self.ids().contains((#[trigger] docs@[i]).id)
                        && docs@[i]@ == hit_view(self.known_texts(), (docs@[i].id, docs@[i].score))
                &&& rows_descend(scores_of(docs@), per_row(self.ids(), request.k as int))
                &&& rows_distinct(
                    scores_of(docs@),
                    ids_of(docs@),
                    per_row(self.ids(), request.k as int),
                    may_repeat(self.ids(), self.width()),
                )
                &&& codes_may_find(
                    self.codes(),
                    self.coordinates(),
                    self.width(),
                    request.query_embedding@,
                    request.k as nat,
                    scores_of(docs@),
                    ids_of(docs@),
                )
            },
            Err(e) => {
                &&& request.search_type != SearchType::Vector
                &&& e is UnsupportedSearchType
                &&& e.detail() == "TurboVecStore only supports SearchType::Vector"@
            },
        }
    }

    /// Whether `r` is what the store answers: what its codes and texts give, and
    /// what an index over the vectors that it was given may find.
    pub open spec fn answers(
        self,
        request: &SearchRequest<'_>,
        r: Result<Vec<ScoredDoc>, TurboError>,
    ) -> bool {
        &&& self.may_give(request, r)
        &&& r matches Ok(docs) ==> may_find(
            self.vectors(),
            self.width(),
            request.query_embedding@,
            request.k as nat,
            scores_of(docs@),
            ids_of(docs@),
        )
    }

    /// An empty store that is not yet ready.
    pub fn new_in_memory(table_name: &str, dim: usize, bits: usize) -> (store: Self)
        requires
            valid_shape(dim as int, bits as int),
        ensures
            store.vectors() == Map::<u64, Seq<Scalar>>::empty(),
            store.coordinates() == Some(dim),
            store.width() == bits,
            store.known_texts() == Map::<u64, Seq<char>>::empty(),
            store.table() == table_name@,
            !store.ready(),
            store.total() == 0,
            store.shape() == (dim, bits),
    {
        let store = TurboVecStore {
            index: QuantizedIndex::new(dim, bits),
            texts: HashMap::new(),
            table_name: table_name.to_string(),
            warm: false,
            count: 0,
            dim,
            bits,
        };
        proof {
            assert(store.known_texts() =~= Map::<u64, Seq<char>>::empty());
        }
        store
    }

    /// The key under which the index is stored.
    pub fn index_key(&self) -> (key: String)
        ensures
            key@ == index_key_of(self.table()),
    {
        join3("turbovec/", self.table_name.as_str(), "/index.tq")
    }

    /// The key under which counts and texts are stored.
    pub fn meta_key(&self) -> (key: String)
        ensures
            key@ == meta_key_of(self.table()),
    {
        join3("turbovec/", self.table_name.as_str(), "/meta.json")
    }

    /// Whether the store is ready to answer: once documents came in or an index
    /// was loaded.
    pub fn is_warm(&self) -> (warm: bool)
        ensures
            warm == self.ready(),
    {
        self.warm
    }

    /// The number of documents counted.
    pub fn doc_count(&self) -> (r: Result<usize, TurboError>)
        ensures
            r == Ok::<usize, TurboError>(self.total()),
    {
        Ok(self.count)
    }

    /// The number of coordinates of the index, where that is settled: a loaded
    /// index may have none.
    pub fn settled(&self) -> (dim: Option<usize>)
        ensures
            dim == self.coordinates(),
    {
        self.index.settled()
    }

    /// Whether the store can be asked about a query vector.
    pub fn can_search(&self, query: &[Scalar]) -> (r: bool)
        ensures
            r == askable(self.coordinates(), query@),
    {
        self.index.can_search(query)
    }

    /// Takes documents in: their vectors as far as the index admits them, their
    /// texts in any case. The store is ready from then on.
    pub fn upsert(&mut self, docs: &[EmbeddedDoc]) -> (r: Result<(), TurboError>)
        requires
            docs@.len() > 0 ==> old(self).coordinates() is Some,
        ensures
            r is Ok,
            took_in(*old(self), docs@, *final(self)),
    {
        if docs.len() == 0 {
            return Ok(());
        }
        let mut ids: Vec<u64> = Vec::new();
        let mut vectors: Vec<Vec<Scalar>> = Vec::new();
        let mut i: usize = 0;
        while i < docs.len()
            invariant
                i <= docs@.len(),
                ids@.len() == i,
                vectors@.len() == i,
                forall|j: int| 0 <= j < i ==> ids@[j] == (#[trigger] docs@[j]).id,
                forall|j: int| 0 <= j < i ==> (#[trigger] vectors@[j])@ == docs@[j].embedding@,
            decreases docs@.len() - i,
        {
            ids.push(docs[i].id);
            let vector = docs[i].embedding.clone();
            proof {
                assert(vector@ =~= docs@[i as int].embedding@);
            }
            vectors.push(vector);
            i = i + 1;
        }
        proof {
            assert(pairs_of(ids@, vectors@) =~= doc_pairs(docs@));
        }
        self.index.add_batch(ids.as_slice(), vectors.as_slice());
        let mut i: usize = 0;
        proof {
            assert(docs@.take(0) =~= Seq::<EmbeddedDoc>::empty());
        }
        while i < docs.len()
            invariant
                i <= docs@.len(),
                self.index.vectors() == vectors_after(
                    old(self).vectors(),
                    old(self).coordinates().unwrap(),
                    doc_pairs(docs@),
                ),
                self.index.coordinates() == old(self).index.coordinates(),
                self.index.width() == old(self).index.width(),
                self.known_texts() == texts_after(old(self).known_texts(), docs@.take(i as int)),
                self.count == old(self).count,
                self.table_name == old(self).table_name,
                self.dim == old(self).dim,
                self.bits == old(self).bits,
            decreases docs@.len() - i,
        {
            let ghost before = self.texts@;
            let text = docs[i].text.clone();
            self.texts.insert(docs[i].id, text);
            proof {
                let now = docs@.take(i + 1);
                assert(now.drop_last() =~= docs@.take(i as int));
                assert(now.last() == docs@[i as int]);
                assert(text_map(self.texts@) =~= text_map(before).insert(
                    docs@[i as int].id,
                    docs@[i as int].text@,
                ));
            }
            i = i + 1;
        }
        proof {
            assert(docs@.take(docs@.len() as int) =~= docs@);
        }
        self.count = self.count.wrapping_add(docs.len());
        self.warm = true;
        Ok(())
    }

    /// Hits as results, with the texts that are known.
    pub fn enrich(&self, hits: Vec<(u64, Scalar)>) -> (docs: Vec<ScoredDoc>)
        ensures
            docs@.len() == hits@.len(),
            forall|i: int|
                0 <= i < docs@.len() ==> (#[trigger] docs@[i])@ == hit_view(
                    self.known_texts(),
                    hits@[i],
                ),
    {
        let mut docs: Vec<ScoredDoc> = Vec::new();
        let mut i: usize = 0;
        while i < hits.len()
            invariant
                i <= hits@.len(),
                docs@.len() == i,
                forall|j: int|
                    0 <= j < i ==> (#[trigger] docs@[j])@ == hit_view(
                        self.known_texts(),
                        hits@[j],
                    ),
            decreases hits@.len() - i,
        {
            let (id, score) = hits[i];
            let text = match self.texts.get(&id) {
                Some(text) => text.clone(),
                None => String::new(),
            };
            proof {
                assert(self.known_texts().contains_key(id) == self.texts@.contains_key(id));
                if self.texts@.contains_key(id) {
                    assert(text@ == self.known_texts()[id]);
                } else {
                    assert(text@ =~= Seq::<char>::empty());
                }
            }
            docs.push(
                ScoredDoc {
                    id,
                    text,
                    score,
                    source: SearchSource::TurboVec,
                    metadata: HashMap::new(),
                },
            );
            i = i + 1;
        }
        docs
    }

    /// The documents nearest to the query vector. Searches by text are not for
    /// this store.
    pub fn search(&self, request: &SearchRequest<'_>) -> (r: Result<Vec<ScoredDoc>, TurboError>)
        requires
            request.search_type == SearchType::Vector ==> askable(
                self.coordinates(),
                request.query_embedding@,
            ),
        ensures
            self.answers(request, r),
    {
        match request.search_type {
            SearchType::Vector => {
                let hits = self.index.search(request.query_embedding, request.k);
                let ghost found = hits@;
                let docs = self.enrich(hits);
                proof {
                    assert forall|i: int| 0 <= i < docs@.len() implies (#[trigger] docs@[i]).id
                        == found[i].0 && docs@[i].score == found[i].1 by {
                        assert(docs@[i]@ == hit_view(self.known_texts(), found[i]));
                    }
                    assert(scores_of(docs@) =~= hit_scores(found));
                    assert(ids_of(docs@) =~= hit_ids(found));
                }
                Ok(docs)
            },
            _ => Err(
                TurboError::UnsupportedSearchType(
                    "TurboVecStore only supports SearchType::Vector".to_string(),
                ),
            ),
        }
    }

    /// Forgets a document. The count goes down by one, though not below zero.
    pub fn delete(&mut self, id: u64) -> (r: Result<(), TurboError>)
        ensures
            r is Ok,
            final(self).vectors() == old(self).vectors().remove(id),
            final(self).known_texts() == old(self).known_texts().remove(id),
            final(self).total() == (if old(self).total() == 0 {
                0
            } else {
                (old(self).total() - 1) as usize
            }),
            final(self).ready() == old(self).ready(),
            final(self).coordinates() == old(self).coordinates(),
            final(self).width() == old(self).width(),
            final(self).same_table(*old(self)),
    {
        self.index.remove(id);
        self.texts.remove(&id);
        if self.count > 0 {
            self.count = self.count - 1;
        }
        proof {
            assert(self.known_texts() =~= old(self).known_texts().remove(id));
        }
        Ok(())
    }
}

/// A store as it is kept in blob storage: two blobs under their keys.
pub struct StoredIndex {
    pub index_key: String,
    pub index: Bytes,
    pub meta_key: String,
    pub meta: Bytes,
}

/// Whether JSON members are these texts under their printed identifiers.
pub open spec fn members_are_texts(
    members: Map<Seq<char>, Option<Seq<char>>>,
    texts: Map<u64, Seq<char>>,
) -> bool {
    &&& forall|id: u64| #[trigger]
        texts.contains_key(id) ==> members.contains_key(decimal(id as nat)) && members[decimal(
            id as nat,
        )] == Some(texts[id])
    &&& forall|key: Seq<char>| #[trigger]
        members.contains_key(key) ==> exists|id: u64| #[trigger]
            texts.contains_key(id) && decimal(id as nat) == key
}

/// The identifier and text that a JSON member stands for, if it stands for one.
pub open spec fn member_text(
    members: Map<Seq<char>, Option<Seq<char>>>,
    key: Seq<char>,
    id: u64,
    text: Seq<char>,
) -> bool {
    members.contains_key(key) && parsed_unsigned(key, u64::MAX as nat) == Some(id as nat)
        && members[key] == Some(text)
}

/// Whether some JSON member stands for this text of this identifier.
pub open spec fn member_gives(
    members: Map<Seq<char>, Option<Seq<char>>>,
    id: u64,
    text: Seq<char>,
) -> bool {
    exists|key: Seq<char>| #[trigger] member_text(members, key, id, text)
}

/// Whether some JSON member stands for a text of this identifier.
pub open spec fn member_of_id(members: Map<Seq<char>, Option<Seq<char>>>, id: u64) -> bool {
    exists|key: Seq<char>, text: Seq<char>| #[trigger] member_text(members, key, id, text)
}

/// The texts known after JSON members were read: each text under the identifier
/// that its key is, and the earlier texts of all other identifiers. Where two keys
/// are the same identifier, either text may stay.
pub open spec fn texts_read(
    before: Map<u64, Seq<char>>,
    members: Map<Seq<char>, Option<Seq<char>>>,
    after: Map<u64, Seq<char>>,
) -> bool {
    &&& forall|id: u64| #[trigger]
        after.contains_key(id) <==> before.contains_key(id) || member_of_id(members, id)
    &&& forall|id: u64|
        member_of_id(members, id) ==> member_gives(members, id, #[trigger] after[id])
    &&& forall|id: u64|
        before.contains_key(id) && !member_of_id(members, id) ==> #[trigger] after[id]
            == before[id]
}

/// Whether these bytes are what a store is kept as.
pub open spec fn is_stored(store: TurboVecStore, index: Seq<u8>, meta: Seq<u8>) -> bool {
    &&& index_image(index) == Some(
        (store.ids(), store.coordinates(), store.width(), store.codes()),
    )
    &&& json_number(meta, "count"@) == Some(store.total() as u64)
    &&& json_number(meta, "dim"@) == Some(store.shape().0 as u64)
    &&& json_number(meta, "bits"@) == Some(store.shape().1 as u64)
    &&& json_members(meta, "texts"@) matches Some(members) && members_are_texts(
        members,
        store.known_texts(),
    )
}

/// Whether a pair is a known text under its printed identifier.
spec fn printed_from(known: Map<u64, Seq<char>>, pair: (String, String)) -> bool {
    exists|id: u64| #[trigger]
        known.contains_key(id) && pair.0@ == decimal(id as nat) && pair.1@ == known[id]
}

proof fn lemma_members(
    known: Map<u64, Seq<char>>,
    texts: Seq<(String, String)>,
    members: Map<Seq<char>, Option<Seq<char>>>,
)
    requires
        holds_texts(members, texts),
        forall|i: int| 0 <= i < texts.len() ==> printed_from(known, #[trigger] texts[i]),
        forall|id: u64| #[trigger]
            known.contains_key(id) ==> exists|i: int|
                0 <= i < texts.len() && (#[trigger] texts[i]).0@ == decimal(id as nat),
    ensures
        members_are_texts(members, known),
{
    assert forall|id: u64| #[trigger] known.contains_key(id) implies members.contains_key(
        decimal(id as nat),
    ) && members[decimal(id as nat)] == Some(known[id]) by {
        let i = choose|i: int|
            0 <= i < texts.len() && (#[trigger] texts[i]).0@ == decimal(id as nat);
        let other = choose|other: u64| #[trigger]
            known.contains_key(other) && texts[i].0@ == decimal(other as nat) && texts[i].1@
                == known[other];
        law_decimal_injective(id as nat, other as nat);
    }
    assert forall|key: Seq<char>| #[trigger] members.contains_key(key) implies exists|id: u64|
        #[trigger] known.contains_key(id) && decimal(id as nat) == key by {
        let i = choose|i: int| 0 <= i < texts.len() && (#[trigger] texts[i]).0@ == key;
        let id = choose|id: u64| #[trigger]
            known.contains_key(id) && texts[i].0@ == decimal(id as nat) && texts[i].1@ == known[id];
        assert(known.contains_key(id));
    }
}

impl TurboVecStore {
    /// The blobs that the store is kept as: the index, and its count, shape and
    /// texts.
    pub fn flush(&self) -> (r: Result<StoredIndex, TurboError>)
        ensures
            r matches Ok(stored) && self.is_kept_as(stored),
    {
        let index = match self.index.to_bytes() {
            Ok(index) => index,
            Err(e) => {
                return Err(TurboError::Store(e.message()));
            },
        };
        let mut numbers: Vec<(String, u64)> = Vec::new();
        numbers.push(("count".to_string(), self.count as u64));
        numbers.push(("dim".to_string(), self.dim as u64));
        numbers.push(("bits".to_string(), self.bits as u64));
        proof {
            reveal_strlit("count");
            reveal_strlit("dim");
            reveal_strlit("bits");
            reveal_strlit("texts");
            assert("count"@.len() == 5 && "dim"@.len() == 3 && "bits"@.len() == 4 && "texts"@.len()
                == 5);
            assert("count"@[0] == 'c' && "texts"@[0] == 't');
            assert(numbers@[0].0@ == "count"@);
            assert(numbers@[1].0@ == "dim"@);
            assert(numbers@[2].0@ == "bits"@);
        }
        let texts = self.printed_texts();
        let json = write_object(numbers, "texts", texts);
        proof {
            let bytes = vstd::utf8::encode_utf8(json@);
            assert(json_number(bytes, numbers@[0].0@) == Some(numbers@[0].1));
            assert(json_number(bytes, numbers@[1].0@) == Some(numbers@[1].1));
            assert(json_number(bytes, numbers@[2].0@) == Some(numbers@[2].1));
            assert(gives_texts(bytes, "texts"@, texts@));
            let members = json_members(bytes, "texts"@).unwrap();
            lemma_members(self.known_texts(), texts@, members);
        }
        let meta = to_buffer(json.as_str().as_bytes_vec());
        Ok(StoredIndex { index_key: self.index_key(), index, meta_key: self.meta_key(), meta })
    }

    /// The texts under their printed identifiers.
    fn printed_texts(&self) -> (texts: Vec<(String, String)>)
        ensures
            distinct_fields(texts@),
            forall|i: int|
                0 <= i < texts@.len() ==> printed_from(self.known_texts(), #[trigger] texts@[i]),
            forall|id: u64| #[trigger]
                self.known_texts().contains_key(id) ==> exists|i: int|
                    0 <= i < texts@.len() && (#[trigger] texts@[i]).0@ == decimal(id as nat),
    {
        let mut texts: Vec<(String, String)> = Vec::new();
        let ghost pairs = vstd::std_specs::hash::spec_hash_map_iter(&self.texts).remaining();
        for (id, text) in it: self.texts.iter()
            invariant
                it.seq() == pairs,
                pairs.no_duplicates(),
                pairs == vstd::std_specs::hash::spec_hash_map_iter(&self.texts).remaining(),
                texts@.len() == it.index(),
                forall|j: int|
                    0 <= j < it.index() ==> (#[trigger] texts@[j]).0@ == decimal(
                        *pairs[j].0 as nat,
                    ) && texts@[j].1@ == pairs[j].1@,
        {
            texts.push((print_unsigned(*id), text.clone()));
        }
        proof {
            assert forall|i: int, j: int| 0 <= i < j < texts@.len() implies (
            #[trigger] texts@[i]).0@ != (#[trigger] texts@[j]).0@ by {
                if texts@[i].0@ == texts@[j].0@ {
                    law_decimal_injective(*pairs[i].0 as nat, *pairs[j].0 as nat);
                    assert(self.texts@[*pairs[i].0] == *pairs[i].1);
                    assert(self.texts@[*pairs[j].0] == *pairs[j].1);
                    assert(pairs[i] == pairs[j]);
                }
            }
            assert forall|i: int| 0 <= i < texts@.len() implies printed_from(
                self.known_texts(),
                #[trigger] texts@[i],
            ) by {
                let id = *pairs[i].0;
                assert(self.texts@.contains_key(*pairs[i].0));
                assert(self.texts@[*pairs[i].0] == *pairs[i].1);
                assert(self.known_texts().contains_key(id));
            }
            assert forall|id: u64| #[trigger] self.known_texts().contains_key(id) implies exists|
                i: int,
            |
                0 <= i < texts@.len() && (#[trigger] texts@[i]).0@ == decimal(id as nat) by {
                assert(self.texts@.contains_key(id));
                assert(pairs.contains((&id, &self.texts@[id])));
                let i = choose|i: int| 0 <= i < pairs.len() && pairs[i] == (&id, &self.texts@[id]);
                assert(texts@[i].0@ == decimal(id as nat));
            }
        }
        texts
    }
}

/// Whether some of the first `n` listed members stands for a text of `id`.
spec fn listed_before(
    list: Seq<(String, Option<String>)>,
    n: int,
    id: u64,
) -> bool {
    exists|i: int|
        0 <= i < n && parsed_unsigned((#[trigger] list[i]).0@, u64::MAX as nat) == Some(id as nat)
            && list[i].1 is Some
}

/// Whether `text` is the text of a listed member for `id` among the first `n`.
spec fn listed_text(
    list: Seq<(String, Option<String>)>,
    n: int,
    id: u64,
    text: Seq<char>,
) -> bool {
    exists|i: int|
        0 <= i < n && parsed_unsigned((#[trigger] list[i]).0@, u64::MAX as nat) == Some(id as nat)
            && optional_text(list[i].1) == Some(text)
}

proof fn lemma_listed(
    list: Seq<(String, Option<String>)>,
    members: Map<Seq<char>, Option<Seq<char>>>,
    before: Map<u64, Seq<char>>,
    after: Map<u64, Seq<char>>,
)
    requires
        lists_members(list, members),
        forall|id: u64| #[trigger]
            after.contains_key(id) <==> before.contains_key(id) || listed_before(
                list,
                list.len() as int,
                id,
            ),
        forall|id: u64|
            listed_before(list, list.len() as int, id) ==> listed_text(
                list,
                list.len() as int,
                id,
                #[trigger] after[id],
            ),
        forall|id: u64|
            before.contains_key(id) && !listed_before(list, list.len() as int, id)
                ==> #[trigger] after[id] == before[id],
    ensures
        texts_read(before, members, after),
{
    let n = list.len() as int;
    assert forall|id: u64| listed_before(list, n, id) == #[trigger] member_of_id(members, id) by {
        if listed_before(list, n, id) {
            let i = choose|i: int|
                0 <= i < n && parsed_unsigned((#[trigger] list[i]).0@, u64::MAX as nat) == Some(
                    id as nat,
                ) && list[i].1 is Some;
            assert(member_text(members, list[i].0@, id, list[i].1.unwrap()@));
        }
        if member_of_id(members, id) {
            let (key, text) = choose|key: Seq<char>, text: Seq<char>| #[trigger]
                member_text(members, key, id, text);
            let i = choose|i: int| 0 <= i < list.len() && (#[trigger] list[i]).0@ == key;
            assert(optional_text(list[i].1) == Some(text));
        }
    }
    assert forall|id: u64| member_of_id(members, id) implies member_gives(
        members,
        id,
        #[trigger] after[id],
    ) by {
        assert(listed_before(list, n, id));
        assert(listed_text(list, n, id, after[id]));
        let i = choose|i: int|
            0 <= i < n && parsed_unsigned((#[trigger] list[i]).0@, u64::MAX as nat) == Some(
                id as nat,
            ) && optional_text(list[i].1) == Some(after[id]);
        assert(member_text(members, list[i].0@, id, after[id]));
    }
}

impl TurboVecStore {
    /// Reads the stored texts into the map.
    fn read_texts(&mut self, list: Vec<(String, Option<String>)>)
        ensures
            forall|id: u64| #[trigger]
                final(self).known_texts().contains_key(id) <==> old(
                    self,
                ).known_texts().contains_key(id) || listed_before(list@, list@.len() as int, id),
            forall|id: u64|
                listed_before(list@, list@.len() as int, id) ==> listed_text(
                    list@,
                    list@.len() as int,
                    id,
                    #[trigger] final(self).known_texts()[id],
                ),
            forall|id: u64|
                old(self).known_texts().contains_key(id) && !listed_before(
                    list@,
                    list@.len() as int,
                    id,
                ) ==> #[trigger] final(self).known_texts()[id] == old(self).known_texts()[id],
            final(self).index == old(self).index,
            final(self).table_name == old(self).table_name,
            final(self).warm == old(self).warm,
            final(self).count == old(self).count,
            final(self).dim == old(self).dim,
            final(self).bits == old(self).bits,
    {
        let ghost known = self.known_texts();
        let mut i: usize = 0;
        while i < list.len()
            invariant
                i <= list@.len(),
                known == old(self).known_texts(),
                forall|id: u64| #[trigger]
                    self.known_texts().contains_key(id) <==> known.contains_key(id)
                        || listed_before(list@, i as int, id),
                forall|id: u64|
                    listed_before(list@, i as int, id) ==> listed_text(
                        list@,
                        i as int,
                        id,
                        #[trigger] self.known_texts()[id],
                    ),
                forall|id: u64|
                    known.contains_key(id) && !listed_before(list@, i as int, id)
                        ==> #[trigger] self.known_texts()[id] == known[id],
                self.index == old(self).index,
                self.table_name == old(self).table_name,
                self.warm == old(self).warm,
                self.count == old(self).count,
                self.dim == old(self).dim,
                self.bits == old(self).bits,
            decreases list@.len() - i,
        {
            let ghost before = self.texts@;
            let ghost texts_before = self.known_texts();
            let parsed = parse_unsigned(list[i].0.as_str(), u64::MAX);
            let ghost mut entry: Option<u64> = None;
            match (parsed, &list[i].1) {
                (Some(id), Some(text)) => {
                    self.texts.insert(id, text.clone());
                    proof {
                        entry = Some(id);
                        assert(text_map(self.texts@) =~= text_map(before).insert(id, text@));
                    }
                },
                _ => {},
            }
            proof {
                let n = i as int;
                assert forall|id: u64| listed_before(list@, n + 1, id) == (listed_before(
                    list@,
                    n,
                    id,
                ) || entry == Some(id)) by {
                    if listed_before(list@, n, id) {
                        let j = choose|j: int|
                            0 <= j < n && parsed_unsigned(
                                (#[trigger] list@[j]).0@,
                                u64::MAX as nat,
                            ) == Some(id as nat) && list@[j].1 is Some;
                        assert(list@[j].1 is Some);
                    }
                    if listed_before(list@, n + 1, id) {
                        let j = choose|j: int|
                            0 <= j < n + 1 && parsed_unsigned(
                                (#[trigger] list@[j]).0@,
                                u64::MAX as nat,
                            ) == Some(id as nat) && list@[j].1 is Some;
                        if j == n {
                            assert(entry == Some(id));
                        }
                    }
                    if entry == Some(id) {
                        assert(parsed_unsigned(list@[n].0@, u64::MAX as nat) == Some(id as nat));
                    }
                }
                assert forall|id: u64| listed_before(list@, n + 1, id) implies listed_text(
                    list@,
                    n + 1,
                    id,
                    #[trigger] self.known_texts()[id],
                ) by {
                    if entry == Some(id) {
                        assert(optional_text(list@[n].1) == Some(self.known_texts()[id]));
                    } else {
                        assert(self.known_texts()[id] == texts_before[id]);
                        assert(listed_text(list@, n, id, texts_before[id]));
                        let j = choose|j: int|
                            0 <= j < n && parsed_unsigned(
                                (#[trigger] list@[j]).0@,
                                u64::MAX as nat,
                            ) == Some(id as nat) && optional_text(list@[j].1) == Some(
                                texts_before[id],
                            );
                        assert(optional_text(list@[j].1) == Some(self.known_texts()[id]));
                    }
                }
            }
            i = i + 1;
        }
    }

    /// Takes over a stored index, with its count and texts as far as they can be
    /// read. The store is ready from then on. Without a readable index nothing
    /// changes.
    pub fn load_from_blob(
        &mut self,
        index: Result<Bytes, TurboError>,
        meta: Result<Bytes, TurboError>,
    ) -> (r: Result<(), TurboError>)
        ensures
            match index {
                Err(e) => r == Err::<(), TurboError>(e) && *final(self) == *old(self),
                Ok(image) => match index_image(bytes_of(image)) {
                    None => r matches Err(e) && e is Store && *final(self) == *old(self),
                    Some((ids, coordinates, width, codes)) => {
                        &&& r is Ok
                        &&& final(self).ids() == ids
                        &&& ids.finite()
                        &&& final(self).coordinates() == coordinates
                        &&& final(self).width() == width
                        &&& final(self).codes() == codes
                        &&& final(self).ready()
                        &&& final(self).same_table(*old(self))
                        &&& meta_read(*old(self), meta, *final(self))
                    },
                },
            },
    {
        let image = match index {
            Ok(image) => image,
            Err(e) => {
                return Err(e);
            },
        };
        match QuantizedIndex::from_bytes(image, self.dim, self.bits) {
            Ok(loaded) => {
                self.index = loaded;
            },
            Err(e) => {
                return Err(e);
            },
        }
        match meta {
            Ok(meta) => {
                let bytes = to_vec(&meta);
                match read_number(&bytes, "count") {
                    Some(n) => {
                        self.count = #[verifier::truncate] (n as usize);
                    },
                    None => {},
                }
                let ghost before = self.known_texts();
                match read_members(&bytes, "texts") {
                    Some(list) => {
                        let ghost listed = list@;
                        self.read_texts(list);
                        proof {
                            lemma_listed(
                                listed,
                                json_members(bytes@, "texts"@).unwrap(),
                                before,
                                self.known_texts(),
                            );
                        }
                    },
                    None => {},
                }
            },
            Err(_) => {},
        }
        self.warm = true;
        Ok(())
    }
}

impl TurboVecStore {
    /// Keeps the store in a blob store: the index first, its count, shape and
    /// texts next.
    pub fn flush_to(&self, blob: &mut InMemoryBackend) -> (r: Result<(), TurboError>)
        ensures
            r is Ok,
            exists|index: Seq<u8>, meta: Seq<u8>|
                is_stored(*self, index, meta) && final(blob)@ == #[trigger] old(blob)@.insert(
                    index_key_of(self.table()),
                    index,
                ).insert(meta_key_of(self.table()), meta),
    {
        let stored = match self.flush() {
            Ok(stored) => stored,
            Err(e) => {
                return Err(e);
            },
        };
        match blob.put(stored.index_key.as_str(), stored.index) {
            Ok(()) => blob.put(stored.meta_key.as_str(), stored.meta),
            Err(e) => Err(e),
        }
    }

    /// Takes over the index that a blob store keeps for the table.
    pub fn load_from(&mut self, blob: &InMemoryBackend) -> (r: Result<(), TurboError>)
        ensures
            r is Ok <==> blob@.contains_key(index_key_of(old(self).table())) && index_image(
                blob@[index_key_of(old(self).table())],
            ) is Some,
            r is Ok ==> {
                let image = index_image(blob@[index_key_of(old(self).table())]).unwrap();
                &&& final(self).ids() == image.0
                &&& final(self).coordinates() == image.1
                &&& final(self).width() == image.2
                &&& final(self).codes() == image.3
                &&& final(self).ready()
                &&& final(self).same_table(*old(self))
                &&& if blob@.contains_key(meta_key_of(old(self).table())) {
                    meta_bytes_read(
                        *old(self),
                        blob@[meta_key_of(old(self).table())],
                        *final(self),
                    )
                } else {
                    final(self).total() == old(self).total() && final(self).known_texts() == old(
                        self,
                    ).known_texts()
                }
            },
            r matches Err(e) ==> *final(self) == *old(self) && if blob@.contains_key(
                index_key_of(old(self).table()),
            ) {
                e is Store
            } else {
                e is NotFound && e.detail() == index_key_of(old(self).table())
            },
    {
        let index = blob.get(self.index_key().as_str());
        let meta = blob.get(self.meta_key().as_str());
        self.load_from_blob(index, meta)
    }
}

/// Whether `after` has the count and the texts that stored bytes give, and keeps
/// those of `before` where they give none.
pub open spec fn meta_bytes_read(
    before: TurboVecStore,
    bytes: Seq<u8>,
    after: TurboVecStore,
) -> bool {
    &&& after.total() == (match json_number(bytes, "count"@) {
        Some(n) => n as usize,
        None => before.total(),
    })
    &&& match json_members(bytes, "texts"@) {
        Some(members) => texts_read(before.known_texts(), members, after.known_texts()),
        None => after.known_texts() == before.known_texts(),
    }
}

/// Whether `after` has the count and the texts that stored ones give, and keeps
/// those of `before` where they give none.
pub open spec fn meta_read(
    before: TurboVecStore,
    meta: Result<Bytes, TurboError>,
    after: TurboVecStore,
) -> bool {
    match meta {
        Ok(meta) => meta_bytes_read(before, bytes_of(meta), after),
        Err(_) => after.total() == before.total() && after.known_texts() == before.known_texts(),
    }
}

/// What a store is kept as, a fresh store takes over: an index of the same shape that
/// keeps the same codes under the same identifiers, the same texts and the same count.
/// From then on it may give just what the other may, to every request.
pub proof fn law_flush_then_load(
    store: TurboVecStore,
    index: Seq<u8>,
    meta: Seq<u8>,
    fresh: TurboVecStore,
    loaded: TurboVecStore,
)
    requires
        is_stored(store, index, meta),
        fresh.known_texts() == Map::<u64, Seq<char>>::empty(),
        index_image(index) == Some(
            (loaded.ids(), loaded.coordinates(), loaded.width(), loaded.codes()),
        ),
        meta_bytes_read(fresh, meta, loaded),
    ensures
        loaded.ids() == store.ids(),
        loaded.coordinates() == store.coordinates(),
        loaded.width() == store.width(),
        loaded.codes() == store.codes(),
        loaded.total() == store.total(),
        loaded.known_texts() == store.known_texts(),
        forall|request: &SearchRequest<'_>, r: Result<Vec<ScoredDoc>, TurboError>| #[trigger]
            loaded.may_give(request, r) <==> store.may_give(request, r),
{
    let members = json_members(meta, "texts"@).unwrap();
    let texts = store.known_texts();
    let read = loaded.known_texts();
    assert forall|id: u64| texts.contains_key(id) == #[trigger] read.contains_key(id) && (
    texts.contains_key(id) ==> read[id] == texts[id]) by {
        let key = decimal(id as nat);
        law_parse_printed(id as nat, u64::MAX as nat);
        if texts.contains_key(id) {
            assert(member_text(members, key, id, texts[id]));
            assert(member_of_id(members, id));
        }
        if read.contains_key(id) {
            assert(member_of_id(members, id));
            assert(member_gives(members, id, read[id]));
            let k = choose|k: Seq<char>| #[trigger] member_text(members, k, id, read[id]);
            let other = choose|other: u64| #[trigger]
                texts.contains_key(other) && decimal(other as nat) == k;
            law_parse_printed(other as nat, u64::MAX as nat);
            assert(other == id);
        }
    }
    assert(read =~= texts);
}

/// What a store keeps in a blob store, a fresh store of the same table takes over
/// from there, whatever else the blob store holds: shape, codes, texts and count. From
/// then on it may give just what the other may, to every request.
pub proof fn law_blob_round_trip(
    store: TurboVecStore,
    before: Map<Seq<char>, Seq<u8>>,
    after: Map<Seq<char>, Seq<u8>>,
    index: Seq<u8>,
    meta: Seq<u8>,
    fresh: TurboVecStore,
    loaded: TurboVecStore,
)
    requires
        is_stored(store, index, meta),
        after == before.insert(index_key_of(store.table()), index).insert(
            meta_key_of(store.table()),
            meta,
        ),
        fresh.table() == store.table(),
        fresh.known_texts() == Map::<u64, Seq<char>>::empty(),
        index_image(after[index_key_of(fresh.table())]) == Some(
            (loaded.ids(), loaded.coordinates(), loaded.width(), loaded.codes()),
        ),
        meta_bytes_read(fresh, after[meta_key_of(fresh.table())], loaded),
    ensures
        after.contains_key(index_key_of(fresh.table())),
        after.contains_key(meta_key_of(fresh.table())),
        loaded.ids() == store.ids(),
        loaded.coordinates() == store.coordinates(),
        loaded.width() == store.width(),
        loaded.codes() == store.codes(),
        loaded.total() == store.total(),
        loaded.known_texts() == store.known_texts(),
        forall|request: &SearchRequest<'_>, r: Result<Vec<ScoredDoc>, TurboError>| #[trigger]
            loaded.may_give(request, r) <==> store.may_give(request, r),
{
    law_keys_distinct(store.table(), store.table());
    law_flush_then_load(store, index, meta, fresh, loaded);
}

/// A document that was forgotten is in no later answer.
pub proof fn law_deleted_not_found(
    before: TurboVecStore,
    after: TurboVecStore,
    id: u64,
    answer: Seq<ScoredDoc>,
)
    requires
        after.vectors() == before.vectors().remove(id),
        forall|i: int| 0 <= i < answer.len() ==> after.ids().contains((#[trigger] answer[i]).id),
    ensures
        forall|i: int| 0 <= i < answer.len() ==> (#[trigger] answer[i]).id != id,
{
}

/// New documents that fit the index are all there after they came in: the count goes
/// up by their number, the index has the vector of each under its identifier and no
/// identifier but theirs and those it had, and a hit on one has its text. Where there
/// is one at least the store is ready; where there is none nothing changes.
pub proof fn law_upsert_adds_all(
    before: TurboVecStore,
    docs: Seq<EmbeddedDoc>,
    after: TurboVecStore,
    dim: usize,
)
    requires
        took_in(before, docs, after),
        dim > 0,
        before.coordinates() == Some(dim),
        before.total() + docs.len() <= usize::MAX,
        forall|i: int|
            0 <= i < docs.len() ==> (#[trigger] docs[i]).embedding@.len() == dim
                && all_coordinates(docs[i].embedding@) && !before.ids().contains(docs[i].id),
        forall|i: int, j: int|
            #![trigger docs[i], docs[j]]
            0 <= i < j < docs.len() ==> docs[i].id != docs[j].id,
    ensures
        docs.len() == 0 ==> after == before,
        docs.len() > 0 ==> after.ready(),
        after.total() == before.total() + docs.len(),
        forall|i: int|
            0 <= i < docs.len() ==> after.ids().contains((#[trigger] docs[i]).id)
                && after.vectors()[docs[i].id] == docs[i].embedding@,
        forall|i: int, score: Scalar|
            0 <= i < docs.len() ==> (#[trigger] hit_view(
                after.known_texts(),
                (docs[i].id, score),
            )).text == docs[i].text@,
        forall|id: u64| #[trigger]
            after.ids().contains(id) ==> before.ids().contains(id) || exists|i: int|
                0 <= i < docs.len() && (#[trigger] docs[i]).id == id,
        forall|id: u64| #[trigger]
            before.ids().contains(id) ==> after.ids().contains(id) && after.vectors()[id]
                == before.vectors()[id],
{
    let pairs = doc_pairs(docs);
    if docs.len() > 0 {
        assert forall|i: int| 0 <= i < docs.len() implies after.ids().contains(
            (#[trigger] docs[i]).id,
        ) && after.vectors()[docs[i].id] == docs[i].embedding@ by {
            assert(pairs[i] == (docs[i].id, docs[i].embedding@));
            assert forall|j: int| 0 <= j < pairs.len() && j != i implies (#[trigger] pairs[j]).0
                != pairs[i].0 by {
                if j < i {
                    assert(docs[j].id != docs[i].id);
                } else {
                    assert(docs[i].id != docs[j].id);
                }
            }
            law_batch_adds_all(before.vectors(), dim, pairs, i);
        }
        assert forall|i: int, score: Scalar| 0 <= i < docs.len() implies (#[trigger] hit_view(
            after.known_texts(),
            (docs[i].id, score),
        )).text == docs[i].text@ by {
            assert forall|j: int| i < j < docs.len() implies (#[trigger] docs[j]).id
                != docs[i].id by {
                assert(docs[i].id != docs[j].id);
            }
            law_last_text_known(before.known_texts(), docs, i);
        }
        assert forall|id: u64| #[trigger] after.ids().contains(id) implies before.ids().contains(id)
            || exists|i: int| 0 <= i < docs.len() && (#[trigger] docs[i]).id == id by {
            law_batch_only_adds(before.vectors(), dim, pairs, id);
            if !before.ids().contains(id) {
                let i = choose|i: int|
                    0 <= i < pairs.len() && #[trigger] pairs[i] == (id, after.vectors()[id]);
                assert(docs[i].id == id);
            }
        }
        assert forall|id: u64| #[trigger] before.ids().contains(id) implies after.ids().contains(id)
            && after.vectors()[id] == before.vectors()[id] by {
            law_batch_only_adds(before.vectors(), dim, pairs, id);
        }
    }
}

/// The text of a document that came in is the one last given for its identifier.
pub proof fn law_last_text_known(texts: Map<u64, Seq<char>>, docs: Seq<EmbeddedDoc>, i: int)
    requires
        0 <= i < docs.len(),
        forall|j: int| i < j < docs.len() ==> (#[trigger] docs[j]).id != docs[i].id,
    ensures
        texts_after(texts, docs).contains_key(docs[i].id),
        texts_after(texts, docs)[docs[i].id] == docs[i].text@,
    decreases docs.len(),
{
    let rest = docs.drop_last();
    if i < rest.len() {
        assert(rest[i] == docs[i]);
        assert forall|j: int| i < j < rest.len() implies (#[trigger] rest[j]).id != rest[i].id by {
            assert(rest[j] == docs[j]);
        }
        law_last_text_known(texts, rest, i);
        assert(docs[docs.len() - 1].id != docs[i].id);
    }
}

proof fn lemma_other_text_stays(texts: Map<u64, Seq<char>>, docs: Seq<EmbeddedDoc>, id: u64)
    requires
        forall|i: int| 0 <= i < docs.len() ==> (#[trigger] docs[i]).id != id,
    ensures
        texts_after(texts, docs).contains_key(id) == texts.contains_key(id),
        texts.contains_key(id) ==> texts_after(texts, docs)[id] == texts[id],
    decreases docs.len(),
{
    if docs.len() > 0 {
        let rest = docs.drop_last();
        assert forall|i: int| 0 <= i < rest.len() implies (#[trigger] rest[i]).id != id by {
            assert(rest[i] == docs[i]);
        }
        lemma_other_text_stays(texts, rest, id);
        assert(docs[docs.len() - 1].id != id);
    }
}

/// Documents that come in leave all others as they were: an identifier that is not
/// among theirs has a text afterwards exactly where it had one before, and the same one,
/// and likewise a vector.
pub proof fn law_upsert_leaves_the_rest(
    before: TurboVecStore,
    docs: Seq<EmbeddedDoc>,
    after: TurboVecStore,
    id: u64,
)
    requires
        took_in(before, docs, after),
        forall|i: int| 0 <= i < docs.len() ==> (#[trigger] docs[i]).id != id,
    ensures
        after.known_texts().contains_key(id) == before.known_texts().contains_key(id),
        before.known_texts().contains_key(id) ==> after.known_texts()[id]
            == before.known_texts()[id],
        after.vectors().contains_key(id) == before.vectors().contains_key(id),
        before.vectors().contains_key(id) ==> after.vectors()[id] == before.vectors()[id],
{
    if docs.len() > 0 {
        let dim = before.coordinates().unwrap();
        let pairs = doc_pairs(docs);
        lemma_other_text_stays(before.known_texts(), docs, id);
        law_batch_only_adds(before.vectors(), dim, pairs, id);
        if after.vectors().contains_key(id) && !before.vectors().contains_key(id) {
            let i = choose|i: int|
                0 <= i < pairs.len() && #[trigger] pairs[i] == (id, after.vectors()[id]);
            assert(docs[i].id == id);
        }
    }
}

/// After documents came in, the text of each of them is known, whole: where an
/// identifier comes more than once, the last one.
pub proof fn law_upsert_texts_are_known(
    before: TurboVecStore,
    docs: Seq<EmbeddedDoc>,
    after: TurboVecStore,
    i: int,
)
    requires
        took_in(before, docs, after),
        0 <= i < docs.len(),
        forall|j: int| i < j < docs.len() ==> (#[trigger] docs[j]).id != docs[i].id,
    ensures
        after.known_texts().contains_key(docs[i].id),
        after.known_texts()[docs[i].id] == docs[i].text@,
        after.ready(),
        before.total() + docs.len() <= usize::MAX ==> after.total() == before.total() + docs.len(),
{
    law_last_text_known(before.known_texts(), docs, i);
}

/// Documents may come in one batch or in two: the texts that are known and the vectors
/// that are held afterwards are the same, and so is the count.
pub proof fn law_upsert_in_two_batches(
    before: TurboVecStore,
    first: Seq<EmbeddedDoc>,
    middle: TurboVecStore,
    second: Seq<EmbeddedDoc>,
    after: TurboVecStore,
    at_once: TurboVecStore,
)
    requires
        before.coordinates() is Some,
        took_in(before, first, middle),
        took_in(middle, second, after),
        took_in(before, first + second, at_once),
        before.total() + first.len() + second.len() <= usize::MAX,
    ensures
        after.known_texts() == at_once.known_texts(),
        after.vectors() == at_once.vectors(),
        after.total() == at_once.total(),
        after.ready() == at_once.ready(),
{
    let dim = before.coordinates().unwrap();
    if first.len() == 0 {
        assert(first + second =~= second);
    } else if second.len() == 0 {
        assert(first + second =~= first);
    } else {
        lemma_texts_in_two(before.known_texts(), first, second);
        lemma_vectors_in_two(before.vectors(), dim, doc_pairs(first), doc_pairs(second));
        assert(doc_pairs(first + second) =~= doc_pairs(first) + doc_pairs(second));
    }
}

proof fn lemma_texts_in_two(
    texts: Map<u64, Seq<char>>,
    first: Seq<EmbeddedDoc>,
    second: Seq<EmbeddedDoc>,
)
    ensures
        texts_after(texts, first + second) == texts_after(texts_after(texts, first), second),
    decreases second.len(),
{
    if second.len() == 0 {
        assert(first + second =~= first);
    } else {
        lemma_texts_in_two(texts, first, second.drop_last());
        assert((first + second).drop_last() =~= first + second.drop_last());
        assert((first + second).last() == second.last());
    }
}

proof fn lemma_vectors_in_two(
    vectors: Map<u64, Seq<Scalar>>,
    dim: usize,
    first: Seq<(u64, Seq<Scalar>)>,
    second: Seq<(u64, Seq<Scalar>)>,
)
    ensures
        vectors_after(vectors, dim, first + second) == vectors_after(
            vectors_after(vectors, dim, first),
            dim,
            second,
        ),
    decreases second.len(),
{
    if second.len() == 0 {
        assert(first + second =~= first);
    } else {
        lemma_vectors_in_two(vectors, dim, first, second.drop_last());
        assert((first + second).drop_last() =~= first + second.drop_last());
        assert((first + second).last() == second.last());
    }
}

/// What a store answers to a search by one vector: `k` documents, or all it holds where
/// it holds fewer; none but those it holds; each with the text that is known for it,
/// whole, or none; and none before one of a greater score. A search by text it turns
/// down.
pub proof fn law_answer_of_store(
    store: TurboVecStore,
    request: &SearchRequest<'_>,
    r: Result<Vec<ScoredDoc>, TurboError>,
    dim: usize,
)
    requires
        store.answers(request, r),
        dim > 0,
        store.coordinates() == Some(dim),
        request.query_embedding@.len() == dim,
    ensures
        r is Ok <==> request.search_type == SearchType::Vector,
        r matches Err(e) ==> e is UnsupportedSearchType,
        r matches Ok(docs) ==> {
            &&& docs@.len() == (if request.k <= store.vectors().dom().len() {
                request.k as int
            } else {
                store.vectors().dom().len() as int
            })
            &&& forall|i: int|
                0 <= i < docs@.len() ==> {
                    let doc = #[trigger] docs@[i];
                    &&& store.vectors().contains_key(doc.id)
                    &&& store.known_texts().contains_key(doc.id) ==> doc.text@
                        == store.known_texts()[doc.id]
                    &&& !store.known_texts().contains_key(doc.id) ==> doc.text@.len() == 0
                    &&& doc.source == SearchSource::TurboVec
                    &&& doc.metadata@ == Map::<String, String>::empty()
                }
            &&& (forall|i: int| 0 <= i < docs@.len() ==> !(#[trigger] docs@[i]).score.nan())
                ==> forall|i: int, j: int|
                #![trigger docs@[i], docs@[j]]
                0 <= i < j < docs@.len() ==> !docs@[i].score.less(docs@[j].score)
            &&& store.vectors().dom().len() <= 256 ==> forall|i: int, j: int|
                #![trigger docs@[i], docs@[j]]
                0 <= i < j < docs@.len() ==> docs@[i].id != docs@[j].id
        },
{
    if let Ok(docs) = r {
        let found = Seq::new(docs@.len(), |i: int| (docs@[i].id, docs@[i].score));
        let k = request.k as int;
        assert(hit_scores(found) =~= scores_of(docs@));
        assert(hit_ids(found) =~= ids_of(docs@));
        law_single_query(store.ids(), dim, store.width(), request.query_embedding@, k, found);
        assert forall|i: int| 0 <= i < docs@.len() implies {
            let doc = #[trigger] docs@[i];
            &&& store.vectors().contains_key(doc.id)
            &&& store.known_texts().contains_key(doc.id) ==> doc.text@
                == store.known_texts()[doc.id]
            &&& !store.known_texts().contains_key(doc.id) ==> doc.text@.len() == 0
            &&& doc.source == SearchSource::TurboVec
            &&& doc.metadata@ == Map::<String, String>::empty()
        } by {
            let doc = docs@[i];
            assert(doc@ == hit_view(store.known_texts(), (doc.id, doc.score)));
            assert(doc@.text == doc.text@);
        }
        if forall|i: int| 0 <= i < docs@.len() ==> !(#[trigger] docs@[i]).score.nan() {
            assert forall|i: int| 0 <= i < hit_scores(found).len() implies !(
            #[trigger] hit_scores(found)[i]).nan() by {
                assert(!docs@[i].score.nan());
            }
        }
        assert forall|i: int, j: int| 0 <= i < j < docs@.len() implies found[i]
            == ((#[trigger] docs@[i]).id, docs@[i].score) && found[j] == ((#[trigger] docs@[j]).id,
            docs@[j].score) by {}
    }
}

/// A loaded store has what was stored for it and keeps what it had besides: every stored
/// text is known under its identifier, and a text that was known before stays where none
/// is stored for its identifier.
pub proof fn law_loaded_texts(
    before: TurboVecStore,
    stored: TurboVecStore,
    index: Seq<u8>,
    meta: Seq<u8>,
    after: TurboVecStore,
    id: u64,
)
    requires
        is_stored(stored, index, meta),
        meta_bytes_read(before, meta, after),
    ensures
        stored.known_texts().contains_key(id) ==> after.known_texts().contains_key(id)
            && after.known_texts()[id] == stored.known_texts()[id],
        !stored.known_texts().contains_key(id) ==> after.known_texts().contains_key(id)
            == before.known_texts().contains_key(id) && (before.known_texts().contains_key(id)
            ==> after.known_texts()[id] == before.known_texts()[id]),
        after.total() == stored.total(),
{
    let members = json_members(meta, "texts"@).unwrap();
    let texts = stored.known_texts();
    let read = after.known_texts();
    let key = decimal(id as nat);
    law_parse_printed(id as nat, u64::MAX as nat);
    if texts.contains_key(id) {
        assert(member_text(members, key, id, texts[id]));
        assert(member_of_id(members, id));
        assert(member_gives(members, id, read[id]));
        let k = choose|k: Seq<char>| #[trigger] member_text(members, k, id, read[id]);
        let other = choose|other: u64| #[trigger]
            texts.contains_key(other) && decimal(other as nat) == k;
        law_parse_printed(other as nat, u64::MAX as nat);
        assert(other == id);
    } else if member_of_id(members, id) {
        let (k, text) = choose|k: Seq<char>, text: Seq<char>| #[trigger]
            member_text(members, k, id, text);
        let other = choose|other: u64| #[trigger]
            texts.contains_key(other) && decimal(other as nat) == k;
        law_parse_printed(other as nat, u64::MAX as nat);
        assert(other == id);
    }
    assert(read.contains_key(id) <==> before.known_texts().contains_key(id) || member_of_id(
        members,
        id,
    ));
}

/// Where no counts and texts are stored, or none can be read, a loaded store keeps those
/// that it had.
pub proof fn law_without_stored_texts(
    before: TurboVecStore,
    meta: Result<Bytes, TurboError>,
    after: TurboVecStore,
)
    requires
        meta_read(before, meta, after),
    ensures
        meta is Err ==> after.total() == before.total() && after.known_texts()
            == before.known_texts(),
        meta matches Ok(bytes) ==> {
            &&& json_number(bytes_of(bytes), "count"@) is None ==> after.total() == before.total()
            &&& json_members(bytes_of(bytes), "texts"@) is None ==> after.known_texts()
                == before.known_texts()
        },
{
}

/// Every member of stored texts is read: where just one key stands for an identifier, under
/// any spelling of its number, its text is known afterwards.
pub proof fn law_stored_member_is_read(
    before: TurboVecStore,
    bytes: Seq<u8>,
    after: TurboVecStore,
    key: Seq<char>,
    id: u64,
    text: Seq<char>,
)
    requires
        meta_bytes_read(before, bytes, after),
        json_members(bytes, "texts"@) matches Some(members) && {
            &&& members.contains_key(key)
            &&& members[key] == Some(text)
            &&& parsed_unsigned(key, u64::MAX as nat) == Some(id as nat)
            &&& forall|other: Seq<char>| #[trigger]
                members.contains_key(other) && parsed_unsigned(other, u64::MAX as nat) == Some(
                    id as nat,
                ) ==> other == key
        },
    ensures
        after.known_texts().contains_key(id),
        after.known_texts()[id] == text,
{
    let members = json_members(bytes, "texts"@).unwrap();
    assert(member_text(members, key, id, text));
    assert(member_of_id(members, id));
    assert(member_gives(members, id, after.known_texts()[id]));
}

/// The texts of a map are its own, each whole under its identifier.
pub proof fn law_texts_of_map(texts: Map<u64, String>, id: u64)
    ensures
        text_map(texts).contains_key(id) == texts.contains_key(id),
        texts.contains_key(id) ==> text_map(texts)[id] == texts[id]@,
{
}

/// The two blobs that a store is kept as are named after its table and describe this store:
/// the one its index, the other its count, its shape and the text of every identifier.
pub proof fn law_kept_blobs(store: TurboVecStore, stored: StoredIndex, id: u64)
    requires
        store.is_kept_as(stored),
    ensures
        stored.index_key@ == "turbovec/"@ + store.table() + "/index.tq"@,
        stored.meta_key@ == "turbovec/"@ + store.table() + "/meta.json"@,
        index_image(bytes_of(stored.index)) == Some(
            (store.ids(), store.coordinates(), store.width(), store.codes()),
        ),
        json_number(bytes_of(stored.meta), "count"@) == Some(store.total() as u64),
        json_members(bytes_of(stored.meta), "texts"@) matches Some(members) && {
            &&& store.known_texts().contains_key(id) ==> members.contains_key(decimal(id as nat))
                && members[decimal(id as nat)] == Some(store.known_texts()[id])
            &&& members.contains_key(decimal(id as nat)) ==> store.known_texts().contains_key(id)
        },
{
    let members = json_members(bytes_of(stored.meta), "texts"@).unwrap();
    if members.contains_key(decimal(id as nat)) {
        let other = choose|other: u64| #[trigger]
            store.known_texts().contains_key(other) && decimal(other as nat) == decimal(id as nat);
        law_decimal_injective(other as nat, id as nat);
    }
}

} // verus!
