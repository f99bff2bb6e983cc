//! The durable store: its table, its queries, and what it makes of the answers.

use crate::columnar::{
    arrow_error_text, batch_columns, batch_rows, cut, list_fits, new_batch, new_list, new_schema,
    number_column, row_count, schema_columns, text_bytes, text_column, texts_of, unsigned_column,
    vector_column, vectors_of, Batch, Column, ColumnKind,
};
use crate::document::{
    embedded_views, EmbeddedDoc, EmbeddedView, ScoredDoc, ScoredView, SearchSource,
};
use crate::error::TurboError;
use crate::ranking::{
    best_per_id, descending, distinct_ids, has_nan, id_set, is_ranking_of, keep_best_per_id,
    law_best_of_distinct, law_best_per_id, law_descending_is_ranked, law_ranking_keeps_results,
    position_of, sort_by_score, top,
};
use crate::request::{MetadataFilter, SearchRequest, SearchType};
use crate::scalar::Scalar;
use crate::text::{chars_of, decimal, join2, join3, law_decimal_injective, print_unsigned};
use arrow_schema::Schema;
use std::collections::HashMap;
use std::sync::Arc;
use vstd::prelude::*;

verus! {

/// The table of the durable store.
#[derive(Debug, Clone)]
pub struct LanceDbStore {
    pub table_name: String,
    pub dim: usize,
}

/// The length of the vectors in the table, as the column type holds it.
pub open spec fn column_size(dim: usize) -> i32 {
    dim as i32
}

/// The texts of documents.
pub open spec fn doc_texts(docs: Seq<EmbeddedDoc>) -> Seq<Seq<char>> {
    Seq::new(docs.len(), |i: int| docs[i].text@)
}

/// The identifiers of documents.
pub open spec fn doc_ids(docs: Seq<EmbeddedDoc>) -> Seq<u64> {
    Seq::new(docs.len(), |i: int| docs[i].id)
}

/// The vectors of documents, end to end.
pub open spec fn flat_embeddings(docs: Seq<EmbeddedDoc>) -> Seq<Scalar>
    decreases docs.len(),
{
    if docs.len() == 0 {
        Seq::empty()
    } else {
        flat_embeddings(docs.drop_last()) + docs.last().embedding@
    }
}

/// The bytes that the texts of documents take up in UTF-8.
pub open spec fn doc_text_bytes(docs: Seq<EmbeddedDoc>) -> nat
    decreases docs.len(),
{
    if docs.len() == 0 {
        0
    } else {
        doc_text_bytes(docs.drop_last()) + vstd::utf8::encode_utf8(docs.last().text@).len()
    }
}

/// Whether the vectors of documents fill a column of the given length, one each.
pub open spec fn vectors_fit(docs: Seq<EmbeddedDoc>, size: i32) -> bool {
    let flat = flat_embeddings(docs);
    list_fits(flat.len(), size) && cut(flat, size).len() == docs.len()
}

impl LanceDbStore {
    /// A table of the given name over vectors of the given length.
    pub fn new(table_name: &str, dim: usize) -> (store: Self)
        ensures
            store.table_name@ == table_name@,
            store.dim == dim,
    {
        LanceDbStore { table_name: table_name.to_string(), dim }
    }

    /// The columns of the table: an identifier, a text and a vector.
    pub fn schema(&self) -> (schema: Arc<Schema>)
        ensures
            schema_columns(*schema) == seq![
                ("id"@, ColumnKind::Unsigned),
                ("text"@, ColumnKind::Text),
                ("embedding"@, ColumnKind::Vector("item"@, column_size(self.dim))),
            ],
    {
        new_schema("id", "text", "embedding", "item", #[verifier::truncate] (self.dim as i32))
    }

    /// Documents as rows of the table. Fails where their vectors, taken
    /// together, do not fill one row each.
    pub fn make_batch(&self, docs: &[EmbeddedDoc]) -> (r: Result<Batch, TurboError>)
        requires
            doc_text_bytes(docs@) <= i32::MAX,
        ensures
            r is Ok <==> vectors_fit(docs@, column_size(self.dim)),
            r matches Err(e) ==> e is Store,
            r matches Ok(batch) ==> {
                &&& batch_rows(batch) == docs@.len()
                &&& batch_columns(batch) == map![
                    "id"@ => Column::Unsigned(doc_ids(docs@)),
                    "text"@ => Column::Text(doc_texts(docs@)),
                    "embedding"@ => Column::Vector(
                        cut(flat_embeddings(docs@), column_size(self.dim)),
                    ),
                ]
            },
    {
        let schema = self.schema();
        let mut ids: Vec<u64> = Vec::new();
        let mut texts: Vec<String> = Vec::new();
        let mut flat: Vec<Scalar> = Vec::new();
        let mut i: usize = 0;
        while i < docs.len()
            invariant
                i <= docs@.len(),
                ids@ == doc_ids(docs@.take(i as int)),
                texts_of(texts@) == doc_texts(docs@.take(i as int)),
                texts@.len() == i,
                text_bytes(texts@) == doc_text_bytes(docs@.take(i as int)),
                flat@ == flat_embeddings(docs@.take(i as int)),
            decreases docs@.len() - i,
        {
            let ghost before_texts = texts@;
            ids.push(docs[i].id);
            texts.push(docs[i].text.clone());
            flat.extend_from_slice(docs[i].embedding.as_slice());
            proof {
                let now = docs@.take(i + 1);
                assert(now.drop_last() =~= docs@.take(i as int));
                assert(now.last() == docs@[i as int]);
                assert(texts@.drop_last() =~= before_texts);
                assert(ids@ =~= doc_ids(now));
                assert forall|j: int| 0 <= j <= i implies texts_of(texts@)[j] == doc_texts(
                    now,
                )[j] by {
                    if j < i {
                        assert(texts_of(before_texts)[j] == doc_texts(docs@.take(i as int))[j]);
                    }
                }
                assert(texts_of(texts@) =~= doc_texts(now));
                assert(flat@ =~= flat_embeddings(now));
            }
            i = i + 1;
        }
        proof {
            assert(docs@.take(docs@.len() as int) =~= docs@);
            reveal_strlit("id");
            reveal_strlit("text");
            reveal_strlit("embedding");
            assert("id"@.len() == 2 && "text"@.len() == 4 && "embedding"@.len() == 9);
        }
        match new_list("item", #[verifier::truncate] (self.dim as i32), &flat) {
            Ok(vectors) => match new_batch(schema, &ids, &texts, vectors) {
                Ok(batch) => Ok(batch),
                Err(e) => Err(TurboError::Store(arrow_error_text(&e))),
            },
            Err(e) => Err(TurboError::Store(arrow_error_text(&e))),
        }
    }
}

/// A vector column gives back each vector that was put in, where they have the
/// column's length.
pub proof fn law_rows_are_embeddings(docs: Seq<EmbeddedDoc>, dim: usize)
    requires
        0 < dim <= i32::MAX,
        forall|i: int| 0 <= i < docs.len() ==> (#[trigger] docs[i]).embedding@.len() == dim,
    ensures
        vectors_fit(docs, column_size(dim)),
        cut(flat_embeddings(docs), column_size(dim)) == Seq::new(
            docs.len(),
            |i: int| docs[i].embedding@,
        ),
    decreases docs.len(),
{
    let size = column_size(dim);
    let flat = flat_embeddings(docs);
    lemma_flat_len(docs, dim as nat);
    assert(flat.len() / (size as nat) == docs.len()) by {
        vstd::arithmetic::div_mod::lemma_div_multiples_vanish(docs.len() as int, size as int);
        assert(docs.len() * dim == (size as int) * docs.len()) by (nonlinear_arith)
            requires
                size == dim,
        ;
    }
    assert(flat.len() % (size as nat) == 0) by {
        vstd::arithmetic::div_mod::lemma_mod_multiples_basic(docs.len() as int, size as int);
    }
    let rows = cut(flat, size);
    assert forall|i: int| 0 <= i < docs.len() implies rows[i] =~= docs[i].embedding@ by {
        lemma_flat_row(docs, dim as nat, i);
    }
    assert(rows =~= Seq::new(docs.len(), |i: int| docs[i].embedding@));
}

proof fn lemma_flat_len(docs: Seq<EmbeddedDoc>, dim: nat)
    requires
        forall|i: int| 0 <= i < docs.len() ==> (#[trigger] docs[i]).embedding@.len() == dim,
    ensures
        flat_embeddings(docs).len() == docs.len() * dim,
    decreases docs.len(),
{
    if docs.len() > 0 {
        let rest = docs.drop_last();
        assert forall|i: int| 0 <= i < rest.len() implies (#[trigger] rest[i]).embedding@.len()
            == dim by {
            assert(rest[i] == docs[i]);
        }
        lemma_flat_len(rest, dim);
        assert(docs.last() == docs[docs.len() - 1]);
        assert(rest.len() * dim + dim == docs.len() * dim) by (nonlinear_arith)
            requires
                rest.len() + 1 == docs.len(),
        ;
    }
}

proof fn lemma_flat_row(docs: Seq<EmbeddedDoc>, dim: nat, i: int)
    requires
        0 <= i < docs.len(),
        forall|j: int| 0 <= j < docs.len() ==> (#[trigger] docs[j]).embedding@.len() == dim,
    ensures
        i * dim + dim <= flat_embeddings(docs).len(),
        flat_embeddings(docs).subrange(i * dim, i * dim + dim) == docs[i].embedding@,
    decreases docs.len(),
{
    let rest = docs.drop_last();
    assert forall|j: int| 0 <= j < rest.len() implies (#[trigger] rest[j]).embedding@.len()
        == dim by {
        assert(rest[j] == docs[j]);
    }
    lemma_flat_len(docs, dim);
    lemma_flat_len(rest, dim);
    assert(i * dim + dim <= docs.len() * dim) by (nonlinear_arith)
        requires
            i + 1 <= docs.len(),
    ;
    assert(i * dim >= 0) by (nonlinear_arith)
        requires
            i >= 0,
    ;
    if i < rest.len() {
        lemma_flat_row(rest, dim, i);
        assert(rest[i] == docs[i]);
        assert(flat_embeddings(docs).subrange(i * dim, i * dim + dim) =~= flat_embeddings(
            rest,
        ).subrange(i * dim, i * dim + dim));
    } else {
        assert(i * dim == rest.len() * dim);
        assert(flat_embeddings(docs).subrange(i * dim, i * dim + dim) =~= docs[i].embedding@);
    }
}

/// Where the scores of an answer come from.
#[derive(Debug, Clone, Copy, PartialEq, Eq, Structural)]
pub enum ScoreColumn {
    /// Distances: the smaller, the more similar.
    Distance,
    /// Full-text relevance, as it stands.
    Bm25,
    /// The order of the rows.
    Rank,
}

/// The bit patterns of the scores for the first ranks: 1 less a twentieth per
/// rank, but never below a hundredth.
pub open spec fn rank_bits() -> Seq<u32> {
    seq![
        0x3f80_0000u32,
        0x3f73_3333u32,
        0x3f66_6666u32,
        0x3f59_999au32,
        0x3f4c_cccdu32,
        0x3f40_0000u32,
        0x3f33_3333u32,
        0x3f26_6666u32,
        0x3f19_999au32,
        0x3f0c_ccccu32,
        0x3f00_0000u32,
        0x3ee6_6666u32,
        0x3ecc_ccccu32,
        0x3eb3_3332u32,
        0x3e99_999au32,
        0x3e80_0000u32,
        0x3e4c_ccccu32,
        0x3e19_9998u32,
        0x3dcc_ccc8u32,
        0x3d4c_ccd0u32,
        0x3c23_d700u32,
    ]
}

/// The score of a row by its rank alone.
pub open spec fn rank_score(rank: int) -> Scalar {
    Scalar {
        bits: rank_bits()[if rank < 20 {
            rank
        } else {
            20
        }],
    }
}

/// The score of a row by its rank alone.
pub fn score_of_rank(rank: usize) -> (score: Scalar)
    ensures
        score == rank_score(rank as int),
{
    let bits: u32 = match rank {
        0 => 0x3f80_0000,
        1 => 0x3f73_3333,
        2 => 0x3f66_6666,
        3 => 0x3f59_999a,
        4 => 0x3f4c_cccd,
        5 => 0x3f40_0000,
        6 => 0x3f33_3333,
        7 => 0x3f26_6666,
        8 => 0x3f19_999a,
        9 => 0x3f0c_cccc,
        10 => 0x3f00_0000,
        11 => 0x3ee6_6666,
        12 => 0x3ecc_cccc,
        13 => 0x3eb3_3332,
        14 => 0x3e99_999a,
        15 => 0x3e80_0000,
        16 => 0x3e4c_cccc,
        17 => 0x3e19_9998,
        18 => 0x3dcc_ccc8,
        19 => 0x3d4c_ccd0,
        _ => 0x3c23_d700,
    };
    Scalar { bits }
}

/// A later rank never scores more, and until the scores level off it scores
/// less.
pub proof fn law_rank_score_descends(a: int, b: int)
    requires
        0 <= a < b,
    ensures
        !rank_score(a).nan(),
        !rank_score(a).less(rank_score(b)),
        a < 20 ==> rank_score(b).less(rank_score(a)),
{
}

/// The rank that row `i` of batch number `batch` is taken to have.
pub open spec fn row_rank(batch: int, i: int) -> int {
    batch * 1024 + i
}

/// The similarities that stand for the distances of one batch: as many, where
/// the batch has distances, and none where it has not.
pub open spec fn stands_for(batch: Batch, similarities: Option<Vec<Scalar>>) -> bool {
    if batch_columns(batch).contains_key("_distance"@) && batch_columns(
        batch,
    )["_distance"@] is Number {
        similarities matches Some(v) && v@.len() == batch_rows(batch)
    } else {
        similarities is None
    }
}

/// The score of row `i` of batch number `b`.
pub open spec fn row_score(
    batch: Batch,
    b: int,
    i: int,
    scores: ScoreColumn,
    similarities: Option<Vec<Scalar>>,
) -> Scalar {
    match scores {
        ScoreColumn::Distance => match similarities {
            Some(v) => v@[i],
            None => rank_score(row_rank(b, i)),
        },
        ScoreColumn::Bm25 => if batch_columns(batch).contains_key("_score"@) {
            match batch_columns(batch)["_score"@] {
                Column::Number(v) => v[i],
                _ => rank_score(row_rank(b, i)),
            }
        } else {
            rank_score(row_rank(b, i))
        },
        ScoreColumn::Rank => rank_score(row_rank(b, i)),
    }
}

/// What keeps a batch from being read.
pub open spec fn batch_fault(batch: Batch) -> Option<Seq<char>> {
    let columns = batch_columns(batch);
    if !(columns.contains_key("id"@) && columns["id"@] is Unsigned) {
        Some("missing id column"@)
    } else if !(columns.contains_key("text"@) && columns["text"@] is Text) {
        Some("missing text column"@)
    } else {
        None
    }
}

/// The first fault of a row of batches.
pub open spec fn first_fault(batches: Seq<Batch>) -> Option<Seq<char>>
    decreases batches.len(),
{
    if batches.len() == 0 {
        None
    } else {
        match first_fault(batches.drop_last()) {
            Some(fault) => Some(fault),
            None => batch_fault(batches.last()),
        }
    }
}

/// The results that batch number `b` holds, in the order of its rows.
pub open spec fn batch_results(
    batch: Batch,
    b: int,
    scores: ScoreColumn,
    similarities: Option<Vec<Scalar>>,
) -> Seq<ScoredView> {
    Seq::new(
        batch_rows(batch),
        |i: int|
            ScoredView {
                id: batch_columns(batch)["id"@]->Unsigned_0[i],
                text: batch_columns(batch)["text"@]->Text_0[i],
                score: row_score(batch, b, i, scores, similarities),
                source: SearchSource::LanceDb,
                metadata: Map::empty(),
            },
    )
}

/// The results that all batches hold, in the order of the batches.
pub open spec fn all_results(
    batches: Seq<Batch>,
    scores: ScoreColumn,
    similarities: Seq<Option<Vec<Scalar>>>,
) -> Seq<ScoredView>
    decreases batches.len(),
{
    if batches.len() == 0 {
        Seq::empty()
    } else {
        let b = batches.len() - 1;
        all_results(batches.drop_last(), scores, similarities) + batch_results(
            batches[b],
            b,
            scores,
            similarities[b],
        )
    }
}

/// What results say.
pub open spec fn views_of(docs: Seq<ScoredDoc>) -> Seq<ScoredView> {
    docs.map_values(|d: ScoredDoc| d@)
}

/// Whether `answer` is made of these rows: of each identifier the one with the
/// highest score, ranked, and no more than `k`.
pub open spec fn is_answer_of(rows: Seq<ScoredView>, k: int, answer: Seq<ScoredDoc>) -> bool {
    exists|docs: Seq<ScoredDoc>, ranked: Seq<ScoredDoc>| #[trigger]
        is_ranking_of(best_per_id(docs), ranked) && views_of(docs) == rows && answer == top(
            ranked,
            k,
        )
}

/// The distances of a batch, where it has any.
pub fn distances(batch: &Batch) -> (r: Option<Vec<Scalar>>)
    ensures
        stands_for(*batch, r),
        r matches Some(v) ==> batch_columns(*batch)["_distance"@] == Column::Number(v@),
{
    number_column(batch, "_distance")
}

/// Reads one batch.
fn read_batch(
    batch: &Batch,
    b: usize,
    scores: ScoreColumn,
    similarities: &Option<Vec<Scalar>>,
) -> (r: Result<Vec<ScoredDoc>, TurboError>)
    requires
        scores == ScoreColumn::Distance ==> stands_for(*batch, *similarities),
    ensures
        r is Ok <==> batch_fault(*batch) is None,
        r matches Ok(docs) ==> views_of(docs@) == batch_results(
            *batch,
            b as int,
            scores,
            *similarities,
        ),
        r matches Err(e) ==> e is Store && Some(e.detail()) == batch_fault(*batch),
{
    let ids = match unsigned_column(batch, "id") {
        Some(ids) => ids,
        None => {
            return Err(TurboError::Store("missing id column".to_string()));
        },
    };
    let texts = match text_column(batch, "text") {
        Some(texts) => texts,
        None => {
            return Err(TurboError::Store("missing text column".to_string()));
        },
    };
    let relevance = number_column(batch, "_score");
    let n: usize = row_count(batch);
    let mut docs: Vec<ScoredDoc> = Vec::new();
    let ghost rows = batch_results(*batch, b as int, scores, *similarities);
    let mut i: usize = 0;
    while i < n
        invariant
            i <= n,
            n == batch_rows(*batch),
            ids@.len() == n,
            texts@.len() == n,
            batch_columns(*batch)["id"@] == Column::Unsigned(ids@),
            batch_columns(*batch)["text"@] == Column::Text(texts_of(texts@)),
            relevance is Some <==> (batch_columns(*batch).contains_key("_score"@) && batch_columns(
                *batch,
            )["_score"@] is Number),
            relevance matches Some(v) ==> batch_columns(*batch)["_score"@] == Column::Number(v@)
                && v@.len() == n,
            scores == ScoreColumn::Distance ==> stands_for(*batch, *similarities),
            rows == batch_results(*batch, b as int, scores, *similarities),
            docs@.len() == i,
            forall|j: int| 0 <= j < i ==> (#[trigger] docs@[j])@ == rows[j],
        decreases n - i,
    {
        let by_rank = if b == 0 {
            score_of_rank(i)
        } else {
            score_of_rank(20)
        };
        let score = match scores {
            ScoreColumn::Distance => match similarities {
                Some(v) => v[i],
                None => by_rank,
            },
            ScoreColumn::Bm25 => match &relevance {
                Some(v) => v[i],
                None => by_rank,
            },
            ScoreColumn::Rank => by_rank,
        };
        proof {
            assert(by_rank == rank_score(row_rank(b as int, i as int)));
            assert(score == row_score(*batch, b as int, i as int, scores, *similarities));
            assert(texts_of(texts@)[i as int] == texts@[i as int]@);
        }
        docs.push(
            ScoredDoc {
                id: ids[i],
                text: texts[i].clone(),
                score,
                source: SearchSource::LanceDb,
                metadata: HashMap::new(),
            },
        );
        i = i + 1;
    }
    proof {
        assert(views_of(docs@) =~= rows);
    }
    Ok(docs)
}

/// Turns the batches of an answer into results. Where scores come from
/// distances, `similarities` holds for each batch what its distances were
/// turned into.
pub fn collect_results(
    batches: &[Batch],
    k: usize,
    scores: ScoreColumn,
    similarities: &[Option<Vec<Scalar>>],
) -> (r: Result<Vec<ScoredDoc>, TurboError>)
    requires
        similarities@.len() == batches@.len(),
        scores == ScoreColumn::Distance ==> forall|b: int|
            0 <= b < batches@.len() ==> stands_for(#[trigger] batches@[b], similarities@[b]),
    ensures
        r is Ok <==> first_fault(batches@) is None,
        r matches Ok(answer) ==> is_answer_of(
            all_results(batches@, scores, similarities@),
            k as int,
            answer@,
        ),
        r matches Err(e) ==> e is Store && Some(e.detail()) == first_fault(batches@),
{
    let mut docs: Vec<ScoredDoc> = Vec::new();
    let mut b: usize = 0;
    proof {
        assert(batches@.take(0) =~= Seq::<Batch>::empty());
        assert(views_of(docs@) =~= Seq::<ScoredView>::empty());
    }
    while b < batches.len()
        invariant
            b <= batches@.len(),
            similarities@.len() == batches@.len(),
            scores == ScoreColumn::Distance ==> forall|b: int|
                0 <= b < batches@.len() ==> stands_for(#[trigger] batches@[b], similarities@[b]),
            first_fault(batches@.take(b as int)) is None,
            views_of(docs@) == all_results(batches@.take(b as int), scores, similarities@),
        decreases batches@.len() - b,
    {
        proof {
            let now = batches@.take(b + 1);
            assert(now.drop_last() =~= batches@.take(b as int));
            assert(now.last() == batches@[b as int]);
        }
        match read_batch(&batches[b], b, scores, &similarities[b]) {
            Ok(mut rows) => {
                let ghost before = docs@;
                let ghost added = rows@;
                docs.append(&mut rows);
                proof {
                    assert(views_of(before + added) =~= views_of(before) + views_of(added));
                }
            },
            Err(e) => {
                proof {
                    lemma_first_fault_stays(batches@, b + 1);
                }
                return Err(e);
            },
        }
        b = b + 1;
    }
    proof {
        assert(batches@.take(batches@.len() as int) =~= batches@);
    }
    let ghost rows = docs@;
    let kept = keep_best_per_id(docs);
    let mut answer = sort_by_score(kept);
    let ghost ranked = answer@;
    answer.truncate(k);
    proof {
        assert(answer@ =~= top(ranked, k as int));
        assert(is_ranking_of(best_per_id(rows), ranked));
    }
    Ok(answer)
}

proof fn lemma_first_fault_stays(batches: Seq<Batch>, n: int)
    requires
        0 <= n <= batches.len(),
        first_fault(batches.take(n)) is Some,
    ensures
        first_fault(batches) == first_fault(batches.take(n)),
    decreases batches.len() - n,
{
    if n < batches.len() {
        assert(batches.take(n + 1).drop_last() =~= batches.take(n));
        lemma_first_fault_stays(batches, n + 1);
    } else {
        assert(batches.take(n) =~= batches);
    }
}

/// The identifiers of rows.
pub open spec fn row_ids(rows: Seq<ScoredView>) -> Set<u64> {
    rows.map_values(|row: ScoredView| row.id).to_set()
}

proof fn lemma_ranking_distinct(docs: Seq<ScoredDoc>, ranked: Seq<ScoredDoc>)
    requires
        distinct_ids(docs),
        is_ranking_of(docs, ranked),
    ensures
        distinct_ids(ranked),
{
    assert(docs.no_duplicates()) by {
        assert forall|i: int, j: int| 0 <= i < docs.len() && 0 <= j < docs.len() && i
            != j implies docs[i] != docs[j] by {
            let (a, b) = if i < j {
                (i, j)
            } else {
                (j, i)
            };
            assert(docs[a].id != docs[b].id);
        }
    }
    assert(ranked.to_set() =~= docs.to_set()) by {
        assert forall|doc: ScoredDoc| ranked.to_set().contains(doc) <==> docs.to_set().contains(
            doc,
        ) by {
            law_ranking_keeps_results(docs, ranked, doc);
        }
    }
    docs.unique_seq_to_set();
    ranked.lemma_no_dup_set_cardinality();
    assert forall|i: int, j: int| 0 <= i < j < ranked.len() implies (#[trigger] ranked[i]).id != (
    #[trigger] ranked[j]).id by {
        assert(ranked.contains(ranked[i]) && ranked.contains(ranked[j]));
        law_ranking_keeps_results(docs, ranked, ranked[i]);
        law_ranking_keeps_results(docs, ranked, ranked[j]);
        let m = choose|m: int| 0 <= m < docs.len() && docs[m] == ranked[i];
        let n = choose|n: int| 0 <= n < docs.len() && docs[n] == ranked[j];
        if m < n {
            assert(docs[m].id != docs[n].id);
        } else if n < m {
            assert(docs[n].id != docs[m].id);
        }
    }
}

proof fn lemma_best_count(docs: Seq<ScoredDoc>)
    ensures
        best_per_id(docs).len() == row_ids(views_of(docs)).len(),
{
    let best = best_per_id(docs);
    let ids = best.map_values(|d: ScoredDoc| d.id);
    let rows = views_of(docs);
    law_best_per_id(docs);
    assert(ids.no_duplicates()) by {
        assert forall|i: int, j: int| 0 <= i < ids.len() && 0 <= j < ids.len() && i
            != j implies ids[i] != ids[j] by {
            let (a, b) = if i < j {
                (i, j)
            } else {
                (j, i)
            };
            assert(best[a].id != best[b].id);
        }
    }
    let of_rows = rows.map_values(|row: ScoredView| row.id);
    assert(ids.to_set() =~= of_rows.to_set()) by {
        assert forall|id: u64| ids.contains(id) implies of_rows.contains(id) by {
            let i = choose|i: int| 0 <= i < ids.len() && ids[i] == id;
            assert(docs.contains(best[i]));
            let m = choose|m: int| 0 <= m < docs.len() && docs[m] == best[i];
            assert(of_rows[m] == id);
        }
        assert forall|id: u64| of_rows.contains(id) implies ids.contains(id) by {
            let m = choose|m: int| 0 <= m < of_rows.len() && of_rows[m] == id;
            assert(docs[m].id == id);
            assert(position_of(best, docs[m].id) is Some);
            let i = choose|i: int| 0 <= i < best.len() && (#[trigger] best[i]).id == id;
            assert(ids[i] == id);
        }
    }
    ids.unique_seq_to_set();
}

/// An answer is in descending order of score and holds `k` results, or one for each
/// identifier where there are fewer. No identifier comes twice, and each result is the
/// row of its identifier that no other row of it exceeds in score. No row of an
/// identifier that was left out exceeds a result.
pub proof fn law_answer(rows: Seq<ScoredView>, k: int, answer: Seq<ScoredDoc>)
    requires
        k >= 0,
        forall|i: int| 0 <= i < rows.len() ==> !(#[trigger] rows[i]).score.nan(),
        is_answer_of(rows, k, answer),
    ensures
        answer.len() == (if k <= row_ids(rows).len() {
            k
        } else {
            row_ids(rows).len() as int
        }),
        descending(answer),
        distinct_ids(answer),
        forall|i: int| 0 <= i < answer.len() ==> rows.contains((#[trigger] answer[i])@),
        forall|i: int, m: int|
            0 <= i < answer.len() && 0 <= m < rows.len() && rows[m].id == answer[i].id ==> !(
            #[trigger] answer[i]).score.less((#[trigger] rows[m]).score),
        forall|i: int, m: int|
            0 <= i < answer.len() && 0 <= m < rows.len() && !id_set(answer).contains(rows[m].id)
                ==> !(#[trigger] answer[i]).score.less((#[trigger] rows[m]).score),
{
    let (docs, ranked) = choose|docs: Seq<ScoredDoc>, ranked: Seq<ScoredDoc>| #[trigger]
        is_ranking_of(best_per_id(docs), ranked) && views_of(docs) == rows && answer == top(
            ranked,
            k,
        );
    let best = best_per_id(docs);
    law_best_per_id(docs);
    lemma_best_count(docs);
    lemma_ranking_distinct(best, ranked);
    assert forall|i: int| 0 <= i < docs.len() implies (#[trigger] docs[i])@ == rows[i] by {
        assert(views_of(docs)[i] == docs[i]@);
    }
    assert(!has_nan(docs)) by {
        if has_nan(docs) {
            let i = choose|i: int| 0 <= i < docs.len() && (#[trigger] docs[i]).score.nan();
            assert(rows[i].score.nan());
        }
    }
    assert(!has_nan(best)) by {
        if has_nan(best) {
            let i = choose|i: int| 0 <= i < best.len() && (#[trigger] best[i]).score.nan();
            assert(docs.contains(best[i]));
        }
    }
    assert forall|i: int| 0 <= i < answer.len() implies rows.contains((#[trigger] answer[i])@) && (
    forall|m: int|
        0 <= m < rows.len() && rows[m].id == answer[i].id ==> !answer[i].score.less(
            (#[trigger] rows[m]).score,
        )) by {
        assert(answer[i] == ranked[i]);
        assert(ranked.contains(ranked[i]));
        law_ranking_keeps_results(best, ranked, ranked[i]);
        let b = choose|b: int| 0 <= b < best.len() && best[b] == ranked[i];
        assert(docs.contains(best[b]));
        let n = choose|n: int| 0 <= n < docs.len() && docs[n] == best[b];
        assert(docs[n]@ == rows[n]);
        assert forall|m: int|
            0 <= m < rows.len() && rows[m].id == answer[i].id implies !answer[i].score.less(
            (#[trigger] rows[m]).score,
        ) by {
            assert(docs[m]@ == rows[m]);
            assert(!best[b].score.less(docs[m].score));
        }
    }
    assert forall|i: int, m: int|
        0 <= i < answer.len() && 0 <= m < rows.len() && !id_set(answer).contains(
            rows[m].id,
        ) implies !(#[trigger] answer[i]).score.less((#[trigger] rows[m]).score) by {
        assert(docs[m]@ == rows[m]);
        assert(position_of(best, docs[m].id) is Some);
        let p = choose|p: int| 0 <= p < best.len() && (#[trigger] best[p]).id == docs[m].id;
        assert(best.contains(best[p]));
        law_ranking_keeps_results(best, ranked, best[p]);
        let q = choose|q: int| 0 <= q < ranked.len() && ranked[q] == best[p];
        if q < answer.len() {
            let ids = answer.map_values(|d: ScoredDoc| d.id);
            assert(answer[q] == ranked[q]);
            assert(ids[q] == rows[m].id);
        }
        assert(!ranked[i].score.less(ranked[q].score));
        assert(!best[p].score.less(docs[m].score));
        assert(!best[p].score.nan());
        assert(!docs[m].score.nan());
        assert(answer[i] == ranked[i]);
    }
    assert forall|i: int, j: int| 0 <= i < j < answer.len() implies !(
    #[trigger] answer[i]).score.less((#[trigger] answer[j]).score) && answer[i].id
        != answer[j].id by {
        assert(answer[i] == ranked[i] && answer[j] == ranked[j]);
    }
}

proof fn lemma_rank_rows_descend(
    batches: Seq<Batch>,
    similarities: Seq<Option<Vec<Scalar>>>,
)
    ensures
        ({
            let rows = all_results(batches, ScoreColumn::Rank, similarities);
            &&& forall|i: int| 0 <= i < rows.len() ==> !(#[trigger] rows[i]).score.nan()
            &&& forall|i: int, j: int|
                #![trigger rows[i], rows[j]]
                0 <= i < j < rows.len() ==> !rows[i].score.less(rows[j].score)
        }),
    decreases batches.len(),
{
    if batches.len() > 0 {
        let b = batches.len() - 1;
        let rest = all_results(batches.drop_last(), ScoreColumn::Rank, similarities);
        let last = batch_results(batches[b], b, ScoreColumn::Rank, similarities[b]);
        let rows = all_results(batches, ScoreColumn::Rank, similarities);
        lemma_rank_rows_descend(batches.drop_last(), similarities);
        assert(rows == rest + last);
        assert forall|i: int| 0 <= i < rows.len() implies !(#[trigger] rows[i]).score.nan() by {
            if i < rest.len() {
                assert(rows[i] == rest[i]);
            } else {
                assert(rows[i] == last[i - rest.len()]);
            }
        }
        assert forall|i: int, j: int| 0 <= i < j < rows.len() implies !(
        #[trigger] rows[i]).score.less((#[trigger] rows[j]).score) by {
            if j < rest.len() {
                assert(rows[i] == rest[i] && rows[j] == rest[j]);
            } else {
                let n = j - rest.len();
                assert(rows[j] == last[n]);
                if i >= rest.len() {
                    assert(rows[i] == last[i - rest.len()]);
                    law_rank_score_descends(row_rank(b, i - rest.len()), row_rank(b, n));
                } else {
                    assert(rows[i] == rest[i]);
                    assert(b > 0);
                    assert(row_rank(b, n) >= 20);
                    lemma_rank_rows_at_least(batches.drop_last(), similarities, i);
                }
            }
        }
    }
}

proof fn lemma_rank_rows_at_least(
    batches: Seq<Batch>,
    similarities: Seq<Option<Vec<Scalar>>>,
    i: int,
)
    requires
        0 <= i < all_results(batches, ScoreColumn::Rank, similarities).len(),
    ensures
        !all_results(batches, ScoreColumn::Rank, similarities)[i].score.less(rank_score(20)),
    decreases batches.len(),
{
    let b = batches.len() - 1;
    let rest = all_results(batches.drop_last(), ScoreColumn::Rank, similarities);
    let last = batch_results(batches[b], b, ScoreColumn::Rank, similarities[b]);
    let rows = all_results(batches, ScoreColumn::Rank, similarities);
    assert(rows == rest + last);
    if i < rest.len() {
        lemma_rank_rows_at_least(batches.drop_last(), similarities, i);
        assert(rows[i] == rest[i]);
    } else {
        assert(rows[i] == last[i - rest.len()]);
        let rank = row_rank(b, i - rest.len());
        if rank < 20 {
            law_rank_score_descends(rank, 20);
        }
    }
}

/// Scores by rank leave the order of an already fused answer alone: where no
/// identifier comes up twice, the answer is the first `k` rows.
pub proof fn law_rank_keeps_order(
    batches: Seq<Batch>,
    similarities: Seq<Option<Vec<Scalar>>>,
    k: int,
    answer: Seq<ScoredDoc>,
)
    requires
        k >= 0,
        ({
            let rows = all_results(batches, ScoreColumn::Rank, similarities);
            &&& is_answer_of(rows, k, answer)
            &&& forall|i: int, j: int|
                #![trigger rows[i], rows[j]]
                0 <= i < j < rows.len() ==> rows[i].id != rows[j].id
        }),
    ensures
        ({
            let rows = all_results(batches, ScoreColumn::Rank, similarities);
            views_of(answer) == rows.take(if k <= rows.len() {
                k
            } else {
                rows.len() as int
            })
        }),
{
    let rows = all_results(batches, ScoreColumn::Rank, similarities);
    let (docs, ranked) = choose|docs: Seq<ScoredDoc>, ranked: Seq<ScoredDoc>| #[trigger]
        is_ranking_of(best_per_id(docs), ranked) && views_of(docs) == rows && answer == top(
            ranked,
            k,
        );
    lemma_rank_rows_descend(batches, similarities);
    assert forall|i: int| 0 <= i < docs.len() implies (#[trigger] docs[i])@ == rows[i] by {
        assert(views_of(docs)[i] == docs[i]@);
    }
    assert(docs.len() == rows.len());
    assert(distinct_ids(docs)) by {
        assert forall|i: int, j: int| 0 <= i < j < docs.len() implies (#[trigger] docs[i]).id != (
        #[trigger] docs[j]).id by {
            assert(docs[i]@ == rows[i] && docs[j]@ == rows[j]);
            assert(rows[i].id != rows[j].id);
        }
    }
    law_best_of_distinct(docs);
    assert(!has_nan(docs)) by {
        if has_nan(docs) {
            let i = choose|i: int| 0 <= i < docs.len() && (#[trigger] docs[i]).score.nan();
            assert(docs[i]@ == rows[i]);
        }
    }
    assert(descending(docs)) by {
        assert forall|i: int, j: int| 0 <= i < j < docs.len() implies !(
        #[trigger] docs[i]).score.less((#[trigger] docs[j]).score) by {
            assert(docs[i]@ == rows[i] && docs[j]@ == rows[j]);
            assert(!rows[i].score.less(rows[j].score));
        }
    }
    law_descending_is_ranked(docs, ranked);
    assert(views_of(answer) =~= rows.take(if k <= rows.len() {
        k
    } else {
        rows.len() as int
    }));
}

/// Rows that were written can be read: they have no fault, and give back the
/// identifier and the text of each document in order.
pub proof fn law_written_rows_are_read(docs: Seq<EmbeddedDoc>, dim: usize, batch: Batch)
    requires
        batch_rows(batch) == docs.len(),
        batch_columns(batch) == map![
            "id"@ => Column::Unsigned(doc_ids(docs)),
            "text"@ => Column::Text(doc_texts(docs)),
            "embedding"@ => Column::Vector(cut(flat_embeddings(docs), column_size(dim))),
        ],
    ensures
        batch_fault(batch) is None,
        forall|b: int, scores: ScoreColumn, similarities: Option<Vec<Scalar>>, i: int|
            0 <= i < docs.len() ==> {
                let row = #[trigger] batch_results(batch, b, scores, similarities)[i];
                row.id == docs[i].id && row.text == docs[i].text@
            },
{
    reveal_strlit("id");
    reveal_strlit("text");
    reveal_strlit("embedding");
    assert("id"@.len() == 2 && "text"@.len() == 4 && "embedding"@.len() == 9);
}

/// What keeps the rows of a batch from being read back as documents.
pub open spec fn stored_fault(batch: Batch) -> Option<Seq<char>> {
    let columns = batch_columns(batch);
    if batch_fault(batch) is Some {
        batch_fault(batch)
    } else if !(columns.contains_key("embedding"@) && columns["embedding"@] is Vector) {
        Some("missing embedding column"@)
    } else {
        None
    }
}

/// The first such fault of a row of batches.
pub open spec fn first_stored_fault(batches: Seq<Batch>) -> Option<Seq<char>>
    decreases batches.len(),
{
    if batches.len() == 0 {
        None
    } else {
        match first_stored_fault(batches.drop_last()) {
            Some(fault) => Some(fault),
            None => stored_fault(batches.last()),
        }
    }
}

/// The documents that the rows of a batch are, in order.
pub open spec fn batch_docs(batch: Batch) -> Seq<EmbeddedView> {
    Seq::new(
        batch_rows(batch),
        |i: int|
            EmbeddedView {
                id: batch_columns(batch)["id"@]->Unsigned_0[i],
                text: batch_columns(batch)["text"@]->Text_0[i],
                embedding: batch_columns(batch)["embedding"@]->Vector_0[i],
                metadata: Map::empty(),
            },
    )
}

/// The documents that the rows of all batches are, in order.
pub open spec fn stored_docs(batches: Seq<Batch>) -> Seq<EmbeddedView>
    decreases batches.len(),
{
    if batches.len() == 0 {
        Seq::empty()
    } else {
        stored_docs(batches.drop_last()) + batch_docs(batches.last())
    }
}

/// Reads the documents of one batch.
fn read_stored(batch: &Batch) -> (r: Result<Vec<EmbeddedDoc>, TurboError>)
    ensures
        r is Ok <==> stored_fault(*batch) is None,
        r matches Ok(docs) ==> embedded_views(docs@) == batch_docs(*batch),
        r matches Err(e) ==> e is Store && Some(e.detail()) == stored_fault(*batch),
{
    let ids = match unsigned_column(batch, "id") {
        Some(ids) => ids,
        None => {
            return Err(TurboError::Store("missing id column".to_string()));
        },
    };
    let texts = match text_column(batch, "text") {
        Some(texts) => texts,
        None => {
            return Err(TurboError::Store("missing text column".to_string()));
        },
    };
    let vectors = match vector_column(batch, "embedding") {
        Some(vectors) => vectors,
        None => {
            return Err(TurboError::Store("missing embedding column".to_string()));
        },
    };
    let n: usize = row_count(batch);
    let mut docs: Vec<EmbeddedDoc> = Vec::new();
    let ghost rows = batch_docs(*batch);
    let mut i: usize = 0;
    while i < n
        invariant
            i <= n,
            n == batch_rows(*batch),
            ids@.len() == n,
            texts@.len() == n,
            vectors@.len() == n,
            batch_columns(*batch)["id"@] == Column::Unsigned(ids@),
            batch_columns(*batch)["text"@] == Column::Text(texts_of(texts@)),
            batch_columns(*batch)["embedding"@] == Column::Vector(vectors_of(vectors@)),
            rows == batch_docs(*batch),
            docs@.len() == i,
            forall|j: int| 0 <= j < i ==> (#[trigger] docs@[j])@ == rows[j],
        decreases n - i,
    {
        let embedding = vectors[i].clone();
        proof {
            assert(texts_of(texts@)[i as int] == texts@[i as int]@);
            assert(embedding@ =~= vectors@[i as int]@);
            assert(vectors_of(vectors@)[i as int] == vectors@[i as int]@);
        }
        docs.push(
            EmbeddedDoc { id: ids[i], text: texts[i].clone(), embedding, metadata: HashMap::new() },
        );
        i = i + 1;
    }
    proof {
        assert(embedded_views(docs@) =~= rows);
    }
    Ok(docs)
}

/// The documents that the rows of the table are, with their vectors.
pub fn read_documents(batches: &[Batch]) -> (r: Result<Vec<EmbeddedDoc>, TurboError>)
    ensures
        r is Ok <==> first_stored_fault(batches@) is None,
        r matches Ok(docs) ==> embedded_views(docs@) == stored_docs(batches@),
        r matches Err(e) ==> e is Store && Some(e.detail()) == first_stored_fault(batches@),
{
    let mut docs: Vec<EmbeddedDoc> = Vec::new();
    let mut b: usize = 0;
    proof {
        assert(batches@.take(0) =~= Seq::<Batch>::empty());
        assert(embedded_views(docs@) =~= Seq::<EmbeddedView>::empty());
    }
    while b < batches.len()
        invariant
            b <= batches@.len(),
            first_stored_fault(batches@.take(b as int)) is None,
            embedded_views(docs@) == stored_docs(batches@.take(b as int)),
        decreases batches@.len() - b,
    {
        proof {
            let now = batches@.take(b + 1);
            assert(now.drop_last() =~= batches@.take(b as int));
            assert(now.last() == batches@[b as int]);
        }
        match read_stored(&batches[b]) {
            Ok(mut rows) => {
                let ghost before = docs@;
                let ghost added = rows@;
                docs.append(&mut rows);
                proof {
                    assert(embedded_views(before + added) =~= embedded_views(before)
                        + embedded_views(added));
                }
            },
            Err(e) => {
                proof {
                    lemma_first_stored_fault_stays(batches@, b + 1);
                }
                return Err(e);
            },
        }
        b = b + 1;
    }
    proof {
        assert(batches@.take(batches@.len() as int) =~= batches@);
    }
    Ok(docs)
}

proof fn lemma_first_stored_fault_stays(batches: Seq<Batch>, n: int)
    requires
        0 <= n <= batches.len(),
        first_stored_fault(batches.take(n)) is Some,
    ensures
        first_stored_fault(batches) == first_stored_fault(batches.take(n)),
    decreases batches.len() - n,
{
    if n < batches.len() {
        assert(batches.take(n + 1).drop_last() =~= batches.take(n));
        lemma_first_stored_fault_stays(batches, n + 1);
    } else {
        assert(batches.take(n) =~= batches);
    }
}

/// Rows that were written are read back as the documents they came from: with the
/// same identifiers, texts and vectors, in the same order, though without metadata.
pub proof fn law_written_documents_are_read(docs: Seq<EmbeddedDoc>, dim: usize, batch: Batch)
    requires
        0 < dim <= i32::MAX,
        forall|i: int| 0 <= i < docs.len() ==> (#[trigger] docs[i]).embedding@.len() == dim,
        batch_rows(batch) == docs.len(),
        batch_columns(batch) == map![
            "id"@ => Column::Unsigned(doc_ids(docs)),
            "text"@ => Column::Text(doc_texts(docs)),
            "embedding"@ => Column::Vector(cut(flat_embeddings(docs), column_size(dim))),
        ],
    ensures
        stored_fault(batch) is None,
        batch_docs(batch) == Seq::new(
            docs.len(),
            |i: int| EmbeddedView { metadata: Map::empty(), ..docs[i]@ },
        ),
{
    law_written_rows_are_read(docs, dim, batch);
    law_rows_are_embeddings(docs, dim);
    reveal_strlit("id");
    reveal_strlit("text");
    reveal_strlit("embedding");
    assert("id"@.len() == 2 && "text"@.len() == 4 && "embedding"@.len() == 9);
    assert(batch_docs(batch) =~= Seq::new(
        docs.len(),
        |i: int| EmbeddedView { metadata: Map::empty(), ..docs[i]@ },
    ));
}

/// What the durable store is asked. Only rows that pass the filter count, where
/// there is one.
pub enum LanceQuery<'a> {
    /// The rows nearest to a vector.
    Nearest { vector: &'a [Scalar], limit: usize, filter: Option<&'a MetadataFilter> },
    /// The rows that match a text.
    FullText { text: &'a str, limit: usize, filter: Option<&'a MetadataFilter> },
    /// Both, fused by rank.
    Fused {
        text: &'a str,
        vector: &'a [Scalar],
        limit: usize,
        filter: Option<&'a MetadataFilter>,
    },
}

/// The filter of a request.
pub open spec fn filter_of<'a>(request: &'a SearchRequest<'_>) -> Option<&'a MetadataFilter> {
    match request.filter {
        Some(filter) => Some(&filter),
        None => None,
    }
}

/// What a request asks of the durable store, and where the scores of the answer
/// come from. Searches by text need one. A fused search goes by the request's
/// `fusion_constant`.
pub fn plan_search<'a>(request: &'a SearchRequest<'_>) -> (r: Result<
    (LanceQuery<'a>, ScoreColumn),
    TurboError,
>)
    ensures
        r is Ok <==> request.search_type == SearchType::Vector || request.query_text is Some,
        r matches Ok(plan) ==> match request.search_type {
            SearchType::Vector => plan.1 == ScoreColumn::Distance && plan.0 == (
            LanceQuery::Nearest {
                vector: request.query_embedding,
                limit: request.k,
                filter: filter_of(request),
            }),
            SearchType::Bm25 => plan.1 == ScoreColumn::Bm25 && plan.0 == (LanceQuery::FullText {
                text: request.query_text.unwrap(),
                limit: request.k,
                filter: filter_of(request),
            }),
            SearchType::Hybrid { .. } => plan.1 == ScoreColumn::Rank && plan.0 == (
            LanceQuery::Fused {
                text: request.query_text.unwrap(),
                vector: request.query_embedding,
                limit: request.k,
                filter: filter_of(request),
            }),
        },
        r matches Err(e) ==> e is Store && e.detail() == (if request.search_type
            == SearchType::Bm25 {
            "BM25 search requires query_text"@
        } else {
            "Hybrid search requires query_text"@
        }),
{
    let limit: usize = request.k;
    let filter = match &request.filter {
        Some(filter) => Some(filter),
        None => None,
    };
    let vector = request.query_embedding;
    match request.search_type {
        SearchType::Vector => Ok(
            (LanceQuery::Nearest { vector, limit, filter }, ScoreColumn::Distance),
        ),
        SearchType::Bm25 => match request.query_text {
            Some(text) => Ok((LanceQuery::FullText { text, limit, filter }, ScoreColumn::Bm25)),
            None => Err(TurboError::Store("BM25 search requires query_text".to_string())),
        },
        SearchType::Hybrid { .. } => match request.query_text {
            Some(text) => Ok(
                (LanceQuery::Fused { text, vector, limit, filter }, ScoreColumn::Rank),
            ),
            None => Err(TurboError::Store("Hybrid search requires query_text".to_string())),
        },
    }
}

/// The constant by which a request has the ranks of both searches fused, where it asks
/// for that.
pub fn fusion_constant(request: &SearchRequest<'_>) -> (r: Option<usize>)
    ensures
        r == (match request.search_type {
            SearchType::Hybrid { rrf_k } => Some(rrf_k),
            _ => None,
        }),
{
    match request.search_type {
        SearchType::Hybrid { rrf_k } => Some(rrf_k),
        _ => None,
    }
}

/// Whether a table of so many rows is to have an index on its vectors: smaller ones are
/// scanned.
pub fn wants_vector_index(rows: usize) -> (r: bool)
    ensures
        r == (rows > 10_000),
{
    rows > 10_000
}

/// A text as it stands inside the quotes of a condition: each quote doubled.
pub open spec fn quoted(text: Seq<char>) -> Seq<char>
    decreases text.len(),
{
    if text.len() == 0 {
        Seq::empty()
    } else if text.last() == '\'' {
        quoted(text.drop_last()).push('\'').push('\'')
    } else {
        quoted(text.drop_last()).push(text.last())
    }
}

/// The condition that picks the rows that pass a filter.
pub open spec fn filter_condition(filter: MetadataFilter) -> Seq<char> {
    filter.column@ + " = '"@ + quoted(filter.value@) + "'"@
}

/// The condition that picks the rows that pass a filter: those whose column has the
/// value.
pub fn filter_predicate(filter: &MetadataFilter) -> (predicate: String)
    ensures
        predicate@ == filter_condition(*filter),
        predicate@ == filter.column@ + " = '"@ + quoted(filter.value@) + "'"@,
{
    let chars = chars_of(filter.value.as_str());
    let mut value = String::new();
    let mut i: usize = 0;
    proof {
        assert(chars@.take(0) =~= Seq::<char>::empty());
        assert(value@ =~= Seq::<char>::empty());
    }
    while i < chars.len()
        invariant
            i <= chars@.len(),
            value@ == quoted(chars@.take(i as int)),
        decreases chars@.len() - i,
    {
        proof {
            let now = chars@.take(i + 1);
            assert(now.drop_last() =~= chars@.take(i as int));
            assert(now.last() == chars@[i as int]);
        }
        if chars[i] == '\'' {
            value.push('\'');
        }
        value.push(chars[i]);
        i = i + 1;
    }
    proof {
        assert(chars@.take(chars@.len() as int) =~= chars@);
    }
    let start = join2(filter.column.as_str(), " = '");
    join3(start.as_str(), value.as_str(), "'")
}

proof fn lemma_quoted_injective(a: Seq<char>, b: Seq<char>)
    requires
        quoted(a) == quoted(b),
    ensures
        a == b,
    decreases a.len() + b.len(),
{
    assert(a.len() > 0 ==> quoted(a).len() > 0);
    assert(b.len() > 0 ==> quoted(b).len() > 0);
    if a.len() == 0 || b.len() == 0 {
        assert(a =~= b);
    } else {
        let (qa, qb) = (quoted(a), quoted(b));
        assert(qa.last() == a.last() && qb.last() == b.last());
        if a.last() == '\'' {
            assert(qa.drop_last().drop_last() =~= quoted(a.drop_last()));
            assert(qb.drop_last().drop_last() =~= quoted(b.drop_last()));
        } else {
            assert(qa.drop_last() =~= quoted(a.drop_last()));
            assert(qb.drop_last() =~= quoted(b.drop_last()));
        }
        lemma_quoted_injective(a.drop_last(), b.drop_last());
        assert(a =~= a.drop_last().push(a.last()));
        assert(b =~= b.drop_last().push(b.last()));
    }
}

/// On one column, different values are picked by different conditions.
pub proof fn law_filter_condition_injective(a: MetadataFilter, b: MetadataFilter)
    requires
        a.column@ == b.column@,
        filter_condition(a) == filter_condition(b),
    ensures
        a.value@ == b.value@,
{
    let start = a.column@ + " = '"@;
    let n = start.len() as int;
    reveal_strlit("'");
    assert(filter_condition(a).skip(n).drop_last() =~= quoted(a.value@));
    assert(filter_condition(b).skip(n).drop_last() =~= quoted(b.value@));
    lemma_quoted_injective(a.value@, b.value@);
}

/// A table that gets the rows of an upsert has as many rows more as there were
/// documents, also where their identifiers are there already: the rows that it had
/// stay, and those of the documents follow.
pub proof fn law_upsert_appends(
    table: Seq<Batch>,
    docs: Seq<EmbeddedDoc>,
    dim: usize,
    batch: Batch,
)
    requires
        0 < dim <= i32::MAX,
        forall|i: int| 0 <= i < docs.len() ==> (#[trigger] docs[i]).embedding@.len() == dim,
        batch_rows(batch) == docs.len(),
        batch_columns(batch) == map![
            "id"@ => Column::Unsigned(doc_ids(docs)),
            "text"@ => Column::Text(doc_texts(docs)),
            "embedding"@ => Column::Vector(cut(flat_embeddings(docs), column_size(dim))),
        ],
    ensures
        stored_docs(table.push(batch)).len() == stored_docs(table).len() + docs.len(),
        stored_docs(table.push(batch)) == stored_docs(table) + Seq::new(
            docs.len(),
            |i: int| EmbeddedView { metadata: Map::empty(), ..docs[i]@ },
        ),
{
    law_written_documents_are_read(docs, dim, batch);
    assert(table.push(batch).drop_last() =~= table);
}

impl LanceDbStore {
    /// The rows that an upsert adds: none, with nothing to be done, where there
    /// are no documents.
    pub fn upsert_rows(&self, docs: &[EmbeddedDoc]) -> (r: Result<Option<Batch>, TurboError>)
        requires
            doc_text_bytes(docs@) <= i32::MAX,
        ensures
            docs@.len() == 0 ==> r == Ok::<Option<Batch>, TurboError>(None),
            docs@.len() > 0 ==> (r is Ok <==> vectors_fit(docs@, column_size(self.dim))),
            r matches Err(e) ==> e is Store,
            docs@.len() > 0 ==> (r matches Ok(batch) ==> {
                &&& batch is Some
                &&& batch_rows(batch.unwrap()) == docs@.len()
                &&& batch_columns(batch.unwrap()) == map![
                    "id"@ => Column::Unsigned(doc_ids(docs@)),
                    "text"@ => Column::Text(doc_texts(docs@)),
                    "embedding"@ => Column::Vector(
                        cut(flat_embeddings(docs@), column_size(self.dim)),
                    ),
                ]
            }),
    {
        if docs.len() == 0 {
            return Ok(None);
        }
        match self.make_batch(docs) {
            Ok(batch) => Ok(Some(batch)),
            Err(e) => Err(e),
        }
    }
}

/// The condition that picks the rows of one identifier.
pub fn id_predicate(id: u64) -> (predicate: String)
    ensures
        predicate@ == "id = "@ + decimal(id as nat),
{
    join2("id = ", print_unsigned(id).as_str())
}

/// Different identifiers are picked by different conditions.
pub proof fn law_id_predicate_injective(a: u64, b: u64)
    requires
        "id = "@ + decimal(a as nat) == "id = "@ + decimal(b as nat),
    ensures
        a == b,
{
    let prefix = "id = "@;
    let n = prefix.len() as int;
    assert((prefix + decimal(a as nat)).skip(n) =~= decimal(a as nat));
    assert((prefix + decimal(b as nat)).skip(n) =~= decimal(b as nat));
    law_decimal_injective(a as nat, b as nat);
}

/// What a row of a batch says: its own identifier and text, whole. In a search by vector
/// a batch with distances gives every row exactly the similarity that stands for its
/// distance, whatever its place, and in a search by text a batch with relevances exactly
/// its relevance. Only where there is no such column the place decides.
pub proof fn law_row_has_its_own_score(
    batch: Batch,
    b: int,
    scores: ScoreColumn,
    similarities: Option<Vec<Scalar>>,
    i: int,
)
    requires
        0 <= i < batch_rows(batch),
    ensures
        batch_results(batch, b, scores, similarities).len() == batch_rows(batch),
        ({
            let row = batch_results(batch, b, scores, similarities)[i];
            let columns = batch_columns(batch);
            &&& columns["id"@] matches Column::Unsigned(ids) ==> row.id == ids[i]
            &&& columns["text"@] matches Column::Text(texts) ==> row.text == texts[i]
            &&& row.source == SearchSource::LanceDb
            &&& row.metadata == Map::<String, String>::empty()
            &&& scores == ScoreColumn::Distance ==> (similarities matches Some(given) ==> row.score
                == given@[i])
            &&& scores == ScoreColumn::Bm25 && columns.contains_key("_score"@) ==> (
            columns["_score"@] matches Column::Number(given) ==> row.score == given[i])
            &&& scores == ScoreColumn::Distance && similarities is None ==> row.score
                == rank_score(b * 1024 + i)
            &&& scores == ScoreColumn::Bm25 && !(columns.contains_key("_score"@)
                && columns["_score"@] is Number) ==> row.score == rank_score(b * 1024 + i)
            &&& scores == ScoreColumn::Rank ==> row.score == rank_score(b * 1024 + i)
        }),
{
}

/// The rows before a batch.
pub open spec fn rows_before(batches: Seq<Batch>, b: int) -> int
    decreases b,
{
    if b <= 0 {
        0
    } else {
        rows_before(batches, b - 1) + batch_rows(batches[b - 1])
    }
}

proof fn lemma_rows_before_prefix(batches: Seq<Batch>, b: int)
    requires
        0 <= b < batches.len(),
    ensures
        rows_before(batches.drop_last(), b) == rows_before(batches, b),
        rows_before(batches, b) >= 0,
    decreases b,
{
    if b > 0 {
        lemma_rows_before_prefix(batches, b - 1);
        assert(batches.drop_last()[b - 1] == batches[b - 1]);
    }
}

/// Every row of every batch counts, in order, and nothing else: there are as many
/// results as rows, and row `i` of batch `b` is the one that has all rows before it.
pub proof fn law_every_row_counts(
    batches: Seq<Batch>,
    scores: ScoreColumn,
    similarities: Seq<Option<Vec<Scalar>>>,
    b: int,
    i: int,
)
    requires
        0 <= b < batches.len(),
        0 <= i < batch_rows(batches[b]),
    ensures
        all_results(batches, scores, similarities).len() == rows_before(
            batches,
            batches.len() as int,
        ),
        0 <= rows_before(batches, b) + i < all_results(batches, scores, similarities).len(),
        all_results(batches, scores, similarities)[rows_before(batches, b) + i] == batch_results(
            batches[b],
            b,
            scores,
            similarities[b],
        )[i],
    decreases batches.len(),
{
    let last = batches.len() - 1;
    let rest = batches.drop_last();
    lemma_rows_before_prefix(batches, last);
    lemma_rows_before_prefix(batches, b);
    lemma_result_count(rest, scores, similarities);
    if b < last {
        assert(rest[b] == batches[b]);
        law_every_row_counts(rest, scores, similarities, b, i);
    }
}

proof fn lemma_result_count(
    batches: Seq<Batch>,
    scores: ScoreColumn,
    similarities: Seq<Option<Vec<Scalar>>>,
)
    ensures
        all_results(batches, scores, similarities).len() == rows_before(
            batches,
            batches.len() as int,
        ),
    decreases batches.len(),
{
    if batches.len() > 0 {
        lemma_result_count(batches.drop_last(), scores, similarities);
        lemma_rows_before_prefix(batches, batches.len() - 1);
    }
}

/// Every result of an answer is a row of a batch.
pub proof fn law_every_result_is_a_row(
    batches: Seq<Batch>,
    scores: ScoreColumn,
    similarities: Seq<Option<Vec<Scalar>>>,
    m: int,
) -> (place: (int, int))
    requires
        0 <= m < all_results(batches, scores, similarities).len(),
    ensures
        0 <= place.0 < batches.len(),
        0 <= place.1 < batch_rows(batches[place.0]),
        all_results(batches, scores, similarities)[m] == batch_results(
            batches[place.0],
            place.0,
            scores,
            similarities[place.0],
        )[place.1],
    decreases batches.len(),
{
    let last = batches.len() - 1;
    let rest = batches.drop_last();
    let before = all_results(rest, scores, similarities);
    if m < before.len() {
        let place = law_every_result_is_a_row(rest, scores, similarities, m);
        assert(rest[place.0] == batches[place.0]);
        place
    } else {
        (last, m - before.len())
    }
}

/// Whether `given` holds the score of each row: in a search by vector the similarity that
/// stands for its distance, in a search by text its relevance.
pub open spec fn scores_given(
    batches: Seq<Batch>,
    scores: ScoreColumn,
    similarities: Seq<Option<Vec<Scalar>>>,
    given: spec_fn(int, int) -> Scalar,
) -> bool {
    forall|b: int, i: int|
        0 <= b < batches.len() && 0 <= i < batch_rows(batches[b]) ==> !(#[trigger] given(b, i)).nan()
            && match scores {
            ScoreColumn::Distance => similarities[b] matches Some(v) && v@[i] == given(b, i),
            ScoreColumn::Bm25 => batch_columns(batches[b]).contains_key("_score"@) && (
            batch_columns(batches[b])["_score"@] matches Column::Number(v) && v[i] == given(b, i)),
            ScoreColumn::Rank => false,
        }
}

/// The identifier of row `i` of batch `b`.
pub open spec fn id_at(batches: Seq<Batch>, b: int, i: int) -> u64 {
    batch_columns(batches[b])["id"@]->Unsigned_0[i]
}

/// Whether a result is what row `i` of batch `b` says, with the score given for it.
pub open spec fn is_row(
    batches: Seq<Batch>,
    given: spec_fn(int, int) -> Scalar,
    doc: ScoredDoc,
    b: int,
    i: int,
) -> bool {
    &&& 0 <= b < batches.len()
    &&& 0 <= i < batch_rows(batches[b])
    &&& doc.score == given(b, i)
    &&& doc.id == id_at(batches, b, i)
    &&& doc.text@ == batch_columns(batches[b])["text"@]->Text_0[i]
}

/// Whether a result is what some row says, with the score given for it.
pub open spec fn is_some_row(
    batches: Seq<Batch>,
    given: spec_fn(int, int) -> Scalar,
    doc: ScoredDoc,
) -> bool {
    exists|b: int, i: int| #[trigger] is_row(batches, given, doc, b, i)
}

/// Whether row `i` of batch `b` is answered by a result of its identifier that it does
/// not exceed; or else there are `k` results, of which it exceeds none.
pub open spec fn is_answered(
    batches: Seq<Batch>,
    given: spec_fn(int, int) -> Scalar,
    k: int,
    answer: Seq<ScoredDoc>,
    b: int,
    i: int,
) -> bool {
    ||| exists|m: int|
        0 <= m < answer.len() && (#[trigger] answer[m]).id == id_at(batches, b, i)
            && !answer[m].score.less(given(b, i))
    ||| answer.len() == k && forall|m: int|
        0 <= m < answer.len() ==> !(#[trigger] answer[m]).score.less(given(b, i))
}

/// What an answer to a search by vector or by text is, in terms of the rows of the
/// table and the scores given for them. Each result has the identifier and the text of
/// a row, and that row's score. No result stands before one of a greater score. A row is
/// answered by a result of its identifier that it does not exceed; or else its
/// identifier was cut off, there are `k` results, and the row exceeds none of them.
pub proof fn law_answer_in_terms_of_rows(
    batches: Seq<Batch>,
    scores: ScoreColumn,
    similarities: Seq<Option<Vec<Scalar>>>,
    given: spec_fn(int, int) -> Scalar,
    k: int,
    answer: Seq<ScoredDoc>,
)
    requires
        k >= 0,
        scores_given(batches, scores, similarities, given),
        first_fault(batches) is None,
        is_answer_of(all_results(batches, scores, similarities), k, answer),
    ensures
        answer.len() <= k,
        forall|m: int|
            0 <= m < answer.len() ==> is_some_row(batches, given, #[trigger] answer[m]),
        forall|m: int, n: int|
            #![trigger answer[m], answer[n]]
            0 <= m < n < answer.len() ==> !answer[m].score.less(answer[n].score) && answer[m].id
                != answer[n].id,
        forall|b: int, i: int|
            0 <= b < batches.len() && 0 <= i < batch_rows(batches[b]) ==> #[trigger] is_answered(
                batches,
                given,
                k,
                answer,
                b,
                i,
            ),
{
    let rows = all_results(batches, scores, similarities);
    law_readable_batches(batches);
    assert forall|r: int| 0 <= r < rows.len() implies !(#[trigger] rows[r]).score.nan() by {
        let place = law_every_result_is_a_row(batches, scores, similarities, r);
        law_row_has_its_own_score(
            batches[place.0],
            place.0,
            scores,
            similarities[place.0],
            place.1,
        );
        assert(!given(place.0, place.1).nan());
    }
    law_answer(rows, k, answer);
    assert forall|m: int| 0 <= m < answer.len() implies is_some_row(
        batches,
        given,
        #[trigger] answer[m],
    ) by {
        assert(rows.contains(answer[m]@));
        let r = choose|r: int| 0 <= r < rows.len() && rows[r] == answer[m]@;
        let place = law_every_result_is_a_row(batches, scores, similarities, r);
        law_row_has_its_own_score(
            batches[place.0],
            place.0,
            scores,
            similarities[place.0],
            place.1,
        );
        assert(searchable(batches[place.0]));
        assert(answer[m]@.score == given(place.0, place.1));
        assert(answer[m]@.text == answer[m].text@);
        assert(is_row(batches, given, answer[m], place.0, place.1));
    }
    assert forall|b: int, i: int|
        0 <= b < batches.len() && 0 <= i < batch_rows(batches[b]) implies #[trigger] is_answered(
        batches,
        given,
        k,
        answer,
        b,
        i,
    ) by {
        law_every_row_counts(batches, scores, similarities, b, i);
        law_row_has_its_own_score(batches[b], b, scores, similarities[b], i);
        assert(searchable(batches[b]));
        let r = rows_before(batches, b) + i;
        assert(!given(b, i).nan());
        assert(rows[r].score == given(b, i));
        assert(rows[r].id == id_at(batches, b, i));
        let ids = answer.map_values(|d: ScoredDoc| d.id);
        if id_set(answer).contains(rows[r].id) {
            let m = choose|m: int| 0 <= m < ids.len() && ids[m] == rows[r].id;
            assert(answer[m].id == rows[r].id);
            assert(!answer[m].score.less(rows[r].score));
        } else {
            assert(answer.len() == k) by {
                if answer.len() < k {
                    lemma_all_ids_kept(rows, answer);
                    let of_rows = rows.map_values(|row: ScoredView| row.id);
                    assert(of_rows[r] == rows[r].id);
                    assert(row_ids(rows).contains(rows[r].id));
                }
            }
            assert forall|m: int| 0 <= m < answer.len() implies !(#[trigger] answer[m]).score.less(
                given(b, i),
            ) by {
                assert(!answer[m].score.less(rows[r].score));
            }
        }
    }
}

proof fn lemma_all_ids_kept(rows: Seq<ScoredView>, answer: Seq<ScoredDoc>)
    requires
        answer.len() == row_ids(rows).len(),
        distinct_ids(answer),
        forall|i: int| 0 <= i < answer.len() ==> rows.contains((#[trigger] answer[i])@),
    ensures
        row_ids(rows).subset_of(id_set(answer)),
{
    let ids = answer.map_values(|d: ScoredDoc| d.id);
    let of_rows = rows.map_values(|row: ScoredView| row.id);
    assert(ids.no_duplicates()) by {
        assert forall|i: int, j: int| 0 <= i < ids.len() && 0 <= j < ids.len() && i
            != j implies ids[i] != ids[j] by {
            let (a, b) = if i < j {
                (i, j)
            } else {
                (j, i)
            };
            assert(answer[a].id != answer[b].id);
        }
    }
    ids.unique_seq_to_set();
    assert(ids.to_set().subset_of(of_rows.to_set())) by {
        assert forall|id: u64| ids.to_set().contains(id) implies of_rows.to_set().contains(id) by {
            let i = choose|i: int| 0 <= i < ids.len() && ids[i] == id;
            assert(rows.contains(answer[i]@));
            let r = choose|r: int| 0 <= r < rows.len() && rows[r] == answer[i]@;
            assert(of_rows[r] == id);
        }
    }
    vstd::seq_lib::seq_to_set_is_finite(of_rows);
    vstd::seq_lib::seq_to_set_is_finite(ids);
    vstd::set_lib::lemma_subset_equality(ids.to_set(), of_rows.to_set());
}

/// Whether a batch has the columns that a search needs.
pub open spec fn searchable(batch: Batch) -> bool {
    &&& batch_columns(batch).contains_key("id"@)
    &&& batch_columns(batch)["id"@] is Unsigned
    &&& batch_columns(batch).contains_key("text"@)
    &&& batch_columns(batch)["text"@] is Text
}

/// An answer can be read exactly where every batch has its identifiers and its texts;
/// otherwise the first that lacks a column is to blame, for its identifiers first.
pub proof fn law_readable_batches(batches: Seq<Batch>)
    ensures
        first_fault(batches) is None <==> forall|b: int|
            0 <= b < batches.len() ==> searchable(#[trigger] batches[b]),
        forall|b: int|
            0 <= b < batches.len() && !searchable(#[trigger] batches[b]) && (forall|c: int|
                0 <= c < b ==> searchable(#[trigger] batches[c])) ==> first_fault(batches) == Some(
                if batch_columns(batches[b]).contains_key("id"@) && batch_columns(
                    batches[b],
                )["id"@] is Unsigned {
                    "missing text column"@
                } else {
                    "missing id column"@
                },
            ),
    decreases batches.len(),
{
    if batches.len() > 0 {
        let rest = batches.drop_last();
        let last = batches.len() - 1;
        law_readable_batches(rest);
        assert(forall|b: int| 0 <= b < rest.len() ==> #[trigger] rest[b] == batches[b]);
        if first_fault(rest) is None {
            assert forall|b: int| 0 <= b < last implies searchable(#[trigger] batches[b]) by {
                assert(rest[b] == batches[b]);
            }
        } else {
            let b = choose|b: int| 0 <= b < rest.len() && !searchable(#[trigger] rest[b]);
            assert(!searchable(batches[b]));
        }
        assert forall|b: int|
            0 <= b < batches.len() && !searchable(#[trigger] batches[b]) && (forall|c: int|
                0 <= c < b ==> searchable(#[trigger] batches[c])) implies first_fault(batches)
            == Some(
            if batch_columns(batches[b]).contains_key("id"@) && batch_columns(
                batches[b],
            )["id"@] is Unsigned {
                "missing text column"@
            } else {
                "missing id column"@
            },
        ) by {
            if b < last {
                assert(rest[b] == batches[b]);
                assert forall|c: int| 0 <= c < b implies searchable(#[trigger] rest[c]) by {
                    assert(rest[c] == batches[c]);
                }
            }
        }
    }
}

/// Every row of the table is read back as a document of its own, in order: with the
/// identifier, the text and the vector that the row has, and nothing else comes up.
pub proof fn law_every_stored_row_is_read(batches: Seq<Batch>, b: int, i: int)
    requires
        0 <= b < batches.len(),
        0 <= i < batch_rows(batches[b]),
    ensures
        stored_docs(batches).len() == rows_before(batches, batches.len() as int),
        ({
            let place = rows_before(batches, b) + i;
            let columns = batch_columns(batches[b]);
            &&& 0 <= place < stored_docs(batches).len()
            &&& columns["id"@] matches Column::Unsigned(v) ==> stored_docs(batches)[place].id
                == v[i]
            &&& columns["text"@] matches Column::Text(v) ==> stored_docs(batches)[place].text
                == v[i]
            &&& columns["embedding"@] matches Column::Vector(v) ==> stored_docs(
                batches,
            )[place].embedding == v[i]
            &&& stored_docs(batches)[place].metadata == Map::<String, String>::empty()
        }),
    decreases batches.len(),
{
    let last = batches.len() - 1;
    let rest = batches.drop_last();
    lemma_rows_before_prefix(batches, last);
    lemma_rows_before_prefix(batches, b);
    lemma_stored_count(rest);
    if b < last {
        assert(rest[b] == batches[b]);
        law_every_stored_row_is_read(rest, b, i);
        let place = rows_before(batches, b) + i;
        assert(stored_docs(batches)[place] == stored_docs(rest)[place]);
    }
}

proof fn lemma_stored_count(batches: Seq<Batch>)
    ensures
        stored_docs(batches).len() == rows_before(batches, batches.len() as int),
    decreases batches.len(),
{
    if batches.len() > 0 {
        lemma_stored_count(batches.drop_last());
        lemma_rows_before_prefix(batches, batches.len() - 1);
    }
}

/// The filter of a request is handed on as it is, and none is made up.
pub proof fn law_filter_is_handed_on(request: &SearchRequest<'_>)
    ensures
        request.filter is None <==> filter_of(request) is None,
        request.filter matches Some(filter) ==> (filter_of(request) matches Some(handed_on)
            && handed_on.column@ == filter.column@ && handed_on.value@ == filter.value@),
{
}

/// A value without quotes stands in a condition as it is; two values one after the other
/// stand there as each does; and a quote is doubled.
pub proof fn law_quoted(a: Seq<char>, b: Seq<char>)
    ensures
        (forall|i: int| 0 <= i < a.len() ==> #[trigger] a[i] != '\'') ==> quoted(a) == a,
        quoted(a + b) == quoted(a) + quoted(b),
        quoted(seq!['\'']) == seq!['\'', '\''],
    decreases a.len() + b.len(),
{
    if b.len() == 0 {
        assert(a + b =~= a);
        assert(quoted(a) + quoted(b) =~= quoted(a));
    } else {
        law_quoted(a, b.drop_last());
        assert((a + b).drop_last() =~= a + b.drop_last());
        assert((a + b).last() == b.last());
        assert(quoted(a + b) =~= quoted(a) + quoted(b));
    }
    if a.len() > 0 && (forall|i: int| 0 <= i < a.len() ==> #[trigger] a[i] != '\'') {
        let rest = a.drop_last();
        assert forall|i: int| 0 <= i < rest.len() implies #[trigger] rest[i] != '\'' by {
            assert(rest[i] == a[i]);
        }
        law_quoted(rest, Seq::empty());
        assert(a[a.len() - 1] != '\'');
        assert(rest.push(a.last()) =~= a);
    } else if a.len() == 0 {
        assert(a =~= Seq::<char>::empty());
    }
    let quote = seq!['\''];
    assert(quote.drop_last() =~= Seq::<char>::empty());
    assert(quoted(quote.drop_last()) =~= Seq::<char>::empty());
    assert(quote.last() == '\'');
    assert(quoted(quote) =~= seq!['\'', '\'']);
}

/// Documents whose vectors all have one length make rows exactly where that is the length
/// of the column: a batch of shorter or longer vectors is refused.
pub proof fn law_other_lengths_are_refused(docs: Seq<EmbeddedDoc>, length: nat, dim: usize)
    requires
        0 < dim <= i32::MAX,
        docs.len() > 0,
        forall|i: int| 0 <= i < docs.len() ==> (#[trigger] docs[i]).embedding@.len() == length,
    ensures
        vectors_fit(docs, column_size(dim)) <==> length == dim,
{
    let size = column_size(dim) as int;
    let flat = flat_embeddings(docs);
    lemma_flat_len(docs, length);
    if length == dim {
        law_rows_are_embeddings(docs, dim);
    } else if vectors_fit(docs, column_size(dim)) {
        vstd::arithmetic::div_mod::lemma_fundamental_div_mod(flat.len() as int, size);
        assert(flat.len() == size * docs.len());
        assert(length == size) by (nonlinear_arith)
            requires
                docs.len() * length == size * docs.len(),
                docs.len() > 0,
        ;
    }
}

/// The vectors of documents are laid end to end, none cut and none left out: together they
/// are as many numbers as all of them have, and those of the first documents come first.
pub proof fn law_vectors_end_to_end(first: Seq<EmbeddedDoc>, second: Seq<EmbeddedDoc>)
    ensures
        flat_embeddings(first + second) == flat_embeddings(first) + flat_embeddings(second),
        first.len() == 1 ==> flat_embeddings(first) == first[0].embedding@,
    decreases second.len(),
{
    if first.len() == 1 {
        assert(flat_embeddings(first.drop_last()) =~= Seq::<Scalar>::empty());
        assert(flat_embeddings(first) == flat_embeddings(first.drop_last())
            + first[0].embedding@);
        assert(flat_embeddings(first) =~= first[0].embedding@);
    }
    if second.len() == 0 {
        assert(first + second =~= first);
        assert(flat_embeddings(first) + flat_embeddings(second) =~= flat_embeddings(first));
    } else {
        let rest = second.drop_last();
        law_vectors_end_to_end(first, rest);
        assert((first + second).drop_last() =~= first + rest);
        assert((first + second).last() == second.last());
        assert(flat_embeddings(first + second) =~= flat_embeddings(first) + flat_embeddings(
            second,
        ));
    }
}

/// A score between a hundredth and one, counted in parts of which 2 to the power of 30 make
/// one: the pattern's last 23 bits are the fraction, and those before them the exponent.
pub open spec fn small_parts(score: Scalar) -> int {
    let fraction = 0x80_0000 + score.bits as int % 0x80_0000;
    let exponent = score.bits as int / 0x80_0000;
    if exponent == 127 {
        fraction * 128
    } else if exponent == 126 {
        fraction * 64
    } else if exponent == 125 {
        fraction * 32
    } else if exponent == 124 {
        fraction * 16
    } else if exponent == 123 {
        fraction * 8
    } else if exponent == 122 {
        fraction * 4
    } else if exponent == 121 {
        fraction * 2
    } else {
        fraction
    }
}

/// The score of a rank is 1 less a twentieth per rank, up to what rounding takes away, and
/// from the rank on at which nothing would be left it is a hundredth.
pub proof fn law_rank_score_goes_by_twentieths(rank: int)
    requires
        0 <= rank,
    ensures
        rank < 20 ==> -2560 <= 20 * small_parts(rank_score(rank)) - (20 - rank) * 0x4000_0000
            <= 2560,
        rank >= 20 ==> -12800 <= 100 * small_parts(rank_score(rank)) - 0x4000_0000 <= 12800,
{
    let at = if rank < 20 {
        rank
    } else {
        20
    };
    assert(rank_score(rank).bits == rank_bits()[at]);
}

/// Whether a batch has the columns that documents are made of.
pub open spec fn restorable(batch: Batch) -> bool {
    &&& searchable(batch)
    &&& batch_columns(batch).contains_key("embedding"@)
    &&& batch_columns(batch)["embedding"@] is Vector
}

/// The table can be read back exactly where every batch has its identifiers, its texts and
/// its vectors; otherwise the first that lacks a column is to blame, for its identifiers
/// first and its vectors last.
pub proof fn law_restorable_batches(batches: Seq<Batch>)
    ensures
        first_stored_fault(batches) is None <==> forall|b: int|
            0 <= b < batches.len() ==> restorable(#[trigger] batches[b]),
        forall|b: int|
            0 <= b < batches.len() && !restorable(#[trigger] batches[b]) && (forall|c: int|
                0 <= c < b ==> restorable(#[trigger] batches[c])) ==> {
                let columns = batch_columns(batches[b]);
                first_stored_fault(batches) == Some(
                    if !(columns.contains_key("id"@) && columns["id"@] is Unsigned) {
                        "missing id column"@
                    } else if !(columns.contains_key("text"@) && columns["text"@] is Text) {
                        "missing text column"@
                    } else {
                        "missing embedding column"@
                    },
                )
            },
    decreases batches.len(),
{
    if batches.len() > 0 {
        let rest = batches.drop_last();
        let last = batches.len() - 1;
        law_restorable_batches(rest);
        assert(forall|b: int| 0 <= b < rest.len() ==> #[trigger] rest[b] == batches[b]);
        if first_stored_fault(rest) is None {
            assert forall|b: int| 0 <= b < last implies restorable(#[trigger] batches[b]) by {
                assert(rest[b] == batches[b]);
            }
        } else {
            let b = choose|b: int| 0 <= b < rest.len() && !restorable(#[trigger] rest[b]);
            assert(!restorable(batches[b]));
        }
        assert forall|b: int|
            0 <= b < batches.len() && !restorable(#[trigger] batches[b]) && (forall|c: int|
                0 <= c < b ==> restorable(#[trigger] batches[c])) implies {
            let columns = batch_columns(batches[b]);
            first_stored_fault(batches) == Some(
                if !(columns.contains_key("id"@) && columns["id"@] is Unsigned) {
                    "missing id column"@
                } else if !(columns.contains_key("text"@) && columns["text"@] is Text) {
                    "missing text column"@
                } else {
                    "missing embedding column"@
                },
            )
        } by {
            if b < last {
                assert(rest[b] == batches[b]);
                assert forall|c: int| 0 <= c < b implies restorable(#[trigger] rest[c]) by {
                    assert(rest[c] == batches[c]);
                }
            }
        }
    }
}

} // verus!
