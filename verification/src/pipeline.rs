//! Taking documents in: trimming, batching, and storing batch by batch.

use crate::columnar::{texts_of, vectors_of};
use crate::compression::{compression_ratio, Ratio};
use crate::document::{embedded_views, Document, DocumentView, EmbeddedDoc, EmbeddedView};
use crate::error::TurboError;
use crate::scalar::Scalar;
use crate::text::{law_trim, law_trim_cuts_white_space_only, trim, trimmed, white};
use vstd::prelude::*;

verus! {

/// How documents are taken in.
#[derive(Debug, Clone, Copy, PartialEq, Eq, Structural)]
pub struct IngestionPipeline {
    pub batch_size: usize,
    /// How many embedding requests may be in flight at once.
    pub concurrency: usize,
    pub bits: usize,
}

/// What taking documents in came to.
#[derive(Debug, Clone, Copy, PartialEq, Eq, Structural)]
pub struct PipelineStats {
    pub total_docs: usize,
    pub original_bytes: usize,
    pub compression_ratio: Ratio,
}

/// A document ready to be embedded: its text is trimmed.
pub open spec fn prepared(doc: DocumentView) -> DocumentView {
    DocumentView { id: doc.id, text: trimmed(doc.text), metadata: doc.metadata }
}

/// What documents say.
pub open spec fn doc_views(docs: Seq<Document>) -> Seq<DocumentView> {
    docs.map_values(|d: Document| d@)
}

/// Documents ready to be embedded.
pub open spec fn prepared_views(docs: Seq<Document>) -> Seq<DocumentView> {
    docs.map_values(|d: Document| prepared(d@))
}

/// What batches of documents say.
pub open spec fn batch_views(batches: Seq<Vec<Document>>) -> Seq<Seq<DocumentView>> {
    batches.map_values(|b: Vec<Document>| doc_views(b@))
}

/// A list cut into pieces of `size`, the last of which may be shorter.
pub open spec fn chunked(docs: Seq<DocumentView>, size: nat) -> Seq<Seq<DocumentView>>
    decreases docs.len(),
{
    if docs.len() == 0 || size == 0 {
        Seq::empty()
    } else if docs.len() <= size {
        seq![docs]
    } else {
        seq![docs.take(size as int)] + chunked(docs.skip(size as int), size)
    }
}

/// Pieces put together again.
pub open spec fn joined(pieces: Seq<Seq<DocumentView>>) -> Seq<DocumentView>
    decreases pieces.len(),
{
    if pieces.len() == 0 {
        Seq::empty()
    } else {
        pieces[0] + joined(pieces.drop_first())
    }
}

/// Cutting a list loses nothing and keeps the order; every piece holds between 1
/// and `size` documents, and every piece but the last exactly `size`.
pub proof fn law_chunks(docs: Seq<DocumentView>, size: nat)
    requires
        size > 0,
    ensures
        joined(chunked(docs, size)) == docs,
        forall|i: int|
            0 <= i < chunked(docs, size).len() ==> 1 <= (#[trigger] chunked(docs, size)[i]).len()
                <= size,
        forall|i: int|
            0 <= i < chunked(docs, size).len() - 1 ==> (#[trigger] chunked(docs, size)[i]).len()
                == size,
    decreases docs.len(),
{
    let pieces = chunked(docs, size);
    if docs.len() == 0 {
    } else if docs.len() <= size {
        assert(pieces.drop_first() =~= Seq::<Seq<DocumentView>>::empty());
        assert(joined(pieces.drop_first()) =~= Seq::<DocumentView>::empty());
        assert(joined(pieces) =~= docs);
    } else {
        let rest = docs.skip(size as int);
        law_chunks(rest, size);
        let tail = chunked(rest, size);
        assert(pieces.drop_first() =~= tail);
        assert(docs.take(size as int) + rest =~= docs);
        assert forall|i: int| 0 <= i < pieces.len() implies 1 <= (#[trigger] pieces[i]).len()
            <= size && (i < pieces.len() - 1 ==> pieces[i].len() == size) by {
            if i > 0 {
                assert(pieces[i] == tail[i - 1]);
            }
        }
    }
}

/// There are as many pieces as it takes, and no more.
pub proof fn law_chunk_count(docs: Seq<DocumentView>, size: nat)
    requires
        size > 0,
    ensures
        chunked(docs, size).len() == (docs.len() + size - 1) / (size as int),
    decreases docs.len(),
{
    let n = docs.len() as int;
    let m = size as int;
    if n == 0 {
        vstd::arithmetic::div_mod::lemma_basic_div(m - 1, m);
    } else if n <= m {
        vstd::arithmetic::div_mod::lemma_div_plus_one(n - 1, m);
        vstd::arithmetic::div_mod::lemma_basic_div(n - 1, m);
    } else {
        law_chunk_count(docs.skip(m), size);
        vstd::arithmetic::div_mod::lemma_div_plus_one(n - 1, m);
    }
}

proof fn lemma_full_chunks(pieces: Seq<Seq<DocumentView>>, last: Seq<DocumentView>, size: nat)
    requires
        size > 0,
        forall|i: int| 0 <= i < pieces.len() ==> (#[trigger] pieces[i]).len() == size,
        last.len() <= size,
        last.len() > 0,
    ensures
        chunked(joined(pieces) + last, size) == pieces.push(last),
    decreases pieces.len(),
{
    let all = joined(pieces) + last;
    if pieces.len() == 0 {
        assert(all =~= last);
        assert(pieces.push(last) =~= seq![last]);
    } else {
        let rest = pieces.drop_first();
        assert forall|i: int| 0 <= i < rest.len() implies (#[trigger] rest[i]).len() == size by {
            assert(rest[i] == pieces[i + 1]);
        }
        lemma_full_chunks(rest, last, size);
        assert(pieces[0].len() == size);
        assert(all.take(size as int) =~= pieces[0]);
        assert(all.skip(size as int) =~= joined(rest) + last);
        assert(pieces.push(last) =~= seq![pieces[0]] + rest.push(last));
    }
}

proof fn lemma_joined_push(pieces: Seq<Seq<DocumentView>>, last: Seq<DocumentView>)
    ensures
        joined(pieces.push(last)) == joined(pieces) + last,
    decreases pieces.len(),
{
    let all = pieces.push(last);
    if pieces.len() == 0 {
        assert(all.drop_first() =~= Seq::<Seq<DocumentView>>::empty());
        assert(joined(all.drop_first()) =~= Seq::<DocumentView>::empty());
        assert(all[0] == last);
        assert(joined(all) =~= last);
        assert(joined(pieces) + last =~= last);
    } else {
        lemma_joined_push(pieces.drop_first(), last);
        assert(all.drop_first() =~= pieces.drop_first().push(last));
        assert(joined(all) =~= joined(pieces) + last);
    }
}

/// A document ready to be embedded.
pub fn prepare(doc: Document) -> (ready: Document)
    ensures
        ready@ == prepared(doc@),
{
    Document { id: doc.id, text: trim(doc.text.as_str()), metadata: doc.metadata }
}

impl IngestionPipeline {
    /// The batches in which documents are embedded and stored, in this order.
    pub open spec fn planned(self, docs: Seq<Document>) -> Seq<Seq<DocumentView>> {
        chunked(prepared_views(docs), self.batch_size as nat)
    }

    /// Whether `stats` is what taking `total` documents with vectors of `dim` in
    /// comes to.
    pub open spec fn comes_to(self, total: usize, dim: usize, stats: PipelineStats) -> bool {
        &&& stats.total_docs == total
        &&& stats.original_bytes == total * dim * 4
        &&& stats.compression_ratio.original == dim * 32
        &&& stats.compression_ratio.compressed == dim * self.bits
    }

    /// A pipeline with batches of the given size, four requests in flight and
    /// four bits per coordinate.
    pub fn new(batch_size: usize) -> (pipeline: Self)
        ensures
            pipeline.batch_size == batch_size,
            pipeline.concurrency == 4,
            pipeline.bits == 4,
    {
        IngestionPipeline { batch_size, concurrency: 4, bits: 4 }
    }

    /// The same with another number of requests in flight.
    pub fn with_concurrency(self, concurrency: usize) -> (pipeline: Self)
        ensures
            pipeline.batch_size == self.batch_size,
            pipeline.concurrency == concurrency,
            pipeline.bits == self.bits,
    {
        IngestionPipeline { batch_size: self.batch_size, concurrency, bits: self.bits }
    }

    /// The same with another number of bits per coordinate.
    pub fn with_bits(self, bits: usize) -> (pipeline: Self)
        ensures
            pipeline.batch_size == self.batch_size,
            pipeline.concurrency == self.concurrency,
            pipeline.bits == bits,
    {
        IngestionPipeline { batch_size: self.batch_size, concurrency: self.concurrency, bits }
    }

    /// There must be documents to take in.
    pub fn require_documents(&self, total: usize) -> (r: Result<(), TurboError>)
        ensures
            r is Ok <==> total > 0,
            r matches Err(e) ==> e is Pipeline && e.detail() == "no documents to ingest"@,
    {
        if total == 0 {
            return Err(TurboError::Pipeline("no documents to ingest".to_string()));
        }
        Ok(())
    }

    /// Documents in batches, in their order.
    pub fn batches(&self, docs: Vec<Document>) -> (batches: Vec<Vec<Document>>)
        requires
            self.batch_size > 0,
        ensures
            batch_views(batches@) == chunked(doc_views(docs@), self.batch_size as nat),
    {
        let ghost all = doc_views(docs@);
        let size: usize = self.batch_size;
        let mut batches: Vec<Vec<Document>> = Vec::new();
        let mut current: Vec<Document> = Vec::new();
        proof {
            assert(batch_views(batches@) =~= Seq::<Seq<DocumentView>>::empty());
            assert(joined(batch_views(batches@)) + doc_views(current@) =~= all.take(0));
        }
        for doc in it: docs
            invariant
                size > 0,
                it.seq() == docs@,
                all == doc_views(docs@),
                current@.len() <= size,
                it.index() > 0 ==> current@.len() > 0,
                it.index() == 0 ==> current@.len() == 0 && batches@.len() == 0,
                forall|i: int|
                    0 <= i < batch_views(batches@).len() ==> (#[trigger] batch_views(
                        batches@,
                    )[i]).len() == size,
                joined(batch_views(batches@)) + doc_views(current@) == all.take(it.index()),
        {
            let ghost batches_before = batch_views(batches@);
            let ghost current_before = doc_views(current@);
            if current.len() == size {
                let full = current;
                current = Vec::new();
                batches.push(full);
                proof {
                    assert(batch_views(batches@) =~= batches_before.push(current_before));
                    lemma_joined_push(batches_before, current_before);
                    assert(doc_views(current@) =~= Seq::<DocumentView>::empty());
                    assert(joined(batch_views(batches@)) + doc_views(current@) =~= all.take(
                        it.index(),
                    ));
                }
            }
            let ghost current_now = doc_views(current@);
            current.push(doc);
            proof {
                assert(doc_views(current@) =~= current_now.push(doc@));
                assert(all.take(it.index() + 1) =~= all.take(it.index()).push(doc@));
                assert(joined(batch_views(batches@)) + doc_views(current@) =~= all.take(
                    it.index() + 1,
                ));
            }
        }
        proof {
            assert(all.take(docs@.len() as int) =~= all);
        }
        if current.len() > 0 {
            let ghost batches_before = batch_views(batches@);
            let ghost current_before = doc_views(current@);
            batches.push(current);
            proof {
                assert(batch_views(batches@) =~= batches_before.push(current_before));
                lemma_full_chunks(batches_before, current_before, size as nat);
            }
        } else {
            proof {
                assert(docs@.len() == 0);
                assert(batch_views(batches@) =~= Seq::<Seq<DocumentView>>::empty());
            }
        }
        batches
    }

    /// The batches that are to be embedded: the documents in their order, with
    /// their texts trimmed. There must be documents.
    pub fn plan(&self, docs: Vec<Document>) -> (r: Result<Vec<Vec<Document>>, TurboError>)
        requires
            docs@.len() > 0 ==> self.batch_size > 0,
        ensures
            r is Ok <==> docs@.len() > 0,
            r matches Ok(batches) ==> batch_views(batches@) == self.planned(docs@),
            r matches Err(e) ==> e is Pipeline && e.detail() == "no documents to ingest"@,
    {
        match self.require_documents(docs.len()) {
            Ok(()) => {},
            Err(e) => {
                return Err(e);
            },
        }
        let mut ready: Vec<Document> = Vec::new();
        for doc in it: docs
            invariant
                it.seq() == docs@,
                ready@.len() == it.index(),
                forall|i: int|
                    0 <= i < ready@.len() ==> (#[trigger] ready@[i])@ == prepared(docs@[i]@),
        {
            ready.push(prepare(doc));
        }
        proof {
            assert(doc_views(ready@) =~= prepared_views(docs@));
        }
        Ok(self.batches(ready))
    }

    /// What taking `total` documents with vectors of `dim` in comes to.
    pub fn stats(&self, total: usize, dim: usize) -> (stats: PipelineStats)
        requires
            total * dim * 4 <= usize::MAX,
            dim * 4 <= usize::MAX,
            dim * self.bits <= usize::MAX,
        ensures
            self.comes_to(total, dim, stats),
    {
        proof {
            assert(total * dim <= total * dim * 4) by (nonlinear_arith)
                requires
                    total >= 0,
                    dim >= 0,
            ;
        }
        PipelineStats {
            total_docs: total,
            original_bytes: total * dim * 4,
            compression_ratio: compression_ratio(dim, self.bits),
        }
    }
}

/// The texts of a batch, as the embedder gets them.
pub fn batch_texts(batch: &Vec<Document>) -> (texts: Vec<String>)
    ensures
        texts_of(texts@) == Seq::new(batch@.len(), |i: int| batch@[i].text@),
{
    let mut texts: Vec<String> = Vec::new();
    let mut i: usize = 0;
    while i < batch.len()
        invariant
            i <= batch@.len(),
            texts@.len() == i,
            forall|j: int| 0 <= j < i ==> (#[trigger] texts@[j])@ == batch@[j].text@,
        decreases batch@.len() - i,
    {
        texts.push(batch[i].text.clone());
        i = i + 1;
    }
    proof {
        assert(texts_of(texts@) =~= Seq::new(batch@.len(), |i: int| batch@[i].text@));
    }
    texts
}

/// A document with its vector.
pub open spec fn embedded(doc: DocumentView, vector: Seq<Scalar>) -> EmbeddedView {
    EmbeddedView { id: doc.id, text: doc.text, embedding: vector, metadata: doc.metadata }
}

/// Documents with their vectors, pair by pair; what is left over on either side
/// is dropped.
pub open spec fn attached(
    docs: Seq<DocumentView>,
    vectors: Seq<Seq<Scalar>>,
) -> Seq<EmbeddedView> {
    Seq::new(
        if docs.len() <= vectors.len() {
            docs.len()
        } else {
            vectors.len()
        },
        |i: int| embedded(docs[i], vectors[i]),
    )
}

/// A batch with the vectors that the embedder gave, or the embedder's error.
pub fn embedded_batch(
    batch: Vec<Document>,
    vectors: Result<Vec<Vec<Scalar>>, TurboError>,
) -> (r: Result<Vec<EmbeddedDoc>, TurboError>)
    ensures
        match vectors {
            Ok(vectors) => r matches Ok(docs) && embedded_views(docs@) == attached(
                doc_views(batch@),
                vectors_of(vectors@),
            ),
            Err(e) => r == Err::<Vec<EmbeddedDoc>, TurboError>(e),
        },
{
    let vectors = match vectors {
        Ok(vectors) => vectors,
        Err(e) => {
            return Err(e);
        },
    };
    let ghost all = attached(doc_views(batch@), vectors_of(vectors@));
    let ghost given = vectors@;
    let mut docs: Vec<EmbeddedDoc> = Vec::new();
    let mut vectors = vectors;
    let mut left: Vec<Vec<Scalar>> = Vec::new();
    while vectors.len() > 0
        invariant
            vectors@.len() + left@.len() == given.len(),
            vectors@ == given.take(vectors@.len() as int),
            forall|j: int|
                0 <= j < left@.len() ==> #[trigger] left@[j] == given[given.len() - 1 - j],
        decreases vectors@.len(),
    {
        match vectors.pop() {
            Some(vector) => {
                left.push(vector);
            },
            None => {},
        }
    }
    for doc in it: batch
        invariant
            it.seq() == batch@,
            all == attached(doc_views(batch@), vectors_of(given)),
            left@.len() == (if it.index() <= given.len() {
                given.len() - it.index()
            } else {
                0
            }),
            forall|j: int|
                0 <= j < left@.len() ==> #[trigger] left@[j] == given[given.len() - 1 - j],
            docs@.len() == (if it.index() <= given.len() {
                it.index()
            } else {
                given.len() as int
            }),
            forall|j: int| 0 <= j < docs@.len() ==> (#[trigger] docs@[j])@ == all[j],
    {
        match left.pop() {
            Some(embedding) => {
                proof {
                    assert(embedding == given[it.index() as int]);
                    assert(doc_views(batch@)[it.index() as int] == doc@);
                    assert(vectors_of(given)[it.index() as int] == embedding@);
                }
                docs.push(
                    EmbeddedDoc { id: doc.id, text: doc.text, embedding, metadata: doc.metadata },
                );
            },
            None => {},
        }
    }
    proof {
        assert(embedded_views(docs@) =~= all);
    }
    Ok(docs)
}

/// The store's part of taking documents in: the embedded batches that are still
/// to be stored.
pub struct StoreRun {
    /// What is left, the next one last.
    left: Vec<Result<Vec<EmbeddedDoc>, TurboError>>,
}

/// An error of a step as the pipeline reports it.
pub open spec fn is_pipeline_error(reported: TurboError, cause: TurboError) -> bool {
    reported is Pipeline && reported.detail() == cause.prefix() + cause.detail()
}

impl StoreRun {
    /// The batches that are still to be stored, in order.
    pub closed spec fn pending(self) -> Seq<Result<Vec<EmbeddedDoc>, TurboError>> {
        self.left@.reverse()
    }

    /// A run over all batches.
    pub fn new(batches: Vec<Result<Vec<EmbeddedDoc>, TurboError>>) -> (run: Self)
        ensures
            run.pending() == batches@,
    {
        let ghost given = batches@;
        let mut batches = batches;
        let mut left: Vec<Result<Vec<EmbeddedDoc>, TurboError>> = Vec::new();
        while batches.len() > 0
            invariant
                batches@.len() + left@.len() == given.len(),
                batches@ == given.take(batches@.len() as int),
                forall|j: int|
                    0 <= j < left@.len() ==> #[trigger] left@[j] == given[given.len() - 1 - j],
            decreases batches@.len(),
        {
            match batches.pop() {
                Some(batch) => {
                    left.push(batch);
                },
                None => {},
            }
        }
        proof {
            assert(left@.reverse() =~= given);
        }
        StoreRun { left }
    }

    /// The next batch to store, after the one before was stored with the given
    /// outcome; nothing when all are stored. The first error ends the run: of a
    /// store or, when its turn comes, of an embedder.
    pub fn step(&mut self, stored: Result<(), TurboError>) -> (r: Result<
        Option<Vec<EmbeddedDoc>>,
        TurboError,
    >)
        ensures
            match stored {
                Err(cause) => {
                    &&& r matches Err(e) && is_pipeline_error(e, cause)
                    &&& final(self).pending() == old(self).pending()
                },
                Ok(()) => if old(self).pending().len() == 0 {
                    &&& r == Ok::<Option<Vec<EmbeddedDoc>>, TurboError>(None)
                    &&& final(self).pending() == old(self).pending()
                } else {
                    &&& final(self).pending() == old(self).pending().drop_first()
                    &&& match old(self).pending()[0] {
                        Ok(batch) => r == Ok::<Option<Vec<EmbeddedDoc>>, TurboError>(Some(batch)),
                        Err(cause) => r matches Err(e) && is_pipeline_error(e, cause),
                    }
                },
            },
    {
        match stored {
            Ok(()) => {},
            Err(cause) => {
                return Err(TurboError::Pipeline(cause.message()));
            },
        }
        let ghost before = self.left@;
        match self.left.pop() {
            Some(batch) => {
                proof {
                    assert(self.left@.reverse() =~= before.reverse().drop_first());
                    assert(before.reverse()[0] == batch);
                }
                match batch {
                    Ok(batch) => Ok(Some(batch)),
                    Err(cause) => Err(TurboError::Pipeline(cause.message())),
                }
            },
            None => Ok(None),
        }
    }
}

/// What batches hold once embedded, put together.
pub open spec fn joined_embedded(batches: Seq<Seq<EmbeddedView>>) -> Seq<EmbeddedView>
    decreases batches.len(),
{
    if batches.len() == 0 {
        Seq::empty()
    } else {
        batches[0] + joined_embedded(batches.drop_first())
    }
}

/// The vectors of batches, put together.
pub open spec fn joined_vectors(vectors: Seq<Seq<Seq<Scalar>>>) -> Seq<Seq<Scalar>>
    decreases vectors.len(),
{
    if vectors.len() == 0 {
        Seq::empty()
    } else {
        vectors[0] + joined_vectors(vectors.drop_first())
    }
}

/// Whether embedded batches stand for these batches of documents: each has as
/// many vectors as documents.
pub open spec fn all_attached(
    pieces: Seq<Seq<DocumentView>>,
    vectors: Seq<Seq<Seq<Scalar>>>,
    batches: Seq<Seq<EmbeddedView>>,
) -> bool {
    &&& pieces.len() == batches.len()
    &&& vectors.len() == batches.len()
    &&& forall|i: int|
        0 <= i < batches.len() ==> (#[trigger] batches[i]) == attached(pieces[i], vectors[i])
            && pieces[i].len() == vectors[i].len()
}

proof fn lemma_joined_attached(
    pieces: Seq<Seq<DocumentView>>,
    vectors: Seq<Seq<Seq<Scalar>>>,
    batches: Seq<Seq<EmbeddedView>>,
)
    requires
        all_attached(pieces, vectors, batches),
    ensures
        joined_embedded(batches) == attached(joined(pieces), joined_vectors(vectors)),
        joined(pieces).len() == joined_vectors(vectors).len(),
    decreases batches.len(),
{
    if batches.len() > 0 {
        assert(batches[0] == attached(pieces[0], vectors[0]));
        let rest_pieces = pieces.drop_first();
        let rest_vectors = vectors.drop_first();
        let rest = batches.drop_first();
        assert forall|i: int| 0 <= i < rest.len() implies (#[trigger] rest[i]) == attached(
            rest_pieces[i],
            rest_vectors[i],
        ) && rest_pieces[i].len() == rest_vectors[i].len() by {
            assert(rest[i] == batches[i + 1]);
        }
        lemma_joined_attached(rest_pieces, rest_vectors, rest);
    }
    assert(joined_embedded(batches) =~= attached(joined(pieces), joined_vectors(vectors)));
}

/// The count of a store after it took batches in, each adding its length and
/// wrapping around.
pub open spec fn count_after(total: usize, batches: Seq<Seq<EmbeddedView>>) -> usize
    decreases batches.len(),
{
    if batches.len() == 0 {
        total
    } else {
        count_after(total.wrapping_add(batches[0].len() as usize), batches.drop_first())
    }
}

/// Batch by batch a store counts every document once, as long as the count fits.
pub proof fn law_counts_add_up(total: usize, batches: Seq<Seq<EmbeddedView>>)
    requires
        total + joined_embedded(batches).len() <= usize::MAX,
    ensures
        count_after(total, batches) == total + joined_embedded(batches).len(),
    decreases batches.len(),
{
    if batches.len() > 0 {
        let rest = batches.drop_first();
        assert(joined_embedded(batches).len() == batches[0].len() + joined_embedded(rest).len());
        law_counts_add_up(total.wrapping_add(batches[0].len() as usize), rest);
    }
}

/// Where the embedder gives one vector per text, the batches that are stored hold
/// every document once, in the order in which they came, with its identifier,
/// its metadata, its text trimmed and the vector that was given for it.
pub proof fn law_every_document_stored(
    docs: Seq<Document>,
    size: nat,
    vectors: Seq<Seq<Seq<Scalar>>>,
    batches: Seq<Seq<EmbeddedView>>,
)
    requires
        size > 0,
        all_attached(chunked(prepared_views(docs), size), vectors, batches),
    ensures
        joined_vectors(vectors).len() == docs.len(),
        joined_embedded(batches) == Seq::new(
            docs.len(),
            |i: int| embedded(prepared(docs[i]@), joined_vectors(vectors)[i]),
        ),
{
    let pieces = chunked(prepared_views(docs), size);
    law_chunks(prepared_views(docs), size);
    lemma_joined_attached(pieces, vectors, batches);
    assert(joined_embedded(batches) =~= Seq::new(
        docs.len(),
        |i: int| embedded(prepared(docs[i]@), joined_vectors(vectors)[i]),
    ));
}

/// Whether these are the vectors that an embedder gives to batches of documents: to
/// each the one that its text decides.
pub open spec fn embeds_with(
    embed: spec_fn(Seq<char>) -> Seq<Scalar>,
    pieces: Seq<Seq<DocumentView>>,
    vectors: Seq<Seq<Seq<Scalar>>>,
) -> bool {
    vectors == pieces.map_values(
        |piece: Seq<DocumentView>| piece.map_values(|doc: DocumentView| embed(doc.text)),
    )
}

/// How many requests are in flight changes nothing: two pipelines that differ in that
/// alone, over an embedder whose vectors depend on the texts alone, make the same
/// batches of the same documents, store the same in the same order, and come to the
/// same figures.
pub proof fn law_concurrency_changes_nothing(
    one: IngestionPipeline,
    other: IngestionPipeline,
    docs: Seq<Document>,
    embed: spec_fn(Seq<char>) -> Seq<Scalar>,
    vectors: (Seq<Seq<Seq<Scalar>>>, Seq<Seq<Seq<Scalar>>>),
    stored: (Seq<Seq<EmbeddedView>>, Seq<Seq<EmbeddedView>>),
    dim: usize,
    stats: (PipelineStats, PipelineStats),
)
    requires
        one.batch_size == other.batch_size,
        one.bits == other.bits,
        docs.len() <= usize::MAX,
        embeds_with(embed, one.planned(docs), vectors.0),
        embeds_with(embed, other.planned(docs), vectors.1),
        all_attached(one.planned(docs), vectors.0, stored.0),
        all_attached(other.planned(docs), vectors.1, stored.1),
        one.comes_to(docs.len() as usize, dim, stats.0),
        other.comes_to(docs.len() as usize, dim, stats.1),
    ensures
        one.planned(docs) == other.planned(docs),
        stored.0 == stored.1,
        stats.0 == stats.1,
{
    assert(stored.0 =~= stored.1) by {
        assert forall|i: int| 0 <= i < stored.0.len() implies #[trigger] stored.0[i]
            == stored.1[i] by {
            assert(stored.0[i] == attached(one.planned(docs)[i], vectors.0[i]));
            assert(stored.1[i] == attached(other.planned(docs)[i], vectors.1[i]));
        }
    }
}

/// A document that is ready to be embedded is the one that came in, but for white space
/// at the ends of its text: identifier and metadata are the same, the text is one
/// stretch of the original, and every character before or after that is white space. A
/// text without white space at its ends is kept as it is.
pub proof fn law_preparing_keeps_the_text(doc: DocumentView)
    ensures
        prepared(doc).id == doc.id,
        prepared(doc).metadata == doc.metadata,
        exists|from: int, to: int|
            #![trigger doc.text.subrange(from, to)]
            0 <= from <= to <= doc.text.len() && prepared(doc).text == doc.text.subrange(from, to)
                && (forall|i: int|
                0 <= i < from || to <= i < doc.text.len() ==> white(#[trigger] doc.text[i])),
        prepared(doc).text.len() > 0 ==> !white(prepared(doc).text[0]) && !white(
            prepared(doc).text.last(),
        ),
        doc.text.len() > 0 && !white(doc.text[0]) && !white(doc.text.last()) ==> prepared(doc).text
            == doc.text,
{
    law_trim_cuts_white_space_only(doc.text);
    law_trim(doc.text);
}

/// Each document is in the batch that its place gives: document number `b * size + i` is
/// number `i` of batch `b`, trimmed, and there is no batch without one and no place
/// beyond the last document.
pub proof fn law_batches_by_place(pipeline: IngestionPipeline, docs: Seq<Document>, b: int, i: int)
    requires
        pipeline.batch_size > 0,
        0 <= i < pipeline.batch_size,
        0 <= b,
    ensures
        b * pipeline.batch_size + i < docs.len() ==> b < pipeline.planned(docs).len() && i
            < pipeline.planned(docs)[b].len() && {
            let doc = pipeline.planned(docs)[b][i];
            let given = docs[b * pipeline.batch_size + i];
            doc.id == given.id && doc.text == trimmed(given.text@) && doc.metadata
                == given.metadata@
        },
        b * pipeline.batch_size + i >= docs.len() ==> b >= pipeline.planned(docs).len() || i
            >= pipeline.planned(docs)[b].len(),
{
    let size = pipeline.batch_size as nat;
    let ready = prepared_views(docs);
    lemma_chunk_place(ready, size, b, i);
    if b * size + i < docs.len() {
        assert(b * size >= 0) by (nonlinear_arith)
            requires
                b >= 0,
                size > 0,
        ;
        assert(ready[b * size + i] == prepared(docs[b * size + i]@));
    }
}

proof fn lemma_chunk_place(docs: Seq<DocumentView>, size: nat, b: int, i: int)
    requires
        size > 0,
        0 <= i < size,
        0 <= b,
    ensures
        b * size + i < docs.len() <==> b < chunked(docs, size).len() && i < chunked(
            docs,
            size,
        )[b].len(),
        b * size + i < docs.len() ==> chunked(docs, size)[b][i] == docs[b * size + i],
    decreases b,
{
    if docs.len() > 0 {
        if docs.len() <= size {
            if b > 0 {
                assert(b * size >= size) by (nonlinear_arith)
                    requires
                        b >= 1,
                        size > 0,
                ;
            } else {
                assert(b * size == 0) by (nonlinear_arith)
                    requires
                        b == 0,
                ;
            }
        } else {
            let rest = docs.skip(size as int);
            if b > 0 {
                lemma_chunk_place(rest, size, b - 1, i);
                assert((b - 1) * size + size == b * size) by (nonlinear_arith);
                assert((b - 1) * size >= 0) by (nonlinear_arith)
                    requires
                        b >= 1,
                        size > 0,
                ;
                assert(chunked(docs, size).len() == 1 + chunked(rest, size).len());
                if b - 1 < chunked(rest, size).len() {
                    assert(chunked(docs, size)[b] == chunked(rest, size)[b - 1]);
                }
            } else {
                assert(b * size == 0) by (nonlinear_arith)
                    requires
                        b == 0,
                ;
            }
        }
    } else {
        assert(b * size >= 0) by (nonlinear_arith)
            requires
                b >= 0,
                size > 0,
        ;
    }
}

/// Every document is stored, with nothing lost: where each batch got a vector for each
/// of its texts, document number `i` of batch `b` is stored with its own identifier,
/// text and metadata and with the vector that was given in its place.
pub proof fn law_attaching_loses_nothing(
    batch: Seq<DocumentView>,
    vectors: Seq<Seq<Scalar>>,
    i: int,
)
    requires
        vectors.len() == batch.len(),
        0 <= i < batch.len(),
    ensures
        attached(batch, vectors).len() == batch.len(),
        attached(batch, vectors)[i].id == batch[i].id,
        attached(batch, vectors)[i].text == batch[i].text,
        attached(batch, vectors)[i].metadata == batch[i].metadata,
        attached(batch, vectors)[i].embedding == vectors[i],
{
}

/// Every document that came in is in a stored batch, and the place of each in its batch
/// says which: with its identifier, its metadata, the vector given for it, and its text
/// but for white space at the ends.
pub proof fn law_no_document_is_lost(
    pipeline: IngestionPipeline,
    docs: Seq<Document>,
    vectors: Seq<Seq<Seq<Scalar>>>,
    stored: Seq<Seq<EmbeddedView>>,
    m: int,
)
    requires
        pipeline.batch_size > 0,
        stored.len() == pipeline.planned(docs).len(),
        vectors.len() == stored.len(),
        forall|b: int|
            0 <= b < stored.len() ==> (#[trigger] stored[b]) == attached(
                pipeline.planned(docs)[b],
                vectors[b],
            ) && vectors[b].len() == pipeline.planned(docs)[b].len(),
        0 <= m < docs.len(),
    ensures
        ({
            let b = m / (pipeline.batch_size as int);
            let i = m % (pipeline.batch_size as int);
            &&& 0 <= b < stored.len()
            &&& 0 <= i < stored[b].len()
            &&& stored[b][i].id == docs[m].id
            &&& stored[b][i].metadata == docs[m].metadata@
            &&& stored[b][i].embedding == vectors[b][i]
            &&& stored[b][i].text == trimmed(docs[m].text@)
        }),
{
    let size = pipeline.batch_size as int;
    let b = m / size;
    let i = m % size;
    vstd::arithmetic::div_mod::lemma_fundamental_div_mod(m, size);
    vstd::arithmetic::div_mod::lemma_mod_bound(m, size);
    vstd::arithmetic::div_mod::lemma_div_pos_is_pos(m, size);
    assert(size * b == b * size) by (nonlinear_arith);
    law_batches_by_place(pipeline, docs, b, i);
    assert(stored[b] == attached(pipeline.planned(docs)[b], vectors[b]));
    law_attaching_loses_nothing(pipeline.planned(docs)[b], vectors[b], i);
}

/// The figures of a run: every document counts once, a vector takes four bytes per
/// coordinate, and thirty-two bits of it become as many as the pipeline keeps.
pub proof fn law_figures(
    pipeline: IngestionPipeline,
    total: usize,
    dim: usize,
    stats: PipelineStats,
)
    requires
        pipeline.comes_to(total, dim, stats),
    ensures
        stats.total_docs == total,
        stats.original_bytes == total * (dim * 4),
        stats.compression_ratio.original * pipeline.bits == stats.compression_ratio.compressed * 32,
        stats.compression_ratio.original == dim * 32,
{
    assert(total * dim * 4 == total * (dim * 4)) by (nonlinear_arith);
    assert(dim * 32 * pipeline.bits == dim * pipeline.bits * 32) by (nonlinear_arith);
}

/// What the pipeline reports ends in the words of what went wrong, whole, and begins as
/// that error would be shown. Two errors of one kind that are reported alike had the same
/// words.
pub proof fn law_cause_is_reported(
    reported: TurboError,
    cause: TurboError,
    other: TurboError,
    other_cause: TurboError,
)
    requires
        is_pipeline_error(reported, cause),
        is_pipeline_error(other, other_cause),
    ensures
        reported is Pipeline,
        reported.detail().len() == cause.prefix().len() + cause.detail().len(),
        cause.detail().is_suffix_of(reported.detail()),
        cause.prefix().is_prefix_of(reported.detail()),
        cause.prefix() == other_cause.prefix() && reported.detail() == other.detail()
            ==> cause.detail() == other_cause.detail(),
{
    let n = cause.prefix().len() as int;
    assert(reported.detail().skip(n) =~= cause.detail());
    assert(reported.detail().subrange(n, reported.detail().len() as int) =~= cause.detail());
    assert(reported.detail().subrange(0, n) =~= cause.prefix());
    if cause.prefix() == other_cause.prefix() && reported.detail() == other.detail() {
        assert(other.detail().skip(n) =~= other_cause.detail());
    }
}

/// What documents in batches say, each says for itself: identifier, text and metadata, whole
/// and at its own place.
pub proof fn law_views_of_batches(batches: Seq<Vec<Document>>, b: int, i: int)
    requires
        0 <= b < batches.len(),
        0 <= i < batches[b]@.len(),
    ensures
        batch_views(batches).len() == batches.len(),
        batch_views(batches)[b].len() == batches[b]@.len(),
        ({
            let said = batch_views(batches)[b][i];
            let doc = batches[b]@[i];
            said.id == doc.id && said.text == doc.text@ && said.metadata == doc.metadata@
        }),
{
}

} // verus!
