//! Both tiers together.

use crate::columnar::Batch;
use crate::document::{embedded_views, EmbeddedDoc, ScoredDoc};
use crate::error::TurboError;
use crate::lance_store::{first_stored_fault, read_documents, stored_docs};
use crate::quantized::{all_coordinates, askable, law_batch_adds_all, law_batch_only_adds};
use crate::ranking::{
    has_nan, id_set, is_merge_of, law_merge, law_merge_count, law_merge_loses_no_id, merge_results,
};
use crate::request::{SearchMode, SearchRequest, SearchType};
use crate::scalar::Scalar;
use crate::turbovec_store::{
    doc_pairs, law_upsert_texts_are_known, took_in, TurboVecStore,
};
use vstd::prelude::*;

verus! {

/// How the in-memory tier is filled when the program starts.
#[derive(Debug, Clone, Copy, PartialEq, Eq, Structural)]
pub enum LoadStrategy {
    /// From blob storage. Fast; needs an earlier flush.
    FromBlob,
    /// From the durable tier. Slower, but always consistent.
    RebuildFromLance,
    /// Not at all: the durable tier answers until documents come in.
    Lazy,
}

impl Default for LoadStrategy {
    fn default() -> (strategy: Self)
        ensures
            strategy == LoadStrategy::FromBlob,
    {
        LoadStrategy::FromBlob
    }
}

/// Where a query goes.
#[derive(Debug, Clone, Copy, PartialEq, Eq, Structural)]
pub enum Route {
    /// To the in-memory tier.
    Hot,
    /// To the durable tier.
    Cold,
    /// To both; the first answer wins.
    Race,
    /// To both; the answers are merged down to this many.
    Both(usize),
}

/// Where a query goes under a mode.
pub open spec fn route_of(mode: SearchMode, warm: bool) -> Route {
    match mode {
        SearchMode::Hot => Route::Hot,
        SearchMode::Cold => Route::Cold,
        SearchMode::Race => Route::Race,
        SearchMode::Federated(merge_k) => Route::Both(merge_k),
        SearchMode::Auto => if warm {
            Route::Hot
        } else {
            Route::Cold
        },
    }
}

/// The in-memory tier, and how it shares the work with the durable one.
pub struct HybridStore {
    pub hot: TurboVecStore,
    pub mode: SearchMode,
}

/// The results of a tier, where it answered.
pub open spec fn results_of(r: Result<Vec<ScoredDoc>, TurboError>) -> Seq<ScoredDoc> {
    match r {
        Ok(docs) => docs@,
        Err(_) => Seq::empty(),
    }
}

/// Whether `r` merges what the in-memory tier can answer with what the durable
/// one did.
pub open spec fn is_federated(
    hot: TurboVecStore,
    request: &SearchRequest<'_>,
    cold: Result<Vec<ScoredDoc>, TurboError>,
    merge_k: usize,
    r: Result<Vec<ScoredDoc>, TurboError>,
) -> bool {
    exists|answer: Result<Vec<ScoredDoc>, TurboError>| #[trigger]
        hot.answers(request, answer) && r is Ok && is_merge_of(
            results_of(answer),
            results_of(cold),
            merge_k as int,
            results_of(r),
        )
}

/// The results of both tiers, merged; a tier that failed adds nothing.
pub fn merge_tiers(
    hot: Result<Vec<ScoredDoc>, TurboError>,
    cold: Result<Vec<ScoredDoc>, TurboError>,
    merge_k: usize,
) -> (merged: Vec<ScoredDoc>)
    ensures
        is_merge_of(results_of(hot), results_of(cold), merge_k as int, merged@),
        holds_all(hot, cold, merge_k, merged@),
        holds_the_best(hot, cold, merged@),
{
    let ghost (hot_answer, cold_answer) = (hot, cold);
    let hot_docs = match hot {
        Ok(docs) => docs,
        Err(_) => Vec::new(),
    };
    let cold_docs = match cold {
        Ok(docs) => docs,
        Err(_) => Vec::new(),
    };
    let merged = merge_results(hot_docs, cold_docs, merge_k);
    proof {
        law_merge_of_tiers(hot_answer, cold_answer, merge_k, merged@);
    }
    merged
}

/// Whether `after` is what an in-memory tier becomes when the documents that the rows
/// of the durable one are come in.
pub open spec fn is_rebuilt(
    before: TurboVecStore,
    batches: Seq<Batch>,
    after: TurboVecStore,
) -> bool {
    exists|docs: Seq<EmbeddedDoc>| #[trigger]
        took_in(before, docs, after) && embedded_views(docs) == stored_docs(batches)
}

impl HybridStore {
    /// Whether the in-memory tier can be asked: the query must be one that its
    /// index takes, unless it turns the search down anyway.
    pub open spec fn can_ask_hot(self, request: &SearchRequest<'_>) -> bool {
        request.search_type == SearchType::Vector ==> askable(
            self.hot.coordinates(),
            request.query_embedding@,
        )
    }

    /// A store over an in-memory tier, under a mode.
    pub fn new(hot: TurboVecStore, mode: SearchMode) -> (store: Self)
        ensures
            store.hot == hot,
            store.mode == mode,
    {
        HybridStore { hot, mode }
    }

    /// Where the next query goes.
    pub fn route(&self) -> (route: Route)
        ensures
            route == route_of(self.mode, self.hot.ready()),
            self.mode == SearchMode::Auto ==> route == (if self.hot.ready() {
                Route::Hot
            } else {
                Route::Cold
            }),
            self.mode == SearchMode::Hot ==> route == Route::Hot,
            self.mode == SearchMode::Cold ==> route == Route::Cold,
            self.mode == SearchMode::Race ==> route == Route::Race,
            self.mode matches SearchMode::Federated(merge_k) ==> route == Route::Both(merge_k),
    {
        match self.mode {
            SearchMode::Hot => Route::Hot,
            SearchMode::Cold => Route::Cold,
            SearchMode::Race => Route::Race,
            SearchMode::Federated(merge_k) => Route::Both(merge_k),
            SearchMode::Auto => if self.hot.is_warm() {
                Route::Hot
            } else {
                Route::Cold
            },
        }
    }

    /// Writes to both tiers: to the in-memory one here, to the durable one with
    /// the given outcome, which decides.
    pub fn upsert(&mut self, docs: &[EmbeddedDoc], cold: Result<(), TurboError>) -> (r: Result<
        (),
        TurboError,
    >)
        requires
            docs@.len() > 0 ==> old(self).hot.coordinates() is Some,
        ensures
            r == cold,
            took_in(old(self).hot, docs@, final(self).hot),
            final(self).mode == old(self).mode,
    {
        match self.hot.upsert(docs) {
            Ok(()) => cold,
            Err(e) => Err(e),
        }
    }

    /// Fills the in-memory tier from the rows of the durable one. Where they cannot
    /// be read nothing changes.
    pub fn rebuild_from_cold(&mut self, batches: &[Batch]) -> (r: Result<(), TurboError>)
        requires
            old(self).hot.coordinates() is Some,
        ensures
            final(self).mode == old(self).mode,
            r is Ok <==> first_stored_fault(batches@) is None,
            r is Ok ==> is_rebuilt(old(self).hot, batches@, final(self).hot),
            r matches Err(e) ==> e is Store && Some(e.detail()) == first_stored_fault(batches@)
                && *final(self) == *old(self),
    {
        match read_documents(batches) {
            Ok(docs) => {
                proof {
                    assert(embedded_views(docs@) == stored_docs(batches@));
                }
                self.hot.upsert(docs.as_slice())
            },
            Err(e) => Err(e),
        }
    }

    /// Deletes from both tiers: from the in-memory one here, from the durable one
    /// with the given outcome, which decides.
    pub fn delete(&mut self, id: u64, cold: Result<(), TurboError>) -> (r: Result<(), TurboError>)
        ensures
            r == cold,
            final(self).hot.vectors() == old(self).hot.vectors().remove(id),
            final(self).hot.known_texts() == old(self).hot.known_texts().remove(id),
            final(self).hot.total() == (if old(self).hot.total() == 0 {
                0
            } else {
                (old(self).hot.total() - 1) as usize
            }),
            final(self).hot.ready() == old(self).hot.ready(),
            final(self).hot.coordinates() == old(self).hot.coordinates(),
            final(self).hot.width() == old(self).hot.width(),
            final(self).hot.same_table(old(self).hot),
            final(self).mode == old(self).mode,
    {
        match self.hot.delete(id) {
            Ok(()) => cold,
            Err(e) => Err(e),
        }
    }

    /// Answers a request. `cold` is the answer of the durable tier, which must be
    /// there where the route leads to that tier; in a race it is there if the
    /// durable tier was first.
    pub fn search(
        &self,
        request: &SearchRequest<'_>,
        cold: Option<Result<Vec<ScoredDoc>, TurboError>>,
    ) -> (r: Result<Vec<ScoredDoc>, TurboError>)
        requires
            match route_of(self.mode, self.hot.ready()) {
                Route::Cold => cold is Some,
                Route::Both(_) => cold is Some && self.can_ask_hot(request),
                Route::Race => cold is Some || self.can_ask_hot(request),
                Route::Hot => self.can_ask_hot(request),
            },
        ensures
            self.mode == SearchMode::Hot ==> self.hot.answers(request, r),
            self.mode == SearchMode::Cold ==> Some(r) == cold,
            self.mode == SearchMode::Auto && self.hot.ready() ==> self.hot.answers(request, r),
            self.mode == SearchMode::Auto && !self.hot.ready() ==> Some(r) == cold,
            self.mode == SearchMode::Race ==> Some(r) == cold || (cold is None && self.hot.answers(
                request,
                r,
            )),
            self.mode matches SearchMode::Federated(merge_k) ==> r is Ok && exists|
                answer: Result<Vec<ScoredDoc>, TurboError>,
            | #[trigger]
                self.hot.answers(request, answer) && holds_all(
                    answer,
                    cold.unwrap(),
                    merge_k,
                    r.unwrap()@,
                ) && holds_the_best(answer, cold.unwrap(), r.unwrap()@),
            match route_of(self.mode, self.hot.ready()) {
                Route::Hot => self.hot.answers(request, r),
                Route::Cold => r == cold.unwrap(),
                Route::Race => match cold {
                    Some(answer) => r == answer,
                    None => self.hot.answers(request, r),
                },
                Route::Both(merge_k) => is_federated(
                    self.hot,
                    request,
                    cold.unwrap(),
                    merge_k,
                    r,
                ),
            },
    {
        match self.route() {
            Route::Hot => self.hot.search(request),
            Route::Cold => cold.unwrap(),
            Route::Race => match cold {
                Some(answer) => answer,
                None => self.hot.search(request),
            },
            Route::Both(merge_k) => {
                let hot = self.hot.search(request);
                proof {
                    assert(self.hot.answers(request, hot));
                }
                Ok(merge_tiers(hot, cold.unwrap(), merge_k))
            },
        }
    }
}

/// An empty in-memory tier that was filled from the durable one is ready where that
/// has a row at all, counts as many documents as that has rows, holds no identifier
/// but those of its rows, and holds that of each row whose vector fits.
pub proof fn law_rebuild(
    before: TurboVecStore,
    batches: Seq<Batch>,
    after: TurboVecStore,
    dim: usize,
)
    requires
        is_rebuilt(before, batches, after),
        dim > 0,
        before.coordinates() == Some(dim),
        before.vectors() == Map::<u64, Seq<Scalar>>::empty(),
        before.total() == 0,
        stored_docs(batches).len() <= usize::MAX,
    ensures
        stored_docs(batches).len() > 0 ==> after.ready(),
        after.total() == stored_docs(batches).len(),
        forall|i: int|
            0 <= i < stored_docs(batches).len() && (#[trigger] stored_docs(
                batches,
            )[i]).embedding.len() == dim && all_coordinates(stored_docs(batches)[i].embedding)
                ==> after.ids().contains(stored_docs(batches)[i].id),
        forall|id: u64| #[trigger]
            after.ids().contains(id) ==> exists|i: int|
                0 <= i < stored_docs(batches).len() && (#[trigger] stored_docs(batches)[i]).id
                    == id && stored_docs(batches)[i].embedding == after.vectors()[id],
{
    let rows = stored_docs(batches);
    let docs = choose|docs: Seq<EmbeddedDoc>| #[trigger]
        took_in(before, docs, after) && embedded_views(docs) == stored_docs(batches);
    let pairs = doc_pairs(docs);
    assert(docs.len() == rows.len());
    assert forall|i: int| 0 <= i < docs.len() implies (#[trigger] docs[i])@ == rows[i] by {
        assert(embedded_views(docs)[i] == docs[i]@);
    }
    if docs.len() > 0 {
        assert forall|i: int|
            0 <= i < rows.len() && (#[trigger] rows[i]).embedding.len() == dim && all_coordinates(
                rows[i].embedding,
            ) implies after.ids().contains(rows[i].id) by {
            assert(docs[i]@ == rows[i]);
            assert(pairs[i] == (docs[i].id, docs[i].embedding@));
            law_batch_adds_all(before.vectors(), dim, pairs, i);
        }
        assert forall|id: u64| #[trigger] after.ids().contains(id) implies exists|i: int|
            0 <= i < rows.len() && (#[trigger] rows[i]).id == id && rows[i].embedding
                == after.vectors()[id] by {
            law_batch_only_adds(before.vectors(), dim, pairs, id);
            let i = choose|i: int|
                0 <= i < pairs.len() && #[trigger] pairs[i] == (id, after.vectors()[id]);
            assert(docs[i]@ == rows[i]);
            assert(rows[i].id == id);
        }
    } else {
        assert(after.ids() =~= Set::<u64>::empty());
    }
}

/// Under the automatic mode queries go to the durable tier until documents came
/// in, and to the in-memory tier from then on; under any other mode that changes
/// nothing.
pub proof fn law_upsert_warms(
    before: HybridStore,
    after: HybridStore,
)
    requires
        after.mode == before.mode,
        after.hot.ready(),
    ensures
        before.mode == SearchMode::Auto ==> route_of(after.mode, after.hot.ready()) == Route::Hot,
        before.mode == SearchMode::Auto && !before.hot.ready() ==> route_of(
            before.mode,
            before.hot.ready(),
        ) == Route::Cold,
        before.mode != SearchMode::Auto ==> route_of(after.mode, after.hot.ready()) == route_of(
            before.mode,
            before.hot.ready(),
        ),
{
}

/// Whether a tier found a document.
pub open spec fn has_found(r: Result<Vec<ScoredDoc>, TurboError>, id: u64) -> bool {
    r matches Ok(docs) && is_among(docs@, id)
}

/// Whether a document is among results.
pub open spec fn is_among(docs: Seq<ScoredDoc>, id: u64) -> bool {
    exists|i: int| 0 <= i < docs.len() && (#[trigger] docs[i]).id == id
}

/// All that both tiers found, that of the in-memory tier first; nothing where a tier
/// failed.
pub open spec fn found_by_both(
    hot: Result<Vec<ScoredDoc>, TurboError>,
    cold: Result<Vec<ScoredDoc>, TurboError>,
) -> Seq<ScoredDoc> {
    match (hot, cold) {
        (Ok(a), Ok(b)) => a@ + b@,
        (Ok(a), Err(_)) => a@,
        (Err(_), Ok(b)) => b@,
        (Err(_), Err(_)) => Seq::empty(),
    }
}

/// Whether federated results go with what both tiers found in full: each is a result of
/// one of them; every document that either found is among them, unless they are
/// `merge_k` already; and there are `merge_k`, or as many as the tiers found documents
/// between them where that is less.
pub open spec fn holds_all(
    hot: Result<Vec<ScoredDoc>, TurboError>,
    cold: Result<Vec<ScoredDoc>, TurboError>,
    merge_k: usize,
    merged: Seq<ScoredDoc>,
) -> bool {
    let documents = id_set(found_by_both(hot, cold));
    &&& merged.len() == (if merge_k <= documents.len() {
        merge_k as nat
    } else {
        documents.len()
    })
    &&& forall|id: u64| #[trigger]
        has_found(hot, id) ==> merged.len() == merge_k || is_among(merged, id)
    &&& forall|id: u64| #[trigger]
        has_found(cold, id) ==> merged.len() == merge_k || is_among(merged, id)
    &&& forall|i: int|
        0 <= i < merged.len() ==> found_by_both(hot, cold).contains(#[trigger] merged[i])
    &&& forall|i: int, j: int|
        #![trigger merged[i], merged[j]]
        0 <= i < j < merged.len() ==> merged[i].id != merged[j].id
}

/// Whether federated results are the best of what both tiers found in full: none stands
/// before one of a greater score, none is exceeded by another result of its document,
/// and none by one of a document that was left out.
pub open spec fn holds_the_best(
    hot: Result<Vec<ScoredDoc>, TurboError>,
    cold: Result<Vec<ScoredDoc>, TurboError>,
    merged: Seq<ScoredDoc>,
) -> bool {
    let found = found_by_both(hot, cold);
    (forall|i: int| 0 <= i < found.len() ==> !(#[trigger] found[i]).score.nan()) ==> {
        &&& forall|i: int, j: int|
            #![trigger merged[i], merged[j]]
            0 <= i < j < merged.len() ==> !merged[i].score.less(merged[j].score)
        &&& forall|i: int, m: int|
            #![trigger merged[i], found[m]]
            0 <= i < merged.len() && 0 <= m < found.len() && (found[m].id == merged[i].id || forall|
                j: int,
            |
                0 <= j < merged.len() ==> (#[trigger] merged[j]).id != found[m].id)
                ==> !merged[i].score.less(found[m].score)
    }
}

/// A federated search asks both tiers and loses nothing that either found, but for the
/// limit: the in-memory tier gave an answer such that the results hold every document
/// of that answer and of the durable tier's, up to `merge_k`, and the best of them.
pub proof fn law_federated_search(
    hot: TurboVecStore,
    request: &SearchRequest<'_>,
    cold: Result<Vec<ScoredDoc>, TurboError>,
    merge_k: usize,
    r: Result<Vec<ScoredDoc>, TurboError>,
)
    requires
        is_federated(hot, request, cold, merge_k, r),
    ensures
        r is Ok,
        exists|answer: Result<Vec<ScoredDoc>, TurboError>| #[trigger]
            hot.answers(request, answer) && holds_all(answer, cold, merge_k, r.unwrap()@)
                && holds_the_best(answer, cold, r.unwrap()@),
{
    let answer = choose|answer: Result<Vec<ScoredDoc>, TurboError>| #[trigger]
        hot.answers(request, answer) && r is Ok && is_merge_of(
            results_of(answer),
            results_of(cold),
            merge_k as int,
            results_of(r),
        );
    law_merge_of_tiers(answer, cold, merge_k, r.unwrap()@);
}

/// Merging the answers of both tiers loses nothing that either found, but for the limit,
/// and keeps the best.
pub proof fn law_merge_of_tiers(
    hot: Result<Vec<ScoredDoc>, TurboError>,
    cold: Result<Vec<ScoredDoc>, TurboError>,
    merge_k: usize,
    merged: Seq<ScoredDoc>,
)
    requires
        is_merge_of(results_of(hot), results_of(cold), merge_k as int, merged),
    ensures
        holds_all(hot, cold, merge_k, merged),
        holds_the_best(hot, cold, merged),
{
    let a = results_of(hot);
    let b = results_of(cold);
    let found = found_by_both(hot, cold);
    assert(found =~= a + b);
    law_merge_count(a, b, merge_k as int, merged);
    assert forall|id: u64| #[trigger] has_found(hot, id) implies merged.len() == merge_k
        || is_among(merged, id) by {
        if merged.len() < merge_k {
            let i = choose|i: int| 0 <= i < a.len() && (#[trigger] a[i]).id == id;
            assert(a.contains(a[i]));
            law_merge_loses_no_id(a, b, merge_k as int, merged, a[i]);
        }
    }
    assert forall|id: u64| #[trigger] has_found(cold, id) implies merged.len() == merge_k
        || is_among(merged, id) by {
        if merged.len() < merge_k {
            let i = choose|i: int| 0 <= i < b.len() && (#[trigger] b[i]).id == id;
            assert(b.contains(b[i]));
            law_merge_loses_no_id(a, b, merge_k as int, merged, b[i]);
        }
    }
    assert forall|i: int| 0 <= i < merged.len() implies found.contains(#[trigger] merged[i]) by {
        if a.contains(merged[i]) {
            let m = choose|m: int| 0 <= m < a.len() && a[m] == merged[i];
            assert(found[m] == merged[i]);
        } else {
            let m = choose|m: int| 0 <= m < b.len() && b[m] == merged[i];
            assert(found[a.len() + m] == merged[i]);
        }
    }
    if forall|i: int| 0 <= i < found.len() ==> !(#[trigger] found[i]).score.nan() {
        assert(!has_nan(a + b));
        law_merge(a, b, merge_k as int, merged);
        assert forall|i: int, m: int|
            #![trigger merged[i], found[m]]
            0 <= i < merged.len() && 0 <= m < found.len() && (found[m].id == merged[i].id || forall|
                j: int,
            |
                0 <= j < merged.len() ==> (#[trigger] merged[j]).id
                    != found[m].id) implies !merged[i].score.less(found[m].score) by {
            assert((a + b)[m] == found[m]);
            assert((a + b).contains(found[m]));
            let doc = found[m];
            assert(doc.score == found[m].score);
            if found[m].id != merged[i].id {
                let ids = merged.map_values(|d: ScoredDoc| d.id);
                if id_set(merged).contains(doc.id) {
                    let j = choose|j: int| 0 <= j < ids.len() && ids[j] == doc.id;
                    assert(merged[j].id == doc.id);
                }
            }
        }
    }
}

/// The in-memory tier that was filled from the durable one knows the text of every row,
/// whole: where an identifier has more rows than one, that of the last.
pub proof fn law_rebuilt_texts(
    before: TurboVecStore,
    batches: Seq<Batch>,
    after: TurboVecStore,
    i: int,
)
    requires
        is_rebuilt(before, batches, after),
        0 <= i < stored_docs(batches).len(),
        forall|j: int|
            i < j < stored_docs(batches).len() ==> (#[trigger] stored_docs(batches)[j]).id
                != stored_docs(batches)[i].id,
    ensures
        after.known_texts().contains_key(stored_docs(batches)[i].id),
        after.known_texts()[stored_docs(batches)[i].id] == stored_docs(batches)[i].text,
{
    let rows = stored_docs(batches);
    let docs = choose|docs: Seq<EmbeddedDoc>| #[trigger]
        took_in(before, docs, after) && embedded_views(docs) == stored_docs(batches);
    assert(docs.len() == rows.len());
    assert forall|j: int| 0 <= j < docs.len() implies (#[trigger] docs[j])@ == rows[j] by {
        assert(embedded_views(docs)[j] == docs[j]@);
    }
    assert(docs[i]@ == rows[i]);
    assert forall|j: int| i < j < docs.len() implies (#[trigger] docs[j]).id != docs[i].id by {
        assert(docs[j]@ == rows[j]);
        assert(rows[j].id != rows[i].id);
    }
    law_upsert_texts_are_known(before, docs, after, i);
}

} // verus!
