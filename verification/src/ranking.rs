//! Ordering, deduplicating and cutting result lists.

use crate::document::ScoredDoc;
use crate::scalar::{law_scalar_order, Scalar};
use std::collections::{HashMap, HashSet};
use vstd::prelude::*;

verus! {

broadcast use vstd::std_specs::hash::group_hash_axioms;

/// Whether some result carries a score that is not a number.
pub open spec fn has_nan(docs: Seq<ScoredDoc>) -> bool {
    exists|i: int| 0 <= i < docs.len() && (#[trigger] docs[i]).score.nan()
}

/// No result stands before one with a greater score.
pub open spec fn descending(docs: Seq<ScoredDoc>) -> bool {
    forall|i: int, j: int|
        #![trigger docs[i], docs[j]]
        0 <= i < j < docs.len() ==> !docs[i].score.less(docs[j].score)
}

/// The results whose score has the given key, in their order.
pub open spec fn with_key(docs: Seq<ScoredDoc>, key: int) -> Seq<ScoredDoc> {
    docs.filter(|d: ScoredDoc| d.score.key() == key)
}

/// `ranked` is `docs` in descending order of score. Results of equal score keep
/// their order, and none is lost or invented. Where a score is not a number
/// there is no order to speak of, and only the rest is claimed.
pub open spec fn is_ranking_of(docs: Seq<ScoredDoc>, ranked: Seq<ScoredDoc>) -> bool {
    &&& ranked.len() == docs.len()
    &&& forall|key: int| #[trigger] with_key(ranked, key) == with_key(docs, key)
    &&& !has_nan(docs) ==> descending(ranked)
}

/// Whether no earlier result has the identifier of result `i`.
pub open spec fn first_of_its_id(docs: Seq<ScoredDoc>, i: int) -> bool {
    forall|j: int| 0 <= j < i ==> (#[trigger] docs[j]).id != docs[i].id
}

/// The results that are the first of their identifier, in their order.
pub open spec fn first_per_id(docs: Seq<ScoredDoc>) -> Seq<ScoredDoc>
    decreases docs.len(),
{
    if docs.len() == 0 {
        docs
    } else {
        let before = first_per_id(docs.drop_last());
        if first_of_its_id(docs, docs.len() - 1) {
            before.push(docs.last())
        } else {
            before
        }
    }
}

/// The first `k` results, or all of them where there are no more.
pub open spec fn top(docs: Seq<ScoredDoc>, k: int) -> Seq<ScoredDoc> {
    if docs.len() <= k {
        docs
    } else {
        docs.take(k)
    }
}

proof fn lemma_insert_filters(s: Seq<ScoredDoc>, p: int, x: ScoredDoc, key: int)
    requires
        0 <= p <= s.len(),
        forall|i: int| p <= i < s.len() ==> (#[trigger] s[i]).score.key() != x.score.key(),
    ensures
        with_key(s.insert(p, x), key) == with_key(s.push(x), key),
{
    let pred = |d: ScoredDoc| d.score.key() == key;
    let left = s.take(p);
    let right = s.skip(p);
    let one = seq![x];
    assert(s.insert(p, x) =~= (left + one) + right);
    assert(s.push(x) =~= (left + right) + one);
    Seq::filter_distributes_over_add(left + one, right, pred);
    Seq::filter_distributes_over_add(left, one, pred);
    Seq::filter_distributes_over_add(left + right, one, pred);
    Seq::filter_distributes_over_add(left, right, pred);
    if x.score.key() == key {
        assert(right.filter(pred).len() == 0) by {
            if right.filter(pred).len() > 0 {
                right.lemma_filter_pred(pred, 0);
                let y = right.filter(pred)[0];
                lemma_filter_subset(right, pred, 0);
                let i = choose|i: int| 0 <= i < right.len() && right[i] == y;
                assert(s[p + i] == y);
            }
        }
    } else {
        reveal_with_fuel(Seq::filter, 2);
        assert(one.drop_last() =~= Seq::<ScoredDoc>::empty());
        assert(one.filter(pred) =~= Seq::<ScoredDoc>::empty());
    }
    assert(((left.filter(pred) + one.filter(pred)) + right.filter(pred)) =~= ((left.filter(pred)
        + right.filter(pred)) + one.filter(pred)));
}

proof fn lemma_filter_subset(s: Seq<ScoredDoc>, pred: spec_fn(ScoredDoc) -> bool, i: int)
    requires
        0 <= i < s.filter(pred).len(),
    ensures
        exists|j: int| 0 <= j < s.len() && s[j] == s.filter(pred)[i],
    decreases s.len(),
{
    reveal(Seq::filter);
    if s.len() > 0 {
        let rest = s.drop_last();
        if i < rest.filter(pred).len() {
            lemma_filter_subset(rest, pred, i);
            let j = choose|j: int| 0 <= j < rest.len() && rest[j] == rest.filter(pred)[i];
            assert(s[j] == s.filter(pred)[i]);
        } else {
            assert(s[s.len() - 1] == s.filter(pred)[i]);
        }
    }
}

proof fn lemma_push_filters(a: Seq<ScoredDoc>, b: Seq<ScoredDoc>, x: ScoredDoc, key: int)
    requires
        with_key(a, key) == with_key(b, key),
    ensures
        with_key(a.push(x), key) == with_key(b.push(x), key),
{
    reveal(Seq::filter);
    assert(a.push(x).drop_last() =~= a);
    assert(b.push(x).drop_last() =~= b);
}

/// A ranking holds exactly the results that were ranked.
pub proof fn law_ranking_keeps_results(docs: Seq<ScoredDoc>, ranked: Seq<ScoredDoc>, doc: ScoredDoc)
    requires
        is_ranking_of(docs, ranked),
    ensures
        ranked.contains(doc) <==> docs.contains(doc),
{
    let key = doc.score.key();
    lemma_key_members(docs, doc);
    lemma_key_members(ranked, doc);
    assert(with_key(ranked, key) == with_key(docs, key));
}

proof fn lemma_key_members(docs: Seq<ScoredDoc>, doc: ScoredDoc)
    ensures
        with_key(docs, doc.score.key()).contains(doc) <==> docs.contains(doc),
{
    let key = doc.score.key();
    let pred = |d: ScoredDoc| d.score.key() == key;
    if docs.contains(doc) {
        let i = choose|i: int| 0 <= i < docs.len() && docs[i] == doc;
        docs.lemma_filter_contains(pred, i);
    }
    if with_key(docs, key).contains(doc) {
        let j = choose|j: int| 0 <= j < with_key(docs, key).len() && with_key(docs, key)[j] == doc;
        lemma_filter_subset(docs, pred, j);
    }
}

/// Sorts results by descending score, keeping the order of equal ones.
pub fn sort_by_score(docs: Vec<ScoredDoc>) -> (ranked: Vec<ScoredDoc>)
    ensures
        is_ranking_of(docs@, ranked@),
{
    let ghost all = docs@;
    let mut ranked: Vec<ScoredDoc> = Vec::new();
    proof {
        assert(all.take(0) =~= ranked@);
    }
    for doc in it: docs
        invariant
            it.seq() == all,
            is_ranking_of(all.take(it.index()), ranked@),
    {
        let ghost seen = all.take(it.index());
        let ghost before = ranked@;
        let mut p: usize = ranked.len();
        while p > 0 && ranked[p - 1].score.is_less(doc.score)
            invariant
                p <= ranked.len(),
                ranked@ == before,
                forall|i: int| p <= i < ranked.len() ==> (#[trigger] ranked[i]).score.less(doc.score),
            decreases p,
        {
            p = p - 1;
        }
        ranked.insert(p, doc);
        proof {
            let now = all.take(it.index() + 1);
            assert(now =~= seen.push(doc));
            assert forall|key: int| #[trigger] with_key(ranked@, key) == with_key(now, key) by {
                lemma_insert_filters(before, p as int, doc, key);
                assert(with_key(before, key) == with_key(seen, key));
                lemma_push_filters(before, seen, doc, key);
            }
            if !has_nan(now) {
                assert(!has_nan(seen)) by {
                    if has_nan(seen) {
                        let i = choose|i: int| 0 <= i < seen.len() && (#[trigger] seen[i]).score.nan();
                        assert(now[i].score.nan());
                    }
                }
                assert(!doc.score.nan()) by {
                    assert(now[seen.len() as int] == doc);
                }
                assert(!has_nan(before)) by {
                    if has_nan(before) {
                        let i = choose|i: int|
                            0 <= i < before.len() && (#[trigger] before[i]).score.nan();
                        law_ranking_keeps_results(seen, before, before[i]);
                        let m = choose|m: int| 0 <= m < seen.len() && seen[m] == before[i];
                        assert(seen[m].score.nan());
                    }
                }
                assert(descending(ranked@));
            }
        }
    }
    proof {
        assert(all.take(all.len() as int) =~= all);
    }
    ranked
}

/// Drops every result whose identifier an earlier one has.
pub fn keep_first_per_id(docs: Vec<ScoredDoc>) -> (kept: Vec<ScoredDoc>)
    ensures
        kept@ == first_per_id(docs@),
{
    let ghost all = docs@;
    let mut seen: HashSet<u64> = HashSet::new();
    let mut kept: Vec<ScoredDoc> = Vec::new();
    proof {
        assert(all.take(0) =~= kept@);
    }
    for doc in it: docs
        invariant
            it.seq() == all,
            kept@ == first_per_id(all.take(it.index())),
            forall|id: u64|
                seen@.contains(id) <==> exists|i: int|
                    0 <= i < it.index() && (#[trigger] all[i]).id == id,
    {
        proof {
            let now = all.take(it.index() + 1);
            assert(now.drop_last() =~= all.take(it.index()));
            assert(now.last() == doc);
            if seen@.contains(doc.id) {
                let i = choose|i: int| 0 <= i < it.index() && (#[trigger] all[i]).id == doc.id;
                assert(now[i].id == doc.id);
            } else {
                assert forall|j: int| 0 <= j < now.len() - 1 implies (#[trigger] now[j]).id
                    != doc.id by {
                    assert(all[j].id != doc.id);
                }
            }
        }
        let id: u64 = doc.id;
        if seen.insert(id) {
            kept.push(doc);
        }
        proof {
            assert(all[it.index()].id == id);
        }
    }
    proof {
        assert(all.take(all.len() as int) =~= all);
    }
    kept
}

/// What a federated query answers: the results of the tiers that succeeded, hot
/// before cold, ranked, one per identifier, and at most `merge_k` of them.
pub open spec fn is_merge_of(
    hot: Seq<ScoredDoc>,
    cold: Seq<ScoredDoc>,
    merge_k: int,
    merged: Seq<ScoredDoc>,
) -> bool {
    exists|ranked: Seq<ScoredDoc>| #[trigger]
        is_ranking_of(hot + cold, ranked) && merged == top(first_per_id(ranked), merge_k)
}

/// Merges the results of both tiers by score.
pub fn merge_results(hot: Vec<ScoredDoc>, cold: Vec<ScoredDoc>, merge_k: usize) -> (merged: Vec<
    ScoredDoc,
>)
    ensures
        is_merge_of(hot@, cold@, merge_k as int, merged@),
{
    let mut all = hot;
    let mut tail = cold;
    all.append(&mut tail);
    let ranked = sort_by_score(all);
    let ghost order = ranked@;
    let mut merged = keep_first_per_id(ranked);
    merged.truncate(merge_k);
    proof {
        assert(is_ranking_of(hot@ + cold@, order));
        assert(merged@ =~= top(first_per_id(order), merge_k as int));
    }
    merged
}

/// Where `docs` holds a result with this identifier.
pub open spec fn position_of(docs: Seq<ScoredDoc>, id: u64) -> Option<int> {
    if exists|i: int| 0 <= i < docs.len() && (#[trigger] docs[i]).id == id {
        Some(choose|i: int| 0 <= i < docs.len() && (#[trigger] docs[i]).id == id)
    } else {
        None
    }
}

/// One result per identifier, standing where the identifier first came up: the
/// occurrence of the highest score, the earliest of those.
pub open spec fn best_per_id(docs: Seq<ScoredDoc>) -> Seq<ScoredDoc>
    decreases docs.len(),
{
    if docs.len() == 0 {
        docs
    } else {
        let before = best_per_id(docs.drop_last());
        let doc = docs.last();
        match position_of(before, doc.id) {
            Some(i) => if before[i].score.less(doc.score) {
                before.update(i, doc)
            } else {
                before
            },
            None => before.push(doc),
        }
    }
}

/// Whether no two results have the same identifier.
pub open spec fn distinct_ids(docs: Seq<ScoredDoc>) -> bool {
    forall|i: int, j: int|
        #![trigger docs[i], docs[j]]
        0 <= i < j < docs.len() ==> docs[i].id != docs[j].id
}

/// Keeps of each identifier the result with the highest score.
pub fn keep_best_per_id(docs: Vec<ScoredDoc>) -> (kept: Vec<ScoredDoc>)
    ensures
        kept@ == best_per_id(docs@),
{
    let ghost all = docs@;
    let mut seen: HashMap<u64, usize> = HashMap::new();
    let mut kept: Vec<ScoredDoc> = Vec::new();
    proof {
        assert(all.take(0) =~= kept@);
    }
    for doc in it: docs
        invariant
            it.seq() == all,
            kept@ == best_per_id(all.take(it.index())),
            distinct_ids(kept@),
            forall|id: u64| #[trigger]
                seen@.contains_key(id) ==> seen@[id] < kept.len() && kept[seen@[id] as int].id
                    == id,
            forall|i: int| 0 <= i < kept.len() ==> seen@.contains_key((#[trigger] kept[i]).id),
    {
        let ghost before = kept@;
        let ghost seen_before = seen@;
        proof {
            let now = all.take(it.index() + 1);
            assert(now.drop_last() =~= all.take(it.index()));
            assert(now.last() == doc);
            assert(best_per_id(now.drop_last()) == before);
        }
        let id: u64 = doc.id;
        match seen.get(&id) {
            Some(slot) => {
                let at: usize = *slot;
                proof {
                    assert(before[at as int].id == id);
                    let i = position_of(before, id);
                    assert(i == Some(at as int));
                }
                if kept[at].score.is_less(doc.score) {
                    kept.set(at, doc);
                }
            },
            None => {
                proof {
                    assert(!seen_before.contains_key(id));
                    assert(position_of(before, id) is None) by {
                        assert forall|i: int| 0 <= i < before.len() implies (#[trigger] before[i]).id
                            != id by {
                            assert(seen_before.contains_key(before[i].id));
                        }
                    }
                }
                seen.insert(id, kept.len());
                kept.push(doc);
            },
        }
    }
    proof {
        assert(all.take(all.len() as int) =~= all);
    }
    kept
}

/// A ranking of numbers is unique: two rankings of the same results are equal.
pub proof fn law_ranking_unique(docs: Seq<ScoredDoc>, a: Seq<ScoredDoc>, b: Seq<ScoredDoc>)
    requires
        !has_nan(docs),
        is_ranking_of(docs, a),
        is_ranking_of(docs, b),
    ensures
        a == b,
{
    lemma_ranking_numbers(docs, a);
    lemma_ranking_numbers(docs, b);
    assert forall|key: int| #[trigger] with_key(a, key) == with_key(b, key) by {
        assert(with_key(a, key) == with_key(docs, key));
        assert(with_key(b, key) == with_key(docs, key));
    }
    lemma_same_keys_equal(a, b);
}

proof fn lemma_ranking_numbers(docs: Seq<ScoredDoc>, ranked: Seq<ScoredDoc>)
    requires
        !has_nan(docs),
        is_ranking_of(docs, ranked),
    ensures
        !has_nan(ranked),
{
    if has_nan(ranked) {
        let i = choose|i: int| 0 <= i < ranked.len() && (#[trigger] ranked[i]).score.nan();
        law_ranking_keeps_results(docs, ranked, ranked[i]);
        let m = choose|m: int| 0 <= m < docs.len() && docs[m] == ranked[i];
        assert(docs[m].score.nan());
    }
}

proof fn lemma_key_of_rest(s: Seq<ScoredDoc>, key: int)
    requires
        s.len() > 0,
    ensures
        s[0].score.key() == key ==> with_key(s, key) == seq![s[0]] + with_key(s.drop_first(), key),
        s[0].score.key() != key ==> with_key(s, key) == with_key(s.drop_first(), key),
{
    let pred = |d: ScoredDoc| d.score.key() == key;
    let one = seq![s[0]];
    assert(s =~= one + s.drop_first());
    Seq::filter_distributes_over_add(one, s.drop_first(), pred);
    reveal_with_fuel(Seq::filter, 2);
    assert(one.drop_last() =~= Seq::<ScoredDoc>::empty());
    assert(one.filter(pred) =~= if pred(s[0]) {
        one
    } else {
        Seq::<ScoredDoc>::empty()
    });
    assert(with_key(s, key) =~= one.filter(pred) + with_key(s.drop_first(), key));
}

proof fn lemma_key_not_above_head(a: Seq<ScoredDoc>, b: Seq<ScoredDoc>)
    requires
        a.len() > 0,
        b.len() > 0,
        !has_nan(a),
        descending(a),
        forall|key: int| #[trigger] with_key(a, key) == with_key(b, key),
    ensures
        b[0].score.key() <= a[0].score.key(),
{
    let doc = b[0];
    lemma_key_members(a, doc);
    lemma_key_members(b, doc);
    assert(b.contains(doc));
    assert(with_key(a, doc.score.key()) == with_key(b, doc.score.key()));
    let i = choose|i: int| 0 <= i < a.len() && a[i] == doc;
    assert(!a[0].score.nan() && !a[i].score.nan());
}

proof fn lemma_same_keys_equal(a: Seq<ScoredDoc>, b: Seq<ScoredDoc>)
    requires
        a.len() == b.len(),
        !has_nan(a),
        !has_nan(b),
        descending(a),
        descending(b),
        forall|key: int| #[trigger] with_key(a, key) == with_key(b, key),
    ensures
        a == b,
    decreases a.len(),
{
    if a.len() > 0 {
        lemma_key_not_above_head(a, b);
        lemma_key_not_above_head(b, a);
        let top_key = a[0].score.key();
        lemma_key_of_rest(a, top_key);
        lemma_key_of_rest(b, top_key);
        assert(with_key(a, top_key)[0] == a[0]);
        assert(with_key(b, top_key)[0] == b[0]);
        let ra = a.drop_first();
        let rb = b.drop_first();
        assert forall|key: int| #[trigger] with_key(ra, key) == with_key(rb, key) by {
            lemma_key_of_rest(a, key);
            lemma_key_of_rest(b, key);
            assert(with_key(a, key) == with_key(b, key));
            if key == top_key {
                assert(with_key(ra, key) =~= with_key(a, key).drop_first());
                assert(with_key(rb, key) =~= with_key(b, key).drop_first());
            }
        }
        assert(!has_nan(ra)) by {
            if has_nan(ra) {
                let i = choose|i: int| 0 <= i < ra.len() && (#[trigger] ra[i]).score.nan();
                assert(a[i + 1].score.nan());
            }
        }
        assert(!has_nan(rb)) by {
            if has_nan(rb) {
                let i = choose|i: int| 0 <= i < rb.len() && (#[trigger] rb[i]).score.nan();
                assert(b[i + 1].score.nan());
            }
        }
        lemma_same_keys_equal(ra, rb);
        assert(a =~= seq![a[0]] + ra);
        assert(b =~= seq![b[0]] + rb);
    } else {
        assert(a =~= b);
    }
}

/// Whether `doc` stands in `docs` before any other with its identifier.
pub open spec fn is_a_first(docs: Seq<ScoredDoc>, doc: ScoredDoc) -> bool {
    exists|i: int| 0 <= i < docs.len() && #[trigger] first_of_its_id(docs, i) && docs[i] == doc
}

proof fn lemma_firsts_of_rest(docs: Seq<ScoredDoc>, doc: ScoredDoc)
    requires
        docs.len() > 0,
    ensures
        is_a_first(docs, doc) <==> is_a_first(docs.drop_last(), doc) || (first_of_its_id(
            docs,
            docs.len() - 1,
        ) && docs.last() == doc),
{
    let rest = docs.drop_last();
    if is_a_first(rest, doc) {
        let i = choose|i: int|
            0 <= i < rest.len() && #[trigger] first_of_its_id(rest, i) && rest[i] == doc;
        assert forall|j: int| 0 <= j < i implies (#[trigger] docs[j]).id != docs[i].id by {
            assert(rest[j] == docs[j]);
        }
        assert(first_of_its_id(docs, i));
    }
    if is_a_first(docs, doc) {
        let i = choose|i: int|
            0 <= i < docs.len() && #[trigger] first_of_its_id(docs, i) && docs[i] == doc;
        if i < rest.len() {
            assert forall|j: int| 0 <= j < i implies (#[trigger] rest[j]).id != rest[i].id by {
                assert(rest[j] == docs[j]);
            }
            assert(first_of_its_id(rest, i));
        }
    }
}

proof fn lemma_first_per_id_members(docs: Seq<ScoredDoc>, doc: ScoredDoc)
    ensures
        first_per_id(docs).contains(doc) <==> is_a_first(docs, doc),
    decreases docs.len(),
{
    if docs.len() > 0 {
        let rest = docs.drop_last();
        let before = first_per_id(rest);
        lemma_first_per_id_members(rest, doc);
        lemma_firsts_of_rest(docs, doc);
        if first_of_its_id(docs, docs.len() - 1) {
            let kept = before.push(docs.last());
            if before.contains(doc) {
                let j = choose|j: int| 0 <= j < before.len() && before[j] == doc;
                assert(kept[j] == doc);
            }
            if kept.contains(doc) {
                let j = choose|j: int| 0 <= j < kept.len() && kept[j] == doc;
                if j < before.len() {
                    assert(before[j] == doc);
                }
            }
            assert(kept[before.len() as int] == docs.last());
        }
    }
}

/// Dropping later occurrences keeps exactly the results that are the first of
/// their identifier, so that no identifier is left twice, and leaves a
/// descending list descending.
pub proof fn law_first_per_id(docs: Seq<ScoredDoc>)
    ensures
        forall|doc: ScoredDoc| #[trigger]
            first_per_id(docs).contains(doc) <==> is_a_first(docs, doc),
        distinct_ids(first_per_id(docs)),
        descending(docs) ==> descending(first_per_id(docs)),
    decreases docs.len(),
{
    assert forall|doc: ScoredDoc| #[trigger] first_per_id(docs).contains(doc) <==> is_a_first(
        docs,
        doc,
    ) by {
        lemma_first_per_id_members(docs, doc);
    }
    if docs.len() > 0 {
        let rest = docs.drop_last();
        let before = first_per_id(rest);
        let last = docs.len() - 1;
        law_first_per_id(rest);
        if descending(docs) {
            assert(descending(rest)) by {
                assert forall|i: int, j: int| 0 <= i < j < rest.len() implies !(
                #[trigger] rest[i]).score.less((#[trigger] rest[j]).score) by {
                    assert(docs[i] == rest[i] && docs[j] == rest[j]);
                }
            }
        }
        if first_of_its_id(docs, last) {
            assert forall|i: int| 0 <= i < before.len() implies (#[trigger] before[i]).id
                != docs[last].id && (descending(docs) ==> !before[i].score.less(
                docs[last].score,
            )) by {
                assert(before.contains(before[i]));
                lemma_first_per_id_members(rest, before[i]);
                let m = choose|m: int|
                    0 <= m < rest.len() && #[trigger] first_of_its_id(rest, m) && rest[m]
                        == before[i];
                assert(docs[m] == before[i]);
            }
        }
    }
}

proof fn lemma_earliest(docs: Seq<ScoredDoc>, m: int) -> (i: int)
    requires
        0 <= m < docs.len(),
    ensures
        0 <= i <= m,
        docs[i].id == docs[m].id,
        first_of_its_id(docs, i),
    decreases m,
{
    if first_of_its_id(docs, m) {
        m
    } else {
        let j = choose|j: int| 0 <= j < m && (#[trigger] docs[j]).id == docs[m].id;
        lemma_earliest(docs, j)
    }
}

/// The identifiers of results.
pub open spec fn id_set(docs: Seq<ScoredDoc>) -> Set<u64> {
    docs.map_values(|d: ScoredDoc| d.id).to_set()
}

proof fn lemma_id_set(docs: Seq<ScoredDoc>, id: u64)
    ensures
        id_set(docs).contains(id) <==> exists|i: int|
            0 <= i < docs.len() && (#[trigger] docs[i]).id == id,
{
    let ids = docs.map_values(|d: ScoredDoc| d.id);
    if ids.contains(id) {
        let i = choose|i: int| 0 <= i < ids.len() && ids[i] == id;
        assert(docs[i].id == id);
    }
    if exists|i: int| 0 <= i < docs.len() && (#[trigger] docs[i]).id == id {
        let i = choose|i: int| 0 <= i < docs.len() && (#[trigger] docs[i]).id == id;
        assert(ids[i] == id);
    }
}

/// Results of distinct identifiers are as many as their identifiers.
proof fn lemma_distinct_count(docs: Seq<ScoredDoc>)
    requires
        distinct_ids(docs),
    ensures
        docs.len() == id_set(docs).len(),
{
    let ids = docs.map_values(|d: ScoredDoc| d.id);
    assert(ids.no_duplicates()) by {
        assert forall|i: int, j: int| 0 <= i < ids.len() && 0 <= j < ids.len() && i
            != j implies ids[i] != ids[j] by {
            let (a, b) = if i < j {
                (i, j)
            } else {
                (j, i)
            };
            assert(docs[a].id != docs[b].id);
        }
    }
    ids.unique_seq_to_set();
}

proof fn lemma_first_per_id_ids(docs: Seq<ScoredDoc>)
    ensures
        id_set(first_per_id(docs)) == id_set(docs),
{
    let kept = first_per_id(docs);
    assert forall|id: u64| id_set(kept).contains(id) <==> id_set(docs).contains(id) by {
        lemma_id_set(kept, id);
        lemma_id_set(docs, id);
        if id_set(kept).contains(id) {
            let i = choose|i: int| 0 <= i < kept.len() && (#[trigger] kept[i]).id == id;
            assert(kept.contains(kept[i]));
            lemma_first_per_id_members(docs, kept[i]);
        }
        if id_set(docs).contains(id) {
            let m = choose|m: int| 0 <= m < docs.len() && (#[trigger] docs[m]).id == id;
            let f = lemma_earliest(docs, m);
            assert(is_a_first(docs, docs[f]));
            lemma_first_per_id_members(docs, docs[f]);
            let i = choose|i: int| 0 <= i < kept.len() && kept[i] == docs[f];
            assert(kept[i].id == id);
        }
    }
    assert(id_set(kept) =~= id_set(docs));
}

proof fn lemma_ranking_ids(docs: Seq<ScoredDoc>, ranked: Seq<ScoredDoc>)
    requires
        is_ranking_of(docs, ranked),
    ensures
        id_set(ranked) == id_set(docs),
{
    assert forall|id: u64| id_set(ranked).contains(id) <==> id_set(docs).contains(id) by {
        lemma_id_set(ranked, id);
        lemma_id_set(docs, id);
        if id_set(ranked).contains(id) {
            let i = choose|i: int| 0 <= i < ranked.len() && (#[trigger] ranked[i]).id == id;
            assert(ranked.contains(ranked[i]));
            law_ranking_keeps_results(docs, ranked, ranked[i]);
        }
        if id_set(docs).contains(id) {
            let i = choose|i: int| 0 <= i < docs.len() && (#[trigger] docs[i]).id == id;
            assert(docs.contains(docs[i]));
            law_ranking_keeps_results(docs, ranked, docs[i]);
        }
    }
    assert(id_set(ranked) =~= id_set(docs));
}

/// Among results of one score, the first of an identifier in a ranking is the first of
/// it in the list.
proof fn lemma_first_in_ranking(
    hot: Seq<ScoredDoc>,
    cold: Seq<ScoredDoc>,
    ranked: Seq<ScoredDoc>,
    f: int,
    m: int,
)
    requires
        is_ranking_of(hot + cold, ranked),
        0 <= f < ranked.len(),
        first_of_its_id(ranked, f),
        0 <= m < hot.len(),
        hot[m].id == ranked[f].id,
        hot[m].score.key() == ranked[f].score.key(),
    ensures
        hot.contains(ranked[f]),
{
    let doc = ranked[f];
    let key = doc.score.key();
    let pred = |d: ScoredDoc| d.score.key() == key;
    let before = ranked.take(f);
    let after = ranked.skip(f + 1);
    assert(ranked =~= before.push(doc) + after);
    assert(before.push(doc).drop_last() =~= before);
    Seq::filter_distributes_over_add(before.push(doc), after, pred);
    Seq::filter_distributes_over_add(hot, cold, pred);
    reveal(Seq::filter);
    let head = before.filter(pred);
    let all = with_key(ranked, key);
    assert(before.push(doc).filter(pred) == head.push(doc));
    assert(all == head.push(doc) + after.filter(pred));
    assert(all == with_key(hot + cold, key));
    assert(all == with_key(hot, key) + with_key(cold, key));
    let g = head.len() as int;
    assert(all[g] == doc);
    lemma_key_members(hot, hot[m]);
    assert(hot.contains(hot[m]));
    let h = choose|h: int| 0 <= h < with_key(hot, key).len() && with_key(hot, key)[h] == hot[m];
    if h < g {
        assert(all[h] == head[h]);
        lemma_filter_subset(before, pred, h);
        let e = choose|e: int| 0 <= e < before.len() && before[e] == head[h];
        assert(ranked[e].id != ranked[f].id);
    }
    assert(with_key(hot, key)[g] == doc);
    assert(with_key(hot, key).contains(doc));
    lemma_key_members(hot, doc);
}

/// Federated results are descending and hold no identifier twice: `merge_k` of them,
/// or one for each identifier where there are fewer. Each comes from one of the tiers,
/// and no result of either tier beats the kept one of its identifier; where the tiers
/// tie, that of the in-memory tier is kept. No result of an identifier that was left
/// out beats a kept one.
pub proof fn law_merge(
    hot: Seq<ScoredDoc>,
    cold: Seq<ScoredDoc>,
    merge_k: int,
    merged: Seq<ScoredDoc>,
)
    requires
        merge_k >= 0,
        !has_nan(hot + cold),
        is_merge_of(hot, cold, merge_k, merged),
    ensures
        descending(merged),
        distinct_ids(merged),
        merged.len() == (if merge_k <= id_set(hot + cold).len() {
            merge_k
        } else {
            id_set(hot + cold).len() as int
        }),
        forall|i: int|
            0 <= i < merged.len() ==> hot.contains(#[trigger] merged[i]) || cold.contains(
                merged[i],
            ),
        forall|i: int, doc: ScoredDoc|
            0 <= i < merged.len() && (hot + cold).contains(doc) && doc.id == merged[i].id
                ==> !(#[trigger] merged[i]).score.less((#[trigger] doc.score)),
        forall|i: int, m: int|
            0 <= i < merged.len() && 0 <= m < hot.len() && hot[m].id == merged[i].id
                ==> hot.contains(#[trigger] merged[i]) || (#[trigger] hot[m]).score.less(
                merged[i].score,
            ),
        forall|i: int, doc: ScoredDoc|
            0 <= i < merged.len() && (hot + cold).contains(doc) && !id_set(merged).contains(doc.id)
                ==> !(#[trigger] merged[i]).score.less((#[trigger] doc.score)),
{
    let all = hot + cold;
    let ranked = choose|ranked: Seq<ScoredDoc>| #[trigger]
        is_ranking_of(all, ranked) && merged == top(first_per_id(ranked), merge_k);
    let kept = first_per_id(ranked);
    law_first_per_id(ranked);
    lemma_distinct_count(kept);
    lemma_first_per_id_ids(ranked);
    lemma_ranking_ids(all, ranked);
    assert forall|i: int| 0 <= i < merged.len() implies #[trigger] merged[i] == kept[i] by {}
    assert forall|i: int| 0 <= i < merged.len() implies hot.contains(#[trigger] merged[i])
        || cold.contains(merged[i]) by {
        let doc = merged[i];
        assert(kept.contains(kept[i]));
        lemma_first_per_id_members(ranked, doc);
        assert(ranked.contains(doc));
        law_ranking_keeps_results(all, ranked, doc);
        let m = choose|m: int| 0 <= m < all.len() && all[m] == doc;
        if m < hot.len() {
            assert(hot[m] == doc);
        } else {
            assert(cold[m - hot.len()] == doc);
        }
    }
    assert forall|i: int, doc: ScoredDoc|
        0 <= i < kept.len() && all.contains(doc) && doc.id
            == kept[i].id implies !(#[trigger] kept[i]).score.less((#[trigger] doc.score)) by {
        lemma_kept_is_best(all, ranked, i, doc);
    }
    assert forall|i: int, m: int|
        0 <= i < merged.len() && 0 <= m < hot.len() && hot[m].id
            == merged[i].id implies hot.contains(#[trigger] merged[i]) || (
    #[trigger] hot[m]).score.less(merged[i].score) by {
        assert(all[m] == hot[m]);
        assert(all.contains(hot[m]));
        assert(kept.contains(kept[i]));
        lemma_first_per_id_members(ranked, kept[i]);
        let f = choose|f: int|
            0 <= f < ranked.len() && #[trigger] first_of_its_id(ranked, f) && ranked[f] == kept[i];
        assert(!kept[i].score.less(hot[m].score));
        lemma_ranking_numbers(all, ranked);
        assert(!all[m].score.nan());
        assert(!ranked[f].score.nan());
        if !hot[m].score.less(merged[i].score) {
            lemma_first_in_ranking(hot, cold, ranked, f, m);
        }
    }
    assert forall|i: int, doc: ScoredDoc|
        0 <= i < merged.len() && all.contains(doc) && !id_set(merged).contains(
            doc.id,
        ) implies !(#[trigger] merged[i]).score.less((#[trigger] doc.score)) by {
        let n = choose|n: int| 0 <= n < all.len() && all[n] == doc;
        lemma_id_set(all, doc.id);
        assert(all[n].id == doc.id);
        lemma_id_set(kept, doc.id);
        let p = choose|p: int| 0 <= p < kept.len() && (#[trigger] kept[p]).id == doc.id;
        lemma_id_set(merged, doc.id);
        if p < merged.len() {
            assert(merged[p].id == doc.id);
        }
        assert(!kept[i].score.less(kept[p].score));
        assert(!kept[p].score.less(doc.score));
        lemma_ranking_numbers(all, ranked);
        assert(kept.contains(kept[p]));
        lemma_first_per_id_members(ranked, kept[p]);
        assert(ranked.contains(kept[p]));
        assert(!kept[p].score.nan());
        assert(!all[n].score.nan());
    }
}

proof fn lemma_kept_is_best(
    all: Seq<ScoredDoc>,
    ranked: Seq<ScoredDoc>,
    i: int,
    doc: ScoredDoc,
)
    requires
        !has_nan(all),
        is_ranking_of(all, ranked),
        0 <= i < first_per_id(ranked).len(),
        all.contains(doc),
        doc.id == first_per_id(ranked)[i].id,
    ensures
        !first_per_id(ranked)[i].score.less(doc.score),
{
    let kept = first_per_id(ranked);
    law_ranking_keeps_results(all, ranked, doc);
    let m = choose|m: int| 0 <= m < ranked.len() && ranked[m] == doc;
    assert(kept.contains(kept[i]));
    lemma_first_per_id_members(ranked, kept[i]);
    let f = choose|f: int|
        0 <= f < ranked.len() && #[trigger] first_of_its_id(ranked, f) && ranked[f] == kept[i];
    if m < f {
        assert(ranked[m].id != ranked[f].id);
    }
    if m == f {
        assert(!doc.score.less(doc.score));
    }
}

/// Where the limit does not cut, federated results hold every identifier that
/// either tier found.
pub proof fn law_merge_loses_no_id(
    hot: Seq<ScoredDoc>,
    cold: Seq<ScoredDoc>,
    merge_k: int,
    merged: Seq<ScoredDoc>,
    doc: ScoredDoc,
)
    requires
        is_merge_of(hot, cold, merge_k, merged),
        merged.len() < merge_k,
        hot.contains(doc) || cold.contains(doc),
    ensures
        exists|i: int| 0 <= i < merged.len() && (#[trigger] merged[i]).id == doc.id,
{
    let all = hot + cold;
    let ranked = choose|ranked: Seq<ScoredDoc>| #[trigger]
        is_ranking_of(all, ranked) && merged == top(first_per_id(ranked), merge_k);
    let kept = first_per_id(ranked);
    if hot.contains(doc) {
        let m = choose|m: int| 0 <= m < hot.len() && hot[m] == doc;
        assert(all[m] == doc);
    } else {
        let m = choose|m: int| 0 <= m < cold.len() && cold[m] == doc;
        assert(all[m + hot.len()] == doc);
    }
    law_ranking_keeps_results(all, ranked, doc);
    let m = choose|m: int| 0 <= m < ranked.len() && ranked[m] == doc;
    let f = lemma_earliest(ranked, m);
    assert(is_a_first(ranked, ranked[f]));
    lemma_first_per_id_members(ranked, ranked[f]);
    let i = choose|i: int| 0 <= i < kept.len() && kept[i] == ranked[f];
    assert(merged == kept);
    assert(merged[i].id == doc.id);
}

/// Keeping the best occurrence leaves each identifier once; every kept result
/// comes from the list; every identifier of the list is kept; and no result of
/// the list beats the kept one of its identifier.
pub proof fn law_best_per_id(docs: Seq<ScoredDoc>)
    ensures
        distinct_ids(best_per_id(docs)),
        forall|i: int|
            0 <= i < best_per_id(docs).len() ==> docs.contains(#[trigger] best_per_id(docs)[i]),
        forall|m: int|
            0 <= m < docs.len() ==> position_of(best_per_id(docs), (#[trigger] docs[m]).id) is Some,
        !has_nan(docs) ==> forall|i: int, m: int|
            0 <= i < best_per_id(docs).len() && 0 <= m < docs.len() && docs[m].id == best_per_id(
                docs,
            )[i].id ==> !(#[trigger] best_per_id(docs)[i]).score.less(
                (#[trigger] docs[m]).score,
            ),
    decreases docs.len(),
{
    if docs.len() > 0 {
        let rest = docs.drop_last();
        let before = best_per_id(rest);
        let kept = best_per_id(docs);
        let doc = docs.last();
        let last = docs.len() - 1;
        law_best_per_id(rest);
        let at = position_of(before, doc.id);
        assert forall|i: int| 0 <= i < kept.len() implies docs.contains(#[trigger] kept[i]) by {
            if kept[i] == doc {
                assert(docs[last] == doc);
            } else {
                assert(kept[i] == before[i]);
                assert(rest.contains(before[i]));
                let m = choose|m: int| 0 <= m < rest.len() && rest[m] == before[i];
                assert(docs[m] == kept[i]);
            }
        }
        assert forall|m: int| 0 <= m < docs.len() implies position_of(
            kept,
            (#[trigger] docs[m]).id,
        ) is Some by {
            let id = docs[m].id;
            if m < last {
                assert(rest[m] == docs[m]);
                assert(position_of(before, id) is Some);
                let i = choose|i: int| 0 <= i < before.len() && (#[trigger] before[i]).id == id;
                assert(kept[i].id == id);
            } else if at is Some {
                assert(kept[at.unwrap()].id == id);
            } else {
                assert(kept[before.len() as int].id == id);
            }
        }
        if !has_nan(docs) {
            assert(!has_nan(rest)) by {
                if has_nan(rest) {
                    let i = choose|i: int| 0 <= i < rest.len() && (#[trigger] rest[i]).score.nan();
                    assert(docs[i].score.nan());
                }
            }
            assert forall|i: int, m: int|
                0 <= i < kept.len() && 0 <= m < docs.len() && docs[m].id
                    == kept[i].id implies !(#[trigger] kept[i]).score.less(
                (#[trigger] docs[m]).score,
            ) by {
                assert(!docs[m].score.nan() && !docs[last].score.nan());
                if m < last {
                    assert(rest[m] == docs[m]);
                    if at is Some {
                        assert(!before[i].score.less(rest[m].score));
                        if kept[i] != before[i] {
                            assert(before[i].score.less(doc.score));
                        }
                    } else if i < before.len() {
                        assert(!before[i].score.less(rest[m].score));
                    } else {
                        assert(position_of(before, rest[m].id) is Some);
                    }
                } else if at is Some {
                    let p = at.unwrap();
                    assert(kept[p].id == doc.id);
                    assert(i == p) by {
                        if i != p {
                            assert(before[i].id != before[p].id);
                        }
                    }
                } else if i < before.len() {
                    assert(before[i].id != doc.id);
                }
            }
        }
    }
}

/// A list in which no identifier comes up twice is kept as it is.
pub proof fn law_best_of_distinct(docs: Seq<ScoredDoc>)
    requires
        distinct_ids(docs),
    ensures
        best_per_id(docs) == docs,
    decreases docs.len(),
{
    if docs.len() > 0 {
        let rest = docs.drop_last();
        assert forall|i: int, j: int| 0 <= i < j < rest.len() implies (#[trigger] rest[i]).id != (
        #[trigger] rest[j]).id by {
            assert(docs[i] == rest[i] && docs[j] == rest[j]);
        }
        law_best_of_distinct(rest);
        assert(position_of(rest, docs.last().id) is None) by {
            assert forall|i: int| 0 <= i < rest.len() implies (#[trigger] rest[i]).id
                != docs.last().id by {
                assert(docs[i] == rest[i] && docs.last() == docs[docs.len() - 1]);
            }
        }
        assert(rest.push(docs.last()) =~= docs);
    }
}

/// A descending list of numbers is its own ranking.
pub proof fn law_descending_is_ranked(docs: Seq<ScoredDoc>, ranked: Seq<ScoredDoc>)
    requires
        !has_nan(docs),
        descending(docs),
        is_ranking_of(docs, ranked),
    ensures
        ranked == docs,
{
    assert(is_ranking_of(docs, docs));
    law_ranking_unique(docs, docs, ranked);
}

/// How many results a merge has, whatever their scores: one for each identifier of either
/// tier, or `merge_k` where there are more.
pub proof fn law_merge_count(
    hot: Seq<ScoredDoc>,
    cold: Seq<ScoredDoc>,
    merge_k: int,
    merged: Seq<ScoredDoc>,
)
    requires
        merge_k >= 0,
        is_merge_of(hot, cold, merge_k, merged),
    ensures
        merged.len() == (if merge_k <= id_set(hot + cold).len() {
            merge_k
        } else {
            id_set(hot + cold).len() as int
        }),
        forall|i: int|
            0 <= i < merged.len() ==> hot.contains(#[trigger] merged[i]) || cold.contains(
                merged[i],
            ),
        forall|i: int, j: int|
            #![trigger merged[i], merged[j]]
            0 <= i < j < merged.len() ==> merged[i].id != merged[j].id,
{
    let all = hot + cold;
    let ranked = choose|ranked: Seq<ScoredDoc>| #[trigger]
        is_ranking_of(all, ranked) && merged == top(first_per_id(ranked), merge_k);
    let kept = first_per_id(ranked);
    law_first_per_id(ranked);
    lemma_distinct_count(kept);
    lemma_first_per_id_ids(ranked);
    lemma_ranking_ids(all, ranked);
    assert forall|i: int| 0 <= i < merged.len() implies hot.contains(#[trigger] merged[i])
        || cold.contains(merged[i]) by {
        let doc = merged[i];
        assert(kept[i] == doc);
        assert(kept.contains(kept[i]));
        lemma_first_per_id_members(ranked, doc);
        assert(ranked.contains(doc));
        law_ranking_keeps_results(all, ranked, doc);
        let m = choose|m: int| 0 <= m < all.len() && all[m] == doc;
        if m < hot.len() {
            assert(hot[m] == doc);
        } else {
            assert(cold[m - hot.len()] == doc);
        }
    }
    assert forall|i: int, j: int| 0 <= i < j < merged.len() implies (#[trigger] merged[i]).id != (
    #[trigger] merged[j]).id by {
        assert(kept[i] == merged[i] && kept[j] == merged[j]);
    }
}

proof fn lemma_count_by_key(docs: Seq<ScoredDoc>, doc: ScoredDoc)
    ensures
        with_key(docs, doc.score.key()).to_multiset().count(doc) == docs.to_multiset().count(doc),
    decreases docs.len(),
{
    broadcast use vstd::seq_lib::group_to_multiset_ensures;

    reveal(Seq::filter);
    let key = doc.score.key();
    if docs.len() > 0 {
        let rest = docs.drop_last();
        lemma_count_by_key(rest, doc);
        assert(docs =~= rest.push(docs.last()));
    }
}

/// The results whose score is neither above nor below the given one, in their order;
/// there is no such order with scores that are no numbers.
pub open spec fn results_at(docs: Seq<ScoredDoc>, score: Scalar) -> Seq<ScoredDoc>
    decreases docs.len(),
{
    if docs.len() == 0 || score.nan() {
        Seq::empty()
    } else {
        let before = results_at(docs.drop_last(), score);
        let doc = docs.last();
        if !doc.score.nan() && !doc.score.less(score) && !score.less(doc.score) {
            before.push(doc)
        } else {
            before
        }
    }
}

proof fn lemma_results_at(docs: Seq<ScoredDoc>, score: Scalar)
    ensures
        !score.nan() ==> results_at(docs, score) == with_key(docs, score.key()),
    decreases docs.len(),
{
    reveal(Seq::filter);
    if docs.len() > 0 && !score.nan() {
        lemma_results_at(docs.drop_last(), score);
        let doc = docs.last();
        law_scalar_order(doc.score, score, score);
        assert(doc.score.key() == score.key() ==> !doc.score.nan());
    } else if !score.nan() {
        assert(results_at(docs, score) =~= with_key(docs, score.key()));
    }
}

/// A ranking is the same results in another order: each as often as before. Where all
/// scores are numbers none stands before one of a greater score, and those of one score
/// stand as they stood.
pub proof fn law_ranking_rearranges(docs: Seq<ScoredDoc>, ranked: Seq<ScoredDoc>)
    requires
        is_ranking_of(docs, ranked),
    ensures
        ranked.len() == docs.len(),
        ranked.to_multiset() == docs.to_multiset(),
        forall|score: Scalar| #[trigger]
            results_at(ranked, score) == results_at(docs, score),
        (forall|i: int| 0 <= i < docs.len() ==> !(#[trigger] docs[i]).score.nan()) ==> forall|
            i: int,
            j: int,
        |
            #![trigger ranked[i], ranked[j]]
            0 <= i < j < ranked.len() ==> !ranked[i].score.less(ranked[j].score),
{
    assert forall|doc: ScoredDoc| ranked.to_multiset().count(doc) == docs.to_multiset().count(
        doc,
    ) by {
        lemma_count_by_key(docs, doc);
        lemma_count_by_key(ranked, doc);
        assert(with_key(ranked, doc.score.key()) == with_key(docs, doc.score.key()));
    }
    assert(ranked.to_multiset() =~= docs.to_multiset());
    assert forall|score: Scalar| #[trigger]
        results_at(ranked, score) == results_at(docs, score) by {
        lemma_results_at(ranked, score);
        lemma_results_at(docs, score);
        assert(with_key(ranked, score.key()) == with_key(docs, score.key()));
    }
}

proof fn lemma_best_ids(docs: Seq<ScoredDoc>)
    ensures
        best_per_id(docs).map_values(|d: ScoredDoc| d.id) == first_per_id(docs).map_values(
            |d: ScoredDoc| d.id,
        ),
    decreases docs.len(),
{
    if docs.len() > 0 {
        let rest = docs.drop_last();
        let last = docs.len() - 1;
        let best = best_per_id(rest);
        let firsts = first_per_id(rest);
        let id = docs.last().id;
        lemma_best_ids(rest);
        law_best_per_id(rest);
        let best_ids = best.map_values(|d: ScoredDoc| d.id);
        let first_ids = firsts.map_values(|d: ScoredDoc| d.id);
        assert(best_ids == first_ids);
        if first_of_its_id(docs, last) {
            assert(position_of(best, id) is None) by {
                if position_of(best, id) is Some {
                    let i = choose|i: int| 0 <= i < best.len() && (#[trigger] best[i]).id == id;
                    assert(rest.contains(best[i]));
                    let m = choose|m: int| 0 <= m < rest.len() && rest[m] == best[i];
                    assert(docs[m].id != docs[last].id);
                }
            }
            assert(best_per_id(docs).map_values(|d: ScoredDoc| d.id) =~= best_ids.push(id));
            assert(first_per_id(docs).map_values(|d: ScoredDoc| d.id) =~= first_ids.push(id));
        } else {
            let m = choose|m: int| 0 <= m < last && (#[trigger] docs[m]).id == docs[last].id;
            assert(rest[m] == docs[m]);
            assert(position_of(best, rest[m].id) is Some);
            assert(position_of(best, id) is Some);
            assert(best_per_id(docs).map_values(|d: ScoredDoc| d.id) =~= best_ids);
        }
    }
}

/// The best of each identifier stand in the order in which the identifiers first came
/// up, and of equal ones the earliest is kept: the kept one is in some place of the list
/// before which every one of its identifier scores less.
pub proof fn law_best_is_the_earliest(docs: Seq<ScoredDoc>, i: int)
    requires
        !has_nan(docs),
        0 <= i < best_per_id(docs).len(),
    ensures
        best_per_id(docs).map_values(|d: ScoredDoc| d.id) == first_per_id(docs).map_values(
            |d: ScoredDoc| d.id,
        ),
        exists|p: int|
            0 <= p < docs.len() && #[trigger] docs[p] == best_per_id(docs)[i] && (forall|m: int|
                0 <= m < p && (#[trigger] docs[m]).id == docs[p].id ==> docs[m].score.less(
                    docs[p].score,
                )),
    decreases docs.len(),
{
    lemma_best_ids(docs);
    let rest = docs.drop_last();
    let last = docs.len() - 1;
    let before = best_per_id(rest);
    let doc = docs.last();
    assert(!has_nan(rest)) by {
        if has_nan(rest) {
            let n = choose|n: int| 0 <= n < rest.len() && (#[trigger] rest[n]).score.nan();
            assert(docs[n].score.nan());
        }
    }
    law_best_per_id(rest);
    assert(docs[last] == doc);
    assert(!docs[last].score.nan());
    if i < before.len() && best_per_id(docs)[i] == before[i] {
        law_best_is_the_earliest(rest, i);
        let p = choose|p: int|
            0 <= p < rest.len() && #[trigger] rest[p] == before[i] && (forall|m: int|
                0 <= m < p && (#[trigger] rest[m]).id == rest[p].id ==> rest[m].score.less(
                    rest[p].score,
                ));
        assert(docs[p] == rest[p]);
        assert forall|m: int| 0 <= m < p && (#[trigger] docs[m]).id
            == docs[p].id implies docs[m].score.less(docs[p].score) by {
            assert(rest[m] == docs[m]);
        }
    } else {
        assert(best_per_id(docs)[i] == docs[last]);
        assert forall|m: int| 0 <= m < last && (#[trigger] docs[m]).id
            == docs[last].id implies docs[m].score.less(docs[last].score) by {
            assert(rest[m] == docs[m]);
            assert(position_of(before, rest[m].id) is Some);
            assert(position_of(before, doc.id) is Some);
            let q = position_of(before, doc.id).unwrap();
            assert(before[q].id == doc.id);
            assert(!before[q].score.less(rest[m].score));
            assert(before[q].score.less(doc.score));
            assert(!docs[m].score.nan());
        }
    }
}

} // verus!
