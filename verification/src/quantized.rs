//! The quantized vector index.

use crate::compression::CompressionInfo;
use crate::error::TurboError;
use crate::payload::{bytes_of, to_buffer, to_vec};
use crate::scalar::Scalar;
use arrow_array::{Float32Array, UInt32Array};
use bytes::Bytes;
use turbovec::{AddError, ConstructError, IdMapIndex};
use vstd::prelude::*;

verus! {

/// The index of the `turbovec` crate: quantized vectors under external ids.
#[verifier::external_type_specification]
#[verifier::external_body]
pub struct ExIdMapIndex(turbovec::IdMapIndex);

/// Why `turbovec` refused to make an index.
#[verifier::external_type_specification]
#[verifier::external_body]
pub struct ExConstructError(turbovec::ConstructError);

/// Why `turbovec` refused to add vectors.
#[verifier::external_type_specification]
#[verifier::external_body]
pub struct ExAddError(turbovec::AddError);

/// Why a stored index could not be read.
#[verifier::external_type_specification]
#[verifier::external_body]
pub struct ExIoError(std::io::Error);

/// The vectors that an index was given and still holds, by external id. It holds
/// them quantized: of an index that was read from an image no more is claimed than
/// for which ids it holds one.
pub uninterp spec fn index_vectors(index: turbovec::IdMapIndex) -> Map<u64, Seq<Scalar>>;

/// What an index keeps of its vectors and answers from, as bytes: the ids in the
/// order of their places, the code and the scale under each, and the calibration
/// that all share.
pub uninterp spec fn index_codes(index: turbovec::IdMapIndex) -> Seq<u8>;

/// The number of coordinates of its vectors, where that is settled.
pub uninterp spec fn index_dim(index: turbovec::IdMapIndex) -> Option<usize>;

/// The bits that it keeps per coordinate.
pub uninterp spec fn index_bits(index: turbovec::IdMapIndex) -> usize;

/// What `IdMapIndex::from_bytes` makes of a byte image: the ids, the number of
/// coordinates, the bits per coordinate and the codes of the index it describes, or
/// nothing where it is refused.
pub uninterp spec fn index_image(image: Seq<u8>) -> Option<
    (Set<u64>, Option<usize>, usize, Seq<u8>),
>;

/// Whether `IdMapIndex::search` may give these scores and ids to a query for `k`
/// results, on an index that was given these vectors at this width. It may differ
/// between machines: the crate computes scores in floating point, with the vector
/// instructions at hand.
pub uninterp spec fn may_find(
    vectors: Map<u64, Seq<Scalar>>,
    bits: usize,
    query: Seq<Scalar>,
    k: nat,
    scores: Seq<Scalar>,
    ids: Seq<u64>,
) -> bool;

/// Whether `IdMapIndex::search` may give these scores and ids to a query for `k`
/// results, on an index that keeps these codes: whatever one such index may
/// answer, any other may.
pub uninterp spec fn codes_may_find(
    codes: Seq<u8>,
    dim: Option<usize>,
    bits: usize,
    query: Seq<Scalar>,
    k: nat,
    scores: Seq<Scalar>,
    ids: Seq<u64>,
) -> bool;

/// The dimensions and widths that an index can be made with.
pub open spec fn valid_shape(dim: int, bits: int) -> bool {
    2 <= bits <= 4 && 0 < dim <= 16384 && dim % 8 == 0
}

/// `IdMapIndex::new`: succeeds on exactly the valid shapes, with an empty index.
#[verifier::external_body]
fn new_index(dim: usize, bits: usize) -> (r: Result<IdMapIndex, ConstructError>)
    ensures
        r is Ok <==> valid_shape(dim as int, bits as int),
        r matches Ok(index) ==> (index_vectors(index) == Map::<u64, Seq<Scalar>>::empty())
            && index_dim(index) == Some(dim) && index_bits(index) == bits,
{
    IdMapIndex::new(dim, bits)
}

/// Whether all numbers are ones that the index can hold or be asked about.
pub open spec fn all_coordinates(vector: Seq<Scalar>) -> bool {
    forall|i: int| 0 <= i < vector.len() ==> (#[trigger] vector[i]).coordinate()
}

/// Whether an index over `dim` coordinates that holds `vectors` takes this one.
pub open spec fn admits(
    vectors: Map<u64, Seq<Scalar>>,
    dim: usize,
    id: u64,
    vector: Seq<Scalar>,
) -> bool {
    dim > 0 && !vectors.contains_key(id) && vector.len() == dim && all_coordinates(vector)
}

/// `IdMapIndex::add_with_ids` with one id: the vector is added if it has one
/// coordinate per dimension, all of them finite and below the crate's limit, and
/// the id is new; otherwise the index stays as it was.
#[verifier::external_body]
fn add_one(index: &mut IdMapIndex, vector: &Vec<Scalar>, id: u64) -> (r: Result<(), AddError>)
    requires
        index_dim(*old(index)) is Some,
    ensures
        r is Ok <==> admits(
            index_vectors(*old(index)),
            index_dim(*old(index)).unwrap(),
            id,
            vector@,
        ),
        index_dim(*final(index)) == index_dim(*old(index)),
        index_bits(*final(index)) == index_bits(*old(index)),
        index_vectors(*final(index)) == (if r is Ok {
            index_vectors(*old(index)).insert(id, vector@)
        } else {
            index_vectors(*old(index))
        }),
{
    let bits = UInt32Array::from_iter_values(vector.iter().map(|c| c.bits));
    let values = Float32Array::new(bits.values().inner().clone().into(), None);
    index.add_with_ids(values.values(), &[id])
}

/// Whether all scores are numbers.
pub open spec fn all_numbers(scores: Seq<Scalar>) -> bool {
    forall|i: int| 0 <= i < scores.len() ==> !(#[trigger] scores[i]).nan()
}

/// Whether each row of `per_row` scores is in descending order. Where a score is not
/// a number there is no order to speak of.
pub open spec fn rows_descend(scores: Seq<Scalar>, per_row: int) -> bool {
    all_numbers(scores) ==> forall|i: int, j: int|
        #![trigger scores[i], scores[j]]
        0 <= i < j < scores.len() && i / per_row == j / per_row ==> !scores[i].less(scores[j])
}

/// Whether no two places of a row hold the same id, unless `again` and at the same
/// score.
pub open spec fn rows_distinct(
    scores: Seq<Scalar>,
    ids: Seq<u64>,
    per_row: int,
    again: bool,
) -> bool {
    forall|i: int, j: int|
        #![trigger ids[i], ids[j]]
        0 <= i < j < ids.len() && i / per_row == j / per_row && ids[i] == ids[j] ==> again
            && scores[i] == scores[j]
}

/// Whether a search may put an id into a row again. In a large index the crate scores
/// only a short list of candidates, at least this long, and fills it up with its first
/// vector where too few have a score at all; at three bits it scores all.
pub open spec fn may_repeat(ids: Set<u64>, bits: usize) -> bool {
    ids.len() > 256 && bits != 3
}

/// Whether an index can be asked about these numbers: whole vectors of its
/// dimension, with coordinates that it could hold.
pub open spec fn askable(dim: Option<usize>, query: Seq<Scalar>) -> bool {
    dim matches Some(d) ==> d > 0 && query.len() % (d as nat) == 0 && all_coordinates(query)
}

/// How many results a query gets: for each vector in it, `k`, or all there are.
pub open spec fn answer_len(ids: Set<u64>, dim: Option<usize>, query: Seq<Scalar>, k: int) -> int {
    match dim {
        Some(d) => (query.len() / (d as nat)) * per_row(ids, k),
        None => 0,
    }
}

/// How many results each vector of a query gets.
pub open spec fn per_row(ids: Set<u64>, k: int) -> int {
    if k <= ids.len() {
        k
    } else {
        ids.len() as int
    }
}

/// `IdMapIndex::search`: for each query vector the nearest ids that the index
/// holds, with their scores, best first; no more than `k` and no fewer than
/// there are. No id comes twice in a row, but for a large index at one and the same
/// score. Which ids are nearest, and at what score, is left open but for what it
/// depends on.
#[verifier::external_body]
fn search_index(index: &IdMapIndex, query: &[Scalar], k: usize) -> (r: (Vec<Scalar>, Vec<u64>))
    requires
        askable(index_dim(*index), query@),
    ensures
        r.0@.len() == r.1@.len(),
        r.1@.len() == answer_len(index_vectors(*index).dom(), index_dim(*index), query@, k as int),
        forall|i: int| 0 <= i < r.1@.len() ==> index_vectors(*index).contains_key(#[trigger] r.1@[i]),
        rows_descend(r.0@, per_row(index_vectors(*index).dom(), k as int)),
        rows_distinct(
            r.0@,
            r.1@,
            per_row(index_vectors(*index).dom(), k as int),
            may_repeat(index_vectors(*index).dom(), index_bits(*index)),
        ),
        may_find(index_vectors(*index), index_bits(*index), query@, k as nat, r.0@, r.1@),
        codes_may_find(
            index_codes(*index),
            index_dim(*index),
            index_bits(*index),
            query@,
            k as nat,
            r.0@,
            r.1@,
        ),
{
    let bits = UInt32Array::from_iter_values(query.iter().map(|c| c.bits));
    let values = Float32Array::new(bits.values().inner().clone().into(), None);
    let (scores, ids) = index.search(values.values(), k);
    let found = UInt32Array::new(Float32Array::from(scores).values().inner().clone().into(), None);
    (found.values().iter().map(|b| Scalar { bits: *b }).collect(), ids)
}

/// `IdMapIndex::remove`: drops the vector of one id, and tells whether there was
/// one.
#[verifier::external_body]
fn remove_one(index: &mut IdMapIndex, id: u64) -> (found: bool)
    ensures
        found == index_vectors(*old(index)).contains_key(id),
        index_vectors(*final(index)) == index_vectors(*old(index)).remove(id),
        index_dim(*final(index)) == index_dim(*old(index)),
        index_bits(*final(index)) == index_bits(*old(index)),
{
    index.remove(id)
}

/// `IdMapIndex::to_bytes`: an image from which `from_bytes` makes an index that
/// keeps the same codes under the same ids.
#[verifier::external_body]
fn write_image(index: &IdMapIndex) -> (image: Vec<u8>)
    ensures
        index_image(image@) == Some(
            (
                index_vectors(*index).dom(),
                index_dim(*index),
                index_bits(*index),
                index_codes(*index),
            ),
        ),
{
    index.to_bytes()
}

/// `IdMapIndex::from_bytes`: the index that the image describes, or an error.
#[verifier::external_body]
fn read_image(image: &Vec<u8>) -> (r: Result<IdMapIndex, std::io::Error>)
    ensures
        r is Ok <==> index_image(image@) is Some,
        r matches Ok(index) ==> index_image(image@) == Some(
            (index_vectors(index).dom(), index_dim(index), index_bits(index), index_codes(index)),
        ) && index_vectors(index).dom().finite(),
{
    IdMapIndex::from_bytes(image)
}

/// `IdMapIndex::dim_opt`: the number of coordinates, where it is settled.
#[verifier::external_body]
fn settled_dim(index: &IdMapIndex) -> (dim: Option<usize>)
    ensures
        dim == index_dim(*index),
{
    index.dim_opt()
}

/// The words of an input error. What they are is not stated.
#[verifier::external_body]
fn io_error_text(error: &std::io::Error) -> (text: String) {
    error.to_string()
}

/// Vectors under external ids, quantized to a few bits per coordinate.
pub struct QuantizedIndex {
    id_map: IdMapIndex,
    dim: usize,
    bits: usize,
}

/// The pairs of a batch, in order.
pub open spec fn pairs_of(ids: Seq<u64>, vectors: Seq<Vec<Scalar>>) -> Seq<(u64, Seq<Scalar>)> {
    Seq::new(ids.len(), |i: int| (ids[i], vectors[i]@))
}

/// What an index holds after a batch: each pair in turn, where it is admitted.
pub open spec fn vectors_after(
    vectors: Map<u64, Seq<Scalar>>,
    dim: usize,
    pairs: Seq<(u64, Seq<Scalar>)>,
) -> Map<u64, Seq<Scalar>>
    decreases pairs.len(),
{
    if pairs.len() == 0 {
        vectors
    } else {
        let before = vectors_after(vectors, dim, pairs.drop_last());
        let (id, vector) = pairs.last();
        if admits(before, dim, id, vector) {
            before.insert(id, vector)
        } else {
            before
        }
    }
}

/// The scores of hits.
pub open spec fn hit_scores(hits: Seq<(u64, Scalar)>) -> Seq<Scalar> {
    Seq::new(hits.len(), |i: int| hits[i].1)
}

/// The ids of hits.
pub open spec fn hit_ids(hits: Seq<(u64, Scalar)>) -> Seq<u64> {
    Seq::new(hits.len(), |i: int| hits[i].0)
}

impl QuantizedIndex {
    /// The vectors that the index was given and still holds, by id.
    pub closed spec fn vectors(self) -> Map<u64, Seq<Scalar>> {
        index_vectors(self.id_map)
    }

    /// The ids that the index holds a vector for.
    pub open spec fn ids(self) -> Set<u64> {
        self.vectors().dom()
    }

    /// What the index keeps of its vectors and answers from, as bytes.
    pub closed spec fn codes(self) -> Seq<u8> {
        index_codes(self.id_map)
    }

    /// The bits that the index keeps per coordinate.
    pub closed spec fn width(self) -> usize {
        index_bits(self.id_map)
    }

    /// The number of coordinates of its vectors, where that is settled.
    pub closed spec fn coordinates(self) -> Option<usize> {
        index_dim(self.id_map)
    }

    /// The dimension that the index was made with.
    pub closed spec fn made_dim(self) -> usize {
        self.dim
    }

    /// The bits per coordinate that the index was made with.
    pub closed spec fn made_bits(self) -> usize {
        self.bits
    }

    /// Whether a byte image describes this index.
    pub open spec fn is_image(self, image: Seq<u8>) -> bool {
        index_image(image) == Some((self.ids(), self.coordinates(), self.width(), self.codes()))
    }

    /// Whether the codes that the index keeps may give these hits to a query for
    /// `k` results.
    pub open spec fn codes_answer(
        self,
        query: Seq<Scalar>,
        k: nat,
        hits: Seq<(u64, Scalar)>,
    ) -> bool {
        codes_may_find(
            self.codes(),
            self.coordinates(),
            self.width(),
            query,
            k,
            hit_scores(hits),
            hit_ids(hits),
        )
    }

    /// Whether the index may answer a query for `k` results with these hits: they
    /// depend on the vectors it was given, and on the codes that it keeps of them.
    pub open spec fn may_answer(
        self,
        query: Seq<Scalar>,
        k: nat,
        hits: Seq<(u64, Scalar)>,
    ) -> bool {
        &&& may_find(self.vectors(), self.width(), query, k, hit_scores(hits), hit_ids(hits))
        &&& self.codes_answer(query, k, hits)
    }

    /// An empty index.
    pub fn new(dim: usize, bits: usize) -> (index: Self)
        requires
            valid_shape(dim as int, bits as int),
        ensures
            index.vectors() == Map::<u64, Seq<Scalar>>::empty(),
            index.coordinates() == Some(dim),
            index.width() == bits,
            index.made_dim() == dim,
            index.made_bits() == bits,
    {
        QuantizedIndex { id_map: new_index(dim, bits).unwrap(), dim, bits }
    }

    /// Adds the vectors one by one under their ids. A pair that the index does
    /// not admit (a known id, a wrong length, a coordinate out of range) leaves
    /// it as it was.
    pub fn add_batch(&mut self, ids: &[u64], vectors: &[Vec<Scalar>])
        requires
            ids@.len() == vectors@.len(),
            old(self).coordinates() is Some,
        ensures
            final(self).vectors() == vectors_after(
                old(self).vectors(),
                old(self).coordinates().unwrap(),
                pairs_of(ids@, vectors@),
            ),
            final(self).coordinates() == old(self).coordinates(),
            final(self).width() == old(self).width(),
            final(self).made_dim() == old(self).made_dim(),
            final(self).made_bits() == old(self).made_bits(),
    {
        let ghost pairs = pairs_of(ids@, vectors@);
        let ghost start = self.vectors();
        let ghost dim = self.coordinates().unwrap();
        let mut i: usize = 0;
        proof {
            assert(pairs.take(0) =~= Seq::<(u64, Seq<Scalar>)>::empty());
        }
        while i < ids.len()
            invariant
                i <= ids@.len(),
                ids@.len() == vectors@.len(),
                pairs == pairs_of(ids@, vectors@),
                self.coordinates() == Some(dim),
                self.vectors() == vectors_after(start, dim, pairs.take(i as int)),
                self.width() == old(self).width(),
                self.made_dim() == old(self).made_dim(),
                self.made_bits() == old(self).made_bits(),
            decreases ids@.len() - i,
        {
            let _ = add_one(&mut self.id_map, &vectors[i], ids[i]);
            proof {
                let now = pairs.take(i + 1);
                assert(now.drop_last() =~= pairs.take(i as int));
                assert(now.last() == (ids@[i as int], vectors@[i as int]@));
            }
            i = i + 1;
        }
        proof {
            assert(pairs.take(ids@.len() as int) =~= pairs);
        }
    }

    /// Whether the index can be asked about a query.
    pub fn can_search(&self, query: &[Scalar]) -> (r: bool)
        ensures
            r == askable(self.coordinates(), query@),
    {
        match self.settled() {
            None => true,
            Some(dim) => {
                if dim == 0 || query.len() % dim != 0 {
                    return false;
                }
                let mut i: usize = 0;
                while i < query.len()
                    invariant
                        i <= query@.len(),
                        forall|j: int| 0 <= j < i ==> (#[trigger] query@[j]).coordinate(),
                        self.coordinates() == Some(dim),
                    decreases query@.len() - i,
                {
                    if !query[i].is_coordinate() {
                        proof {
                            assert(!query@[i as int].coordinate());
                        }
                        return false;
                    }
                    i = i + 1;
                }
                true
            },
        }
    }

    /// The nearest ids with their scores, best first, for each vector in the
    /// query.
    pub fn search(&self, query: &[Scalar], k: usize) -> (hits: Vec<(u64, Scalar)>)
        requires
            askable(self.coordinates(), query@),
        ensures
            hits@.len() == answer_len(self.ids(), self.coordinates(), query@, k as int),
            forall|i: int| 0 <= i < hits@.len() ==> self.ids().contains((#[trigger] hits@[i]).0),
            rows_descend(hit_scores(hits@), per_row(self.ids(), k as int)),
            rows_distinct(
                hit_scores(hits@),
                hit_ids(hits@),
                per_row(self.ids(), k as int),
                may_repeat(self.ids(), self.width()),
            ),
            self.may_answer(query@, k as nat, hits@),
    {
        let (scores, ids) = search_index(&self.id_map, query, k);
        let mut hits: Vec<(u64, Scalar)> = Vec::new();
        let mut i: usize = 0;
        while i < ids.len()
            invariant
                i <= ids@.len(),
                ids@.len() == scores@.len(),
                hits@.len() == i,
                forall|j: int| 0 <= j < i ==> #[trigger] hits@[j] == (ids@[j], scores@[j]),
            decreases ids@.len() - i,
        {
            hits.push((ids[i], scores[i]));
            i = i + 1;
        }
        proof {
            assert(hit_scores(hits@) =~= scores@);
            assert(hit_ids(hits@) =~= ids@);
        }
        hits
    }

    /// Drops the vector of one id, if there is one.
    pub fn remove(&mut self, id: u64)
        ensures
            final(self).vectors() == old(self).vectors().remove(id),
            final(self).coordinates() == old(self).coordinates(),
            final(self).width() == old(self).width(),
            final(self).made_dim() == old(self).made_dim(),
            final(self).made_bits() == old(self).made_bits(),
    {
        let _ = remove_one(&mut self.id_map, id);
    }

    /// The dimension that the index was made with.
    pub fn dim(&self) -> (dim: usize)
        ensures
            dim == self.made_dim(),
    {
        self.dim
    }

    /// The bits per coordinate that the index was made with.
    pub fn bits(&self) -> (bits: usize)
        ensures
            bits == self.made_bits(),
    {
        self.bits
    }

    /// The number of coordinates of its vectors, where that is settled: an
    /// index that was read from an image may have none.
    pub fn settled(&self) -> (dim: Option<usize>)
        ensures
            dim == self.coordinates(),
    {
        settled_dim(&self.id_map)
    }

    /// The compression that the shape of the index gives.
    pub fn compression_info(&self) -> (info: CompressionInfo)
        requires
            self.made_dim() * 4 <= usize::MAX,
            self.made_dim() * self.made_bits() <= usize::MAX,
        ensures
            info.describes(self.made_dim() as int, self.made_bits() as int),
    {
        CompressionInfo::compute(self.dim, self.bits)
    }

    /// A byte image of the index.
    pub fn to_bytes(&self) -> (r: Result<Bytes, TurboError>)
        ensures
            r matches Ok(image) && self.is_image(bytes_of(image)),
    {
        Ok(to_buffer(write_image(&self.id_map)))
    }

    /// The index that a byte image describes, under the given shape.
    pub fn from_bytes(data: Bytes, dim: usize, bits: usize) -> (r: Result<Self, TurboError>)
        ensures
            r is Ok <==> index_image(bytes_of(data)) is Some,
            r matches Ok(index) ==> index.is_image(bytes_of(data)) && index.ids().finite()
                && index.made_dim() == dim && index.made_bits() == bits,
            r matches Err(e) ==> e is Store,
    {
        let image = to_vec(&data);
        match read_image(&image) {
            Ok(id_map) => Ok(QuantizedIndex { id_map, dim, bits }),
            Err(e) => Err(TurboError::Store(io_error_text(&e))),
        }
    }
}

/// A query of one vector gets `k` results, or all there are, in one descending
/// row, and the index puts no id into it twice unless it may repeat one.
pub proof fn law_single_query(
    ids: Set<u64>,
    dim: usize,
    bits: usize,
    query: Seq<Scalar>,
    k: int,
    hits: Seq<(u64, Scalar)>,
)
    requires
        dim > 0,
        query.len() == dim,
        hits.len() == answer_len(ids, Some(dim), query, k),
        rows_descend(hit_scores(hits), per_row(ids, k)),
        rows_distinct(hit_scores(hits), hit_ids(hits), per_row(ids, k), may_repeat(ids, bits)),
    ensures
        hits.len() == per_row(ids, k),
        all_numbers(hit_scores(hits)) ==> forall|i: int, j: int|
            #![trigger hits[i], hits[j]]
            0 <= i < j < hits.len() ==> !hits[i].1.less(hits[j].1),
        forall|i: int, j: int|
            #![trigger hits[i], hits[j]]
            0 <= i < j < hits.len() && hits[i].0 == hits[j].0 ==> may_repeat(ids, bits)
                && hits[i].1 == hits[j].1,
{
    let n = per_row(ids, k);
    vstd::arithmetic::div_mod::lemma_div_by_self(dim as int);
    assert(1 * n == n);
    assert forall|i: int, j: int| 0 <= i < j < hits.len() implies (all_numbers(hit_scores(hits))
        ==> !(#[trigger] hits[i]).1.less((#[trigger] hits[j]).1)) && (hits[i].0 == hits[j].0
        ==> may_repeat(ids, bits) && hits[i].1 == hits[j].1) by {
        vstd::arithmetic::div_mod::lemma_basic_div(i, n);
        vstd::arithmetic::div_mod::lemma_basic_div(j, n);
        assert(hit_scores(hits)[i] == hits[i].1 && hit_scores(hits)[j] == hits[j].1);
        assert(hit_ids(hits)[i] == hits[i].0 && hit_ids(hits)[j] == hits[j].0);
    }
}

/// What an index writes is read back as an index with the same ids, the same
/// number of coordinates, the same bits per coordinate and the same codes. What the
/// one answers to a query, the codes of the other may give.
pub proof fn law_image_round_trip(
    index: QuantizedIndex,
    image: Bytes,
    read: QuantizedIndex,
    query: Seq<Scalar>,
    k: nat,
    hits: Seq<(u64, Scalar)>,
)
    requires
        index.is_image(bytes_of(image)),
        read.is_image(bytes_of(image)),
    ensures
        read.ids() == index.ids(),
        read.coordinates() == index.coordinates(),
        read.width() == index.width(),
        read.codes() == index.codes(),
        askable(read.coordinates(), query) == askable(index.coordinates(), query),
        read.may_answer(query, k, hits) ==> index.codes_answer(query, k, hits),
        index.may_answer(query, k, hits) ==> read.codes_answer(query, k, hits),
{
}

/// A removed id is in no later answer.
pub proof fn law_removed_id_not_found(
    before: QuantizedIndex,
    after: QuantizedIndex,
    id: u64,
    hits: Seq<(u64, Scalar)>,
)
    requires
        after.vectors() == before.vectors().remove(id),
        forall|i: int| 0 <= i < hits.len() ==> after.ids().contains((#[trigger] hits[i]).0),
    ensures
        forall|i: int| 0 <= i < hits.len() ==> (#[trigger] hits[i]).0 != id,
{
}

/// A batch changes no vector that the index holds, and adds none but its own
/// under their ids.
pub proof fn law_batch_only_adds(
    vectors: Map<u64, Seq<Scalar>>,
    dim: usize,
    pairs: Seq<(u64, Seq<Scalar>)>,
    id: u64,
)
    ensures
        vectors.contains_key(id) ==> vectors_after(vectors, dim, pairs).contains_key(id)
            && vectors_after(vectors, dim, pairs)[id] == vectors[id],
        vectors_after(vectors, dim, pairs).contains_key(id) && !vectors.contains_key(id)
            ==> exists|i: int|
            0 <= i < pairs.len() && #[trigger] pairs[i] == (
                id,
                vectors_after(vectors, dim, pairs)[id],
            ),
    decreases pairs.len(),
{
    if pairs.len() > 0 {
        let rest = pairs.drop_last();
        let before = vectors_after(vectors, dim, rest);
        law_batch_only_adds(vectors, dim, rest, id);
        assert(pairs.last() == pairs[pairs.len() - 1]);
        if before.contains_key(id) && !vectors.contains_key(id) {
            let i = choose|i: int| 0 <= i < rest.len() && #[trigger] rest[i] == (id, before[id]);
            assert(pairs[i] == (id, before[id]));
        }
    }
}

/// The index holds the id of every well-shaped vector of a batch afterwards, and
/// that vector under it where the id is new and comes up only once.
pub proof fn law_batch_adds_all(
    vectors: Map<u64, Seq<Scalar>>,
    dim: usize,
    pairs: Seq<(u64, Seq<Scalar>)>,
    i: int,
)
    requires
        dim > 0,
        0 <= i < pairs.len(),
        pairs[i].1.len() == dim,
        all_coordinates(pairs[i].1),
    ensures
        vectors_after(vectors, dim, pairs).contains_key(pairs[i].0),
        !vectors.contains_key(pairs[i].0) && (forall|j: int|
            0 <= j < pairs.len() && j != i ==> (#[trigger] pairs[j]).0 != pairs[i].0)
            ==> vectors_after(vectors, dim, pairs)[pairs[i].0] == pairs[i].1,
    decreases pairs.len(),
{
    let rest = pairs.drop_last();
    let last = pairs.len() - 1;
    let id = pairs[i].0;
    if i < last {
        assert(rest[i] == pairs[i]);
        law_batch_adds_all(vectors, dim, rest, i);
        if forall|j: int| 0 <= j < pairs.len() && j != i ==> (#[trigger] pairs[j]).0 != id {
            assert forall|j: int| 0 <= j < rest.len() && j != i implies (#[trigger] rest[j]).0
                != rest[i].0 by {
                assert(rest[j] == pairs[j]);
            }
            assert(pairs[last].0 != id);
        }
    } else if !vectors.contains_key(id) && (forall|j: int|
        0 <= j < pairs.len() && j != i ==> (#[trigger] pairs[j]).0 != id) {
        law_batch_only_adds(vectors, dim, rest, id);
        if vectors_after(vectors, dim, rest).contains_key(id) {
            let j = choose|j: int|
                0 <= j < rest.len() && #[trigger] rest[j] == (
                    id,
                    vectors_after(vectors, dim, rest)[id],
                );
            assert(pairs[j] == rest[j]);
        }
    }
}

/// A batch brings in nothing that is out of shape: what an index holds afterwards and did
/// not hold before has one number per coordinate, each of them one that it can hold.
pub proof fn law_new_vectors_fit(
    vectors: Map<u64, Seq<Scalar>>,
    dim: usize,
    pairs: Seq<(u64, Seq<Scalar>)>,
    id: u64,
)
    requires
        vectors_after(vectors, dim, pairs).contains_key(id),
        !vectors.contains_key(id),
    ensures
        vectors_after(vectors, dim, pairs)[id].len() == dim,
        forall|i: int|
            0 <= i < dim ==> (#[trigger] vectors_after(vectors, dim, pairs)[id][i]).coordinate(),
    decreases pairs.len(),
{
    if pairs.len() > 0 {
        let rest = pairs.drop_last();
        if vectors_after(vectors, dim, rest).contains_key(id) {
            law_new_vectors_fit(vectors, dim, rest, id);
        }
    }
}

/// Each vector of a batch goes in under the identifier at its own place: where that is new,
/// comes up once in the batch and has a vector that fits, the index holds just this vector
/// under it.
pub proof fn law_batch_by_place(
    vectors: Map<u64, Seq<Scalar>>,
    dim: usize,
    ids: Seq<u64>,
    given: Seq<Vec<Scalar>>,
    i: int,
)
    requires
        dim > 0,
        ids.len() == given.len(),
        0 <= i < ids.len(),
        given[i]@.len() == dim,
        forall|j: int| 0 <= j < dim ==> (#[trigger] given[i]@[j]).coordinate(),
        !vectors.contains_key(ids[i]),
        forall|j: int| 0 <= j < ids.len() && j != i ==> #[trigger] ids[j] != ids[i],
    ensures
        vectors_after(vectors, dim, pairs_of(ids, given)).contains_key(ids[i]),
        vectors_after(vectors, dim, pairs_of(ids, given))[ids[i]] == given[i]@,
{
    let pairs = pairs_of(ids, given);
    assert(pairs[i] == (ids[i], given[i]@));
    assert forall|j: int| 0 <= j < pairs.len() && j != i implies (#[trigger] pairs[j]).0
        != pairs[i].0 by {
        assert(ids[j] != ids[i]);
    }
    law_batch_adds_all(vectors, dim, pairs, i);
}

/// A query of one vector gets as many results as were asked for, or one for each vector
/// where there are fewer.
pub proof fn law_number_of_results(ids: Set<u64>, dim: usize, query: Seq<Scalar>, k: nat)
    requires
        dim > 0,
        query.len() == dim,
    ensures
        answer_len(ids, Some(dim), query, k as int) <= k,
        answer_len(ids, Some(dim), query, k as int) <= ids.len(),
        answer_len(ids, Some(dim), query, k as int) == k || answer_len(
            ids,
            Some(dim),
            query,
            k as int,
        ) == ids.len(),
        answer_len(ids, None, query, k as int) == 0,
{
    vstd::arithmetic::div_mod::lemma_div_by_self(dim as int);
    assert(1 * per_row(ids, k as int) == per_row(ids, k as int));
}

} // verus!
