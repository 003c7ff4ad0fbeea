//! The index: embedded chunks that a manifest vouches for, and the queries
//! on them.

use vstd::prelude::*;
use crate::chunk::{copy_vector, EmbeddedChunk, EmbeddedChunkView};
use crate::error::VPackError;
use crate::ieee::{ge_single, single_ge, single_is_nan};
use crate::manifest::{embedder_dimensions, get_embedder_dimensions};
use crate::query::{
    filter_matches, matches_segments, path_segments, split_path, texts, OptionsView, QueryOptions,
    QueryResult, ResultView,
};
use crate::rank::{
    count_set, is_ranking, lemma_ranking_descends, lemma_ranking_exists, lemma_ranking_length,
    lemma_ranking_unique, rank_key, top_ranked,
};
use crate::value::{JsonValue, Value};

verus! {

/// An index that can be queried.  It is built once and never changes: it
/// has at least one chunk, every vector in it has as many entries as the
/// index has dimensions, and that number is the one that the embedder plugin
/// of the manifest declares.
pub struct VPackIndex {
    chunks: Vec<EmbeddedChunk>,
    dimensions: usize,
    manifest: Value,
}

/// What an index stands for.
pub struct IndexView {
    pub chunks: Seq<EmbeddedChunkView>,
    pub dimensions: usize,
    pub manifest: JsonValue,
}

/// What each chunk of a list stands for.
pub open spec fn chunk_views(chunks: Seq<EmbeddedChunk>) -> Seq<EmbeddedChunkView> {
    Seq::new(chunks.len(), |i: int| chunks[i]@)
}

/// What each result of a list stands for.
pub open spec fn result_views(results: Seq<QueryResult>) -> Seq<ResultView> {
    Seq::new(results.len(), |i: int| results[i]@)
}

impl IndexView {
    /// What every index satisfies.
    pub open spec fn well_formed(self) -> bool {
        &&& self.chunks.len() >= 1
        &&& forall|i: int|
            0 <= i < self.chunks.len() ==> (#[trigger] self.chunks[i]).vector.len()
                == self.dimensions
        &&& embedder_dimensions(self.manifest) == Some(self.dimensions)
    }
}

/// Whether a chunk with this score may be among the results: it passes the
/// filter, where there is one, and its score is at least the threshold,
/// where there is one.
pub open spec fn is_eligible(chunk: EmbeddedChunkView, score: u32, options: OptionsView) -> bool {
    &&& match options.filter {
        Some(filter) => filter_matches(chunk.chunk.metadata, filter),
        None => true,
    }
    &&& match options.min_score {
        Some(least) => single_ge(score, least),
        None => true,
    }
}

/// For each chunk, whether it may be among the results.
pub open spec fn eligible_flags(
    chunks: Seq<EmbeddedChunkView>,
    scores: Seq<u32>,
    options: OptionsView,
) -> Seq<bool> {
    Seq::new(chunks.len(), |i: int| is_eligible(chunks[i], scores[i], options))
}

/// The chunks that a query returns, by their places in the index and in the
/// order of the results.
pub open spec fn ranking(
    chunks: Seq<EmbeddedChunkView>,
    scores: Seq<u32>,
    options: OptionsView,
) -> Seq<usize> {
    choose|order: Seq<usize>|
        is_ranking(scores, eligible_flags(chunks, scores, options), options.top_k, order)
}

/// The result for the chunk at place `at` of the index, as number `rank` of
/// the list.
pub open spec fn result_for(
    chunks: Seq<EmbeddedChunkView>,
    scores: Seq<u32>,
    options: OptionsView,
    at: int,
    rank: int,
) -> ResultView {
    ResultView {
        chunk: chunks[at].chunk,
        score: scores[at],
        rank: rank as nat,
        vector: if options.include_vectors {
            Some(chunks[at].vector)
        } else {
            None
        },
    }
}

/// What a query returns: the results for the chunks of the ranking, each
/// with its place in the list as its rank.
pub open spec fn query_results(
    chunks: Seq<EmbeddedChunkView>,
    scores: Seq<u32>,
    options: OptionsView,
) -> Seq<ResultView> {
    let order = ranking(chunks, scores, options);
    Seq::new(order.len(), |r: int| result_for(chunks, scores, options, order[r] as int, r))
}

impl View for VPackIndex {
    type V = IndexView;

    closed spec fn view(&self) -> IndexView {
        IndexView {
            chunks: chunk_views(self.chunks@),
            dimensions: self.dimensions,
            manifest: self.manifest@,
        }
    }
}

impl VPackIndex {
    #[verifier::type_invariant]
    spec fn valid(self) -> bool {
        self@.well_formed()
    }

    /// An index of the chunks, which all must have vectors of the length
    /// that the manifest declares.  Fails with `EmptyIndex` where there is
    /// no chunk, else with `UnknownModel` where the manifest declares no
    /// dimensions, else with `DimensionMismatch` for the first chunk whose
    /// vector has another length.
    pub fn build(chunks: Vec<EmbeddedChunk>, manifest: Value) -> (result: Result<Self, VPackError>)
        ensures
            match result {
                Ok(index) => {
                    &&& index@.chunks == chunk_views(chunks@)
                    &&& index@.manifest == manifest@
                    &&& index@.well_formed()
                },
                Err(VPackError::EmptyIndex) => chunks@.len() == 0,
                Err(VPackError::UnknownModel(detail)) => {
                    &&& chunks@.len() > 0
                    &&& embedder_dimensions(manifest@) is None
                    &&& detail@ == "Embedder plugin config must include dimensions"@
                },
                Err(VPackError::DimensionMismatch { expected, got }) => {
                    &&& chunks@.len() > 0
                    &&& embedder_dimensions(manifest@) == Some(expected)
                    &&& exists|i: int|
                        0 <= i < chunks@.len() && (#[trigger] chunks@[i]).vector@.len() == got
                            && got != expected && forall|j: int|
                            0 <= j < i ==> (#[trigger] chunks@[j]).vector@.len() == expected
                },
                Err(_) => false,
            },
            chunks@.len() > 0 && embedder_dimensions(manifest@) is Some && (forall|i: int|
                0 <= i < chunks@.len() ==> (#[trigger] chunks@[i]).vector@.len()
                    == embedder_dimensions(manifest@)->0) ==> result is Ok,
    {
        if chunks.len() == 0 {
            return Err(VPackError::EmptyIndex);
        }
        let dimensions = match get_embedder_dimensions(&manifest) {
            Ok(d) => d,
            Err(failure) => {
                return Err(failure);
            },
        };
        let mut i: usize = 0;
        while i < chunks.len()
            invariant
                i <= chunks.len(),
                chunks@.len() > 0,
                embedder_dimensions(manifest@) == Some(dimensions),
                forall|j: int| 0 <= j < i ==> (#[trigger] chunks@[j]).vector@.len() == dimensions,
            decreases chunks.len() - i,
        {
            if chunks[i].vector.len() != dimensions {
                return Err(
                    VPackError::DimensionMismatch { expected: dimensions, got: chunks[i].vector.len() },
                );
            }
            i = i + 1;
        }
        Ok(VPackIndex { chunks, dimensions, manifest })
    }

    /// The number of chunks, which is at least one.
    pub fn chunk_count(&self) -> (count: usize)
        ensures
            count == self@.chunks.len(),
            count >= 1,
    {
        proof {
            use_type_invariant(self);
        }
        self.chunks.len()
    }

    /// The length of every vector in the index, as the manifest declares it.
    pub fn dimensions(&self) -> (dimensions: usize)
        ensures
            dimensions == self@.dimensions,
            embedder_dimensions(self@.manifest) == Some(dimensions),
    {
        proof {
            use_type_invariant(self);
        }
        self.dimensions
    }

    /// The manifest that the index was built with.
    pub fn manifest(&self) -> (manifest: &Value)
        ensures
            manifest@ == self@.manifest,
    {
        &self.manifest
    }

    /// The chunks in stored order.
    pub fn chunks(&self) -> (chunks: &Vec<EmbeddedChunk>)
        ensures
            chunk_views(chunks@) == self@.chunks,
            self@.well_formed(),
    {
        proof {
            use_type_invariant(self);
        }
        &self.chunks
    }
}

impl VPackIndex {
    /// For each chunk, whether it may be among the results of a query with
    /// these scores and options.
    fn eligible(&self, scores: &[u32], options: &QueryOptions) -> (flags: Vec<bool>)
        requires
            scores@.len() == self@.chunks.len(),
        ensures
            flags@ == eligible_flags(self@.chunks, scores@, options@),
    {
        let segments = match &options.filter {
            Some(filter) => path_segments(filter.field.as_str()),
            None => Vec::new(),
        };
        let mut flags: Vec<bool> = Vec::new();
        let mut i: usize = 0;
        while i < self.chunks.len()
            invariant
                i <= self.chunks.len(),
                scores@.len() == self.chunks@.len(),
                self@.chunks == chunk_views(self.chunks@),
                options.filter matches Some(filter) ==> texts(segments@) == split_path(filter.field@),
                flags@.len() == i,
                forall|j: int|
                    0 <= j < i ==> flags@[j] == is_eligible(
                        (#[trigger] self.chunks@[j])@,
                        scores@[j],
                        options@,
                    ),
            decreases self.chunks.len() - i,
        {
            let passes = match &options.filter {
                Some(filter) => matches_segments(&self.chunks[i].chunk, filter, &segments),
                None => true,
            };
            let scores_enough = match options.min_score {
                Some(least) => ge_single(scores[i], least),
                None => true,
            };
            flags.push(passes && scores_enough);
            i = i + 1;
        }
        assert(flags@ =~= eligible_flags(self@.chunks, scores@, options@));
        flags
    }

    /// Answers a query.  `scores` holds for each chunk, in stored order, the
    /// similarity of its vector and the query vector.
    ///
    /// Fails with `DimensionMismatch` where the query vector does not have
    /// the length of the index.  Else the results are the chunks that pass
    /// the filter and reach the least score, the highest score first and of
    /// equal scores the chunk stored first, cut to the first `top_k`.
    pub fn query(&self, query_vector: &[u32], scores: &[u32], options: QueryOptions) -> (result:
        Result<Vec<QueryResult>, VPackError>)
        requires
            scores@.len() == self@.chunks.len(),
        ensures
            query_vector@.len() != self@.dimensions ==> (result matches Err(
                VPackError::DimensionMismatch { expected, got },
            ) && expected == self@.dimensions && got == query_vector@.len()),
            query_vector@.len() == self@.dimensions ==> (result matches Ok(results) && result_views(
                results@,
            ) == query_results(self@.chunks, scores@, options@)),
    {
        if query_vector.len() != self.dimensions {
            return Err(
                VPackError::DimensionMismatch { expected: self.dimensions, got: query_vector.len() },
            );
        }
        let flags = self.eligible(scores, &options);
        let order = top_ranked(scores, &flags, options.top_k);
        proof {
            let chosen = ranking(self@.chunks, scores@, options@);
            lemma_ranking_unique(scores@, flags@, options@.top_k, order@, chosen);
        }
        let mut results: Vec<QueryResult> = Vec::new();
        let mut rank: usize = 0;
        while rank < order.len()
            invariant
                rank <= order.len(),
                scores@.len() == self.chunks@.len(),
                self@.chunks == chunk_views(self.chunks@),
                forall|r: int| 0 <= r < order.len() ==> #[trigger] order@[r] < self.chunks@.len(),
                results@.len() == rank,
                forall|r: int|
                    0 <= r < rank ==> (#[trigger] results@[r])@ == result_for(
                        self@.chunks,
                        scores@,
                        options@,
                        order@[r] as int,
                        r,
                    ),
            decreases order.len() - rank,
        {
            let at = order[rank];
            let stored = &self.chunks[at];
            let vector = if options.include_vectors {
                Some(copy_vector(&stored.vector))
            } else {
                None
            };
            results.push(QueryResult { chunk: stored.chunk.clone(), score: scores[at], rank, vector });
            rank = rank + 1;
        }
        assert(result_views(results@) =~= query_results(self@.chunks, scores@, options@));
        Ok(results)
    }
}

/// A query returns no more results than `top_k`, and no more than there are
/// chunks that pass the filter with a score that reaches the threshold.
pub proof fn lemma_results_bounded(
    chunks: Seq<EmbeddedChunkView>,
    scores: Seq<u32>,
    options: OptionsView,
)
    requires
        scores.len() == chunks.len(),
        chunks.len() <= usize::MAX,
    ensures
        query_results(chunks, scores, options).len() <= options.top_k,
        query_results(chunks, scores, options).len() <= count_set(
            eligible_flags(chunks, scores, options),
        ),
{
    let flags = eligible_flags(chunks, scores, options);
    lemma_ranking_exists(scores, flags, options.top_k);
    lemma_ranking_length(scores, flags, options.top_k, ranking(chunks, scores, options));
}

/// The scores of the results descend: no result ranks below a later one,
/// and a NaN score comes after every other.  Where neither of two scores is
/// a NaN, the earlier is at least the later as numbers compare.
pub proof fn lemma_results_descend(
    chunks: Seq<EmbeddedChunkView>,
    scores: Seq<u32>,
    options: OptionsView,
    i: int,
    j: int,
)
    requires
        scores.len() == chunks.len(),
        chunks.len() <= usize::MAX,
        0 <= i < j < query_results(chunks, scores, options).len(),
    ensures
        rank_key(query_results(chunks, scores, options)[i].score) >= rank_key(
            query_results(chunks, scores, options)[j].score,
        ),
        single_is_nan(query_results(chunks, scores, options)[i].score) ==> single_is_nan(
            query_results(chunks, scores, options)[j].score,
        ),
        !single_is_nan(query_results(chunks, scores, options)[i].score) && !single_is_nan(
            query_results(chunks, scores, options)[j].score,
        ) ==> single_ge(
            query_results(chunks, scores, options)[i].score,
            query_results(chunks, scores, options)[j].score,
        ),
{
    let flags = eligible_flags(chunks, scores, options);
    lemma_ranking_exists(scores, flags, options.top_k);
    lemma_ranking_descends(scores, flags, options.top_k, ranking(chunks, scores, options), i, j);
}

/// The ranks of the results are 0, 1, 2 and so on: each result has its place
/// in the list as its rank.
pub proof fn lemma_results_ranks(
    chunks: Seq<EmbeddedChunkView>,
    scores: Seq<u32>,
    options: OptionsView,
    r: int,
)
    requires
        0 <= r < query_results(chunks, scores, options).len(),
    ensures
        query_results(chunks, scores, options)[r].rank == r,
{
}

/// Every result is the result for a chunk of the index that passes the
/// filter with a score that reaches the threshold, and no chunk gives two
/// results.
pub proof fn lemma_results_eligible(
    chunks: Seq<EmbeddedChunkView>,
    scores: Seq<u32>,
    options: OptionsView,
)
    requires
        scores.len() == chunks.len(),
        chunks.len() <= usize::MAX,
    ensures
        ranking(chunks, scores, options).no_duplicates(),
        forall|r: int|
            0 <= r < ranking(chunks, scores, options).len() ==> {
                let at = #[trigger] ranking(chunks, scores, options)[r] as int;
                0 <= at < chunks.len() && is_eligible(chunks[at], scores[at], options)
            },
{
    let flags = eligible_flags(chunks, scores, options);
    lemma_ranking_exists(scores, flags, options.top_k);
    lemma_ranking_length(scores, flags, options.top_k, ranking(chunks, scores, options));
}

} // verus!
