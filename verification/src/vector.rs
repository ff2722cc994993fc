//! Exact similarity ranking over the full chunk set: results carry a
//! similarity score in millionths, and ranking sorts them non-increasing by
//! score and keeps the best `k`. Tie order among equal scores is arbitrary.

use crate::store::{Embedding, EmbeddingModel};
use vstd::prelude::*;

verus! {

/// A vector-search failure.
#[derive(Debug, Clone)]
pub enum VectorError {
    /// The record store failed.
    Database(String),
    /// No chunk records exist to search over.
    NoEmbeddings,
}

/// One retrieval result: a chunk record paired with its cosine similarity
/// to the query, scaled to millionths (so 1000000 stands for similarity 1).
#[derive(Debug, Clone)]
pub struct SearchResult {
    /// The retrieved chunk record.
    pub embedding: Embedding,
    /// Cosine similarity to the query, in millionths, in [-1000000, 1000000].
    pub similarity_micros: i64,
}

/// The ghost model of a `SearchResult`.
pub struct SearchResultModel {
    /// See `SearchResult::embedding`.
    pub embedding: EmbeddingModel,
    /// See `SearchResult::similarity_micros`.
    pub similarity_micros: i64,
}

impl View for SearchResult {
    type V = SearchResultModel;

    open spec fn view(&self) -> SearchResultModel {
        SearchResultModel { embedding: self.embedding@, similarity_micros: self.similarity_micros }
    }
}

impl DeepView for SearchResult {
    type V = SearchResultModel;

    open spec fn deep_view(&self) -> SearchResultModel {
        self.view()
    }
}

/// Results in non-increasing similarity order.
pub open spec fn sorted_desc(s: Seq<SearchResultModel>) -> bool {
    forall|i: int, j: int|
        0 <= i < j < s.len() ==> (#[trigger] s[i]).similarity_micros >= (
        #[trigger] s[j]).similarity_micros
}

/// Sorts results non-increasing by similarity. The result is a permutation
/// of the input; the order among equal scores is arbitrary.
fn sort_results_desc(out: &mut Vec<SearchResult>)
    ensures
        final(out).deep_view().to_multiset() == old(out).deep_view().to_multiset(),
        final(out).len() == old(out).len(),
        sorted_desc(final(out).deep_view()),
{
    let n = out.len();
    if n == 0 {
        return ;
    }
    let mut i: usize = 1;
    while i < n
        invariant
            n == out.len(),
            1 <= i <= n,
            out.deep_view().to_multiset() == old(out).deep_view().to_multiset(),
            forall|a: int, b: int|
                0 <= a < b < i ==> (#[trigger] out.deep_view()[a]).similarity_micros >= (
                #[trigger] out.deep_view()[b]).similarity_micros,
        decreases n - i,
    {
        let ghost dv = out.deep_view();
        let x = out.remove(i);
        let ghost xm = x@;
        let ghost dv1 = out.deep_view();
        proof {
            assert(dv1 =~= dv.remove(i as int));
            assert(forall|k: int| 0 <= k < i ==> dv1[k] == dv[k]);
            assert(dv1.insert(i as int, xm) =~= dv);
            vstd::seq_lib::to_multiset_insert(dv1, i as int, xm);
            assert(dv.to_multiset() == dv1.to_multiset().insert(xm));
        }
        let mut j: usize = i;
        while j > 0 && out[j - 1].similarity_micros < x.similarity_micros
            invariant
                n - 1 == out.len(),
                i < n,
                j <= i,
                dv1 == out.deep_view(),
                xm == x@,
                forall|k: int|
                    #![trigger dv1[k]]
                    j <= k < i ==> dv1[k].similarity_micros < xm.similarity_micros,
            decreases j,
        {
            proof {
                assert(dv1[j - 1] == out@[j - 1]@);
            }
            j -= 1;
        }
        proof {
            assert(j > 0 ==> dv1[j - 1].similarity_micros >= xm.similarity_micros) by {
                if j > 0 {
                    assert(dv1[j - 1] == out@[j - 1]@);
                }
            }
        }
        out.insert(j, x);
        i += 1;
        proof {
            let dv2 = out.deep_view();
            assert(dv2 =~= dv1.insert(j as int, xm));
            vstd::seq_lib::to_multiset_insert(dv1, j as int, xm);
            assert(dv2.to_multiset() == dv1.to_multiset().insert(xm));
            assert(dv2.to_multiset() == dv.to_multiset());
            assert(out.deep_view().to_multiset() == old(out).deep_view().to_multiset());
            assert forall|a: int, b: int|
                0 <= a < b < i implies (#[trigger] dv2[a]).similarity_micros >= (
            #[trigger] dv2[b]).similarity_micros by {
                if b < j {
                    assert(dv2[a] == dv1[a] && dv2[b] == dv1[b]);
                    assert(dv1[a] == dv[a] && dv1[b] == dv[b]);
                } else if a < j && b == j {
                    assert(dv2[a] == dv1[a] && dv1[a] == dv[a]);
                    assert(dv2[b] == xm);
                    assert(dv1[j - 1].similarity_micros >= xm.similarity_micros);
                    assert(dv1[j - 1] == dv[j - 1]);
                    assert(a <= j - 1);
                    assert(dv[a].similarity_micros >= dv[j - 1].similarity_micros);
                } else if a < j && b > j {
                    assert(dv2[a] == dv1[a] && dv1[a] == dv[a]);
                    assert(dv2[b] == dv1[b - 1]);
                    if b - 1 >= j {
                        assert(dv1[b - 1] == dv[b - 1]);
                        assert(dv[a].similarity_micros >= dv[b - 1].similarity_micros);
                    }
                } else if a == j {
                    assert(dv2[a] == xm);
                    assert(dv2[b] == dv1[b - 1]);
                    assert(j <= b - 1 < i);
                    assert(dv1[b - 1].similarity_micros < xm.similarity_micros);
                } else {
                    assert(a > j);
                    assert(dv2[a] == dv1[a - 1] && dv2[b] == dv1[b - 1]);
                    assert(j <= a - 1 < b - 1 < i);
                    assert(dv1[a - 1] == dv[a - 1] && dv1[b - 1] == dv[b - 1]);
                    assert(dv[a - 1].similarity_micros >= dv[b - 1].similarity_micros);
                }
            }
        }
    }
}

/// Ranks scored results: sorts them non-increasing by similarity and keeps
/// at most `limit`. The kept results are the first entries of a sorted
/// permutation of the input, so no dropped result outscores a kept one.
pub fn rank_results(results: Vec<SearchResult>, limit: usize) -> (r: Vec<SearchResult>)
    ensures
        r.len() == if limit < results.len() {
            limit as int
        } else {
            results.len() as int
        },
        sorted_desc(r.deep_view()),
        exists|s: Seq<SearchResultModel>|
            #![trigger s.to_multiset()]
            s.to_multiset() == results.deep_view().to_multiset() && sorted_desc(s) && r.deep_view()
                == s.subrange(0, r.len() as int),
{
    let ghost input = results.deep_view();
    let mut out = results;
    sort_results_desc(&mut out);
    let ghost full = out.deep_view();
    out.truncate(limit);
    proof {
        assert(out.deep_view() =~= full.subrange(
            0,
            if limit < full.len() {
                limit as int
            } else {
                full.len() as int
            },
        ));
        assert(sorted_desc(out.deep_view())) by {
            assert(forall|k: int|
                0 <= k < out.deep_view().len() ==> out.deep_view()[k] == full[k]);
        }
        assert(full.to_multiset() == input.to_multiset() && sorted_desc(full) && out.deep_view()
            == full.subrange(0, out.len() as int));
    }
    out
}

} // verus!
