//! Sliding-window chunking: plain text is split into whitespace-delimited
//! words and grouped into overlapping chunks of a fixed target size of 500
//! words, consecutive chunks sharing 50 words. Every chunk before the last
//! has exactly 500 words; the last chunk runs to the end of the text and
//! holds at most 550 words, so that no window of fewer than 51 words ever
//! stands alone.

use crate::text::{join_range, join_spc, split_words, split_ws};
use vstd::prelude::*;

verus! {

/// Target number of words per chunk.
pub const CHUNK_SIZE: usize = 500;

/// Number of words shared by consecutive chunks.
pub const CHUNK_OVERLAP: usize = 50;

/// How many chunks a text of `w` words yields: one when the text fits the
/// target size, and otherwise one 500-word window per step of 450 words,
/// with the last window running to the end as soon as at most 550 words
/// remain from its start.
pub open spec fn num_chunks(w: int) -> int {
    if w <= 500 {
        1
    } else if w <= 1000 {
        2
    } else {
        (w - 101) / 450 + 1
    }
}

/// First word index of chunk `k`: windows step by 450 words, so each chunk
/// begins 50 words before its predecessor's end.
pub open spec fn chunk_lo(k: int) -> int {
    450 * k
}

/// One-past-last word index of chunk `k` in a text of `w` words: exactly
/// 500 words for every chunk before the last; the last runs to the end.
pub open spec fn chunk_hi(k: int, w: int) -> int {
    if k < num_chunks(w) - 1 {
        450 * k + 500
    } else {
        w
    }
}

/// The words of chunk `k`.
pub open spec fn chunk_words(words: Seq<Seq<char>>, k: int) -> Seq<Seq<char>> {
    words.subrange(chunk_lo(k), chunk_hi(k, words.len() as int))
}

/// The chunks of a word sequence, each rendered as its words joined by
/// single spaces.
pub open spec fn spec_chunks(words: Seq<Seq<char>>) -> Seq<Seq<char>> {
    Seq::new(num_chunks(words.len() as int) as nat, |k: int| join_spc(chunk_words(words, k)))
}

/// The chunks of a text: the text itself when it has at most 500 words, and
/// the sliding-window chunks of its words otherwise.
pub open spec fn chunks_of_text(s: Seq<char>) -> Seq<Seq<char>> {
    if split_ws(s).len() <= 500 {
        seq![s]
    } else {
        spec_chunks(split_ws(s))
    }
}

/// The last chunk is the first window from whose start at most 550 words
/// remain; from every earlier window's start more than 550 words remain.
pub proof fn lemma_last_chunk(w: int)
    requires
        w > 500,
    ensures
        num_chunks(w) >= 2,
        chunk_lo(num_chunks(w) - 1) >= w - 550,
        forall|k: int| 1 <= k < num_chunks(w) - 1 ==> #[trigger] chunk_lo(k) < w - 550,
        forall|k: int| 1 <= k && #[trigger] chunk_lo(k) >= w - 550 ==> num_chunks(w) - 1 <= k,
{
    let last = num_chunks(w) - 1;
    if w <= 1000 {
        assert(last == 1);
        assert(450 * 1 >= w - 550);
    } else {
        let d = (w - 101) / 450;
        assert(450 * d <= w - 101 && w - 101 < 450 * (d + 1)) by (nonlinear_arith)
            requires
                d == (w - 101) / 450,
                w > 1000,
        ;
        assert(last == d);
        assert(450 * d >= w - 550);
        assert(d >= 2);
        assert forall|k: int| 1 <= k < last implies #[trigger] chunk_lo(k) < w - 550 by {
            assert(450 * k <= 450 * (d - 1)) by (nonlinear_arith)
                requires
                    k <= d - 1,
            ;
            assert(450 * (d - 1) == 450 * d - 450);
        }
        assert forall|k: int| 1 <= k && #[trigger] chunk_lo(k) >= w - 550 implies last <= k by {
            if k < last {
                assert(chunk_lo(k) < w - 550);
            }
        }
    }
}

/// Splits a text into overlapping chunks. A text of at most 500 words is
/// one chunk, verbatim; a longer text yields its sliding-window chunks,
/// each the single-space join of its words.
pub fn chunk_text(text: &str) -> (r: Vec<String>)
    ensures
        r.deep_view() == chunks_of_text(text@),
        r.len() == num_chunks(split_ws(text@).len() as int),
{
    let words = split_words(text);
    let w = words.len();
    proof {
        assert(words.deep_view().len() == words@.len());
    }
    if w <= CHUNK_SIZE {
        let mut r: Vec<String> = Vec::new();
        r.push(String::from_str(text));
        proof {
            assert(r.deep_view() =~= seq![text@]);
        }
        return r;
    }
    proof {
        lemma_last_chunk(w as int);
        assert(chunk_hi(0, w as int) == 500);
    }
    let mut chunks: Vec<String> = Vec::new();
    chunks.push(join_range(&words, 0, CHUNK_SIZE));
    proof {
        assert(words.deep_view().subrange(0, 500) =~= chunk_words(split_ws(text@), 0));
        assert(chunks.deep_view() =~= Seq::new(
            1nat,
            |j: int| join_spc(chunk_words(split_ws(text@), j)),
        ));
    }
    let mut start: usize = CHUNK_SIZE - CHUNK_OVERLAP;
    let ghost mut k: int = 1;
    loop
        invariant_except_break
            w == words.len(),
            words.deep_view() == split_ws(text@),
            500 < w,
            1 <= k <= num_chunks(w as int) - 1,
            start == 450 * k,
            start < w,
            forall|j: int| 1 <= j < k ==> #[trigger] chunk_lo(j) < w - 550,
            chunks.deep_view() == Seq::new(
                k as nat,
                |j: int| join_spc(chunk_words(split_ws(text@), j)),
            ),
        ensures
            chunks.deep_view() == spec_chunks(split_ws(text@)),
        decreases w - start,
    {
        proof {
            lemma_last_chunk(w as int);
        }
        let ghost pre = chunks.deep_view();
        if w - start <= CHUNK_SIZE + CHUNK_OVERLAP {
            // at most 550 words remain: this window is the last chunk
            proof {
                assert(chunk_lo(k) >= w - 550);
                assert(num_chunks(w as int) - 1 <= k);
                assert(k == num_chunks(w as int) - 1);
                assert(chunk_hi(k, w as int) == w);
            }
            chunks.push(join_range(&words, start, w));
            proof {
                assert(words.deep_view().subrange(start as int, w as int) =~= chunk_words(
                    split_ws(text@),
                    k,
                ));
                assert(chunks.deep_view() =~= pre.push(join_spc(chunk_words(split_ws(text@), k))));
                assert(chunks.deep_view() =~= spec_chunks(split_ws(text@)));
            }
            break ;
        }
        // more than 550 words remain: a full 500-word window
        proof {
            assert(chunk_lo(k) < w - 550);
            if k == num_chunks(w as int) - 1 {
                assert(chunk_lo(k) >= w - 550);
            }
            assert(k < num_chunks(w as int) - 1);
            assert(chunk_hi(k, w as int) == start + 500);
        }
        chunks.push(join_range(&words, start, start + CHUNK_SIZE));
        proof {
            assert(words.deep_view().subrange(start as int, start + 500) =~= chunk_words(
                split_ws(text@),
                k,
            ));
            assert(chunks.deep_view() =~= pre.push(join_spc(chunk_words(split_ws(text@), k))));
            assert(chunks.deep_view() =~= Seq::new(
                (k + 1) as nat,
                |j: int| join_spc(chunk_words(split_ws(text@), j)),
            ));
        }
        start = start + (CHUNK_SIZE - CHUNK_OVERLAP);
        proof {
            k = k + 1;
            assert(start == 450 * k);
            assert(chunk_lo(k - 1) < w - 550);
            assert(start < w);
        }
    }
    proof {
        assert(chunks.deep_view().len() == chunks@.len());
    }
    chunks
}

/// Every word of the text lies in at least one chunk.
pub proof fn lemma_chunks_cover(w: int, i: int)
    requires
        0 <= i < w,
    ensures
        exists|k: int|
            0 <= k < num_chunks(w) && #[trigger] chunk_lo(k) <= i < chunk_hi(k, w),
{
    if w <= 500 {
        assert(0 <= 0 < num_chunks(w) && #[trigger] chunk_lo(0) <= i < chunk_hi(0, w));
    } else {
        lemma_last_chunk(w);
        let last = num_chunks(w) - 1;
        let q = i / 450;
        assert(0 <= q && 450 * q <= i && i < 450 * (q + 1)) by (nonlinear_arith)
            requires
                q == i / 450,
                0 <= i,
        ;
        if q < last {
            assert(0 <= q < num_chunks(w) && #[trigger] chunk_lo(q) <= i < chunk_hi(q, w));
        } else {
            assert(450 * last <= 450 * q) by (nonlinear_arith)
                requires
                    last <= q,
            ;
            assert(0 <= last < num_chunks(w) && #[trigger] chunk_lo(last) <= i < chunk_hi(
                last,
                w,
            ));
        }
    }
}

/// Chunk widths: every chunk before the last has exactly 500 words, and the
/// last chunk holds more than 50 and at most 550 words.
pub proof fn lemma_chunk_sizes(words: Seq<Seq<char>>)
    requires
        words.len() > 500,
    ensures
        num_chunks(words.len() as int) >= 2,
        forall|k: int|
            0 <= k < num_chunks(words.len() as int) - 1 ==> (#[trigger] chunk_words(
                words,
                k,
            )).len() == 500,
        50 < chunk_words(words, num_chunks(words.len() as int) - 1).len() <= 550,
{
    let w = words.len() as int;
    lemma_last_chunk(w);
    let last = num_chunks(w) - 1;
    assert forall|k: int|
        0 <= k < last implies (#[trigger] chunk_words(words, k)).len() == 500 by {
        if k >= 1 {
            assert(chunk_lo(k) < w - 550);
        }
        assert(chunk_hi(k, w) == 450 * k + 500);
        assert(450 * k + 500 <= w);
    }
    assert(chunk_hi(last, w) == w);
    assert(chunk_lo(last) >= w - 550);
    assert(w - 450 * last <= 550);
    if last == 1 {
        assert(w - 450 * last > 50);
    } else {
        assert(chunk_lo(last - 1) < w - 550);
        assert(450 * (last - 1) == 450 * last - 450);
        assert(w - 450 * last > 100);
    }
}

/// The last 50 words of a chunk are exactly the first 50 words of the next
/// chunk: consecutive chunks overlap by the fixed overlap.
pub proof fn lemma_chunk_overlap(words: Seq<Seq<char>>, k: int)
    requires
        0 <= k,
        k + 1 < num_chunks(words.len() as int),
    ensures
        chunk_words(words, k).len() == 500,
        chunk_words(words, k + 1).len() > 50,
        chunk_words(words, k).subrange(
            chunk_words(words, k).len() - 50,
            chunk_words(words, k).len() as int,
        ) == chunk_words(words, k + 1).subrange(0, 50),
{
    let w = words.len() as int;
    assert(w > 500);
    lemma_last_chunk(w);
    lemma_chunk_sizes(words);
    let last = num_chunks(w) - 1;
    let hi = chunk_hi(k, w);
    assert(hi == 450 * k + 500);
    assert(chunk_lo(k + 1) == 450 * k + 450);
    assert(chunk_lo(k + 1) == hi - 50);
    if k + 1 < last {
        assert(chunk_words(words, k + 1).len() == 500);
    }
    assert(chunk_hi(k + 1, w) >= chunk_lo(k + 1) + 50);
    assert(chunk_words(words, k).subrange(
        chunk_words(words, k).len() - 50,
        chunk_words(words, k).len() as int,
    ) =~= words.subrange(hi - 50, hi));
    assert(chunk_words(words, k + 1).subrange(0, 50) =~= words.subrange(hi - 50, hi));
}

/// The chunks re-concatenated: chunk 0, then every later chunk up to `k`
/// with its first 50 overlap words dropped.
pub open spec fn rebuilt_words(words: Seq<Seq<char>>, k: int) -> Seq<Seq<char>>
    decreases k,
{
    if k <= 0 {
        chunk_words(words, 0)
    } else {
        rebuilt_words(words, k - 1) + chunk_words(words, k).skip(50)
    }
}

proof fn lemma_rebuilt_prefix(words: Seq<Seq<char>>, k: int)
    requires
        0 <= k < num_chunks(words.len() as int),
    ensures
        rebuilt_words(words, k) == words.subrange(0, chunk_hi(k, words.len() as int)),
    decreases k,
{
    let w = words.len() as int;
    if k == 0 {
        assert(chunk_words(words, 0) =~= words.subrange(0, chunk_hi(0, w)));
    } else {
        lemma_rebuilt_prefix(words, k - 1);
        assert(w > 500);
        lemma_last_chunk(w);
        lemma_chunk_sizes(words);
        // chunk k - 1 is not the last chunk, so it ends exactly 50 words
        // past the next chunk's start
        assert(chunk_hi(k - 1, w) == 450 * (k - 1) + 500);
        assert(450 * (k - 1) + 500 == 450 * k + 50);
        assert(chunk_lo(k) + 50 == chunk_hi(k - 1, w));
        assert(chunk_hi(k, w) >= chunk_lo(k) + 50);
        assert(chunk_words(words, k).skip(50) =~= words.subrange(450 * k + 50, chunk_hi(k, w)));
        assert(words.subrange(0, 450 * k + 50) + words.subrange(450 * k + 50, chunk_hi(k, w))
            =~= words.subrange(0, chunk_hi(k, w)));
    }
}

/// Nothing is lost and nothing is duplicated: dropping each later chunk's
/// 50 overlap words and concatenating the chunks reproduces the word
/// sequence exactly.
pub proof fn lemma_chunks_reconstruct(words: Seq<Seq<char>>)
    ensures
        rebuilt_words(words, num_chunks(words.len() as int) - 1) == words,
{
    let w = words.len() as int;
    let last = num_chunks(w) - 1;
    lemma_rebuilt_prefix(words, last);
    assert(chunk_hi(last, w) == w);
    assert(words.subrange(0, w) =~= words);
}

} // verus!
