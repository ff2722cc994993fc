//! The query engine's logic: query expansion parsing, multi-query fusion
//! with de-duplication, relevance filtering, and context and prompt
//! assembly. The network calls around these steps (embedding queries,
//! generating text) stay with the caller; every rule that decides what is
//! asked, kept and shown stands here with an exact contract.

use crate::store::{clone_embedding, clone_message, ChatMessage, ChatMessageModel};
use crate::text::{
    chars_of, dec_digits, dec_of_int, eq_str, i64_to_dec, join_parts, join_sep, split_lines,
    split_lines_spec, trim_spec, trim_str, u64_to_dec,
};
use crate::vector::{SearchResult, SearchResultModel};
use vstd::prelude::*;

verus! {

/// A query-answering failure.
#[derive(Debug, Clone)]
pub enum RagError {
    /// The embedding backend failed.
    Embedding(String),
    /// The similarity search failed.
    Vector(String),
    /// The generation backend failed.
    Llm(String),
    /// No usable context was found.
    NoContext,
}

/// How many fused results are kept for context assembly.
pub const MAX_CONTEXT_CHUNKS: usize = 5;

/// The relevance cutoff, in millionths: results scoring below it are
/// dropped, as a hard cutoff.
pub const MIN_SIMILARITY_MICROS: i64 = 250000;

/// How many recent conversation turns the prompts may quote.
pub const MAX_CHAT_HISTORY: usize = 10;

/// The cap on the total number of search queries, the original included.
pub const MAX_QUERIES: usize = 4;

/// The fixed system instruction that opens every generation prompt.
pub const SYSTEM_PROMPT: &'static str = "You are Metamind, a helpful AI assistant that answers questions based on the user's personal knowledge base.\n\nUse MAINLY the provided context to answer questions. If the context doesn't contain relevant information, say so clearly but attempt to answer the user's question.\n\nWhen citing information, mention which note it comes from if possible.\n\nBe concise but thorough in your answers.";

pub const EXPANSION_HEAD: &'static str = "Given the following conversation and the latest user query, generate 2-3 alternative search queries that would help find relevant information in a knowledge base. The queries should:\n1. Capture the core intent of the question\n2. Include relevant synonyms or related terms\n3. Consider context from the conversation\n\nReturn ONLY the queries, one per line, without numbering or explanations.\n\nConversation:\n";

pub const EXPANSION_MID: &'static str = "\n\nLatest Query: ";

pub const EXPANSION_TAIL: &'static str = "\n\nAlternative search queries:";

pub const NO_CONVERSATION: &'static str = "No previous conversation.";

pub const NO_CONTEXT: &'static str = "No relevant context found in your knowledge base.";

pub const CONTEXT_SEP: &'static str = "\n\n---\n\n";

pub const CONTEXT_HEAD: &'static str = "\n\n## Context from your knowledge base:\n\n";

pub const CHAT_HEAD: &'static str = "\n\n## Previous Conversation:\n\n";

pub const QUESTION_HEAD: &'static str = "\n\n## Current User Question:\n\n";

pub const ANSWER_HEAD: &'static str = "\n\n## Your Answer:";

/// The bounded window of recent conversation: the last 10 turns, in
/// chronological order.
pub open spec fn window_of(ms: Seq<ChatMessageModel>) -> Seq<ChatMessageModel> {
    if ms.len() <= 10 {
        ms
    } else {
        ms.subrange(ms.len() - 10, ms.len() as int)
    }
}

/// Takes the bounded window of recent conversation.
pub fn recent_window(history: &Vec<ChatMessage>) -> (r: Vec<ChatMessage>)
    ensures
        r.deep_view() == window_of(history.deep_view()),
{
    let n = history.len();
    let start: usize = if n <= MAX_CHAT_HISTORY {
        0
    } else {
        n - MAX_CHAT_HISTORY
    };
    let mut r: Vec<ChatMessage> = Vec::new();
    let mut i = start;
    proof {
        assert(history.deep_view().subrange(start as int, start as int)
            =~= Seq::<ChatMessageModel>::empty());
        assert(r.deep_view() =~= Seq::<ChatMessageModel>::empty());
    }
    while i < n
        invariant
            n == history.len(),
            start <= i <= n,
            r.deep_view() == history.deep_view().subrange(start as int, i as int),
        decreases n - i,
    {
        let ghost pre = r.deep_view();
        let m = clone_message(&history[i]);
        r.push(m);
        i += 1;
        proof {
            assert(r.deep_view() =~= pre.push(history@[i - 1]@));
            assert(history.deep_view().subrange(start as int, i as int) =~= pre.push(
                history.deep_view()[i - 1],
            ));
        }
    }
    proof {
        assert(history.deep_view().subrange(start as int, n as int) =~= window_of(
            history.deep_view(),
        ));
    }
    r
}

/// One conversation line as the expansion prompt shows it.
pub open spec fn conv_line(m: ChatMessageModel) -> Seq<char> {
    m.role + ": "@ + m.content
}

/// The conversation as the expansion prompt shows it: one line per turn, or
/// a fixed placeholder when there are no turns.
pub open spec fn conversation_of(ms: Seq<ChatMessageModel>) -> Seq<char> {
    if ms.len() == 0 {
        NO_CONVERSATION@
    } else {
        join_sep(ms.map_values(|m: ChatMessageModel| conv_line(m)), "\n"@)
    }
}

fn format_conversation(window: &Vec<ChatMessage>) -> (r: String)
    ensures
        r@ == conversation_of(window.deep_view()),
{
    let n = window.len();
    if n == 0 {
        return String::from_str(NO_CONVERSATION);
    }
    let mut lines: Vec<String> = Vec::new();
    let mut i: usize = 0;
    proof {
        assert(lines.deep_view() =~= window.deep_view().subrange(0, 0).map_values(
            |m: ChatMessageModel| conv_line(m),
        ));
    }
    while i < n
        invariant
            n == window.len(),
            i <= n,
            window.deep_view().len() == n,
            lines.deep_view() == window.deep_view().subrange(0, i as int).map_values(
                |m: ChatMessageModel| conv_line(m),
            ),
        decreases n - i,
    {
        let ghost pre = lines.deep_view();
        let m = &window[i];
        let mut line = String::from_str(m.role.as_str());
        line.append(": ");
        line.append(m.content.as_str());
        lines.push(line);
        i += 1;
        proof {
            let f = |m: ChatMessageModel| conv_line(m);
            assert(window.deep_view()[i - 1] == window@[i - 1]@);
            assert(lines.deep_view() =~= pre.push(conv_line(window.deep_view()[i - 1])));
            assert(window.deep_view().subrange(0, i as int).map_values(f) =~= window.deep_view()
                .subrange(0, i - 1).map_values(f).push(f(window.deep_view()[i - 1])));
        }
    }
    proof {
        assert(window.deep_view().subrange(0, n as int) =~= window.deep_view());
    }
    join_parts(&lines, "\n")
}

/// The dedicated prompt that asks the generation backend for alternative
/// phrasings of the question, quoting the recent conversation.
pub open spec fn expansion_prompt_of(query: Seq<char>, history: Seq<ChatMessageModel>) -> Seq<
    char,
> {
    EXPANSION_HEAD@ + conversation_of(window_of(history)) + EXPANSION_MID@ + query
        + EXPANSION_TAIL@
}

/// Builds the query-expansion prompt.
pub fn build_expansion_prompt(query: &str, history: &Vec<ChatMessage>) -> (r: String)
    ensures
        r@ == expansion_prompt_of(query@, history.deep_view()),
{
    let window = recent_window(history);
    let conversation = format_conversation(&window);
    let mut r = String::from_str(EXPANSION_HEAD);
    r.append(conversation.as_str());
    r.append(EXPANSION_MID);
    r.append(query);
    r.append(EXPANSION_TAIL);
    proof {
        assert(r@ =~= expansion_prompt_of(query@, history.deep_view()));
    }
    r
}

/// A leading list-marker character: an ASCII digit, dot, closing
/// parenthesis or space. Only ASCII digits count as numbering here — a
/// deliberate narrowing to the digits that list numbering is written with.
pub open spec fn is_marker(c: char) -> bool {
    ('0' <= c && c <= '9') || c == '.' || c == ')' || c == ' '
}

/// The line with its leading list markers removed.
pub open spec fn strip_markers(t: Seq<char>) -> Seq<char>
    decreases t.len(),
{
    if t.len() > 0 && is_marker(t[0]) {
        strip_markers(t.drop_first())
    } else {
        t
    }
}

proof fn lemma_strip_markers_skip(s: Seq<char>, a: int)
    requires
        0 <= a <= s.len(),
        forall|j: int| 0 <= j < a ==> is_marker(s[j]),
    ensures
        strip_markers(s) == strip_markers(s.subrange(a, s.len() as int)),
    decreases a,
{
    if a == 0 {
        assert(s.subrange(0, s.len() as int) =~= s);
    } else {
        assert(is_marker(s[0]));
        assert(s.drop_first() =~= s.subrange(1, s.len() as int));
        lemma_strip_markers_skip(s.drop_first(), a - 1);
        assert(s.drop_first().subrange(a - 1, s.drop_first().len() as int) =~= s.subrange(
            a,
            s.len() as int,
        ));
    }
}

fn is_marker_char(c: char) -> (r: bool)
    ensures
        r == is_marker(c),
{
    ('0' <= c && c <= '9') || c == '.' || c == ')' || c == ' '
}

fn strip_markers_str(t: &str) -> (r: String)
    ensures
        r@ == strip_markers(t@),
{
    let cs = chars_of(t);
    let n = cs.len();
    let mut a: usize = 0;
    while a < n && is_marker_char(cs[a])
        invariant
            n == t@.len(),
            cs@ == t@,
            a <= n,
            forall|j: int| 0 <= j < a ==> is_marker(t@[j]),
        decreases n - a,
    {
        a += 1;
    }
    proof {
        lemma_strip_markers_skip(t@, a as int);
        if a < n {
            assert(!is_marker(t@.subrange(a as int, n as int)[0]));
        } else {
            assert(t@.subrange(a as int, n as int).len() == 0);
        }
    }
    String::from_str(t.substring_char(a, n))
}

/// A usable expansion line: more than 3 and at most 500 characters after
/// trimming, and not a bulleted line.
pub open spec fn keep_line(t: Seq<char>) -> bool {
    t.len() > 3 && t.len() <= 500 && t[0] != '-' && t[0] != '*'
}

/// The usable queries among the response lines, in order: each line is
/// trimmed, bulleted or out-of-length lines are discarded, leading list
/// markers are stripped, and lines emptied by stripping are discarded.
pub open spec fn kept_queries(lines: Seq<Seq<char>>) -> Seq<Seq<char>>
    decreases lines.len(),
{
    if lines.len() == 0 {
        Seq::empty()
    } else {
        let t = trim_spec(lines[0]);
        let c = strip_markers(t);
        if keep_line(t) && c.len() > 0 {
            seq![c] + kept_queries(lines.drop_first())
        } else {
            kept_queries(lines.drop_first())
        }
    }
}

/// The search queries an expansion response yields: the original question
/// first, then the usable response lines, capped at 4 in all.
pub open spec fn expansion_queries(original: Seq<char>, response: Seq<char>) -> Seq<Seq<char>> {
    let all = seq![original] + kept_queries(split_lines_spec(response));
    all.subrange(
        0,
        if all.len() < 4 {
            all.len() as int
        } else {
            4
        },
    )
}

/// Parses an expansion response into the search queries to run. The
/// original question always comes first; expansion failure is handled by
/// the caller passing an empty response, which yields the original alone.
pub fn parse_expansion_response(original: &str, response: &str) -> (r: Vec<String>)
    ensures
        r.deep_view() == expansion_queries(original@, response@),
        1 <= r.len() <= 4,
{
    let lines = split_lines(response);
    let n = lines.len();
    let mut queries: Vec<String> = Vec::new();
    queries.push(String::from_str(original));
    let mut i: usize = 0;
    proof {
        assert(lines.deep_view().subrange(0, n as int) =~= lines.deep_view());
        assert(queries.deep_view() =~= seq![original@]);
        assert(queries.deep_view() + kept_queries(lines.deep_view()) =~= seq![original@]
            + kept_queries(lines.deep_view()));
    }
    while i < n
        invariant
            n == lines.len(),
            i <= n,
            lines.deep_view().len() == n,
            queries.deep_view().len() >= 1,
            queries.deep_view() + kept_queries(
                lines.deep_view().subrange(i as int, n as int),
            ) == seq![original@] + kept_queries(lines.deep_view()),
        decreases n - i,
    {
        let ghost rem = lines.deep_view().subrange(i as int, n as int);
        proof {
            assert(rem.drop_first() =~= lines.deep_view().subrange(i + 1, n as int));
            assert(rem[0] == lines.deep_view()[i as int]);
            assert(lines.deep_view()[i as int] == lines@[i as int]@);
        }
        let t = trim_str(lines[i].as_str());
        let tl = t.as_str().unicode_len();
        let ghost tsp = trim_spec(lines.deep_view()[i as int]);
        proof {
            assert(t@ == tsp);
        }
        if tl > 3 && tl <= 500 && t.as_str().get_char(0) != '-' && t.as_str().get_char(0) != '*' {
            proof {
                assert(keep_line(tsp));
            }
            let cleaned = strip_markers_str(t.as_str());
            if cleaned.as_str().unicode_len() > 0 {
                let ghost pre = queries.deep_view();
                queries.push(cleaned);
                proof {
                    assert(queries.deep_view() =~= pre.push(strip_markers(tsp)));
                    assert(pre.push(strip_markers(tsp)) + kept_queries(rem.drop_first()) =~= pre + (
                    seq![strip_markers(tsp)] + kept_queries(rem.drop_first())));
                }
            }
        } else {
            proof {
                assert(!keep_line(tsp));
            }
        }
        i += 1;
    }
    proof {
        assert(kept_queries(lines.deep_view().subrange(n as int, n as int))
            =~= Seq::<Seq<char>>::empty());
        assert(queries.deep_view() + Seq::<Seq<char>>::empty() =~= queries.deep_view());
    }
    let ghost all = seq![original@] + kept_queries(lines.deep_view());
    queries.truncate(MAX_QUERIES);
    proof {
        assert(queries.deep_view() =~= all.subrange(
            0,
            if all.len() < 4 {
                all.len() as int
            } else {
                4
            },
        ));
    }
    queries
}

/// Some result in `s` carries the chunk key `id`.
pub open spec fn contains_id(s: Seq<SearchResultModel>, id: Seq<char>) -> bool {
    exists|k: int| 0 <= k < s.len() && (#[trigger] s[k]).embedding.id == id
}

/// De-duplication by chunk key, first occurrence winning: a result is kept
/// exactly when no earlier result carries its key.
pub open spec fn dedup_first(s: Seq<SearchResultModel>) -> Seq<SearchResultModel>
    decreases s.len(),
{
    if s.len() == 0 {
        Seq::empty()
    } else {
        let pre = dedup_first(s.drop_last());
        if contains_id(pre, s.last().embedding.id) {
            pre
        } else {
            pre.push(s.last())
        }
    }
}

fn contains_result_id(r: &Vec<SearchResult>, id: &str) -> (found: bool)
    ensures
        found == contains_id(r.deep_view(), id@),
{
    let n = r.len();
    let mut i: usize = 0;
    while i < n
        invariant
            n == r.len(),
            i <= n,
            forall|k: int| 0 <= k < i ==> (#[trigger] r.deep_view()[k]).embedding.id != id@,
        decreases n - i,
    {
        proof {
            assert(r.deep_view()[i as int] == r@[i as int]@);
        }
        if eq_str(r[i].embedding.id.as_str(), id) {
            proof {
                assert(contains_id(r.deep_view(), id@));
            }
            return true;
        }
        i += 1;
    }
    false
}

fn clone_result(x: &SearchResult) -> (r: SearchResult)
    ensures
        r@ == x@,
{
    SearchResult {
        embedding: clone_embedding(&x.embedding),
        similarity_micros: x.similarity_micros,
    }
}

proof fn lemma_flatten_push(s: Seq<Seq<SearchResultModel>>, x: Seq<SearchResultModel>)
    ensures
        s.push(x).flatten() == s.flatten() + x,
    decreases s.len(),
{
    if s.len() == 0 {
        assert(s.push(x) =~= seq![x]);
        assert(seq![x].drop_first() =~= Seq::<Seq<SearchResultModel>>::empty());
        assert(Seq::<Seq<SearchResultModel>>::empty().flatten()
            =~= Seq::<SearchResultModel>::empty());
        assert(seq![x].flatten() =~= x);
        assert(s.flatten() + x =~= x);
    } else {
        lemma_flatten_push(s.drop_first(), x);
        assert(s.push(x).drop_first() =~= s.drop_first().push(x));
        assert(s.push(x)[0] == s[0]);
        assert(s.push(x).flatten() == s[0] + s.drop_first().push(x).flatten());
        assert(s.push(x).flatten() =~= s.flatten() + x);
    }
}

/// Merges per-query result lists into one list without duplicate chunks:
/// results are taken in query order, and a chunk already seen under its key
/// is dropped — the first occurrence wins.
pub fn fuse_results(lists: &Vec<Vec<SearchResult>>) -> (r: Vec<SearchResult>)
    ensures
        r.deep_view() == dedup_first(lists.deep_view().flatten()),
{
    let mut r: Vec<SearchResult> = Vec::new();
    let ghost mut flat: Seq<SearchResultModel> = Seq::empty();
    let nl = lists.len();
    let mut l: usize = 0;
    proof {
        assert(lists.deep_view().subrange(0, 0) =~= Seq::<Seq<SearchResultModel>>::empty());
        assert(Seq::<Seq<SearchResultModel>>::empty().flatten()
            =~= Seq::<SearchResultModel>::empty());
        assert(r.deep_view() =~= dedup_first(flat));
    }
    while l < nl
        invariant
            nl == lists.len(),
            l <= nl,
            lists.deep_view().len() == nl,
            flat == lists.deep_view().subrange(0, l as int).flatten(),
            r.deep_view() == dedup_first(flat),
        decreases nl - l,
    {
        let nk = lists[l].len();
        let mut k: usize = 0;
        proof {
            assert(lists.deep_view()[l as int] == lists@[l as int].deep_view());
            assert(lists.deep_view()[l as int].subrange(0, 0) =~= Seq::<SearchResultModel>::empty());
            assert(flat + Seq::<SearchResultModel>::empty() =~= flat);
        }
        let ghost flat_l = flat;
        while k < nk
            invariant
                nl == lists.len(),
                l < nl,
                lists.deep_view().len() == nl,
                nk == lists@[l as int].len(),
                k <= nk,
                lists.deep_view()[l as int] == lists@[l as int].deep_view(),
                lists.deep_view()[l as int].len() == nk,
                flat == flat_l + lists.deep_view()[l as int].subrange(0, k as int),
                r.deep_view() == dedup_first(flat),
            decreases nk - k,
        {
            let ghost cur = lists.deep_view()[l as int][k as int];
            proof {
                assert(cur == lists@[l as int]@[k as int]@);
            }
            let x = &lists[l][k];
            let found = contains_result_id(&r, x.embedding.id.as_str());
            let ghost flat2 = flat.push(cur);
            proof {
                assert(flat2.drop_last() =~= flat);
                assert(flat2.last() == cur);
                assert(dedup_first(flat2) == (if contains_id(dedup_first(flat), cur.embedding.id) {
                    dedup_first(flat)
                } else {
                    dedup_first(flat).push(cur)
                }));
            }
            if !found {
                let ghost pre = r.deep_view();
                let c = clone_result(x);
                r.push(c);
                proof {
                    assert(r.deep_view() =~= pre.push(cur));
                }
            }
            proof {
                flat = flat2;
                assert(flat_l + lists.deep_view()[l as int].subrange(0, k + 1) =~= (flat_l
                    + lists.deep_view()[l as int].subrange(0, k as int)).push(cur));
            }
            k += 1;
        }
        proof {
            assert(lists.deep_view()[l as int].subrange(0, nk as int) =~= lists.deep_view()[l as int]);
            assert(lists.deep_view().subrange(0, l + 1) =~= lists.deep_view().subrange(
                0,
                l as int,
            ).push(lists.deep_view()[l as int]));
            lemma_flatten_push(
                lists.deep_view().subrange(0, l as int),
                lists.deep_view()[l as int],
            );
            assert(flat == lists.deep_view().subrange(0, l + 1).flatten());
        }
        l += 1;
    }
    proof {
        assert(lists.deep_view().subrange(0, nl as int) =~= lists.deep_view());
    }
    r
}

/// Multi-query fusion de-duplicates: the fused list holds each chunk key at
/// most once, and holds a key exactly when some query's results hold it —
/// so a chunk returned by several queries appears exactly once.
pub proof fn lemma_fusion_dedups(s: Seq<SearchResultModel>)
    ensures
        forall|i: int, j: int|
            0 <= i < j < dedup_first(s).len() ==> (#[trigger] dedup_first(s)[i]).embedding.id != (
            #[trigger] dedup_first(s)[j]).embedding.id,
        forall|id: Seq<char>| contains_id(dedup_first(s), id) <==> contains_id(s, id),
    decreases s.len(),
{
    if s.len() == 0 {
        assert forall|id: Seq<char>| contains_id(dedup_first(s), id) <==> contains_id(
            s,
            id,
        ) by {
            assert(dedup_first(s) =~= Seq::<SearchResultModel>::empty());
        }
    } else {
        let rest = s.drop_last();
        lemma_fusion_dedups(rest);
        let pre = dedup_first(rest);
        let x = s.last();
        assert(forall|k: int| 0 <= k < rest.len() ==> rest[k] == s[k]);
        assert forall|id: Seq<char>| contains_id(s, id) <==> (contains_id(rest, id)
            || x.embedding.id == id) by {
            if contains_id(s, id) {
                let w = choose|w: int| 0 <= w < s.len() && (#[trigger] s[w]).embedding.id == id;
                if w < s.len() - 1 {
                    assert(rest[w].embedding.id == id);
                    assert(contains_id(rest, id));
                } else {
                    assert(x.embedding.id == id);
                }
            }
            if contains_id(rest, id) {
                let w = choose|w: int| 0 <= w < rest.len() && (#[trigger] rest[w]).embedding.id
                    == id;
                assert(s[w].embedding.id == id);
                assert(contains_id(s, id));
            }
            if x.embedding.id == id {
                assert(s[s.len() - 1].embedding.id == id);
                assert(contains_id(s, id));
            }
        }
        if contains_id(pre, x.embedding.id) {
            assert(dedup_first(s) == pre);
            assert forall|id: Seq<char>| contains_id(dedup_first(s), id) <==> contains_id(
                s,
                id,
            ) by {
                assert(contains_id(pre, id) <==> contains_id(rest, id));
                if x.embedding.id == id {
                    assert(contains_id(pre, id));
                }
            }
        } else {
            let f = pre.push(x);
            assert(dedup_first(s) == f);
            assert forall|i: int, j: int| 0 <= i < j < f.len() implies (
            #[trigger] f[i]).embedding.id != (#[trigger] f[j]).embedding.id by {
                if j < f.len() - 1 {
                    assert(f[i] == pre[i] && f[j] == pre[j]);
                } else {
                    assert(f[j] == x);
                    assert(f[i] == pre[i]);
                    assert(pre[i].embedding.id == x.embedding.id ==> contains_id(
                        pre,
                        x.embedding.id,
                    ));
                }
            }
            assert forall|id: Seq<char>| contains_id(dedup_first(s), id) <==> contains_id(
                s,
                id,
            ) by {
                if contains_id(f, id) {
                    let w = choose|w: int| 0 <= w < f.len() && (#[trigger] f[w]).embedding.id
                        == id;
                    if w < f.len() - 1 {
                        assert(pre[w].embedding.id == id);
                        assert(contains_id(pre, id));
                    } else {
                        assert(x.embedding.id == id);
                    }
                }
                if contains_id(rest, id) {
                    assert(contains_id(pre, id));
                    let w = choose|w: int| 0 <= w < pre.len() && (#[trigger] pre[w]).embedding.id
                        == id;
                    assert(f[w].embedding.id == id);
                    assert(contains_id(f, id));
                }
                if x.embedding.id == id {
                    assert(f[f.len() - 1].embedding.id == id);
                    assert(contains_id(f, id));
                }
            }
        }
    }
}

/// Keeps the results scoring at least `t` millionths.
pub open spec fn at_least(t: i64) -> spec_fn(SearchResultModel) -> bool {
    |r: SearchResultModel| r.similarity_micros >= t
}

/// Drops every result whose similarity falls below the threshold. The
/// threshold is a hard cutoff, not a ranking signal.
pub fn filter_relevant(results: &Vec<SearchResult>, threshold_micros: i64) -> (r: Vec<
    SearchResult,
>)
    ensures
        r.deep_view() == results.deep_view().filter(at_least(threshold_micros)),
{
    let n = results.len();
    let mut r: Vec<SearchResult> = Vec::new();
    let mut i: usize = 0;
    proof {
        assert(results.deep_view().subrange(0, 0) =~= Seq::<SearchResultModel>::empty());
        assert(Seq::<SearchResultModel>::empty().filter(at_least(threshold_micros))
            =~= Seq::<SearchResultModel>::empty()) by {
            reveal(Seq::filter);
        }
        assert(r.deep_view() =~= Seq::<SearchResultModel>::empty().filter(
            at_least(threshold_micros),
        ));
    }
    while i < n
        invariant
            n == results.len(),
            i <= n,
            r.deep_view() == results.deep_view().subrange(0, i as int).filter(
                at_least(threshold_micros),
            ),
        decreases n - i,
    {
        let ghost pre = results.deep_view().subrange(0, i as int);
        let ghost cur = results.deep_view()[i as int];
        proof {
            assert(cur == results@[i as int]@);
            assert(results.deep_view().subrange(0, i + 1) =~= pre.push(cur));
            pre.lemma_filter_push(cur, at_least(threshold_micros));
            assert(at_least(threshold_micros)(cur) == (cur.similarity_micros >= threshold_micros));
        }
        let ghost prek = r.deep_view();
        if results[i].similarity_micros >= threshold_micros {
            let c = clone_result(&results[i]);
            r.push(c);
            proof {
                assert(r.deep_view() =~= prek.push(cur));
            }
        }
        i += 1;
    }
    proof {
        assert(results.deep_view().subrange(0, n as int) =~= results.deep_view());
    }
    r
}

/// The similarity as a percentage, rounded half away from zero.
pub open spec fn percent_of(m: int) -> int {
    if m >= 0 {
        (m + 5000) / 10000
    } else {
        -((-m + 5000) / 10000)
    }
}

fn percent_exec(m: i64) -> (p: i64)
    ensures
        p as int == percent_of(m as int),
{
    if m >= 0 {
        let q: i128 = ((m as i128) + 5000) / 10000;
        proof {
            assert(0 <= q <= i64::MAX);
        }
        q as i64
    } else {
        let q: i128 = ((-(m as i128)) + 5000) / 10000;
        proof {
            assert(0 <= q <= i64::MAX);
        }
        (-q) as i64
    }
}

/// One labeled source block of the assembled context.
pub open spec fn context_block(i: int, r: SearchResultModel) -> Seq<char> {
    "[Source "@ + dec_digits(i + 1) + ": "@ + r.embedding.artifact_id + " (relevance: "@
        + dec_of_int(percent_of(r.similarity_micros as int)) + "%)]\n"@ + r.embedding.content
}

/// The assembled context: numbered, labeled source blocks joined by a
/// visible separator, or an explicit placeholder when nothing survived
/// filtering.
pub open spec fn context_of(rs: Seq<SearchResultModel>) -> Seq<char> {
    if rs.len() == 0 {
        NO_CONTEXT@
    } else {
        join_sep(Seq::new(rs.len(), |i: int| context_block(i, rs[i])), CONTEXT_SEP@)
    }
}

/// Formats surviving results as the knowledge-base context.
pub fn build_context(results: &Vec<SearchResult>) -> (r: String)
    ensures
        r@ == context_of(results.deep_view()),
{
    let n = results.len();
    if n == 0 {
        return String::from_str(NO_CONTEXT);
    }
    let mut blocks: Vec<String> = Vec::new();
    let mut i: usize = 0;
    proof {
        assert(results.deep_view().len() == n);
        assert(blocks.deep_view() =~= Seq::new(0nat, |k: int| context_block(k, results.deep_view()[k])));
    }
    while i < n
        invariant
            n == results.len(),
            i <= n,
            results.deep_view().len() == n,
            blocks.deep_view() == Seq::new(
                i as nat,
                |k: int| context_block(k, results.deep_view()[k]),
            ),
        decreases n - i,
    {
        let ghost pre = blocks.deep_view();
        let res = &results[i];
        let ghost cur = results.deep_view()[i as int];
        proof {
            assert(cur == results@[i as int]@);
        }
        let mut block = String::from_str("[Source ");
        block.append(u64_to_dec((i as u64) + 1).as_str());
        block.append(": ");
        block.append(res.embedding.artifact_id.as_str());
        block.append(" (relevance: ");
        block.append(i64_to_dec(percent_exec(res.similarity_micros)).as_str());
        block.append("%)]\n");
        block.append(res.embedding.content.as_str());
        proof {
            assert(block@ =~= context_block(i as int, cur));
        }
        blocks.push(block);
        i += 1;
        proof {
            assert(blocks.deep_view() =~= pre.push(context_block(i - 1, results.deep_view()[i - 1])));
            assert(Seq::new(i as nat, |k: int| context_block(k, results.deep_view()[k])) =~= pre.push(
                context_block(i - 1, results.deep_view()[i - 1]),
            ));
        }
    }
    join_parts(&blocks, CONTEXT_SEP)
}

/// The label a role gets in the prompt's conversation quote.
pub open spec fn role_label(role: Seq<char>) -> Seq<char> {
    if role == "user"@ {
        "User"@
    } else {
        "Assistant"@
    }
}

/// One quoted conversation turn of the final prompt.
pub open spec fn hist_line(m: ChatMessageModel) -> Seq<char> {
    role_label(m.role) + ": "@ + m.content
}

/// The quoted recent conversation of the final prompt: empty when there are
/// no turns, else a headed block of labeled turns.
pub open spec fn chat_context_of(ms: Seq<ChatMessageModel>) -> Seq<char> {
    if ms.len() == 0 {
        Seq::empty()
    } else {
        CHAT_HEAD@ + join_sep(ms.map_values(|m: ChatMessageModel| hist_line(m)), "\n\n"@)
    }
}

/// The one prompt handed to the generation backend: the fixed system
/// instruction, the assembled context, the quoted recent conversation, and
/// the current question.
pub open spec fn prompt_of(
    query: Seq<char>,
    kb_context: Seq<char>,
    history: Seq<ChatMessageModel>,
) -> Seq<char> {
    SYSTEM_PROMPT@ + CONTEXT_HEAD@ + kb_context + chat_context_of(window_of(history))
        + QUESTION_HEAD@ + query + ANSWER_HEAD@
}

/// Builds the final generation prompt.
pub fn build_prompt_with_history(
    query: &str,
    kb_context: &str,
    chat_history: &Vec<ChatMessage>,
) -> (r: String)
    ensures
        r@ == prompt_of(query@, kb_context@, chat_history.deep_view()),
{
    let window = recent_window(chat_history);
    let wn = window.len();
    let mut chat_context = String::new();
    if wn > 0 {
        let mut lines: Vec<String> = Vec::new();
        let mut i: usize = 0;
        proof {
            assert(lines.deep_view() =~= window.deep_view().subrange(0, 0).map_values(
                |m: ChatMessageModel| hist_line(m),
            ));
        }
        while i < wn
            invariant
                wn == window.len(),
                i <= wn,
                window.deep_view().len() == wn,
                lines.deep_view() == window.deep_view().subrange(0, i as int).map_values(
                    |m: ChatMessageModel| hist_line(m),
                ),
            decreases wn - i,
        {
            let ghost pre = lines.deep_view();
            let m = &window[i];
            let label = if eq_str(m.role.as_str(), "user") {
                "User"
            } else {
                "Assistant"
            };
            let mut line = String::from_str(label);
            line.append(": ");
            line.append(m.content.as_str());
            lines.push(line);
            i += 1;
            proof {
                let f = |m: ChatMessageModel| hist_line(m);
                assert(window.deep_view()[i - 1] == window@[i - 1]@);
                assert(line@ =~= hist_line(window.deep_view()[i - 1]));
                assert(lines.deep_view() =~= pre.push(hist_line(window.deep_view()[i - 1])));
                assert(window.deep_view().subrange(0, i as int).map_values(f) =~= window.deep_view()
                    .subrange(0, i - 1).map_values(f).push(f(window.deep_view()[i - 1])));
            }
        }
        proof {
            assert(window.deep_view().subrange(0, wn as int) =~= window.deep_view());
        }
        let joined = join_parts(&lines, "\n\n");
        chat_context = String::from_str(CHAT_HEAD);
        chat_context.append(joined.as_str());
    }
    proof {
        assert(chat_context@ =~= chat_context_of(window_of(chat_history.deep_view())));
    }
    let mut r = String::from_str(SYSTEM_PROMPT);
    r.append(CONTEXT_HEAD);
    r.append(kb_context);
    r.append(chat_context.as_str());
    r.append(QUESTION_HEAD);
    r.append(query);
    r.append(ANSWER_HEAD);
    proof {
        assert(r@ =~= prompt_of(query@, kb_context@, chat_history.deep_view()));
    }
    r
}

} // verus!
