use rayon::iter::IntoParallelRefIterator;
use rayon::iter::ParallelIterator;
use vstd::prelude::*;
use crate::tokenizer::find_key;
use crate::tokenizer::has_key;
use crate::tokenizer::lemma_occurrences_bound;
use crate::tokenizer::occurrences;
use crate::tokenizer::same_chars;
use crate::tokenizer::str_views;
use crate::tokenizer::string_views;
use crate::tokenizer::tokens_of;
use crate::tokenizer::Tokenizer;

verus! {

/// The characters of each token of each token list.
pub open spec fn docs_view(tokens: Seq<Vec<&str>>) -> Seq<Seq<Seq<char>>> {
    tokens.map_values(|t: Vec<&str>| str_views(t@))
}

/// Whether `tokens` holds, at each index, the tokens of the sentence there.
pub open spec fn tokenizes(sentences: Seq<String>, tokens: Seq<Vec<&str>>) -> bool {
    &&& tokens.len() == sentences.len()
    &&& forall|i: int| 0 <= i < tokens.len() ==> #[trigger] str_views(tokens[i]@) == tokens_of(sentences[i]@)
}

/// The number of tokens over all token lists.
pub open spec fn total_tokens(docs: Seq<Seq<Seq<char>>>) -> nat
    decreases docs.len(),
{
    if docs.len() == 0 {
        0
    } else {
        total_tokens(docs.drop_last()) + docs.last().len()
    }
}

/// How often `w` occurs over all token lists, counting repeats within one.
pub open spec fn corpus_occurrences(docs: Seq<Seq<Seq<char>>>, w: Seq<char>) -> nat
    decreases docs.len(),
{
    if docs.len() == 0 {
        0
    } else {
        corpus_occurrences(docs.drop_last(), w) + occurrences(docs.last(), w)
    }
}

pub proof fn lemma_corpus_bound(docs: Seq<Seq<Seq<char>>>, w: Seq<char>)
    ensures
        corpus_occurrences(docs, w) <= total_tokens(docs),
    decreases docs.len(),
{
    if docs.len() > 0 {
        lemma_corpus_bound(docs.drop_last(), w);
        lemma_occurrences_bound(docs.last(), w);
    }
}

pub proof fn lemma_total_prefix(docs: Seq<Seq<Seq<char>>>, j: int)
    requires
        0 <= j <= docs.len(),
    ensures
        total_tokens(docs.subrange(0, j)) <= total_tokens(docs),
    decreases docs.len(),
{
    if j < docs.len() {
        assert(docs.drop_last().subrange(0, j) =~= docs.subrange(0, j));
        lemma_total_prefix(docs.drop_last(), j);
    } else {
        assert(docs.subrange(0, j) =~= docs);
    }
}

/// Index `a` comes before index `b` in the ranking: a higher key, or an equal
/// key and an earlier index.
pub open spec fn ranked_before(keys: Seq<u32>, a: int, b: int) -> bool {
    keys[a] > keys[b] || (keys[a] == keys[b] && a < b)
}

/// `order` lists each index of `keys` once, highest key first, and indices of
/// equal keys in index order.
pub open spec fn is_ranking(keys: Seq<u32>, order: Seq<usize>) -> bool {
    &&& order.len() == keys.len()
    &&& forall|j: int| 0 <= j < order.len() ==> #[trigger] order[j] < keys.len()
    &&& forall|a: int| 0 <= a < keys.len() ==> #[trigger] order.contains(a as usize)
    &&& forall|j: int, l: int|
        0 <= j < l < order.len() ==> ranked_before(keys, #[trigger] order[j] as int, #[trigger] order[l] as int)
}

/// The sentences at the first `count` places of `order` (all of them when
/// `count` is larger).
pub open spec fn selected(sentences: Seq<Seq<char>>, order: Seq<usize>, count: nat) -> Seq<Seq<char>> {
    let m = if count < order.len() {
        count as int
    } else {
        order.len() as int
    };
    Seq::new(m as nat, |j: int| sentences[order[j] as int])
}

/// The parts with `sep` between each two neighbours.
pub open spec fn join(parts: Seq<Seq<char>>, sep: Seq<char>) -> Seq<char>
    decreases parts.len(),
{
    if parts.len() == 0 {
        seq![]
    } else if parts.len() == 1 {
        parts[0]
    } else {
        join(parts.drop_last(), sep) + sep + parts.last()
    }
}

/// The unsigned key of an IEEE single-precision bit pattern whose order is the
/// total order of `f32::total_cmp`: negative values below positive ones, and
/// within each sign by magnitude.
pub open spec fn order_key(bits: u32) -> u32 {
    if bits >= 0x8000_0000 {
        (0xFFFF_FFFFu32 - bits) as u32
    } else {
        (bits + 0x8000_0000u32) as u32
    }
}

proof fn lemma_ranking_prefix(keys: Seq<u32>, o1: Seq<usize>, o2: Seq<usize>, j: int)
    requires
        is_ranking(keys, o1),
        is_ranking(keys, o2),
        0 <= j <= o1.len(),
    ensures
        forall|i: int| 0 <= i < j ==> o1[i] == o2[i],
    decreases j,
{
    if j > 0 {
        lemma_ranking_prefix(keys, o1, o2, j - 1);
        let t = j - 1;
        let a = o1[t];
        let b = o2[t];
        if a != b {
            assert(a < keys.len() && b < keys.len());
            assert(o2.contains(a as int as usize));
            assert(o1.contains(b as int as usize));
            let p = choose|p: int| 0 <= p < o2.len() && o2[p] == a;
            let q = choose|q: int| 0 <= q < o1.len() && o1[q] == b;
            if p < t {
                assert(o1[p] == a);
                assert(ranked_before(keys, o1[p] as int, o1[t] as int));
            }
            if q < t {
                assert(o2[q] == b);
                assert(ranked_before(keys, o2[q] as int, o2[t] as int));
            }
            assert(p > t && q > t);
            assert(ranked_before(keys, o2[t] as int, o2[p] as int));
            assert(ranked_before(keys, o1[t] as int, o1[q] as int));
        }
    }
}

/// The ranking of a list of keys is unique: ranking the same scores twice
/// gives the same order.
pub proof fn lemma_ranking_unique(keys: Seq<u32>, o1: Seq<usize>, o2: Seq<usize>)
    requires
        is_ranking(keys, o1),
        is_ranking(keys, o2),
    ensures
        o1 == o2,
{
    lemma_ranking_prefix(keys, o1, o2, o1.len() as int);
    assert(o1 =~= o2);
}

/// Summarizing the same sentences with the same keys, budget and separator
/// twice gives the same summary: nothing but the inputs decides it.
pub proof fn lemma_summary_deterministic(
    sentences: Seq<Seq<char>>,
    keys: Seq<u32>,
    count: nat,
    sep: Seq<char>,
    r1: Seq<char>,
    r2: Seq<char>,
)
    requires
        exists|order: Seq<usize>| is_ranking(keys, order) && r1 == join(selected(sentences, order, count), sep),
        exists|order: Seq<usize>| is_ranking(keys, order) && r2 == join(selected(sentences, order, count), sep),
    ensures
        r1 == r2,
{
    let o1 = choose|order: Seq<usize>| is_ranking(keys, order) && r1 == join(selected(sentences, order, count), sep);
    let o2 = choose|order: Seq<usize>| is_ranking(keys, order) && r2 == join(selected(sentences, order, count), sep);
    lemma_ranking_unique(keys, o1, o2);
}

/// Of two sentences with equal keys, the earlier one is ranked first.
pub proof fn lemma_ties_keep_order(keys: Seq<u32>, order: Seq<usize>, j: int, l: int)
    requires
        is_ranking(keys, order),
        0 <= j < l < order.len(),
        keys[order[j] as int] == keys[order[l] as int],
    ensures
        order[j] < order[l],
{
    assert(ranked_before(keys, order[j] as int, order[l] as int));
}

/// A summary holds as many sentences as the budget asks for, but never more
/// than there are.
pub proof fn lemma_summary_size(sentences: Seq<Seq<char>>, keys: Seq<u32>, order: Seq<usize>, count: nat)
    requires
        is_ranking(keys, order),
    ensures
        selected(sentences, order, count).len() == if count < keys.len() {
            count
        } else {
            keys.len()
        },
{
}

/// A budget of no sentence gives the empty summary.
pub proof fn lemma_empty_budget(sentences: Seq<Seq<char>>, order: Seq<usize>, sep: Seq<char>)
    ensures
        join(selected(sentences, order, 0), sep) == Seq::<char>::empty(),
{
}

/// A budget of all sentences gives each sentence once, highest key first.
pub proof fn lemma_full_budget(sentences: Seq<Seq<char>>, keys: Seq<u32>, order: Seq<usize>, count: nat)
    requires
        sentences.len() == keys.len(),
        is_ranking(keys, order),
        count >= keys.len(),
    ensures
        selected(sentences, order, count) == Seq::new(
            sentences.len(),
            |j: int| sentences[order[j] as int],
        ),
        forall|i: int| 0 <= i < sentences.len() ==> #[trigger] order.contains(i as usize),
        forall|j: int, l: int|
            0 <= j < l < sentences.len() ==> keys[order[j] as int] >= keys[order[l] as int],
{
    assert(selected(sentences, order, count) =~= Seq::new(
        sentences.len(),
        |j: int| sentences[order[j] as int],
    ));
    assert forall|j: int, l: int| 0 <= j < l < sentences.len() implies keys[order[j] as int]
        >= keys[order[l] as int] by {
        assert(ranked_before(keys, order[j] as int, order[l] as int));
    }
}

/// The parallel and the sequential tokenization agree: each sentence is
/// paired with its own tokens, whatever order the workers finish in.
pub proof fn lemma_tokenizations_agree(sentences: Seq<String>, t1: Seq<Vec<&str>>, t2: Seq<Vec<&str>>)
    requires
        tokenizes(sentences, t1),
        tokenizes(sentences, t2),
    ensures
        docs_view(t1) == docs_view(t2),
{
    assert forall|i: int| 0 <= i < t1.len() implies docs_view(t1)[i] == docs_view(t2)[i] by {
        assert(str_views(t1[i]@) == tokens_of(sentences[i]@));
        assert(str_views(t2[i]@) == tokens_of(sentences[i]@));
    }
    assert(docs_view(t1) =~= docs_view(t2));
}

/// What the score of one token rests on: how often it occurs in its own
/// sentence, and how often over all sentences.
#[derive(Clone, Copy, Debug, PartialEq, Eq, Structural)]
pub struct TermStat {
    pub in_sentence: usize,
    pub in_corpus: usize,
}

/// Relies on rayon's `par_iter().map(..).collect()` into a `Vec`: the result
/// of each sentence lands at that sentence's index, whatever the schedule.
#[verifier::external_body]
fn par_map_tokens<'a>(sentences: &'a Vec<String>) -> (r: Vec<Vec<&'a str>>)
    ensures
        r@.len() == sentences@.len(),
        forall|i: int| 0 <= i < r@.len() ==> #[trigger] str_views(r@[i]@) == tokens_of(sentences@[i]@),
{
    sentences.par_iter().map(|s| Tokenizer::sentence_to_tokens(s.as_str())).collect()
}

/// How often `w` occurs in `doc`.
fn count_in(doc: &Vec<&str>, w: &str) -> (r: usize)
    ensures
        r == occurrences(str_views(doc@), w@),
{
    let ghost ws = str_views(doc@);
    let mut count: usize = 0;
    let mut k: usize = 0;
    while k < doc.len()
        invariant
            ws == str_views(doc@),
            k <= doc@.len(),
            count == occurrences(ws.subrange(0, k as int), w@),
        decreases doc.len() - k,
    {
        assert(ws.subrange(0, k + 1).drop_last() =~= ws.subrange(0, k as int));
        proof {
            lemma_occurrences_bound(ws.subrange(0, k as int), w@);
        }
        if same_chars(doc[k], w) {
            count += 1;
        }
        k += 1;
    }
    assert(ws.subrange(0, doc@.len() as int) =~= ws);
    count
}

pub struct Summarizer {}

impl Summarizer {
    /// The tokens of each sentence, at the sentence's index.
    pub fn tokenize_all<'a>(sentences: &'a Vec<String>) -> (r: Vec<Vec<&'a str>>)
        ensures
            tokenizes(sentences@, r@),
    {
        let mut tokens: Vec<Vec<&'a str>> = Vec::new();
        let mut i: usize = 0;
        while i < sentences.len()
            invariant
                i <= sentences@.len(),
                tokens@.len() == i,
                forall|j: int| 0 <= j < i ==> #[trigger] str_views(tokens@[j]@) == tokens_of(sentences@[j]@),
            decreases sentences.len() - i,
        {
            tokens.push(Tokenizer::sentence_to_tokens(sentences[i].as_str()));
            i += 1;
        }
        tokens
    }

    /// The tokens of each sentence, computed on a pool of workers; each list
    /// stays at its sentence's index.
    pub fn par_tokenize_all<'a>(sentences: &'a Vec<String>) -> (r: Vec<Vec<&'a str>>)
        ensures
            tokenizes(sentences@, r@),
    {
        par_map_tokens(sentences)
    }

    /// How often `word` occurs over all token lists.
    pub fn corpus_count(word: &str, tokens: &Vec<Vec<&str>>) -> (r: usize)
        requires
            total_tokens(docs_view(tokens@)) <= usize::MAX,
        ensures
            r == corpus_occurrences(docs_view(tokens@), word@),
    {
        let ghost docs = docs_view(tokens@);
        let mut count: usize = 0;
        let mut j: usize = 0;
        while j < tokens.len()
            invariant
                docs == docs_view(tokens@),
                total_tokens(docs) <= usize::MAX,
                j <= tokens@.len(),
                count == corpus_occurrences(docs.subrange(0, j as int), word@),
            decreases tokens.len() - j,
        {
            let ghost next = docs.subrange(0, j + 1);
            assert(next.drop_last() =~= docs.subrange(0, j as int));
            proof {
                lemma_corpus_bound(next, word@);
                lemma_total_prefix(docs, j + 1);
            }
            count += count_in(&tokens[j], word);
            j += 1;
        }
        assert(docs.subrange(0, tokens@.len() as int) =~= docs);
        count
    }

    /// For each token of `tokenized_sentence`, in order, its count there and
    /// its count over all of `tokens`.
    pub fn term_stats(tokenized_sentence: &Vec<&str>, tokens: &Vec<Vec<&str>>) -> (r: Vec<TermStat>)
        requires
            total_tokens(docs_view(tokens@)) <= usize::MAX,
        ensures
            r@.len() == tokenized_sentence@.len(),
            forall|k: int|
                0 <= k < r@.len() ==> (#[trigger] r@[k]).in_sentence == occurrences(
                    str_views(tokenized_sentence@),
                    tokenized_sentence@[k]@,
                ) && r@[k].in_corpus == corpus_occurrences(
                    docs_view(tokens@),
                    tokenized_sentence@[k]@,
                ),
    {
        let freq = Tokenizer::get_freq_map(tokenized_sentence);
        let mut stats: Vec<TermStat> = Vec::new();
        let mut k: usize = 0;
        while k < tokenized_sentence.len()
            invariant
                k <= tokenized_sentence@.len(),
                stats@.len() == k,
                total_tokens(docs_view(tokens@)) <= usize::MAX,
                forall|m: int| 0 <= m < freq@.len() ==> #[trigger] freq@[m].1 == occurrences(
                    str_views(tokenized_sentence@),
                    freq@[m].0@,
                ),
                forall|j: int| 0 <= j < tokenized_sentence@.len() ==> has_key(freq@, #[trigger] tokenized_sentence@[j]@),
                forall|m: int|
                    0 <= m < k ==> (#[trigger] stats@[m]).in_sentence == occurrences(
                        str_views(tokenized_sentence@),
                        tokenized_sentence@[m]@,
                    ) && stats@[m].in_corpus == corpus_occurrences(
                        docs_view(tokens@),
                        tokenized_sentence@[m]@,
                    ),
            decreases tokenized_sentence.len() - k,
        {
            let word = tokenized_sentence[k];
            assert(has_key(freq@, word@));
            let in_sentence = match find_key(&freq, word) {
                Some(m) => freq[m].1,
                None => 0,
            };
            let in_corpus = Summarizer::corpus_count(word, tokens);
            stats.push(TermStat { in_sentence, in_corpus });
            k += 1;
        }
        stats
    }

    /// The number of tokens over all token lists, when it fits in a `usize`.
    pub fn token_total(tokens: &Vec<Vec<&str>>) -> (r: Option<usize>)
        ensures
            match r {
                Some(t) => t == total_tokens(docs_view(tokens@)),
                None => total_tokens(docs_view(tokens@)) > usize::MAX,
            },
    {
        let ghost docs = docs_view(tokens@);
        let mut total: usize = 0;
        let mut j: usize = 0;
        while j < tokens.len()
            invariant
                docs == docs_view(tokens@),
                j <= tokens@.len(),
                total == total_tokens(docs.subrange(0, j as int)),
            decreases tokens.len() - j,
        {
            assert(docs.subrange(0, j + 1).drop_last() =~= docs.subrange(0, j as int));
            let len = tokens[j].len();
            if total > usize::MAX - len {
                proof {
                    lemma_total_prefix(docs, j + 1);
                }
                return None;
            }
            total += len;
            j += 1;
        }
        assert(docs.subrange(0, tokens@.len() as int) =~= docs);
        Some(total)
    }

    /// The statistics of each token of each sentence, sentence by sentence;
    /// `None` only when the number of tokens does not fit in a `usize`.
    pub fn all_term_stats(tokens: &Vec<Vec<&str>>) -> (r: Option<Vec<Vec<TermStat>>>)
        ensures
            r is None <==> total_tokens(docs_view(tokens@)) > usize::MAX,
            r matches Some(stats) ==> stats@.len() == tokens@.len() && forall|i: int|
                0 <= i < stats@.len() ==> (#[trigger] stats@[i])@.len() == tokens@[i]@.len()
                    && forall|k: int|
                    0 <= k < stats@[i]@.len() ==> (#[trigger] stats@[i]@[k]).in_sentence
                        == occurrences(docs_view(tokens@)[i], docs_view(tokens@)[i][k])
                        && stats@[i]@[k].in_corpus == corpus_occurrences(
                        docs_view(tokens@),
                        docs_view(tokens@)[i][k],
                    ),
    {
        if Summarizer::token_total(tokens).is_none() {
            return None;
        }
        let ghost docs = docs_view(tokens@);
        let mut all: Vec<Vec<TermStat>> = Vec::new();
        let mut i: usize = 0;
        while i < tokens.len()
            invariant
                docs == docs_view(tokens@),
                total_tokens(docs) <= usize::MAX,
                i <= tokens@.len(),
                all@.len() == i,
                forall|m: int|
                    0 <= m < i ==> (#[trigger] all@[m])@.len() == tokens@[m]@.len() && forall|k: int|
                        0 <= k < all@[m]@.len() ==> (#[trigger] all@[m]@[k]).in_sentence
                            == occurrences(docs[m], docs[m][k]) && all@[m]@[k].in_corpus
                            == corpus_occurrences(docs, docs[m][k]),
            decreases tokens.len() - i,
        {
            let stats = Summarizer::term_stats(&tokens[i], tokens);
            assert(docs[i as int] == str_views(tokens@[i as int]@));
            all.push(stats);
            i += 1;
        }
        Some(all)
    }

    /// The key under which a score, given by its bit pattern, is ranked.
    pub fn score_key(bits: u32) -> (r: u32)
        ensures
            r == order_key(bits),
    {
        if bits >= 0x8000_0000 {
            0xFFFF_FFFF - bits
        } else {
            bits + 0x8000_0000
        }
    }

    /// The indices of `keys`, highest key first; equal keys keep their order.
    pub fn rank(keys: &Vec<u32>) -> (r: Vec<usize>)
        ensures
            is_ranking(keys@, r@),
    {
        let ghost ks = keys@;
        let mut order: Vec<usize> = Vec::new();
        let mut i: usize = 0;
        while i < keys.len()
            invariant
                ks == keys@,
                i <= ks.len(),
                order@.len() == i,
                forall|j: int| 0 <= j < order@.len() ==> #[trigger] order@[j] < i,
                forall|a: int| 0 <= a < i ==> #[trigger] order@.contains(a as usize),
                forall|j: int, l: int|
                    0 <= j < l < order@.len() ==> ranked_before(
                        ks,
                        #[trigger] order@[j] as int,
                        #[trigger] order@[l] as int,
                    ),
            decreases keys.len() - i,
        {
            let key = keys[i];
            let mut p: usize = 0;
            while p < order.len() && keys[order[p]] >= key
                invariant
                    ks == keys@,
                    i < ks.len(),
                    key == ks[i as int],
                    p <= order@.len(),
                    forall|j: int| 0 <= j < order@.len() ==> #[trigger] order@[j] < i,
                    forall|j: int| 0 <= j < p ==> ks[#[trigger] order@[j] as int] >= key,
                decreases order.len() - p,
            {
                p += 1;
            }
            let ghost prev = order@;
            order.insert(p, i);
            assert forall|j: int, l: int| 0 <= j < l < order@.len() implies ranked_before(
                ks,
                #[trigger] order@[j] as int,
                #[trigger] order@[l] as int,
            ) by {
                if l < p {
                    assert(order@[j] == prev[j] && order@[l] == prev[l]);
                } else if l == p {
                    assert(order@[j] == prev[j]);
                } else if j == p {
                    assert(order@[l] == prev[l - 1]);
                    assert(ks[prev[p as int] as int] < key) by {
                        if (p as int) < l - 1 {
                            assert(ranked_before(ks, prev[p as int] as int, prev[l - 1] as int));
                        }
                    }
                } else if j < p {
                    assert(order@[j] == prev[j] && order@[l] == prev[l - 1]);
                    assert(ranked_before(ks, prev[j] as int, prev[l - 1] as int));
                } else {
                    assert(order@[j] == prev[j - 1] && order@[l] == prev[l - 1]);
                    assert(ranked_before(ks, prev[j - 1] as int, prev[l - 1] as int));
                }
            }
            assert forall|a: int| 0 <= a < i + 1 implies #[trigger] order@.contains(a as usize) by {
                if a == i {
                    assert(order@[p as int] == i);
                } else {
                    assert(prev.contains(a as usize));
                    let j = choose|j: int| 0 <= j < prev.len() && prev[j] == a as usize;
                    if j < p {
                        assert(order@[j] == a);
                    } else {
                        assert(order@[j + 1] == a);
                    }
                }
            }
            assert forall|j: int| 0 <= j < order@.len() implies #[trigger] order@[j] < i + 1 by {
                if j < p {
                    assert(order@[j] == prev[j]);
                } else if j > p {
                    assert(order@[j] == prev[j - 1]);
                }
            }
            i += 1;
        }
        order
    }

    /// The sentences at the first `count` places of `order`, joined by
    /// `separator`.
    pub fn join_selected(
        sentences: &Vec<String>,
        order: &Vec<usize>,
        count: usize,
        separator: &str,
    ) -> (r: String)
        requires
            forall|j: int| 0 <= j < order@.len() ==> #[trigger] order@[j] < sentences@.len(),
        ensures
            r@ == join(selected(string_views(sentences@), order@, count as nat), separator@),
    {
        let ghost parts = selected(string_views(sentences@), order@, count as nat);
        let m: usize = if count < order.len() {
            count
        } else {
            order.len()
        };
        let mut out = String::new();
        let mut j: usize = 0;
        while j < m
            invariant
                m == parts.len(),
                m <= order@.len(),
                j <= m,
                parts == selected(string_views(sentences@), order@, count as nat),
                forall|l: int| 0 <= l < order@.len() ==> #[trigger] order@[l] < sentences@.len(),
                out@ == join(parts.subrange(0, j as int), separator@),
            decreases m - j,
        {
            let ghost before = out@;
            let sentence: &str = sentences[order[j]].as_str();
            assert(sentence@ == parts[j as int]);
            assert(parts.subrange(0, j + 1).drop_last() =~= parts.subrange(0, j as int));
            if j > 0 {
                out.append(separator);
            }
            out.append(sentence);
            proof {
                if j == 0 {
                    assert(before == Seq::<char>::empty());
                    assert(out@ =~= parts.subrange(0, 1)[0]);
                }
            }
            j += 1;
        }
        assert(parts.subrange(0, m as int) =~= parts);
        out
    }

    /// The summary made of the sentences with the `count` highest keys, in
    /// ranked order, joined by `separator`.
    pub fn select(sentences: &Vec<String>, keys: &Vec<u32>, count: usize, separator: &str) -> (r:
        String)
        requires
            keys@.len() == sentences@.len(),
        ensures
            exists|order: Seq<usize>|
                is_ranking(keys@, order) && r@ == join(
                    selected(string_views(sentences@), order, count as nat),
                    separator@,
                ),
    {
        let order = Summarizer::rank(keys);
        Summarizer::join_selected(sentences, &order, count, separator)
    }
}

} // verus!
