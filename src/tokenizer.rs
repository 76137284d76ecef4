use vstd::prelude::*;

verus! {

/// Names the characters that `str::to_lowercase` turns `s` into.
pub uninterp spec fn lower_of(s: Seq<char>) -> Seq<char>;

/// The characters of each string of `v`.
pub open spec fn string_views(v: Seq<String>) -> Seq<Seq<char>> {
    v.map_values(|t: String| t@)
}

/// The English function words that carry no weight in a score.
#[verifier::opaque]
pub open spec fn stopwords() -> Seq<Seq<char>> {
    seq![
        "i"@, "me"@, "my"@, "myself"@, "we"@, "our"@, "ours"@, "ourselves"@, "you"@, "your"@,
        "yours"@, "yourself"@, "yourselves"@, "he"@, "him"@, "his"@, "himself"@, "she"@,
        "her"@, "hers"@, "herself"@, "it"@, "its"@, "itself"@, "they"@, "them"@, "their"@,
        "theirs"@, "themselves"@, "what"@, "which"@, "who"@, "whom"@, "this"@, "that"@,
        "these"@, "those"@, "am"@, "is"@, "are"@, "was"@, "were"@, "be"@, "been"@, "being"@,
        "have"@, "has"@, "had"@, "having"@, "do"@, "does"@, "did"@, "doing"@, "a"@, "an"@,
        "the"@, "and"@, "but"@, "if"@, "or"@, "because"@, "as"@, "until"@, "while"@, "of"@,
        "at"@, "by"@, "for"@, "with"@, "about"@, "against"@, "between"@, "into"@, "through"@,
        "during"@, "before"@, "after"@, "above"@, "below"@, "to"@, "from"@, "up"@, "down"@,
        "in"@, "out"@, "on"@, "off"@, "over"@, "under"@, "again"@, "further"@, "then"@,
        "once"@, "here"@, "there"@, "when"@, "where"@, "why"@, "how"@, "all"@, "any"@,
        "both"@, "each"@, "few"@, "more"@, "most"@, "other"@, "some"@, "such"@, "no"@,
        "nor"@, "not"@, "only"@, "own"@, "same"@, "so"@, "than"@, "too"@, "very"@, "s"@,
        "t"@, "can"@, "will"@, "just"@, "don"@, "should"@, "now"@,    ]
}

/// A word is left out when its lower-case form is a stopword.
pub open spec fn is_stop(w: Seq<char>) -> bool {
    stopwords().contains(lower_of(w))
}

/// The whitespace that `str::split_ascii_whitespace` splits on.
pub open spec fn is_ascii_ws(c: char) -> bool {
    c == ' ' || c == '\t' || c == '\n' || c == '\u{c}' || c == '\r'
}

/// After reading the first `i` characters of `s`: the words closed so far,
/// and the characters of the word that is still open.
pub open spec fn split_state(s: Seq<char>, i: int) -> (Seq<Seq<char>>, Seq<char>)
    decreases i,
{
    if i <= 0 {
        (seq![], seq![])
    } else {
        let (done, open) = split_state(s, i - 1);
        let c = s[i - 1];
        if is_ascii_ws(c) {
            if open.len() > 0 {
                (done.push(open), seq![])
            } else {
                (done, seq![])
            }
        } else {
            (done, open.push(c))
        }
    }
}

/// The maximal runs of non-whitespace characters of `s`, left to right.
pub open spec fn split_words(s: Seq<char>) -> Seq<Seq<char>> {
    let (done, open) = split_state(s, s.len() as int);
    if open.len() > 0 {
        done.push(open)
    } else {
        done
    }
}

/// The words of `ws` that are not stopwords, in their order.
pub open spec fn content_words(ws: Seq<Seq<char>>) -> Seq<Seq<char>>
    decreases ws.len(),
{
    if ws.len() == 0 {
        seq![]
    } else {
        let rest = content_words(ws.drop_last());
        if is_stop(ws.last()) {
            rest
        } else {
            rest.push(ws.last())
        }
    }
}

/// The tokens of a sentence.
pub open spec fn tokens_of(s: Seq<char>) -> Seq<Seq<char>> {
    content_words(split_words(s))
}

/// How often `w` occurs in `ws`.
pub open spec fn occurrences(ws: Seq<Seq<char>>, w: Seq<char>) -> nat
    decreases ws.len(),
{
    if ws.len() == 0 {
        0
    } else {
        occurrences(ws.drop_last(), w) + if ws.last() == w {
            1nat
        } else {
            0nat
        }
    }
}

/// The characters of each string of `v`.
pub open spec fn str_views(v: Seq<&str>) -> Seq<Seq<char>> {
    v.map_values(|t: &str| t@)
}

pub proof fn lemma_occurrences_bound(ws: Seq<Seq<char>>, w: Seq<char>)
    ensures
        occurrences(ws, w) <= ws.len(),
    decreases ws.len(),
{
    if ws.len() > 0 {
        lemma_occurrences_bound(ws.drop_last(), w);
    }
}

/// Relies on `str::to_lowercase`: its result depends on the characters alone.
#[verifier::external_body]
fn lowercase(s: &str) -> (r: String)
    ensures
        r@ == lower_of(s@),
{
    s.to_lowercase()
}

pub proof fn lemma_absent_occurrences(ws: Seq<Seq<char>>, w: Seq<char>)
    requires
        !ws.contains(w),
    ensures
        occurrences(ws, w) == 0,
    decreases ws.len(),
{
    if ws.len() > 0 {
        assert(ws.last() != w) by {
            assert(ws[ws.len() - 1] == ws.last());
        }
        assert forall|x: Seq<char>| ws.drop_last().contains(x) implies ws.contains(x) by {
            let j = choose|j: int| 0 <= j < ws.len() - 1 && ws.drop_last()[j] == x;
            assert(ws[j] == x);
        }
        lemma_absent_occurrences(ws.drop_last(), w);
    }
}

/// Whether some entry of `freq` has the word `w`.
pub open spec fn has_key(freq: Seq<(&str, usize)>, w: Seq<char>) -> bool {
    exists|k: int| 0 <= k < freq.len() && freq[k].0@ == w
}

/// The position of the entry of `freq` whose word is `w`, if there is one.
pub(crate) fn find_key(freq: &Vec<(&str, usize)>, w: &str) -> (r: Option<usize>)
    ensures
        match r {
            Some(k) => k < freq@.len() && freq@[k as int].0@ == w@,
            None => forall|m: int| 0 <= m < freq@.len() ==> freq@[m].0@ != w@,
        },
{
    let mut k: usize = 0;
    while k < freq.len()
        invariant
            k <= freq@.len(),
            forall|m: int| 0 <= m < k ==> freq@[m].0@ != w@,
        decreases freq.len() - k,
    {
        if same_chars(freq[k].0, w) {
            return Some(k);
        }
        k += 1;
    }
    None
}

/// Whether two strings hold the same characters.
pub fn same_chars(a: &str, b: &str) -> (r: bool)
    ensures
        r == (a@ == b@),
{
    let n = a.unicode_len();
    if n != b.unicode_len() {
        return false;
    }
    let mut i: usize = 0;
    while i < n
        invariant
            n == a@.len(),
            n == b@.len(),
            i <= n,
            a@.subrange(0, i as int) == b@.subrange(0, i as int),
        decreases n - i,
    {
        if a.get_char(i) != b.get_char(i) {
            return false;
        }
        assert(a@.subrange(0, i + 1) =~= a@.subrange(0, i as int).push(a@[i as int]));
        assert(b@.subrange(0, i + 1) =~= b@.subrange(0, i as int).push(b@[i as int]));
        i += 1;
    }
    assert(a@ =~= a@.subrange(0, n as int));
    assert(b@ =~= b@.subrange(0, n as int));
    true
}

fn char_is_ascii_ws(c: char) -> (r: bool)
    ensures
        r == is_ascii_ws(c),
{
    c == ' ' || c == '\t' || c == '\n' || c == '\u{c}' || c == '\r'
}

fn stopword_list() -> (r: Vec<&'static str>)
    ensures
        str_views(r@) == stopwords(),
{
    reveal(stopwords);
    let r = vec![
        "i", "me", "my", "myself", "we", "our", "ours", "ourselves", "you", "your", "yours",
        "yourself", "yourselves", "he", "him", "his", "himself", "she", "her", "hers",
        "herself", "it", "its", "itself", "they", "them", "their", "theirs", "themselves",
        "what", "which", "who", "whom", "this", "that", "these", "those", "am", "is", "are",
        "was", "were", "be", "been", "being", "have", "has", "had", "having", "do", "does",
        "did", "doing", "a", "an", "the", "and", "but", "if", "or", "because", "as", "until",
        "while", "of", "at", "by", "for", "with", "about", "against", "between", "into",
        "through", "during", "before", "after", "above", "below", "to", "from", "up", "down",
        "in", "out", "on", "off", "over", "under", "again", "further", "then", "once",
        "here", "there", "when", "where", "why", "how", "all", "any", "both", "each", "few",
        "more", "most", "other", "some", "such", "no", "nor", "not", "only", "own", "same",
        "so", "than", "too", "very", "s", "t", "can", "will", "just", "don", "should", "now",    ];
    assert(str_views(r@) =~= stopwords());
    r
}

pub struct Tokenizer {}

impl Tokenizer {
    /// Whether `word`, once in lower case, is one of the stopwords.
    pub fn is_stopword(word: &str) -> (r: bool)
        ensures
            r == is_stop(word@),
    {
        let lowered = lowercase(word);
        let lowered: &str = lowered.as_str();
        assert(lowered@ == lower_of(word@));
        let list = stopword_list();
        let mut i: usize = 0;
        while i < list.len()
            invariant
                str_views(list@) == stopwords(),
                lowered@ == lower_of(word@),
                i <= list@.len(),
                forall|j: int| 0 <= j < i ==> str_views(list@)[j] != lower_of(word@),
            decreases list.len() - i,
        {
            let candidate: &str = list[i];
            assert(str_views(list@)[i as int] == candidate@);
            if same_chars(lowered, candidate) {
                assert(str_views(list@)[i as int] == lower_of(word@));
                return true;
            }
            i += 1;
        }
        assert(str_views(list@).len() == list@.len());
        false
    }

    /// Splits `sentence` at ASCII whitespace and keeps the words that are not
    /// stopwords, in their order.
    pub fn sentence_to_tokens(sentence: &str) -> (r: Vec<&str>)
        ensures
            str_views(r@) == tokens_of(sentence@),
    {
        let ghost s = sentence@;
        let n = sentence.unicode_len();
        let mut tokens: Vec<&str> = Vec::new();
        let mut start: usize = 0;
        let mut i: usize = 0;
        while i < n
            invariant
                n == s.len(),
                s == sentence@,
                start <= i <= n,
                split_state(s, i as int).1 == s.subrange(start as int, i as int),
                str_views(tokens@) == content_words(split_state(s, i as int).0),
            decreases n - i,
        {
            let c = sentence.get_char(i);
            let ghost prev = tokens@;
            if char_is_ascii_ws(c) {
                if start < i {
                    let w = sentence.substring_char(start, i);
                    if !Tokenizer::is_stopword(w) {
                        tokens.push(w);
                        assert(str_views(tokens@) =~= str_views(prev).push(w@));
                    }
                    assert(split_state(s, i as int).0.push(w@).drop_last()
                        =~= split_state(s, i as int).0);
                }
                start = i + 1;
                assert(s.subrange(start as int, i + 1) =~= Seq::<char>::empty());
            } else {
                assert(s.subrange(start as int, i + 1) =~= s.subrange(start as int, i as int).push(c));
            }
            i += 1;
        }
        let ghost prev = tokens@;
        if start < n {
            let w = sentence.substring_char(start, n);
            if !Tokenizer::is_stopword(w) {
                tokens.push(w);
                assert(str_views(tokens@) =~= str_views(prev).push(w@));
            }
            assert(split_state(s, n as int).0.push(w@).drop_last() =~= split_state(s, n as int).0);
        }
        tokens
    }

    /// Each distinct word of `words` with the number of times it occurs there,
    /// in the order of first occurrence.
    pub fn get_freq_map<'a>(words: &Vec<&'a str>) -> (r: Vec<(&'a str, usize)>)
        ensures
            forall|k: int| 0 <= k < r@.len() ==> #[trigger] r@[k].1 == occurrences(
                str_views(words@),
                r@[k].0@,
            ),
            forall|k: int, l: int| 0 <= k < l < r@.len() ==> r@[k].0@ != r@[l].0@,
            forall|k: int| 0 <= k < r@.len() ==> str_views(words@).contains(#[trigger] r@[k].0@),
            forall|j: int| 0 <= j < words@.len() ==> has_key(r@, #[trigger] words@[j]@),
    {
        let ghost ws = str_views(words@);
        let mut freq: Vec<(&'a str, usize)> = Vec::new();
        let mut i: usize = 0;
        while i < words.len()
            invariant
                ws == str_views(words@),
                i <= words@.len(),
                freq@.len() <= i,
                forall|k: int| 0 <= k < freq@.len() ==> #[trigger] freq@[k].1 == occurrences(
                    ws.subrange(0, i as int),
                    freq@[k].0@,
                ),
                forall|k: int, l: int| 0 <= k < l < freq@.len() ==> freq@[k].0@ != freq@[l].0@,
                forall|k: int| 0 <= k < freq@.len() ==> ws.subrange(0, i as int).contains(#[trigger] freq@[k].0@),
                forall|j: int| 0 <= j < i ==> has_key(freq@, #[trigger] words@[j]@),
            decreases words.len() - i,
        {
            let w = words[i];
            let ghost pre = ws.subrange(0, i as int);
            let ghost post = ws.subrange(0, i + 1);
            assert(post.drop_last() =~= pre);
            assert(post.last() == w@);
            assert(forall|x: Seq<char>| pre.contains(x) ==> post.contains(x)) by {
                assert forall|x: Seq<char>| pre.contains(x) implies post.contains(x) by {
                    let j = choose|j: int| 0 <= j < pre.len() && pre[j] == x;
                    assert(post[j] == x);
                }
            }
            assert(post[i as int] == w@);
            let ghost old_freq = freq@;
            match find_key(&freq, w) {
                Some(k) => {
                    proof {
                        lemma_occurrences_bound(pre, w@);
                    }
                    let (key, count) = freq[k];
                    freq.set(k, (key, count + 1));
                    assert forall|m: int| 0 <= m < freq@.len() implies #[trigger] freq@[m].1
                        == occurrences(post, freq@[m].0@) by {
                        assert(old_freq[m].1 == occurrences(pre, old_freq[m].0@));
                    }
                    assert forall|m: int| 0 <= m < freq@.len() implies post.contains(
                        #[trigger] freq@[m].0@,
                    ) by {
                        assert(pre.contains(old_freq[m].0@));
                    }
                    assert forall|j: int| 0 <= j < i + 1 implies has_key(
                        freq@,
                        #[trigger] words@[j]@,
                    ) by {
                        if j == i {
                            assert(freq@[k as int].0@ == words@[j]@);
                        } else {
                            assert(has_key(old_freq, words@[j]@));
                            let m = choose|m: int|
                                0 <= m < old_freq.len() && old_freq[m].0@ == words@[j]@;
                            assert(freq@[m].0@ == words@[j]@);
                        }
                    }
                },
                None => {
                    freq.push((w, 1));
                    assert(occurrences(pre, w@) == 0) by {
                        lemma_absent_occurrences(pre, w@);
                    }
                    assert forall|m: int| 0 <= m < freq@.len() implies #[trigger] freq@[m].1
                        == occurrences(post, freq@[m].0@) by {
                        if m < old_freq.len() {
                            assert(old_freq[m].1 == occurrences(pre, old_freq[m].0@));
                        }
                    }
                    assert forall|m: int| 0 <= m < freq@.len() implies post.contains(
                        #[trigger] freq@[m].0@,
                    ) by {
                        if m < old_freq.len() {
                            assert(pre.contains(old_freq[m].0@));
                        }
                    }
                    assert forall|j: int| 0 <= j < i + 1 implies has_key(
                        freq@,
                        #[trigger] words@[j]@,
                    ) by {
                        if j == i {
                            assert(freq@[old_freq.len() as int].0@ == words@[j]@);
                        } else {
                            assert(has_key(old_freq, words@[j]@));
                            let m = choose|m: int|
                                0 <= m < old_freq.len() && old_freq[m].0@ == words@[j]@;
                            assert(freq@[m].0@ == words@[j]@);
                        }
                    }
                },
            }
            i += 1;
        }
        assert(ws.subrange(0, words@.len() as int) =~= ws);
        freq
    }
}

} // verus!
