use vstd::prelude::*;

use crate::markov::sentence_view;

verus! {

/// What `str::to_lowercase` returns for a given character sequence; the
/// result depends on the characters alone.
pub uninterp spec fn lower_of(s: Seq<char>) -> Seq<char>;

/// Relies on str::to_lowercase: the lowercased text is a function of the
/// input characters alone, and lowercasing never invents text out of
/// nothing: an empty input stays empty.
#[verifier::external_body]
pub(crate) fn lowercase(s: &str) -> (r: String)
    ensures
        r@ == lower_of(s@),
        s@.len() == 0 ==> r@.len() == 0,
{
    s.to_lowercase()
}

/// Whether `char::is_alphanumeric` holds of a character; a property of
/// the character alone.
pub uninterp spec fn alnum(c: char) -> bool;

/// Relies on char::is_alphanumeric: a pure classification of the
/// character.
pub assume_specification[ char::is_alphanumeric ](c: char) -> (r: bool)
    ensures
        r == alnum(c),
;

/// The whitespace-separated pieces `str::split_whitespace` yields for a
/// given character sequence; a function of the characters alone.
pub uninterp spec fn split_ws_of(s: Seq<char>) -> Seq<Seq<char>>;

/// Relies on str::split_whitespace: the pieces are a function of the
/// input characters alone, and each yielded substring is non-empty, as
/// its documentation states.
#[verifier::external_body]
fn split_whitespace_words(s: &str) -> (r: Vec<String>)
    ensures
        sentence_view(r@) == split_ws_of(s@),
        forall|k: int| 0 <= k < r@.len() ==> (#[trigger] r@[k]@).len() > 0,
{
    s.split_whitespace().map(|w| w.to_owned()).collect()
}

/// Relies on the `FromIterator` impl of String over chars: the collected
/// string holds exactly the input characters in order.
#[verifier::external_body]
fn string_from_chars(cs: &Vec<char>) -> (s: String)
    ensures
        s@ == cs@,
{
    cs.iter().collect()
}

/// A character that ends an author name: nicknames are cut before the
/// first bracket, parenthesis or brace.
pub open spec fn author_stop(c: char) -> bool {
    c == '[' || c == '(' || c == '{'
}

/// The position of the first author-stopping character, or the length if
/// there is none.
pub open spec fn first_stop(s: Seq<char>) -> int
    decreases s.len(),
{
    if s.len() == 0 {
        0
    } else if author_stop(s[0]) {
        0
    } else {
        1 + first_stop(s.drop_first())
    }
}

pub proof fn lemma_first_stop(s: Seq<char>)
    ensures
        0 <= first_stop(s) <= s.len(),
        forall|j: int| 0 <= j < first_stop(s) ==> !author_stop(s[j]),
        first_stop(s) < s.len() ==> author_stop(s[first_stop(s)]),
    decreases s.len(),
{
    if s.len() > 0 && !author_stop(s[0]) {
        lemma_first_stop(s.drop_first());
        assert forall|j: int| 0 <= j < first_stop(s) implies !author_stop(s[j]) by {
            if j > 0 {
                assert(s.drop_first()[j - 1] == s[j]);
            }
        }
        if first_stop(s) < s.len() {
            assert(s.drop_first()[first_stop(s) - 1] == s[first_stop(s)]);
        }
    }
}

/// The author normalization: lowercase the whole name, then keep only
/// the prefix before the first bracket, parenthesis or brace.
pub open spec fn normalized_author(u: Seq<char>) -> Seq<char> {
    lower_of(u).subrange(0, first_stop(lower_of(u)))
}

/// Normalizes an author name for use as a registry key.
pub fn normalize_author(user: &str) -> (r: String)
    ensures
        r@ == normalized_author(user@),
{
    let low = lowercase(user);
    let n = low.as_str().unicode_len();
    let mut cs: Vec<char> = Vec::new();
    let mut i: usize = 0;
    proof {
        assert(cs@ =~= low@.subrange(0, 0));
    }
    while i < n
        invariant_except_break
            n == low@.len(),
            i <= n,
            cs@ == low@.subrange(0, i as int),
            forall|j: int| 0 <= j < i ==> !author_stop(low@[j]),
        ensures
            i <= n,
            n == low@.len(),
            cs@ == low@.subrange(0, i as int),
            forall|j: int| 0 <= j < i ==> !author_stop(low@[j]),
            i < n ==> author_stop(low@[i as int]),
        decreases n - i,
    {
        let c = low.as_str().get_char(i);
        if c == '[' || c == '(' || c == '{' {
            break ;
        }
        cs.push(c);
        proof {
            assert(cs@ =~= low@.subrange(0, i as int + 1));
        }
        i = i + 1;
    }
    proof {
        lemma_first_stop(low@);
        if i < n {
            assert(first_stop(low@) <= i);
        }
        assert(first_stop(low@) == i);
    }
    string_from_chars(&cs)
}

/// A character the word cleaner keeps: alphanumeric or one of the few
/// allowed punctuation marks.
pub open spec fn keep_char(c: char) -> bool {
    alnum(c) || c == '\'' || c == '"' || c == '-' || c == '_' || c == '(' || c == ')'
}

/// The kept characters of a word, in order.
pub open spec fn filter_keep(s: Seq<char>) -> Seq<char>
    decreases s.len(),
{
    if s.len() == 0 {
        Seq::empty()
    } else if keep_char(s.last()) {
        filter_keep(s.drop_last()) + seq![s.last()]
    } else {
        filter_keep(s.drop_last())
    }
}

/// The word normalization: drop disallowed characters, then lowercase.
pub open spec fn cleaned_word(w: Seq<char>) -> Seq<char> {
    lower_of(filter_keep(w))
}

/// Cleans one whitespace-separated word into a token.
pub fn clean_word(word: &str) -> (r: String)
    ensures
        r@ == cleaned_word(word@),
{
    let n = word.unicode_len();
    let mut cs: Vec<char> = Vec::new();
    let mut i: usize = 0;
    proof {
        assert(word@.subrange(0, 0) =~= Seq::<char>::empty());
    }
    while i < n
        invariant
            n == word@.len(),
            i <= n,
            cs@ == filter_keep(word@.subrange(0, i as int)),
        decreases n - i,
    {
        let c = word.get_char(i);
        if c.is_alphanumeric() || c == '\'' || c == '"' || c == '-' || c == '_' || c == '(' || c
            == ')' {
            cs.push(c);
        }
        proof {
            assert(word@.subrange(0, i as int + 1).drop_last() =~= word@.subrange(0, i as int));
            assert(word@.subrange(0, i as int + 1).last() == word@[i as int]);
            if keep_char(word@[i as int]) {
                assert(cs@ =~= filter_keep(word@.subrange(0, i as int)) + seq![word@[i as int]]);
            }
        }
        i = i + 1;
    }
    proof {
        assert(word@.subrange(0, n as int) =~= word@);
    }
    let filtered = string_from_chars(&cs);
    lowercase(filtered.as_str())
}

/// Whether a word carries a URL scheme separator and is to be discarded.
pub open spec fn has_url_marker(w: Seq<char>) -> bool {
    exists|j: int| 0 <= j <= w.len() - 3 && #[trigger] w[j] == ':' && w[j + 1] == '/' && w[j + 2]
        == '/'
}

/// Looks for the URL scheme separator in a word.
pub fn contains_url_marker(word: &str) -> (r: bool)
    ensures
        r == has_url_marker(word@),
{
    let n = word.unicode_len();
    if n < 3 {
        return false;
    }
    let mut i: usize = 0;
    while i <= n - 3
        invariant_except_break
            n == word@.len(),
            3 <= n,
            i <= n - 2,
            forall|j: int|
                0 <= j < i ==> !(#[trigger] word@[j] == ':' && word@[j + 1] == '/' && word@[j + 2]
                    == '/'),
        ensures
            n == word@.len(),
            3 <= n,
            (i <= n - 3) == has_url_marker(word@),
        decreases n - i,
    {
        let c0 = word.get_char(i);
        let c1 = word.get_char(i + 1);
        let c2 = word.get_char(i + 2);
        if c0 == ':' && c1 == '/' && c2 == '/' {
            proof {
                assert(word@[i as int] == ':' && word@[i as int + 1] == '/' && word@[i as int + 2]
                    == '/');
            }
            break ;
        }
        i = i + 1;
    }
    i <= n - 3
}

/// One chat line as the log parser hands it over: who spoke and what was
/// said, both still raw.
pub struct LogMessage {
    pub user: String,
    pub msg: String,
}

/// One training record: a normalized author name and the sentence's
/// normalized word tokens, ready for the transition graph.
pub struct ProcessedMessage {
    pub user: String,
    pub words: Vec<String>,
}

/// The tokens a list of raw whitespace-separated words yields: words
/// carrying a URL are discarded, the rest cleaned and lowercased, and
/// only non-empty results kept.
pub open spec fn processed_words(ws: Seq<Seq<char>>) -> Seq<Seq<char>>
    decreases ws.len(),
{
    if ws.len() == 0 {
        Seq::empty()
    } else if !has_url_marker(ws.last()) && cleaned_word(ws.last()).len() > 0 {
        processed_words(ws.drop_last()) + seq![cleaned_word(ws.last())]
    } else {
        processed_words(ws.drop_last())
    }
}

impl ProcessedMessage {
    /// Normalizes one parsed chat line into a training record: the author
    /// lowercased and cut at the first bracket, the text split on
    /// whitespace and each word cleaned into a token.
    pub fn from(msg: LogMessage) -> (r: ProcessedMessage)
        ensures
            r.user@ == normalized_author(msg.user@),
            sentence_view(r.words@) == processed_words(split_ws_of(msg.msg@)),
            forall|k: int| 0 <= k < r.words@.len() ==> (#[trigger] r.words@[k]@).len() > 0,
    {
        let user = normalize_author(msg.user.as_str());
        let raw = split_whitespace_words(msg.msg.as_str());
        let ghost rv = sentence_view(raw@);
        let mut words: Vec<String> = Vec::new();
        let mut i: usize = 0;
        proof {
            assert(rv.subrange(0, 0) =~= Seq::<Seq<char>>::empty());
            assert(sentence_view(words@) =~= Seq::<Seq<char>>::empty());
        }
        while i < raw.len()
            invariant
                i <= raw@.len(),
                rv == sentence_view(raw@),
                sentence_view(words@) == processed_words(rv.subrange(0, i as int)),
                forall|k: int| 0 <= k < words@.len() ==> (#[trigger] words@[k]@).len() > 0,
            decreases raw@.len() - i,
        {
            let ghost pre = sentence_view(words@);
            proof {
                assert(rv.subrange(0, i as int + 1).drop_last() =~= rv.subrange(0, i as int));
                assert(rv.subrange(0, i as int + 1).last() == rv[i as int]);
                assert(rv[i as int] == raw@[i as int]@);
            }
            if !contains_url_marker(raw[i].as_str()) {
                let cleaned = clean_word(raw[i].as_str());
                if !cleaned.as_str().is_empty() {
                    words.push(cleaned);
                    proof {
                        assert(sentence_view(words@) =~= pre.push(cleaned_word(rv[i as int])));
                        assert(sentence_view(words@) =~= pre + seq![cleaned_word(rv[i as int])]);
                    }
                }
            }
            i = i + 1;
        }
        proof {
            assert(rv.subrange(0, raw@.len() as int) =~= rv);
            assert(split_ws_of(msg.msg@) == rv);
        }
        ProcessedMessage { user, words }
    }
}

} // verus!
