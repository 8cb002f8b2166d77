use vstd::prelude::*;

verus! {

/// Token index of the sentence-begin sentinel.
pub const WORD_SENTENCE_BEGIN: u32 = 0;
/// Token index of the sentence-end sentinel.
pub const WORD_SENTENCE_END: u32 = 1;
/// First token index available for real words.
pub const WORD_USER_BEGIN: u32 = 2;

/// How many occurrences of `x` the sequence `s` holds.
pub open spec fn count_in(s: Seq<u32>, x: u32) -> nat
    decreases s.len(),
{
    if s.len() == 0 {
        0
    } else {
        count_in(s.drop_last(), x) + if s.last() == x {
            1nat
        } else {
            0nat
        }
    }
}

/// The position of word `w` in `ws`, searching from the back, or -1 if
/// `ws` does not hold it.
pub open spec fn find_word(ws: Seq<Seq<char>>, w: Seq<char>) -> int
    decreases ws.len(),
{
    if ws.len() == 0 {
        -1
    } else if ws.last() == w {
        ws.len() - 1
    } else {
        find_word(ws.drop_last(), w)
    }
}

pub proof fn lemma_count_in_push(s: Seq<u32>, y: u32, x: u32)
    ensures
        count_in(s.push(y), x) == count_in(s, x) + if y == x {
            1nat
        } else {
            0nat
        },
{
    assert(s.push(y).drop_last() =~= s);
}

pub proof fn lemma_find_word_bound(ws: Seq<Seq<char>>, w: Seq<char>)
    ensures
        -1 <= find_word(ws, w) < ws.len(),
        find_word(ws, w) >= 0 ==> ws[find_word(ws, w)] == w,
    decreases ws.len(),
{
    if ws.len() > 0 && ws.last() != w {
        lemma_find_word_bound(ws.drop_last(), w);
    }
}

pub proof fn lemma_count_in_zero(s: Seq<u32>, x: u32)
    requires
        forall|k: int| 0 <= k < s.len() ==> s[k] != x,
    ensures
        count_in(s, x) == 0,
    decreases s.len(),
{
    if s.len() > 0 {
        lemma_count_in_zero(s.drop_last(), x);
    }
}

pub proof fn lemma_count_in_positive(s: Seq<u32>, x: u32)
    ensures
        (count_in(s, x) > 0) == (exists|k: int| 0 <= k < s.len() && s[k] == x),
    decreases s.len(),
{
    if s.len() > 0 {
        lemma_count_in_positive(s.drop_last(), x);
        if s.last() == x {
            assert(s[s.len() - 1] == x);
        } else if exists|k: int| 0 <= k < s.len() && s[k] == x {
            let k = choose|k: int| 0 <= k < s.len() && s[k] == x;
            assert(s.drop_last()[k] == x);
        }
    }
}

pub proof fn lemma_find_word_push(ws: Seq<Seq<char>>, x: Seq<char>, w: Seq<char>)
    ensures
        find_word(ws.push(x), w) == if w == x {
            ws.len() as int
        } else {
            find_word(ws, w)
        },
{
    assert(ws.push(x).drop_last() =~= ws);
}

/// Any word that `ws` holds is found: a word is absent exactly when no
/// position holds it.
pub proof fn lemma_find_word_present(ws: Seq<Seq<char>>, w: Seq<char>, i: int)
    requires
        0 <= i < ws.len(),
        ws[i] == w,
    ensures
        find_word(ws, w) >= 0,
    decreases ws.len(),
{
    if ws.last() != w {
        lemma_find_word_present(ws.drop_last(), w, i);
    }
}

/// The word sequence of a sentence, as character sequences.
pub open spec fn sentence_view(sentence: Seq<String>) -> Seq<Seq<char>> {
    sentence.map_values(|w: String| w@)
}

/// Whether one of the first `i` positions of `sv` holds the word `w`.
pub open spec fn word_in_prefix(sv: Seq<Seq<char>>, i: int, w: Seq<char>) -> bool {
    exists|j: int| 0 <= j < i && sv[j] == w
}

pub proof fn lemma_word_in_prefix_step(sv: Seq<Seq<char>>, i: int, w: Seq<char>)
    requires
        0 <= i < sv.len(),
    ensures
        word_in_prefix(sv, i + 1, w) == (word_in_prefix(sv, i, w) || sv[i] == w),
{
    if sv[i] == w {
        assert(0 <= i < i + 1 && sv[i] == w);
        assert(word_in_prefix(sv, i + 1, w));
    }
    if word_in_prefix(sv, i, w) {
        let j = choose|j: int| 0 <= j < i && sv[j] == w;
        assert(0 <= j < i + 1 && sv[j] == w);
        assert(word_in_prefix(sv, i + 1, w));
    }
    if word_in_prefix(sv, i + 1, w) && sv[i] != w {
        let j = choose|j: int| 0 <= j < i + 1 && sv[j] == w;
        assert(0 <= j < i && sv[j] == w);
        assert(word_in_prefix(sv, i, w));
    }
}

pub proof fn lemma_word_in_prefix_all(sv: Seq<Seq<char>>, w: Seq<char>)
    ensures
        word_in_prefix(sv, sv.len() as int, w) == sv.contains(w),
{
    if word_in_prefix(sv, sv.len() as int, w) {
        let j = choose|j: int| 0 <= j < sv.len() && sv[j] == w;
        assert(sv[j] == w);
    }
    if sv.contains(w) {
        let j = choose|j: int| 0 <= j < sv.len() && sv[j] == w;
        assert(0 <= j < sv.len() && sv[j] == w);
    }
}

/// How many adjacent positions of `ts` hold the word pair `(a, b)`.
pub open spec fn pair_count(ts: Seq<Seq<char>>, a: Seq<char>, b: Seq<char>) -> nat
    decreases ts.len(),
{
    if ts.len() < 2 {
        0
    } else {
        pair_count(ts.drop_last(), a, b) + if ts[ts.len() - 2] == a && ts.last() == b {
            1nat
        } else {
            0nat
        }
    }
}

/// How many positions of `ts` hold the word `a`.
pub open spec fn count_word(ts: Seq<Seq<char>>, a: Seq<char>) -> nat
    decreases ts.len(),
{
    if ts.len() == 0 {
        0
    } else {
        count_word(ts.drop_last(), a) + if ts.last() == a {
            1nat
        } else {
            0nat
        }
    }
}

pub proof fn lemma_pair_count_prefix(sv: Seq<Seq<char>>, i: int, a: Seq<char>, b: Seq<char>)
    requires
        0 <= i < sv.len(),
    ensures
        pair_count(sv.subrange(0, i + 1), a, b) == pair_count(sv.subrange(0, i), a, b) + if i >= 1
            && sv[i - 1] == a && sv[i] == b {
            1nat
        } else {
            0nat
        },
{
    assert(sv.subrange(0, i + 1).drop_last() =~= sv.subrange(0, i));
}

pub proof fn lemma_count_word_prefix(sv: Seq<Seq<char>>, i: int, a: Seq<char>)
    requires
        0 <= i < sv.len(),
    ensures
        count_word(sv.subrange(0, i + 1), a) == count_word(sv.subrange(0, i), a) + if sv[i] == a {
            1nat
        } else {
            0nat
        },
{
    assert(sv.subrange(0, i + 1).drop_last() =~= sv.subrange(0, i));
}

/// The most words a single random walk will emit; a walk that reaches the
/// cap is cut off there, so generation always finishes in a finite number
/// of steps even on a graph whose transitions form a cycle.
pub const MAX_WALK_STEPS: usize = 1024;

/// Relies on rand::random_range over `0..n`: for a non-empty range it
/// returns a uniformly drawn value of the range, so the result is below
/// `n`. The draw depends on a thread-local generator, so nothing relates
/// one call's result to another's.
#[verifier::external_body]
fn pick_index(n: usize) -> (r: usize)
    requires
        n > 0,
    ensures
        r < n,
{
    rand::random_range(0..n)
}

/// One node of the transition graph: the list of successor occurrences
/// observed immediately after this node's token. A successor appearing
/// several times stands for several observations, so frequency is encoded
/// by repetition.
pub struct Node {
    pub succs: Vec<u32>,
}

impl Node {
    pub fn new() -> (n: Node)
        ensures
            n.succs@ =~= Seq::<u32>::empty(),
    {
        Node { succs: Vec::new() }
    }
}

/// A per-author word-transition graph. Words are interned: index 0 is the
/// begin sentinel, index 1 the end sentinel, and word `words[i]` has token
/// index `i + 2`. `nodes[t]` holds the successor occurrences of token `t`.
pub struct Markov {
    pub words: Vec<String>,
    pub nodes: Vec<Node>,
}

impl Markov {
    /// Well-formedness: one node per token, interned words unique and
    /// non-empty, every stored successor a real token index (never the
    /// begin sentinel), and the end sentinel without outgoing edges.
    pub open spec fn wf(self) -> bool {
        &&& self.nodes@.len() == self.words@.len() + 2
        &&& self.nodes@.len() <= 0xFFFF_FFFF
        &&& forall|i: int, j: int|
            0 <= i < self.words@.len() && 0 <= j < self.words@.len() && i != j
                ==> self.words@[i]@ != self.words@[j]@
        &&& forall|i: int| 0 <= i < self.words@.len() ==> (#[trigger] self.words@[i]@).len() > 0
        &&& forall|t: int, k: int|
            0 <= t < self.nodes@.len() && 0 <= k < self.nodes@[t].succs@.len()
                ==> 1 <= #[trigger] self.nodes@[t].succs@[k] < self.nodes@.len()
        &&& self.nodes@[WORD_SENTENCE_END as int].succs@.len() == 0
    }

    pub fn new() -> (m: Markov)
        ensures
            m.wf(),
            m.words@.len() == 0,
            m.nodes@.len() == 2,
            m.nodes@[0].succs@.len() == 0,
            m.nodes@[1].succs@.len() == 0,
    {
        let mut nodes: Vec<Node> = Vec::new();
        nodes.push(Node::new());
        nodes.push(Node::new());
        Markov { words: Vec::new(), nodes }
    }

    /// The interned words, as character sequences, in interning order.
    pub open spec fn words_view(self) -> Seq<Seq<char>> {
        self.words@.map_values(|w: String| w@)
    }

    /// Whether word `w` has been interned in this graph.
    pub open spec fn has_word(self, w: Seq<char>) -> bool {
        find_word(self.words_view(), w) >= 0
    }

    /// The token index of word `w` (meaningful only when `has_word(w)`).
    pub open spec fn token_of(self, w: Seq<char>) -> int {
        find_word(self.words_view(), w) + 2
    }

    /// The successor occurrences stored at token index `t`.
    pub open spec fn succs_of(self, t: int) -> Seq<u32> {
        self.nodes@[t].succs@
    }

    /// How many times word `b` was recorded immediately after word `a`.
    pub open spec fn trans_count(self, a: Seq<char>, b: Seq<char>) -> nat {
        if self.has_word(a) && self.has_word(b) {
            count_in(self.succs_of(self.token_of(a)), self.token_of(b) as u32)
        } else {
            0
        }
    }

    /// How many times word `b` was recorded as the first word of a sentence.
    pub open spec fn begin_count(self, b: Seq<char>) -> nat {
        if self.has_word(b) {
            count_in(self.succs_of(WORD_SENTENCE_BEGIN as int), self.token_of(b) as u32)
        } else {
            0
        }
    }

    /// How many times a sentence was recorded as ending at word `a`.
    pub open spec fn end_count(self, a: Seq<char>) -> nat {
        if self.has_word(a) {
            count_in(self.succs_of(self.token_of(a)), WORD_SENTENCE_END)
        } else {
            0
        }
    }

    /// The total number of successor occurrences recorded after word `a`,
    /// sentence ends included.
    pub open spec fn succ_total(self, a: Seq<char>) -> nat {
        if self.has_word(a) {
            self.succs_of(self.token_of(a)).len()
        } else {
            0
        }
    }

    /// The word spelled by token index `t` (meaningful for real-word indices).
    pub open spec fn word_at(self, t: int) -> Seq<char> {
        self.words_view()[t - 2]
    }

    /// With interned words unique, the word at a real-word token index is
    /// found back at exactly that index.
    pub proof fn lemma_token_of_word_at(self, t: int)
        requires
            self.wf(),
            2 <= t < self.nodes@.len(),
        ensures
            self.has_word(self.word_at(t)),
            self.token_of(self.word_at(t)) == t,
    {
        let ws = self.words_view();
        let w = self.word_at(t);
        lemma_find_word_present(ws, w, t - 2);
        lemma_find_word_bound(ws, w);
    }

    /// A word that the graph holds is spelled back by its token index.
    pub proof fn lemma_word_at_token_of(self, w: Seq<char>)
        requires
            self.wf(),
            self.has_word(w),
        ensures
            2 <= self.token_of(w) < self.nodes@.len(),
            self.word_at(self.token_of(w)) == w,
    {
        lemma_find_word_bound(self.words_view(), w);
    }

    /// Looks a word up in the interning table.
    pub fn get_word_index(&self, word: &String) -> (r: Option<u32>)
        requires
            self.wf(),
        ensures
            match r {
                Some(t) => self.has_word(word@) && t == self.token_of(word@) && 2 <= t
                    < self.nodes@.len(),
                None => !self.has_word(word@),
            },
    {
        let ghost ws = self.words_view();
        let mut i: usize = self.words.len();
        proof {
            assert(ws.subrange(0, i as int) =~= ws);
        }
        while i > 0
            invariant
                self.wf(),
                i <= self.words@.len(),
                ws == self.words_view(),
                find_word(ws.subrange(0, i as int), word@) == find_word(ws, word@),
            decreases i,
        {
            i = i - 1;
            if self.words[i].eq(word) {
                proof {
                    assert(ws.subrange(0, i as int + 1).last() == word@);
                    lemma_find_word_bound(ws, word@);
                }
                return Some((i + 2) as u32);
            }
            proof {
                assert(ws.subrange(0, i as int + 1).drop_last() =~= ws.subrange(0, i as int));
            }
        }
        proof {
            assert(ws.subrange(0, 0) =~= Seq::<Seq<char>>::empty());
        }
        None
    }

    /// Interns `word` if it is new, giving it the next free token index
    /// and an empty node; in either case returns the word's token index.
    /// Interning alone records nothing: every transition count is kept.
    pub fn get_or_insert_word_index(&mut self, word: &String) -> (t: u32)
        requires
            old(self).wf(),
            word@.len() > 0,
            old(self).nodes@.len() < 0xFFFF_FFFF,
        ensures
            final(self).wf(),
            2 <= t < final(self).nodes@.len(),
            final(self).has_word(word@),
            final(self).token_of(word@) == t,
            old(self).nodes@.len() <= final(self).nodes@.len() <= old(self).nodes@.len() + 1,
            old(self).has_word(word@) ==> *final(self) == *old(self),
            forall|w: Seq<char>|
                final(self).has_word(w) == (old(self).has_word(w) || w == word@),
            forall|w: Seq<char>|
                old(self).has_word(w) ==> final(self).token_of(w) == old(self).token_of(w),
            forall|u: int|
                2 <= u < old(self).nodes@.len() ==> final(self).word_at(u) == old(self).word_at(u),
            forall|a: Seq<char>, b: Seq<char>|
                final(self).trans_count(a, b) == old(self).trans_count(a, b),
            forall|b: Seq<char>| final(self).begin_count(b) == old(self).begin_count(b),
            forall|a: Seq<char>| final(self).end_count(a) == old(self).end_count(a),
            forall|a: Seq<char>| final(self).succ_total(a) == old(self).succ_total(a),
            final(self).succs_of(WORD_SENTENCE_BEGIN as int) == old(self).succs_of(
                WORD_SENTENCE_BEGIN as int,
            ),
    {
        match self.get_word_index(word) {
            Some(t) => t,
            None => {
                let t = self.words.len() + 2;
                self.words.push(word.clone());
                self.nodes.push(Node::new());
                proof {
                    self.lemma_intern_preserves(*old(self), *word);
                }
                t as u32
            },
        }
    }

    /// Interning a fresh word extends the word table without touching any
    /// recorded transition: every word-level count is unchanged.
    proof fn lemma_intern_preserves(self, pre: Markov, wordv: String)
        requires
            pre.wf(),
            !pre.has_word(wordv@),
            wordv@.len() > 0,
            pre.nodes@.len() < 0xFFFF_FFFF,
            self.words@ == pre.words@.push(wordv),
            self.nodes@.len() == pre.nodes@.len() + 1,
            forall|j: int| 0 <= j < pre.nodes@.len() ==> self.nodes@[j] == pre.nodes@[j],
            self.nodes@.last().succs@.len() == 0,
        ensures
            self.wf(),
            self.has_word(wordv@),
            self.token_of(wordv@) == pre.nodes@.len(),
            forall|w: Seq<char>| self.has_word(w) == (pre.has_word(w) || w == wordv@),
            forall|w: Seq<char>| pre.has_word(w) ==> self.token_of(w) == pre.token_of(w),
            forall|u: int| 2 <= u < pre.nodes@.len() ==> self.word_at(u) == pre.word_at(u),
            forall|a: Seq<char>, b: Seq<char>| self.trans_count(a, b) == pre.trans_count(a, b),
            forall|b: Seq<char>| self.begin_count(b) == pre.begin_count(b),
            forall|a: Seq<char>| self.end_count(a) == pre.end_count(a),
            forall|a: Seq<char>| self.succ_total(a) == pre.succ_total(a),
            self.succs_of(WORD_SENTENCE_BEGIN as int) == pre.succs_of(WORD_SENTENCE_BEGIN as int),
    {
        let x = wordv@;
        let ows = pre.words_view();
        let nws = self.words_view();
        assert(nws =~= ows.push(x));
        assert forall|w: Seq<char>|
            find_word(nws, w) == if w == x {
                ows.len() as int
            } else {
                find_word(ows, w)
            } by {
            lemma_find_word_push(ows, x, w);
        }
        lemma_find_word_bound(ows, x);
        // uniqueness of the extended table
        assert forall|i: int, j: int|
            0 <= i < self.words@.len() && 0 <= j < self.words@.len() && i != j
            implies self.words@[i]@ != self.words@[j]@ by {
            assert(nws[i] == self.words@[i]@);
            assert(nws[j] == self.words@[j]@);
            if nws[i] == nws[j] {
                if i < ows.len() && j < ows.len() {
                    assert(pre.words@[i]@ != pre.words@[j]@);
                } else if i < ows.len() {
                    lemma_find_word_present(ows, nws[i], i);
                } else if j < ows.len() {
                    lemma_find_word_present(ows, nws[j], j);
                }
            }
        }
        let new_t = pre.nodes@.len() as u32;
        // the fresh token index occurs in no stored successor list
        assert forall|t: int|
            0 <= t < pre.nodes@.len() implies count_in(#[trigger] self.succs_of(t), new_t) == 0 by {
            lemma_count_in_zero(self.succs_of(t), new_t);
        }
        assert forall|a: Seq<char>, b: Seq<char>|
            self.trans_count(a, b) == pre.trans_count(a, b) by {
            lemma_find_word_bound(ows, a);
            lemma_find_word_bound(ows, b);
            lemma_find_word_bound(nws, a);
            lemma_find_word_bound(nws, b);
        }
        assert forall|b: Seq<char>| self.begin_count(b) == pre.begin_count(b) by {
            lemma_find_word_bound(ows, b);
            lemma_find_word_bound(nws, b);
        }
        assert forall|a: Seq<char>| self.end_count(a) == pre.end_count(a) by {
            lemma_find_word_bound(ows, a);
            lemma_find_word_bound(nws, a);
        }
        assert forall|a: Seq<char>| self.succ_total(a) == pre.succ_total(a) by {
            lemma_find_word_bound(ows, a);
            lemma_find_word_bound(nws, a);
        }
    }

    /// Records one successor occurrence: `succ` is appended to the node of
    /// token `prev`. This is the one operation that adds an observation;
    /// exactly one word-level count rises by one, all others are kept.
    pub fn insert_word(&mut self, prev: u32, succ: u32)
        requires
            old(self).wf(),
            prev < old(self).nodes@.len(),
            prev != WORD_SENTENCE_END,
            1 <= succ < old(self).nodes@.len(),
        ensures
            final(self).wf(),
            final(self).words@ == old(self).words@,
            final(self).nodes@.len() == old(self).nodes@.len(),
            final(self).succs_of(prev as int) == old(self).succs_of(prev as int).push(succ),
            forall|j: int|
                0 <= j < old(self).nodes@.len() && j != prev
                    ==> final(self).succs_of(j) == old(self).succs_of(j),
            forall|w: Seq<char>| final(self).has_word(w) == old(self).has_word(w),
            forall|w: Seq<char>| final(self).token_of(w) == old(self).token_of(w),
            forall|a: Seq<char>, b: Seq<char>|
                final(self).trans_count(a, b) == old(self).trans_count(a, b) + if prev
                    >= WORD_USER_BEGIN && succ >= WORD_USER_BEGIN && a == old(self).word_at(
                    prev as int,
                ) && b == old(self).word_at(succ as int) {
                    1nat
                } else {
                    0nat
                },
            forall|b: Seq<char>|
                final(self).begin_count(b) == old(self).begin_count(b) + if prev
                    == WORD_SENTENCE_BEGIN && succ >= WORD_USER_BEGIN && b == old(self).word_at(
                    succ as int,
                ) {
                    1nat
                } else {
                    0nat
                },
            forall|a: Seq<char>|
                final(self).end_count(a) == old(self).end_count(a) + if succ == WORD_SENTENCE_END
                    && prev >= WORD_USER_BEGIN && a == old(self).word_at(prev as int) {
                    1nat
                } else {
                    0nat
                },
            forall|a: Seq<char>|
                final(self).succ_total(a) == old(self).succ_total(a) + if prev >= WORD_USER_BEGIN
                    && a == old(self).word_at(prev as int) {
                    1nat
                } else {
                    0nat
                },
    {
        let i = prev as usize;
        self.nodes[i].succs.push(succ);
        proof {
            let pre = *old(self);
            let post = *self;
            assert(post.words_view() =~= pre.words_view());
            assert forall|j: int|
                0 <= j < pre.nodes@.len() && j != prev as int
                implies post.succs_of(j) == pre.succs_of(j) by {
            }
            assert forall|a: Seq<char>, b: Seq<char>|
                post.trans_count(a, b) == pre.trans_count(a, b) + if prev >= WORD_USER_BEGIN && succ
                    >= WORD_USER_BEGIN && a == pre.word_at(prev as int) && b == pre.word_at(
                    succ as int,
                ) {
                    1nat
                } else {
                    0nat
                } by {
                lemma_find_word_bound(pre.words_view(), a);
                lemma_find_word_bound(pre.words_view(), b);
                if pre.has_word(a) && pre.has_word(b) {
                    let ta = pre.token_of(a);
                    let tb = pre.token_of(b) as u32;
                    if ta == prev as int {
                        lemma_count_in_push(pre.succs_of(ta), succ, tb);
                        if prev >= WORD_USER_BEGIN {
                            pre.lemma_token_of_word_at(prev as int);
                        }
                        if succ >= WORD_USER_BEGIN {
                            pre.lemma_token_of_word_at(succ as int);
                        }
                    } else {
                        if prev >= WORD_USER_BEGIN {
                            pre.lemma_token_of_word_at(prev as int);
                        }
                    }
                } else {
                    if prev >= WORD_USER_BEGIN && succ >= WORD_USER_BEGIN {
                        pre.lemma_token_of_word_at(prev as int);
                        pre.lemma_token_of_word_at(succ as int);
                    }
                }
            }
            assert forall|b: Seq<char>|
                post.begin_count(b) == pre.begin_count(b) + if prev == WORD_SENTENCE_BEGIN && succ
                    >= WORD_USER_BEGIN && b == pre.word_at(succ as int) {
                    1nat
                } else {
                    0nat
                } by {
                lemma_find_word_bound(pre.words_view(), b);
                if pre.has_word(b) {
                    let tb = pre.token_of(b) as u32;
                    if prev == WORD_SENTENCE_BEGIN {
                        lemma_count_in_push(pre.succs_of(0), succ, tb);
                        if succ >= WORD_USER_BEGIN {
                            pre.lemma_token_of_word_at(succ as int);
                        }
                    }
                } else {
                    if prev == WORD_SENTENCE_BEGIN && succ >= WORD_USER_BEGIN {
                        pre.lemma_token_of_word_at(succ as int);
                    }
                }
            }
            assert forall|a: Seq<char>|
                post.end_count(a) == pre.end_count(a) + if succ == WORD_SENTENCE_END && prev
                    >= WORD_USER_BEGIN && a == pre.word_at(prev as int) {
                    1nat
                } else {
                    0nat
                } by {
                lemma_find_word_bound(pre.words_view(), a);
                if pre.has_word(a) {
                    let ta = pre.token_of(a);
                    if ta == prev as int {
                        lemma_count_in_push(pre.succs_of(ta), succ, WORD_SENTENCE_END);
                        if prev >= WORD_USER_BEGIN {
                            pre.lemma_token_of_word_at(prev as int);
                        }
                    } else {
                        if prev >= WORD_USER_BEGIN {
                            pre.lemma_token_of_word_at(prev as int);
                        }
                    }
                } else {
                    if succ == WORD_SENTENCE_END && prev >= WORD_USER_BEGIN {
                        pre.lemma_token_of_word_at(prev as int);
                    }
                }
            }
            assert forall|a: Seq<char>|
                post.succ_total(a) == pre.succ_total(a) + if prev >= WORD_USER_BEGIN && a
                    == pre.word_at(prev as int) {
                    1nat
                } else {
                    0nat
                } by {
                lemma_find_word_bound(pre.words_view(), a);
                if pre.has_word(a) {
                    if pre.token_of(a) != prev as int && prev >= WORD_USER_BEGIN {
                        pre.lemma_token_of_word_at(prev as int);
                    }
                } else {
                    if prev >= WORD_USER_BEGIN {
                        pre.lemma_token_of_word_at(prev as int);
                    }
                }
            }
        }
    }

    /// Ingests one sentence, following the training sequencing: the first
    /// word is recorded after the begin sentinel, each later word after its
    /// predecessor, and the end sentinel after the last word. Every
    /// word-level count rises by exactly the sentence's own contribution.
    pub fn insert_sentence(&mut self, sentence: Vec<String>)
        requires
            old(self).wf(),
            sentence@.len() >= 1,
            forall|k: int| 0 <= k < sentence@.len() ==> (#[trigger] sentence@[k]@).len() > 0,
            old(self).nodes@.len() + sentence@.len() <= 0xFFFF_FFFF,
        ensures
            final(self).wf(),
            final(self).nodes@.len() <= old(self).nodes@.len() + sentence@.len(),
            forall|w: Seq<char>|
                final(self).has_word(w) == (old(self).has_word(w) || sentence_view(
                    sentence@,
                ).contains(w)),
            forall|a: Seq<char>, b: Seq<char>|
                final(self).trans_count(a, b) == old(self).trans_count(a, b) + pair_count(
                    sentence_view(sentence@),
                    a,
                    b,
                ),
            forall|b: Seq<char>|
                final(self).begin_count(b) == old(self).begin_count(b) + if sentence_view(
                    sentence@,
                )[0] == b {
                    1nat
                } else {
                    0nat
                },
            forall|a: Seq<char>|
                final(self).end_count(a) == old(self).end_count(a) + if sentence_view(
                    sentence@,
                ).last() == a {
                    1nat
                } else {
                    0nat
                },
            forall|a: Seq<char>|
                final(self).succ_total(a) == old(self).succ_total(a) + count_word(
                    sentence_view(sentence@),
                    a,
                ),
    {
        let ghost gs = *old(self);
        let ghost sv = sentence_view(sentence@);
        let mut prev: u32 = WORD_SENTENCE_BEGIN;
        let mut i: usize = 0;
        proof {
            assert(sv.subrange(0, 0) =~= Seq::<Seq<char>>::empty());
        }
        while i < sentence.len()
            invariant
                self.wf(),
                gs.wf(),
                sentence@.len() >= 1,
                forall|k: int| 0 <= k < sentence@.len() ==> (#[trigger] sentence@[k]@).len() > 0,
                gs.nodes@.len() + sentence@.len() <= 0xFFFF_FFFF,
                sv == sentence_view(sentence@),
                i <= sentence@.len(),
                self.nodes@.len() <= gs.nodes@.len() + i,
                i == 0 ==> prev == WORD_SENTENCE_BEGIN,
                i >= 1 ==> WORD_USER_BEGIN <= prev && (prev as int) < self.nodes@.len()
                    && self.has_word(sv[i - 1]) && self.token_of(sv[i - 1]) == prev as int
                    && self.word_at(prev as int) == sv[i - 1],
                forall|w: Seq<char>|
                    #[trigger] self.has_word(w) == (gs.has_word(w) || word_in_prefix(
                        sv,
                        i as int,
                        w,
                    )),
                forall|a: Seq<char>, b: Seq<char>|
                    self.trans_count(a, b) == gs.trans_count(a, b) + pair_count(
                        sv.subrange(0, i as int),
                        a,
                        b,
                    ),
                forall|b: Seq<char>|
                    self.begin_count(b) == gs.begin_count(b) + if i >= 1 && sv[0] == b {
                        1nat
                    } else {
                        0nat
                    },
                forall|a: Seq<char>| self.end_count(a) == gs.end_count(a),
                forall|a: Seq<char>|
                    self.succ_total(a) == gs.succ_total(a) + if i == 0 {
                        0nat
                    } else {
                        count_word(sv.subrange(0, i - 1), a)
                    },
            decreases sentence@.len() - i,
        {
            let ghost s0 = *self;
            let t = self.get_or_insert_word_index(&sentence[i]);
            let ghost s1 = *self;
            proof {
                assert(sv[i as int] == sentence@[i as int]@);
                s1.lemma_word_at_token_of(sv[i as int]);
                assert(s1.word_at(t as int) == sv[i as int]);
                if i >= 1 {
                    assert(s1.word_at(prev as int) == s0.word_at(prev as int));
                    assert(s1.token_of(sv[i - 1]) == prev as int);
                }
            }
            self.insert_word(prev, t);
            proof {
                let s2 = *self;
                assert forall|a: Seq<char>, b: Seq<char>|
                    s2.trans_count(a, b) == gs.trans_count(a, b) + pair_count(
                        sv.subrange(0, i + 1),
                        a,
                        b,
                    ) by {
                    lemma_pair_count_prefix(sv, i as int, a, b);
                }
                assert forall|b: Seq<char>|
                    s2.begin_count(b) == gs.begin_count(b) + if sv[0] == b {
                        1nat
                    } else {
                        0nat
                    } by {
                }
                assert forall|a: Seq<char>|
                    s2.succ_total(a) == gs.succ_total(a) + count_word(
                        sv.subrange(0, i as int),
                        a,
                    ) by {
                    if i >= 1 {
                        lemma_count_word_prefix(sv, i - 1, a);
                    } else {
                        assert(sv.subrange(0, 0) =~= Seq::<Seq<char>>::empty());
                    }
                }
                assert forall|w: Seq<char>|
                    #[trigger] s2.has_word(w) == (gs.has_word(w) || word_in_prefix(
                        sv,
                        i + 1,
                        w,
                    )) by {
                    lemma_word_in_prefix_step(sv, i as int, w);
                    assert(s2.has_word(w) == s1.has_word(w));
                    assert(s1.has_word(w) == (s0.has_word(w) || w == sv[i as int]));
                    assert(s0.has_word(w) == (gs.has_word(w) || word_in_prefix(sv, i as int, w)));
                }
            }
            prev = t;
            i = i + 1;
        }
        let ghost s3 = *self;
        self.insert_word(prev, WORD_SENTENCE_END);
        proof {
            let n = sentence@.len() as int;
            assert(sv.subrange(0, n) =~= sv);
            assert(sv.subrange(0, n - 1) =~= sv.drop_last());
            assert forall|w: Seq<char>|
                #[trigger] final(self).has_word(w) == (gs.has_word(w) || sv.contains(w)) by {
                lemma_word_in_prefix_all(sv, w);
                assert(final(self).has_word(w) == s3.has_word(w));
                assert(s3.has_word(w) == (gs.has_word(w) || word_in_prefix(sv, i as int, w)));
            }
        }
    }

    /// A chain the graph supports: non-empty, every word interned, and
    /// every adjacent pair an observed transition.
    pub open spec fn valid_chain(self, chain: Seq<Seq<char>>) -> bool {
        &&& chain.len() >= 1
        &&& forall|k: int| 0 <= k < chain.len() ==> self.has_word(#[trigger] chain[k])
        &&& forall|k: int|
            1 <= k < chain.len() ==> self.trans_count(chain[k - 1], #[trigger] chain[k]) > 0
    }

    /// Whether a chain ends where a walk may stop: at a word with no
    /// recorded successor at all, at a word that has ended a sentence, or
    /// at the walk cap.
    pub open spec fn chain_terminal(self, chain: Seq<Seq<char>>) -> bool {
        ||| self.succ_total(chain.last()) == 0
        ||| self.end_count(chain.last()) > 0
        ||| chain.len() >= MAX_WALK_STEPS
    }

    /// One random walk from `hook`: the hook word is emitted first, then
    /// successors drawn uniformly from each node's occurrence list until a
    /// stop condition. Every emitted pair is a trained transition.
    pub fn random_chain(&self, hook: &String) -> (r: Option<Vec<String>>)
        requires
            self.wf(),
        ensures
            match r {
                Some(chain) => {
                    &&& self.valid_chain(sentence_view(chain@))
                    &&& sentence_view(chain@)[0] == hook@
                    &&& self.chain_terminal(sentence_view(chain@))
                    &&& sentence_view(chain@).len() <= MAX_WALK_STEPS
                },
                None => !self.has_word(hook@),
            },
    {
        let hook_t = match self.get_word_index(hook) {
            None => {
                return None;
            },
            Some(t) => t,
        };
        proof {
            self.lemma_word_at_token_of(hook@);
        }
        let mut words: Vec<String> = Vec::new();
        words.push(self.words[(hook_t - 2) as usize].clone());
        proof {
            assert(sentence_view(words@) =~= seq![hook@]);
        }
        let mut current: u32 = hook_t;
        while words.len() < MAX_WALK_STEPS
            invariant_except_break
                self.wf(),
                1 <= words@.len() <= MAX_WALK_STEPS,
                self.valid_chain(sentence_view(words@)),
                sentence_view(words@)[0] == hook@,
                1 <= current < self.nodes@.len(),
                current == WORD_SENTENCE_END ==> self.end_count(sentence_view(words@).last()) > 0,
                current != WORD_SENTENCE_END ==> current >= WORD_USER_BEGIN && self.word_at(
                    current as int,
                ) == sentence_view(words@).last() && self.token_of(sentence_view(words@).last())
                    == current as int,
            ensures
                self.valid_chain(sentence_view(words@)),
                sentence_view(words@)[0] == hook@,
                self.chain_terminal(sentence_view(words@)),
                1 <= words@.len() <= MAX_WALK_STEPS,
            decreases MAX_WALK_STEPS - words@.len(),
        {
            let ghost cv = sentence_view(words@);
            if current == WORD_SENTENCE_END {
                break ;
            }
            let node_len = self.nodes[current as usize].succs.len();
            if node_len == 0 {
                proof {
                    self.lemma_token_of_word_at(current as int);
                    assert(self.succ_total(cv.last()) == 0);
                }
                break ;
            }
            let k = pick_index(node_len);
            let next = self.nodes[current as usize].succs[k];
            proof {
                self.lemma_token_of_word_at(current as int);
                lemma_count_in_positive(self.succs_of(current as int), next);
                assert(self.succs_of(current as int)[k as int] == next);
            }
            if next != WORD_SENTENCE_END {
                proof {
                    self.lemma_token_of_word_at(next as int);
                    assert(self.trans_count(cv.last(), self.word_at(next as int)) > 0);
                }
                words.push(self.words[(next - 2) as usize].clone());
                proof {
                    assert(sentence_view(words@) =~= cv.push(self.word_at(next as int)));
                    assert forall|kk: int|
                        0 <= kk < sentence_view(words@).len() implies self.has_word(
                        #[trigger] sentence_view(words@)[kk],
                    ) by {
                        if kk < cv.len() {
                            assert(sentence_view(words@)[kk] == cv[kk]);
                        }
                    }
                }
            } else {
                proof {
                    assert(self.end_count(cv.last()) > 0);
                }
                break ;
            }
            current = next;
        }
        Some(words)
    }

    /// Counts the occurrences of `x` in a successor list.
    fn count_occurrences(v: &Vec<u32>, x: u32) -> (r: usize)
        ensures
            r == count_in(v@, x),
    {
        let mut cnt: usize = 0;
        let mut i: usize = 0;
        proof {
            assert(v@.subrange(0, 0) =~= Seq::<u32>::empty());
        }
        while i < v.len()
            invariant
                i <= v@.len(),
                cnt <= i,
                cnt == count_in(v@.subrange(0, i as int), x),
            decreases v@.len() - i,
        {
            proof {
                assert(v@.subrange(0, i as int + 1).drop_last() =~= v@.subrange(0, i as int));
                assert(v@.subrange(0, i as int + 1).last() == v@[i as int]);
            }
            if v[i] == x {
                cnt = cnt + 1;
            }
            i = i + 1;
        }
        proof {
            assert(v@.subrange(0, v@.len() as int) =~= v@);
        }
        cnt
    }

    /// How many times `b` was observed right after `a`.
    pub fn succ_count(&self, a: &String, b: &String) -> (r: usize)
        requires
            self.wf(),
        ensures
            r == self.trans_count(a@, b@),
    {
        let ta = match self.get_word_index(a) {
            None => {
                return 0;
            },
            Some(t) => t,
        };
        let tb = match self.get_word_index(b) {
            None => {
                return 0;
            },
            Some(t) => t,
        };
        Self::count_occurrences(&self.nodes[ta as usize].succs, tb)
    }

    /// How many times `b` was observed opening a sentence.
    pub fn begin_count_of(&self, b: &String) -> (r: usize)
        requires
            self.wf(),
        ensures
            r == self.begin_count(b@),
    {
        let tb = match self.get_word_index(b) {
            None => {
                return 0;
            },
            Some(t) => t,
        };
        Self::count_occurrences(&self.nodes[WORD_SENTENCE_BEGIN as usize].succs, tb)
    }

    /// How many times a sentence was observed ending at `a`.
    pub fn end_count_of(&self, a: &String) -> (r: usize)
        requires
            self.wf(),
        ensures
            r == self.end_count(a@),
    {
        let ta = match self.get_word_index(a) {
            None => {
                return 0;
            },
            Some(t) => t,
        };
        Self::count_occurrences(&self.nodes[ta as usize].succs, WORD_SENTENCE_END)
    }

    /// Whether the graph has interned `w`.
    pub fn knows_word(&self, w: &String) -> (r: bool)
        requires
            self.wf(),
        ensures
            r == self.has_word(w@),
    {
        self.get_word_index(w).is_some()
    }

    /// A rank function witnesses that the observed transitions are
    /// acyclic: every observed step strictly lowers the rank.
    pub open spec fn ranked_by(self, rank: spec_fn(Seq<char>) -> nat) -> bool {
        forall|a: Seq<char>, b: Seq<char>|
            #[trigger] self.trans_count(a, b) > 0 ==> rank(b) < rank(a)
    }

    /// On an acyclic graph every supported chain is finite outright: its
    /// length is bounded by the starting word's rank, so any walk —
    /// whatever the random draws — stops after finitely many steps.
    pub proof fn lemma_ranked_chain_bounded(
        self,
        chain: Seq<Seq<char>>,
        rank: spec_fn(Seq<char>) -> nat,
    )
        requires
            self.valid_chain(chain),
            self.ranked_by(rank),
        ensures
            chain.len() <= rank(chain[0]) + 1,
        decreases chain.len(),
    {
        if chain.len() >= 2 {
            let rest = chain.drop_first();
            assert forall|k: int| 0 <= k < rest.len() implies self.has_word(#[trigger] rest[k]) by {
                assert(rest[k] == chain[k + 1]);
            }
            assert forall|k: int|
                1 <= k < rest.len() implies self.trans_count(rest[k - 1], #[trigger] rest[k])
                > 0 by {
                assert(rest[k] == chain[k + 1]);
                assert(rest[k - 1] == chain[k]);
            }
            assert(self.trans_count(chain[1 - 1], chain[1]) > 0);
            assert(rank(chain[1]) < rank(chain[0]));
            self.lemma_ranked_chain_bounded(rest, rank);
            assert(rest[0] == chain[1]);
        }
    }
}

} // verus!
