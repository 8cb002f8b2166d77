use vstd::prelude::*;

use crate::markov::Markov;
use crate::markov::find_word;
use crate::markov::pair_count;
use crate::markov::sentence_view;
use crate::msgprocessor::ProcessedMessage;

verus! {

/// One training record, abstractly: the author name and the sentence's
/// words, all as character sequences.
pub open spec fn record_view(m: ProcessedMessage) -> (Seq<char>, Seq<Seq<char>>) {
    (m.user@, sentence_view(m.words@))
}

/// The abstract content of a record list.
pub open spec fn records_view(rs: Seq<ProcessedMessage>) -> Seq<(Seq<char>, Seq<Seq<char>>)> {
    rs.map_values(|m: ProcessedMessage| record_view(m))
}

/// Whether a record takes part in training: author and sentence non-empty
/// (records failing this are discarded, as the producers discard them).
pub open spec fn rec_ok(r: (Seq<char>, Seq<Seq<char>>)) -> bool {
    r.0.len() > 0 && r.1.len() >= 1
}

/// A record's contribution to `trans_count(author, a, b)`.
pub open spec fn rec_trans(
    r: (Seq<char>, Seq<Seq<char>>),
    author: Seq<char>,
    a: Seq<char>,
    b: Seq<char>,
) -> nat {
    if rec_ok(r) && r.0 == author {
        pair_count(r.1, a, b)
    } else {
        0
    }
}

/// A record's contribution to `begin_count(author, b)`.
pub open spec fn rec_begin(r: (Seq<char>, Seq<Seq<char>>), author: Seq<char>, b: Seq<char>) -> nat {
    if rec_ok(r) && r.0 == author && r.1[0] == b {
        1
    } else {
        0
    }
}

/// A record's contribution to `end_count(author, a)`.
pub open spec fn rec_end(r: (Seq<char>, Seq<Seq<char>>), author: Seq<char>, a: Seq<char>) -> nat {
    if rec_ok(r) && r.0 == author && r.1.last() == a {
        1
    } else {
        0
    }
}

/// The transition count a record list trains into an empty registry.
pub open spec fn recs_trans(
    rv: Seq<(Seq<char>, Seq<Seq<char>>)>,
    author: Seq<char>,
    a: Seq<char>,
    b: Seq<char>,
) -> nat
    decreases rv.len(),
{
    if rv.len() == 0 {
        0
    } else {
        recs_trans(rv.drop_last(), author, a, b) + rec_trans(rv.last(), author, a, b)
    }
}

/// The sentence-begin count a record list trains into an empty registry.
pub open spec fn recs_begin(
    rv: Seq<(Seq<char>, Seq<Seq<char>>)>,
    author: Seq<char>,
    b: Seq<char>,
) -> nat
    decreases rv.len(),
{
    if rv.len() == 0 {
        0
    } else {
        recs_begin(rv.drop_last(), author, b) + rec_begin(rv.last(), author, b)
    }
}

/// The sentence-end count a record list trains into an empty registry.
pub open spec fn recs_end(
    rv: Seq<(Seq<char>, Seq<Seq<char>>)>,
    author: Seq<char>,
    a: Seq<char>,
) -> nat
    decreases rv.len(),
{
    if rv.len() == 0 {
        0
    } else {
        recs_end(rv.drop_last(), author, a) + rec_end(rv.last(), author, a)
    }
}

/// Whether a record list trains any model for `author`.
pub open spec fn recs_has_author(rv: Seq<(Seq<char>, Seq<Seq<char>>)>, author: Seq<char>) -> bool
    decreases rv.len(),
{
    if rv.len() == 0 {
        false
    } else {
        recs_has_author(rv.drop_last(), author) || (rec_ok(rv.last()) && rv.last().0 == author)
    }
}

/// How many word slots a record list can occupy at most.
pub open spec fn recs_load(rv: Seq<(Seq<char>, Seq<Seq<char>>)>) -> nat
    decreases rv.len(),
{
    if rv.len() == 0 {
        0
    } else {
        recs_load(rv.drop_last()) + if rec_ok(rv.last()) {
            rv.last().1.len()
        } else {
            0
        }
    }
}

/// Removing one record from a list removes exactly that record's own
/// contribution from every summed count.
pub proof fn lemma_recs_remove(
    rv: Seq<(Seq<char>, Seq<Seq<char>>)>,
    j: int,
    author: Seq<char>,
    a: Seq<char>,
    b: Seq<char>,
)
    requires
        0 <= j < rv.len(),
    ensures
        recs_trans(rv.remove(j), author, a, b) + rec_trans(rv[j], author, a, b) == recs_trans(
            rv,
            author,
            a,
            b,
        ),
        recs_begin(rv.remove(j), author, b) + rec_begin(rv[j], author, b) == recs_begin(
            rv,
            author,
            b,
        ),
        recs_end(rv.remove(j), author, a) + rec_end(rv[j], author, a) == recs_end(rv, author, a),
        recs_has_author(rv, author) == (recs_has_author(rv.remove(j), author) || (rec_ok(rv[j])
            && rv[j].0 == author)),
    decreases rv.len(),
{
    if j == rv.len() - 1 {
        assert(rv.remove(j) =~= rv.drop_last());
    } else {
        let s = rv.drop_last();
        assert(rv.remove(j).drop_last() =~= s.remove(j));
        assert(rv.remove(j).last() == rv.last());
        lemma_recs_remove(s, j, author, a, b);
        assert(s[j] == rv[j]);
    }
}

/// Training structure does not depend on record order: two record lists
/// holding the same multiset of records train the same per-author counts
/// and the same author set — only producer content matters, not the
/// interleaving in which the aggregator receives it.
pub proof fn lemma_training_order_irrelevant(
    rv1: Seq<(Seq<char>, Seq<Seq<char>>)>,
    rv2: Seq<(Seq<char>, Seq<Seq<char>>)>,
    author: Seq<char>,
    a: Seq<char>,
    b: Seq<char>,
)
    requires
        rv1.to_multiset() == rv2.to_multiset(),
    ensures
        recs_trans(rv1, author, a, b) == recs_trans(rv2, author, a, b),
        recs_begin(rv1, author, b) == recs_begin(rv2, author, b),
        recs_end(rv1, author, a) == recs_end(rv2, author, a),
        recs_has_author(rv1, author) == recs_has_author(rv2, author),
    decreases rv1.len(),
{
    broadcast use vstd::seq_lib::group_to_multiset_ensures;

    if rv1.len() == 0 {
        assert(rv2.len() == rv2.to_multiset().len());
        assert(rv2.len() == 0);
    } else {
        let x = rv1.last();
        assert(rv1[rv1.len() - 1] == x);
        assert(rv1.contains(x));
        assert(rv1.to_multiset().count(x) > 0);
        assert(rv2.to_multiset().count(x) > 0);
        assert(rv2.contains(x));
        let j = choose|j: int| 0 <= j < rv2.len() && rv2[j] == x;
        assert(rv1.remove(rv1.len() - 1) =~= rv1.drop_last());
        assert(rv1.drop_last().to_multiset() == rv1.to_multiset().remove(x));
        assert(rv2.remove(j).to_multiset() == rv2.to_multiset().remove(x));
        lemma_recs_remove(rv2, j, author, a, b);
        lemma_training_order_irrelevant(rv1.drop_last(), rv2.remove(j), author, a, b);
    }
}

pub proof fn lemma_recs_load_prefix_le(rv: Seq<(Seq<char>, Seq<Seq<char>>)>, i: int)
    requires
        0 <= i <= rv.len(),
    ensures
        recs_load(rv.subrange(0, i)) <= recs_load(rv),
    decreases rv.len(),
{
    if i == rv.len() {
        assert(rv.subrange(0, i) =~= rv);
    } else if rv.len() > 0 {
        assert(rv.drop_last().subrange(0, i) =~= rv.subrange(0, i));
        lemma_recs_load_prefix_le(rv.drop_last(), i);
    }
}

/// The per-author models: a mapping from normalized author name to that
/// author's transition graph. Populated during training, then read only.
pub struct ModelRegistry {
    pub entries: Vec<(String, Markov)>,
}

impl ModelRegistry {
    /// Well-formedness: author names unique and non-empty, every graph
    /// well-formed.
    pub open spec fn wf(self) -> bool {
        &&& forall|i: int, j: int|
            0 <= i < self.entries@.len() && 0 <= j < self.entries@.len() && i != j
                ==> self.entries@[i].0@ != self.entries@[j].0@
        &&& forall|i: int|
            0 <= i < self.entries@.len() ==> (#[trigger] self.entries@[i].0@).len() > 0
        &&& forall|i: int| 0 <= i < self.entries@.len() ==> (#[trigger] self.entries@[i].1).wf()
    }

    /// The author names, in insertion order.
    pub open spec fn authors_view(self) -> Seq<Seq<char>> {
        self.entries@.map_values(|p: (String, Markov)| p.0@)
    }

    /// Whether author `a` has a trained model.
    pub open spec fn has_author(self, a: Seq<char>) -> bool {
        find_word(self.authors_view(), a) >= 0
    }

    /// Author `a`'s graph (meaningful only when `has_author(a)`).
    pub open spec fn graph_of(self, a: Seq<char>) -> Markov {
        self.entries@[find_word(self.authors_view(), a)].1
    }

    /// How many times author's word `b` was recorded right after word `a`.
    pub open spec fn trans_count(self, author: Seq<char>, a: Seq<char>, b: Seq<char>) -> nat {
        if self.has_author(author) {
            self.graph_of(author).trans_count(a, b)
        } else {
            0
        }
    }

    /// How many of the author's sentences were recorded starting at `b`.
    pub open spec fn begin_count(self, author: Seq<char>, b: Seq<char>) -> nat {
        if self.has_author(author) {
            self.graph_of(author).begin_count(b)
        } else {
            0
        }
    }

    /// How many of the author's sentences were recorded ending at `a`.
    pub open spec fn end_count(self, author: Seq<char>, a: Seq<char>) -> nat {
        if self.has_author(author) {
            self.graph_of(author).end_count(a)
        } else {
            0
        }
    }

    /// Whether the author's graph holds the word `w`.
    pub open spec fn has_word(self, author: Seq<char>, w: Seq<char>) -> bool {
        self.has_author(author) && self.graph_of(author).has_word(w)
    }

    /// How many token slots the author's graph occupies (the two sentinels
    /// when the author is still untrained).
    pub open spec fn author_load(self, author: Seq<char>) -> nat {
        if self.has_author(author) {
            self.graph_of(author).nodes@.len()
        } else {
            2
        }
    }

    pub fn new() -> (reg: ModelRegistry)
        ensures
            reg.wf(),
            reg.entries@.len() == 0,
            forall|a: Seq<char>| !reg.has_author(a),
    {
        let reg = ModelRegistry { entries: Vec::new() };
        proof {
            assert(reg.authors_view() =~= Seq::<Seq<char>>::empty());
        }
        reg
    }

    /// Looks an author up by exact (already normalized) name.
    pub fn find_author_index(&self, author: &String) -> (r: Option<usize>)
        requires
            self.wf(),
        ensures
            match r {
                Some(i) => self.has_author(author@) && i == find_word(self.authors_view(), author@)
                    && i < self.entries@.len() && self.entries@[i as int].0@ == author@,
                None => !self.has_author(author@),
            },
    {
        let ghost av = self.authors_view();
        let mut i: usize = self.entries.len();
        proof {
            assert(av.subrange(0, i as int) =~= av);
        }
        while i > 0
            invariant
                self.wf(),
                i <= self.entries@.len(),
                av == self.authors_view(),
                find_word(av.subrange(0, i as int), author@) == find_word(av, author@),
            decreases i,
        {
            i = i - 1;
            if self.entries[i].0.eq(author) {
                proof {
                    assert(av.subrange(0, i as int + 1).last() == author@);
                    crate::markov::lemma_find_word_bound(av, author@);
                }
                return Some(i);
            }
            proof {
                assert(av.subrange(0, i as int + 1).drop_last() =~= av.subrange(0, i as int));
            }
        }
        proof {
            assert(av.subrange(0, 0) =~= Seq::<Seq<char>>::empty());
        }
        None
    }

    /// A read-only view of an author's graph, for generation.
    pub fn get_graph(&self, author: &String) -> (r: Option<&Markov>)
        requires
            self.wf(),
        ensures
            match r {
                Some(g) => self.has_author(author@) && *g == self.graph_of(author@) && g.wf(),
                None => !self.has_author(author@),
            },
    {
        match self.find_author_index(author) {
            Some(i) => Some(&self.entries[i].1),
            None => None,
        }
    }

    /// Ingests one record into its author's graph, creating the graph at
    /// the author's first appearance. Exactly the record's own contribution
    /// is added to that author's counts; every other author's model is kept.
    pub fn train_record(&mut self, msg: ProcessedMessage)
        requires
            old(self).wf(),
            msg.user@.len() > 0,
            msg.words@.len() >= 1,
            forall|k: int| 0 <= k < msg.words@.len() ==> (#[trigger] msg.words@[k]@).len() > 0,
            old(self).author_load(msg.user@) + msg.words@.len() <= 0xFFFF_FFFF,
        ensures
            final(self).wf(),
            forall|x: Seq<char>|
                #[trigger] final(self).has_author(x) == (old(self).has_author(x) || x
                    == msg.user@),
            forall|x: Seq<char>, w: Seq<char>|
                #[trigger] final(self).has_word(x, w) == (old(self).has_word(x, w) || (x
                    == msg.user@ && sentence_view(msg.words@).contains(w))),
            forall|x: Seq<char>, a: Seq<char>, b: Seq<char>|
                #[trigger] final(self).trans_count(x, a, b) == old(self).trans_count(x, a, b)
                    + if x == msg.user@ {
                    pair_count(sentence_view(msg.words@), a, b)
                } else {
                    0nat
                },
            forall|x: Seq<char>, b: Seq<char>|
                #[trigger] final(self).begin_count(x, b) == old(self).begin_count(x, b) + if x
                    == msg.user@ && sentence_view(msg.words@)[0] == b {
                    1nat
                } else {
                    0nat
                },
            forall|x: Seq<char>, a: Seq<char>|
                #[trigger] final(self).end_count(x, a) == old(self).end_count(x, a) + if x
                    == msg.user@ && sentence_view(msg.words@).last() == a {
                    1nat
                } else {
                    0nat
                },
            forall|x: Seq<char>|
                #[trigger] final(self).author_load(x) <= old(self).author_load(x) + if x
                    == msg.user@ {
                    msg.words@.len()
                } else {
                    0nat
                },
    {
        let ghost gs = *old(self);
        let ProcessedMessage { user, words } = msg;
        let i = match self.find_author_index(&user) {
            Some(i) => i,
            None => {
                let i = self.entries.len();
                self.entries.push((user.clone(), Markov::new()));
                proof {
                    Self::lemma_register_author(gs, *self, user);
                }
                i
            },
        };
        let ghost s1 = *self;
        proof {
            assert(s1.wf());
            assert(s1.has_author(user@) && find_word(s1.authors_view(), user@) == i);
            assert(s1.entries@[i as int].1.wf());
            assert(s1.entries@[i as int].1 == s1.graph_of(user@));
            assert(s1.graph_of(user@).nodes@.len() == gs.author_load(user@));
        }
        self.entries[i].1.insert_sentence(words);
        proof {
            let post = *self;
            let g0 = s1.entries@[i as int].1;
            let g1 = post.entries@[i as int].1;
            assert(post.entries@ =~= s1.entries@.update(i as int, (s1.entries@[i as int].0, g1)));
            assert(post.authors_view() =~= s1.authors_view());
            let av = post.authors_view();
            let sv = sentence_view(words@);
            assert forall|x: Seq<char>| #[trigger]
                post.has_author(x) == (gs.has_author(x) || x == user@) by {
                assert(post.has_author(x) == s1.has_author(x));
                assert(s1.has_author(x) == (gs.has_author(x) || x == user@));
            }
            assert(post.graph_of(user@) == g1);
            assert forall|x: Seq<char>, a: Seq<char>, b: Seq<char>| #[trigger]
                post.trans_count(x, a, b) == gs.trans_count(x, a, b) + (if x == user@ {
                    pair_count(sv, a, b)
                } else {
                    0nat
                }) by {
                assert(post.has_author(x) == s1.has_author(x));
                assert(s1.has_author(x) == (gs.has_author(x) || x == user@));
                if x == user@ {
                    assert(s1.graph_of(x) == g0);
                    assert(g1.trans_count(a, b) == g0.trans_count(a, b) + pair_count(sv, a, b));
                    assert(s1.trans_count(x, a, b) == gs.trans_count(x, a, b));
                } else if post.has_author(x) {
                    crate::markov::lemma_find_word_bound(av, x);
                    assert(av[find_word(av, x)] == x);
                    assert(av[i as int] == user@);
                    assert(find_word(av, x) != i);
                    assert(post.graph_of(x) == s1.graph_of(x));
                    assert(s1.trans_count(x, a, b) == gs.trans_count(x, a, b));
                } else {
                    assert(s1.trans_count(x, a, b) == gs.trans_count(x, a, b));
                }
            }
            assert forall|x: Seq<char>, b: Seq<char>| #[trigger]
                post.begin_count(x, b) == gs.begin_count(x, b) + (if x == user@ && sv[0] == b {
                    1nat
                } else {
                    0nat
                }) by {
                assert(post.has_author(x) == s1.has_author(x));
                assert(s1.has_author(x) == (gs.has_author(x) || x == user@));
                if x == user@ {
                    assert(s1.graph_of(x) == g0);
                    assert(g1.begin_count(b) == g0.begin_count(b) + if sv[0] == b {
                        1nat
                    } else {
                        0nat
                    });
                    assert(s1.begin_count(x, b) == gs.begin_count(x, b));
                } else if post.has_author(x) {
                    crate::markov::lemma_find_word_bound(av, x);
                    assert(av[find_word(av, x)] == x);
                    assert(av[i as int] == user@);
                    assert(find_word(av, x) != i);
                    assert(post.graph_of(x) == s1.graph_of(x));
                    assert(s1.begin_count(x, b) == gs.begin_count(x, b));
                } else {
                    assert(s1.begin_count(x, b) == gs.begin_count(x, b));
                }
            }
            assert forall|x: Seq<char>, a: Seq<char>| #[trigger]
                post.end_count(x, a) == gs.end_count(x, a) + (if x == user@ && sv.last() == a {
                    1nat
                } else {
                    0nat
                }) by {
                assert(post.has_author(x) == s1.has_author(x));
                assert(s1.has_author(x) == (gs.has_author(x) || x == user@));
                if x == user@ {
                    assert(s1.graph_of(x) == g0);
                    assert(g1.end_count(a) == g0.end_count(a) + if sv.last() == a {
                        1nat
                    } else {
                        0nat
                    });
                    assert(s1.end_count(x, a) == gs.end_count(x, a));
                } else if post.has_author(x) {
                    crate::markov::lemma_find_word_bound(av, x);
                    assert(av[find_word(av, x)] == x);
                    assert(av[i as int] == user@);
                    assert(find_word(av, x) != i);
                    assert(post.graph_of(x) == s1.graph_of(x));
                    assert(s1.end_count(x, a) == gs.end_count(x, a));
                } else {
                    assert(s1.end_count(x, a) == gs.end_count(x, a));
                }
            }
            assert forall|x: Seq<char>, w: Seq<char>| #[trigger]
                post.has_word(x, w) == (gs.has_word(x, w) || (x == user@ && sv.contains(w))) by {
                assert(post.has_author(x) == s1.has_author(x));
                assert(s1.has_author(x) == (gs.has_author(x) || x == user@));
                if x == user@ {
                    assert(s1.graph_of(x) == g0);
                    assert(g1.has_word(w) == (g0.has_word(w) || sv.contains(w)));
                    assert(s1.has_word(x, w) == gs.has_word(x, w));
                } else if post.has_author(x) {
                    crate::markov::lemma_find_word_bound(av, x);
                    assert(av[find_word(av, x)] == x);
                    assert(av[i as int] == user@);
                    assert(find_word(av, x) != i);
                    assert(post.graph_of(x) == s1.graph_of(x));
                    assert(s1.has_word(x, w) == gs.has_word(x, w));
                } else {
                    assert(s1.has_word(x, w) == gs.has_word(x, w));
                }
            }
            assert forall|x: Seq<char>| #[trigger]
                post.author_load(x) <= gs.author_load(x) + (if x == user@ {
                    words@.len()
                } else {
                    0nat
                }) by {
                assert(post.has_author(x) == s1.has_author(x));
                assert(s1.has_author(x) == (gs.has_author(x) || x == user@));
                if x == user@ {
                    assert(s1.graph_of(x) == g0);
                    assert(g1.nodes@.len() <= g0.nodes@.len() + words@.len());
                    assert(s1.author_load(x) == gs.author_load(x));
                } else if post.has_author(x) {
                    crate::markov::lemma_find_word_bound(av, x);
                    assert(av[find_word(av, x)] == x);
                    assert(av[i as int] == user@);
                    assert(find_word(av, x) != i);
                    assert(post.graph_of(x) == s1.graph_of(x));
                    assert(s1.author_load(x) == gs.author_load(x));
                } else {
                    assert(s1.author_load(x) == gs.author_load(x));
                }
            }
        }
    }

    /// Registering a fresh author appends an untrained graph: the new
    /// author's counts are all zero and nothing else changes.
    proof fn lemma_register_author(pre: ModelRegistry, post: ModelRegistry, user: String)
        requires
            pre.wf(),
            !pre.has_author(user@),
            user@.len() > 0,
            post.entries@.len() == pre.entries@.len() + 1,
            forall|j: int| 0 <= j < pre.entries@.len() ==> post.entries@[j] == pre.entries@[j],
            post.entries@.last().0@ == user@,
            post.entries@.last().1.wf(),
            post.entries@.last().1.words@.len() == 0,
        ensures
            post.wf(),
            post.has_author(user@),
            find_word(post.authors_view(), user@) == pre.entries@.len(),
            forall|x: Seq<char>|
                #[trigger] post.has_author(x) == (pre.has_author(x) || x == user@),
            forall|x: Seq<char>|
                pre.has_author(x) ==> #[trigger] post.graph_of(x) == pre.graph_of(x)
                    && find_word(post.authors_view(), x) == find_word(pre.authors_view(), x),
            forall|x: Seq<char>, a: Seq<char>, b: Seq<char>|
                #[trigger] post.trans_count(x, a, b) == pre.trans_count(x, a, b),
            forall|x: Seq<char>, b: Seq<char>|
                #[trigger] post.begin_count(x, b) == pre.begin_count(x, b),
            forall|x: Seq<char>, a: Seq<char>|
                #[trigger] post.end_count(x, a) == pre.end_count(x, a),
            forall|x: Seq<char>, w: Seq<char>|
                #[trigger] post.has_word(x, w) == pre.has_word(x, w),
            forall|x: Seq<char>| #[trigger] post.author_load(x) == pre.author_load(x),
    {
        let oav = pre.authors_view();
        let nav = post.authors_view();
        assert(nav =~= oav.push(user@));
        assert forall|x: Seq<char>|
            find_word(nav, x) == if x == user@ {
                oav.len() as int
            } else {
                find_word(oav, x)
            } by {
            crate::markov::lemma_find_word_push(oav, user@, x);
        }
        crate::markov::lemma_find_word_bound(oav, user@);
        assert forall|i: int, j: int|
            0 <= i < post.entries@.len() && 0 <= j < post.entries@.len() && i != j
            implies post.entries@[i].0@ != post.entries@[j].0@ by {
            assert(nav[i] == post.entries@[i].0@);
            assert(nav[j] == post.entries@[j].0@);
            if nav[i] == nav[j] {
                if i < oav.len() && j < oav.len() {
                    assert(pre.entries@[i].0@ != pre.entries@[j].0@);
                } else if i < oav.len() {
                    crate::markov::lemma_find_word_present(oav, nav[i], i);
                } else if j < oav.len() {
                    crate::markov::lemma_find_word_present(oav, nav[j], j);
                }
            }
        }
        assert forall|x: Seq<char>|
            pre.has_author(x) implies #[trigger] post.graph_of(x) == pre.graph_of(x) && find_word(
            nav,
            x,
        ) == find_word(oav, x) by {
            crate::markov::lemma_find_word_bound(oav, x);
        }
        let fresh = post.entries@.last().1;
        assert(fresh.words_view() =~= Seq::<Seq<char>>::empty());
        assert(forall|w: Seq<char>| !(#[trigger] fresh.has_word(w)));
        assert forall|x: Seq<char>, a: Seq<char>, b: Seq<char>| #[trigger]
            post.trans_count(x, a, b) == pre.trans_count(x, a, b) by {
            if x == user@ {
                assert(post.graph_of(x) == fresh);
                assert(post.trans_count(x, a, b) == 0);
            } else if pre.has_author(x) {
                assert(post.graph_of(x) == pre.graph_of(x));
            }
        }
        assert forall|x: Seq<char>, b: Seq<char>| #[trigger]
            post.begin_count(x, b) == pre.begin_count(x, b) by {
            if x == user@ {
                assert(post.graph_of(x) == fresh);
                assert(post.begin_count(x, b) == 0);
            } else if pre.has_author(x) {
                assert(post.graph_of(x) == pre.graph_of(x));
            }
        }
        assert forall|x: Seq<char>, a: Seq<char>| #[trigger]
            post.end_count(x, a) == pre.end_count(x, a) by {
            if x == user@ {
                assert(post.graph_of(x) == fresh);
                assert(post.end_count(x, a) == 0);
            } else if pre.has_author(x) {
                assert(post.graph_of(x) == pre.graph_of(x));
            }
        }
        assert forall|x: Seq<char>, w: Seq<char>| #[trigger]
            post.has_word(x, w) == pre.has_word(x, w) by {
            if x == user@ {
                assert(post.graph_of(x) == fresh);
            } else if pre.has_author(x) {
                assert(post.graph_of(x) == pre.graph_of(x));
            }
        }
        assert forall|x: Seq<char>| #[trigger] post.author_load(x) == pre.author_load(x) by {
            if x == user@ {
                assert(post.graph_of(x) == fresh);
                assert(fresh.nodes@.len() == 2);
            } else if pre.has_author(x) {
                assert(post.graph_of(x) == pre.graph_of(x));
            }
        }
    }

    /// Builds a registry from a whole list of records: the aggregation
    /// step of the training pipeline, applied in list order. The result's
    /// structure is exactly the record list's summed contribution — and
    /// only the list's multiset of records matters, as
    /// `lemma_training_order_irrelevant` states.
    pub fn train_records(records: Vec<ProcessedMessage>) -> (reg: ModelRegistry)
        requires
            forall|j: int, k: int|
                0 <= j < records@.len() && 0 <= k < records@[j].words@.len() ==> (
                #[trigger] records@[j].words@[k]@).len() > 0,
            2 + recs_load(records_view(records@)) <= 0xFFFF_FFFF,
        ensures
            reg.wf(),
            forall|x: Seq<char>|
                #[trigger] reg.has_author(x) == recs_has_author(records_view(records@), x),
            forall|x: Seq<char>, a: Seq<char>, b: Seq<char>|
                #[trigger] reg.trans_count(x, a, b) == recs_trans(records_view(records@), x, a, b),
            forall|x: Seq<char>, b: Seq<char>|
                #[trigger] reg.begin_count(x, b) == recs_begin(records_view(records@), x, b),
            forall|x: Seq<char>, a: Seq<char>|
                #[trigger] reg.end_count(x, a) == recs_end(records_view(records@), x, a),
    {
        let ghost orig = records@;
        let ghost rv = records_view(orig);
        let mut records = records;
        let total: usize = records.len();
        let mut reg = ModelRegistry::new();
        let mut i: usize = 0;
        proof {
            assert(rv.subrange(0, 0) =~= Seq::<(Seq<char>, Seq<Seq<char>>)>::empty());
            assert(records@ =~= orig.subrange(0, orig.len() as int));
        }
        while records.len() > 0
            invariant
                reg.wf(),
                total == orig.len(),
                i <= total,
                records@ == orig.subrange(i as int, orig.len() as int),
                rv == records_view(orig),
                forall|j: int, k: int|
                    0 <= j < orig.len() && 0 <= k < orig[j].words@.len() ==> (
                    #[trigger] orig[j].words@[k]@).len() > 0,
                2 + recs_load(rv) <= 0xFFFF_FFFF,
                forall|x: Seq<char>|
                    #[trigger] reg.has_author(x) == recs_has_author(rv.subrange(0, i as int), x),
                forall|x: Seq<char>, a: Seq<char>, b: Seq<char>|
                    #[trigger] reg.trans_count(x, a, b) == recs_trans(
                        rv.subrange(0, i as int),
                        x,
                        a,
                        b,
                    ),
                forall|x: Seq<char>, b: Seq<char>|
                    #[trigger] reg.begin_count(x, b) == recs_begin(rv.subrange(0, i as int), x, b),
                forall|x: Seq<char>, a: Seq<char>|
                    #[trigger] reg.end_count(x, a) == recs_end(rv.subrange(0, i as int), x, a),
                forall|x: Seq<char>|
                    #[trigger] reg.author_load(x) <= 2 + recs_load(rv.subrange(0, i as int)),
            decreases records@.len(),
        {
            let msg = records.remove(0);
            proof {
                assert(msg == orig[i as int]);
                assert(records@ =~= orig.subrange(i as int + 1, orig.len() as int));
                assert(rv.subrange(0, i as int + 1).drop_last() =~= rv.subrange(0, i as int));
                assert(rv.subrange(0, i as int + 1).last() == rv[i as int]);
                assert(rv[i as int] == record_view(orig[i as int]));
                lemma_recs_load_prefix_le(rv, i as int + 1);
            }
            let trainable = !msg.user.as_str().is_empty() && !msg.words.is_empty();
            if trainable {
                proof {
                    assert(rec_ok(rv[i as int]));
                    assert(reg.author_load(msg.user@) + msg.words@.len() <= 2 + recs_load(
                        rv.subrange(0, i as int),
                    ) + msg.words@.len());
                    assert(recs_load(rv.subrange(0, i as int + 1)) == recs_load(
                        rv.subrange(0, i as int),
                    ) + msg.words@.len());
                }
                reg.train_record(msg);
            } else {
                proof {
                    assert(!rec_ok(rv[i as int]));
                }
            }
            i = i + 1;
        }
        proof {
            assert(rv.subrange(0, i as int) =~= rv);
        }
        reg
    }

    /// Whether the registry holds a model for `author` (exact name).
    pub fn knows_author(&self, author: &String) -> (r: bool)
        requires
            self.wf(),
        ensures
            r == self.has_author(author@),
    {
        self.find_author_index(author).is_some()
    }

    /// How many times `author`'s word `b` was observed right after `a`.
    pub fn author_trans_count(&self, author: &String, a: &String, b: &String) -> (r: usize)
        requires
            self.wf(),
        ensures
            r == self.trans_count(author@, a@, b@),
    {
        match self.get_graph(author) {
            None => 0,
            Some(g) => g.succ_count(a, b),
        }
    }

    /// How many of `author`'s sentences were observed opening at `b`.
    pub fn author_begin_count(&self, author: &String, b: &String) -> (r: usize)
        requires
            self.wf(),
        ensures
            r == self.begin_count(author@, b@),
    {
        match self.get_graph(author) {
            None => 0,
            Some(g) => g.begin_count_of(b),
        }
    }

    /// How many of `author`'s sentences were observed ending at `a`.
    pub fn author_end_count(&self, author: &String, a: &String) -> (r: usize)
        requires
            self.wf(),
        ensures
            r == self.end_count(author@, a@),
    {
        match self.get_graph(author) {
            None => 0,
            Some(g) => g.end_count_of(a),
        }
    }

    /// How many token slots `author`'s graph occupies; callers use it to
    /// test the training capacity bound before handing a record over.
    pub fn author_token_load(&self, author: &String) -> (r: usize)
        requires
            self.wf(),
        ensures
            r == self.author_load(author@),
    {
        match self.get_graph(author) {
            None => 2,
            Some(g) => g.nodes.len(),
        }
    }
}

} // verus!
