use vstd::prelude::*;

use crate::markov::MAX_WALK_STEPS;
use crate::markov::sentence_view;
use crate::msgprocessor::lower_of;
use crate::msgprocessor::lowercase;
use crate::registry::ModelRegistry;

verus! {

/// A reply shorter than this is rejected and the walk retried.
pub const MIN_LENGTH: usize = 4;

/// How many random walks are attempted before giving up on length.
pub const MAX_ATTEMPTS: usize = 20;

/// Why a generation request failed. The two structural failures are never
/// retried; the length failure is reported only once the retry budget is
/// spent.
#[derive(Debug, Clone, Copy, PartialEq, Eq, Structural)]
pub enum GenerationError {
    UnknownAuthor,
    UnknownHookWord,
    InsufficientLength,
}

/// Everything a single walk's outcome guarantees, for normalized author
/// and hook: a returned chain starts at the hook, follows only observed
/// transitions of the author's graph, and stops at a walk stop condition;
/// each structural error comes exactly when its structure is absent.
pub open spec fn generation_post(
    reg: ModelRegistry,
    author: Seq<char>,
    hook: Seq<char>,
    r: Result<Vec<String>, GenerationError>,
) -> bool {
    match r {
        Ok(chain) => {
            &&& reg.has_author(author)
            &&& reg.has_word(author, hook)
            &&& reg.graph_of(author).valid_chain(sentence_view(chain@))
            &&& sentence_view(chain@)[0] == hook
            &&& reg.graph_of(author).chain_terminal(sentence_view(chain@))
            &&& sentence_view(chain@).len() <= MAX_WALK_STEPS
        },
        Err(e) => match e {
            GenerationError::UnknownAuthor => !reg.has_author(author),
            GenerationError::UnknownHookWord => reg.has_author(author) && !reg.has_word(
                author,
                hook,
            ),
            GenerationError::InsufficientLength => false,
        },
    }
}

/// One hook-word lookup and random walk against `author`'s model, after
/// normalizing both arguments the way training normalized them. The first
/// emitted word is always the hook itself.
pub fn generate(reg: &ModelRegistry, author: &str, hook: &str) -> (r: Result<
    Vec<String>,
    GenerationError,
>)
    requires
        reg.wf(),
    ensures
        generation_post(*reg, lower_of(author@), lower_of(hook@), r),
{
    let a = lowercase(author);
    let h = lowercase(hook);
    match reg.get_graph(&a) {
        None => Err(GenerationError::UnknownAuthor),
        Some(g) => match g.random_chain(&h) {
            None => Err(GenerationError::UnknownHookWord),
            Some(chain) => Ok(chain),
        },
    }
}

/// The words of a chain joined by single spaces.
pub open spec fn joined(chain: Seq<Seq<char>>) -> Seq<char>
    decreases chain.len(),
{
    if chain.len() == 0 {
        Seq::empty()
    } else if chain.len() == 1 {
        chain[0]
    } else {
        joined(chain.drop_last()) + seq![' '] + chain.last()
    }
}

/// Space-joins a word list.
pub fn join_words(words: &Vec<String>) -> (r: String)
    ensures
        r@ == joined(sentence_view(words@)),
{
    let ghost wv = sentence_view(words@);
    let mut out = String::new();
    let mut i: usize = 0;
    proof {
        assert(wv.subrange(0, 0) =~= Seq::<Seq<char>>::empty());
    }
    while i < words.len()
        invariant
            i <= words@.len(),
            wv == sentence_view(words@),
            out@ == joined(wv.subrange(0, i as int)),
        decreases words@.len() - i,
    {
        if i > 0 {
            out.append(" ");
            proof {
                reveal_strlit(" ");
                assert(" "@ =~= seq![' ']);
            }
        }
        out.append(words[i].as_str());
        proof {
            assert(wv.subrange(0, i as int + 1).drop_last() =~= wv.subrange(0, i as int));
            assert(wv.subrange(0, i as int + 1).last() == wv[i as int]);
            if i == 0 {
                assert(out@ =~= wv[0]);
            }
        }
        i = i + 1;
    }
    proof {
        assert(wv.subrange(0, words@.len() as int) =~= wv);
    }
    out
}

/// Whether every chain a walk can return for `hook` reaches the minimum
/// reply length: there is no supported walk outcome — hook start, observed
/// transitions, a stop condition — shorter than `MIN_LENGTH` words.
pub open spec fn all_walks_long_enough(
    reg: ModelRegistry,
    author: Seq<char>,
    hook: Seq<char>,
) -> bool {
    forall|c: Seq<Seq<char>>|
        (#[trigger] reg.graph_of(author).valid_chain(c)) && c[0] == hook && reg.graph_of(
            author,
        ).chain_terminal(c) ==> c.len() >= MIN_LENGTH
}

/// Everything a reply's outcome guarantees, for normalized author and
/// hook: an accepted reply is the space-join of a chain of observed
/// transitions that starts at the hook and reaches the minimum length;
/// each error comes exactly from its own cause.
pub open spec fn reply_post(
    reg: ModelRegistry,
    author: Seq<char>,
    hook: Seq<char>,
    r: Result<String, GenerationError>,
) -> bool {
    match r {
        Ok(s) => {
            &&& reg.has_author(author)
            &&& reg.has_word(author, hook)
            &&& exists|chain: Seq<Seq<char>>|
                {
                    &&& #[trigger] reg.graph_of(author).valid_chain(chain)
                    &&& chain[0] == hook
                    &&& reg.graph_of(author).chain_terminal(chain)
                    &&& chain.len() >= MIN_LENGTH
                    &&& s@ == joined(chain)
                }
        },
        Err(e) => match e {
            GenerationError::UnknownAuthor => !reg.has_author(author),
            GenerationError::UnknownHookWord => reg.has_author(author) && !reg.has_word(
                author,
                hook,
            ),
            GenerationError::InsufficientLength => reg.has_author(author) && reg.has_word(
                author,
                hook,
            ),
        },
    }
}

/// The retry/acceptance policy around `generate`: up to `MAX_ATTEMPTS`
/// walks, the first one of at least `MIN_LENGTH` words accepted and
/// space-joined; structural failures propagate immediately; only when
/// every attempt came up short is `InsufficientLength` reported. When the
/// model admits no short walk from the hook at all, success is owed: the
/// first attempt already passes the acceptance test.
pub fn generate_reply(reg: &ModelRegistry, author: &str, hook: &str) -> (r: Result<
    String,
    GenerationError,
>)
    requires
        reg.wf(),
    ensures
        reply_post(*reg, lower_of(author@), lower_of(hook@), r),
        reg.has_author(lower_of(author@)) && reg.has_word(lower_of(author@), lower_of(hook@))
            && all_walks_long_enough(*reg, lower_of(author@), lower_of(hook@)) ==> r is Ok,
{
    let ghost au = lower_of(author@);
    let ghost hk = lower_of(hook@);
    let mut attempts: usize = 0;
    while attempts < MAX_ATTEMPTS
        invariant
            reg.wf(),
            au == lower_of(author@),
            hk == lower_of(hook@),
            attempts >= 1 ==> reg.has_author(au) && reg.has_word(au, hk)
                && !all_walks_long_enough(*reg, au, hk),
        decreases MAX_ATTEMPTS - attempts,
    {
        match generate(reg, author, hook) {
            Err(e) => {
                return Err(e);
            },
            Ok(chain) => {
                let ghost cv = sentence_view(chain@);
                if chain.len() >= MIN_LENGTH {
                    let s = join_words(&chain);
                    proof {
                        assert(reg.graph_of(au).valid_chain(cv) && cv[0] == hk && reg.graph_of(
                            au,
                        ).chain_terminal(cv) && cv.len() >= MIN_LENGTH && s@ == joined(cv));
                    }
                    return Ok(s);
                }
                proof {
                    // this walk is a supported outcome shorter than the
                    // acceptance length, so not every walk is long enough
                    assert(!all_walks_long_enough(*reg, au, hk)) by {
                        if all_walks_long_enough(*reg, au, hk) {
                            assert(reg.graph_of(au).valid_chain(cv));
                            assert(false);
                        }
                    }
                }
            },
        }
        attempts = attempts + 1;
    }
    Err(GenerationError::InsufficientLength)
}

/// When the trained model gives the hook word no word successor at all,
/// no walk can pass the hook, so a reply request with a known author and
/// hook must end in `InsufficientLength`.
pub proof fn lemma_dead_end_hook_reply(
    reg: ModelRegistry,
    author: Seq<char>,
    hook: Seq<char>,
    r: Result<String, GenerationError>,
)
    requires
        reply_post(reg, author, hook, r),
        reg.has_author(author),
        reg.has_word(author, hook),
        forall|b: Seq<char>| reg.trans_count(author, hook, b) == 0,
    ensures
        r == Err::<String, GenerationError>(GenerationError::InsufficientLength),
{
    match r {
        Ok(s) => {
            let chain = choose|chain: Seq<Seq<char>>|
                {
                    &&& #[trigger] reg.graph_of(author).valid_chain(chain)
                    &&& chain[0] == hook
                    &&& reg.graph_of(author).chain_terminal(chain)
                    &&& chain.len() >= MIN_LENGTH
                    &&& s@ == joined(chain)
                };
            assert(reg.graph_of(author).trans_count(chain[1 - 1], chain[1]) > 0);
            assert(reg.trans_count(author, hook, chain[1]) > 0);
        },
        Err(e) => {},
    }
}

} // verus!
