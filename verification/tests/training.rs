use markovbot::Markov;
use markovbot::ModelRegistry;
use markovbot::Node;
use markovbot::ProcessedMessage;

fn s(x: &str) -> String {
    x.to_string()
}

fn words(xs: &[&str]) -> Vec<String> {
    xs.iter().map(|x| x.to_string()).collect()
}

fn rec(user: &str, ws: &[&str]) -> ProcessedMessage {
    ProcessedMessage { user: s(user), words: words(ws) }
}

#[test]
fn node_starts_empty() {
    let n = Node::new();
    assert!(n.succs.is_empty());
}

#[test]
fn insert_sentence_records_transitions() {
    let mut m = Markov::new();
    m.insert_sentence(words(&["a", "b", "c"]));
    assert_eq!(m.succ_count(&s("a"), &s("b")), 1);
    assert_eq!(m.succ_count(&s("b"), &s("c")), 1);
    assert_eq!(m.succ_count(&s("a"), &s("c")), 0);
    assert_eq!(m.succ_count(&s("c"), &s("a")), 0);
    assert_eq!(m.begin_count_of(&s("a")), 1);
    assert_eq!(m.begin_count_of(&s("b")), 0);
    assert_eq!(m.end_count_of(&s("c")), 1);
    assert_eq!(m.end_count_of(&s("a")), 0);
    assert!(m.knows_word(&s("a")));
    assert!(m.knows_word(&s("b")));
    assert!(m.knows_word(&s("c")));
    assert!(!m.knows_word(&s("zzz")));
}

#[test]
fn repetition_encodes_frequency() {
    let mut m = Markov::new();
    for _ in 0..9 {
        m.insert_sentence(words(&["a", "b"]));
    }
    m.insert_sentence(words(&["a", "c"]));
    assert_eq!(m.succ_count(&s("a"), &s("b")), 9);
    assert_eq!(m.succ_count(&s("a"), &s("c")), 1);
    assert_eq!(m.begin_count_of(&s("a")), 10);
    assert_eq!(m.end_count_of(&s("b")), 9);
    assert_eq!(m.end_count_of(&s("c")), 1);
}

#[test]
fn single_word_sentence_begins_and_ends() {
    let mut m = Markov::new();
    m.insert_sentence(words(&["a"]));
    assert_eq!(m.begin_count_of(&s("a")), 1);
    assert_eq!(m.end_count_of(&s("a")), 1);
    assert_eq!(m.succ_count(&s("a"), &s("a")), 0);
}

#[test]
fn insert_word_appends_one_occurrence() {
    let mut m = Markov::new();
    m.insert_sentence(words(&["a", "b"]));
    let ia = m.get_word_index(&s("a")).unwrap();
    let ib = m.get_word_index(&s("b")).unwrap();
    m.insert_word(ia, ib);
    assert_eq!(m.succ_count(&s("a"), &s("b")), 2);
    assert_eq!(m.succ_count(&s("b"), &s("a")), 0);
}

#[test]
fn random_chain_walks_from_the_hook() {
    let mut m = Markov::new();
    m.insert_sentence(words(&["a", "b", "c"]));
    let chain = m.random_chain(&s("a")).unwrap();
    assert_eq!(chain, vec![s("a"), s("b"), s("c")]);
    assert!(m.random_chain(&s("zzz")).is_none());
}

#[test]
fn train_records_builds_per_author_models() {
    let reg = ModelRegistry::train_records(vec![
        rec("bob", &["a", "b", "c"]),
        rec("eve", &["x", "y"]),
        rec("bob", &["a", "c"]),
    ]);
    assert!(reg.knows_author(&s("bob")));
    assert!(reg.knows_author(&s("eve")));
    assert!(!reg.knows_author(&s("nobody")));
    assert_eq!(reg.author_trans_count(&s("bob"), &s("a"), &s("b")), 1);
    assert_eq!(reg.author_trans_count(&s("bob"), &s("a"), &s("c")), 1);
    assert_eq!(reg.author_trans_count(&s("bob"), &s("b"), &s("c")), 1);
    assert_eq!(reg.author_trans_count(&s("eve"), &s("x"), &s("y")), 1);
    assert_eq!(reg.author_trans_count(&s("eve"), &s("a"), &s("b")), 0);
    assert_eq!(reg.author_begin_count(&s("bob"), &s("a")), 2);
    assert_eq!(reg.author_end_count(&s("bob"), &s("c")), 2);
}

#[test]
fn train_records_skips_invalid_records() {
    let reg = ModelRegistry::train_records(vec![
        rec("", &["a", "b"]),
        rec("bob", &[]),
        rec("bob", &["a", "b"]),
    ]);
    assert!(reg.knows_author(&s("bob")));
    assert!(!reg.knows_author(&s("")));
    assert_eq!(reg.author_trans_count(&s("bob"), &s("a"), &s("b")), 1);
}

#[test]
fn training_order_does_not_change_structure() {
    let first = ModelRegistry::train_records(vec![
        rec("bob", &["a", "b", "c"]),
        rec("eve", &["x", "y"]),
        rec("bob", &["b", "c"]),
        rec("eve", &["x", "z"]),
    ]);
    let second = ModelRegistry::train_records(vec![
        rec("eve", &["x", "z"]),
        rec("bob", &["b", "c"]),
        rec("eve", &["x", "y"]),
        rec("bob", &["a", "b", "c"]),
    ]);
    let authors = ["bob", "eve"];
    let toks = ["a", "b", "c", "x", "y", "z"];
    for author in authors.iter() {
        assert_eq!(
            first.knows_author(&s(author)),
            second.knows_author(&s(author))
        );
        for t1 in toks.iter() {
            assert_eq!(
                first.author_begin_count(&s(author), &s(t1)),
                second.author_begin_count(&s(author), &s(t1))
            );
            assert_eq!(
                first.author_end_count(&s(author), &s(t1)),
                second.author_end_count(&s(author), &s(t1))
            );
            for t2 in toks.iter() {
                assert_eq!(
                    first.author_trans_count(&s(author), &s(t1), &s(t2)),
                    second.author_trans_count(&s(author), &s(t1), &s(t2))
                );
            }
        }
    }
}
