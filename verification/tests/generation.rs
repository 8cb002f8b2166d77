use markovbot::GenerationError;
use markovbot::MAX_WALK_STEPS;
use markovbot::ModelRegistry;
use markovbot::ProcessedMessage;

fn s(x: &str) -> String {
    x.to_string()
}

fn rec(user: &str, ws: &[&str]) -> ProcessedMessage {
    ProcessedMessage {
        user: s(user),
        words: ws.iter().map(|x| x.to_string()).collect(),
    }
}

fn abc_registry() -> ModelRegistry {
    ModelRegistry::train_records(vec![rec("bob", &["a", "b", "c"])])
}

#[test]
fn generation_starts_at_hook() {
    let reg = abc_registry();
    for _ in 0..50 {
        let chain = markovbot::generate(&reg, "bob", "a").unwrap();
        assert!(!chain.is_empty());
        assert_eq!(chain[0], "a");
    }
}

#[test]
fn generation_walk_is_bounded() {
    let reg = abc_registry();
    for _ in 0..100 {
        let chain = markovbot::generate(&reg, "bob", "a").unwrap();
        assert!(chain.len() <= 3);
        assert!(chain.len() < MAX_WALK_STEPS);
    }
}

#[test]
fn generation_follows_observed_transitions() {
    let reg = abc_registry();
    for _ in 0..50 {
        let chain = markovbot::generate(&reg, "bob", "b").unwrap();
        assert_eq!(chain, vec![s("b"), s("c")]);
    }
}

#[test]
fn frequency_biases_the_draw() {
    let mut records = Vec::new();
    for _ in 0..9 {
        records.push(rec("x", &["a", "b"]));
    }
    records.push(rec("x", &["a", "c"]));
    let reg = ModelRegistry::train_records(records);
    let mut b_successors = 0usize;
    for _ in 0..1000 {
        let chain = markovbot::generate(&reg, "x", "a").unwrap();
        assert!(chain.len() >= 2);
        if chain[1] == "b" {
            b_successors += 1;
        }
    }
    assert!(
        b_successors >= 800,
        "expected a strong majority of b successors, got {}",
        b_successors
    );
}

#[test]
fn unknown_author_and_hook_are_reported() {
    let reg = abc_registry();
    assert_eq!(
        markovbot::generate(&reg, "nobody", "a").unwrap_err(),
        GenerationError::UnknownAuthor
    );
    assert_eq!(
        markovbot::generate(&reg, "bob", "zzz").unwrap_err(),
        GenerationError::UnknownHookWord
    );
    assert_eq!(
        markovbot::generate_reply(&reg, "nobody", "a").unwrap_err(),
        GenerationError::UnknownAuthor
    );
    assert_eq!(
        markovbot::generate_reply(&reg, "bob", "zzz").unwrap_err(),
        GenerationError::UnknownHookWord
    );
}

#[test]
fn lookup_is_case_insensitive() {
    let reg = abc_registry();
    let chain = markovbot::generate(&reg, "BOB", "A").unwrap();
    assert_eq!(chain[0], "a");
}

#[test]
fn degenerate_hook_exhausts_retries() {
    let reg = ModelRegistry::train_records(vec![rec("y", &["a"])]);
    for _ in 0..10 {
        let chain = markovbot::generate(&reg, "y", "a").unwrap();
        assert_eq!(chain, vec![s("a")]);
    }
    assert_eq!(
        markovbot::generate_reply(&reg, "y", "a").unwrap_err(),
        GenerationError::InsufficientLength
    );
}

#[test]
fn long_enough_walks_are_accepted_and_joined() {
    let reg = ModelRegistry::train_records(vec![rec("bob", &["a", "b", "c", "d", "e"])]);
    let reply = markovbot::generate_reply(&reg, "bob", "a").unwrap();
    assert_eq!(reply, "a b c d e");
}

#[test]
fn too_short_from_structure_never_succeeds() {
    let reg = ModelRegistry::train_records(vec![rec("y", &["a", "b"])]);
    assert_eq!(
        markovbot::generate_reply(&reg, "y", "a").unwrap_err(),
        GenerationError::InsufficientLength
    );
}
