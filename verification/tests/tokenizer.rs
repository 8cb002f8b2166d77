use markovbot::LogMessage;
use markovbot::ProcessedMessage;

fn process(user: &str, msg: &str) -> ProcessedMessage {
    ProcessedMessage::from(LogMessage {
        user: user.to_string(),
        msg: msg.to_string(),
    })
}

#[test]
fn author_is_lowercased() {
    let p = process("Bob", "Hello World");
    assert_eq!(p.user, "bob");
    assert_eq!(p.words, vec!["hello".to_string(), "world".to_string()]);
}

#[test]
fn author_is_cut_at_brackets() {
    assert_eq!(process("Bob[away]", "hi").user, "bob");
    assert_eq!(process("Ann(work)", "hi").user, "ann");
    assert_eq!(process("Joe{1}", "hi").user, "joe");
}

#[test]
fn url_words_are_dropped() {
    let p = process("bob", "see https://example.example now");
    assert_eq!(p.words, vec!["see".to_string(), "now".to_string()]);
}

#[test]
fn noise_characters_are_filtered() {
    let p = process("bob", "ok... !!! don't stop");
    assert_eq!(
        p.words,
        vec!["ok".to_string(), "don't".to_string(), "stop".to_string()]
    );
}

#[test]
fn empty_message_yields_no_words() {
    let p = process("bob", "   ");
    assert!(p.words.is_empty());
}

#[test]
fn processed_records_feed_training_end_to_end() {
    let records = vec![
        process("Bob[home]", "Hello there friend"),
        process("BOB", "hello again"),
    ];
    let reg = markovbot::ModelRegistry::train_records(records);
    assert!(reg.knows_author(&"bob".to_string()));
    assert_eq!(
        reg.author_begin_count(&"bob".to_string(), &"hello".to_string()),
        2
    );
    assert_eq!(
        reg.author_trans_count(&"bob".to_string(), &"hello".to_string(), &"there".to_string()),
        1
    );
    let chain = markovbot::generate(&reg, "bob", "hello").unwrap();
    assert_eq!(chain[0], "hello");
}
