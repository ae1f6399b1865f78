use message_gen::MessageGenError;
use message_gen::MessageGenerator;
use message_gen::TextDB;

#[test]
fn empty_corpus_generates_empty_message() {
    let gen = MessageGenerator::from_string("".to_string(), 2, 10);
    assert_eq!(gen.next_message(), "");
}

#[test]
fn short_corpus_generates_empty_message() {
    // Two tokens cannot fill a window of eight, so the map is empty.
    let gen = MessageGenerator::from_string("a b".to_string(), 8, 10);
    assert_eq!(gen.next_message(), "");
}

#[test]
fn singleton_map_is_deterministic() {
    // Tokens: [Word("ab"), Punctuation('.')]; the single window [ab] has
    // the single successor '.', and the slid window ['.'] is a dead end,
    // so every walk is exactly "ab.".
    let gen = MessageGenerator::from_string("ab.".to_string(), 1, 5);
    for _ in 0..20 {
        assert_eq!(gen.next_message(), "ab.");
    }
}

#[test]
fn singleton_self_loop_runs_to_length() {
    // Tokens: [Symbol('%'), Symbol('%')]; the single window [%] maps to
    // [%] and sliding it yields itself, so the walk reaches the target
    // length of five tokens.
    let gen = MessageGenerator::from_string("%%".to_string(), 1, 5);
    for _ in 0..20 {
        assert_eq!(gen.next_message(), "%%%%%");
    }
}

#[test]
fn walks_are_substrings_of_the_corpus() {
    // Every successor extends an observed window, and this corpus has no
    // repeated window, so each message is a contiguous piece of it.
    let corpus = "the cat sat on a mat";
    let gen = MessageGenerator::from_string(corpus.to_string(), 2, 5);
    for _ in 0..20 {
        let msg = gen.next_message();
        assert!(!msg.is_empty());
        assert!(corpus.contains(&msg));
    }
}

#[test]
fn message_len_below_window_emits_one_window() {
    let corpus = "a b c d e";
    let gen = MessageGenerator::from_string(corpus.to_string(), 3, 1);
    for _ in 0..20 {
        let msg = gen.next_message();
        // three tokens, e.g. "a b" or " b ": always a piece of the corpus
        assert!(corpus.contains(&msg));
        assert!(msg.chars().count() == 3);
    }
}

#[test]
fn update_feeds_new_text() {
    let mut gen = MessageGenerator::from_string("".to_string(), 1, 4);
    assert_eq!(gen.next_message(), "");
    gen.update("%%", None, None);
    assert_eq!(gen.next_message(), "%%%%");
}

#[test]
fn update_can_change_sizes() {
    let mut gen = MessageGenerator::from_string("%%".to_string(), 1, 5);
    gen.update("", None, Some(3));
    assert_eq!(gen.next_message(), "%%%");
}

#[test]
fn generator_over_existing_database() {
    let db = TextDB::new("%%".to_string(), 1);
    let gen = MessageGenerator::new(db, 1, 4);
    assert_eq!(gen.next_message(), "%%%%");
}

#[test]
fn error_kinds_carry_their_message() {
    let e = MessageGenError::DatabaseError("no such file".to_string());
    assert!(matches!(e, MessageGenError::DatabaseError(ref m) if m == "no such file"));
    let e = MessageGenError::TokenizationError("never raised".to_string());
    assert!(matches!(e, MessageGenError::TokenizationError(_)));
}
