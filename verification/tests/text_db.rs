use message_gen::TextDB;
use message_gen::TextTokenizer;
use message_gen::Token;

fn word(s: &str) -> Token {
    Token::Word(s.to_string())
}

fn space() -> Token {
    Token::Whitespace(" ".to_string())
}

#[test]
fn tokens_come_from_the_corpus() {
    let db = TextDB::new("ab cd".to_string(), 1);
    assert_eq!(db.get_tokens(), vec![word("ab"), space(), word("cd")]);
    assert_eq!(db.context_size(), 1);
}

#[test]
fn update_appends_and_retokenizes() {
    let mut db = TextDB::new("ab".to_string(), 1);
    db.update(" cd", 2);
    assert_eq!(db.get_tokens(), vec![word("ab"), space(), word("cd")]);
    assert_eq!(db.context_size(), 2);
}

#[test]
fn map_keys_are_full_windows() {
    // corpus tokens: the, " ", cat, " ", sat — three windows of two tokens
    // have a successor.
    let db = TextDB::new("the cat sat".to_string(), 2);
    let map = db.get_context_map();
    assert_eq!(map.num_keys(), 3);
    let key = TextTokenizer::new("the ").tokenize();
    assert_eq!(map.get(&key), Some(&vec![word("cat")]));
    let key = TextTokenizer::new(" cat").tokenize();
    assert_eq!(map.get(&key), Some(&vec![space()]));
    let key = TextTokenizer::new("cat ").tokenize();
    assert_eq!(map.get(&key), Some(&vec![word("sat")]));
}

#[test]
fn repeated_windows_collect_all_successors() {
    // Token-level windows of size 2: the window [cat, " "] occurs twice,
    // once followed by "sat" and once by "ran", each with multiplicity 1.
    let db = TextDB::new("the cat sat the cat ran".to_string(), 2);
    let map = db.get_context_map();
    let key = TextTokenizer::new("cat ").tokenize();
    assert_eq!(map.get(&key), Some(&vec![word("sat"), word("ran")]));
    let key = TextTokenizer::new("the ").tokenize();
    assert_eq!(map.get(&key), Some(&vec![word("cat"), word("cat")]));
}

#[test]
fn short_corpus_gives_empty_map() {
    let db = TextDB::new("a b".to_string(), 8);
    let map = db.get_context_map();
    assert_eq!(map.num_keys(), 0);
    let key = TextTokenizer::new("a").tokenize();
    assert_eq!(map.get(&key), None);
}

#[test]
fn unknown_window_is_absent() {
    let db = TextDB::new("the cat sat".to_string(), 2);
    let map = db.get_context_map();
    let key = TextTokenizer::new("sat ").tokenize();
    assert_eq!(map.get(&key), None);
}

const CEILING: usize = 524288;

#[test]
fn oversized_corpus_is_cut_at_whitespace() {
    // Length exceeds the ceiling by 23; the first whitespace at or after
    // the overflow point starts the kept text.
    let mut text = String::new();
    text.push_str(&"b".repeat(10));
    text.push_str(&"a".repeat(CEILING - 8));
    text.push(' ');
    text.push_str(&"c".repeat(20));
    let db = TextDB::new(text, 1);
    assert_eq!(
        db.get_tokens(),
        vec![space(), Token::Word("c".repeat(20))]
    );
}

#[test]
fn oversized_corpus_without_whitespace_is_cut_exactly() {
    let mut text = "x".repeat(10);
    text.push_str(&"a".repeat(CEILING));
    let db = TextDB::new(text, 1);
    let tokens = db.get_tokens();
    assert_eq!(tokens.len(), 1);
    assert_eq!(tokens[0].to_string().len(), CEILING);
    assert_eq!(tokens[0], Token::Word("a".repeat(CEILING)));
}

#[test]
fn update_keeps_corpus_within_ceiling() {
    let mut db = TextDB::new("a".to_string(), 1);
    db.update(&"b".repeat(CEILING + 100), 1);
    let tokens = db.get_tokens();
    assert_eq!(tokens.len(), 1);
    assert_eq!(tokens[0], Token::Word("b".repeat(CEILING)));
}

#[test]
fn every_key_has_context_size_tokens() {
    let db = TextDB::new("one two three four five".to_string(), 2);
    let map = db.get_context_map();
    assert!(map.num_keys() > 0);
    for i in 0..map.num_keys() {
        assert_eq!(map.key_at(i).len(), 2);
    }
}
