use message_gen::TextTokenizer;
use message_gen::Token;

fn tokens_of(text: &str) -> Vec<Token> {
    TextTokenizer::new(text).tokenize()
}

fn rendered(text: &str) -> String {
    tokens_of(text)
        .iter()
        .map(|t| t.to_string())
        .collect::<String>()
}

#[test]
fn tokenize_empty() {
    assert_eq!(tokens_of(""), vec![]);
}

#[test]
fn tokenize_number_then_word() {
    assert_eq!(
        tokens_of("12a"),
        vec![
            Token::Number("12".to_string()),
            Token::Word("a".to_string())
        ]
    );
}

#[test]
fn tokenize_words_whitespace_punctuation() {
    assert_eq!(
        tokens_of("ab, cd!"),
        vec![
            Token::Word("ab".to_string()),
            Token::Punctuation(','),
            Token::Whitespace(" ".to_string()),
            Token::Word("cd".to_string()),
            Token::Punctuation('!'),
        ]
    );
}

#[test]
fn tokenize_word_then_number() {
    assert_eq!(
        tokens_of("a12"),
        vec![
            Token::Word("a".to_string()),
            Token::Number("12".to_string())
        ]
    );
}

#[test]
fn word_continuation_characters() {
    assert_eq!(
        tokens_of("don't-stop_Now"),
        vec![Token::Word("don't-stop_Now".to_string())]
    );
}

#[test]
fn whitespace_runs_are_one_token() {
    assert_eq!(
        tokens_of("a \t\r\n b"),
        vec![
            Token::Word("a".to_string()),
            Token::Whitespace(" \t\r\n ".to_string()),
            Token::Word("b".to_string()),
        ]
    );
}

#[test]
fn punctuation_never_merges() {
    assert_eq!(
        tokens_of("!?.,;:"),
        vec![
            Token::Punctuation('!'),
            Token::Punctuation('?'),
            Token::Punctuation('.'),
            Token::Punctuation(','),
            Token::Punctuation(';'),
            Token::Punctuation(':'),
        ]
    );
}

#[test]
fn non_ascii_letters_are_symbols() {
    assert_eq!(
        tokens_of("caf\u{e9}"),
        vec![Token::Word("caf".to_string()), Token::Symbol('\u{e9}')]
    );
}

#[test]
fn other_symbols_stand_alone() {
    assert_eq!(
        tokens_of("a+b"),
        vec![
            Token::Word("a".to_string()),
            Token::Symbol('+'),
            Token::Word("b".to_string()),
        ]
    );
}

#[test]
fn token_to_string_per_variant() {
    assert_eq!(Token::Word("hey".to_string()).to_string(), "hey");
    assert_eq!(Token::Number("42".to_string()).to_string(), "42");
    assert_eq!(Token::Symbol('%').to_string(), "%");
    assert_eq!(Token::Punctuation('!').to_string(), "!");
    assert_eq!(Token::Whitespace("\t ".to_string()).to_string(), "\t ");
}

#[test]
fn round_trip_plain_sentence() {
    let s = "The quick brown fox, version 2, jumps!\r\n  Over 10 lazy dogs; really?";
    assert_eq!(rendered(s), s);
}

#[test]
fn round_trip_mixed_unicode_and_digits() {
    let s = "a1b2 \u{e9}\u{4e16}\u{754c} 3,14: x_y-z' \t!!";
    assert_eq!(rendered(s), s);
}

#[test]
fn round_trip_only_whitespace() {
    let s = " \n\t\r ";
    assert_eq!(rendered(s), s);
}
