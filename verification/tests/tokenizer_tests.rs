use dining_philosophers::tokenizer::{Token, TokenError, Tokenizer};

fn assert_tokens(tokenizer: &mut Tokenizer, tokens: &[Token]) {
    for token in tokens {
        assert_eq!(tokenizer.next_token(), Some(token.clone()));
    }
    assert_eq!(tokenizer.next_token(), None);
}

#[test]
fn test_tokenizer_creation() {
    let input = "Hello, world!";
    let tokenizer = Tokenizer::new(input);
    assert_eq!(tokenizer.input, input.chars().collect::<Vec<char>>());
    assert_eq!(tokenizer.position, 0);
}

#[test]
fn test_peek_char() {
    let mut tokenizer = Tokenizer::new("abc");
    assert_eq!(tokenizer.peek_char(), Some('a'));
    tokenizer.position += 1;
    assert_eq!(tokenizer.peek_char(), Some('b'));
    tokenizer.position += 1;
    assert_eq!(tokenizer.peek_char(), Some('c'));
    tokenizer.position += 1;
    assert_eq!(tokenizer.peek_char(), None);
}

#[test]
fn test_peek_next_char() {
    let mut tokenizer = Tokenizer::new("abc");
    assert_eq!(tokenizer.peek_next_char(), Some('b'));
    tokenizer.position += 1;
    assert_eq!(tokenizer.peek_next_char(), Some('c'));
    tokenizer.position += 1;
    assert_eq!(tokenizer.peek_next_char(), None);
}

#[test]
fn test_simple_tokenization() {
    let mut tokenizer = Tokenizer::new("Hello, World!");
    assert_eq!(0, tokenizer.position);
    assert_tokens(
        &mut tokenizer,
        &[
            Token::Word("Hello".to_string()),
            Token::Punctuation(','),
            Token::Whitespace,
            Token::Word("World".to_string()),
            Token::Punctuation('!'),
        ],
    );
    assert_eq!(13, tokenizer.position);
}

#[test]
fn test_tokenize_word_with_apostrophe() {
    let mut tokenizer = Tokenizer::new_joining_apostrophes("It's a friggin' 'test' that would've passed.");
    assert_tokens(
        &mut tokenizer,
        &[
            Token::Word("It's".to_string()),
            Token::Whitespace,
            Token::Word("a".to_string()),
            Token::Whitespace,
            Token::Word("friggin".to_string()),
            Token::Punctuation('\''),
            Token::Whitespace,
            Token::Punctuation('\''),
            Token::Word("test".to_string()),
            Token::Punctuation('\''),
            Token::Whitespace,
            Token::Word("that".to_string()),
            Token::Whitespace,
            Token::Word("would've".to_string()),
            Token::Whitespace,
            Token::Word("passed".to_string()),
            Token::Punctuation('.'),
        ],
    );
}

#[test]
fn tokenizer_test_tokenize_word_with_apostrophe() {
    let mut tokenizer = Tokenizer::new("It's a friggin' 'test' that would've passed.");
    assert_tokens(
        &mut tokenizer,
        &[
            Token::Word("It".to_string()),
            Token::Punctuation('\''),
            Token::Word("s".to_string()),
            Token::Whitespace,
            Token::Word("a".to_string()),
            Token::Whitespace,
            Token::Word("friggin".to_string()),
            Token::Punctuation('\''),
            Token::Whitespace,
            Token::Punctuation('\''),
            Token::Word("test".to_string()),
            Token::Punctuation('\''),
            Token::Whitespace,
            Token::Word("that".to_string()),
            Token::Whitespace,
            Token::Word("would".to_string()),
            Token::Punctuation('\''),
            Token::Word("ve".to_string()),
            Token::Whitespace,
            Token::Word("passed".to_string()),
            Token::Punctuation('.'),
        ],
    );
}

#[test]
fn test_number_token_value() {
    let mut tokenizer = Tokenizer::new("13 apples");
    assert_eq!(tokenizer.next_token(), Some(Token::Number(13)));
    assert_eq!(tokenizer.next_token(), Some(Token::Whitespace));
    assert_eq!(tokenizer.next_token(), Some(Token::Word("apples".to_string())));
}

#[test]
fn test_number_with_leading_zeros() {
    let mut tokenizer = Tokenizer::new("007");
    assert_eq!(tokenizer.next_token(), Some(Token::Number(7)));
    assert_eq!(tokenizer.next_token(), None);
}

#[test]
fn test_empty_input() {
    let mut tokenizer = Tokenizer::new("");
    assert_eq!(tokenizer.next_token(), None);
    assert_eq!(tokenizer.peek_char(), None);
}

#[test]
fn test_try_next_token_reports_oversized_number() {
    let mut tokenizer = Tokenizer::new("99999999999999999999");
    assert_eq!(tokenizer.try_next_token(), Err(TokenError::UnparsableNumber));
    assert_eq!(tokenizer.position, 0);
}

#[test]
fn test_try_next_token_reports_non_ascii_digits() {
    // Arabic-Indic digits are numeric but not ASCII, so no number token fits.
    let mut tokenizer = Tokenizer::new("٣٤");
    assert_eq!(tokenizer.try_next_token(), Err(TokenError::UnparsableNumber));
}

#[test]
fn test_try_next_token_accepts_largest_number() {
    let mut tokenizer = Tokenizer::new("9223372036854775807");
    assert_eq!(tokenizer.try_next_token(), Ok(Some(Token::Number(i64::MAX))));
}

#[test]
fn test_unicode_word_and_whitespace() {
    let mut tokenizer = Tokenizer::new("für\u{00A0}dich");
    assert_eq!(tokenizer.next_token(), Some(Token::Word("für".to_string())));
    // A no-break space has the White_Space property.
    assert_eq!(tokenizer.next_token(), Some(Token::Whitespace));
    assert_eq!(tokenizer.next_token(), Some(Token::Word("dich".to_string())));
    assert_eq!(tokenizer.next_token(), None);
}
