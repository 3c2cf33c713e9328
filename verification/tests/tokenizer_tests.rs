use tinylisp::tokenizer::{into_number, is_atomic_char, Token, Tokenizer};

fn all_tokens(text: &str) -> Vec<Token> {
    let mut t = Tokenizer::new(text);
    let mut out = Vec::new();
    while let Some(tok) = t.next() {
        out.push(tok);
    }
    out
}

fn describe(tokens: &[Token]) -> Vec<String> {
    tokens
        .iter()
        .map(|t| match t {
            Token::LBrace => "(".to_string(),
            Token::RBrace => ")".to_string(),
            Token::Number(n) => format!("#{}", n),
            Token::Atomic(s) => format!("a:{}", s),
            Token::Error => "!".to_string(),
        })
        .collect()
}

#[test]
fn tokenizes_a_call() {
    assert_eq!(
        describe(&all_tokens("(+ 1 22)")),
        vec!["(", "a:+", "#1", "#22", ")"]
    );
}

#[test]
fn whitespace_separates_and_is_skipped() {
    assert_eq!(
        describe(&all_tokens("  (define\tx \n 5)  ")),
        vec!["(", "a:define", "a:x", "#5", ")"]
    );
    assert!(all_tokens("   \n\t ").is_empty());
    assert!(all_tokens("").is_empty());
}

#[test]
fn digits_followed_by_atom_characters_are_an_error() {
    assert_eq!(describe(&all_tokens("12abc x")), vec!["!", "a:x"]);
}

#[test]
fn number_then_bracket() {
    assert_eq!(describe(&all_tokens("(7)")), vec!["(", "#7", ")"]);
    assert_eq!(describe(&all_tokens("007")), vec!["#7"]);
}

#[test]
fn number_out_of_range_is_an_error() {
    assert_eq!(
        describe(&all_tokens("99999999999999999999999")),
        vec!["!"]
    );
}

#[test]
fn sign_starts_an_atom() {
    assert_eq!(describe(&all_tokens("-5 +x")), vec!["a:-5", "a:+x"]);
}

#[test]
fn quote_mark_is_part_of_an_atom() {
    assert_eq!(describe(&all_tokens("'x ' y")), vec!["a:'x", "a:'", "a:y"]);
}

#[test]
fn atomic_characters() {
    assert!(is_atomic_char('a'));
    assert!(is_atomic_char('\''));
    assert!(!is_atomic_char('('));
    assert!(!is_atomic_char(')'));
    assert!(!is_atomic_char(' '));
    assert!(!is_atomic_char('\n'));
}

#[test]
fn into_number_reads_decimal_or_fails() {
    assert!(matches!(into_number("42".to_string()), Token::Number(42)));
    assert!(matches!(into_number("4x".to_string()), Token::Error));
    assert!(matches!(into_number("".to_string()), Token::Error));
}

#[test]
fn white_space_only_gives_no_token_and_stays_done() {
    let mut t = Tokenizer::new(" \t\n\u{3000}\u{2028}");
    assert!(t.next().is_none());
    assert!(t.next().is_none());
    let mut t = Tokenizer::new("  x ");
    assert!(t.next().is_some());
    assert!(t.next().is_none());
    assert!(t.next().is_none());
}

#[test]
fn editing_white_space_keeps_the_tokens() {
    let a = describe(&all_tokens("(define x (+ 1 2))"));
    let b = describe(&all_tokens("  ( define\t\tx\n(+\u{00A0}1 2 ) )  "));
    let c = describe(&all_tokens("(define x(+ 1 2))"));
    assert_eq!(a, b);
    assert_eq!(a, c);
    assert_eq!(a, vec!["(", "a:define", "a:x", "(", "a:+", "#1", "#2", ")", ")"]);
}

#[test]
fn no_more_tokens_than_characters() {
    let text = "(()1 a)";
    assert!(all_tokens(text).len() <= text.chars().count());
}
