use jsonparse::text::{char_is_digit, char_is_number_char, char_is_whitespace};
use jsonparse::{Token, Tokenizer, Value};

fn all_tokens(text: &str) -> Vec<Token> {
    let mut tokenizer = Tokenizer::new(text);
    let mut found = Vec::new();
    while let Some(token) = tokenizer.next_token() {
        found.push(token);
    }
    found
}

#[test]
fn punctuation_gives_one_token_each() {
    let found = all_tokens("{}[],:");
    assert_eq!(found.len(), 6);
    assert!(matches!(found[0], Token::CurlyBracketOpen));
    assert!(matches!(found[1], Token::CurlyBracketClose));
    assert!(matches!(found[2], Token::BracketOpen));
    assert!(matches!(found[3], Token::BracketClose));
    assert!(matches!(found[4], Token::Comma));
    assert!(matches!(found[5], Token::Colon));
}

#[test]
fn literals_give_value_tokens() {
    let found = all_tokens(r#"true false null 17 2.5 "s""#);
    assert_eq!(found.len(), 6);
    assert!(matches!(&found[0], Token::Value(v) if *v == Value::Bool(true)));
    assert!(matches!(&found[1], Token::Value(v) if *v == Value::Bool(false)));
    assert!(matches!(&found[2], Token::Value(v) if *v == Value::Null));
    assert!(matches!(&found[3], Token::Value(v) if *v == Value::Int(17)));
    assert!(matches!(&found[4], Token::Value(v) if *v == Value::Float("2.5".to_string())));
    assert!(matches!(&found[5], Token::Value(v) if *v == Value::JsonString("s".to_string())));
}

#[test]
fn tokens_need_no_whitespace_between_them() {
    let found = all_tokens(r#"{"a":[1,true]}"#);
    assert_eq!(found.len(), 9);
    assert!(matches!(found[0], Token::CurlyBracketOpen));
    assert!(matches!(&found[1], Token::Value(v) if *v == Value::JsonString("a".to_string())));
    assert!(matches!(found[2], Token::Colon));
    assert!(matches!(found[3], Token::BracketOpen));
    assert!(matches!(&found[4], Token::Value(v) if *v == Value::Int(1)));
    assert!(matches!(found[5], Token::Comma));
    assert!(matches!(&found[6], Token::Value(v) if *v == Value::Bool(true)));
    assert!(matches!(found[7], Token::BracketClose));
    assert!(matches!(found[8], Token::CurlyBracketClose));
}

#[test]
fn literal_words_may_touch_what_follows() {
    let found = all_tokens("truefalse1null");
    assert_eq!(found.len(), 4);
    assert!(matches!(&found[0], Token::Value(v) if *v == Value::Bool(true)));
    assert!(matches!(&found[1], Token::Value(v) if *v == Value::Bool(false)));
    assert!(matches!(&found[2], Token::Value(v) if *v == Value::Int(1)));
    assert!(matches!(&found[3], Token::Value(v) if *v == Value::Null));
}

#[test]
fn end_of_text_gives_no_token() {
    let mut tokenizer = Tokenizer::new("  ");
    assert!(tokenizer.next_token().is_none());
    assert!(tokenizer.next_token().is_none());
    let mut empty = Tokenizer::new("");
    assert!(empty.next_token().is_none());
}

#[test]
fn no_token_comes_after_a_failure() {
    let mut tokenizer = Tokenizer::new("1 @ 2");
    assert!(matches!(tokenizer.next_token(), Some(Token::Value(v)) if v == Value::Int(1)));
    assert!(tokenizer.next_token().is_none());
    assert!(tokenizer.next_token().is_none());

    let mut misspelt = Tokenizer::new("trux 2");
    assert!(misspelt.next_token().is_none());
    assert!(misspelt.next_token().is_none());

    let mut dotted = Tokenizer::new("1.2.3 4");
    assert!(dotted.next_token().is_none());
    assert!(dotted.next_token().is_none());
}

#[test]
fn string_token_ends_at_the_first_bare_quote() {
    let found = all_tokens(r#""a\"b"1"#);
    assert_eq!(found.len(), 2);
    assert!(matches!(&found[0], Token::Value(v) if *v == Value::JsonString("a\"b".to_string())));
    assert!(matches!(&found[1], Token::Value(v) if *v == Value::Int(1)));
}

#[test]
fn string_token_keeps_characters_outside_ascii() {
    let found = all_tokens("\"h\u{e9}llo \u{1f600}\"");
    assert_eq!(found.len(), 1);
    assert!(
        matches!(&found[0], Token::Value(v) if *v == Value::JsonString("h\u{e9}llo \u{1f600}".to_string()))
    );
}

#[test]
fn whitespace_is_what_the_standard_library_calls_whitespace() {
    for code in 0..=0x10FFFFu32 {
        if let Some(c) = char::from_u32(code) {
            assert_eq!(char_is_whitespace(c), c.is_whitespace(), "code point {:x}", code);
        }
    }
}

#[test]
fn digits_are_the_ten_ascii_digits() {
    for code in 0..=0x10FFFFu32 {
        if let Some(c) = char::from_u32(code) {
            assert_eq!(char_is_digit(c), c.is_ascii_digit(), "code point {:x}", code);
            assert_eq!(char_is_number_char(c), c.is_ascii_digit() || c == '.');
        }
    }
}

fn runs(alphabet: &[char], longest: usize) -> Vec<String> {
    let mut all = Vec::new();
    let mut last: Vec<String> = vec![String::new()];
    for _ in 0..longest {
        let mut next = Vec::new();
        for prefix in &last {
            for c in alphabet {
                let mut run = prefix.clone();
                run.push(*c);
                next.push(run);
            }
        }
        all.extend(next.iter().cloned());
        last = next;
    }
    all
}

#[test]
fn numbers_are_classed_as_the_standard_library_parses_them() {
    let mut candidates = runs(&['0', '1', '9', '.'], 6);
    for digits in 8..12 {
        candidates.push("2".repeat(digits));
        candidates.push("9".repeat(digits));
        candidates.push(format!("{}.5", "4".repeat(digits)));
    }
    candidates.push("2147483647".to_string());
    candidates.push("2147483648".to_string());
    candidates.push("4294967296".to_string());
    candidates.push("9".repeat(400));
    for run in candidates {
        if !run.starts_with(|c: char| c.is_ascii_digit()) {
            continue;
        }
        let mut tokenizer = Tokenizer::new(&run);
        let found = tokenizer.next_token();
        match (run.parse::<i32>(), run.parse::<f32>()) {
            (Ok(i), _) => {
                assert!(matches!(&found, Some(Token::Value(v)) if *v == Value::Int(i)), "{}", run)
            }
            (Err(_), Ok(_)) => assert!(
                matches!(&found, Some(Token::Value(v)) if *v == Value::Float(run.clone())),
                "{}",
                run
            ),
            (Err(_), Err(_)) => assert!(found.is_none(), "{}", run),
        }
        assert!(tokenizer.next_token().is_none());
    }
}
