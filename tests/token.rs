use pattern_expand::{
    parse_alphabetic_radix, to_alphabetic_radix, RangeError, Token, TokenIter,
};

fn values(t: &Token) -> Vec<String> {
    let mut it = t.iter();
    let mut out = Vec::new();
    while let Some(s) = it.next() {
        out.push(s);
    }
    out
}

#[test]
fn test_token_iter() -> Result<(), RangeError> {
    let cases = vec![
        (
            "plain",
            Token::new_plain("Hello, World"),
            vec!["Hello, World"],
        ),
        (
            "set",
            Token::new_set(vec!["a", "b", "c", "d", "e"]),
            vec!["a", "b", "c", "d", "e"],
        ),
        (
            "number range",
            Token::new_num_range(1, 3, 0),
            vec!["1", "2", "3"],
        ),
        (
            "number range with padding",
            Token::new_num_range(1, 3, 3),
            vec!["001", "002", "003"],
        ),
        (
            "single letter range",
            Token::new_str_range("a", "c")?,
            vec!["a", "b", "c"],
        ),
        (
            "multi letters range",
            Token::new_str_range("y", "af")?,
            vec!["y", "z", "aa", "ab", "ac", "ad", "ae", "af"],
        ),
        (
            "multi uppercase letters range",
            Token::new_str_range("WZ", "XF")?,
            vec!["WZ", "XA", "XB", "XC", "XD", "XE", "XF"],
        ),
    ];

    for (name, input, expected) in cases {
        let actual = values(&input);

        assert_eq!(actual, expected, "case {name}")
    }

    Ok(())
}

#[test]
fn token_iter_new_matches_iter() {
    let t = Token::new_set(vec!["x", "y"]);
    let mut it = TokenIter::new(&t);
    assert_eq!(it.next(), Some("x".to_string()));
    assert_eq!(it.next(), Some("y".to_string()));
    assert_eq!(it.next(), None);
    assert_eq!(it.next(), None);
}

#[test]
fn empty_tokens_have_no_values() {
    assert!(values(&Token::new_set(vec![])).is_empty());
    assert!(values(&Token::new_num_range(5, 3, 0)).is_empty());
}

#[test]
fn range_at_the_top_of_usize() {
    let t = Token::new_num_range(usize::MAX - 1, usize::MAX, 0);
    assert_eq!(
        values(&t),
        vec![(usize::MAX - 1).to_string(), usize::MAX.to_string()]
    );
}

#[test]
fn str_range_errors() {
    assert_eq!(Token::new_str_range("", "b"), Err(RangeError::EmptyStart));
    assert_eq!(Token::new_str_range("", ""), Err(RangeError::EmptyStart));
    assert_eq!(Token::new_str_range("a", ""), Err(RangeError::EmptyEnd));
    assert_eq!(Token::new_str_range("a", "B"), Err(RangeError::MixedCase));
    assert_eq!(Token::new_str_range("aB", "c"), Err(RangeError::BadChar('B', 'a', 'z')));
    assert_eq!(
        Token::new_str_range("a", "zzzzzzzzzzzzzzzzzzzz"),
        Err(RangeError::TooLarge)
    );
    assert_eq!(
        Token::new_str_range("ay", "bc"),
        Ok(Token::StrRange(51, 55, false))
    );
}

#[test]
fn alphabetic_numerals() {
    assert_eq!(to_alphabetic_radix(1, false), "a");
    assert_eq!(to_alphabetic_radix(26, true), "Z");
    assert_eq!(to_alphabetic_radix(27, false), "aa");
    assert_eq!(to_alphabetic_radix(702, true), "ZZ");
    assert_eq!(to_alphabetic_radix(703, true), "AAA");
    assert_eq!(to_alphabetic_radix(0, true), "");
    assert_eq!(parse_alphabetic_radix("bc", false), Ok(55));
    assert_eq!(parse_alphabetic_radix("AAA", true), Ok(703));
    assert_eq!(parse_alphabetic_radix("Ab", true), Err(RangeError::BadChar('b', 'A', 'Z')));
}

#[test]
fn alphabetic_round_trip() {
    for n in 1..=10000usize {
        for upper in [false, true] {
            let s = to_alphabetic_radix(n, upper);
            assert_eq!(parse_alphabetic_radix(&s, upper), Ok(n), "n = {n}");
        }
    }
    let s = to_alphabetic_radix(usize::MAX, false);
    assert_eq!(parse_alphabetic_radix(&s, false), Ok(usize::MAX));
}

#[test]
fn range_error_messages() {
    assert_eq!(RangeError::EmptyStart.to_string(), "range start cannot be empty");
    assert_eq!(RangeError::EmptyEnd.to_string(), "range end cannot be empty");
    assert_eq!(
        Token::new_str_range("a1", "b").unwrap_err().to_string(),
        "char '1' not in range 'a-z'"
    );
    assert_eq!(
        Token::new_str_range("A", "BÉ").unwrap_err().to_string(),
        "char 'É' not in range 'A-Z'"
    );
}
