use pattern_expand::{Pattern, RangeError, SyntaxError, Token};

fn expand(p: &Pattern) -> Vec<String> {
    let mut walk = p.iter();
    let mut out = Vec::new();
    while let Some(s) = walk.next() {
        out.push(s);
    }
    out
}

#[test]
fn test_parse() -> Result<(), SyntaxError> {
    let cases = vec![
        (
            "normal",
            "Hello, World!",
            vec![Token::new_plain("Hello, World!")],
        ),
        (
            "one set",
            "https://example.com/{a,b,c}/file",
            vec![
                Token::new_plain("https://example.com/"),
                Token::new_set(vec!["a", "b", "c"]),
                Token::new_plain("/file"),
            ],
        ),
        (
            "two set",
            "https://example.com/{a,b,c}/file/{x,y,z}",
            vec![
                Token::new_plain("https://example.com/"),
                Token::new_set(vec!["a", "b", "c"]),
                Token::new_plain("/file/"),
                Token::new_set(vec!["x", "y", "z"]),
            ],
        ),
        (
            "two set with spaces",
            "https://example.com/{a, b , c }/file/{foo bar, 你好, fizzbuzz, 世界}",
            vec![
                Token::new_plain("https://example.com/"),
                Token::new_set(vec!["a", "b", "c"]),
                Token::new_plain("/file/"),
                Token::new_set(vec!["foo bar", "你好", "fizzbuzz", "世界"]),
            ],
        ),
        (
            "one number range",
            "https://example.com/[080-120]/file",
            vec![
                Token::new_plain("https://example.com/"),
                Token::new_num_range(80, 120, 3),
                Token::new_plain("/file"),
            ],
        ),
    ];

    for (name, input, expected) in cases {
        let p = Pattern::parse(input)?;

        assert_eq!(p.as_str(), input, "case {name}");
        assert_eq!(p.tokens(), &expected[..], "case {name}");
    }

    Ok(())
}

#[test]
fn test_parse_error() {
    let cases = vec![
        (
            "bad pattern 1",
            "/{{a, b}",
            "unexpected character '{' at pos 2",
        ),
        (
            "bad pattern 2",
            "/{a}}",
            "unexpected character '}' at pos 4",
        ),
    ];

    for (name, input, expected) in cases {
        assert_eq!(
            Pattern::parse(input).unwrap_err().to_string(),
            expected,
            "case {name}"
        )
    }
}

#[test]
fn test_iter() -> Result<(), SyntaxError> {
    let cases = vec![
        ("normal", "Hello, World!", vec!["Hello, World!"]),
        (
            "one set",
            "https://example.com/{a,b,c}/file",
            vec![
                "https://example.com/a/file",
                "https://example.com/b/file",
                "https://example.com/c/file",
            ],
        ),
        (
            "two set",
            "https://example.com/{a,b,c}/file/{x,y,z}",
            vec![
                "https://example.com/a/file/x",
                "https://example.com/a/file/y",
                "https://example.com/a/file/z",
                "https://example.com/b/file/x",
                "https://example.com/b/file/y",
                "https://example.com/b/file/z",
                "https://example.com/c/file/x",
                "https://example.com/c/file/y",
                "https://example.com/c/file/z",
            ],
        ),
        (
            "one number range",
            "https://example.com/[1-3]/file",
            vec![
                "https://example.com/1/file",
                "https://example.com/2/file",
                "https://example.com/3/file",
            ],
        ),
        (
            "two number range with padding zero",
            "https://example.com/[1-2]/file/[099-101]",
            vec![
                "https://example.com/1/file/099",
                "https://example.com/1/file/100",
                "https://example.com/1/file/101",
                "https://example.com/2/file/099",
                "https://example.com/2/file/100",
                "https://example.com/2/file/101",
            ],
        ),
        (
            "single letter range",
            "https://example.com/[A-C]/file",
            vec![
                "https://example.com/A/file",
                "https://example.com/B/file",
                "https://example.com/C/file",
            ],
        ),
        (
            "multi letters range",
            "https://example.com/[ay-bc]/file",
            vec![
                "https://example.com/ay/file",
                "https://example.com/az/file",
                "https://example.com/ba/file",
                "https://example.com/bb/file",
                "https://example.com/bc/file",
            ],
        ),
    ];

    for (name, input, expected) in cases {
        let p = Pattern::parse(input)?;

        assert_eq!(expand(&p), expected, "case {name}");
    }

    Ok(())
}

#[test]
fn plain_text_expands_to_itself() {
    for input in ["", "a", "Hello, World!", "a-b,c d ", " x  ", "你好-世界"] {
        let p = Pattern::parse(input).unwrap();
        assert_eq!(expand(&p), vec![input.to_string()], "input {input:?}");
    }
}

#[test]
fn alternatives_are_trimmed_and_kept_in_order() {
    let p = Pattern::parse("{ b , a,  c }").unwrap();
    assert_eq!(p.tokens(), &[Token::new_set(vec!["b", "a", "c"])][..]);
    assert_eq!(expand(&p), vec!["b", "a", "c"]);
}

#[test]
fn empty_alternatives_stay() {
    let p = Pattern::parse("x{,a}y").unwrap();
    assert_eq!(expand(&p), vec!["xy", "xay"]);
    let p = Pattern::parse("{}").unwrap();
    assert_eq!(expand(&p), vec![""]);
}

#[test]
fn two_groups_give_row_major_product() {
    let p = Pattern::parse("{a,b}{x,y,z}").unwrap();
    assert_eq!(expand(&p), vec!["ax", "ay", "az", "bx", "by", "bz"]);
}

#[test]
fn numeric_range_is_zero_padded() {
    let p = Pattern::parse("[080-120]").unwrap();
    let expected: Vec<String> = (80..=120).map(|n| format!("{:03}", n)).collect();
    let got = expand(&p);
    assert_eq!(got.len(), 41);
    assert_eq!(got.first().map(String::as_str), Some("080"));
    assert_eq!(got.last().map(String::as_str), Some("120"));
    assert_eq!(got, expected);
}

#[test]
fn padding_follows_the_narrower_bound() {
    let p = Pattern::parse("[8-10]").unwrap();
    assert_eq!(p.tokens(), &[Token::new_num_range(8, 10, 1)][..]);
    assert_eq!(expand(&p), vec!["8", "9", "10"]);
    let p = Pattern::parse("[ 0008 - 010 ]").unwrap();
    assert_eq!(expand(&p), vec!["008", "009", "010"]);
}

#[test]
fn composed_numeric_ranges() {
    let p = Pattern::parse("[1-2]/[099-101]").unwrap();
    assert_eq!(
        expand(&p),
        vec!["1/099", "1/100", "1/101", "2/099", "2/100", "2/101"]
    );
}

#[test]
fn alphabetic_ranges() {
    let p = Pattern::parse("[A-C]").unwrap();
    assert_eq!(expand(&p), vec!["A", "B", "C"]);
    let p = Pattern::parse("[ay-bc]").unwrap();
    assert_eq!(expand(&p), vec!["ay", "az", "ba", "bb", "bc"]);
    let p = Pattern::parse("[z-ab]").unwrap();
    assert_eq!(expand(&p), vec!["z", "aa", "ab"]);
}

#[test]
fn mixed_case_range_is_rejected() {
    let e = Pattern::parse("[Az-b]").unwrap_err();
    assert_eq!(e, SyntaxError::InvalidRange(RangeError::MixedCase, 5));
    assert_eq!(
        e.to_string(),
        "invalid range before pos 5: mixed uppercase with lowercase in alphabetic range"
    );
}

#[test]
fn letter_with_digit_range_is_rejected() {
    let e = Pattern::parse("[a-9]").unwrap_err();
    assert_eq!(e, SyntaxError::InvalidRange(RangeError::MixedKinds, 4));
    assert_eq!(
        e.to_string(),
        "invalid range before pos 4: range bounds must both be letters or both be digits"
    );
}

#[test]
fn range_errors() {
    assert_eq!(
        Pattern::parse("[-3]").unwrap_err(),
        SyntaxError::InvalidRange(RangeError::EmptyStart, 3)
    );
    assert_eq!(
        Pattern::parse("x[]").unwrap_err(),
        SyntaxError::InvalidRange(RangeError::EmptyStart, 2)
    );
    let e = Pattern::parse("[a1-b]").unwrap_err();
    assert_eq!(e, SyntaxError::InvalidRange(RangeError::BadChar('1', 'a', 'z'), 5));
    assert_eq!(
        e.to_string(),
        "invalid range before pos 5: char '1' not in range 'a-z'"
    );
    assert_eq!(
        Pattern::parse("[1-2-3]").unwrap_err(),
        SyntaxError::InvalidRange(RangeError::BadChar('-', '0', '9'), 6)
    );
    let e = Pattern::parse("[1-99999999999999999999999]").unwrap_err();
    assert_eq!(e, SyntaxError::InvalidRange(RangeError::TooLarge, 26));
    assert_eq!(
        e.to_string(),
        "invalid range before pos 26: range bound is too large"
    );
    assert_eq!(
        Pattern::parse("[a- ]").unwrap_err(),
        SyntaxError::InvalidRange(RangeError::EmptyEnd, 4)
    );
    assert_eq!(
        Pattern::parse("[a,b]").unwrap_err(),
        SyntaxError::UnexpectedChar(',', 2)
    );
}

#[test]
fn unterminated_group_is_rejected() {
    let e = Pattern::parse("/{a,b").unwrap_err();
    assert_eq!(e, SyntaxError::Unterminated(5));
    assert_eq!(e.to_string(), "unterminated group at pos 5");
    assert_eq!(
        Pattern::parse("x[1-2").unwrap_err(),
        SyntaxError::Unterminated(5)
    );
}

#[test]
fn positions_count_bytes() {
    let e = Pattern::parse("你{}}").unwrap_err();
    assert_eq!(e, SyntaxError::UnexpectedChar('}', 5));
    assert_eq!(e.to_string(), "unexpected character '}' at pos 5");
}

#[test]
fn reversed_range_is_empty() {
    let p = Pattern::parse("[5-3]").unwrap();
    assert!(expand(&p).is_empty());
    let p = Pattern::parse("a{x,y}[c-b]").unwrap();
    assert!(expand(&p).is_empty());
}

#[test]
fn walking_twice_gives_the_same_sequence() {
    let p = Pattern::parse("{a,b}[1-3]").unwrap();
    let first = expand(&p);
    let second = expand(&p);
    assert_eq!(first.len(), 6);
    assert_eq!(first, second);
    let mut walk = p.iter();
    while walk.next().is_some() {}
    assert_eq!(walk.next(), None);
}
