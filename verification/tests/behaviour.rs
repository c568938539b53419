use lib::preprocess::preprocess;
use lib::tokenize;
use lib::Token;

fn s(text: &str) -> String {
    text.to_string()
}

fn tokens(input: &str) -> Vec<Token> {
    tokenize(input, false, false).tokens
}

fn errors(input: &str) -> Vec<String> {
    tokenize(input, false, false).parse_errors
}

#[test]
fn preprocess_replaces_carriage_returns_and_nul() {
    assert_eq!(preprocess("a\r\n\rb\0c"), vec!['a', '\n', '\n', 'b', '\u{FFFD}', 'c']);
    assert_eq!(preprocess(""), Vec::<char>::new());
    assert_eq!(preprocess("\r\r\n"), vec!['\n', '\n']);
}

#[test]
fn preprocess_twice_is_preprocess_once() {
    for input in ["a\r\n\rb\0c", "\r\r\n\0", "plain", "\u{FFFD}\n"] {
        let once: String = preprocess(input).into_iter().collect();
        let twice = preprocess(&once);
        assert_eq!(twice, preprocess(input));
    }
}

#[test]
fn crlf_is_one_whitespace_token() {
    assert_eq!(tokens("a\r\nb"), vec![Token::Ident(s("a")), Token::WhiteSpace, Token::Ident(s("b"))]);
}

#[test]
fn nul_becomes_replacement_character() {
    assert_eq!(tokens("\0"), vec![Token::Ident(s("\u{FFFD}"))]);
}

#[test]
fn hexadecimal_escape_gives_the_code_point() {
    assert_eq!(tokens("\\6D"), vec![Token::Ident(s("m"))]);
    assert_eq!(tokens("\\000041x"), vec![Token::Ident(s("Ax"))]);
}

#[test]
fn escape_of_surrogate_or_out_of_range_gives_replacement() {
    assert_eq!(tokens("\\D800 x"), vec![Token::Ident(s("\u{FFFD}x"))]);
    assert_eq!(tokens("\\110000"), vec![Token::Ident(s("\u{FFFD}"))]);
    assert_eq!(tokens("\\0"), vec![Token::Ident(s("\u{FFFD}"))]);
}

#[test]
fn unicode_range_bounds_are_code_points() {
    assert_eq!(tokens("U+D800-DFFF"), vec![Token::UnicodeRange(0xD800, 0xDFFF)]);
    assert_eq!(tokens("u+1?"), vec![Token::UnicodeRange(0x10, 0x1F)]);
    assert_eq!(tokens("U+42-"), vec![Token::UnicodeRange(0x42, 0x42)]);
    assert_eq!(tokens("U+??????"), vec![Token::Ident(s("U")), Token::Delim('+'), Token::Delim('?'),
        Token::Delim('?'), Token::Delim('?'), Token::Delim('?'), Token::Delim('?'), Token::Delim('?')]);
}

#[test]
fn minus_before_non_ascii_reads_that_character_twice() {
    assert_eq!(tokens("-é"), vec![Token::Ident(s("éé"))]);
}

#[test]
fn hash_and_at_sign_at_the_end_are_delimiters() {
    assert_eq!(tokens("#"), vec![Token::Delim('#')]);
    assert_eq!(tokens("@"), vec![Token::Delim('@')]);
    assert_eq!(tokens("@-"), vec![Token::Delim('@'), Token::Delim('-')]);
}

#[test]
fn transform_function_whitespace_goes_back_one_whitespace() {
    let result = tokenize("f  x", true, false);
    assert_eq!(result.tokens, vec![Token::Ident(s("f")), Token::WhiteSpace, Token::Ident(s("x"))]);
    let result = tokenize("f \n (", true, false);
    assert_eq!(result.tokens, vec![Token::Function(s("f"))]);
    let result = tokenize("f ", true, false);
    assert_eq!(result.tokens, vec![Token::Ident(s("f")), Token::WhiteSpace]);
}

#[test]
fn quirks_mode_changes_nothing() {
    for input in ["a(b) url( x )", "#x @y -->", "'unterminated"] {
        assert_eq!(tokenize(input, false, true).tokens, tokenize(input, false, false).tokens);
        assert_eq!(tokenize(input, false, true).parse_errors, tokenize(input, false, false).parse_errors);
    }
}

#[test]
fn markup_comment_delimiters() {
    assert_eq!(tokens("<!---->"), vec![Token::CDO, Token::CDC]);
    assert_eq!(tokens("<!-"), vec![Token::Delim('<'), Token::Delim('!'), Token::Delim('-')]);
}

#[test]
fn every_punctuation_token() {
    assert_eq!(
        tokens(":;[](){}"),
        vec![
            Token::Colon,
            Token::Semicolon,
            Token::OpenBraket,
            Token::CloseBraket,
            Token::OpenParen,
            Token::CloseParen,
            Token::OpenBrace,
            Token::CloseBrace,
        ]
    );
}

#[test]
fn each_parse_error() {
    assert_eq!(errors("\\\n"), vec![s("Invalid escape")]);
    assert_eq!(errors("'a\n"), vec![s("Newline in quoted string")]);
    assert_eq!(errors("'a"), vec![s("EOF in quoted string")]);
    assert_eq!(errors("/*"), vec![s("EOF in comment")]);
    assert_eq!(errors("url("), vec![s("EOF in URL")]);
    assert_eq!(errors("url(a b)"), vec![s("Invalid URL syntax")]);
}

#[test]
fn bad_url_steps_over_escaped_parenthesis() {
    assert_eq!(tokens("url(a\"\\)b)c"), vec![Token::BadURL, Token::Ident(s("c"))]);
    assert_eq!(errors("url(a\"\\)b)c"), vec![s("Invalid URL syntax")]);
}

#[test]
fn quoted_url_keeps_its_text() {
    assert_eq!(tokens("url( \"a b\" )"), vec![Token::URL(s("a b"))]);
}

fn inputs() -> Vec<&'static str> {
    vec![
        "",
        "a b  c",
        "url(x) 'y' \"z",
        "@page { color: red; }",
        "#x#y ## -->",
        "u+1-2 U+?? f(x)",
        "\\\n\\ /* c */ /*",
        "  \t\n  ",
    ]
}

#[test]
fn no_more_tokens_than_characters() {
    for input in inputs() {
        assert!(tokens(input).len() <= preprocess(input).len());
    }
}

#[test]
fn no_more_errors_than_tokens() {
    for input in inputs() {
        let result = tokenize(input, false, false);
        assert!(result.parse_errors.len() <= result.tokens.len());
    }
}

#[test]
fn whitespace_tokens_never_follow_each_other() {
    for input in inputs() {
        for flag in [false, true] {
            let result = tokenize(input, flag, false);
            for pair in result.tokens.windows(2) {
                assert!(!(pair[0] == Token::WhiteSpace && pair[1] == Token::WhiteSpace));
            }
        }
    }
}

#[test]
fn tokens_are_well_formed() {
    for input in inputs() {
        for token in tokens(input) {
            match token {
                Token::Ident(v) | Token::Function(v) | Token::AtKeyword(v) | Token::Hash(v) => {
                    assert!(!v.is_empty())
                },
                Token::UnicodeRange(start, end) => assert!(start <= end && end <= 0x10FFFF),
                _ => {},
            }
        }
    }
}

#[test]
fn non_ascii_after_lookahead_characters() {
    assert_eq!(tokens("-1é"), vec![Token::Delim('-'), Token::Delim('1'), Token::Ident(s("é"))]);
    assert_eq!(tokens("u+é"), vec![Token::Ident(s("u")), Token::Delim('+'), Token::Ident(s("é"))]);
    assert_eq!(tokens("u1é"), vec![Token::Ident(s("u1é"))]);
    assert_eq!(tokens("<a€"), vec![Token::Delim('<'), Token::Ident(s("a€"))]);
    assert_eq!(tokens("u€"), vec![Token::Ident(s("u€"))]);
}

#[test]
fn bad_url_steps_over_escaped_non_ascii_character() {
    assert_eq!(tokens("url(a b\\é)x"), vec![Token::BadURL, Token::Ident(s("x"))]);
    assert_eq!(errors("url(a b\\é)x"), vec![s("Invalid URL syntax")]);
    assert_eq!(tokens("url(a b\\"), vec![Token::BadURL]);
}

#[test]
fn no_parse_error_without_backslash_quote_slash_or_parenthesis() {
    for input in ["a b c", "#x @y -- <!-- -->", "u+1?-2 {;:}[]", "é\u{FFFD}\t\n"] {
        assert!(errors(input).is_empty());
    }
}

#[test]
fn no_tokens_only_for_empty_input() {
    assert!(tokens("").is_empty());
    for input in inputs() {
        assert_eq!(tokens(input).is_empty(), preprocess(input).is_empty());
    }
}
