use lib::Token;
use lib::Token::{
    AtKeyword, BadString, BadURL, CDC, CDO, CloseBrace, CloseBraket, CloseParen, Colon, Comment,
    Delim, EmptyUnicodeRange, Function, Ident, OpenBrace, OpenBraket, OpenParen, Semicolon,
    UnicodeRange, WhiteSpace, URL,
};
use lib::tokenize;

fn assert_tokens(input: &str, expected_tokens: &[Token], expected_errors: &[&str]) {
    assert_tokens_flags(input, false, false, expected_tokens, expected_errors)
}

fn assert_tokens_flags(
    input: &str,
    transform_function_whitespace: bool,
    quirks_mode: bool,
    expected_tokens: &[Token],
    expected_errors: &[&str],
) {
    let result = tokenize(input, transform_function_whitespace, quirks_mode);
    let tokens: &[Token] = &result.tokens;
    let parse_errors: Vec<&str> = result.parse_errors.iter().map(|e| e.as_str()).collect();
    if tokens != expected_tokens {
        panic!("{:?} != {:?}", tokens, expected_tokens);
    }
    if parse_errors != expected_errors {
        panic!("{:?} != {:?}", parse_errors, expected_errors);
    }
}

fn s(text: &str) -> String {
    text.to_string()
}

#[test]
fn test_tokenizer() {
    assert_tokens("", &[], &[]);
    assert_tokens("?/", &[Delim('?'), Delim('/')], &[]);
    assert_tokens("?/* Li/*psum… */", &[Delim('?'), Comment], &[]);
    assert_tokens("?/* Li/*psum… *//", &[Delim('?'), Comment, Delim('/')], &[]);
    assert_tokens("?/* Lipsum", &[Delim('?'), Comment], &["EOF in comment"]);
    assert_tokens("?/*", &[Delim('?'), Comment], &["EOF in comment"]);
    assert_tokens(
        "[?}{)",
        &[OpenBraket, Delim('?'), CloseBrace, OpenBrace, CloseParen],
        &[],
    );

    assert_tokens(
        "(\n \t'Lore\\6d \"ipsu\\6D'",
        &[OpenParen, WhiteSpace, Token::String(s("Lorem\"ipsum"))],
        &[],
    );
    assert_tokens("'\\''", &[Token::String(s("'"))], &[]);
    assert_tokens("\"\\\"\"", &[Token::String(s("\""))], &[]);
    assert_tokens("\"\\\"", &[Token::String(s("\""))], &["EOF in quoted string"]);
    assert_tokens("'\\", &[BadString], &["EOF in quoted string"]);
    assert_tokens("\"0\\0000000\"", &[Token::String(s("0\u{FFFD}0"))], &[]);
    assert_tokens("\"0\\000000 0\"", &[Token::String(s("0\u{FFFD}0"))], &[]);
    assert_tokens(
        "'z\n'a",
        &[BadString, Token::String(s("a"))],
        &["Newline in quoted string", "EOF in quoted string"],
    );

    assert_tokens(
        "Lorem\\ ipsu\\6D dolor \\sit",
        &[Ident(s("Lorem ipsumdolor")), WhiteSpace, Ident(s("sit"))],
        &[],
    );
    assert_tokens("foo\\", &[Ident(s("foo")), Delim('\\')], &["Invalid escape"]);
    assert_tokens(
        "foo\\\nbar",
        &[Ident(s("foo")), Delim('\\'), WhiteSpace, Ident(s("bar"))],
        &["Invalid escape"],
    );
    assert_tokens("-Lipsum", &[Ident(s("-Lipsum"))], &[]);
    assert_tokens("-\\Lipsum", &[Ident(s("-Lipsum"))], &[]);
    assert_tokens("func()", &[Function(s("func")), CloseParen], &[]);
    assert_tokens(
        "func ()",
        &[Ident(s("func")), WhiteSpace, OpenParen, CloseParen],
        &[],
    );
    assert_tokens_flags("func ()", true, false, &[Function(s("func")), CloseParen], &[]);

    assert_tokens(
        "##00#\\##\\\n#\\",
        &[
            Delim('#'),
            Token::Hash(s("00")),
            Token::Hash(s("#")),
            Delim('#'),
            Delim('\\'),
            WhiteSpace,
            Delim('#'),
            Delim('\\'),
        ],
        &["Invalid escape", "Invalid escape"],
    );

    assert_tokens(
        "@@page@\\x@-x@-\\x@--@\\\n@\\",
        &[
            Delim('@'),
            AtKeyword(s("page")),
            AtKeyword(s("x")),
            AtKeyword(s("-x")),
            AtKeyword(s("-x")),
            Delim('@'),
            Delim('-'),
            Delim('-'),
            Delim('@'),
            Delim('\\'),
            WhiteSpace,
            Delim('@'),
            Delim('\\'),
        ],
        &["Invalid escape", "Invalid escape"],
    );

    assert_tokens(
        "<!-<!-----><",
        &[Delim('<'), Delim('!'), Delim('-'), CDO, Delim('-'), CDC, Delim('<')],
        &[],
    );
    assert_tokens(
        "u+g u+fU+4?U+030-000039f U+FFFFF?U+42-42U+42-41U+42-110000",
        &[
            Ident(s("u")),
            Delim('+'),
            Ident(s("g")),
            WhiteSpace,
            UnicodeRange(0x0F, 0x0F),
            UnicodeRange(0x40, 0x4F),
            UnicodeRange('0' as u32, '9' as u32),
            Ident(s("f")),
            WhiteSpace,
            EmptyUnicodeRange,
            UnicodeRange('B' as u32, 'B' as u32),
            EmptyUnicodeRange,
            UnicodeRange('B' as u32, 0x10FFFF),
        ],
        &[],
    );

    assert_tokens(
        "url()URL()uRl()Ürl()",
        &[URL(s("")), URL(s("")), URL(s("")), Function(s("Ürl")), CloseParen],
        &[],
    );
    assert_tokens(
        "url(  )url(\ta\n)url(\t'a'\n)url(\t'a'z)url(  ",
        &[URL(s("")), URL(s("a")), URL(s("a")), BadURL, BadURL],
        &["Invalid URL syntax", "EOF in URL"],
    );
    assert_tokens(
        "url('a\nb')url('a",
        &[BadURL, BadURL],
        &["Newline in quoted string", "EOF in quoted string"],
    );
    assert_tokens(
        "url(a'b)url(\x08z)url('a'",
        &[BadURL, BadURL, BadURL],
        &["Invalid URL syntax", "Invalid URL syntax", "EOF in URL"],
    );
    assert_tokens(
        "url(Lorem\\ ipsu\\6D dolo\\r)url(a\nb)url(a\\\nb)",
        &[URL(s("Lorem ipsumdolor")), BadURL, BadURL],
        &["Invalid URL syntax", "Invalid URL syntax"],
    );
}
