//! The mathematical model of tokenization.
//!
//! Each spec function below is one state of the tokenization state machine.
//! It reads the (preprocessed) input `s` from position `p`, counted in
//! characters, and says which token comes out, where the next state starts,
//! and which parse errors are reported.
use vstd::prelude::*;
use crate::preprocess::preprocessed;
use crate::chars::{
    hex_digit_value, is_hex, is_name_ascii, is_name_start_ascii, is_newline, is_non_ascii,
    is_non_printable, is_whitespace,
};

verus! {

/// The parse errors that tokenization reports.
#[derive(Clone, Copy, Debug, PartialEq, Eq, Structural)]
pub enum ParseErrorKind {
    InvalidEscape,
    NewlineInQuotedString,
    EofInQuotedString,
    EofInComment,
    EofInUrl,
    InvalidUrlSyntax,
}

/// The text reported for each parse error.
pub open spec fn error_message(e: ParseErrorKind) -> Seq<char> {
    match e {
        ParseErrorKind::InvalidEscape => "Invalid escape"@,
        ParseErrorKind::NewlineInQuotedString => "Newline in quoted string"@,
        ParseErrorKind::EofInQuotedString => "EOF in quoted string"@,
        ParseErrorKind::EofInComment => "EOF in comment"@,
        ParseErrorKind::EofInUrl => "EOF in URL"@,
        ParseErrorKind::InvalidUrlSyntax => "Invalid URL syntax"@,
    }
}

/// A token as a mathematical value: text is a sequence of characters and
/// the bounds of a unicode range are code points.
pub enum SpecToken {
    Ident(Seq<char>),
    Function(Seq<char>),
    AtKeyword(Seq<char>),
    Hash(Seq<char>),
    String(Seq<char>),
    BadString,
    URL(Seq<char>),
    BadURL,
    Delim(char),
    UnicodeRange(u32, u32),
    EmptyUnicodeRange,
    WhiteSpace,
    Comment,
    CDO,
    CDC,
    Colon,
    Semicolon,
    OpenBraket,
    OpenParen,
    OpenBrace,
    CloseBraket,
    CloseParen,
    CloseBrace,
}

/// The outcome of one state: the token, the position after it and the
/// errors reported on the way.
pub struct Step {
    pub token: SpecToken,
    pub pos: int,
    pub errors: Seq<ParseErrorKind>,
}

pub open spec fn done(token: SpecToken, pos: int) -> Step {
    Step { token, pos, errors: seq![] }
}

pub open spec fn done_with_error(token: SpecToken, pos: int, e: ParseErrorKind) -> Step {
    Step { token, pos, errors: seq![e] }
}

/// `step`, with `errors` reported before its own.
pub open spec fn after_errors(errors: Seq<ParseErrorKind>, step: Step) -> Step {
    Step { token: step.token, pos: step.pos, errors: errors + step.errors }
}

/// The largest code point.
pub const MAX_UNICODE: u32 = 0x10FFFF;

pub open spec fn max_unicode() -> u32 {
    MAX_UNICODE
}

// ---------------------------------------------------------------------------
// Look-ahead

/// The next `k` characters from position `p` (fewer near the end).
pub open spec fn lookahead(s: Seq<char>, p: int, k: int) -> Seq<char> {
    s.subrange(p, if p + k <= s.len() { p + k } else { s.len() as int })
}

// ---------------------------------------------------------------------------
// Escapes and names

/// Number of hexadecimal digits, at most `max`, from position `p`.
pub open spec fn hex_run(s: Seq<char>, p: int, max: nat) -> nat
    decreases max,
{
    if max == 0 || p < 0 || p >= s.len() || !is_hex(s[p]) {
        0
    } else {
        1 + hex_run(s, p + 1, (max - 1) as nat)
    }
}

/// Number of question marks, at most `max`, from position `p`.
pub open spec fn question_run(s: Seq<char>, p: int, max: nat) -> nat
    decreases max,
{
    if max == 0 || p < 0 || p >= s.len() || s[p] != '?' {
        0
    } else {
        1 + question_run(s, p + 1, (max - 1) as nat)
    }
}

/// Value of a sequence of hexadecimal digits.
pub open spec fn hex_value(digits: Seq<char>) -> nat
    decreases digits.len(),
{
    if digits.len() == 0 {
        0
    } else {
        hex_value(digits.drop_last()) * 16 + hex_digit_value(digits.last())
    }
}

/// The character an escape with value `v` stands for: the code point itself
/// where it names a character, else U+FFFD.
pub open spec fn escaped_char(v: nat) -> char {
    if 0 < v && v <= max_unicode() && !(0xD800 <= v && v <= 0xDFFF) {
        v as char
    } else {
        '\u{FFFD}'
    }
}

/// An escape whose backslash is just before `p`: the character it stands
/// for and the position after it. Up to six hexadecimal digits give a code
/// point, and one whitespace character after them is part of the escape;
/// any other character stands for itself.
pub open spec fn escape(s: Seq<char>, p: int) -> (char, int) {
    let c = s[p];
    if is_hex(c) {
        let end: int = p + 1 + hex_run(s, p + 1, 5);
        let after: int = if end < s.len() && is_whitespace(s[end]) {
            end + 1
        } else {
            end
        };
        (escaped_char(hex_value(s.subrange(p, end))), after)
    } else {
        (c, p + 1)
    }
}

/// Whether a backslash at `p` starts a valid escape.
pub open spec fn valid_escape_at(s: Seq<char>, p: int) -> bool {
    0 <= p && p + 1 < s.len() && s[p] == '\\' && !is_newline(s[p + 1])
}

/// The name character at `p`, if there is one, and the position after it:
/// an ASCII name character, a non-ASCII character or a valid escape.
pub open spec fn name_code_point(s: Seq<char>, p: int) -> Option<(char, int)> {
    if p < 0 || p >= s.len() {
        None
    } else if is_name_ascii(s[p]) || is_non_ascii(s[p]) {
        Some((s[p], p + 1))
    } else if valid_escape_at(s, p) {
        Some(escape(s, p + 1))
    } else {
        None
    }
}

/// The rest of a name: `acc` followed by the name characters from `p`, and
/// the position after them.
pub open spec fn name_rest(s: Seq<char>, p: int, acc: Seq<char>) -> (Seq<char>, int)
    decreases s.len() - p,
{
    match name_code_point(s, p) {
        Some((c, q)) => {
            proof {
                lemma_name_code_point_bounds(s, p);
            }
            name_rest(s, q, acc.push(c))
        },
        None => (acc, p),
    }
}

/// Hash state, `p` after the `#`.
pub open spec fn hash(s: Seq<char>, p: int) -> Step {
    match name_code_point(s, p) {
        Some((c, q)) => {
            let (name, end) = name_rest(s, q, seq![c]);
            done(SpecToken::Hash(name), end)
        },
        None => done(SpecToken::Delim('#'), p),
    }
}

/// At-keyword state, `p` after the `@`: the first character of the name
/// and the position from which the rest of the name is read, if the name
/// can start there.
pub open spec fn at_keyword_start(s: Seq<char>, p: int) -> Option<(char, int)> {
    if p < 0 || p >= s.len() {
        None
    } else if s[p] == '-' {
        if p + 1 >= s.len() {
            None
        } else if s[p + 1] == '\\' {
            if valid_escape_at(s, p + 1) {
                Some(('-', p + 1))
            } else {
                None
            }
        } else if is_name_start_ascii(s[p + 1]) || is_non_ascii(s[p + 1]) {
            Some(('-', p + 1))
        } else {
            None
        }
    } else if is_name_start_ascii(s[p]) || is_non_ascii(s[p]) {
        Some((s[p], p + 1))
    } else if valid_escape_at(s, p) {
        Some(escape(s, p + 1))
    } else {
        None
    }
}

pub open spec fn at_keyword(s: Seq<char>, p: int) -> Step {
    match at_keyword_start(s, p) {
        Some((c, q)) => {
            let (name, end) = name_rest(s, q, seq![c]);
            done(SpecToken::AtKeyword(name), end)
        },
        None => done(SpecToken::Delim('@'), p),
    }
}

/// ASCII lower case.
pub open spec fn ascii_lower_char(c: char) -> char {
    if 'A' <= c && c <= 'Z' {
        ((c as u32) + 32) as char
    } else {
        c
    }
}

pub open spec fn ascii_lower(s: Seq<char>) -> Seq<char> {
    s.map_values(|c: char| ascii_lower_char(c))
}

/// Ident state and ident-rest state: `acc` is the name so far and `p` the
/// position of the next character.
pub open spec fn ident_rest(s: Seq<char>, p: int, acc: Seq<char>, tfw: bool) -> Step
    decreases s.len() - p,
{
    if p < 0 || p >= s.len() {
        done(SpecToken::Ident(acc), p)
    } else {
        match name_code_point(s, p) {
            Some((c, q)) => {
                proof {
                    lemma_name_code_point_bounds(s, p);
                }
                ident_rest(s, q, acc.push(c), tfw)
            },
            None => {
                if tfw && is_whitespace(s[p]) {
                    transform_whitespace(s, p + 1, acc)
                } else if s[p] == '(' {
                    if ascii_lower(acc) =~= seq!['u', 'r', 'l'] {
                        url(s, p + 1)
                    } else {
                        done(SpecToken::Function(acc), p + 1)
                    }
                } else {
                    done(SpecToken::Ident(acc), p)
                }
            },
        }
    }
}

/// Transform-function-whitespace state: whitespace between a name and `(`
/// makes a function; otherwise the name is an ident and the last
/// whitespace character is read again.
pub open spec fn transform_whitespace(s: Seq<char>, p: int, name: Seq<char>) -> Step
    decreases s.len() - p,
{
    if p < 0 || p >= s.len() {
        done(SpecToken::Ident(name), p - 1)
    } else if is_whitespace(s[p]) {
        transform_whitespace(s, p + 1, name)
    } else if s[p] == '(' {
        done(SpecToken::Function(name), p + 1)
    } else {
        done(SpecToken::Ident(name), p - 1)
    }
}

// ---------------------------------------------------------------------------
// Strings and URLs

/// Double- and single-quote-string states: `acc` is the string so far.
pub open spec fn quoted_string(
    s: Seq<char>,
    p: int,
    single_quote: bool,
    eof_is_bad: bool,
    acc: Seq<char>,
) -> Step
    decreases s.len() - p,
{
    if p < 0 || p >= s.len() {
        done_with_error(
            if eof_is_bad {
                SpecToken::BadString
            } else {
                SpecToken::String(acc)
            },
            p,
            ParseErrorKind::EofInQuotedString,
        )
    } else {
        let c = s[p];
        if (c == '"' && !single_quote) || (c == '\'' && single_quote) {
            done(SpecToken::String(acc), p + 1)
        } else if is_newline(c) {
            done_with_error(SpecToken::BadString, p + 1, ParseErrorKind::NewlineInQuotedString)
        } else if c == '\\' {
            if p + 1 >= s.len() {
                done_with_error(SpecToken::BadString, p + 1, ParseErrorKind::EofInQuotedString)
            } else if is_newline(s[p + 1]) {
                quoted_string(s, p + 2, single_quote, eof_is_bad, acc)
            } else {
                let (e, q) = escape(s, p + 1);
                proof {
                    lemma_escape_bounds(s, p + 1);
                }
                quoted_string(s, q, single_quote, eof_is_bad, acc.push(e))
            }
        } else {
            quoted_string(s, p + 1, single_quote, eof_is_bad, acc.push(c))
        }
    }
}

/// URL state, `p` after the `(`.
pub open spec fn url(s: Seq<char>, p: int) -> Step
    decreases s.len() - p,
{
    if p < 0 || p >= s.len() {
        done_with_error(SpecToken::BadURL, p, ParseErrorKind::EofInUrl)
    } else if is_whitespace(s[p]) {
        url(s, p + 1)
    } else if s[p] == '"' {
        quoted_url(s, p, false)
    } else if s[p] == '\'' {
        quoted_url(s, p, true)
    } else if s[p] == ')' {
        done(SpecToken::URL(seq![]), p + 1)
    } else {
        unquoted_url(s, p, seq![])
    }
}

/// URL-double-quote and URL-single-quote states, `p` at the quote.
pub open spec fn quoted_url(s: Seq<char>, p: int, single_quote: bool) -> Step {
    let string = quoted_string(s, p + 1, single_quote, true, seq![]);
    match string.token {
        SpecToken::String(v) => after_errors(string.errors, url_end(s, string.pos, v)),
        _ => after_errors(string.errors, bad_url(s, string.pos, false)),
    }
}

/// URL-end state: only whitespace may stand between the URL and `)`.
pub open spec fn url_end(s: Seq<char>, p: int, value: Seq<char>) -> Step
    decreases s.len() - p,
{
    if p < 0 || p >= s.len() {
        done_with_error(SpecToken::BadURL, p, ParseErrorKind::EofInUrl)
    } else if is_whitespace(s[p]) {
        url_end(s, p + 1, value)
    } else if s[p] == ')' {
        done(SpecToken::URL(value), p + 1)
    } else {
        bad_url(s, p + 1, true)
    }
}

/// URL-unquoted state: `acc` is the URL so far.
pub open spec fn unquoted_url(s: Seq<char>, p: int, acc: Seq<char>) -> Step
    decreases s.len() - p,
{
    if p < 0 || p >= s.len() {
        done_with_error(SpecToken::BadURL, p, ParseErrorKind::EofInUrl)
    } else {
        let c = s[p];
        if is_whitespace(c) {
            url_end(s, p + 1, acc)
        } else if c == ')' {
            done(SpecToken::URL(acc), p + 1)
        } else if is_non_printable(c) || c == '"' || c == '\'' || c == '(' {
            bad_url(s, p + 1, true)
        } else if c == '\\' {
            if p + 1 >= s.len() || is_newline(s[p + 1]) {
                bad_url(s, p + 1, true)
            } else {
                let (e, q) = escape(s, p + 1);
                proof {
                    lemma_escape_bounds(s, p + 1);
                }
                unquoted_url(s, q, acc.push(e))
            }
        } else {
            unquoted_url(s, p + 1, acc.push(c))
        }
    }
}

/// Bad-URL state: skip to the closing `)`, stepping over the character
/// after each backslash. Gives the position after the `)`, or past the end
/// (one further when a backslash ends the input).
pub open spec fn bad_url_rest(s: Seq<char>, p: int) -> int
    decreases s.len() + 1 - p,
{
    if p < 0 || p >= s.len() {
        p
    } else if s[p] == ')' {
        p + 1
    } else if s[p] == '\\' {
        bad_url_rest(s, p + 2)
    } else {
        bad_url_rest(s, p + 1)
    }
}

pub open spec fn bad_url(s: Seq<char>, p: int, log_error: bool) -> Step {
    Step {
        token: SpecToken::BadURL,
        pos: bad_url_rest(s, p),
        errors: if log_error {
            seq![ParseErrorKind::InvalidUrlSyntax]
        } else {
            seq![]
        },
    }
}

// ---------------------------------------------------------------------------
// Unicode ranges, comments, whitespace

/// `n` copies of `c`.
pub open spec fn repeat(c: char, n: nat) -> Seq<char> {
    Seq::new(n, |i: int| c)
}

/// The token for a range from `start` to `end`: empty when it starts past
/// the last code point or ends before it starts, otherwise clamped to the
/// last code point.
pub open spec fn range_token(start: nat, end: nat) -> SpecToken {
    if start > max_unicode() || end < start {
        SpecToken::EmptyUnicodeRange
    } else {
        SpecToken::UnicodeRange(
            start as u32,
            if end <= max_unicode() {
                end as u32
            } else {
                max_unicode()
            },
        )
    }
}

/// Unicode-range state, `p` at the first hexadecimal digit after `U+`.
/// Question marks after the digits stand for any digit; otherwise a `-` and
/// more digits may give the end of the range.
pub open spec fn unicode_range(s: Seq<char>, p: int) -> Step {
    let k: nat = hex_run(s, p, 6);
    let hex = s.subrange(p, p + k);
    let qs: nat = question_run(s, p + k, (6 - k) as nat);
    if qs > 0 {
        done(
            range_token(hex_value(hex + repeat('0', qs)), hex_value(hex + repeat('F', qs))),
            p + k + qs,
        )
    } else {
        let start = hex_value(hex);
        let dash: int = p + k;
        if dash < s.len() && s[dash] == '-' {
            let k2: nat = hex_run(s, dash + 1, 6);
            let end = if k2 > 0 {
                hex_value(s.subrange(dash + 1, dash + 1 + k2))
            } else {
                start
            };
            done(range_token(start, end), dash + 1 + k2)
        } else {
            done(range_token(start, start), dash)
        }
    }
}

/// Position of the first `*/` at or after `p`.
pub open spec fn comment_end(s: Seq<char>, p: int) -> Option<int>
    decreases s.len() - p,
{
    if p < 0 || p + 1 >= s.len() {
        None
    } else if s[p] == '*' && s[p + 1] == '/' {
        Some(p)
    } else {
        comment_end(s, p + 1)
    }
}

/// Comment state, `p` at the `*` of `/*`.
pub open spec fn comment(s: Seq<char>, p: int) -> Step {
    match comment_end(s, p + 1) {
        Some(i) => done(SpecToken::Comment, i + 2),
        None => done_with_error(SpecToken::Comment, s.len() as int, ParseErrorKind::EofInComment),
    }
}

/// Position after the whitespace from `p`.
pub open spec fn whitespace_end(s: Seq<char>, p: int) -> int
    decreases s.len() - p,
{
    if p < 0 || p >= s.len() || !is_whitespace(s[p]) {
        p
    } else {
        whitespace_end(s, p + 1)
    }
}

// ---------------------------------------------------------------------------
// Data state

/// The state after a `-`, `q` after it.
pub open spec fn after_minus(s: Seq<char>, q: int, tfw: bool) -> Step {
    if q >= s.len() {
        done(SpecToken::Delim('-'), q)
    } else {
        let d = s[q];
        if d == '\\' {
            if valid_escape_at(s, q) {
                ident_rest(s, q, seq!['-'], tfw)
            } else {
                done(SpecToken::Delim('-'), q)
            }
        } else if is_name_start_ascii(d) {
            ident_rest(s, q, seq!['-'], tfw)
        } else if is_non_ascii(d) {
            // The name starts with the character after the `-`, which is
            // read again as the first character of the rest: the `-` is
            // dropped and that character doubled.
            ident_rest(s, q, seq![d], tfw)
        } else if lookahead(s, q, 2) =~= seq!['-', '>'] {
            done(SpecToken::CDC, q + 2)
        } else {
            done(SpecToken::Delim('-'), q)
        }
    }
}

/// The state after a `u` or `U`, `q` after it.
pub open spec fn after_u(s: Seq<char>, q: int, c: char, tfw: bool) -> Step {
    let next2 = lookahead(s, q, 2);
    if next2.len() == 2 && next2[0] == '+' && is_hex(next2[1]) {
        unicode_range(s, q + 1)
    } else {
        ident_rest(s, q, seq![c], tfw)
    }
}

/// The state after a `<`, `q` after it.
pub open spec fn after_less_than(s: Seq<char>, q: int) -> Step {
    if lookahead(s, q, 3) =~= seq!['!', '-', '-'] {
        done(SpecToken::CDO, q + 3)
    } else {
        done(SpecToken::Delim('<'), q)
    }
}

/// The state after a backslash that starts a token, `q` after it.
pub open spec fn after_backslash(s: Seq<char>, q: int, tfw: bool) -> Step {
    if q >= s.len() || is_newline(s[q]) {
        done_with_error(SpecToken::Delim('\\'), q, ParseErrorKind::InvalidEscape)
    } else {
        let (e, r) = escape(s, q);
        ident_rest(s, r, seq![e], tfw)
    }
}

/// Data state: the token that starts at `p`.
pub open spec fn token_step(s: Seq<char>, p: int, tfw: bool) -> Step {
    let c = s[p];
    let q: int = p + 1;
    if is_whitespace(c) {
        done(SpecToken::WhiteSpace, whitespace_end(s, q))
    } else if c == '"' {
        quoted_string(s, q, false, false, seq![])
    } else if c == '#' {
        hash(s, q)
    } else if c == '\'' {
        quoted_string(s, q, true, false, seq![])
    } else if c == '(' {
        done(SpecToken::OpenParen, q)
    } else if c == ')' {
        done(SpecToken::CloseParen, q)
    } else if c == '-' {
        after_minus(s, q, tfw)
    } else if c == '/' && q < s.len() && s[q] == '*' {
        comment(s, q)
    } else if c == ':' {
        done(SpecToken::Colon, q)
    } else if c == ';' {
        done(SpecToken::Semicolon, q)
    } else if c == '<' {
        after_less_than(s, q)
    } else if c == '@' {
        at_keyword(s, q)
    } else if c == '[' {
        done(SpecToken::OpenBraket, q)
    } else if c == '\\' {
        after_backslash(s, q, tfw)
    } else if c == ']' {
        done(SpecToken::CloseBraket, q)
    } else if c == '{' {
        done(SpecToken::OpenBrace, q)
    } else if c == '}' {
        done(SpecToken::CloseBrace, q)
    } else if c == 'u' || c == 'U' {
        after_u(s, q, c, tfw)
    } else if is_name_start_ascii(c) || is_non_ascii(c) {
        ident_rest(s, q, seq![c], tfw)
    } else {
        done(SpecToken::Delim(c), q)
    }
}

/// The tokens from position `p` to the end and the errors reported on the
/// way.
pub open spec fn run(s: Seq<char>, p: int, tfw: bool) -> (Seq<SpecToken>, Seq<ParseErrorKind>)
    decreases s.len() + 1 - p,
{
    if p < 0 || p >= s.len() {
        (seq![], seq![])
    } else {
        let step = token_step(s, p, tfw);
        proof {
            lemma_token_step_progress(s, p, tfw);
        }
        let rest = run(s, step.pos, tfw);
        (seq![step.token] + rest.0, step.errors + rest.1)
    }
}

/// What tokenization makes of `input` with the given
/// `transform_function_whitespace` flag: the tokens and the parse errors.
pub open spec fn tokenization(input: Seq<char>, tfw: bool) -> (Seq<SpecToken>, Seq<ParseErrorKind>) {
    run(preprocessed(input), 0, tfw)
}

// ---------------------------------------------------------------------------
// Bounds

pub proof fn lemma_hex_run_bounds(s: Seq<char>, p: int, max: nat)
    requires
        0 <= p <= s.len(),
    ensures
        hex_run(s, p, max) <= max,
        p + hex_run(s, p, max) <= s.len(),
        forall|i: int| p <= i < p + hex_run(s, p, max) ==> is_hex(#[trigger] s[i]),
    decreases max,
{
    if !(max == 0 || p >= s.len() || !is_hex(s[p])) {
        lemma_hex_run_bounds(s, p + 1, (max - 1) as nat);
    }
}

pub proof fn lemma_question_run_bounds(s: Seq<char>, p: int, max: nat)
    requires
        0 <= p <= s.len(),
    ensures
        question_run(s, p, max) <= max,
        p + question_run(s, p, max) <= s.len(),
    decreases max,
{
    if !(max == 0 || p >= s.len() || s[p] != '?') {
        lemma_question_run_bounds(s, p + 1, (max - 1) as nat);
    }
}

pub proof fn lemma_escape_bounds(s: Seq<char>, p: int)
    requires
        0 <= p < s.len(),
    ensures
        p < escape(s, p).1 <= s.len(),
{
    lemma_hex_run_bounds(s, p + 1, 5);
}

pub proof fn lemma_name_code_point_bounds(s: Seq<char>, p: int)
    ensures
        name_code_point(s, p) matches Some((c, q)) ==> p < q <= s.len(),
{
    if valid_escape_at(s, p) {
        lemma_escape_bounds(s, p + 1);
    }
}

pub proof fn lemma_name_rest_bounds(s: Seq<char>, p: int, acc: Seq<char>)
    requires
        0 <= p <= s.len(),
    ensures
        p <= name_rest(s, p, acc).1 <= s.len(),
    decreases s.len() - p,
{
    lemma_name_code_point_bounds(s, p);
    if let Some((c, q)) = name_code_point(s, p) {
        lemma_name_rest_bounds(s, q, acc.push(c));
    }
}

pub proof fn lemma_quoted_string_bounds(
    s: Seq<char>,
    p: int,
    single_quote: bool,
    eof_is_bad: bool,
    acc: Seq<char>,
)
    requires
        0 <= p <= s.len(),
    ensures
        p <= quoted_string(s, p, single_quote, eof_is_bad, acc).pos <= s.len(),
        quoted_string(s, p, single_quote, eof_is_bad, acc).token is String || quoted_string(
            s,
            p,
            single_quote,
            eof_is_bad,
            acc,
        ).token is BadString,
    decreases s.len() - p,
{
    if p < s.len() {
        let c = s[p];
        if (c == '"' && !single_quote) || (c == '\'' && single_quote) {
        } else if is_newline(c) {
        } else if c == '\\' {
            if p + 1 >= s.len() {
            } else if is_newline(s[p + 1]) {
                lemma_quoted_string_bounds(s, p + 2, single_quote, eof_is_bad, acc);
            } else {
                let (e, q) = escape(s, p + 1);
                lemma_escape_bounds(s, p + 1);
                lemma_quoted_string_bounds(s, q, single_quote, eof_is_bad, acc.push(e));
            }
        } else {
            lemma_quoted_string_bounds(s, p + 1, single_quote, eof_is_bad, acc.push(c));
        }
    }
}

pub proof fn lemma_bad_url_bounds(s: Seq<char>, p: int)
    requires
        0 <= p <= s.len() + 1,
    ensures
        p <= bad_url_rest(s, p) <= s.len() + 1,
    decreases s.len() + 1 - p,
{
    if p < s.len() && s[p] != ')' {
        if s[p] == '\\' {
            lemma_bad_url_bounds(s, p + 2);
        } else {
            lemma_bad_url_bounds(s, p + 1);
        }
    }
}

pub proof fn lemma_url_end_bounds(s: Seq<char>, p: int, value: Seq<char>)
    requires
        0 <= p <= s.len(),
    ensures
        p <= url_end(s, p, value).pos <= s.len() + 1,
    decreases s.len() - p,
{
    if p < s.len() {
        if is_whitespace(s[p]) {
            lemma_url_end_bounds(s, p + 1, value);
        } else if s[p] != ')' {
            lemma_bad_url_bounds(s, p + 1);
        }
    }
}

pub proof fn lemma_unquoted_url_bounds(s: Seq<char>, p: int, acc: Seq<char>)
    requires
        0 <= p <= s.len(),
    ensures
        p <= unquoted_url(s, p, acc).pos <= s.len() + 1,
    decreases s.len() - p,
{
    if p < s.len() {
        let c = s[p];
        if is_whitespace(c) {
            lemma_url_end_bounds(s, p + 1, acc);
        } else if c == ')' {
        } else if is_non_printable(c) || c == '"' || c == '\'' || c == '(' {
            lemma_bad_url_bounds(s, p + 1);
        } else if c == '\\' {
            if p + 1 >= s.len() || is_newline(s[p + 1]) {
                lemma_bad_url_bounds(s, p + 1);
            } else {
                let (e, q) = escape(s, p + 1);
                lemma_escape_bounds(s, p + 1);
                lemma_unquoted_url_bounds(s, q, acc.push(e));
            }
        } else {
            lemma_unquoted_url_bounds(s, p + 1, acc.push(c));
        }
    }
}

pub proof fn lemma_quoted_url_bounds(s: Seq<char>, p: int, single_quote: bool)
    requires
        0 <= p < s.len(),
    ensures
        p <= quoted_url(s, p, single_quote).pos <= s.len() + 1,
{
    lemma_quoted_string_bounds(s, p + 1, single_quote, true, seq![]);
    let string = quoted_string(s, p + 1, single_quote, true, seq![]);
    lemma_url_end_bounds(s, string.pos, string.token->String_0);
    lemma_bad_url_bounds(s, string.pos);
}

pub proof fn lemma_url_bounds(s: Seq<char>, p: int)
    requires
        0 <= p <= s.len(),
    ensures
        p <= url(s, p).pos <= s.len() + 1,
    decreases s.len() - p,
{
    if p < s.len() {
        if is_whitespace(s[p]) {
            lemma_url_bounds(s, p + 1);
        } else if s[p] == '"' {
            lemma_quoted_url_bounds(s, p, false);
        } else if s[p] == '\'' {
            lemma_quoted_url_bounds(s, p, true);
        } else if s[p] == ')' {
        } else {
            lemma_unquoted_url_bounds(s, p, seq![]);
        }
    }
}

pub proof fn lemma_transform_whitespace_bounds(s: Seq<char>, p: int, name: Seq<char>)
    requires
        1 <= p <= s.len(),
    ensures
        p - 1 <= transform_whitespace(s, p, name).pos <= s.len(),
    decreases s.len() - p,
{
    if p < s.len() && is_whitespace(s[p]) {
        lemma_transform_whitespace_bounds(s, p + 1, name);
    }
}

pub proof fn lemma_ident_rest_bounds(s: Seq<char>, p: int, acc: Seq<char>, tfw: bool)
    requires
        0 <= p <= s.len(),
    ensures
        p <= ident_rest(s, p, acc, tfw).pos <= s.len() + 1,
    decreases s.len() - p,
{
    if p < s.len() {
        lemma_name_code_point_bounds(s, p);
        match name_code_point(s, p) {
            Some((c, q)) => {
                lemma_ident_rest_bounds(s, q, acc.push(c), tfw);
            },
            None => {
                if tfw && is_whitespace(s[p]) {
                    lemma_transform_whitespace_bounds(s, p + 1, acc);
                } else if s[p] == '(' {
                    lemma_url_bounds(s, p + 1);
                }
            },
        }
    }
}

pub proof fn lemma_whitespace_end_bounds(s: Seq<char>, p: int)
    requires
        0 <= p <= s.len(),
    ensures
        p <= whitespace_end(s, p) <= s.len(),
    decreases s.len() - p,
{
    if p < s.len() && is_whitespace(s[p]) {
        lemma_whitespace_end_bounds(s, p + 1);
    }
}

pub proof fn lemma_comment_end_bounds(s: Seq<char>, p: int)
    requires
        0 <= p,
    ensures
        comment_end(s, p) matches Some(i) ==> p <= i && i + 2 <= s.len(),
    decreases s.len() - p,
{
    if p + 1 < s.len() && !(s[p] == '*' && s[p + 1] == '/') {
        lemma_comment_end_bounds(s, p + 1);
    }
}

pub proof fn lemma_unicode_range_bounds(s: Seq<char>, p: int)
    requires
        0 <= p <= s.len(),
    ensures
        p <= unicode_range(s, p).pos <= s.len(),
{
    let k = hex_run(s, p, 6);
    lemma_hex_run_bounds(s, p, 6);
    lemma_question_run_bounds(s, p + k, (6 - k) as nat);
    if p + k < s.len() {
        lemma_hex_run_bounds(s, p + k + 1, 6);
    }
}

pub proof fn lemma_token_step_progress(s: Seq<char>, p: int, tfw: bool)
    requires
        0 <= p < s.len(),
    ensures
        p < token_step(s, p, tfw).pos <= s.len() + 1,
{
    let c = s[p];
    let q = p + 1;
    lemma_whitespace_end_bounds(s, q);
    lemma_quoted_string_bounds(s, q, false, false, seq![]);
    lemma_quoted_string_bounds(s, q, true, false, seq![]);
    lemma_name_code_point_bounds(s, q);
    if let Some((c1, q1)) = name_code_point(s, q) {
        lemma_name_rest_bounds(s, q1, seq![c1]);
    }
    lemma_ident_rest_bounds(s, q, seq![c], tfw);
    lemma_ident_rest_bounds(s, q, seq!['-'], tfw);
    if q < s.len() {
        lemma_ident_rest_bounds(s, q, seq![s[q]], tfw);
        lemma_comment_end_bounds(s, q + 1);
        lemma_escape_bounds(s, q);
        let (e, r) = escape(s, q);
        lemma_ident_rest_bounds(s, r, seq![e], tfw);
    }
    if q + 1 <= s.len() {
        lemma_unicode_range_bounds(s, q + 1);
    }
    // at-keyword
    if q + 1 < s.len() && valid_escape_at(s, q) {
        lemma_escape_bounds(s, q + 1);
    }
    if q + 2 < s.len() && valid_escape_at(s, q + 1) {
        lemma_escape_bounds(s, q + 2);
    }
    if let Some((c2, q2)) = at_keyword_start(s, q) {
        lemma_name_rest_bounds(s, q2, seq![c2]);
    }
}

} // verus!
