//! Properties of tokenization as a whole.
use vstd::prelude::*;
use crate::chars::{is_newline, is_non_printable, is_whitespace};
use crate::preprocess::preprocessed;
use crate::spec::{
    escape, ident_rest, lemma_escape_bounds, lemma_name_code_point_bounds,
    lemma_quoted_string_bounds, lemma_token_step_progress, max_unicode, name_code_point,
    name_rest, quoted_string, quoted_url, run, token_step,
    tokenization, transform_whitespace, unquoted_url, url, url_end, whitespace_end,
    at_keyword_start, SpecToken,
};

verus! {

/// What each token promises of its value: names (of idents, functions,
/// at-keywords and hashes) have at least one character, and a unicode range
/// runs from its start up to an end no greater than U+10FFFF.
pub open spec fn is_well_formed(t: SpecToken) -> bool {
    match t {
        SpecToken::Ident(v) => v.len() > 0,
        SpecToken::Function(v) => v.len() > 0,
        SpecToken::AtKeyword(v) => v.len() > 0,
        SpecToken::Hash(v) => v.len() > 0,
        SpecToken::UnicodeRange(start, end) => start <= end && end <= max_unicode(),
        _ => true,
    }
}

proof fn lemma_name_rest_grows(s: Seq<char>, p: int, acc: Seq<char>)
    ensures
        name_rest(s, p, acc).0.len() >= acc.len(),
    decreases s.len() - p,
{
    lemma_name_code_point_bounds(s, p);
    if let Some((c, q)) = name_code_point(s, p) {
        lemma_name_rest_grows(s, q, acc.push(c));
    }
}

proof fn lemma_quoted_string_errors(
    s: Seq<char>,
    p: int,
    single_quote: bool,
    eof_is_bad: bool,
    acc: Seq<char>,
)
    ensures
        quoted_string(s, p, single_quote, eof_is_bad, acc).errors.len() <= 1,
        eof_is_bad && quoted_string(s, p, single_quote, eof_is_bad, acc).token is String
            ==> quoted_string(s, p, single_quote, eof_is_bad, acc).errors.len() == 0,
    decreases s.len() - p,
{
    if 0 <= p < s.len() {
        let c = s[p];
        if c == '\\' && p + 1 < s.len() {
            if is_newline(s[p + 1]) {
                lemma_quoted_string_errors(s, p + 2, single_quote, eof_is_bad, acc);
            } else {
                let (e, q) = escape(s, p + 1);
                lemma_escape_bounds(s, p + 1);
                lemma_quoted_string_errors(s, q, single_quote, eof_is_bad, acc.push(e));
            }
        } else if !((c == '"' && !single_quote) || (c == '\'' && single_quote)) && !is_newline(c)
            && c != '\\' {
            lemma_quoted_string_errors(s, p + 1, single_quote, eof_is_bad, acc.push(c));
        }
    }
}

proof fn lemma_url_end_errors(s: Seq<char>, p: int, value: Seq<char>)
    ensures
        url_end(s, p, value).errors.len() <= 1,
        url_end(s, p, value).token is URL || url_end(s, p, value).token is BadURL,
    decreases s.len() - p,
{
    if 0 <= p < s.len() && is_whitespace(s[p]) {
        lemma_url_end_errors(s, p + 1, value);
    }
}

proof fn lemma_unquoted_url_errors(s: Seq<char>, p: int, acc: Seq<char>)
    ensures
        unquoted_url(s, p, acc).errors.len() <= 1,
        unquoted_url(s, p, acc).token is URL || unquoted_url(s, p, acc).token is BadURL,
    decreases s.len() - p,
{
    if 0 <= p < s.len() {
        let c = s[p];
        if is_whitespace(c) {
            lemma_url_end_errors(s, p + 1, acc);
        } else if c == ')' {
        } else if is_non_printable(c) || c == '"' || c == '\'' || c == '(' {
        } else if c == '\\' {
            if !(p + 1 >= s.len() || is_newline(s[p + 1])) {
                let (e, q) = escape(s, p + 1);
                lemma_escape_bounds(s, p + 1);
                lemma_unquoted_url_errors(s, q, acc.push(e));
            }
        } else {
            lemma_unquoted_url_errors(s, p + 1, acc.push(c));
        }
    }
}

proof fn lemma_quoted_url_errors(s: Seq<char>, p: int, single_quote: bool)
    requires
        0 <= p < s.len(),
    ensures
        quoted_url(s, p, single_quote).errors.len() <= 1,
        quoted_url(s, p, single_quote).token is URL || quoted_url(s, p, single_quote).token is BadURL,
{
    let string = quoted_string(s, p + 1, single_quote, true, seq![]);
    lemma_quoted_string_errors(s, p + 1, single_quote, true, seq![]);
    lemma_quoted_string_bounds(s, p + 1, single_quote, true, seq![]);
    if let SpecToken::String(v) = string.token {
        lemma_url_end_errors(s, string.pos, v);
    }
}

proof fn lemma_url_errors(s: Seq<char>, p: int)
    ensures
        url(s, p).errors.len() <= 1,
        url(s, p).token is URL || url(s, p).token is BadURL,
    decreases s.len() - p,
{
    if 0 <= p < s.len() {
        if is_whitespace(s[p]) {
            lemma_url_errors(s, p + 1);
        } else if s[p] == '"' {
            lemma_quoted_url_errors(s, p, false);
        } else if s[p] == '\'' {
            lemma_quoted_url_errors(s, p, true);
        } else if s[p] != ')' {
            lemma_unquoted_url_errors(s, p, seq![]);
        }
    }
}

proof fn lemma_transform_whitespace_facts(s: Seq<char>, p: int, name: Seq<char>)
    requires
        name.len() > 0,
    ensures
        transform_whitespace(s, p, name).errors.len() == 0,
        is_well_formed(transform_whitespace(s, p, name).token),
        !(transform_whitespace(s, p, name).token is WhiteSpace),
    decreases s.len() - p,
{
    if 0 <= p < s.len() && is_whitespace(s[p]) {
        lemma_transform_whitespace_facts(s, p + 1, name);
    }
}

proof fn lemma_ident_rest_facts(s: Seq<char>, p: int, acc: Seq<char>, tfw: bool)
    requires
        acc.len() > 0,
    ensures
        ident_rest(s, p, acc, tfw).errors.len() <= 1,
        is_well_formed(ident_rest(s, p, acc, tfw).token),
        !(ident_rest(s, p, acc, tfw).token is WhiteSpace),
    decreases s.len() - p,
{
    if 0 <= p < s.len() {
        lemma_name_code_point_bounds(s, p);
        match name_code_point(s, p) {
            Some((c, q)) => {
                lemma_ident_rest_facts(s, q, acc.push(c), tfw);
            },
            None => {
                if tfw && is_whitespace(s[p]) {
                    lemma_transform_whitespace_facts(s, p + 1, acc);
                } else if s[p] == '(' {
                    lemma_url_errors(s, p + 1);
                }
            },
        }
    }
}

/// Each token reports at most one parse error, and its value is well formed.
proof fn lemma_token_step_facts(s: Seq<char>, p: int, tfw: bool)
    requires
        0 <= p < s.len(),
    ensures
        token_step(s, p, tfw).errors.len() <= 1,
        is_well_formed(token_step(s, p, tfw).token),
        token_step(s, p, tfw).token is WhiteSpace ==> is_whitespace(s[p]) && token_step(
            s,
            p,
            tfw,
        ).pos == whitespace_end(s, p + 1),
{
    let c = s[p];
    let q = p + 1;
    lemma_quoted_string_errors(s, q, false, false, seq![]);
    lemma_quoted_string_errors(s, q, true, false, seq![]);
    lemma_quoted_string_bounds(s, q, false, false, seq![]);
    lemma_quoted_string_bounds(s, q, true, false, seq![]);
    lemma_ident_rest_facts(s, q, seq![c], tfw);
    lemma_ident_rest_facts(s, q, seq!['-'], tfw);
    if q < s.len() {
        lemma_ident_rest_facts(s, q, seq![s[q]], tfw);
        let (e, r) = escape(s, q);
        lemma_ident_rest_facts(s, r, seq![e], tfw);
    }
    if let Some((c1, q1)) = name_code_point(s, q) {
        lemma_name_rest_grows(s, q1, seq![c1]);
    }
    if let Some((c2, q2)) = at_keyword_start(s, q) {
        lemma_name_rest_grows(s, q2, seq![c2]);
    }
}

proof fn lemma_whitespace_end_stops(s: Seq<char>, p: int)
    requires
        0 <= p <= s.len(),
    ensures
        whitespace_end(s, p) >= s.len() || !is_whitespace(s[whitespace_end(s, p)]),
    decreases s.len() - p,
{
    if p < s.len() && is_whitespace(s[p]) {
        lemma_whitespace_end_stops(s, p + 1);
    }
}

/// No character that can start a parse error: no backslash, no quote, no
/// `/` and no `(`.
pub open spec fn has_no_error_trigger(s: Seq<char>) -> bool {
    forall|i: int|
        0 <= i < s.len() ==> #[trigger] s[i] != '\\' && s[i] != '"' && s[i] != '\'' && s[i]
            != '/' && s[i] != '('
}

proof fn lemma_ident_rest_no_errors(s: Seq<char>, p: int, acc: Seq<char>, tfw: bool)
    requires
        has_no_error_trigger(s),
        acc.len() > 0,
    ensures
        ident_rest(s, p, acc, tfw).errors.len() == 0,
    decreases s.len() - p,
{
    if 0 <= p < s.len() {
        assert(s[p] != '(');
        lemma_name_code_point_bounds(s, p);
        match name_code_point(s, p) {
            Some((c, q)) => {
                lemma_ident_rest_no_errors(s, q, acc.push(c), tfw);
            },
            None => {
                lemma_transform_whitespace_facts(s, p + 1, acc);
            },
        }
    }
}

proof fn lemma_token_step_no_errors(s: Seq<char>, p: int, tfw: bool)
    requires
        has_no_error_trigger(s),
        0 <= p < s.len(),
    ensures
        token_step(s, p, tfw).errors.len() == 0,
{
    let c = s[p];
    let q = p + 1;
    assert(c != '\\' && c != '"' && c != '\'' && c != '/');
    lemma_ident_rest_no_errors(s, q, seq![c], tfw);
    lemma_ident_rest_no_errors(s, q, seq!['-'], tfw);
    if q < s.len() {
        lemma_ident_rest_no_errors(s, q, seq![s[q]], tfw);
    }
}

proof fn lemma_run_facts(s: Seq<char>, p: int, tfw: bool)
    requires
        0 <= p <= s.len() + 1,
    ensures
        p <= s.len() ==> run(s, p, tfw).0.len() <= s.len() - p,
        run(s, p, tfw).0.len() == 0 <==> p >= s.len(),
        run(s, p, tfw).1.len() <= run(s, p, tfw).0.len(),
        has_no_error_trigger(s) ==> run(s, p, tfw).1.len() == 0,
        forall|i: int| 0 <= i < run(s, p, tfw).0.len() ==> is_well_formed(#[trigger] run(s, p, tfw).0[i]),
        forall|i: int|
            0 <= i < run(s, p, tfw).0.len() - 1 && #[trigger] run(s, p, tfw).0[i] is WhiteSpace
                ==> !(run(s, p, tfw).0[i + 1] is WhiteSpace),
        p < s.len() ==> run(s, p, tfw).0.len() > 0 && run(s, p, tfw).0[0] == token_step(s, p, tfw).token,
    decreases s.len() + 1 - p,
{
    if p < s.len() {
        let step = token_step(s, p, tfw);
        lemma_token_step_progress(s, p, tfw);
        lemma_token_step_facts(s, p, tfw);
        if has_no_error_trigger(s) {
            lemma_token_step_no_errors(s, p, tfw);
        }
        lemma_run_facts(s, step.pos, tfw);
        let rest = run(s, step.pos, tfw);
        let all = run(s, p, tfw).0;
        assert(all =~= seq![step.token] + rest.0);
        if step.token is WhiteSpace && step.pos < s.len() {
            // A whitespace token ends where the whitespace does, so the next
            // token does not start with whitespace.
            lemma_whitespace_end_stops(s, p + 1);
            lemma_token_step_facts(s, step.pos, tfw);
        }
        assert forall|i: int| 0 <= i < all.len() implies is_well_formed(#[trigger] all[i]) by {
            if i > 0 {
                assert(all[i] == rest.0[i - 1]);
            }
        }
        assert forall|i: int|
            0 <= i < all.len() - 1 && #[trigger] all[i] is WhiteSpace implies !(all[i
                + 1] is WhiteSpace) by {
            assert(all[i + 1] == rest.0[i]);
            if i > 0 {
                assert(all[i] == rest.0[i - 1]);
            }
        }
    }
}

/// Every token takes at least one character of the preprocessed input, so
/// there are never more tokens than characters, and there are none exactly
/// when the preprocessed input is empty.
pub proof fn lemma_tokens_at_most_chars(input: Seq<char>, tfw: bool)
    ensures
        tokenization(input, tfw).0.len() <= preprocessed(input).len(),
        tokenization(input, tfw).0.len() == 0 <==> preprocessed(input).len() == 0,
{
    lemma_run_facts(preprocessed(input), 0, tfw);
}

/// Every token reports at most one parse error, so there are never more
/// parse errors than tokens.
pub proof fn lemma_errors_at_most_tokens(input: Seq<char>, tfw: bool)
    ensures
        tokenization(input, tfw).1.len() <= tokenization(input, tfw).0.len(),
{
    lemma_run_facts(preprocessed(input), 0, tfw);
}

/// Every token is well formed: names are not empty and unicode ranges are
/// ordered and end at U+10FFFF at the latest.
pub proof fn lemma_tokens_well_formed(input: Seq<char>, tfw: bool)
    ensures
        forall|i: int|
            0 <= i < tokenization(input, tfw).0.len() ==> is_well_formed(
                #[trigger] tokenization(input, tfw).0[i],
            ),
{
    lemma_run_facts(preprocessed(input), 0, tfw);
}

/// A run of whitespace makes a single whitespace token: two whitespace
/// tokens never follow each other.
pub proof fn lemma_no_adjacent_whitespace(input: Seq<char>, tfw: bool)
    ensures
        forall|i: int|
            0 <= i < tokenization(input, tfw).0.len() - 1 && #[trigger] tokenization(
                input,
                tfw,
            ).0[i] is WhiteSpace ==> !(tokenization(input, tfw).0[i + 1] is WhiteSpace),
{
    lemma_run_facts(preprocessed(input), 0, tfw);
}

/// Without a backslash, a quote, a `/` or a `(` in the preprocessed input,
/// tokenization reports no parse error.
pub proof fn lemma_no_error_without_trigger(input: Seq<char>, tfw: bool)
    requires
        has_no_error_trigger(preprocessed(input)),
    ensures
        tokenization(input, tfw).1.len() == 0,
{
    lemma_run_facts(preprocessed(input), 0, tfw);
}

} // verus!
