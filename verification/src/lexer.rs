//! The tokenization state machine over the preprocessed input.
use vstd::prelude::*;
use crate::chars::{
    digit_value, hex_digit, hex_digit_value, is_hex, name_ascii, name_start_ascii,
    newline, non_ascii, non_printable, whitespace,
};
use crate::spec::{self, ParseErrorKind, SpecToken, Step, MAX_UNICODE};
use crate::preprocess::preprocess;
use crate::text::{char_from_u32, chars_to_string};
use crate::token::Token;

verus! {

struct State {
    transform_function_whitespace: bool,
    quirks_mode: bool,
    input: Vec<char>,
    position: usize,  // Counted in characters
    errors: Vec<ParseErrorKind>,
}

impl State {
    spec fn wf(self) -> bool {
        &&& self.position <= self.input.len()
        &&& self.input.len() < usize::MAX
    }

    spec fn s(self) -> Seq<char> {
        self.input@
    }

    spec fn p(self) -> int {
        self.position as int
    }

    /// `self` is `before` after `step`, which ends past the end at the
    /// latest: same input and flags, the position the step ends at, and its
    /// errors appended.
    spec fn took_past(self, before: State, step: Step) -> bool {
        &&& self.input@ == before.input@
        &&& self.transform_function_whitespace == before.transform_function_whitespace
        &&& self.quirks_mode == before.quirks_mode
        &&& self.position == step.pos
        &&& self.errors@ =~= before.errors@ + step.errors
        &&& self.position <= self.input.len() + 1
        &&& self.input.len() < usize::MAX
    }

    /// `self` is `before` after `step`, which ends within the input.
    spec fn took(self, before: State, step: Step) -> bool {
        &&& self.took_past(before, step)
        &&& self.wf()
    }

    /// Same input, flags and errors.
    spec fn same(self, before: State) -> bool {
        &&& self.input@ == before.input@
        &&& self.transform_function_whitespace == before.transform_function_whitespace
        &&& self.quirks_mode == before.quirks_mode
        &&& self.errors@ == before.errors@
    }
}

fn is_eof(state: &State) -> (b: bool)
    ensures
        b == (state.position >= state.input.len()),
{
    state.position >= state.input.len()
}

/// The character at the position; past the end, NUL, which no state takes
/// for part of a token.
fn current_char(state: &State) -> (c: char)
    ensures
        c == if state.position < state.input.len() {
            state.input@[state.p()]
        } else {
            '\0'
        },
{
    if state.position < state.input.len() {
        state.input[state.position]
    } else {
        '\0'
    }
}

/// The next `n` characters (fewer near the end of the input), which the
/// data state compares with `->` and `!--`.
fn next_n_bytes(state: &State, n: usize) -> (r: Vec<char>)
    requires
        state.wf(),
    ensures
        r@ == spec::lookahead(state.s(), state.p(), n as int),
{
    let end = if n <= state.input.len() - state.position {
        state.position + n
    } else {
        state.input.len()
    };
    let mut r: Vec<char> = Vec::new();
    let mut i = state.position;
    while i < end
        invariant
            state.position <= i <= end <= state.input.len(),
            r@ == state.s().subrange(state.p(), i as int),
        decreases end - i,
    {
        r.push(state.input[i]);
        assert(state.s().subrange(state.p(), i + 1) =~= state.s().subrange(state.p(), i as int).push(
            state.s()[i as int],
        ));
        i = i + 1;
    }
    r
}

fn consume_char(state: &mut State) -> (c: char)
    requires
        old(state).position < old(state).input.len(),
    ensures
        c == old(state).s()[old(state).p()],
        final(state).same(*old(state)),
        final(state).position == old(state).position + 1,
{
    let c = state.input[state.position];
    state.position = state.position + 1;
    c
}

proof fn lemma_pow16_le(i: nat, j: nat)
    requires
        i <= j,
    ensures
        pow16(i) <= pow16(j),
    decreases j,
{
    if i < j {
        lemma_pow16_le(i, (j - 1) as nat);
    }
}

spec fn pow16(n: nat) -> nat
    decreases n,
{
    if n == 0 {
        1
    } else {
        16 * pow16((n - 1) as nat)
    }
}

proof fn lemma_hex_value_bound(d: Seq<char>)
    requires
        forall|i: int| 0 <= i < d.len() ==> is_hex(#[trigger] d[i]),
    ensures
        spec::hex_value(d) < pow16(d.len()),
    decreases d.len(),
{
    if d.len() > 0 {
        lemma_hex_value_bound(d.drop_last());
        let v = spec::hex_value(d.drop_last());
        let x = hex_digit_value(d.last());
        assert(v * 16 + x < 16 * pow16((d.len() - 1) as nat)) by (nonlinear_arith)
            requires
                v < pow16((d.len() - 1) as nat),
                x < 16,
        ;
    }
}

proof fn lemma_code_point_char(c: char, v: u32)
    requires
        c as u32 == v,
    ensures
        v as char == c,
{
}


/// 3.3.27 (part): the value of up to six hexadecimal digits.
fn char_from_hex(hex: &Vec<char>) -> (v: u32)
    requires
        hex.len() <= 6,
        forall|i: int| 0 <= i < hex.len() ==> is_hex(#[trigger] hex@[i]),
    ensures
        v == spec::hex_value(hex@),
{
    let mut v: u32 = 0;
    let mut i: usize = 0;
    while i < hex.len()
        invariant
            i <= hex.len() <= 6,
            forall|k: int| 0 <= k < hex.len() ==> is_hex(#[trigger] hex@[k]),
            v == spec::hex_value(hex@.take(i as int)),
        decreases hex.len() - i,
    {
        let d = digit_value(hex[i]);
        let ghost t = hex@.take(i + 1);
        assert(t.drop_last() =~= hex@.take(i as int));
        proof {
            lemma_hex_value_bound(t);
            lemma_pow16_le(t.len(), 6);
            reveal_with_fuel(pow16, 7);
        }
        v = v * 16 + d;
        i = i + 1;
    }
    assert(hex@.take(hex.len() as int) =~= hex@);
    v
}

/// 3.3.27. Consume an escaped character: the backslash has been consumed
/// and the character at the position is neither a newline nor the end.
fn consume_escape(state: &mut State) -> (c: char)
    requires
        old(state).wf(),
        old(state).position < old(state).input.len(),
    ensures
        final(state).same(*old(state)),
        final(state).wf(),
        (c, final(state).p()) == spec::escape(old(state).s(), old(state).p()),
{
    let ghost s = state.s();
    let ghost p = state.p();
    let c = consume_char(state);
    if hex_digit(c) {
        let mut hex: Vec<char> = vec![c];
        assert(hex@ =~= s.subrange(p, p + 1));
        while hex.len() < 6 && !is_eof(state) && hex_digit(current_char(state))
            invariant
                state.same(*old(state)),
                state.s() == s,
                0 <= p,
                p + 1 <= state.position <= s.len(),
                hex.len() == state.position - p,
                1 <= hex.len() <= 6,
                hex@ == s.subrange(p, state.p()),
                spec::hex_run(s, p + 1, 5) == (state.p() - p - 1) + spec::hex_run(
                    s,
                    state.p(),
                    (6 - hex.len()) as nat,
                ),
            decreases 6 - hex.len(),
        {
            let d = current_char(state);
            let ghost q = state.p();
            assert(s.subrange(p, q + 1) =~= s.subrange(p, q).push(d));
            hex.push(d);
            state.position = state.position + 1;
        }
        if !is_eof(state) && whitespace(current_char(state)) {
            state.position = state.position + 1;
        }
        proof {
            spec::lemma_hex_run_bounds(s, p + 1, 5);
        }
        let v = char_from_hex(&hex);
        if v == 0 {
            '\u{FFFD}'
        } else {
            match char_from_u32(v) {
                Some(ch) => {
                    proof {
                        lemma_code_point_char(ch, v);
                    }
                    ch
                },
                None => '\u{FFFD}',
            }
        }
    } else {
        c
    }
}

/// One name character, as the hash, at-keyword and ident states read them:
/// an ASCII name character, a non-ASCII character or a valid escape.
fn consume_name_code_point(state: &mut State) -> (r: Option<char>)
    requires
        old(state).wf(),
    ensures
        final(state).same(*old(state)),
        final(state).wf(),
        match spec::name_code_point(old(state).s(), old(state).p()) {
            Some((c, q)) => r == Some(c) && final(state).p() == q,
            None => r is None && final(state).position == old(state).position,
        },
{
    let c = current_char(state);
    if name_ascii(c) {
        state.position = state.position + 1;
        Some(c)
    } else if non_ascii(c) {
        Some(consume_char(state))
    } else if c == '\\' {
        state.position = state.position + 1;
        if is_eof(state) {
            state.position = state.position - 1;
            None
        } else if newline(current_char(state)) {
            state.position = state.position - 1;
            None
        } else {
            Some(consume_escape(state))
        }
    } else {
        None
    }
}

/// 3.3.8, 3.3.11: the rest of a name after `name`.
fn consume_name_rest(state: &mut State, name: Vec<char>) -> (r: Vec<char>)
    requires
        old(state).wf(),
    ensures
        final(state).same(*old(state)),
        final(state).wf(),
        (r@, final(state).p()) == spec::name_rest(old(state).s(), old(state).p(), name@),
{
    let ghost s = state.s();
    let ghost init = name@;
    let ghost goal = spec::name_rest(state.s(), state.p(), init);
    let mut name = name;
    loop
        invariant
            goal == spec::name_rest(old(state).s(), old(state).p(), init),
            s == old(state).s(),
            state.same(*old(state)),
            state.wf(),
            state.s() == s,
            spec::name_rest(s, state.p(), name@) == goal,
        ensures
            state.same(*old(state)),
            state.wf(),
            (name@, state.p()) == goal,
        decreases s.len() - state.position,
    {
        proof {
            spec::lemma_name_code_point_bounds(s, state.p());
        }
        match consume_name_code_point(state) {
            Some(c) => {
                name.push(c);
            },
            None => {
                break ;
            },
        }
    }
    name
}

/// 3.3.7. Hash state, after the `#`.
fn consume_hash(state: &mut State) -> (t: Token)
    requires
        old(state).wf(),
    ensures
        final(state).took(*old(state), spec::hash(old(state).s(), old(state).p())),
        t@ == spec::hash(old(state).s(), old(state).p()).token,
{
    match consume_name_code_point(state) {
        None => Token::Delim('#'),
        Some(c) => {
            // 3.3.8. Hash-rest state
            let initial = vec![c];
            assert(initial@ =~= seq![c]);
            let name = consume_name_rest(state, initial);
            Token::Hash(chars_to_string(&name))
        },
    }
}

/// 3.3.10. At-keyword state, after the `@`.
fn consume_at_keyword(state: &mut State) -> (t: Token)
    requires
        old(state).wf(),
    ensures
        final(state).took(*old(state), spec::at_keyword(old(state).s(), old(state).p())),
        t@ == spec::at_keyword(old(state).s(), old(state).p()).token,
{
    let c = current_char(state);
    let initial_char: char;
    if c == '-' {
        state.position = state.position + 1;
        if is_eof(state) {
            state.position = state.position - 1;
            return Token::Delim('@');
        }
        let d = current_char(state);
        if d == '\\' {
            state.position = state.position + 1;
            if is_eof(state) {
                state.position = state.position - 2;
                return Token::Delim('@');
            } else if newline(current_char(state)) {
                state.position = state.position - 2;
                return Token::Delim('@');
            }
            state.position = state.position - 1;
            initial_char = '-';
        } else if name_start_ascii(d) || non_ascii(d) {
            initial_char = '-';
        } else {
            state.position = state.position - 1;
            return Token::Delim('@');
        }
    } else if name_start_ascii(c) {
        state.position = state.position + 1;
        initial_char = c;
    } else if non_ascii(c) {
        initial_char = consume_char(state);
    } else if c == '\\' {
        state.position = state.position + 1;
        if is_eof(state) {
            state.position = state.position - 1;
            return Token::Delim('@');
        } else if newline(current_char(state)) {
            state.position = state.position - 1;
            return Token::Delim('@');
        }
        initial_char = consume_escape(state);
    } else {
        return Token::Delim('@');
    }
    // 3.3.11. At-keyword-rest state
    let initial = vec![initial_char];
    assert(initial@ =~= seq![initial_char]);
    let name = consume_name_rest(state, initial);
    Token::AtKeyword(chars_to_string(&name))
}

fn report_error(state: &mut State, e: ParseErrorKind)
    ensures
        final(state).input@ == old(state).input@,
        final(state).transform_function_whitespace == old(state).transform_function_whitespace,
        final(state).quirks_mode == old(state).quirks_mode,
        final(state).position == old(state).position,
        final(state).errors@ == old(state).errors@ + seq![e],
{
    state.errors.push(e);
    assert(state.errors@ =~= old(state).errors@ + seq![e]);
}

fn is_url(name: &Vec<char>) -> (b: bool)
    ensures
        b == (name@ =~= seq!['u', 'r', 'l']),
{
    name.len() == 3 && name[0] == 'u' && name[1] == 'r' && name[2] == 'l'
}

/// 3.3.12. Ident state and 3.3.13. Ident-rest state: `initial_char` starts
/// the name and the position is at the next character.
fn consume_ident(state: &mut State, initial_char: char) -> (t: Token)
    requires
        old(state).wf(),
    ensures
        final(state).took_past(
            *old(state),
            spec::ident_rest(
                old(state).s(),
                old(state).p(),
                seq![initial_char],
                old(state).transform_function_whitespace,
            ),
        ),
        t@ == spec::ident_rest(
            old(state).s(),
            old(state).p(),
            seq![initial_char],
            old(state).transform_function_whitespace,
        ).token,
{
    let ghost s = state.s();
    let ghost tfw = state.transform_function_whitespace;
    let ghost goal = spec::ident_rest(s, state.p(), seq![initial_char], tfw);
    let mut name = vec![initial_char];
    assert(name@ =~= seq![initial_char]);
    loop
        invariant
            goal == spec::ident_rest(old(state).s(), old(state).p(), seq![initial_char], tfw),
            s == old(state).s(),
            state.same(*old(state)),
            state.wf(),
            state.s() == s,
            tfw == state.transform_function_whitespace,
            spec::ident_rest(s, state.p(), name@, tfw) == goal,
        decreases s.len() - state.position,
    {
        if is_eof(state) {
            return Token::Ident(chars_to_string(&name));
        }
        proof {
            spec::lemma_name_code_point_bounds(s, state.p());
        }
        match consume_name_code_point(state) {
            Some(c) => {
                name.push(c);
            },
            None => {
                let c = current_char(state);
                if state.transform_function_whitespace && whitespace(c) {
                    state.position = state.position + 1;
                    return handle_transform_function_whitespace(state, name);
                }
                if c == '(' {
                    state.position = state.position + 1;
                    if is_url(&ascii_lower(&name)) {
                        return consume_url(state);
                    }
                    return Token::Function(chars_to_string(&name));
                }
                return Token::Ident(chars_to_string(&name));
            },
        }
    }
}

/// ASCII lower case of `name`.
fn ascii_lower(name: &Vec<char>) -> (r: Vec<char>)
    ensures
        r@ == spec::ascii_lower(name@),
{
    let mut r: Vec<char> = Vec::new();
    let mut i: usize = 0;
    while i < name.len()
        invariant
            i <= name.len(),
            r@ =~= spec::ascii_lower(name@.take(i as int)),
        decreases name.len() - i,
    {
        let c = name[i];
        let lower = if 'A' <= c && c <= 'Z' {
            ((c as u8) + 32) as char
        } else {
            c
        };
        r.push(lower);
        assert(name@.take(i + 1) =~= name@.take(i as int).push(c));
        i += 1;
    }
    assert(name@.take(name.len() as int) =~= name@);
    r
}

/// 3.3.14. Transform-function-whitespace state, after the first whitespace
/// character that follows a name.
fn handle_transform_function_whitespace(state: &mut State, name: Vec<char>) -> (t: Token)
    requires
        old(state).wf(),
        old(state).position >= 1,
    ensures
        final(state).took(
            *old(state),
            spec::transform_whitespace(old(state).s(), old(state).p(), name@),
        ),
        t@ == spec::transform_whitespace(old(state).s(), old(state).p(), name@).token,
{
    let ghost s = state.s();
    let ghost goal = spec::transform_whitespace(s, state.p(), name@);
    loop
        invariant
            goal == spec::transform_whitespace(old(state).s(), old(state).p(), name@),
            s == old(state).s(),
            state.same(*old(state)),
            state.wf(),
            state.s() == s,
            state.position >= 1,
            spec::transform_whitespace(s, state.p(), name@) == goal,
        ensures
            state.same(*old(state)),
            state.wf(),
            state.position >= 1,
            goal == spec::done(SpecToken::Ident(name@), state.p() - 1),
        decreases s.len() - state.position,
    {
        if is_eof(state) {
            break ;
        }
        let c = current_char(state);
        if whitespace(c) {
            state.position = state.position + 1;
        } else if c == '(' {
            state.position = state.position + 1;
            return Token::Function(chars_to_string(&name));
        } else {
            break ;
        }
    }
    // Go back for one whitespace character.
    state.position = state.position - 1;
    return Token::Ident(chars_to_string(&name));
}

/// 3.3.20. URL state, after the `(`.
fn consume_url(state: &mut State) -> (t: Token)
    requires
        old(state).wf(),
    ensures
        final(state).took_past(*old(state), spec::url(old(state).s(), old(state).p())),
        t@ == spec::url(old(state).s(), old(state).p()).token,
{
    let ghost s = state.s();
    let ghost goal = spec::url(s, state.p());
    loop
        invariant
            goal == spec::url(old(state).s(), old(state).p()),
            s == old(state).s(),
            state.same(*old(state)),
            state.wf(),
            state.s() == s,
            spec::url(s, state.p()) == goal,
        decreases s.len() - state.position,
    {
        if is_eof(state) {
            report_error(state, ParseErrorKind::EofInUrl);
            return Token::BadURL;
        }
        let c = current_char(state);
        if whitespace(c) {
            state.position = state.position + 1;
        } else if c == '"' {
            return consume_quoted_url(state, false);
        } else if c == '\'' {
            return consume_quoted_url(state, true);
        } else if c == ')' {
            state.position = state.position + 1;
            return Token::URL(String::new());
        } else {
            return consume_unquoted_url(state);
        }
    }
}

/// 3.3.21. URL-double-quote state and 3.3.22. URL-single-quote state, at
/// the quote.
fn consume_quoted_url(state: &mut State, single_quote: bool) -> (t: Token)
    requires
        old(state).wf(),
        old(state).position < old(state).input.len(),
    ensures
        final(state).took_past(
            *old(state),
            spec::quoted_url(old(state).s(), old(state).p(), single_quote),
        ),
        t@ == spec::quoted_url(old(state).s(), old(state).p(), single_quote).token,
{
    let ghost s = state.s();
    let ghost p = state.p();
    proof {
        spec::lemma_quoted_string_bounds(s, p + 1, single_quote, true, seq![]);
    }
    state.position = state.position + 1;  // The initial quote
    match consume_quoted_string(state, single_quote, true) {
        Token::String(string) => {
            let t = consume_url_end(state, string);
            assert(state.errors@ =~= old(state).errors@ + spec::quoted_url(s, p, single_quote).errors);
            t
        },
        Token::BadString => {
            let t = consume_bad_url(state, false);
            assert(state.errors@ =~= old(state).errors@ + spec::quoted_url(s, p, single_quote).errors);
            t
        },
        _ => {
            proof {
                assert(false);
            }
            Token::BadURL
        },
    }
}

/// 3.3.5. Double-quote-string state and 3.3.6. Single-quote-string state,
/// after the opening quote.
fn consume_quoted_string(state: &mut State, single_quote: bool, eof_is_bad: bool) -> (t: Token)
    requires
        old(state).wf(),
    ensures
        final(state).took(
            *old(state),
            spec::quoted_string(old(state).s(), old(state).p(), single_quote, eof_is_bad, seq![]),
        ),
        t@ == spec::quoted_string(
            old(state).s(),
            old(state).p(),
            single_quote,
            eof_is_bad,
            seq![],
        ).token,
{
    let ghost s = state.s();
    let ghost goal = spec::quoted_string(s, state.p(), single_quote, eof_is_bad, seq![]);
    let mut string: Vec<char> = Vec::new();
    assert(string@ =~= seq![]);
    loop
        invariant
            goal == spec::quoted_string(old(state).s(), old(state).p(), single_quote, eof_is_bad, seq![]),
            s == old(state).s(),
            state.same(*old(state)),
            state.wf(),
            state.s() == s,
            spec::quoted_string(s, state.p(), single_quote, eof_is_bad, string@) == goal,
        decreases s.len() - state.position,
    {
        if is_eof(state) {
            report_error(state, ParseErrorKind::EofInQuotedString);
            if eof_is_bad {
                return Token::BadString;
            } else {
                return Token::String(chars_to_string(&string));
            }
        }
        let ghost p = state.p();
        let c = consume_char(state);
        if (c == '"' && !single_quote) || (c == '\'' && single_quote) {
            return Token::String(chars_to_string(&string));
        }
        if newline(c) {
            report_error(state, ParseErrorKind::NewlineInQuotedString);
            return Token::BadString;
        }
        if c == '\\' {
            if is_eof(state) {
                report_error(state, ParseErrorKind::EofInQuotedString);
                return Token::BadString;
            }
            if newline(current_char(state)) {
                // Consume quoted newline
                state.position = state.position + 1;
            } else {
                proof {
                    spec::lemma_escape_bounds(s, p + 1);
                }
                let e = consume_escape(state);
                string.push(e);
            }
        } else {
            string.push(c);
        }
    }
}

/// 3.3.23. URL-end state.
fn consume_url_end(state: &mut State, string: String) -> (t: Token)
    requires
        old(state).wf(),
    ensures
        final(state).took_past(*old(state), spec::url_end(old(state).s(), old(state).p(), string@)),
        t@ == spec::url_end(old(state).s(), old(state).p(), string@).token,
{
    let ghost s = state.s();
    let ghost goal = spec::url_end(s, state.p(), string@);
    loop
        invariant
            goal == spec::url_end(old(state).s(), old(state).p(), string@),
            s == old(state).s(),
            state.same(*old(state)),
            state.wf(),
            state.s() == s,
            spec::url_end(s, state.p(), string@) == goal,
        decreases s.len() - state.position,
    {
        if is_eof(state) {
            report_error(state, ParseErrorKind::EofInUrl);
            return Token::BadURL;
        }
        let c = consume_char(state);
        if whitespace(c) {
        } else if c == ')' {
            return Token::URL(string);
        } else {
            return consume_bad_url(state, true);
        }
    }
}

/// 3.3.24. URL-unquoted state.
fn consume_unquoted_url(state: &mut State) -> (t: Token)
    requires
        old(state).wf(),
    ensures
        final(state).took_past(*old(state), spec::unquoted_url(old(state).s(), old(state).p(), seq![])),
        t@ == spec::unquoted_url(old(state).s(), old(state).p(), seq![]).token,
{
    let ghost s = state.s();
    let ghost goal = spec::unquoted_url(s, state.p(), seq![]);
    let mut string: Vec<char> = Vec::new();
    assert(string@ =~= seq![]);
    loop
        invariant
            goal == spec::unquoted_url(old(state).s(), old(state).p(), seq![]),
            s == old(state).s(),
            state.same(*old(state)),
            state.wf(),
            state.s() == s,
            spec::unquoted_url(s, state.p(), string@) == goal,
        decreases s.len() - state.position,
    {
        if is_eof(state) {
            report_error(state, ParseErrorKind::EofInUrl);
            return Token::BadURL;
        }
        let ghost p = state.p();
        let c = consume_char(state);
        if whitespace(c) {
            return consume_url_end(state, chars_to_string(&string));
        } else if c == ')' {
            return Token::URL(chars_to_string(&string));
        } else if non_printable(c) || c == '"' || c == '\'' || c == '(' {
            return consume_bad_url(state, true);
        } else if c == '\\' {
            if is_eof(state) {
                return consume_bad_url(state, true);
            }
            if newline(current_char(state)) {
                return consume_bad_url(state, true);
            }
            proof {
                spec::lemma_escape_bounds(s, p + 1);
            }
            let e = consume_escape(state);
            string.push(e);
        } else {
            string.push(c);
        }
    }
}

/// 3.3.25. Bad-URL state: consume up to the closing `)`.
fn consume_bad_url(state: &mut State, log_error: bool) -> (t: Token)
    requires
        old(state).wf(),
    ensures
        final(state).took_past(*old(state), spec::bad_url(old(state).s(), old(state).p(), log_error)),
        t@ == spec::bad_url(old(state).s(), old(state).p(), log_error).token,
{
    let ghost s = state.s();
    let ghost goal = spec::bad_url_rest(s, state.p());
    if log_error {
        report_error(state, ParseErrorKind::InvalidUrlSyntax);
    }
    let ghost errors = state.errors@;
    // Consume up to the closing )
    while !is_eof(state)
        invariant_except_break
            spec::bad_url_rest(s, state.p()) == goal,
        invariant
            goal == spec::bad_url_rest(old(state).s(), old(state).p()),
            s == old(state).s(),
            state.input@ == s,
            state.transform_function_whitespace == old(state).transform_function_whitespace,
            state.quirks_mode == old(state).quirks_mode,
            state.errors@ == errors,
            state.position <= s.len() + 1,
            s.len() < usize::MAX,
        ensures
            state.input@ == s,
            state.transform_function_whitespace == old(state).transform_function_whitespace,
            state.quirks_mode == old(state).quirks_mode,
            state.errors@ == errors,
            state.position <= s.len() + 1,
            goal == state.p(),
        decreases s.len() + 1 - state.position,
    {
        let c = consume_char(state);
        if c == ')' {
            break ;
        }
        if c == '\\' {
            // Skip an escaped ) or \
            state.position = state.position + 1;
        }
    }
    if !log_error {
        assert(errors =~= old(state).errors@ + seq![]);
    }
    Token::BadURL
}

/// `hex` followed by `n` copies of `pad`.
fn padded(hex: &Vec<char>, pad: char, n: usize) -> (r: Vec<char>)
    ensures
        r@ == hex@ + spec::repeat(pad, n as nat),
{
    let mut r: Vec<char> = Vec::new();
    let mut i: usize = 0;
    while i < hex.len()
        invariant
            i <= hex.len(),
            r@ == hex@.take(i as int),
        decreases hex.len() - i,
    {
        r.push(hex[i]);
        assert(hex@.take(i + 1) =~= hex@.take(i as int).push(hex@[i as int]));
        i += 1;
    }
    let mut j: usize = 0;
    while j < n
        invariant
            j <= n,
            r@ =~= hex@ + spec::repeat(pad, j as nat),
        decreases n - j,
    {
        r.push(pad);
        j += 1;
    }
    r
}

/// 3.3.26. Unicode-range state, at the first hexadecimal digit after `U+`.
fn consume_unicode_range(state: &mut State) -> (t: Token)
    requires
        old(state).wf(),
        old(state).position < old(state).input.len(),
        is_hex(old(state).s()[old(state).p()]),
    ensures
        final(state).took(*old(state), spec::unicode_range(old(state).s(), old(state).p())),
        t@ == spec::unicode_range(old(state).s(), old(state).p()).token,
{
    let ghost s = state.s();
    let ghost p = state.p();
    let mut hex: Vec<char> = Vec::new();
    while hex.len() < 6 && !is_eof(state) && hex_digit(current_char(state))
        invariant
            state.same(*old(state)),
            state.s() == s,
            0 <= p,
            p <= state.position <= s.len(),
            hex.len() == state.position - p,
            hex.len() <= 6,
            hex@ == s.subrange(p, state.p()),
            forall|k: int| 0 <= k < hex.len() ==> is_hex(#[trigger] hex@[k]),
            spec::hex_run(s, p, 6) == hex.len() + spec::hex_run(
                s,
                state.p(),
                (6 - hex.len()) as nat,
            ),
        decreases 6 - hex.len(),
    {
        let d = current_char(state);
        let ghost q = state.p();
        assert(s.subrange(p, q + 1) =~= s.subrange(p, q).push(d));
        hex.push(d);
        state.position = state.position + 1;
    }
    assert(hex.len() > 0);
    let ghost k = hex.len() as int;
    let max_question_marks = 6 - hex.len();
    let mut question_marks: usize = 0;
    while question_marks < max_question_marks && !is_eof(state) && current_char(state) == '?'
        invariant
            state.same(*old(state)),
            state.s() == s,
            0 <= p,
            state.position == p + k + question_marks,
            state.position <= s.len(),
            question_marks <= max_question_marks,
            max_question_marks == 6 - k,
            spec::question_run(s, p + k, max_question_marks as nat) == question_marks
                + spec::question_run(s, state.p(), (max_question_marks - question_marks) as nat),
        decreases max_question_marks - question_marks,
    {
        question_marks = question_marks + 1;
        state.position = state.position + 1;
    }
    let start: u32;
    let end: u32;
    if question_marks > 0 {
        let low = padded(&hex, '0', question_marks);
        let high = padded(&hex, 'F', question_marks);
        assert forall|i: int| 0 <= i < low.len() implies is_hex(#[trigger] low@[i]) by {
            if i >= hex.len() {
                assert(low@[i] == '0');
            }
        }
        assert forall|i: int| 0 <= i < high.len() implies is_hex(#[trigger] high@[i]) by {
            if i >= hex.len() {
                assert(high@[i] == 'F');
            }
        }
        start = char_from_hex(&low);
        end = char_from_hex(&high);
    } else {
        start = char_from_hex(&hex);
        hex = Vec::new();
        let ghost dash = state.p();
        if !is_eof(state) && current_char(state) == '-' {
            state.position = state.position + 1;
            while hex.len() < 6 && !is_eof(state) && hex_digit(current_char(state))
                invariant
                    state.same(*old(state)),
                    state.s() == s,
                    0 <= dash,
                    dash + 1 <= state.position <= s.len(),
                    hex.len() == state.position - dash - 1,
                    hex.len() <= 6,
                    hex@ == s.subrange(dash + 1, state.p()),
                    forall|k: int| 0 <= k < hex.len() ==> is_hex(#[trigger] hex@[k]),
                    spec::hex_run(s, dash + 1, 6) == hex.len() + spec::hex_run(
                        s,
                        state.p(),
                        (6 - hex.len()) as nat,
                    ),
                decreases 6 - hex.len(),
            {
                let d = current_char(state);
                let ghost q = state.p();
                assert(s.subrange(dash + 1, q + 1) =~= s.subrange(dash + 1, q).push(d));
                hex.push(d);
                state.position = state.position + 1;
            }
        }
        end = if hex.len() > 0 {
            char_from_hex(&hex)
        } else {
            start
        };
    }
    // 3.3.28. Set the unicode-range token's range
    let t = if start > MAX_UNICODE || end < start {
        Token::EmptyUnicodeRange
    } else {
        Token::UnicodeRange(
            start,
            if end <= MAX_UNICODE {
                end
            } else {
                MAX_UNICODE
            },
        )
    };
    assert(state.errors@ =~= old(state).errors@ + seq![]);
    t
}

/// 3.3.9. Comment state, at the `*` of `/*`.
fn consume_comment(state: &mut State) -> (t: Token)
    requires
        old(state).wf(),
        old(state).position < old(state).input.len(),
    ensures
        final(state).took(*old(state), spec::comment(old(state).s(), old(state).p())),
        t@ == spec::comment(old(state).s(), old(state).p()).token,
{
    let ghost s = state.s();
    state.position = state.position + 1;  // consume the * in /*
    // Find the next "*/".
    let mut i = state.position;
    while state.input.len() - i >= 2 && !(state.input[i] == '*' && state.input[i + 1] == '/')
        invariant
            state.same(*old(state)),
            state.s() == s,
            state.position <= i <= s.len(),
            spec::comment_end(s, i as int) == spec::comment_end(s, state.p()),
        decreases s.len() - i,
    {
        i = i + 1;
    }
    if state.input.len() - i >= 2 {
        state.position = i + 2;
        assert(state.errors@ =~= old(state).errors@ + seq![]);
    } else {
        report_error(state, ParseErrorKind::EofInComment);
        state.position = state.input.len();
    }
    Token::Comment
}

/// 3.3.4. Data state: the token at the position.
fn consume_token(state: &mut State) -> (t: Token)
    requires
        old(state).wf(),
        old(state).position < old(state).input.len(),
    ensures
        final(state).took_past(
            *old(state),
            spec::token_step(
                old(state).s(),
                old(state).p(),
                old(state).transform_function_whitespace,
            ),
        ),
        t@ == spec::token_step(
            old(state).s(),
            old(state).p(),
            old(state).transform_function_whitespace,
        ).token,
{
    let ghost s = state.s();
    let ghost q = state.p() + 1;
    proof {
    }
    let c = consume_char(state);
    if whitespace(c) {
        while !is_eof(state) && whitespace(current_char(state))
            invariant
                state.same(*old(state)),
                state.s() == s,
                q <= state.position <= s.len(),
                spec::whitespace_end(s, state.p()) == spec::whitespace_end(s, q),
            decreases s.len() - state.position,
        {
            state.position = state.position + 1;
        }
        assert(state.errors@ =~= old(state).errors@ + seq![]);
        Token::WhiteSpace
    } else if c == '"' {
        consume_quoted_string(state, false, false)
    } else if c == '#' {
        consume_hash(state)
    } else if c == '\'' {
        consume_quoted_string(state, true, false)
    } else if c == '(' {
        assert(state.errors@ =~= old(state).errors@ + seq![]);
        Token::OpenParen
    } else if c == ')' {
        assert(state.errors@ =~= old(state).errors@ + seq![]);
        Token::CloseParen
    } else if c == '-' {
        if is_eof(state) {
            assert(state.errors@ =~= old(state).errors@ + seq![]);
            Token::Delim('-')
        } else {
            let d = current_char(state);
            if d == '\\' {
                state.position = state.position + 1;
                if is_eof(state) {
                    state.position = state.position - 1;
                    assert(state.errors@ =~= old(state).errors@ + seq![]);
                    Token::Delim('-')
                } else {
                    let e = current_char(state);
                    state.position = state.position - 1;
                    if newline(e) {
                        assert(state.errors@ =~= old(state).errors@ + seq![]);
                        Token::Delim('-')
                    } else {
                        consume_ident(state, '-')
                    }
                }
            } else if name_start_ascii(d) {
                consume_ident(state, c)
            } else if non_ascii(d) {
                consume_ident(state, d)
            } else {
                let next_2 = next_n_bytes(state, 2);
                assert(state.errors@ =~= old(state).errors@ + seq![]);
                if next_2.len() == 2 && next_2[0] == '-' && next_2[1] == '>' {
                    assert(next_2@ =~= seq!['-', '>']);
                    state.position = state.position + 2;
                    Token::CDC
                } else {
                    assert(!(next_2@ =~= seq!['-', '>']));
                    Token::Delim('-')
                }
            }
        }
    } else if c == '/' && !is_eof(state) && current_char(state) == '*' {
        consume_comment(state)
    } else if c == ':' {
        assert(state.errors@ =~= old(state).errors@ + seq![]);
        Token::Colon
    } else if c == ';' {
        assert(state.errors@ =~= old(state).errors@ + seq![]);
        Token::Semicolon
    } else if c == '<' {
        let next_3 = next_n_bytes(state, 3);
        assert(state.errors@ =~= old(state).errors@ + seq![]);
        if next_3.len() == 3 && next_3[0] == '!' && next_3[1] == '-' && next_3[2] == '-' {
            assert(next_3@ =~= seq!['!', '-', '-']);
            state.position = state.position + 3;
            Token::CDO
        } else {
            assert(!(next_3@ =~= seq!['!', '-', '-']));
            Token::Delim('<')
        }
    } else if c == '@' {
        consume_at_keyword(state)
    } else if c == '[' {
        assert(state.errors@ =~= old(state).errors@ + seq![]);
        Token::OpenBraket
    } else if c == '\\' {
        if is_eof(state) {
            report_error(state, ParseErrorKind::InvalidEscape);
            Token::Delim('\\')
        } else if newline(current_char(state)) {
            report_error(state, ParseErrorKind::InvalidEscape);
            Token::Delim('\\')
        } else {
            proof {
                spec::lemma_escape_bounds(s, q);
            }
            let e = consume_escape(state);
            consume_ident(state, e)
        }
    } else if c == ']' {
        assert(state.errors@ =~= old(state).errors@ + seq![]);
        Token::CloseBraket
    } else if c == '{' {
        assert(state.errors@ =~= old(state).errors@ + seq![]);
        Token::OpenBrace
    } else if c == '}' {
        assert(state.errors@ =~= old(state).errors@ + seq![]);
        Token::CloseBrace
    } else if c == 'u' || c == 'U' {
        let next_2 = next_n_bytes(state, 2);
        if next_2.len() == 2 && next_2[0] == '+' {
            if hex_digit(next_2[1]) {
                state.position = state.position + 1;
                consume_unicode_range(state)
            } else {
                consume_ident(state, c)
            }
        } else {
            consume_ident(state, c)
        }
    } else if name_start_ascii(c) || non_ascii(c) {
        consume_ident(state, c)
    } else {
        assert(state.errors@ =~= old(state).errors@ + seq![]);
        Token::Delim(c)
    }
}

/// The text of a parse error.
fn error_text(e: ParseErrorKind) -> (s: String)
    ensures
        s@ == spec::error_message(e),
{
    match e {
        ParseErrorKind::InvalidEscape => String::from_str("Invalid escape"),
        ParseErrorKind::NewlineInQuotedString => String::from_str("Newline in quoted string"),
        ParseErrorKind::EofInQuotedString => String::from_str("EOF in quoted string"),
        ParseErrorKind::EofInComment => String::from_str("EOF in comment"),
        ParseErrorKind::EofInUrl => String::from_str("EOF in URL"),
        ParseErrorKind::InvalidUrlSyntax => String::from_str("Invalid URL syntax"),
    }
}

/// The tokens of an input and the parse errors met on the way.
#[derive(Debug)]
pub struct TokenizeResult {
    pub tokens: Vec<Token>,
    pub parse_errors: Vec<String>,
}

/// Splits `input` into CSS tokens, after preprocessing. With
/// `transform_function_whitespace`, whitespace between a name and `(` still
/// makes a function token. `quirks_mode` changes nothing here.
///
/// The position can run one past the end of the input (a backslash that
/// ends a bad URL steps over one more character), so the number of
/// characters must stay below `usize::MAX`.
pub fn tokenize(input: &str, transform_function_whitespace: bool, quirks_mode: bool) -> (result:
    TokenizeResult)
    requires
        input@.len() < usize::MAX,
    ensures
        result.tokens@.map_values(|t: Token| t@) == spec::tokenization(
            input@,
            transform_function_whitespace,
        ).0,
        result.parse_errors@.map_values(|e: String| e@) == spec::tokenization(
            input@,
            transform_function_whitespace,
        ).1.map_values(|e: ParseErrorKind| spec::error_message(e)),
{
    let ghost chars = input@;
    let input = preprocess(input);
    let ghost s = input@;
    proof {
        crate::preprocess::lemma_preprocessed_not_longer(chars);
    }
    let ghost tfw = transform_function_whitespace;
    let mut state = State {
        transform_function_whitespace,
        quirks_mode,
        input,
        position: 0,
        errors: Vec::new(),
    };
    let mut tokens: Vec<Token> = Vec::new();
    assert(tokens@.map_values(|t: Token| t@) =~= seq![]);
    assert(state.errors@ =~= seq![]);
    while !is_eof(&state)
        invariant
            state.position <= state.input.len() + 1,
            state.input.len() < usize::MAX,
            state.s() == s,
            state.transform_function_whitespace == tfw,
            tokens@.map_values(|t: Token| t@) + spec::run(s, state.p(), tfw).0 == spec::run(
                s,
                0,
                tfw,
            ).0,
            state.errors@ + spec::run(s, state.p(), tfw).1 == spec::run(s, 0, tfw).1,
        decreases s.len() + 1 - state.position,
    {
        let ghost p = state.p();
        let ghost before = tokens@.map_values(|t: Token| t@);
        let ghost errors_before = state.errors@;
        let ghost step = spec::token_step(s, p, tfw);
        let ghost rest = spec::run(s, step.pos, tfw);
        proof {
            spec::lemma_token_step_progress(s, p, tfw);
        }
        let t = consume_token(&mut state);
        tokens.push(t);
        assert(tokens@.map_values(|t: Token| t@) =~= before.push(step.token));
        assert(before + (seq![step.token] + rest.0) =~= before.push(step.token) + rest.0);
        assert(errors_before + (step.errors + rest.1) =~= state.errors@ + rest.1);
    }
    assert(tokens@.map_values(|t: Token| t@) =~= spec::run(s, 0, tfw).0);
    assert(state.errors@ =~= spec::run(s, 0, tfw).1);
    let mut parse_errors: Vec<String> = Vec::new();
    let mut i: usize = 0;
    while i < state.errors.len()
        invariant
            i <= state.errors.len(),
            parse_errors@.map_values(|e: String| e@) =~= state.errors@.take(i as int).map_values(
                |e: ParseErrorKind| spec::error_message(e),
            ),
        decreases state.errors.len() - i,
    {
        let e = state.errors[i];
        let text = error_text(e);
        let ghost before = parse_errors@;
        parse_errors.push(text);
        assert(parse_errors@.map_values(|e: String| e@) =~= before.map_values(|e: String| e@).push(
            spec::error_message(e),
        ));
        assert(state.errors@.take(i + 1) =~= state.errors@.take(i as int).push(e));
        assert(state.errors@.take(i + 1).map_values(|e: ParseErrorKind| spec::error_message(e))
            =~= state.errors@.take(i as int).map_values(
            |e: ParseErrorKind| spec::error_message(e),
        ).push(spec::error_message(e)));
        i += 1;
    }
    assert(state.errors@.take(state.errors.len() as int) =~= state.errors@);
    TokenizeResult { tokens, parse_errors }
}

} // verus!
