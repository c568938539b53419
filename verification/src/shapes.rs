//! What single tokens look like: for families of inputs, the exact tokens
//! tokenization gives, stated over the characters of the input.
use vstd::prelude::*;
use crate::preprocess::{is_clean, lemma_clean_unchanged};
use crate::spec::{
    ascii_lower, ascii_lower_char, comment_end, hex_run, hex_value, ident_rest, name_rest,
    question_run, quoted_string, repeat, run, tokenization, unquoted_url, whitespace_end,
    SpecToken,
};

verus! {

pub open spec fn is_ascii_letter(c: char) -> bool {
    ('a' <= c && c <= 'z') || ('A' <= c && c <= 'Z')
}

pub open spec fn is_ascii_digit(c: char) -> bool {
    '0' <= c && c <= '9'
}

pub open spec fn is_hex_digit_char(c: char) -> bool {
    is_ascii_digit(c) || ('a' <= c && c <= 'f') || ('A' <= c && c <= 'F')
}

/// The value of a hexadecimal digit.
pub open spec fn digit_of(c: char) -> nat {
    if is_ascii_digit(c) {
        (c as int - '0' as int) as nat
    } else if 'a' <= c && c <= 'f' {
        (c as int - 'a' as int + 10) as nat
    } else {
        (c as int - 'A' as int + 10) as nat
    }
}

/// The number written in hexadecimal by `h`, most significant digit first.
pub open spec fn number_of(h: Seq<char>) -> nat
    decreases h.len(),
{
    if h.len() == 0 {
        0
    } else {
        number_of(h.drop_last()) * 16 + digit_of(h.last())
    }
}

pub open spec fn power16(k: nat) -> nat
    decreases k,
{
    if k == 0 {
        1
    } else {
        16 * power16((k - 1) as nat)
    }
}

proof fn lemma_number_is_hex_value(h: Seq<char>)
    ensures
        hex_value(h) == number_of(h),
    decreases h.len(),
{
    if h.len() > 0 {
        lemma_number_is_hex_value(h.drop_last());
    }
}

proof fn lemma_power16_positive(k: nat)
    ensures
        power16(k) >= 1,
    decreases k,
{
    if k > 0 {
        lemma_power16_positive((k - 1) as nat);
    }
}

/// Padding with `k` digits `0` multiplies by 16^k; padding with `k` digits
/// `F` also adds 16^k - 1.
proof fn lemma_padded_value(h: Seq<char>, k: nat)
    ensures
        hex_value(h + repeat('0', k)) == hex_value(h) * power16(k),
        hex_value(h + repeat('F', k)) == hex_value(h) * power16(k) + power16(k) - 1,
    decreases k,
{
    lemma_power16_positive(k);
    if k == 0 {
        assert(h + repeat('0', k) =~= h);
        assert(h + repeat('F', k) =~= h);
    } else {
        let k1 = (k - 1) as nat;
        lemma_padded_value(h, k1);
        lemma_power16_positive(k1);
        let z = h + repeat('0', k);
        let f = h + repeat('F', k);
        assert(z.drop_last() =~= h + repeat('0', k1));
        assert(f.drop_last() =~= h + repeat('F', k1));
        let v = hex_value(h);
        let p = power16(k1);
        assert(v * p * 16 == v * (16 * p)) by (nonlinear_arith);
        assert((v * p + p - 1) * 16 + 15 == v * (16 * p) + 16 * p - 1) by (nonlinear_arith)
            requires
                p >= 1,
        ;
    }
}

proof fn lemma_hex_run_of(s: Seq<char>, p: int, len: nat, max: nat)
    requires
        0 <= p,
        p + len <= s.len(),
        len <= max,
        forall|i: int| p <= i < p + len ==> is_hex_digit_char(#[trigger] s[i]),
        len < max ==> p + len == s.len() || !is_hex_digit_char(s[p + len]),
    ensures
        hex_run(s, p, max) == len,
    decreases len,
{
    if len > 0 {
        lemma_hex_run_of(s, p + 1, (len - 1) as nat, (max - 1) as nat);
    }
}

proof fn lemma_question_run_of(s: Seq<char>, p: int, k: nat, max: nat)
    requires
        0 <= p,
        p + k == s.len(),
        k <= max,
        forall|i: int| p <= i < p + k ==> #[trigger] s[i] == '?',
    ensures
        question_run(s, p, max) == k,
    decreases k,
{
    if k > 0 {
        lemma_question_run_of(s, p + 1, (k - 1) as nat, (max - 1) as nat);
    }
}

/// `U+` followed by hexadecimal digits `h` and `k` question marks is one
/// unicode range: each question mark stands for any digit, so the range
/// runs from value(h) * 16^k to value(h) * 16^k + 16^k - 1, clamped to
/// U+10FFFF, and is empty when it starts past U+10FFFF. No error.
pub proof fn law_unicode_range_wildcards(h: Seq<char>, k: nat, tfw: bool)
    requires
        h.len() >= 1,
        k >= 1,
        h.len() + k <= 6,
        forall|i: int| 0 <= i < h.len() ==> is_hex_digit_char(#[trigger] h[i]),
    ensures
        ({
            let start = number_of(h) * power16(k);
            let end = start + power16(k) - 1;
            let input = seq!['U', '+'] + h + Seq::new(k, |i: int| '?');
            &&& tokenization(input, tfw).0 == seq![
                if start > 0x10FFFF {
                    SpecToken::EmptyUnicodeRange
                } else {
                    SpecToken::UnicodeRange(
                        start as u32,
                        if end > 0x10FFFF {
                            0x10FFFFu32
                        } else {
                            end as u32
                        },
                    )
                },
            ]
            &&& tokenization(input, tfw).1.len() == 0
        }),
{
    let input = seq!['U', '+'] + h + Seq::new(k, |i: int| '?');
    let n = input.len() as int;
    let m = h.len() as int;
    assert(n == 2 + m + k);
    assert forall|i: int| 0 <= i < m implies input[2 + i] == h[i] by {}
    assert forall|i: int| 2 + m <= i < n implies input[i] == '?' by {}
    assert(is_clean(input)) by {
        assert forall|i: int| 0 <= i < n implies #[trigger] input[i] != '\r' && input[i] != '\0' by {
            if 2 <= i < 2 + m {
                assert(input[i] == h[i - 2]);
            }
        }
    }
    lemma_clean_unchanged(input);
    lemma_hex_run_of(input, 2, h.len(), 6);
    assert(input.subrange(2, 2 + m) =~= h);
    lemma_question_run_of(input, 2 + m, k, (6 - h.len()) as nat);
    assert(input.subrange(1, 3) =~= seq!['+', h[0]]);
    lemma_padded_value(h, k);
    lemma_number_is_hex_value(h);
    lemma_power16_positive(k);
    assert(run(input, n, tfw).0.len() == 0);
}

proof fn lemma_quoted_string_of(s: Seq<char>, t: Seq<char>, single_quote: bool, i: int)
    requires
        0 <= i <= t.len(),
        s.len() == t.len() + 2,
        forall|j: int| 0 <= j < t.len() ==> s[j + 1] == #[trigger] t[j],
        s[t.len() as int + 1] == (if single_quote { '\'' } else { '"' }),
        forall|j: int|
            0 <= j < t.len() ==> #[trigger] t[j] != (if single_quote {
                '\''
            } else {
                '"'
            }) && t[j] != '\\' && t[j] != '\n' && t[j] != '\x0C',
    ensures
        quoted_string(s, i + 1, single_quote, false, t.take(i)).token == SpecToken::String(t),
        quoted_string(s, i + 1, single_quote, false, t.take(i)).pos == s.len(),
        quoted_string(s, i + 1, single_quote, false, t.take(i)).errors.len() == 0,
    decreases t.len() - i,
{
    if i < t.len() {
        assert(s[i + 1] == t[i]);
        assert(t.take(i).push(t[i]) =~= t.take(i + 1));
        lemma_quoted_string_of(s, t, single_quote, i + 1);
    } else {
        assert(t.take(i) =~= t);
    }
}

/// A string between two quotes of the same kind, holding no such quote, no
/// backslash and no line break, is one string token holding exactly that
/// text, with no error. A quote of the other kind is part of the text.
pub proof fn law_quoted_string(t: Seq<char>, single_quote: bool, tfw: bool)
    requires
        forall|j: int|
            0 <= j < t.len() ==> #[trigger] t[j] != (if single_quote {
                '\''
            } else {
                '"'
            }) && t[j] != '\\' && t[j] != '\n' && t[j] != '\x0C' && t[j] != '\r' && t[j] != '\0',
    ensures
        ({
            let q = if single_quote {
                '\''
            } else {
                '"'
            };
            let input = seq![q] + t + seq![q];
            &&& tokenization(input, tfw).0 == seq![SpecToken::String(t)]
            &&& tokenization(input, tfw).1.len() == 0
        }),
{
    let q = if single_quote {
        '\''
    } else {
        '"'
    };
    let input = seq![q] + t + seq![q];
    let n = input.len() as int;
    assert forall|j: int| 0 <= j < t.len() implies input[j + 1] == #[trigger] t[j] by {}
    assert(is_clean(input)) by {
        assert forall|i: int| 0 <= i < n implies #[trigger] input[i] != '\r' && input[i] != '\0' by {
            if 1 <= i < n - 1 {
                assert(input[i] == t[i - 1]);
            }
        }
    }
    lemma_clean_unchanged(input);
    lemma_quoted_string_of(input, t, single_quote, 0);
    assert(t.take(0) =~= seq![]);
    assert(run(input, n, tfw).0.len() == 0);
}

pub open spec fn is_word_char(c: char) -> bool {
    is_ascii_letter(c) || is_ascii_digit(c) || c == '-'
}

proof fn lemma_ident_rest_of(s: Seq<char>, i: int, tfw: bool)
    requires
        1 <= i <= s.len(),
        forall|j: int| 0 <= j < s.len() ==> is_word_char(#[trigger] s[j]),
    ensures
        ident_rest(s, i, s.take(i), tfw).token == SpecToken::Ident(s),
        ident_rest(s, i, s.take(i), tfw).pos == s.len(),
        ident_rest(s, i, s.take(i), tfw).errors.len() == 0,
    decreases s.len() - i,
{
    if i < s.len() {
        assert(is_word_char(s[i]));
        assert(s.take(i).push(s[i]) =~= s.take(i + 1));
        lemma_ident_rest_of(s, i + 1, tfw);
    } else {
        assert(s.take(i) =~= s);
    }
}

/// A word of ASCII letters, digits and `-` that starts with a letter is one
/// ident token holding the whole word (`-` continues a name), with no error.
pub proof fn law_word_is_one_ident(w: Seq<char>, tfw: bool)
    requires
        w.len() >= 1,
        is_ascii_letter(w[0]),
        forall|j: int| 0 <= j < w.len() ==> is_word_char(#[trigger] w[j]),
    ensures
        tokenization(w, tfw).0 == seq![SpecToken::Ident(w)],
        tokenization(w, tfw).1.len() == 0,
{
    let n = w.len() as int;
    assert(is_clean(w)) by {
        assert forall|i: int| 0 <= i < n implies #[trigger] w[i] != '\r' && w[i] != '\0' by {
            assert(is_word_char(w[i]));
        }
    }
    lemma_clean_unchanged(w);
    lemma_ident_rest_of(w, 1, tfw);
    assert(w.take(1) =~= seq![w[0]]);
    if n >= 2 {
        assert(is_word_char(w[1]));
    }
    assert(run(w, n, tfw).0.len() == 0);
}

pub open spec fn is_hash_name_char(c: char) -> bool {
    is_ascii_letter(c) || is_ascii_digit(c) || c == '-' || c == '_'
}

proof fn lemma_name_rest_of(s: Seq<char>, name: Seq<char>, i: int)
    requires
        1 <= i <= name.len(),
        s.len() == name.len() + 1,
        forall|j: int| 0 <= j < name.len() ==> s[j + 1] == #[trigger] name[j],
        forall|j: int| 0 <= j < name.len() ==> is_hash_name_char(#[trigger] name[j]),
    ensures
        name_rest(s, i + 1, name.take(i)) == (name, s.len() as int),
    decreases name.len() - i,
{
    if i < name.len() {
        assert(s[i + 1] == name[i]);
        assert(is_hash_name_char(name[i]));
        assert(name.take(i).push(name[i]) =~= name.take(i + 1));
        lemma_name_rest_of(s, name, i + 1);
    } else {
        assert(name.take(i) =~= name);
    }
}

/// `#` followed by a name of ASCII letters, digits, `-` and `_` is one hash
/// token whose value is the name, unchanged, with no error.
pub proof fn law_hash_keeps_name(name: Seq<char>, tfw: bool)
    requires
        name.len() >= 1,
        forall|j: int| 0 <= j < name.len() ==> is_hash_name_char(#[trigger] name[j]),
    ensures
        tokenization(seq!['#'] + name, tfw).0 == seq![SpecToken::Hash(name)],
        tokenization(seq!['#'] + name, tfw).1.len() == 0,
{
    let input = seq!['#'] + name;
    let n = input.len() as int;
    assert forall|j: int| 0 <= j < name.len() implies input[j + 1] == #[trigger] name[j] by {}
    assert(is_clean(input)) by {
        assert forall|i: int| 0 <= i < n implies #[trigger] input[i] != '\r' && input[i] != '\0' by {
            if i >= 1 {
                assert(input[i] == name[i - 1]);
                assert(is_hash_name_char(name[i - 1]));
            }
        }
    }
    lemma_clean_unchanged(input);
    assert(is_hash_name_char(name[0]));
    assert(input[1] == name[0]);
    lemma_name_rest_of(input, name, 1);
    assert(name.take(1) =~= seq![name[0]]);
    assert(run(input, n, tfw).0.len() == 0);
}

proof fn lemma_comment_end_of(s: Seq<char>, t: Seq<char>, i: int)
    requires
        0 <= i <= t.len(),
        s.len() == t.len() + 5,
        forall|j: int| 0 <= j < t.len() ==> s[j + 2] == #[trigger] t[j],
        s[t.len() as int + 2] == '*',
        s[t.len() as int + 3] == '/',
        forall|j: int| 0 <= j < t.len() - 1 ==> !(#[trigger] t[j] == '*' && t[j + 1] == '/'),
    ensures
        comment_end(s, i + 2) == Some(t.len() as int + 2),
    decreases t.len() - i,
{
    if i < t.len() {
        assert(s[i + 2] == t[i]);
        if i + 1 < t.len() {
            assert(s[i + 3] == t[i + 1]);
        }
        lemma_comment_end_of(s, t, i + 1);
    }
}

/// A comment ends at the first `*/` after its opening `/*`: `/*`, text with
/// no `*/` in it (possibly none), `*/` and then `a` is a comment token and
/// an ident, with no error.
pub proof fn law_comment_closes(t: Seq<char>, tfw: bool)
    requires
        forall|j: int| 0 <= j < t.len() - 1 ==> !(#[trigger] t[j] == '*' && t[j + 1] == '/'),
        forall|j: int| 0 <= j < t.len() ==> #[trigger] t[j] != '\r' && t[j] != '\0',
    ensures
        tokenization(seq!['/', '*'] + t + seq!['*', '/', 'a'], tfw).0 == seq![
            SpecToken::Comment,
            SpecToken::Ident(seq!['a']),
        ],
        tokenization(seq!['/', '*'] + t + seq!['*', '/', 'a'], tfw).1.len() == 0,
{
    let input = seq!['/', '*'] + t + seq!['*', '/', 'a'];
    let n = input.len() as int;
    assert forall|j: int| 0 <= j < t.len() implies input[j + 2] == #[trigger] t[j] by {}
    assert(is_clean(input)) by {
        assert forall|i: int| 0 <= i < n implies #[trigger] input[i] != '\r' && input[i] != '\0' by {
            if 2 <= i < n - 3 {
                assert(input[i] == t[i - 2]);
            }
        }
    }
    lemma_clean_unchanged(input);
    lemma_comment_end_of(input, t, 0);
    assert(input[n - 1] == 'a');
    assert(ident_rest(input, n, seq!['a'], tfw).token == SpecToken::Ident(seq!['a']));
    assert(run(input, n, tfw).0.len() == 0);
    assert(run(input, n - 1, tfw).0 =~= seq![SpecToken::Ident(seq!['a'])]);
}

/// Whitespace in the CSS sense: tab, line feed, form feed, space.
pub open spec fn is_css_space(c: char) -> bool {
    c == ' ' || c == '\t' || c == '\n' || c == '\x0C'
}

proof fn lemma_whitespace_end_of(s: Seq<char>, i: int)
    requires
        0 <= i <= s.len(),
        forall|j: int| 0 <= j < s.len() ==> is_css_space(#[trigger] s[j]),
    ensures
        whitespace_end(s, i) == s.len(),
    decreases s.len() - i,
{
    if i < s.len() {
        assert(is_css_space(s[i]));
        lemma_whitespace_end_of(s, i + 1);
    }
}

/// A run of whitespace, however long, is a single whitespace token.
pub proof fn law_whitespace_run(w: Seq<char>, tfw: bool)
    requires
        w.len() >= 1,
        forall|j: int| 0 <= j < w.len() ==> is_css_space(#[trigger] w[j]),
    ensures
        tokenization(w, tfw).0 == seq![SpecToken::WhiteSpace],
        tokenization(w, tfw).1.len() == 0,
{
    let n = w.len() as int;
    assert(is_clean(w)) by {
        assert forall|i: int| 0 <= i < n implies #[trigger] w[i] != '\r' && w[i] != '\0' by {
            assert(is_css_space(w[i]));
        }
    }
    lemma_clean_unchanged(w);
    assert(is_css_space(w[0]));
    lemma_whitespace_end_of(w, 1);
    assert(run(w, n, tfw).0.len() == 0);
}

/// Each of `:`, `;`, `[`, `]`, `(`, `)`, `{`, `}` on its own is the
/// matching punctuation token; `<!--` and `-->` are the markup comment
/// delimiters. No error.
pub proof fn law_punctuation(tfw: bool)
    ensures
        tokenization(seq![':'], tfw) == (seq![SpecToken::Colon], Seq::<crate::spec::ParseErrorKind>::empty()),
        tokenization(seq![';'], tfw) == (seq![SpecToken::Semicolon], Seq::<crate::spec::ParseErrorKind>::empty()),
        tokenization(seq!['['], tfw) == (seq![SpecToken::OpenBraket], Seq::<crate::spec::ParseErrorKind>::empty()),
        tokenization(seq![']'], tfw) == (seq![SpecToken::CloseBraket], Seq::<crate::spec::ParseErrorKind>::empty()),
        tokenization(seq!['('], tfw) == (seq![SpecToken::OpenParen], Seq::<crate::spec::ParseErrorKind>::empty()),
        tokenization(seq![')'], tfw) == (seq![SpecToken::CloseParen], Seq::<crate::spec::ParseErrorKind>::empty()),
        tokenization(seq!['{'], tfw) == (seq![SpecToken::OpenBrace], Seq::<crate::spec::ParseErrorKind>::empty()),
        tokenization(seq!['}'], tfw) == (seq![SpecToken::CloseBrace], Seq::<crate::spec::ParseErrorKind>::empty()),
        tokenization(seq!['<', '!', '-', '-'], tfw) == (seq![SpecToken::CDO], Seq::<crate::spec::ParseErrorKind>::empty()),
        tokenization(seq!['-', '-', '>'], tfw) == (seq![SpecToken::CDC], Seq::<crate::spec::ParseErrorKind>::empty()),
{
    let all = seq![
        seq![':'],
        seq![';'],
        seq!['['],
        seq![']'],
        seq!['('],
        seq![')'],
        seq!['{'],
        seq!['}'],
        seq!['<', '!', '-', '-'],
        seq!['-', '-', '>'],
    ];
    assert forall|k: int| 0 <= k < all.len() implies is_clean(#[trigger] all[k]) by {}
    lemma_clean_unchanged(seq![':']);
    lemma_clean_unchanged(seq![';']);
    lemma_clean_unchanged(seq!['[']);
    lemma_clean_unchanged(seq![']']);
    lemma_clean_unchanged(seq!['(']);
    lemma_clean_unchanged(seq![')']);
    lemma_clean_unchanged(seq!['{']);
    lemma_clean_unchanged(seq!['}']);
    lemma_clean_unchanged(seq!['<', '!', '-', '-']);
    lemma_clean_unchanged(seq!['-', '-', '>']);
    assert(seq!['<', '!', '-', '-'].subrange(1, 4) =~= seq!['!', '-', '-']);
    assert(seq!['-', '-', '>'].subrange(1, 3) =~= seq!['-', '>']);
    assert(run(seq![':'], 1, tfw).0.len() == 0);
    assert(run(seq![';'], 1, tfw).0.len() == 0);
    assert(run(seq!['['], 1, tfw).0.len() == 0);
    assert(run(seq![']'], 1, tfw).0.len() == 0);
    assert(run(seq!['('], 1, tfw).0.len() == 0);
    assert(run(seq![')'], 1, tfw).0.len() == 0);
    assert(run(seq!['{'], 1, tfw).0.len() == 0);
    assert(run(seq!['}'], 1, tfw).0.len() == 0);
    assert(run(seq!['<', '!', '-', '-'], 4, tfw).0.len() == 0);
    assert(run(seq!['-', '-', '>'], 3, tfw).0.len() == 0);
    assert(tokenization(seq![':'], tfw).0 =~= seq![SpecToken::Colon]);
    assert(tokenization(seq![';'], tfw).0 =~= seq![SpecToken::Semicolon]);
    assert(tokenization(seq!['['], tfw).0 =~= seq![SpecToken::OpenBraket]);
    assert(tokenization(seq![']'], tfw).0 =~= seq![SpecToken::CloseBraket]);
    assert(tokenization(seq!['('], tfw).0 =~= seq![SpecToken::OpenParen]);
    assert(tokenization(seq![')'], tfw).0 =~= seq![SpecToken::CloseParen]);
    assert(tokenization(seq!['{'], tfw).0 =~= seq![SpecToken::OpenBrace]);
    assert(tokenization(seq!['}'], tfw).0 =~= seq![SpecToken::CloseBrace]);
    assert(tokenization(seq!['<', '!', '-', '-'], tfw).0 =~= seq![SpecToken::CDO]);
    assert(tokenization(seq!['-', '-', '>'], tfw).0 =~= seq![SpecToken::CDC]);
    assert(tokenization(seq![':'], tfw).1 =~= Seq::<crate::spec::ParseErrorKind>::empty());
    assert(tokenization(seq![';'], tfw).1 =~= Seq::<crate::spec::ParseErrorKind>::empty());
    assert(tokenization(seq!['['], tfw).1 =~= Seq::<crate::spec::ParseErrorKind>::empty());
    assert(tokenization(seq![']'], tfw).1 =~= Seq::<crate::spec::ParseErrorKind>::empty());
    assert(tokenization(seq!['('], tfw).1 =~= Seq::<crate::spec::ParseErrorKind>::empty());
    assert(tokenization(seq![')'], tfw).1 =~= Seq::<crate::spec::ParseErrorKind>::empty());
    assert(tokenization(seq!['{'], tfw).1 =~= Seq::<crate::spec::ParseErrorKind>::empty());
    assert(tokenization(seq!['}'], tfw).1 =~= Seq::<crate::spec::ParseErrorKind>::empty());
    assert(tokenization(seq!['<', '!', '-', '-'], tfw).1 =~= Seq::<crate::spec::ParseErrorKind>::empty());
    assert(tokenization(seq!['-', '-', '>'], tfw).1 =~= Seq::<crate::spec::ParseErrorKind>::empty());
}

pub open spec fn is_name_tail_char(c: char) -> bool {
    is_ascii_letter(c) || is_ascii_digit(c) || c == '-' || c == '_'
}

/// `@` followed by an ASCII letter and then letters, digits, `-` and `_` is
/// one at-keyword token whose value is that name, with no error.
pub proof fn law_at_keyword(name: Seq<char>, tfw: bool)
    requires
        name.len() >= 1,
        is_ascii_letter(name[0]),
        forall|j: int| 0 <= j < name.len() ==> is_name_tail_char(#[trigger] name[j]),
    ensures
        tokenization(seq!['@'] + name, tfw).0 == seq![SpecToken::AtKeyword(name)],
        tokenization(seq!['@'] + name, tfw).1.len() == 0,
{
    let input = seq!['@'] + name;
    let n = input.len() as int;
    assert forall|j: int| 0 <= j < name.len() implies input[j + 1] == #[trigger] name[j] by {}
    assert forall|j: int| 0 <= j < name.len() implies is_hash_name_char(#[trigger] name[j]) by {
        assert(is_name_tail_char(name[j]));
    }
    assert(is_clean(input)) by {
        assert forall|i: int| 0 <= i < n implies #[trigger] input[i] != '\r' && input[i] != '\0' by {
            if i >= 1 {
                assert(input[i] == name[i - 1]);
                assert(is_hash_name_char(name[i - 1]));
            }
        }
    }
    lemma_clean_unchanged(input);
    assert(input[1] == name[0]);
    lemma_name_rest_of(input, name, 1);
    assert(name.take(1) =~= seq![name[0]]);
    assert(run(input, n, tfw).0.len() == 0);
}

/// `u`, `r`, `l` in either case.
pub open spec fn spells_url(w: Seq<char>) -> bool {
    &&& w.len() == 3
    &&& (w[0] == 'u' || w[0] == 'U')
    &&& (w[1] == 'r' || w[1] == 'R')
    &&& (w[2] == 'l' || w[2] == 'L')
}

proof fn lemma_lower_is(c: char, lower: char, upper: char)
    requires
        'a' <= lower <= 'z',
        upper as u32 == lower as u32 - 32,
    ensures
        (ascii_lower_char(c) == lower) <==> (c == lower || c == upper),
{
}

proof fn lemma_lower_spells_url(w: Seq<char>)
    ensures
        ascii_lower(w) =~= seq!['u', 'r', 'l'] <==> spells_url(w),
{
    lemma_lower_is(w[0], 'u', 'U');
    lemma_lower_is(w[1], 'r', 'R');
    lemma_lower_is(w[2], 'l', 'L');
    if w.len() == 3 {
        let l = ascii_lower(w);
        if spells_url(w) {
            assert(l[0] == 'u' && l[1] == 'r' && l[2] == 'l');
        }
        if l =~= seq!['u', 'r', 'l'] {
            assert(l[0] == ascii_lower_char(w[0]));
            assert(l[1] == ascii_lower_char(w[1]));
            assert(l[2] == ascii_lower_char(w[2]));
        }
    }
}

proof fn lemma_ident_rest_before(s: Seq<char>, w: Seq<char>, i: int, tfw: bool)
    requires
        1 <= i <= w.len(),
        w.len() < s.len(),
        forall|j: int| 0 <= j < w.len() ==> s[j] == #[trigger] w[j],
        forall|j: int| 0 <= j < w.len() ==> is_word_char(#[trigger] w[j]),
        s[w.len() as int] == '(',
    ensures
        ident_rest(s, i, w.take(i), tfw) == ident_rest(s, w.len() as int, w, tfw),
    decreases w.len() - i,
{
    if i < w.len() {
        assert(s[i] == w[i]);
        assert(is_word_char(w[i]));
        assert(w.take(i).push(w[i]) =~= w.take(i + 1));
        lemma_ident_rest_before(s, w, i + 1, tfw);
    } else {
        assert(w.take(i) =~= w);
    }
}

/// A word of ASCII letters, digits and `-` starting with a letter, right
/// before `(`, is one function token named by the word, unless the word
/// spells `url` in any case. No error.
pub proof fn law_function(w: Seq<char>, tfw: bool)
    requires
        w.len() >= 1,
        is_ascii_letter(w[0]),
        forall|j: int| 0 <= j < w.len() ==> is_word_char(#[trigger] w[j]),
        !spells_url(w),
    ensures
        tokenization(w + seq!['('], tfw).0 == seq![SpecToken::Function(w)],
        tokenization(w + seq!['('], tfw).1.len() == 0,
{
    let input = w + seq!['('];
    let n = input.len() as int;
    assert forall|j: int| 0 <= j < w.len() implies input[j] == #[trigger] w[j] by {}
    assert(is_clean(input)) by {
        assert forall|i: int| 0 <= i < n implies #[trigger] input[i] != '\r' && input[i] != '\0' by {
            if i < n - 1 {
                assert(is_word_char(w[i]));
            }
        }
    }
    lemma_clean_unchanged(input);
    lemma_ident_rest_before(input, w, 1, tfw);
    lemma_lower_spells_url(w);
    assert(w.take(1) =~= seq![w[0]]);
    assert(run(input, n, tfw).0.len() == 0);
}

/// Characters of a URL written without quotes in the laws below.
pub open spec fn is_plain_url_char(c: char) -> bool {
    is_ascii_letter(c) || is_ascii_digit(c) || c == '.' || c == '/' || c == ':' || c == '-'
        || c == '_' || c == '#' || c == '?' || c == '='
}

proof fn lemma_unquoted_url_of(s: Seq<char>, t: Seq<char>, i: int)
    requires
        0 <= i <= t.len(),
        s.len() == t.len() + 5,
        forall|j: int| 0 <= j < t.len() ==> s[j + 4] == #[trigger] t[j],
        forall|j: int| 0 <= j < t.len() ==> is_plain_url_char(#[trigger] t[j]),
        s[t.len() as int + 4] == ')',
    ensures
        unquoted_url(s, i + 4, t.take(i)).token == SpecToken::URL(t),
        unquoted_url(s, i + 4, t.take(i)).pos == s.len(),
        unquoted_url(s, i + 4, t.take(i)).errors.len() == 0,
    decreases t.len() - i,
{
    if i < t.len() {
        assert(s[i + 4] == t[i]);
        assert(is_plain_url_char(t[i]));
        assert(t.take(i).push(t[i]) =~= t.take(i + 1));
        lemma_unquoted_url_of(s, t, i + 1);
    } else {
        assert(t.take(i) =~= t);
    }
}

/// `url(`, with `url` in any case, then a plain address of letters, digits
/// and `. / : - _ # ? =`, then `)`, is one URL token holding the address,
/// with no error.
pub proof fn law_unquoted_url(u: Seq<char>, t: Seq<char>, tfw: bool)
    requires
        spells_url(u),
        t.len() >= 1,
        forall|j: int| 0 <= j < t.len() ==> is_plain_url_char(#[trigger] t[j]),
    ensures
        tokenization(u + seq!['('] + t + seq![')'], tfw).0 == seq![SpecToken::URL(t)],
        tokenization(u + seq!['('] + t + seq![')'], tfw).1.len() == 0,
{
    let input = u + seq!['('] + t + seq![')'];
    let n = input.len() as int;
    assert forall|j: int| 0 <= j < t.len() implies input[j + 4] == #[trigger] t[j] by {}
    assert(is_clean(input)) by {
        assert forall|i: int| 0 <= i < n implies #[trigger] input[i] != '\r' && input[i] != '\0' by {
            if 4 <= i < n - 1 {
                assert(input[i] == t[i - 4]);
                assert(is_plain_url_char(t[i - 4]));
            }
        }
    }
    lemma_clean_unchanged(input);
    assert forall|j: int| 0 <= j < u.len() implies is_word_char(#[trigger] u[j]) by {}
    assert forall|j: int| 0 <= j < u.len() implies input[j] == #[trigger] u[j] by {}
    lemma_ident_rest_before(input, u, 1, tfw);
    lemma_lower_spells_url(u);
    assert(u.take(1) =~= seq![u[0]]);
    assert(input.subrange(1, 3) =~= seq![u[1], u[2]]);
    assert(is_plain_url_char(t[0]));
    assert(input[4] == t[0]);
    lemma_unquoted_url_of(input, t, 0);
    assert(t.take(0) =~= seq![]);
    assert(run(input, n, tfw).0.len() == 0);
}

/// A backslash and one to six hexadecimal digits, ending the input, is one
/// ident of one character: the character with that code point, or U+FFFD
/// when the value is zero, a surrogate or past U+10FFFF. No error.
pub proof fn law_hex_escape(h: Seq<char>, tfw: bool)
    requires
        1 <= h.len() <= 6,
        forall|i: int| 0 <= i < h.len() ==> is_hex_digit_char(#[trigger] h[i]),
    ensures
        ({
            let v = number_of(h);
            let input = seq!['\\'] + h;
            &&& tokenization(input, tfw).1.len() == 0
            &&& tokenization(input, tfw).0.len() == 1
            &&& tokenization(input, tfw).0[0] is Ident
            &&& tokenization(input, tfw).0[0]->Ident_0.len() == 1
            &&& (0 < v <= 0x10FFFF && !(0xD800 <= v <= 0xDFFF)) ==> tokenization(
                input,
                tfw,
            ).0[0]->Ident_0[0] as u32 == v
            &&& !(0 < v <= 0x10FFFF && !(0xD800 <= v <= 0xDFFF)) ==> tokenization(
                input,
                tfw,
            ).0[0]->Ident_0[0] == '\u{FFFD}'
        }),
{
    let input = seq!['\\'] + h;
    let n = input.len() as int;
    let m = h.len() as int;
    assert forall|i: int| 0 <= i < m implies input[1 + i] == h[i] by {}
    assert(is_clean(input)) by {
        assert forall|i: int| 0 <= i < n implies #[trigger] input[i] != '\r' && input[i] != '\0' by {
            if i >= 1 {
                assert(input[i] == h[i - 1]);
            }
        }
    }
    lemma_clean_unchanged(input);
    assert(input[1] == h[0]);
    lemma_hex_run_of(input, 2, (m - 1) as nat, 5);
    assert(input.subrange(1, n) =~= h);
    lemma_number_is_hex_value(h);
    assert(run(input, n, tfw).0.len() == 0);
}

} // verus!
