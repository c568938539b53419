//! Input preprocessing: carriage returns become line feeds and NUL becomes
//! U+FFFD before tokenization reads the input.
use vstd::prelude::*;
use vstd::std_specs::iter::IteratorSpec;

verus! {

/// The preprocessed form of `s` from position `i`: `\r\n` and a lone `\r`
/// become `\n`, NUL becomes U+FFFD, every other character stays.
pub open spec fn preprocessed_from(s: Seq<char>, i: int) -> Seq<char>
    decreases s.len() - i,
{
    if i < 0 || i >= s.len() {
        seq![]
    } else if s[i] == '\r' && i + 1 < s.len() && s[i + 1] == '\n' {
        seq!['\n'] + preprocessed_from(s, i + 2)
    } else if s[i] == '\r' {
        seq!['\n'] + preprocessed_from(s, i + 1)
    } else if s[i] == '\0' {
        seq!['\u{FFFD}'] + preprocessed_from(s, i + 1)
    } else {
        seq![s[i]] + preprocessed_from(s, i + 1)
    }
}

pub open spec fn preprocessed(s: Seq<char>) -> Seq<char> {
    preprocessed_from(s, 0)
}

/// No carriage return and no NUL.
pub open spec fn is_clean(s: Seq<char>) -> bool {
    forall|k: int| 0 <= k < s.len() ==> #[trigger] s[k] != '\r' && s[k] != '\0'
}

/// The characters of `input`, in order.
fn chars_of(input: &str) -> (v: Vec<char>)
    ensures
        v@ == input@,
{
    broadcast use vstd::string::group_string_axioms;

    let mut v: Vec<char> = Vec::new();
    for c in it: input.chars()
        invariant
            v@ == it.seq().take(it.index() as int),
    {
        v.push(c);
    }
    assert(v@ =~= input@);
    v
}

/// Preprocesses `input` as CSS Syntax asks before tokenization.
pub fn preprocess(input: &str) -> (r: Vec<char>)
    ensures
        r@ == preprocessed(input@),
{
    let s = chars_of(input);
    let mut out: Vec<char> = Vec::new();
    let mut i: usize = 0;
    while i < s.len()
        invariant
            i <= s.len(),
            out@ + preprocessed_from(s@, i as int) == preprocessed(s@),
        decreases s.len() - i,
    {
        let ghost before = out@;
        let c = s[i];
        if c == '\r' && i + 1 < s.len() && s[i + 1] == '\n' {
            out.push('\n');
            i += 2;
        } else if c == '\r' {
            out.push('\n');
            i += 1;
        } else if c == '\0' {
            out.push('\u{FFFD}');
            i += 1;
        } else {
            out.push(c);
            i += 1;
        }

    }
    out
}

// ---------------------------------------------------------------------------
// Laws

proof fn lemma_preprocessed_from_clean(s: Seq<char>, i: int)
    ensures
        is_clean(preprocessed_from(s, i)),
    decreases s.len() - i,
{
    if !(i < 0 || i >= s.len()) {
        if s[i] == '\r' && i + 1 < s.len() && s[i + 1] == '\n' {
            lemma_preprocessed_from_clean(s, i + 2);
        } else {
            lemma_preprocessed_from_clean(s, i + 1);
        }
        let r = preprocessed_from(s, i);
        assert forall|k: int| 0 <= k < r.len() implies #[trigger] r[k] != '\r' && r[k] != '\0' by {
            if k > 0 {
                if s[i] == '\r' && i + 1 < s.len() && s[i + 1] == '\n' {
                    assert(r[k] == preprocessed_from(s, i + 2)[k - 1]);
                } else {
                    assert(r[k] == preprocessed_from(s, i + 1)[k - 1]);
                }
            }
        }
    }
}

/// Preprocessing leaves no carriage return and no NUL for tokenization to see.
pub proof fn lemma_preprocessed_is_clean(s: Seq<char>)
    ensures
        is_clean(preprocessed(s)),
{
    lemma_preprocessed_from_clean(s, 0);
}

proof fn lemma_clean_unchanged_from(s: Seq<char>, i: int)
    requires
        is_clean(s),
        0 <= i <= s.len(),
    ensures
        preprocessed_from(s, i) =~= s.subrange(i, s.len() as int),
    decreases s.len() - i,
{
    if i < s.len() {
        assert(s[i] != '\r' && s[i] != '\0');
        lemma_clean_unchanged_from(s, i + 1);
    }
}

/// Preprocessing leaves text without carriage returns and NUL unchanged.
pub proof fn lemma_clean_unchanged(s: Seq<char>)
    requires
        is_clean(s),
    ensures
        preprocessed(s) == s,
{
    lemma_clean_unchanged_from(s, 0);
    assert(s.subrange(0, s.len() as int) =~= s);
}

/// Preprocessing twice is preprocessing once.
pub proof fn lemma_preprocess_idempotent(s: Seq<char>)
    ensures
        preprocessed(preprocessed(s)) == preprocessed(s),
{
    lemma_preprocessed_is_clean(s);
    lemma_clean_unchanged(preprocessed(s));
}

proof fn lemma_preprocessed_from_not_longer(s: Seq<char>, i: int)
    requires
        0 <= i,
    ensures
        i <= s.len() ==> preprocessed_from(s, i).len() <= s.len() - i,
        i > s.len() ==> preprocessed_from(s, i).len() == 0,
    decreases s.len() - i,
{
    if i < s.len() {
        if s[i] == '\r' && i + 1 < s.len() && s[i + 1] == '\n' {
            lemma_preprocessed_from_not_longer(s, i + 2);
        } else {
            lemma_preprocessed_from_not_longer(s, i + 1);
        }
    }
}

/// Preprocessing never makes the text longer.
pub proof fn lemma_preprocessed_not_longer(s: Seq<char>)
    ensures
        preprocessed(s).len() <= s.len(),
{
    lemma_preprocessed_from_not_longer(s, 0);
}

} // verus!
