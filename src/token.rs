//! Splitting source text into bracket and word tokens.
use vstd::prelude::*;
use vstd::string::StrSliceExecFns;

verus! {

/// The four characters that always stand as tokens of their own.
pub open spec fn is_bracket(c: char) -> bool {
    c == '[' || c == ']' || c == '{' || c == '}'
}

/// Unicode white space, which separates words.
pub open spec fn is_space(c: char) -> bool {
    ('\u{9}' <= c && c <= '\u{d}') || c == ' ' || c == '\u{85}' || c == '\u{a0}' || c == '\u{1680}'
        || ('\u{2000}' <= c && c <= '\u{200a}') || c == '\u{2028}' || c == '\u{2029}'
        || c == '\u{202f}' || c == '\u{205f}' || c == '\u{3000}'
}

/// The word that runs over `s[start..i]`, if it is not empty.
pub open spec fn flush(s: Seq<char>, start: int, i: int) -> Seq<Seq<char>> {
    if start < i {
        seq![s.subrange(start, i)]
    } else {
        Seq::empty()
    }
}

/// The tokens of `s[i..]`, where a word began at `start`.
pub open spec fn tokens_from(s: Seq<char>, start: int, i: int) -> Seq<Seq<char>>
    decreases s.len() - i,
{
    if i >= s.len() {
        flush(s, start, i)
    } else if is_bracket(s[i]) {
        flush(s, start, i) + seq![seq![s[i]]] + tokens_from(s, i + 1, i + 1)
    } else if is_space(s[i]) {
        flush(s, start, i) + tokens_from(s, i + 1, i + 1)
    } else {
        tokens_from(s, start, i + 1)
    }
}

/// The tokens of `s`: each bracket alone, and each maximal run of other
/// characters that are not white space.
pub open spec fn tokenize(s: Seq<char>) -> Seq<Seq<char>> {
    tokens_from(s, 0, 0)
}

pub open spec fn strings_view(v: Seq<String>) -> Seq<Seq<char>> {
    v.map_values(|t: String| t@)
}

fn is_bracket_char(c: char) -> (r: bool)
    ensures
        r == is_bracket(c),
{
    c == '[' || c == ']' || c == '{' || c == '}'
}

pub(crate) fn is_space_char(c: char) -> (r: bool)
    ensures
        r == is_space(c),
{
    ('\u{9}' <= c && c <= '\u{d}') || c == ' ' || c == '\u{85}' || c == '\u{a0}' || c == '\u{1680}'
        || ('\u{2000}' <= c && c <= '\u{200a}') || c == '\u{2028}' || c == '\u{2029}'
        || c == '\u{202f}' || c == '\u{205f}' || c == '\u{3000}'
}

/// Splits `s` into its tokens, in order.
pub fn get_tokens(s: &str) -> (r: Vec<String>)
    ensures
        strings_view(r@) == tokenize(s@),
{
    let n = s.unicode_len();
    let mut out: Vec<String> = Vec::new();
    let mut start: usize = 0;
    let mut i: usize = 0;
    while i < n
        invariant
            n == s@.len(),
            start <= i <= n,
            strings_view(out@) + tokens_from(s@, start as int, i as int) == tokenize(s@),
        decreases n - i,
    {
        let c = s.get_char(i);
        if is_bracket_char(c) || is_space_char(c) {
            let ghost before = strings_view(out@);
            if start < i {
                let w = s.substring_char(start, i).to_owned();
                out.push(w);
            }
            assert(strings_view(out@) == before + flush(s@, start as int, i as int)) by {
                assert(strings_view(out@) =~= before + flush(s@, start as int, i as int));
            }
            if is_bracket_char(c) {
                let ghost mid = strings_view(out@);
                let b = s.substring_char(i, i + 1).to_owned();
                assert(b@ =~= seq![c]);
                out.push(b);
                assert(strings_view(out@) =~= mid + seq![seq![c]]);
                assert(strings_view(out@) + tokens_from(s@, i + 1, i + 1) =~= before + (flush(
                    s@,
                    start as int,
                    i as int,
                ) + seq![seq![s@[i as int]]] + tokens_from(s@, i + 1, i + 1)));
            } else {
                assert(strings_view(out@) + tokens_from(s@, i + 1, i + 1) =~= before + (flush(
                    s@,
                    start as int,
                    i as int,
                ) + tokens_from(s@, i + 1, i + 1)));
            }
            start = i + 1;
        }
        i = i + 1;
    }
    let ghost before = strings_view(out@);
    if start < n {
        let w = s.substring_char(start, n).to_owned();
        out.push(w);
    }
    assert(strings_view(out@) =~= before + flush(s@, start as int, n as int));
    out
}

} // verus!
