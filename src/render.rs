//! The canonical token form of an item tree, and what the parser makes of it.
use vstd::prelude::*;
use crate::item::{
    classify_spec, command_spec, float_norm, decimal_value, is_digit, is_float_text, is_int_text, lemma_classify_total,
    parse_spec, VAtom, VItem, VValue,
};
use crate::token::{flush, is_bracket, is_space, tokenize, tokens_from};

verus! {

pub open spec fn digit_char(d: nat) -> char {
    if d == 0 { '0' } else if d == 1 { '1' } else if d == 2 { '2' } else if d == 3 { '3' } else if d == 4 { '4' }
    else if d == 5 { '5' } else if d == 6 { '6' } else if d == 7 { '7' } else if d == 8 { '8' } else { '9' }
}

/// The decimal digits of `n`, without leading zeros.
pub open spec fn decimal_text(n: nat) -> Seq<char>
    decreases n,
{
    if n < 10 {
        seq![digit_char(n)]
    } else {
        decimal_text(n / 10).push(digit_char(n % 10))
    }
}

/// The token that an atom is written as.
pub open spec fn atom_token(a: VAtom) -> Seq<char> {
    match a {
        VAtom::Value(VValue::Int(n)) => decimal_text(n as nat),
        VAtom::Value(VValue::Float(t)) => t,
        VAtom::Value(VValue::Bool(b)) => if b {
            "true"@
        } else {
            "false"@
        },
        VAtom::Word(w) => w,
    }
}

/// The atom can be written as one word token that reads back as itself.
pub open spec fn atom_ok(a: VAtom) -> bool {
    let t = atom_token(a);
    &&& t.len() > 0
    &&& forall|k: int| 0 <= k < t.len() ==> !is_bracket(#[trigger] t[k]) && !is_space(t[k])
    &&& classify_spec(t) == Some(a)
}

/// Every atom of the items can be written as a token.
pub open spec fn items_ok(xs: Seq<VItem>) -> bool
    decreases xs,
{
    if xs.len() == 0 {
        true
    } else {
        (match xs[0] {
            VItem::Atom(a) => atom_ok(a),
            VItem::Stack(ys) => items_ok(ys),
            VItem::Block(ys) => items_ok(ys),
        }) && items_ok(xs.subrange(1, xs.len() as int))
    }
}

/// The tokens that the items are written as: a stack in `[ ]`, a block in `{ }`.
pub open spec fn render(xs: Seq<VItem>) -> Seq<Seq<char>>
    decreases xs,
{
    if xs.len() == 0 {
        Seq::empty()
    } else {
        (match xs[0] {
            VItem::Atom(a) => seq![atom_token(a)],
            VItem::Stack(ys) => seq!["["@] + render(ys) + seq!["]"@],
            VItem::Block(ys) => seq!["{"@] + render(ys) + seq!["}"@],
        }) + render(xs.subrange(1, xs.len() as int))
    }
}

proof fn lemma_not_bracket_token(w: Seq<char>)
    requires
        w.len() > 0,
        !is_bracket(w[0]),
    ensures
        w != "["@,
        w != "]"@,
        w != "{"@,
        w != "}"@,
{
    reveal_strlit("[");
    reveal_strlit("]");
    reveal_strlit("{");
    reveal_strlit("}");
}

/// Parsing the rendered form of `xs` at `i` reads exactly `xs` into the group
/// and goes on after them.
proof fn lemma_parse_rendered(t: Seq<Seq<char>>, i: int, acc: Seq<VItem>, xs: Seq<VItem>)
    requires
        items_ok(xs),
        0 <= i,
        i + render(xs).len() <= t.len(),
        t.subrange(i, i + render(xs).len()) == render(xs),
    ensures
        parse_spec(t, i, acc) == parse_spec(t, i + render(xs).len(), acc + xs),
    decreases xs,
{
    reveal_strlit("[");
    reveal_strlit("]");
    reveal_strlit("{");
    reveal_strlit("}");
    let r = render(xs);
    if xs.len() == 0 {
        assert(acc + xs =~= acc);
    } else {
        let rest = xs.subrange(1, xs.len() as int);
        let rr = render(rest);
        assert(forall|k: int| 0 <= k < r.len() ==> t[i + k] == #[trigger] r[k]) by {
            assert forall|k: int| 0 <= k < r.len() implies t[i + k] == #[trigger] r[k] by {
                assert(t.subrange(i, i + r.len())[k] == t[i + k]);
            }
        }
        match xs[0] {
            VItem::Atom(a) => {
                let h = seq![atom_token(a)];
                assert(r == h + rr);
                assert(t[i] == atom_token(a)) by {
                    assert(r[0] == atom_token(a));
                }
                lemma_not_bracket_token(atom_token(a));
                assert(t.subrange(i + 1, i + 1 + rr.len()) =~= rr) by {
                    assert forall|k: int| 0 <= k < rr.len() implies t.subrange(i + 1, i + 1 + rr.len())[k] == rr[k] by {
                        assert(r[1 + k] == rr[k]);
                    }
                }
                lemma_parse_rendered(t, i + 1, acc.push(VItem::Atom(a)), rest);
                assert(acc.push(VItem::Atom(a)) + rest =~= acc + xs);
            },
            VItem::Stack(ys) => {
                let ry = render(ys);
                let l = ry.len() as int;
                assert(r == seq!["["@] + ry + seq!["]"@] + rr);
                assert(t[i] == "["@) by { assert(r[0] == "["@); }
                assert(t[i + 1 + l] == "]"@) by { assert(r[1 + l] == "]"@); }
                assert(t.subrange(i + 1, i + 1 + l) =~= ry) by {
                    assert forall|k: int| 0 <= k < l implies t.subrange(i + 1, i + 1 + l)[k] == ry[k] by {
                        assert(r[1 + k] == ry[k]);
                    }
                }
                assert(t.subrange(i + 2 + l, i + 2 + l + rr.len()) =~= rr) by {
                    assert forall|k: int| 0 <= k < rr.len() implies t.subrange(i + 2 + l, i + 2 + l + rr.len())[k] == rr[k] by {
                        assert(r[2 + l + k] == rr[k]);
                    }
                }
                lemma_parse_rendered(t, i + 1, Seq::empty(), ys);
                assert(Seq::<VItem>::empty() + ys =~= ys);
                assert(parse_spec(t, i + 1, Seq::empty()) == Ok::<(VItem, int, bool), Seq<char>>((VItem::Stack(ys), i + 2 + l, true)));
                lemma_parse_rendered(t, i + 2 + l, acc.push(VItem::Stack(ys)), rest);
                assert(acc.push(VItem::Stack(ys)) + rest =~= acc + xs);
            },
            VItem::Block(ys) => {
                let ry = render(ys);
                let l = ry.len() as int;
                assert(r == seq!["{"@] + ry + seq!["}"@] + rr);
                assert(t[i] == "{"@) by { assert(r[0] == "{"@); }
                assert(t[i + 1 + l] == "}"@) by { assert(r[1 + l] == "}"@); }
                assert(t.subrange(i + 1, i + 1 + l) =~= ry) by {
                    assert forall|k: int| 0 <= k < l implies t.subrange(i + 1, i + 1 + l)[k] == ry[k] by {
                        assert(r[1 + k] == ry[k]);
                    }
                }
                assert(t.subrange(i + 2 + l, i + 2 + l + rr.len()) =~= rr) by {
                    assert forall|k: int| 0 <= k < rr.len() implies t.subrange(i + 2 + l, i + 2 + l + rr.len())[k] == rr[k] by {
                        assert(r[2 + l + k] == rr[k]);
                    }
                }
                lemma_parse_rendered(t, i + 1, Seq::empty(), ys);
                assert(Seq::<VItem>::empty() + ys =~= ys);
                assert(parse_spec(t, i + 1, Seq::empty()) == Ok::<(VItem, int, bool), Seq<char>>((VItem::Block(ys), i + 2 + l, true)));
                lemma_parse_rendered(t, i + 2 + l, acc.push(VItem::Block(ys)), rest);
                assert(acc.push(VItem::Block(ys)) + rest =~= acc + xs);
            },
        }
    }
}

/// Parsing the canonical tokens of a tree gives the tree back, as the
/// top-level block, and consumes every token.
pub proof fn lemma_render_round_trip(xs: Seq<VItem>)
    requires
        items_ok(xs),
    ensures
        parse_spec(render(xs), 0, Seq::empty()) == Ok::<(VItem, int, bool), Seq<char>>(
            (VItem::Block(xs), render(xs).len() as int, false),
        ),
{
    let t = render(xs);
    assert(t.subrange(0, t.len() as int) =~= t);
    lemma_parse_rendered(t, 0, Seq::empty(), xs);
    assert(Seq::<VItem>::empty() + xs =~= xs);
}

/// Well-bracketed tokens followed by one `[` or `{` that is never closed,
/// and more well-bracketed tokens, fail to parse with a bracket error.
pub proof fn lemma_unclosed_opener_fails(xs: Seq<VItem>, o: Seq<char>, ys: Seq<VItem>)
    requires
        items_ok(xs),
        items_ok(ys),
        o == "["@ || o == "{"@,
    ensures
        parse_spec(render(xs) + seq![o] + render(ys), 0, Seq::empty()) == Err::<(VItem, int, bool), Seq<char>>(
            "Inconsistent brackets"@,
        ),
{
    reveal_strlit("[");
    reveal_strlit("]");
    reveal_strlit("{");
    reveal_strlit("}");
    let rx = render(xs);
    let ry = render(ys);
    let t = rx + seq![o] + ry;
    let a = rx.len() as int;
    assert(t.subrange(0, a) =~= rx);
    lemma_parse_rendered(t, 0, Seq::empty(), xs);
    assert(t.subrange(a + 1, a + 1 + ry.len()) =~= ry);
    lemma_parse_rendered(t, a + 1, Seq::empty(), ys);
    assert(t[a] == o);
    assert(Seq::<VItem>::empty() + ys =~= ys);
}

/// The text of the tokens, each followed by a space.
pub open spec fn join_tokens(ts: Seq<Seq<char>>) -> Seq<char>
    decreases ts.len(),
{
    if ts.len() == 0 {
        Seq::empty()
    } else {
        ts[0] + seq![' '] + join_tokens(ts.subrange(1, ts.len() as int))
    }
}

/// The canonical text of the items.
pub open spec fn render_text(xs: Seq<VItem>) -> Seq<char> {
    join_tokens(render(xs))
}

/// A token that the tokenizer can give: one bracket, or a non-empty word
/// without brackets or white space.
pub open spec fn token_ok(w: Seq<char>) -> bool {
    ||| (w.len() == 1 && is_bracket(w[0]))
    ||| (w.len() > 0 && forall|k: int| 0 <= k < w.len() ==> !is_bracket(#[trigger] w[k]) && !is_space(w[k]))
}

proof fn lemma_word_run(s: Seq<char>, i: int, j: int, w: Seq<char>)
    requires
        0 <= i <= j <= i + w.len(),
        i + w.len() <= s.len(),
        s.subrange(i, i + w.len()) == w,
        forall|k: int| 0 <= k < w.len() ==> !is_bracket(#[trigger] w[k]) && !is_space(w[k]),
    ensures
        tokens_from(s, i, j) == tokens_from(s, i, i + w.len()),
    decreases i + w.len() - j,
{
    if j < i + w.len() {
        assert(s[j] == s.subrange(i, i + w.len())[j - i]);
        assert(!is_bracket(w[j - i]));
        lemma_word_run(s, i, j + 1, w);
    }
}

proof fn lemma_tokenize_joined(s: Seq<char>, i: int, ts: Seq<Seq<char>>)
    requires
        0 <= i <= s.len(),
        s.subrange(i, s.len() as int) == join_tokens(ts),
        forall|k: int| 0 <= k < ts.len() ==> token_ok(#[trigger] ts[k]),
    ensures
        tokens_from(s, i, i) == ts,
    decreases ts.len(),
{
    if ts.len() == 0 {
        assert(s.subrange(i, s.len() as int).len() == 0);
        assert(ts =~= Seq::<Seq<char>>::empty());
    } else {
        let w = ts[0];
        let rest = ts.subrange(1, ts.len() as int);
        let j = join_tokens(ts);
        let m = i + w.len();
        assert(j == w + seq![' '] + join_tokens(rest));
        assert(forall|k: int| 0 <= k < w.len() ==> s[i + k] == #[trigger] w[k]) by {
            assert forall|k: int| 0 <= k < w.len() implies s[i + k] == #[trigger] w[k] by {
                assert(s.subrange(i, s.len() as int)[k] == s[i + k]);
                assert(j[k] == w[k]);
            }
        }
        assert(s[m] == ' ') by {
            assert(s.subrange(i, s.len() as int)[w.len() as int] == s[m]);
            assert(j[w.len() as int] == ' ');
        }
        assert(s.subrange(m + 1, s.len() as int) =~= join_tokens(rest)) by {
            assert forall|k: int| 0 <= k < join_tokens(rest).len() implies s.subrange(m + 1, s.len() as int)[k]
                == join_tokens(rest)[k] by {
                assert(s.subrange(i, s.len() as int)[w.len() + 1 + k] == s[m + 1 + k]);
                assert(j[w.len() + 1 + k] == join_tokens(rest)[k]);
            }
        }
        assert forall|k: int| 0 <= k < rest.len() implies token_ok(#[trigger] rest[k]) by {
            assert(rest[k] == ts[k + 1]);
        }
        assert(token_ok(ts[0]));
        lemma_tokenize_joined(s, m + 1, rest);
        assert(is_space(' '));
        if w.len() == 1 && is_bracket(w[0]) {
            assert(s[i] == w[0]);
            assert(flush(s, i, i) =~= Seq::<Seq<char>>::empty());
            assert(flush(s, i + 1, i + 1) =~= Seq::<Seq<char>>::empty());
            assert(tokens_from(s, i + 1, i + 1) == flush(s, i + 1, i + 1) + tokens_from(s, i + 2, i + 2));
            assert(seq![s[i]] =~= w);
            assert(ts =~= seq![w] + rest);
            assert(tokens_from(s, i, i) =~= flush(s, i, i) + seq![seq![s[i]]] + tokens_from(s, i + 1, i + 1));
        } else {
            assert(forall|k: int| 0 <= k < w.len() ==> !is_bracket(#[trigger] w[k]) && !is_space(w[k]));
            assert(s.subrange(i, m) =~= w);
            lemma_word_run(s, i, i, w);
            assert(flush(s, i, m) == seq![w]);
            assert(ts =~= seq![w] + rest);
        }
    }
}

proof fn lemma_render_tokens_ok(xs: Seq<VItem>)
    requires
        items_ok(xs),
    ensures
        forall|k: int| 0 <= k < render(xs).len() ==> token_ok(#[trigger] render(xs)[k]),
    decreases xs,
{
    reveal_strlit("[");
    reveal_strlit("]");
    reveal_strlit("{");
    reveal_strlit("}");
    if xs.len() > 0 {
        let rest = xs.subrange(1, xs.len() as int);
        lemma_render_tokens_ok(rest);
        let rr = render(rest);
        match xs[0] {
            VItem::Atom(a) => {
                assert(render(xs) == seq![atom_token(a)] + rr);
            },
            VItem::Stack(ys) => {
                lemma_render_tokens_ok(ys);
                assert(render(xs) == seq!["["@] + render(ys) + seq!["]"@] + rr);
                assert(token_ok("["@) && token_ok("]"@));
            },
            VItem::Block(ys) => {
                lemma_render_tokens_ok(ys);
                assert(render(xs) == seq!["{"@] + render(ys) + seq!["}"@] + rr);
                assert(token_ok("{"@) && token_ok("}"@));
            },
        }
    }
}

/// Writing items as canonical text, then tokenizing and parsing that text as
/// a program, gives the same items back.
pub proof fn lemma_text_round_trip(xs: Seq<VItem>)
    requires
        items_ok(xs),
    ensures
        tokenize(render_text(xs)) == render(xs),
        command_spec(render_text(xs)) == Ok::<Seq<VItem>, Seq<char>>(xs),
{
    let s = render_text(xs);
    lemma_render_tokens_ok(xs);
    assert(s.subrange(0, s.len() as int) =~= s);
    lemma_tokenize_joined(s, 0, render(xs));
    lemma_render_round_trip(xs);
}

proof fn lemma_digit_char(d: nat)
    requires
        d < 10,
    ensures
        digit_char(d) as int - '0' as int == d as int,
        is_digit(digit_char(d)),
{
    assert('0' as int == 48 && '1' as int == 49 && '2' as int == 50 && '3' as int == 51 && '4' as int == 52);
    assert('5' as int == 53 && '6' as int == 54 && '7' as int == 55 && '8' as int == 56 && '9' as int == 57);
}

proof fn lemma_decimal_text(n: nat)
    ensures
        decimal_text(n).len() > 0,
        forall|k: int| 0 <= k < decimal_text(n).len() ==> is_digit(#[trigger] decimal_text(n)[k]),
        decimal_value(decimal_text(n)) == n,
    decreases n,
{
    let t = decimal_text(n);
    if n < 10 {
        lemma_digit_char(n);
        assert(t.drop_last() =~= Seq::<char>::empty());
        assert(decimal_value(t.drop_last()) == 0);
        assert(t.last() == digit_char(n));
        assert(decimal_value(t) == decimal_value(t.drop_last()) * 10 + (t.last() as int - '0' as int));
    } else {
        lemma_digit_char(n % 10);
        lemma_decimal_text(n / 10);
        assert(t.drop_last() =~= decimal_text(n / 10));
        assert(forall|k: int| 0 <= k < t.len() - 1 ==> t[k] == #[trigger] decimal_text(n / 10)[k]);
        assert((n / 10) * 10 + n % 10 == n) by (nonlinear_arith);
        assert(t.last() == digit_char(n % 10));
        assert(decimal_value(t) == decimal_value(t.drop_last()) * 10 + (t.last() as int - '0' as int));
    }
}

/// Literal atoms can be written as tokens that read back as themselves: a
/// non-negative integer, a boolean, and a float in canonical form.
pub proof fn lemma_literal_atoms_ok(a: VAtom)
    ensures
        (a matches VAtom::Value(VValue::Int(n)) && n >= 0) ==> atom_ok(a),
        a matches VAtom::Value(VValue::Bool(_)) ==> atom_ok(a),
        (a matches VAtom::Value(VValue::Float(t)) && is_float_text(t) && float_norm(t) == t) ==> atom_ok(a),
{
    reveal_strlit("true");
    reveal_strlit("false");
    match a {
        VAtom::Value(VValue::Int(n)) => {
            if n >= 0 {
                lemma_decimal_text(n as nat);
                let t = decimal_text(n as nat);
                assert(is_int_text(t));
                assert(forall|k: int| 0 <= k < t.len() ==> !is_bracket(#[trigger] t[k]) && !is_space(t[k])) by {
                    assert forall|k: int| 0 <= k < t.len() implies !is_bracket(#[trigger] t[k]) && !is_space(t[k]) by {
                        assert(is_digit(t[k]));
                    }
                }
            }
        },
        VAtom::Value(VValue::Bool(b)) => {
            lemma_classify_total(atom_token(a));
        },
        VAtom::Value(VValue::Float(t)) => {
            if is_float_text(t) && float_norm(t) == t {
                let d = choose|d: int|
                    0 < d < t.len() && t[d] == '.' && is_int_text(#[trigger] t.subrange(0, d)) && forall|k: int|
                        d < k < t.len() ==> is_digit(#[trigger] t[k]);
                assert(!is_int_text(t)) by {
                    if is_int_text(t) {
                        assert(is_digit(t[d]));
                    }
                }
                assert forall|k: int| 0 <= k < t.len() implies !is_bracket(#[trigger] t[k]) && !is_space(t[k]) by {
                    if k < d {
                        assert(t.subrange(0, d)[k] == t[k]);
                        assert(is_digit(t.subrange(0, d)[k]));
                    } else if k > d {
                        assert(is_digit(t[k]));
                    }
                }
            }
        },
        VAtom::Word(_) => {},
    }
}

/// A well-bracketed token list, as a tree: word tokens, and groups in
/// `[ ]` or `{ }`.
pub enum TokenTree {
    Word(Seq<char>),
    Stack(Seq<TokenTree>),
    Block(Seq<TokenTree>),
}

/// The tokens of the trees, in order.
pub open spec fn flatten(ts: Seq<TokenTree>) -> Seq<Seq<char>>
    decreases ts,
{
    if ts.len() == 0 {
        Seq::empty()
    } else {
        (match ts[0] {
            TokenTree::Word(w) => seq![w],
            TokenTree::Stack(ys) => seq!["["@] + flatten(ys) + seq!["]"@],
            TokenTree::Block(ys) => seq!["{"@] + flatten(ys) + seq!["}"@],
        }) + flatten(ts.subrange(1, ts.len() as int))
    }
}

/// Every word of the trees is no bracket token and classifies without error.
pub open spec fn words_ok(ts: Seq<TokenTree>) -> bool
    decreases ts,
{
    if ts.len() == 0 {
        true
    } else {
        (match ts[0] {
            TokenTree::Word(w) => w != "["@ && w != "]"@ && w != "{"@ && w != "}"@ && classify_spec(w) is Some,
            TokenTree::Stack(ys) => words_ok(ys),
            TokenTree::Block(ys) => words_ok(ys),
        }) && words_ok(ts.subrange(1, ts.len() as int))
    }
}

/// The items that the trees stand for.
pub open spec fn tree_items(ts: Seq<TokenTree>) -> Seq<VItem>
    decreases ts,
{
    if ts.len() == 0 {
        Seq::empty()
    } else {
        seq![
            match ts[0] {
                TokenTree::Word(w) => VItem::Atom(classify_spec(w)->Some_0),
                TokenTree::Stack(ys) => VItem::Stack(tree_items(ys)),
                TokenTree::Block(ys) => VItem::Block(tree_items(ys)),
            },
        ] + tree_items(ts.subrange(1, ts.len() as int))
    }
}

proof fn lemma_parse_flat(t: Seq<Seq<char>>, i: int, acc: Seq<VItem>, ts: Seq<TokenTree>)
    requires
        words_ok(ts),
        0 <= i,
        i + flatten(ts).len() <= t.len(),
        t.subrange(i, i + flatten(ts).len()) == flatten(ts),
    ensures
        parse_spec(t, i, acc) == parse_spec(t, i + flatten(ts).len(), acc + tree_items(ts)),
    decreases ts,
{
    reveal_strlit("[");
    reveal_strlit("]");
    reveal_strlit("{");
    reveal_strlit("}");
    let r = flatten(ts);
    if ts.len() == 0 {
        assert(acc + tree_items(ts) =~= acc);
    } else {
        let rest = ts.subrange(1, ts.len() as int);
        let rr = flatten(rest);
        assert(forall|k: int| 0 <= k < r.len() ==> t[i + k] == #[trigger] r[k]) by {
            assert forall|k: int| 0 <= k < r.len() implies t[i + k] == #[trigger] r[k] by {
                assert(t.subrange(i, i + r.len())[k] == t[i + k]);
            }
        }
        match ts[0] {
            TokenTree::Word(w) => {
                assert(r == seq![w] + rr);
                assert(t[i] == w) by {
                    assert(r[0] == w);
                }
                assert(t.subrange(i + 1, i + 1 + rr.len()) =~= rr) by {
                    assert forall|k: int| 0 <= k < rr.len() implies t.subrange(i + 1, i + 1 + rr.len())[k] == rr[k] by {
                        assert(r[1 + k] == rr[k]);
                    }
                }
                let a = VItem::Atom(classify_spec(w)->Some_0);
                lemma_parse_flat(t, i + 1, acc.push(a), rest);
                assert(acc.push(a) + tree_items(rest) =~= acc + tree_items(ts));
            },
            TokenTree::Stack(ys) => {
                let ry = flatten(ys);
                let l = ry.len() as int;
                assert(r == seq!["["@] + ry + seq!["]"@] + rr);
                assert(t[i] == "["@) by { assert(r[0] == "["@); }
                assert(t[i + 1 + l] == "]"@) by { assert(r[1 + l] == "]"@); }
                assert(t.subrange(i + 1, i + 1 + l) =~= ry) by {
                    assert forall|k: int| 0 <= k < l implies t.subrange(i + 1, i + 1 + l)[k] == ry[k] by {
                        assert(r[1 + k] == ry[k]);
                    }
                }
                assert(t.subrange(i + 2 + l, i + 2 + l + rr.len()) =~= rr) by {
                    assert forall|k: int| 0 <= k < rr.len() implies t.subrange(i + 2 + l, i + 2 + l + rr.len())[k] == rr[k] by {
                        assert(r[2 + l + k] == rr[k]);
                    }
                }
                lemma_parse_flat(t, i + 1, Seq::empty(), ys);
                assert(Seq::<VItem>::empty() + tree_items(ys) =~= tree_items(ys));
                let c = VItem::Stack(tree_items(ys));
                assert(parse_spec(t, i + 1, Seq::empty()) == Ok::<(VItem, int, bool), Seq<char>>((c, i + 2 + l, true)));
                lemma_parse_flat(t, i + 2 + l, acc.push(c), rest);
                assert(acc.push(c) + tree_items(rest) =~= acc + tree_items(ts));
            },
            TokenTree::Block(ys) => {
                let ry = flatten(ys);
                let l = ry.len() as int;
                assert(r == seq!["{"@] + ry + seq!["}"@] + rr);
                assert(t[i] == "{"@) by { assert(r[0] == "{"@); }
                assert(t[i + 1 + l] == "}"@) by { assert(r[1 + l] == "}"@); }
                assert(t.subrange(i + 1, i + 1 + l) =~= ry) by {
                    assert forall|k: int| 0 <= k < l implies t.subrange(i + 1, i + 1 + l)[k] == ry[k] by {
                        assert(r[1 + k] == ry[k]);
                    }
                }
                assert(t.subrange(i + 2 + l, i + 2 + l + rr.len()) =~= rr) by {
                    assert forall|k: int| 0 <= k < rr.len() implies t.subrange(i + 2 + l, i + 2 + l + rr.len())[k] == rr[k] by {
                        assert(r[2 + l + k] == rr[k]);
                    }
                }
                lemma_parse_flat(t, i + 1, Seq::empty(), ys);
                assert(Seq::<VItem>::empty() + tree_items(ys) =~= tree_items(ys));
                let c = VItem::Block(tree_items(ys));
                assert(parse_spec(t, i + 1, Seq::empty()) == Ok::<(VItem, int, bool), Seq<char>>((c, i + 2 + l, true)));
                lemma_parse_flat(t, i + 2 + l, acc.push(c), rest);
                assert(acc.push(c) + tree_items(rest) =~= acc + tree_items(ts));
            },
        }
    }
}

/// A well-bracketed token list whose words all classify parses as one
/// top-level block, with every token consumed.
pub proof fn lemma_well_bracketed_consumed(ts: Seq<TokenTree>)
    requires
        words_ok(ts),
    ensures
        parse_spec(flatten(ts), 0, Seq::empty()) == Ok::<(VItem, int, bool), Seq<char>>(
            (VItem::Block(tree_items(ts)), flatten(ts).len() as int, false),
        ),
{
    let t = flatten(ts);
    assert(t.subrange(0, t.len() as int) =~= t);
    lemma_parse_flat(t, 0, Seq::empty(), ts);
    assert(Seq::<VItem>::empty() + tree_items(ts) =~= tree_items(ts));
}

/// Well-bracketed tokens, then one `[` or `{` that is never closed, then more
/// well-bracketed tokens: the parse fails with a bracket error.
pub proof fn lemma_unclosed_opener_fails_flat(xs: Seq<TokenTree>, o: Seq<char>, ys: Seq<TokenTree>)
    requires
        words_ok(xs),
        words_ok(ys),
        o == "["@ || o == "{"@,
    ensures
        parse_spec(flatten(xs) + seq![o] + flatten(ys), 0, Seq::empty()) == Err::<(VItem, int, bool), Seq<char>>(
            "Inconsistent brackets"@,
        ),
{
    reveal_strlit("[");
    reveal_strlit("]");
    reveal_strlit("{");
    reveal_strlit("}");
    let rx = flatten(xs);
    let ry = flatten(ys);
    let t = rx + seq![o] + ry;
    let a = rx.len() as int;
    assert(t.subrange(0, a) =~= rx);
    lemma_parse_flat(t, 0, Seq::empty(), xs);
    assert(t.subrange(a + 1, a + 1 + ry.len()) =~= ry);
    lemma_parse_flat(t, a + 1, Seq::empty(), ys);
    assert(t[a] == o);
    assert(Seq::<VItem>::empty() + tree_items(ys) =~= tree_items(ys));
}

} // verus!
