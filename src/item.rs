//! Literal values, program atoms and the bracketed item tree.
use vstd::prelude::*;
use vstd::string::{StrSliceExecFns, StringExecFns};
use crate::error::ParseError;
use crate::token::{get_tokens, strings_view, tokenize};

verus! {

/// A literal. A float keeps its canonical text (see `float_norm`).
#[derive(Debug, Clone)]
pub enum Value {
    Int(i32),
    Float(String),
    Bool(bool),
}

/// A leaf of a program: a literal or a word.
#[derive(Debug)]
pub enum Atom {
    Value(Value),
    Word(String),
}

/// A node of the tree: an atom, a `[...]` stack of data or a `{...}` block of code.
#[derive(Debug)]
pub enum Item {
    Atom(Atom),
    Stack(Vec<Item>),
    Block(Vec<Item>),
}

/// The mathematical form of a [`Value`].
pub enum VValue {
    Int(i32),
    Float(Seq<char>),
    Bool(bool),
}

/// The mathematical form of an [`Atom`].
pub enum VAtom {
    Value(VValue),
    Word(Seq<char>),
}

/// The mathematical form of an [`Item`].
pub enum VItem {
    Atom(VAtom),
    Stack(Seq<VItem>),
    Block(Seq<VItem>),
}

impl View for Value {
    type V = VValue;

    open spec fn view(&self) -> VValue {
        match self {
            Value::Int(n) => VValue::Int(*n),
            Value::Float(t) => VValue::Float(t@),
            Value::Bool(b) => VValue::Bool(*b),
        }
    }
}

impl View for Atom {
    type V = VAtom;

    open spec fn view(&self) -> VAtom {
        match self {
            Atom::Value(v) => VAtom::Value(v@),
            Atom::Word(w) => VAtom::Word(w@),
        }
    }
}

pub open spec fn item_view(i: Item) -> VItem
    decreases i,
{
    match i {
        Item::Atom(a) => VItem::Atom(a@),
        Item::Stack(v) => VItem::Stack(
            Seq::new(
                v@.len(),
                |k: int|
                    if 0 <= k < v@.len() {
                        item_view(v@[k])
                    } else {
                        VItem::Stack(Seq::empty())
                    },
            ),
        ),
        Item::Block(v) => VItem::Block(
            Seq::new(
                v@.len(),
                |k: int|
                    if 0 <= k < v@.len() {
                        item_view(v@[k])
                    } else {
                        VItem::Stack(Seq::empty())
                    },
            ),
        ),
    }
}

impl View for Item {
    type V = VItem;

    open spec fn view(&self) -> VItem {
        item_view(*self)
    }
}

/// The mathematical form of a sequence of items.
pub open spec fn items_view(v: Seq<Item>) -> Seq<VItem> {
    Seq::new(v.len(), |k: int| v[k]@)
}

pub open spec fn is_digit(c: char) -> bool {
    '0' <= c && c <= '9'
}

/// `s` is a run of one or more decimal digits.
pub open spec fn is_int_text(s: Seq<char>) -> bool {
    s.len() > 0 && forall|k: int| 0 <= k < s.len() ==> is_digit(#[trigger] s[k])
}

/// `s` is digits, a dot, and possibly more digits.
pub open spec fn is_float_text(s: Seq<char>) -> bool {
    exists|d: int|
        0 < d < s.len() && s[d] == '.' && is_int_text(#[trigger] s.subrange(0, d)) && forall|k: int|
            d < k < s.len() ==> is_digit(#[trigger] s[k])
}

/// `x` without its leading zeros, keeping at least one digit.
pub open spec fn strip_zeros_front(x: Seq<char>) -> Seq<char>
    decreases x.len(),
{
    if x.len() > 1 && x[0] == '0' {
        strip_zeros_front(x.subrange(1, x.len() as int))
    } else {
        x
    }
}

/// `x` without its trailing zeros.
pub open spec fn strip_zeros_back(x: Seq<char>) -> Seq<char>
    decreases x.len(),
{
    if x.len() > 0 && x.last() == '0' {
        strip_zeros_back(x.drop_last())
    } else {
        x
    }
}

/// The index of a dot in `s`.
pub open spec fn dot_index(s: Seq<char>) -> int {
    choose|d: int| 0 <= d < s.len() && s[d] == '.'
}

/// The canonical text of a float literal: no leading zeros before the dot
/// (but one digit), and no trailing zeros after it. Literals of equal value
/// have equal canonical text.
pub open spec fn float_norm(s: Seq<char>) -> Seq<char> {
    let d = dot_index(s);
    strip_zeros_front(s.subrange(0, d)) + seq!['.'] + strip_zeros_back(s.subrange(d + 1, s.len() as int))
}

/// The number that the decimal digits `s` stand for.
pub open spec fn decimal_value(s: Seq<char>) -> int
    decreases s.len(),
{
    if s.len() == 0 {
        0
    } else {
        decimal_value(s.drop_last()) * 10 + (s.last() as int - '0' as int)
    }
}

/// The atom that a word token classifies to, or `None` where an integer
/// literal does not fit in 32 bits.
pub open spec fn classify_spec(s: Seq<char>) -> Option<VAtom> {
    if is_int_text(s) {
        if decimal_value(s) <= i32::MAX {
            Some(VAtom::Value(VValue::Int(decimal_value(s) as i32)))
        } else {
            None
        }
    } else if is_float_text(s) {
        Some(VAtom::Value(VValue::Float(float_norm(s))))
    } else if s == "true"@ {
        Some(VAtom::Value(VValue::Bool(true)))
    } else if s == "false"@ {
        Some(VAtom::Value(VValue::Bool(false)))
    } else {
        Some(VAtom::Word(s))
    }
}

proof fn lemma_decimal_value_monotone(s: Seq<char>, i: int)
    requires
        0 <= i <= s.len(),
        forall|k: int| 0 <= k < s.len() ==> is_digit(#[trigger] s[k]),
    ensures
        decimal_value(s.subrange(0, i)) <= decimal_value(s),
        0 <= decimal_value(s.subrange(0, i)),
    decreases s.len(),
{
    if s.len() > 0 {
        if i == s.len() {
            assert(s.subrange(0, i) =~= s);
            lemma_decimal_value_monotone(s.drop_last(), s.len() - 1);
            assert(s.drop_last().subrange(0, s.len() - 1) =~= s.drop_last());
        } else {
            lemma_decimal_value_monotone(s.drop_last(), i);
            assert(s.drop_last().subrange(0, i) =~= s.subrange(0, i));
            lemma_decimal_value_monotone(s.drop_last(), s.len() - 1);
            assert(s.drop_last().subrange(0, s.len() - 1) =~= s.drop_last());
        }
    }
}

fn all_digits(s: &str, from: usize, to: usize) -> (r: bool)
    requires
        from <= to <= s@.len(),
    ensures
        r == forall|k: int| from <= k < to ==> is_digit(#[trigger] s@[k]),
{
    let mut i = from;
    while i < to
        invariant
            from <= i <= to <= s@.len(),
            forall|k: int| from <= k < i ==> is_digit(#[trigger] s@[k]),
        decreases to - i,
    {
        let c = s.get_char(i);
        if !('0' <= c && c <= '9') {
            return false;
        }
        i = i + 1;
    }
    true
}

/// Reads a run of decimal digits as an `i32`; `None` where it does not fit.
fn parse_decimal(s: &str) -> (r: Option<i32>)
    requires
        is_int_text(s@),
    ensures
        r == (if decimal_value(s@) <= i32::MAX {
            Some(decimal_value(s@) as i32)
        } else {
            None
        }),
{
    let n = s.unicode_len();
    let mut v: i32 = 0;
    let mut i: usize = 0;
    while i < n
        invariant
            n == s@.len(),
            i <= n,
            is_int_text(s@),
            v as int == decimal_value(s@.subrange(0, i as int)),
        decreases n - i,
    {
        let c = s.get_char(i);
        let d = (c as u32 - '0' as u32) as i32;
        assert(s@.subrange(0, i + 1).drop_last() =~= s@.subrange(0, i as int));
        assert(is_digit(s@[i as int]));
        assert(0 <= d <= 9);
        proof {
            lemma_decimal_value_monotone(s@, i as int);
        }
        if v > (i32::MAX - d) / 10 {
            assert(v * 10 + d > i32::MAX) by (nonlinear_arith)
                requires
                    v > (i32::MAX - d) / 10,
                    0 <= d <= 9,
            ;
            proof {
                lemma_decimal_value_monotone(s@, i + 1);
            }
            return None;
        }
        assert(v * 10 + d <= i32::MAX) by (nonlinear_arith)
            requires
                v <= (i32::MAX - d) / 10,
                0 <= d <= 9,
                v >= 0,
        ;
        v = v * 10 + d;
        i = i + 1;
    }
    assert(s@.subrange(0, n as int) =~= s@);
    Some(v)
}

proof fn lemma_first_dot(s: Seq<char>, d: int)
    requires
        0 <= d <= s.len(),
        forall|k: int| 0 <= k < d ==> s[k] != '.',
        d < s.len() ==> s[d] == '.',
    ensures
        is_float_text(s) <==> (0 < d < s.len() && (forall|k: int| 0 <= k < d ==> is_digit(
            #[trigger] s[k],
        )) && (forall|k: int| d < k < s.len() ==> is_digit(#[trigger] s[k]))),
{
    if is_float_text(s) {
        let e = choose|e: int|
            0 < e < s.len() && s[e] == '.' && is_int_text(#[trigger] s.subrange(0, e)) && forall|
                k: int,
            |
                e < k < s.len() ==> is_digit(#[trigger] s[k]);
        if e > d {
            assert(s.subrange(0, e)[d] == '.');
        }
        assert forall|k: int| 0 <= k < d implies is_digit(#[trigger] s[k]) by {
            assert(s.subrange(0, e)[k] == s[k]);
        }
    }
    if 0 < d < s.len() && (forall|k: int| 0 <= k < d ==> is_digit(#[trigger] s[k])) && (forall|
        k: int,
    |
        d < k < s.len() ==> is_digit(#[trigger] s[k])) {
        let t = s.subrange(0, d);
        assert forall|k: int| 0 <= k < t.len() implies is_digit(#[trigger] t[k]) by {
            assert(t[k] == s[k]);
        }
        assert(is_int_text(t));
    }
}

/// In a float literal, the dot is the one character that is not a digit.
pub proof fn lemma_dot_index(s: Seq<char>)
    requires
        is_float_text(s),
    ensures
        0 < dot_index(s) < s.len(),
        s[dot_index(s)] == '.',
        forall|k: int| 0 <= k < s.len() && k != dot_index(s) ==> is_digit(#[trigger] s[k]),
{
    let d = choose|d: int|
        0 < d < s.len() && s[d] == '.' && is_int_text(#[trigger] s.subrange(0, d)) && forall|k: int|
            d < k < s.len() ==> is_digit(#[trigger] s[k]);
    assert forall|k: int| 0 <= k < d implies is_digit(#[trigger] s[k]) by {
        assert(s.subrange(0, d)[k] == s[k]);
    }
    let e = dot_index(s);
    assert(0 <= e < s.len() && s[e] == '.');
    if e != d {
        assert(is_digit(s[e]));
    }
}

/// The canonical text of `s` where it is a float literal.
fn normalize_float(s: &str) -> (r: Option<String>)
    ensures
        is_float_text(s@) ==> r is Some && r->Some_0@ == float_norm(s@),
        !is_float_text(s@) ==> r is None,
{
    let n = s.unicode_len();
    let mut d: usize = 0;
    while d < n && s.get_char(d) != '.'
        invariant
            n == s@.len(),
            d <= n,
            forall|k: int| 0 <= k < d ==> s@[k] != '.',
        decreases n - d,
    {
        d = d + 1;
    }
    proof {
        lemma_first_dot(s@, d as int);
    }
    if d == n || d == 0 {
        return None;
    }
    if !(all_digits(s, 0, d) && all_digits(s, d + 1, n)) {
        return None;
    }
    proof {
        lemma_dot_index(s@);
        if dot_index(s@) != d as int {
            assert(is_digit(s@[d as int]));
        }
    }
    let ghost front = s@.subrange(0, d as int);
    let ghost back = s@.subrange(d + 1, n as int);
    let mut a: usize = 0;
    while a + 1 < d && s.get_char(a) == '0'
        invariant
            n == s@.len(),
            a < d < n,
            strip_zeros_front(front) == strip_zeros_front(s@.subrange(a as int, d as int)),
        decreases d - a,
    {
        assert(s@.subrange(a as int, d as int).subrange(1, d - a) =~= s@.subrange(a + 1, d as int));
        a = a + 1;
    }
    assert(strip_zeros_front(s@.subrange(a as int, d as int)) == s@.subrange(a as int, d as int));
    let mut b: usize = n;
    while b > d + 1 && s.get_char(b - 1) == '0'
        invariant
            n == s@.len(),
            d + 1 <= b <= n,
            strip_zeros_back(back) == strip_zeros_back(s@.subrange(d + 1, b as int)),
        decreases b,
    {
        assert(s@.subrange(d + 1, b as int).drop_last() =~= s@.subrange(d + 1, b - 1));
        b = b - 1;
    }
    assert(strip_zeros_back(s@.subrange(d + 1, b as int)) == s@.subrange(d + 1, b as int));
    let t = s.substring_char(a, d + 1).to_owned();
    let r = t.concat(s.substring_char(d + 1, b));
    assert(r@ =~= float_norm(s@));
    Some(r)
}

pub fn str_eq(a: &str, b: &str) -> (r: bool)
    ensures
        r == (a@ == b@),
{
    let n = a.unicode_len();
    if n != b.unicode_len() {
        return false;
    }
    let mut i: usize = 0;
    while i < n
        invariant
            n == a@.len() == b@.len(),
            i <= n,
            forall|k: int| 0 <= k < i ==> a@[k] == b@[k],
        decreases n - i,
    {
        if a.get_char(i) != b.get_char(i) {
            return false;
        }
        i = i + 1;
    }
    assert(a@ =~= b@);
    true
}

/// Classifies one word token: an integer, a float, a boolean, or else a word.
/// Fails only on an integer literal that does not fit in 32 bits.
pub fn classify(s: &str) -> (r: Result<Atom, ParseError>)
    ensures
        match classify_spec(s@) {
            Some(a) => r is Ok && r->Ok_0@ == a,
            None => r is Err && r->Err_0.0@ == "Integer literal out of range"@,
        },
{
    let n = s.unicode_len();
    if n > 0 && all_digits(s, 0, n) {
        match parse_decimal(s) {
            Some(v) => Ok(Atom::Value(Value::Int(v))),
            None => Err(ParseError::new("Integer literal out of range")),
        }
    } else {
        match normalize_float(s) {
            Some(t) => Ok(Atom::Value(Value::Float(t))),
            None => if str_eq(s, "true") {
                Ok(Atom::Value(Value::Bool(true)))
            } else if str_eq(s, "false") {
                Ok(Atom::Value(Value::Bool(false)))
            } else {
                Ok(Atom::Word(s.to_owned()))
            },
        }
    }
}

/// The item tree parser as a function on tokens: the group that starts at
/// token `i`, with the items `acc` already read into it, the index of the
/// first token after it, and whether a closer ended it. A group closed by `]`
/// is a stack; one closed by `}`, or cut off by the end of the tokens, is a
/// block. A nested group must be closed, by the closer of its own opener.
pub open spec fn parse_spec(t: Seq<Seq<char>>, i: int, acc: Seq<VItem>) -> Result<
    (VItem, int, bool),
    Seq<char>,
>
    decreases t.len() - i,
{
    if i < 0 || i >= t.len() {
        Ok((VItem::Block(acc), t.len() as int, false))
    } else if t[i] == "]"@ {
        Ok((VItem::Stack(acc), i + 1, true))
    } else if t[i] == "}"@ {
        Ok((VItem::Block(acc), i + 1, true))
    } else if t[i] == "["@ || t[i] == "{"@ {
        match parse_spec(t, i + 1, Seq::empty()) {
            Err(e) => Err(e),
            Ok((child, j, closed)) => {
                if j <= i || j > t.len() || !closed {
                    Err("Inconsistent brackets"@)
                } else if (child is Stack && t[i] == "["@) || (child is Block && t[i] == "{"@) {
                    parse_spec(t, j, acc.push(child))
                } else {
                    Err("Inconsistent brackets"@)
                }
            },
        }
    } else {
        match classify_spec(t[i]) {
            None => Err("Integer literal out of range"@),
            Some(a) => parse_spec(t, i + 1, acc.push(VItem::Atom(a))),
        }
    }
}

pub proof fn lemma_group_view(v: Vec<Item>)
    ensures
        Item::Stack(v)@ == VItem::Stack(items_view(v@)),
        Item::Block(v)@ == VItem::Block(items_view(v@)),
{
    assert(Item::Stack(v)@->Stack_0 =~= items_view(v@));
    assert(Item::Block(v)@->Block_0 =~= items_view(v@));
}

/// What the exec parser returns, for the spec parser's result `p`.
pub open spec fn parse_result_matches(r: Result<(Item, usize), ParseError>, p: Result<(VItem, int, bool), Seq<char>>) -> bool {
    match p {
        Ok((it, j, _)) => r is Ok && r->Ok_0.0@ == it && r->Ok_0.1 == j,
        Err(m) => r is Err && r->Err_0.0@ == m,
    }
}

pub open spec fn group_result_matches(r: Result<(Item, usize, bool), ParseError>, p: Result<(VItem, int, bool), Seq<char>>) -> bool {
    match p {
        Ok((it, j, c)) => r is Ok && r->Ok_0.0@ == it && r->Ok_0.1 == j && r->Ok_0.2 == c,
        Err(m) => r is Err && r->Err_0.0@ == m,
    }
}

fn parse_group(tokens: &[String], start: usize) -> (r: Result<(Item, usize, bool), ParseError>)
    requires
        start <= tokens@.len(),
    ensures
        group_result_matches(r, parse_spec(strings_view(tokens@), start as int, Seq::empty())),
        r is Ok ==> start < r->Ok_0.1 <= tokens@.len() || r->Ok_0.1 == start == tokens@.len(),
    decreases tokens@.len() - start,
{
    let ghost t = strings_view(tokens@);
    let mut items: Vec<Item> = Vec::new();
    let mut i = start;
    assert(items_view(items@) =~= Seq::empty());
    while i < tokens.len()
        invariant
            t == strings_view(tokens@),
            start <= i <= tokens@.len(),
            parse_spec(t, start as int, Seq::empty()) == parse_spec(t, i as int, items_view(items@)),
        decreases tokens@.len() - i,
    {
        let tok = tokens[i].as_str();
        assert(tok@ == t[i as int]);
        if str_eq(tok, "]") {
            proof { lemma_group_view(items); }
            return Ok((Item::Stack(items), i + 1, true));
        } else if str_eq(tok, "}") {
            proof { lemma_group_view(items); }
            return Ok((Item::Block(items), i + 1, true));
        } else if str_eq(tok, "[") || str_eq(tok, "{") {
            let opens_stack = str_eq(tok, "[");
            proof {
                reveal_strlit("[");
                reveal_strlit("{");
            }
            let (child, j, closed) = match parse_group(tokens, i + 1) {
                Ok(p) => p,
                Err(e) => return Err(e),
            };
            if !closed {
                return Err(ParseError::new("Inconsistent brackets"));
            }
            let ghost before = items_view(items@);
            let ghost cv = child@;
            match child {
                Item::Stack(v) => {
                    if !opens_stack {
                        return Err(ParseError::new("Inconsistent brackets"));
                    }
                    items.push(Item::Stack(v));
                },
                Item::Block(v) => {
                    if opens_stack {
                        return Err(ParseError::new("Inconsistent brackets"));
                    }
                    items.push(Item::Block(v));
                },
                Item::Atom(_) => {
                    return Err(ParseError::new("Inconsistent brackets"));
                },
            }
            assert(items_view(items@) =~= before.push(cv));
            i = j;
        } else {
            let a = match classify(tok) {
                Ok(a) => a,
                Err(e) => return Err(e),
            };
            let ghost before = items_view(items@);
            let ghost av = a@;
            items.push(Item::Atom(a));
            assert(items_view(items@) =~= before.push(VItem::Atom(av)));
            i = i + 1;
        }
    }
    proof { lemma_group_view(items); }
    Ok((Item::Block(items), i, false))
}

/// Parses one group from the front of `tokens`: the item and the index of the
/// first token that it did not consume. A group ended by `]` is a stack; one
/// ended by `}`, or by the end of the tokens, is a block. A bracket opened
/// inside the group and never closed is an error.
pub fn parse_item(tokens: &[String]) -> (r: Result<(Item, usize), ParseError>)
    ensures
        parse_result_matches(r, parse_spec(strings_view(tokens@), 0, Seq::empty())),
        r is Ok ==> r->Ok_0.1 <= tokens@.len(),
{
    match parse_group(tokens, 0) {
        Ok((item, j, _)) => Ok((item, j)),
        Err(e) => Err(e),
    }
}

/// The program that the text `s` stands for: the items of the top-level block,
/// where the whole text parses as one block.
pub open spec fn command_spec(s: Seq<char>) -> Result<Seq<VItem>, Seq<char>> {
    match parse_spec(tokenize(s), 0, Seq::empty()) {
        Err(m) => Err(m),
        Ok((VItem::Block(items), j, _)) => if j == tokenize(s).len() {
            Ok(items)
        } else {
            Err("Expected block"@)
        },
        Ok(_) => Err("Expected block"@),
    }
}

/// Parses program text into the items to reduce.
pub fn parse_command(s: &str) -> (r: Result<Vec<Item>, ParseError>)
    ensures
        match command_spec(s@) {
            Ok(items) => r is Ok && items_view(r->Ok_0@) == items,
            Err(m) => r is Err && r->Err_0.0@ == m,
        },
{
    let tokens = get_tokens(s);
    let (item, j) = match parse_item(tokens.as_slice()) {
        Ok(p) => p,
        Err(e) => return Err(e),
    };
    match item {
        Item::Block(items) => {
            proof { lemma_group_view(items); }
            if j == tokens.len() {
                Ok(items)
            } else {
                Err(ParseError::new("Expected block"))
            }
        },
        _ => Err(ParseError::new("Expected block")),
    }
}

impl std::str::FromStr for Atom {
    type Err = ParseError;

    /// Classifies one word token, as [`classify`] does.
    fn from_str(s: &str) -> (r: Result<Atom, ParseError>)
        ensures
            match classify_spec(s@) {
                Some(a) => r is Ok && r->Ok_0@ == a,
                None => r is Err && r->Err_0.0@ == "Integer literal out of range"@,
            },
    {
        classify(s)
    }
}

/// A copy of a value.
pub fn clone_value(v: &Value) -> (r: Value)
    ensures
        r@ == v@,
{
    match v {
        Value::Int(n) => Value::Int(*n),
        Value::Float(t) => Value::Float(t.clone()),
        Value::Bool(b) => Value::Bool(*b),
    }
}

/// Every token classifies to exactly one kind of atom: an integer, a float, a
/// boolean or a word. The only tokens refused are integer literals too large
/// for 32 bits, and `true` and `false` are always booleans, never words.
pub proof fn lemma_classify_total(s: Seq<char>)
    ensures
        classify_spec(s) is None <==> (is_int_text(s) && decimal_value(s) > i32::MAX),
        classify_spec(s) matches Some(VAtom::Value(VValue::Int(n))) ==> is_int_text(s) && n == decimal_value(s),
        classify_spec(s) matches Some(VAtom::Value(VValue::Float(t))) ==> is_float_text(s) && t == float_norm(s),
        classify_spec(s) matches Some(VAtom::Word(w)) ==> w == s && !is_int_text(s) && !is_float_text(s)
            && s != "true"@ && s != "false"@,
        s == "true"@ ==> classify_spec(s) == Some(VAtom::Value(VValue::Bool(true))),
        s == "false"@ ==> classify_spec(s) == Some(VAtom::Value(VValue::Bool(false))),
{
    reveal_strlit("true");
    reveal_strlit("false");
    if is_int_text(s) {
        lemma_decimal_value_monotone(s, s.len() as int);
        assert(s.subrange(0, s.len() as int) =~= s);
    }
    if s == "true"@ || s == "false"@ {
        assert(!is_digit(s[0]));
        if is_float_text(s) {
            let d = choose|d: int|
                0 < d < s.len() && s[d] == '.' && is_int_text(#[trigger] s.subrange(0, d)) && forall|k: int|
                    d < k < s.len() ==> is_digit(#[trigger] s[k]);
            assert(s.subrange(0, d)[0] == s[0]);
        }
    }
}

} // verus!
