//! Rewrite rules: compiling the two halves of `pattern => state`, and the
//! table of named operators.
use vstd::prelude::*;
use vstd::string::StrSliceExecFns;
use crate::error::ParseError;
use crate::token::{get_tokens, strings_view, tokenize};
use crate::item::{clone_value, lemma_group_view, parse_item, parse_spec, str_eq, items_view, Atom, Item, VAtom, VItem, VValue, Value};

verus! {

/// A leaf of a rule's pattern.
#[derive(Debug)]
pub enum PatternAtom {
    Variable(String),
    ListVariable(String),
    StackEnd,
    Remainder,
    Value(Value),
    Operator(String),
}

/// A node of a rule's pattern: a leaf, or a stack whose contents must match.
#[derive(Debug)]
pub enum PatternItem {
    Atom(PatternAtom),
    Stack(Vec<PatternItem>),
}

/// A leaf of a rule's replacement.
#[derive(Debug)]
pub enum StateAtom {
    Variable(String),
    StackEnd,
    Remainder,
    Value(Value),
    Operator(String),
}

/// A node of a rule's replacement.
#[derive(Debug)]
pub enum StateItem {
    Atom(StateAtom),
    Stack(Vec<StateItem>),
    Block(Vec<StateItem>),
}

pub enum VPatternAtom {
    Variable(Seq<char>),
    ListVariable(Seq<char>),
    StackEnd,
    Remainder,
    Value(VValue),
    Operator(Seq<char>),
}

pub enum VPatternItem {
    Atom(VPatternAtom),
    Stack(Seq<VPatternItem>),
}

pub enum VStateAtom {
    Variable(Seq<char>),
    StackEnd,
    Remainder,
    Value(VValue),
    Operator(Seq<char>),
}

pub enum VStateItem {
    Atom(VStateAtom),
    Stack(Seq<VStateItem>),
    Block(Seq<VStateItem>),
}

impl View for PatternAtom {
    type V = VPatternAtom;

    open spec fn view(&self) -> VPatternAtom {
        match self {
            PatternAtom::Variable(n) => VPatternAtom::Variable(n@),
            PatternAtom::ListVariable(n) => VPatternAtom::ListVariable(n@),
            PatternAtom::StackEnd => VPatternAtom::StackEnd,
            PatternAtom::Remainder => VPatternAtom::Remainder,
            PatternAtom::Value(v) => VPatternAtom::Value(v@),
            PatternAtom::Operator(n) => VPatternAtom::Operator(n@),
        }
    }
}

impl View for StateAtom {
    type V = VStateAtom;

    open spec fn view(&self) -> VStateAtom {
        match self {
            StateAtom::Variable(n) => VStateAtom::Variable(n@),
            StateAtom::StackEnd => VStateAtom::StackEnd,
            StateAtom::Remainder => VStateAtom::Remainder,
            StateAtom::Value(v) => VStateAtom::Value(v@),
            StateAtom::Operator(n) => VStateAtom::Operator(n@),
        }
    }
}

pub open spec fn pattern_item_view(p: PatternItem) -> VPatternItem
    decreases p,
{
    match p {
        PatternItem::Atom(a) => VPatternItem::Atom(a@),
        PatternItem::Stack(v) => VPatternItem::Stack(
            Seq::new(
                v@.len(),
                |k: int|
                    if 0 <= k < v@.len() {
                        pattern_item_view(v@[k])
                    } else {
                        VPatternItem::Stack(Seq::empty())
                    },
            ),
        ),
    }
}

pub open spec fn state_item_view(p: StateItem) -> VStateItem
    decreases p,
{
    match p {
        StateItem::Atom(a) => VStateItem::Atom(a@),
        StateItem::Stack(v) => VStateItem::Stack(
            Seq::new(
                v@.len(),
                |k: int|
                    if 0 <= k < v@.len() {
                        state_item_view(v@[k])
                    } else {
                        VStateItem::Stack(Seq::empty())
                    },
            ),
        ),
        StateItem::Block(v) => VStateItem::Block(
            Seq::new(
                v@.len(),
                |k: int|
                    if 0 <= k < v@.len() {
                        state_item_view(v@[k])
                    } else {
                        VStateItem::Stack(Seq::empty())
                    },
            ),
        ),
    }
}

impl View for PatternItem {
    type V = VPatternItem;

    open spec fn view(&self) -> VPatternItem {
        pattern_item_view(*self)
    }
}

impl View for StateItem {
    type V = VStateItem;

    open spec fn view(&self) -> VStateItem {
        state_item_view(*self)
    }
}

pub open spec fn patterns_view(v: Seq<PatternItem>) -> Seq<VPatternItem> {
    Seq::new(v.len(), |k: int| v[k]@)
}

pub open spec fn states_view(v: Seq<StateItem>) -> Seq<VStateItem> {
    Seq::new(v.len(), |k: int| v[k]@)
}

pub proof fn lemma_pattern_stack_view(v: Vec<PatternItem>)
    ensures
        PatternItem::Stack(v)@ == VPatternItem::Stack(patterns_view(v@)),
{
    assert(PatternItem::Stack(v)@->Stack_0 =~= patterns_view(v@));
}

pub proof fn lemma_state_group_view(v: Vec<StateItem>)
    ensures
        StateItem::Stack(v)@ == VStateItem::Stack(states_view(v@)),
        StateItem::Block(v)@ == VStateItem::Block(states_view(v@)),
{
    assert(StateItem::Stack(v)@->Stack_0 =~= states_view(v@));
    assert(StateItem::Block(v)@->Block_0 =~= states_view(v@));
}

/// `w` holds the variadic marker `...` at index `p`.
pub open spec fn marker_at(w: Seq<char>, p: int) -> bool {
    0 <= p && p + 3 <= w.len() && w[p] == '.' && w[p + 1] == '.' && w[p + 2] == '.'
}

/// The index of the first variadic marker in `w`, if there is one.
pub open spec fn first_marker(w: Seq<char>) -> Option<int> {
    if exists|p: int| marker_at(w, p) && forall|q: int| 0 <= q < p ==> !marker_at(w, q) {
        Some(choose|p: int| marker_at(w, p) && forall|q: int| 0 <= q < p ==> !marker_at(w, q))
    } else {
        None
    }
}

/// The pattern atom that a word compiles to, given the operator names `ops`.
pub open spec fn pattern_word_spec(w: Seq<char>, ops: Seq<Seq<char>>) -> Result<VPatternAtom, Seq<char>> {
    if w == "_"@ {
        Ok(VPatternAtom::StackEnd)
    } else {
        match first_marker(w) {
            Some(p) => {
                let name = w.subrange(p + 3, w.len() as int);
                if name.len() == 0 {
                    Ok(VPatternAtom::Remainder)
                } else if ops.contains(name) {
                    Err("Can't use an operator as a variable name"@)
                } else {
                    Ok(VPatternAtom::ListVariable(name))
                }
            },
            None => if ops.contains(w) {
                Ok(VPatternAtom::Operator(w))
            } else {
                Ok(VPatternAtom::Variable(w))
            },
        }
    }
}

/// The pattern that the parsed items compile to, or the first error.
pub open spec fn pattern_spec(items: Seq<VItem>, ops: Seq<Seq<char>>) -> Result<Seq<VPatternItem>, Seq<char>>
    decreases items,
{
    if items.len() == 0 {
        Ok(Seq::empty())
    } else {
        match pattern_spec(items.subrange(0, items.len() - 1), ops) {
            Err(e) => Err(e),
            Ok(ps) => match items[items.len() - 1] {
                VItem::Atom(VAtom::Value(v)) => Ok(ps.push(VPatternItem::Atom(VPatternAtom::Value(v)))),
                VItem::Atom(VAtom::Word(w)) => match pattern_word_spec(w, ops) {
                    Err(e) => Err(e),
                    Ok(a) => Ok(ps.push(VPatternItem::Atom(a))),
                },
                VItem::Stack(inner) => match pattern_spec(inner, ops) {
                    Err(e) => Err(e),
                    Ok(sub) => Ok(ps.push(VPatternItem::Stack(sub))),
                },
                VItem::Block(_) => Err("Can't include blocks in patterns"@),
            },
        }
    }
}

/// The state atom that a word compiles to, given the operator names `ops`.
pub open spec fn state_word_spec(w: Seq<char>, ops: Seq<Seq<char>>) -> Result<VStateAtom, Seq<char>> {
    if w == "_"@ {
        Ok(VStateAtom::StackEnd)
    } else if w == "..."@ {
        Ok(VStateAtom::Remainder)
    } else if first_marker(w) is Some {
        Err("List variables can't be instantiated in states"@)
    } else if ops.contains(w) {
        Ok(VStateAtom::Operator(w))
    } else {
        Ok(VStateAtom::Variable(w))
    }
}

/// The replacement that the parsed items compile to, or the first error.
pub open spec fn state_spec(items: Seq<VItem>, ops: Seq<Seq<char>>) -> Result<Seq<VStateItem>, Seq<char>>
    decreases items,
{
    if items.len() == 0 {
        Ok(Seq::empty())
    } else {
        match state_spec(items.subrange(0, items.len() - 1), ops) {
            Err(e) => Err(e),
            Ok(ps) => match items[items.len() - 1] {
                VItem::Atom(VAtom::Value(v)) => Ok(ps.push(VStateItem::Atom(VStateAtom::Value(v)))),
                VItem::Atom(VAtom::Word(w)) => match state_word_spec(w, ops) {
                    Err(e) => Err(e),
                    Ok(a) => Ok(ps.push(VStateItem::Atom(a))),
                },
                VItem::Stack(inner) => match state_spec(inner, ops) {
                    Err(e) => Err(e),
                    Ok(sub) => Ok(ps.push(VStateItem::Stack(sub))),
                },
                VItem::Block(inner) => match state_spec(inner, ops) {
                    Err(e) => Err(e),
                    Ok(sub) => Ok(ps.push(VStateItem::Block(sub))),
                },
            },
        }
    }
}

fn find_marker(w: &str) -> (r: Option<usize>)
    ensures
        match r {
            Some(p) => first_marker(w@) == Some(p as int),
            None => first_marker(w@) is None,
        },
{
    let n = w.unicode_len();
    let mut p: usize = 0;
    while n >= 3 && p <= n - 3
        invariant
            n == w@.len(),
            forall|q: int| 0 <= q < p ==> !marker_at(w@, q),
        decreases n - p,
    {
        if w.get_char(p) == '.' && w.get_char(p + 1) == '.' && w.get_char(p + 2) == '.' {
            assert(marker_at(w@, p as int));
            let ghost q = choose|q: int| marker_at(w@, q) && forall|q2: int| 0 <= q2 < q ==> !marker_at(w@, q2);
            assert(q == p as int);
            return Some(p);
        }
        p = p + 1;
    }
    assert(forall|q: int| !marker_at(w@, q));
    None
}

/// Whether `w` is one of `names`.
pub fn contains_name(names: &[String], w: &str) -> (r: bool)
    ensures
        r == strings_view(names@).contains(w@),
{
    let mut i: usize = 0;
    while i < names.len()
        invariant
            i <= names@.len(),
            forall|k: int| 0 <= k < i ==> names@[k]@ != w@,
        decreases names@.len() - i,
    {
        if str_eq(names[i].as_str(), w) {
            assert(strings_view(names@)[i as int] == w@);
            return true;
        }
        i = i + 1;
    }
    assert(!strings_view(names@).contains(w@));
    false
}

fn compile_pattern_word(w: &String, ops: &[String]) -> (r: Result<PatternAtom, ParseError>)
    ensures
        match pattern_word_spec(w@, strings_view(ops@)) {
            Ok(a) => r is Ok && r->Ok_0@ == a,
            Err(m) => r is Err && r->Err_0.0@ == m,
        },
{
    let ws = w.as_str();
    if str_eq(ws, "_") {
        return Ok(PatternAtom::StackEnd);
    }
    match find_marker(ws) {
        Some(p) => {
            let n = ws.unicode_len();
            let name = ws.substring_char(p + 3, n);
            if name.unicode_len() == 0 {
                Ok(PatternAtom::Remainder)
            } else if contains_name(ops, name) {
                Err(ParseError::new("Can't use an operator as a variable name"))
            } else {
                Ok(PatternAtom::ListVariable(name.to_owned()))
            }
        },
        None => {
            if contains_name(ops, ws) {
                Ok(PatternAtom::Operator(w.clone()))
            } else {
                Ok(PatternAtom::Variable(w.clone()))
            }
        },
    }
}

proof fn lemma_pattern_prefix_err(s: Seq<VItem>, k: int, ops: Seq<Seq<char>>)
    requires
        0 <= k <= s.len(),
        pattern_spec(s.subrange(0, k), ops) is Err,
    ensures
        pattern_spec(s, ops) == pattern_spec(s.subrange(0, k), ops),
    decreases s.len() - k,
{
    if k == s.len() {
        assert(s.subrange(0, k) =~= s);
    } else {
        assert(s.subrange(0, k + 1).subrange(0, k) =~= s.subrange(0, k));
        lemma_pattern_prefix_err(s, k + 1, ops);
    }
}

/// Compiles the parsed left half of a rule into its pattern. Fails on a block,
/// or on a list variable named after an operator of `ops`.
pub fn compile_pattern(items: &[Item], ops: &[String]) -> (r: Result<Vec<PatternItem>, ParseError>)
    ensures
        match pattern_spec(items_view(items@), strings_view(ops@)) {
            Ok(ps) => r is Ok && patterns_view(r->Ok_0@) == ps,
            Err(m) => r is Err && r->Err_0.0@ == m,
        },
    decreases items@,
{
    proof {
        reveal_strlit("_");
    }
    let ghost iv = items_view(items@);
    let ghost os = strings_view(ops@);
    let mut out: Vec<PatternItem> = Vec::new();
    let mut i: usize = 0;
    assert(patterns_view(out@) =~= Seq::empty());
    assert(iv.subrange(0, 0) =~= Seq::empty());
    while i < items.len()
        invariant
            iv == items_view(items@),
            os == strings_view(ops@),
            i <= items@.len(),
            out@.len() == i,
            pattern_spec(iv.subrange(0, i as int), os) == Ok::<Seq<VPatternItem>, Seq<char>>(patterns_view(out@)),
        decreases items@.len() - i,
    {
        let ghost pre = patterns_view(out@);
        let ghost sub = iv.subrange(0, i + 1);
        assert(sub.subrange(0, i as int) =~= iv.subrange(0, i as int));
        assert(sub[i as int] == items@[i as int]@);
        match &items[i] {
            Item::Atom(Atom::Value(v)) => {
                out.push(PatternItem::Atom(PatternAtom::Value(clone_value(v))));
            },
            Item::Atom(Atom::Word(w)) => {
                let a = match compile_pattern_word(w, ops) {
                    Ok(a) => a,
                    Err(e) => {
                        proof { lemma_pattern_prefix_err(iv, i + 1, os); }
                        return Err(e);
                    },
                };
                out.push(PatternItem::Atom(a));
            },
            Item::Stack(inner) => {
                proof { lemma_group_view(*inner); }
                assert(decreases_to!(items@ => inner@)) by {
                    assert(decreases_to!(items@ => items@[i as int]));
                };
                let sub = match compile_pattern(inner.as_slice(), ops) {
                    Ok(s) => s,
                    Err(e) => {
                        proof { lemma_pattern_prefix_err(iv, i + 1, os); }
                        return Err(e);
                    },
                };
                proof { lemma_pattern_stack_view(sub); }
                out.push(PatternItem::Stack(sub));
            },
            Item::Block(_) => {
                proof { lemma_pattern_prefix_err(iv, i + 1, os); }
                return Err(ParseError::new("Can't include blocks in patterns"));
            },
        }
        assert(patterns_view(out@) =~= pre.push(out@[i as int]@));
        i = i + 1;
    }
    assert(iv.subrange(0, i as int) =~= iv);
    Ok(out)
}

fn compile_state_word(w: &String, ops: &[String]) -> (r: Result<StateAtom, ParseError>)
    ensures
        match state_word_spec(w@, strings_view(ops@)) {
            Ok(a) => r is Ok && r->Ok_0@ == a,
            Err(m) => r is Err && r->Err_0.0@ == m,
        },
{
    let ws = w.as_str();
    if str_eq(ws, "_") {
        Ok(StateAtom::StackEnd)
    } else if str_eq(ws, "...") {
        Ok(StateAtom::Remainder)
    } else if find_marker(ws).is_some() {
        Err(ParseError::new("List variables can't be instantiated in states"))
    } else if contains_name(ops, ws) {
        Ok(StateAtom::Operator(w.clone()))
    } else {
        Ok(StateAtom::Variable(w.clone()))
    }
}

proof fn lemma_state_prefix_err(s: Seq<VItem>, k: int, ops: Seq<Seq<char>>)
    requires
        0 <= k <= s.len(),
        state_spec(s.subrange(0, k), ops) is Err,
    ensures
        state_spec(s, ops) == state_spec(s.subrange(0, k), ops),
    decreases s.len() - k,
{
    if k == s.len() {
        assert(s.subrange(0, k) =~= s);
    } else {
        assert(s.subrange(0, k + 1).subrange(0, k) =~= s.subrange(0, k));
        lemma_state_prefix_err(s, k + 1, ops);
    }
}

/// Compiles the parsed right half of a rule into its replacement. Fails on a
/// list variable declared there.
pub fn compile_state(items: &[Item], ops: &[String]) -> (r: Result<Vec<StateItem>, ParseError>)
    ensures
        match state_spec(items_view(items@), strings_view(ops@)) {
            Ok(ps) => r is Ok && states_view(r->Ok_0@) == ps,
            Err(m) => r is Err && r->Err_0.0@ == m,
        },
    decreases items@,
{
    let ghost iv = items_view(items@);
    let ghost os = strings_view(ops@);
    let mut out: Vec<StateItem> = Vec::new();
    let mut i: usize = 0;
    assert(states_view(out@) =~= Seq::empty());
    assert(iv.subrange(0, 0) =~= Seq::empty());
    while i < items.len()
        invariant
            iv == items_view(items@),
            os == strings_view(ops@),
            i <= items@.len(),
            out@.len() == i,
            state_spec(iv.subrange(0, i as int), os) == Ok::<Seq<VStateItem>, Seq<char>>(states_view(out@)),
        decreases items@.len() - i,
    {
        let ghost pre = states_view(out@);
        let ghost sub = iv.subrange(0, i + 1);
        assert(sub.subrange(0, i as int) =~= iv.subrange(0, i as int));
        assert(sub[i as int] == items@[i as int]@);
        match &items[i] {
            Item::Atom(Atom::Value(v)) => {
                out.push(StateItem::Atom(StateAtom::Value(clone_value(v))));
            },
            Item::Atom(Atom::Word(w)) => {
                let a = match compile_state_word(w, ops) {
                    Ok(a) => a,
                    Err(e) => {
                        proof { lemma_state_prefix_err(iv, i + 1, os); }
                        return Err(e);
                    },
                };
                out.push(StateItem::Atom(a));
            },
            Item::Stack(inner) => {
                proof { lemma_group_view(*inner); }
                assert(decreases_to!(items@ => inner@)) by {
                    assert(decreases_to!(items@ => items@[i as int]));
                };
                let sub = match compile_state(inner.as_slice(), ops) {
                    Ok(s) => s,
                    Err(e) => {
                        proof { lemma_state_prefix_err(iv, i + 1, os); }
                        return Err(e);
                    },
                };
                proof { lemma_state_group_view(sub); }
                out.push(StateItem::Stack(sub));
            },
            Item::Block(inner) => {
                proof { lemma_group_view(*inner); }
                assert(decreases_to!(items@ => inner@)) by {
                    assert(decreases_to!(items@ => items@[i as int]));
                };
                let sub = match compile_state(inner.as_slice(), ops) {
                    Ok(s) => s,
                    Err(e) => {
                        proof { lemma_state_prefix_err(iv, i + 1, os); }
                        return Err(e);
                    },
                };
                proof { lemma_state_group_view(sub); }
                out.push(StateItem::Block(sub));
            },
        }
        assert(states_view(out@) =~= pre.push(out@[i as int]@));
        i = i + 1;
    }
    assert(iv.subrange(0, i as int) =~= iv);
    Ok(out)
}

/// One rule: the pattern to match and the state that replaces what it matched.
#[derive(Debug)]
pub struct OperatorEntry {
    pub pattern: Vec<PatternItem>,
    pub state: Vec<StateItem>,
}

pub struct VEntry {
    pub pattern: Seq<VPatternItem>,
    pub state: Seq<VStateItem>,
}

impl View for OperatorEntry {
    type V = VEntry;

    open spec fn view(&self) -> VEntry {
        VEntry { pattern: patterns_view(self.pattern@), state: states_view(self.state@) }
    }
}

/// A named operator: its rules, tried in order.
#[derive(Debug)]
pub struct Operator(pub Vec<OperatorEntry>);

pub open spec fn entries_view(v: Seq<OperatorEntry>) -> Seq<VEntry> {
    Seq::new(v.len(), |k: int| v[k]@)
}

impl View for Operator {
    type V = Seq<VEntry>;

    open spec fn view(&self) -> Seq<VEntry> {
        entries_view(self.0@)
    }
}

/// The items of the text `s` where it parses as one whole block; else the
/// parse error, or `msg`.
pub open spec fn whole_block_spec(s: Seq<char>, msg: Seq<char>) -> Result<Seq<VItem>, Seq<char>> {
    match parse_spec(tokenize(s), 0, Seq::empty()) {
        Err(m) => Err(m),
        Ok((VItem::Block(items), j, _)) => if j == tokenize(s).len() {
            Ok(items)
        } else {
            Err(msg)
        },
        Ok(_) => Err(msg),
    }
}

fn parse_whole_block(s: &str, msg: &str) -> (r: Result<Vec<Item>, ParseError>)
    ensures
        match whole_block_spec(s@, msg@) {
            Ok(items) => r is Ok && items_view(r->Ok_0@) == items,
            Err(m) => r is Err && r->Err_0.0@ == m,
        },
{
    let tokens = get_tokens(s);
    let (item, j) = match parse_item(tokens.as_slice()) {
        Ok(p) => p,
        Err(e) => return Err(e),
    };
    match item {
        Item::Block(items) => {
            proof { lemma_group_view(items); }
            if j == tokens.len() {
                Ok(items)
            } else {
                Err(ParseError::new(msg))
            }
        },
        _ => Err(ParseError::new(msg)),
    }
}

/// The separator `=>` stands in `l` at index `p`.
pub open spec fn arrow_at(l: Seq<char>, p: int) -> bool {
    0 <= p && p + 2 <= l.len() && l[p] == '=' && l[p + 1] == '>'
}

/// `p` is the only place of `=>` in `l`.
pub open spec fn only_arrow(l: Seq<char>, p: int) -> bool {
    arrow_at(l, p) && forall|q: int| q != p ==> !arrow_at(l, q)
}

/// The rule that the line `l` compiles to, given the operator names `ops`.
pub open spec fn entry_spec(l: Seq<char>, ops: Seq<Seq<char>>) -> Result<VEntry, Seq<char>> {
    if exists|p: int| only_arrow(l, p) {
        let p = choose|p: int| only_arrow(l, p);
        match whole_block_spec(l.subrange(0, p), "Invalid pattern"@) {
            Err(m) => Err(m),
            Ok(pi) => match pattern_spec(pi, ops) {
                Err(m) => Err(m),
                Ok(pattern) => match whole_block_spec(l.subrange(p + 2, l.len() as int), "Invalid state"@) {
                    Err(m) => Err(m),
                    Ok(si) => match state_spec(si, ops) {
                        Err(m) => Err(m),
                        Ok(state) => Ok(VEntry { pattern, state }),
                    },
                },
            },
        }
    } else {
        Err("Bad entry"@)
    }
}

fn find_arrow(l: &str, from: usize) -> (r: Option<usize>)
    requires
        from <= l@.len(),
    ensures
        match r {
            Some(p) => from <= p && arrow_at(l@, p as int) && forall|q: int| from <= q < p ==> !arrow_at(l@, q),
            None => forall|q: int| from <= q ==> !arrow_at(l@, q),
        },
{
    let n = l.unicode_len();
    let mut p = from;
    while p < n && p + 1 < n
        invariant
            n == l@.len(),
            from <= p <= n,
            forall|q: int| from <= q < p ==> !arrow_at(l@, q),
        decreases n - p,
    {
        if l.get_char(p) == '=' && l.get_char(p + 1) == '>' {
            return Some(p);
        }
        p = p + 1;
    }
    None
}

impl OperatorEntry {
    /// Compiles one rule line `pattern => state`.
    pub fn parse(line: &str, ops: &[String]) -> (r: Result<OperatorEntry, ParseError>)
        ensures
            match entry_spec(line@, strings_view(ops@)) {
                Ok(e) => r is Ok && r->Ok_0@ == e,
                Err(m) => r is Err && r->Err_0.0@ == m,
            },
    {
        let n = line.unicode_len();
        let p = match find_arrow(line, 0) {
            Some(p) => p,
            None => return Err(ParseError::new("Bad entry")),
        };
        if find_arrow(line, p + 2).is_some() {
            assert(!exists|q: int| only_arrow(line@, q));
            return Err(ParseError::new("Bad entry"));
        }
        assert(only_arrow(line@, p as int));
        assert(forall|q: int| only_arrow(line@, q) ==> q == p);
        let pattern_items = parse_whole_block(line.substring_char(0, p), "Invalid pattern")?;
        let pattern = compile_pattern(pattern_items.as_slice(), ops)?;
        let state_items = parse_whole_block(line.substring_char(p + 2, n), "Invalid state")?;
        let state = compile_state(state_items.as_slice(), ops)?;
        Ok(OperatorEntry { pattern, state })
    }
}

impl Operator {
    /// Compiles the rule lines of one operator, in order.
    pub fn parse(lines: &[String], ops: &[String]) -> (r: Result<Operator, ParseError>)
        ensures
            r is Ok <==> forall|k: int| 0 <= k < lines@.len() ==> entry_spec(#[trigger] lines@[k]@, strings_view(ops@)) is Ok,
            r is Ok ==> r->Ok_0@.len() == lines@.len() && forall|k: int| 0 <= k < lines@.len() ==> Ok::<VEntry, Seq<char>>(#[trigger] r->Ok_0@[k]) == entry_spec(lines@[k]@, strings_view(ops@)),
            r is Err ==> exists|k: int|
                0 <= k < lines@.len() && Err::<VEntry, Seq<char>>(r->Err_0.0@) == entry_spec(#[trigger] lines@[k]@, strings_view(ops@))
                    && forall|j: int| 0 <= j < k ==> entry_spec(#[trigger] lines@[j]@, strings_view(ops@)) is Ok,
    {
        let mut entries: Vec<OperatorEntry> = Vec::new();
        let mut i: usize = 0;
        while i < lines.len()
            invariant
                i <= lines@.len(),
                entries@.len() == i,
                forall|k: int| 0 <= k < i ==> Ok::<VEntry, Seq<char>>(#[trigger] entries@[k]@) == entry_spec(lines@[k]@, strings_view(ops@)),
            decreases lines@.len() - i,
        {
            match OperatorEntry::parse(lines[i].as_str(), ops) {
                Ok(e) => entries.push(e),
                Err(e) => {
                    assert(forall|j: int| 0 <= j < i ==> entry_spec(#[trigger] lines@[j]@, strings_view(ops@)) is Ok) by {
                        assert forall|j: int| 0 <= j < i implies entry_spec(#[trigger] lines@[j]@, strings_view(ops@)) is Ok by {
                            assert(Ok::<VEntry, Seq<char>>(entries@[j]@) == entry_spec(lines@[j]@, strings_view(ops@)));
                        }
                    }
                    return Err(e);
                },
            }
            i = i + 1;
        }
        assert forall|k: int| 0 <= k < lines@.len() implies entry_spec(
            #[trigger] lines@[k]@,
            strings_view(ops@),
        ) is Ok by {
            assert(Ok::<VEntry, Seq<char>>(entries@[k]@) == entry_spec(lines@[k]@, strings_view(ops@)));
        }
        Ok(Operator(entries))
    }
}

} // verus!
