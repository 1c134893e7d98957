//! Matching rule patterns against the upcoming items, and the reduction loop.
use vstd::prelude::*;
use vstd::string::StringExecFns;
use crate::error::RuntimeError;
use crate::table::OperatorTable;
use crate::item::{clone_value, items_view, lemma_group_view, str_eq, Atom, Item, VAtom, VItem, Value};
use crate::operator::{
    lemma_pattern_stack_view, lemma_state_group_view, patterns_view, states_view, Operator,
    PatternAtom, PatternItem, StateAtom, StateItem, VEntry, VPatternAtom, VPatternItem, VStateAtom,
    VStateItem,
};

verus! {

/// What a pattern variable stands for: one item, or a run of items.
#[derive(Debug)]
pub enum Bound {
    One(Item),
    Many(Vec<Item>),
}

/// A pattern variable and what it matched.
#[derive(Debug)]
pub struct Binding {
    pub name: String,
    pub bound: Bound,
}

pub enum VBound {
    One(VItem),
    Many(Seq<VItem>),
}

pub struct VBinding {
    pub name: Seq<char>,
    pub bound: VBound,
}

impl View for Binding {
    type V = VBinding;

    open spec fn view(&self) -> VBinding {
        VBinding {
            name: self.name@,
            bound: match self.bound {
                Bound::One(i) => VBound::One(i@),
                Bound::Many(v) => VBound::Many(items_view(v@)),
            },
        }
    }
}

pub open spec fn bindings_view(v: Seq<Binding>) -> Seq<VBinding> {
    Seq::new(v.len(), |k: int| v[k]@)
}

/// A copy of an atom.
pub fn clone_atom(a: &Atom) -> (r: Atom)
    ensures
        r@ == a@,
{
    match a {
        Atom::Value(v) => Atom::Value(clone_value(v)),
        Atom::Word(w) => Atom::Word(w.clone()),
    }
}

/// A deep copy of an item.
pub fn clone_item(i: &Item) -> (r: Item)
    ensures
        r@ == i@,
    decreases i,
{
    match i {
        Item::Atom(a) => Item::Atom(clone_atom(a)),
        Item::Stack(v) => {
            let c = clone_range(v.as_slice(), 0, v.len());
            proof {
                lemma_group_view(c);
                lemma_group_view(*v);
                assert(items_view(v@).subrange(0, v@.len() as int) =~= items_view(v@));
            }
            Item::Stack(c)
        },
        Item::Block(v) => {
            let c = clone_range(v.as_slice(), 0, v.len());
            proof {
                lemma_group_view(c);
                lemma_group_view(*v);
                assert(items_view(v@).subrange(0, v@.len() as int) =~= items_view(v@));
            }
            Item::Block(c)
        },
    }
}

/// Deep copies of `v[from..to]`.
pub fn clone_range(v: &[Item], from: usize, to: usize) -> (r: Vec<Item>)
    requires
        from <= to <= v@.len(),
    ensures
        items_view(r@) == items_view(v@).subrange(from as int, to as int),
    decreases v@,
{
    let mut out: Vec<Item> = Vec::new();
    let mut k = from;
    while k < to
        invariant
            from <= k <= to <= v@.len(),
            out@.len() == k - from,
            items_view(out@) == items_view(v@).subrange(from as int, k as int),
        decreases to - k,
    {
        let ghost pre = items_view(out@);
        assert(decreases_to!(v@ => v@[k as int]));
        let c = clone_item(&v[k]);
        out.push(c);
        assert(items_view(out@) =~= items_view(v@).subrange(from as int, k + 1));
        k = k + 1;
    }
    out
}

fn value_eq(a: &Value, b: &Value) -> (r: bool)
    ensures
        r == (a@ == b@),
{
    match (a, b) {
        (Value::Int(x), Value::Int(y)) => *x == *y,
        (Value::Float(x), Value::Float(y)) => str_eq(x.as_str(), y.as_str()),
        (Value::Bool(x), Value::Bool(y)) => *x == *y,
        _ => false,
    }
}

/// The size of a pattern: its atoms and stacks, at every depth.
pub open spec fn pats_size(p: Seq<VPatternItem>) -> nat
    decreases p,
{
    if p.len() == 0 {
        0
    } else {
        1 + (match p[0] {
            VPatternItem::Stack(s) => pats_size(s),
            _ => 0,
        }) + pats_size(p.subrange(1, p.len() as int))
    }
}

/// The binding that a list capture of `xs` makes: none for the unnamed one.
pub open spec fn list_binding(name: Option<Seq<char>>, xs: Seq<VItem>) -> Seq<VBinding> {
    match name {
        Some(n) => seq![VBinding { name: n, bound: VBound::Many(xs) }],
        None => Seq::empty(),
    }
}

/// Matches the pattern `p` against the front of `inp`: the bindings made and
/// the number of items consumed. Where `whole` holds, all of `inp` must be
/// consumed.
pub open spec fn match_from(p: Seq<VPatternItem>, inp: Seq<VItem>, whole: bool) -> Option<
    (Seq<VBinding>, int),
>
    decreases pats_size(p), inp.len() + 2,
{
    if p.len() == 0 {
        if whole && inp.len() > 0 {
            None
        } else {
            Some((Seq::empty(), 0))
        }
    } else {
        let rest = p.subrange(1, p.len() as int);
        match p[0] {
            VPatternItem::Atom(VPatternAtom::StackEnd) => if rest.len() == 0 && inp.len() == 0 {
                Some((Seq::empty(), 0))
            } else {
                None
            },
            VPatternItem::Atom(VPatternAtom::ListVariable(n)) => match_list(rest, inp, 0, whole, Some(n)),
            VPatternItem::Atom(VPatternAtom::Remainder) => match_list(rest, inp, 0, whole, None),
            _ => if inp.len() == 0 {
                None
            } else {
                let head: Option<Seq<VBinding>> = match p[0] {
                    VPatternItem::Atom(VPatternAtom::Variable(n)) => Some(
                        seq![VBinding { name: n, bound: VBound::One(inp[0]) }],
                    ),
                    VPatternItem::Atom(VPatternAtom::Value(v)) => if inp[0] == VItem::Atom(VAtom::Value(v)) {
                        Some(Seq::empty())
                    } else {
                        None
                    },
                    VPatternItem::Atom(VPatternAtom::Operator(r)) => if inp[0] == VItem::Atom(VAtom::Word(r)) {
                        Some(Seq::empty())
                    } else {
                        None
                    },
                    VPatternItem::Stack(sub) => match inp[0] {
                        VItem::Stack(xs) => match match_from(sub, xs, true) {
                            Some((b, _)) => Some(b),
                            None => None,
                        },
                        _ => None,
                    },
                    _ => None,
                };
                match head {
                    None => None,
                    Some(b1) => match match_from(rest, inp.subrange(1, inp.len() as int), whole) {
                        None => None,
                        Some((b2, c)) => Some((b1 + b2, c + 1)),
                    },
                }
            },
        }
    }
}

/// Matches a list capture followed by `rest`, capturing the fewest items
/// (at least `k`) that let `rest` match what follows them.
pub open spec fn match_list(
    rest: Seq<VPatternItem>,
    inp: Seq<VItem>,
    k: int,
    whole: bool,
    name: Option<Seq<char>>,
) -> Option<(Seq<VBinding>, int)>
    decreases pats_size(rest) + 1, inp.len() - k + 1,
{
    if k < 0 || k > inp.len() {
        None
    } else {
        match match_from(rest, inp.subrange(k, inp.len() as int), whole) {
            Some((b, c)) => Some((list_binding(name, inp.subrange(0, k)) + b, k + c)),
            None => match_list(rest, inp, k + 1, whole, name),
        }
    }
}

pub open spec fn name_view(name: Option<&String>) -> Option<Seq<char>> {
    match name {
        Some(n) => Some(n@),
        None => None,
    }
}

/// What the exec matcher returns, for the spec matcher's result `m`.
pub open spec fn match_result_matches(r: Option<(Vec<Binding>, usize)>, m: Option<(Seq<VBinding>, int)>) -> bool {
    match m {
        None => r is None,
        Some((bs, c)) => r is Some && bindings_view(r->Some_0.0@) == bs && r->Some_0.1 == c,
    }
}

proof fn lemma_pats_size_rest(p: Seq<VPatternItem>, pi: int)
    requires
        0 <= pi < p.len(),
    ensures
        p.subrange(pi, p.len() as int).subrange(1, p.len() - pi) == p.subrange(pi + 1, p.len() as int),
        p.subrange(pi, p.len() as int)[0] == p[pi],
        pats_size(p.subrange(pi + 1, p.len() as int)) < pats_size(p.subrange(pi, p.len() as int)),
{
    assert(p.subrange(pi, p.len() as int).subrange(1, p.len() - pi) =~= p.subrange(pi + 1, p.len() as int));
}

fn concat_bindings(a: Vec<Binding>, b: Vec<Binding>) -> (r: Vec<Binding>)
    ensures
        bindings_view(r@) == bindings_view(a@) + bindings_view(b@),
{
    let mut a = a;
    let mut b = b;
    let ghost av = bindings_view(a@);
    let ghost bv = bindings_view(b@);
    a.append(&mut b);
    assert(bindings_view(a@) =~= av + bv);
    a
}

fn match_at(p: &[PatternItem], pi: usize, inp: &[Item], ii: usize, whole: bool) -> (r: Option<(Vec<Binding>, usize)>)
    requires
        pi <= p@.len(),
        ii <= inp@.len(),
    ensures
        match_result_matches(
            r,
            match_from(
                patterns_view(p@).subrange(pi as int, p@.len() as int),
                items_view(inp@).subrange(ii as int, inp@.len() as int),
                whole,
            ),
        ),
        r is Some ==> r->Some_0.1 <= inp@.len() - ii,
    decreases pats_size(patterns_view(p@).subrange(pi as int, p@.len() as int)), inp@.len() - ii + 2,
{
    let ghost pv = patterns_view(p@).subrange(pi as int, p@.len() as int);
    let ghost iv = items_view(inp@).subrange(ii as int, inp@.len() as int);
    if pi == p.len() {
        if whole && ii < inp.len() {
            return None;
        } else {
            let e: Vec<Binding> = Vec::new();
            assert(bindings_view(e@) =~= Seq::empty());
            return Some((e, 0));
        }
    }
    proof {
        lemma_pats_size_rest(patterns_view(p@), pi as int);
    }
    assert(pv[0] == p@[pi as int]@);
    match &p[pi] {
        PatternItem::Atom(PatternAtom::StackEnd) => {
            if pi + 1 == p.len() && ii == inp.len() {
                let e: Vec<Binding> = Vec::new();
                assert(bindings_view(e@) =~= Seq::empty());
                Some((e, 0))
            } else {
                None
            }
        },
        PatternItem::Atom(PatternAtom::ListVariable(n)) => match_list_at(p, pi + 1, inp, ii, 0, whole, Some(n)),
        PatternItem::Atom(PatternAtom::Remainder) => match_list_at(p, pi + 1, inp, ii, 0, whole, None),
        _ => {
            if ii == inp.len() {
                return None;
            }
            assert(iv[0] == inp@[ii as int]@);
            assert(iv.subrange(1, iv.len() as int) =~= items_view(inp@).subrange(ii + 1, inp@.len() as int));
            let head: Option<Vec<Binding>> = match &p[pi] {
                PatternItem::Atom(PatternAtom::Variable(n)) => {
                    let b = Binding { name: n.clone(), bound: Bound::One(clone_item(&inp[ii])) };
                    let mut v: Vec<Binding> = Vec::new();
                    v.push(b);
                    assert(bindings_view(v@) =~= seq![VBinding { name: n@, bound: VBound::One(iv[0]) }]);
                    Some(v)
                },
                PatternItem::Atom(PatternAtom::Value(val)) => {
                    let ok = match &inp[ii] {
                        Item::Atom(Atom::Value(x)) => value_eq(x, val),
                        _ => false,
                    };
                    if ok {
                        let e: Vec<Binding> = Vec::new();
                        assert(bindings_view(e@) =~= Seq::empty());
                        Some(e)
                    } else {
                        None
                    }
                },
                PatternItem::Atom(PatternAtom::Operator(name)) => {
                    let ok = match &inp[ii] {
                        Item::Atom(Atom::Word(w)) => str_eq(w.as_str(), name.as_str()),
                        _ => false,
                    };
                    if ok {
                        let e: Vec<Binding> = Vec::new();
                        assert(bindings_view(e@) =~= Seq::empty());
                        Some(e)
                    } else {
                        None
                    }
                },
                PatternItem::Stack(sub) => {
                    match &inp[ii] {
                        Item::Stack(xs) => {
                            proof {
                                lemma_pattern_stack_view(*sub);
                                lemma_group_view(*xs);
                                assert(patterns_view(sub@).subrange(0, sub@.len() as int) =~= patterns_view(sub@));
                                assert(items_view(xs@).subrange(0, xs@.len() as int) =~= items_view(xs@));
                            }
                            match match_at(sub.as_slice(), 0, xs.as_slice(), 0, true) {
                                Some((b, _)) => Some(b),
                                None => None,
                            }
                        },
                        _ => None,
                    }
                },
                _ => None,
            };
            match head {
                None => None,
                Some(b1) => match match_at(p, pi + 1, inp, ii + 1, whole) {
                    None => None,
                    Some((b2, c)) => Some((concat_bindings(b1, b2), c + 1)),
                },
            }
        },
    }
}

fn match_list_at(
    p: &[PatternItem],
    pi: usize,
    inp: &[Item],
    ii: usize,
    k: usize,
    whole: bool,
    name: Option<&String>,
) -> (r: Option<(Vec<Binding>, usize)>)
    requires
        pi <= p@.len(),
        ii <= inp@.len(),
        k <= inp@.len() - ii,
    ensures
        match_result_matches(
            r,
            match_list(
                patterns_view(p@).subrange(pi as int, p@.len() as int),
                items_view(inp@).subrange(ii as int, inp@.len() as int),
                k as int,
                whole,
                name_view(name),
            ),
        ),
        r is Some ==> r->Some_0.1 <= inp@.len() - ii,
    decreases pats_size(patterns_view(p@).subrange(pi as int, p@.len() as int)) + 1, inp@.len() - ii - k + 1,
{
    let ghost pv = patterns_view(p@).subrange(pi as int, p@.len() as int);
    let ghost iv = items_view(inp@).subrange(ii as int, inp@.len() as int);
    assert(iv.subrange(k as int, iv.len() as int) =~= items_view(inp@).subrange(ii + k, inp@.len() as int));
    let n = inp.len();
    assert(ii + k <= n);
    match match_at(p, pi, inp, ii + k, whole) {
        Some((b, c)) => {
            let captured = clone_range(inp, ii, ii + k);
            assert(items_view(captured@) =~= iv.subrange(0, k as int));
            let mut lb: Vec<Binding> = Vec::new();
            match name {
                Some(n) => {
                    lb.push(Binding { name: n.clone(), bound: Bound::Many(captured) });
                },
                None => {},
            }
            assert(bindings_view(lb@) =~= list_binding(name_view(name), iv.subrange(0, k as int)));
            Some((concat_bindings(lb, b), k + c))
        },
        None => {
            if k == inp.len() - ii {
                assert(match_list(pv, iv, k + 1, whole, name_view(name)) is None);
                None
            } else {
                match_list_at(p, pi, inp, ii, k + 1, whole, name)
            }
        },
    }
}

/// What the first binding of `n` in `bs` holds.
pub open spec fn lookup_binding(bs: Seq<VBinding>, n: Seq<char>) -> Option<VBound>
    decreases bs.len(),
{
    if bs.len() == 0 {
        None
    } else if bs[0].name == n {
        Some(bs[0].bound)
    } else {
        lookup_binding(bs.subrange(1, bs.len() as int), n)
    }
}

/// The items that the state `s` stands for under the bindings `bs`: a variable
/// gives what it was bound to (a captured run is spliced in), the markers
/// `_` and `...` give nothing, and a variable that nothing bound is an error.
pub open spec fn inst_spec(s: Seq<VStateItem>, bs: Seq<VBinding>) -> Result<Seq<VItem>, Seq<char>>
    decreases s,
{
    if s.len() == 0 {
        Ok(Seq::empty())
    } else {
        match inst_spec(s.subrange(0, s.len() - 1), bs) {
            Err(m) => Err(m),
            Ok(pre) => match s[s.len() - 1] {
                VStateItem::Atom(VStateAtom::Variable(n)) => match lookup_binding(bs, n) {
                    None => Err("Unbound variable"@),
                    Some(VBound::One(x)) => Ok(pre.push(x)),
                    Some(VBound::Many(xs)) => Ok(pre + xs),
                },
                VStateItem::Atom(VStateAtom::StackEnd) => Ok(pre),
                VStateItem::Atom(VStateAtom::Remainder) => Ok(pre),
                VStateItem::Atom(VStateAtom::Value(v)) => Ok(pre.push(VItem::Atom(VAtom::Value(v)))),
                VStateItem::Atom(VStateAtom::Operator(n)) => Ok(pre.push(VItem::Atom(VAtom::Word(n)))),
                VStateItem::Stack(sub) => match inst_spec(sub, bs) {
                    Err(m) => Err(m),
                    Ok(xs) => Ok(pre.push(VItem::Stack(xs))),
                },
                VStateItem::Block(sub) => match inst_spec(sub, bs) {
                    Err(m) => Err(m),
                    Ok(xs) => Ok(pre.push(VItem::Block(xs))),
                },
            },
        }
    }
}

proof fn lemma_inst_prefix_err(s: Seq<VStateItem>, k: int, bs: Seq<VBinding>)
    requires
        0 <= k <= s.len(),
        inst_spec(s.subrange(0, k), bs) is Err,
    ensures
        inst_spec(s, bs) == inst_spec(s.subrange(0, k), bs),
    decreases s.len() - k,
{
    if k == s.len() {
        assert(s.subrange(0, k) =~= s);
    } else {
        assert(s.subrange(0, k + 1).subrange(0, k) =~= s.subrange(0, k));
        lemma_inst_prefix_err(s, k + 1, bs);
    }
}

fn find_binding(bs: &[Binding], n: &String) -> (r: Option<usize>)
    ensures
        match lookup_binding(bindings_view(bs@), n@) {
            None => r is None,
            Some(b) => r is Some && r->Some_0 < bs@.len() && bs@[r->Some_0 as int]@.bound == b,
        },
{
    let ghost bv = bindings_view(bs@);
    let mut i: usize = 0;
    assert(bv.subrange(0, bv.len() as int) =~= bv);
    while i < bs.len()
        invariant
            i <= bs@.len(),
            bv == bindings_view(bs@),
            bv.len() == bs@.len(),
            lookup_binding(bv, n@) == lookup_binding(bv.subrange(i as int, bv.len() as int), n@),
        decreases bs@.len() - i,
    {
        let ghost sub = bv.subrange(i as int, bv.len() as int);
        assert(sub.subrange(1, sub.len() as int) =~= bv.subrange(i + 1, bv.len() as int));
        assert(sub[0] == bs@[i as int]@);
        if str_eq(bs[i].name.as_str(), n.as_str()) {
            return Some(i);
        }
        i = i + 1;
    }
    None
}

/// The items that `state` stands for under the bindings `bs`. Fails where the
/// state names a variable that no binding holds.
pub fn instantiate(state: &[StateItem], bs: &[Binding]) -> (r: Result<Vec<Item>, RuntimeError>)
    ensures
        match inst_spec(states_view(state@), bindings_view(bs@)) {
            Ok(xs) => r is Ok && items_view(r->Ok_0@) == xs,
            Err(m) => r is Err && r->Err_0.0@ == m,
        },
    decreases state@,
{
    let ghost sv = states_view(state@);
    let ghost bv = bindings_view(bs@);
    let mut out: Vec<Item> = Vec::new();
    let mut i: usize = 0;
    assert(items_view(out@) =~= Seq::empty());
    assert(sv.subrange(0, 0) =~= Seq::empty());
    while i < state.len()
        invariant
            sv == states_view(state@),
            bv == bindings_view(bs@),
            i <= state@.len(),
            inst_spec(sv.subrange(0, i as int), bv) == Ok::<Seq<VItem>, Seq<char>>(items_view(out@)),
        decreases state@.len() - i,
    {
        let ghost pre = items_view(out@);
        let ghost sub = sv.subrange(0, i + 1);
        assert(sub.subrange(0, i as int) =~= sv.subrange(0, i as int));
        assert(sub[i as int] == state@[i as int]@);
        match &state[i] {
            StateItem::Atom(StateAtom::Variable(n)) => {
                match find_binding(bs, n) {
                    None => {
                        proof { lemma_inst_prefix_err(sv, i + 1, bv); }
                        return Err(RuntimeError::new("Unbound variable"));
                    },
                    Some(k) => {
                        match &bs[k].bound {
                            Bound::One(x) => {
                                out.push(clone_item(x));
                                assert(items_view(out@) =~= pre.push(out@[out@.len() - 1]@));
                            },
                            Bound::Many(xs) => {
                                let mut c = clone_range(xs.as_slice(), 0, xs.len());
                                assert(items_view(xs@).subrange(0, xs@.len() as int) =~= items_view(xs@));
                                let ghost cv = items_view(c@);
                                out.append(&mut c);
                                assert(items_view(out@) =~= pre + cv);
                            },
                        }
                    },
                }
            },
            StateItem::Atom(StateAtom::StackEnd) => {},
            StateItem::Atom(StateAtom::Remainder) => {},
            StateItem::Atom(StateAtom::Value(v)) => {
                out.push(Item::Atom(Atom::Value(clone_value(v))));
                assert(items_view(out@) =~= pre.push(out@[out@.len() - 1]@));
            },
            StateItem::Atom(StateAtom::Operator(n)) => {
                out.push(Item::Atom(Atom::Word(n.clone())));
                assert(items_view(out@) =~= pre.push(out@[out@.len() - 1]@));
            },
            StateItem::Stack(inner) => {
                proof { lemma_state_group_view(*inner); }
                assert(decreases_to!(state@ => inner@)) by {
                    assert(decreases_to!(state@ => state@[i as int]));
                };
                let xs = match instantiate(inner.as_slice(), bs) {
                    Ok(xs) => xs,
                    Err(e) => {
                        proof { lemma_inst_prefix_err(sv, i + 1, bv); }
                        return Err(e);
                    },
                };
                proof { lemma_group_view(xs); }
                out.push(Item::Stack(xs));
                assert(items_view(out@) =~= pre.push(out@[out@.len() - 1]@));
            },
            StateItem::Block(inner) => {
                proof { lemma_state_group_view(*inner); }
                assert(decreases_to!(state@ => inner@)) by {
                    assert(decreases_to!(state@ => state@[i as int]));
                };
                let xs = match instantiate(inner.as_slice(), bs) {
                    Ok(xs) => xs,
                    Err(e) => {
                        proof { lemma_inst_prefix_err(sv, i + 1, bv); }
                        return Err(e);
                    },
                };
                proof { lemma_group_view(xs); }
                out.push(Item::Block(xs));
                assert(items_view(out@) =~= pre.push(out@[out@.len() - 1]@));
            },
        }
        i = i + 1;
    }
    assert(sv.subrange(0, i as int) =~= sv);
    Ok(out)
}

/// Rule dispatch from entry `k` on: the first entry whose pattern matches the
/// front of `rest` rewrites the items it consumed into its instantiated state.
pub open spec fn dispatch_from(entries: Seq<VEntry>, k: int, rest: Seq<VItem>) -> Result<Seq<VItem>, Seq<char>>
    decreases entries.len() - k,
{
    if k < 0 || k >= entries.len() {
        Err("Unmatched operator invocation"@)
    } else {
        match match_from(entries[k].pattern, rest, false) {
            None => dispatch_from(entries, k + 1, rest),
            Some((bs, c)) => match inst_spec(entries[k].state, bs) {
                Err(m) => Err(m),
                Ok(xs) => Ok(xs + rest.subrange(c, rest.len() as int)),
            },
        }
    }
}

impl Operator {
    /// Rewrites the items that follow an invocation of this operator: the
    /// first rule whose pattern matches their front replaces what it matched
    /// with its state. Fails where no rule matches.
    pub fn fill_pattern(&self, stack: Vec<Item>) -> (r: Result<Vec<Item>, RuntimeError>)
        ensures
            match dispatch_from(self@, 0, items_view(stack@)) {
                Ok(xs) => r is Ok && items_view(r->Ok_0@) == xs,
                Err(m) => r is Err && r->Err_0.0@ == m,
            },
    {
        let ghost sv = items_view(stack@);
        let mut rest = stack;
        let mut k: usize = 0;
        while k < self.0.len()
            invariant
                sv == items_view(rest@),
                sv == items_view(stack@),
                k <= self@.len(),
                self@.len() == self.0@.len(),
                dispatch_from(self@, 0, sv) == dispatch_from(self@, k as int, sv),
            decreases self.0@.len() - k,
        {
            let entry = &self.0[k];
            assert(self@[k as int] == entry@);
            assert(patterns_view(entry.pattern@).subrange(0, entry.pattern@.len() as int) =~= patterns_view(entry.pattern@));
            assert(items_view(rest@).subrange(0, rest@.len() as int) =~= sv);
            match match_at(entry.pattern.as_slice(), 0, rest.as_slice(), 0, false) {
                None => {},
                Some((bs, c)) => {
                    let mut xs = match instantiate(entry.state.as_slice(), bs.as_slice()) {
                        Ok(xs) => xs,
                        Err(e) => return Err(e),
                    };
                    let ghost xv = items_view(xs@);
                    let mut tail = rest.split_off(c);
                    assert(items_view(tail@) =~= sv.subrange(c as int, sv.len() as int));
                    let ghost tv = items_view(tail@);
                    xs.append(&mut tail);
                    assert(items_view(xs@) =~= xv + tv);
                    return Ok(xs);
                },
            }
            k = k + 1;
        }
        Err(RuntimeError::new("Unmatched operator invocation"))
    }
}

/// The most reduction steps that [`execute_block`] takes before it gives up.
pub const STEP_LIMIT: usize = 1000000;

/// The reduction of `pending` onto the output `out`, in at most `fuel` steps.
pub open spec fn reduce(pending: Seq<VItem>, out: Seq<VItem>, t: OperatorTable, fuel: nat) -> Result<
    Seq<VItem>,
    Seq<char>,
>
    decreases fuel,
{
    if pending.len() == 0 {
        Ok(out)
    } else if fuel == 0 {
        Err("Step limit reached"@)
    } else {
        let rest = pending.subrange(1, pending.len() as int);
        match pending[0] {
            VItem::Atom(VAtom::Value(v)) => reduce(rest, out.push(pending[0]), t, (fuel - 1) as nat),
            VItem::Stack(_) => reduce(rest, out.push(pending[0]), t, (fuel - 1) as nat),
            VItem::Block(b) => reduce(b + rest, out, t, (fuel - 1) as nat),
            VItem::Atom(VAtom::Word(w)) => match t.lookup(w) {
                None => Err("Unrecognized operator "@ + w),
                Some(entries) => match dispatch_from(entries, 0, rest) {
                    Err(m) => Err(m),
                    Ok(next) => reduce(next, out, t, (fuel - 1) as nat),
                },
            },
        }
    }
}

/// Reduces a program: literals and stacks go to the output, blocks are
/// spliced into the items still to reduce, and a word invokes the operator of
/// that name on the items that follow it. Fails on a word that names no
/// operator, on an invocation that no rule matches, and after
/// [`STEP_LIMIT`] steps.
pub fn execute_block(block: Vec<Item>, operators: &OperatorTable) -> (r: Result<Vec<Item>, RuntimeError>)
    requires
        operators.wf(),
    ensures
        match reduce(items_view(block@), Seq::empty(), *operators, STEP_LIMIT as nat) {
            Ok(xs) => r is Ok && items_view(r->Ok_0@) == xs,
            Err(m) => r is Err && r->Err_0.0@ == m,
        },
{
    let ghost goal = reduce(items_view(block@), Seq::empty(), *operators, STEP_LIMIT as nat);
    let ghost t = *operators;
    let mut pending = block;
    let mut out: Vec<Item> = Vec::new();
    let mut fuel: usize = STEP_LIMIT;
    assert(items_view(out@) =~= Seq::empty());
    while pending.len() > 0
        invariant
            operators.wf(),
            t == *operators,
            goal == reduce(items_view(block@), Seq::empty(), t, STEP_LIMIT as nat),
            goal == reduce(items_view(pending@), items_view(out@), t, fuel as nat),
        decreases fuel,
    {
        if fuel == 0 {
            return Err(RuntimeError::new("Step limit reached"));
        }
        let ghost pv = items_view(pending@);
        let ghost ov = items_view(out@);
        let x = pending.remove(0);
        assert(items_view(pending@) =~= pv.subrange(1, pv.len() as int));
        assert(x@ == pv[0]);
        match x {
            Item::Atom(Atom::Value(v)) => {
                out.push(Item::Atom(Atom::Value(v)));
                assert(items_view(out@) =~= ov.push(pv[0]));
            },
            Item::Stack(s) => {
                out.push(Item::Stack(s));
                assert(items_view(out@) =~= ov.push(pv[0]));
            },
            Item::Block(b) => {
                proof { lemma_group_view(b); }
                let mut b = b;
                let ghost bv = items_view(b@);
                let ghost rv = items_view(pending@);
                b.append(&mut pending);
                assert(items_view(b@) =~= bv + rv);
                pending = b;
            },
            Item::Atom(Atom::Word(w)) => {
                match operators.get(w.as_str()) {
                    None => {
                        let mut m = "Unrecognized operator ".to_owned();
                        m.append(w.as_str());
                        return Err(RuntimeError(m));
                    },
                    Some(op) => {
                        pending = match op.fill_pattern(pending) {
                            Ok(next) => next,
                            Err(e) => return Err(e),
                        };
                    },
                }
            },
        }
        fuel = fuel - 1;
    }
    Ok(out)
}

/// Dispatch is decided by the first rule whose pattern matches: with the
/// rules before `k` failing to match and rule `k` matching, the result is rule
/// `k`'s state, instantiated with its bindings, in front of what the match
/// left. The result depends on the rules and the items alone.
pub proof fn lemma_first_match_wins(entries: Seq<VEntry>, rest: Seq<VItem>, k: int)
    requires
        0 <= k < entries.len(),
        match_from(entries[k].pattern, rest, false) is Some,
        forall|j: int| 0 <= j < k ==> match_from(#[trigger] entries[j].pattern, rest, false) is None,
    ensures
        ({
            let (bs, c) = match_from(entries[k].pattern, rest, false)->Some_0;
            dispatch_from(entries, 0, rest) == match inst_spec(entries[k].state, bs) {
                Err(m) => Err(m),
                Ok(xs) => Ok(xs + rest.subrange(c, rest.len() as int)),
            }
        }),
{
    lemma_dispatch_skips(entries, rest, 0, k);
}

proof fn lemma_dispatch_skips(entries: Seq<VEntry>, rest: Seq<VItem>, j: int, k: int)
    requires
        0 <= j <= k < entries.len(),
        forall|i: int| 0 <= i < k ==> match_from(#[trigger] entries[i].pattern, rest, false) is None,
    ensures
        dispatch_from(entries, j, rest) == dispatch_from(entries, k, rest),
    decreases k - j,
{
    if j < k {
        assert(match_from(entries[j].pattern, rest, false) is None);
        lemma_dispatch_skips(entries, rest, j + 1, k);
    }
}

/// The state names the variable `n`, at any depth.
pub open spec fn mentions(s: Seq<VStateItem>, n: Seq<char>) -> bool
    decreases s,
{
    exists|k: int|
        0 <= k < s.len() && match #[trigger] s[k] {
            VStateItem::Atom(a) => a == VStateAtom::Variable(n),
            VStateItem::Stack(sub) => mentions(sub, n),
            VStateItem::Block(sub) => mentions(sub, n),
        }
}

/// A state that names a variable that the bindings do not hold, at any depth,
/// fails to instantiate, rather than putting anything in its place.
pub proof fn lemma_unbound_variable_fails(s: Seq<VStateItem>, bs: Seq<VBinding>, n: Seq<char>)
    requires
        mentions(s, n),
        lookup_binding(bs, n) is None,
    ensures
        inst_spec(s, bs) is Err,
    decreases s,
{
    let k = choose|k: int|
        0 <= k < s.len() && match #[trigger] s[k] {
            VStateItem::Atom(a) => a == VStateAtom::Variable(n),
            VStateItem::Stack(sub) => mentions(sub, n),
            VStateItem::Block(sub) => mentions(sub, n),
        };
    let pre = s.subrange(0, k + 1);
    assert(pre.subrange(0, k) =~= s.subrange(0, k));
    assert(pre[k] == s[k]);
    match s[k] {
        VStateItem::Stack(sub) => {
            lemma_unbound_variable_fails(sub, bs, n);
        },
        VStateItem::Block(sub) => {
            lemma_unbound_variable_fails(sub, bs, n);
        },
        _ => {},
    }
    assert(inst_spec(pre, bs) is Err);
    lemma_inst_prefix_err(s, k + 1, bs);
}

} // verus!
