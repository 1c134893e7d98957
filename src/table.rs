//! The table of named operators, built from definition source text.
use vstd::prelude::*;
use vstd::string::StrSliceExecFns;
use crate::error::ParseError;
use crate::item::str_eq;
use crate::operator::{entry_spec, Operator, VEntry};
use crate::token::{is_space, is_space_char, strings_view};

verus! {

/// Operators by name. Each name stands once.
#[derive(Debug)]
pub struct OperatorTable {
    names: Vec<String>,
    operators: Vec<Operator>,
}

impl OperatorTable {
    pub closed spec fn wf(&self) -> bool {
        &&& self.names@.len() == self.operators@.len()
        &&& forall|a: int, b: int|
            0 <= a < b < self.names@.len() ==> self.names@[a]@ != self.names@[b]@
    }

    /// The rules of the operator named `n`, if there is one.
    pub closed spec fn lookup(&self, n: Seq<char>) -> Option<Seq<VEntry>> {
        if exists|k: int| 0 <= k < self.names@.len() && self.names@[k]@ == n {
            let k = choose|k: int| 0 <= k < self.names@.len() && self.names@[k]@ == n;
            Some(self.operators@[k]@)
        } else {
            None
        }
    }

    /// A table with no operators.
    pub fn new() -> (r: Self)
        ensures
            r.wf(),
            forall|n: Seq<char>| r.lookup(n) is None,
    {
        OperatorTable { names: Vec::new(), operators: Vec::new() }
    }

    fn find(&self, name: &str) -> (r: Option<usize>)
        requires
            self.wf(),
        ensures
            match r {
                Some(k) => k < self.names@.len() && self.names@[k as int]@ == name@,
                None => forall|k: int| 0 <= k < self.names@.len() ==> self.names@[k]@ != name@,
            },
    {
        let mut i: usize = 0;
        while i < self.names.len()
            invariant
                i <= self.names@.len(),
                forall|k: int| 0 <= k < i ==> self.names@[k]@ != name@,
            decreases self.names@.len() - i,
        {
            if str_eq(self.names[i].as_str(), name) {
                return Some(i);
            }
            i = i + 1;
        }
        None
    }

    /// The operator named `name`, if there is one.
    pub fn get(&self, name: &str) -> (r: Option<&Operator>)
        requires
            self.wf(),
        ensures
            match r {
                Some(op) => self.lookup(name@) == Some(op@),
                None => self.lookup(name@) is None,
            },
    {
        match self.find(name) {
            Some(k) => {
                assert(forall|j: int| 0 <= j < self.names@.len() && self.names@[j]@ == name@ ==> j == k);
                Some(&self.operators[k])
            },
            None => None,
        }
    }

    /// Adds the operator `op` under `name`, replacing one of the same name.
    pub fn insert(&mut self, name: String, op: Operator)
        requires
            old(self).wf(),
        ensures
            final(self).wf(),
            final(self).lookup(name@) == Some(op@),
            forall|n: Seq<char>| n != name@ ==> final(self).lookup(n) == old(self).lookup(n),
    {
        let ghost op_view = op@;
        match self.find(name.as_str()) {
            Some(k) => {
                self.operators.set(k, op);
                assert forall|n: Seq<char>| n != name@ implies self.lookup(n) == old(self).lookup(n) by {
                    if exists|j: int| 0 <= j < self.names@.len() && self.names@[j]@ == n {
                        let j = choose|j: int| 0 <= j < self.names@.len() && self.names@[j]@ == n;
                        assert(j != k);
                    }
                }
                assert(forall|j: int| 0 <= j < self.names@.len() && self.names@[j]@ == name@ ==> j == k);
            },
            None => {
                let ghost nm = name@;
                self.names.push(name);
                self.operators.push(op);
                let ghost last = self.names@.len() - 1;
                assert(self.names@[last]@ == nm);
                assert forall|n: Seq<char>| n != nm implies self.lookup(n) == old(self).lookup(n) by {
                    if exists|j: int| 0 <= j < self.names@.len() && self.names@[j]@ == n {
                        let j = choose|j: int| 0 <= j < self.names@.len() && self.names@[j]@ == n;
                        assert(j < last);
                        assert(old(self).names@[j] == self.names@[j]);
                    }
                    if exists|j: int| 0 <= j < old(self).names@.len() && old(self).names@[j]@ == n {
                        let j = choose|j: int| 0 <= j < old(self).names@.len() && old(self).names@[j]@ == n;
                        assert(self.names@[j]@ == n);
                    }
                }
                assert(forall|j: int| 0 <= j < self.names@.len() && self.names@[j]@ == nm ==> j == last);
            },
        }
    }
}

/// A line without the `\r` of a `\r\n` ending.
pub open spec fn strip_cr(l: Seq<char>) -> Seq<char> {
    if l.len() > 0 && l.last() == '\r' {
        l.drop_last()
    } else {
        l
    }
}

/// The lines of `s[i..]`, where the current line began at `start`.
pub open spec fn lines_from(s: Seq<char>, start: int, i: int) -> Seq<Seq<char>>
    decreases s.len() - i,
{
    if i >= s.len() {
        if start < s.len() {
            seq![strip_cr(s.subrange(start, s.len() as int))]
        } else {
            Seq::empty()
        }
    } else if s[i] == '\n' {
        seq![strip_cr(s.subrange(start, i))] + lines_from(s, i + 1, i + 1)
    } else {
        lines_from(s, start, i + 1)
    }
}

/// The lines of `s`, split at `\n`, with no empty line after a final `\n`.
pub open spec fn lines_spec(s: Seq<char>) -> Seq<Seq<char>> {
    lines_from(s, 0, 0)
}

fn line_of(s: &str, start: usize, end: usize) -> (r: String)
    requires
        start <= end <= s@.len(),
    ensures
        r@ == strip_cr(s@.subrange(start as int, end as int)),
{
    if start < end && s.get_char(end - 1) == '\r' {
        let r = s.substring_char(start, end - 1).to_owned();
        assert(r@ =~= strip_cr(s@.subrange(start as int, end as int)));
        r
    } else {
        s.substring_char(start, end).to_owned()
    }
}

/// Splits `s` into its lines.
pub fn split_lines(s: &str) -> (r: Vec<String>)
    ensures
        strings_view(r@) == lines_spec(s@),
{
    let n = s.unicode_len();
    let mut out: Vec<String> = Vec::new();
    let mut start: usize = 0;
    let mut i: usize = 0;
    while i < n
        invariant
            n == s@.len(),
            start <= i <= n,
            strings_view(out@) + lines_from(s@, start as int, i as int) == lines_spec(s@),
        decreases n - i,
    {
        if s.get_char(i) == '\n' {
            let ghost before = strings_view(out@);
            let l = line_of(s, start, i);
            out.push(l);
            assert(strings_view(out@) + lines_from(s@, i + 1, i + 1) =~= before + (seq![
                strip_cr(s@.subrange(start as int, i as int)),
            ] + lines_from(s@, i + 1, i + 1)));
            start = i + 1;
        }
        i = i + 1;
    }
    let ghost before = strings_view(out@);
    if start < n {
        let l = line_of(s, start, n);
        out.push(l);
        assert(strings_view(out@) =~= before + seq![strip_cr(s@.subrange(start as int, n as int))]);
    } else {
        assert(strings_view(out@) =~= before + Seq::<Seq<char>>::empty());
    }
    out
}

/// The line begins with `def`.
pub open spec fn starts_def(l: Seq<char>) -> bool {
    l.len() >= 3 && l[0] == 'd' && l[1] == 'e' && l[2] == 'f'
}

/// The name that a heading `def NAME:` declares; `None` where `l` is no heading.
pub open spec fn heading_name(l: Seq<char>) -> Option<Seq<char>> {
    if l.len() >= 6 && l[0] == 'd' && l[1] == 'e' && l[2] == 'f' && l[3] == ' ' && l.last() == ':'
        && forall|k: int| 4 <= k < l.len() - 1 ==> !is_space(#[trigger] l[k]) {
        Some(l.subrange(4, l.len() - 1))
    } else {
        None
    }
}

fn parse_heading(l: &str) -> (r: Option<String>)
    ensures
        match heading_name(l@) {
            Some(n) => r is Some && r->Some_0@ == n,
            None => r is None,
        },
{
    let n = l.unicode_len();
    if n < 6 || l.get_char(0) != 'd' || l.get_char(1) != 'e' || l.get_char(2) != 'f' || l.get_char(3)
        != ' ' || l.get_char(n - 1) != ':' {
        return None;
    }
    let mut k: usize = 4;
    while k < n - 1
        invariant
            n == l@.len(),
            n >= 6,
            4 <= k <= n - 1,
            forall|j: int| 4 <= j < k ==> !is_space(#[trigger] l@[j]),
        decreases n - k,
    {
        if is_space_char(l.get_char(k)) {
            return None;
        }
        k = k + 1;
    }
    Some(l.substring_char(4, n - 1).to_owned())
}

/// The line holds only white space.
pub open spec fn is_blank(l: Seq<char>) -> bool {
    forall|k: int| 0 <= k < l.len() ==> is_space(#[trigger] l[k])
}

fn blank(l: &str) -> (r: bool)
    ensures
        r == is_blank(l@),
{
    let n = l.unicode_len();
    let mut k: usize = 0;
    while k < n
        invariant
            n == l@.len(),
            k <= n,
            forall|j: int| 0 <= j < k ==> is_space(#[trigger] l@[j]),
        decreases n - k,
    {
        if !is_space_char(l.get_char(k)) {
            return false;
        }
        k = k + 1;
    }
    true
}

/// `lines[i]` is a heading of an operator named `n`, whose rules `entries`
/// compile from the lines after it, up to the first blank one at `e`.
pub open spec fn defines(
    lines: Seq<Seq<char>>,
    ops: Seq<Seq<char>>,
    i: int,
    e: int,
    n: Seq<char>,
    entries: Seq<VEntry>,
) -> bool {
    &&& 0 <= i < e <= lines.len()
    &&& heading_name(lines[i]) == Some(n)
    &&& e == lines.len() || is_blank(lines[e])
    &&& forall|k: int| i < k < e ==> !is_blank(#[trigger] lines[k])
    &&& entries.len() == e - i - 1
    &&& forall|k: int|
        0 <= k < entries.len() ==> Ok::<VEntry, Seq<char>>(#[trigger] entries[k]) == entry_spec(
            lines[i + 1 + k],
            ops,
        )
}

/// No heading after line `i` declares the name `n` again.
pub open spec fn no_later_heading(lines: Seq<Seq<char>>, i: int, n: Seq<char>) -> bool {
    forall|i2: int| i < i2 < lines.len() ==> heading_name(#[trigger] lines[i2]) != Some(n)
}

/// The names that the headings among `lines` declare, in order.
pub open spec fn heading_names(lines: Seq<Seq<char>>) -> Seq<Seq<char>>
    decreases lines.len(),
{
    if lines.len() == 0 {
        Seq::empty()
    } else {
        let rest = heading_names(lines.drop_last());
        match heading_name(lines.last()) {
            Some(n) => rest.push(n),
            None => rest,
        }
    }
}

/// Every line that begins with `def` is a heading, and every rule line under
/// a heading compiles.
pub open spec fn source_ok(lines: Seq<Seq<char>>) -> bool {
    &&& forall|i: int| 0 <= i < lines.len() && starts_def(#[trigger] lines[i]) ==> heading_name(lines[i]) is Some
    &&& forall|i: int, l: int|
        0 <= i < l < lines.len() && heading_name(#[trigger] lines[i]) is Some && (forall|k: int|
            i < k <= l ==> !is_blank(#[trigger] lines[k])) ==> entry_spec(
            #[trigger] lines[l],
            heading_names(lines),
        ) is Ok
}

/// Every rule line under the heading at line `i` compiles.
pub open spec fn body_ok(lines: Seq<Seq<char>>, ops: Seq<Seq<char>>, i: int) -> bool {
    forall|l: int|
        i < l < lines.len() && (forall|k: int| i < k <= l ==> !is_blank(#[trigger] lines[k])) ==> entry_spec(
            #[trigger] lines[l],
            ops,
        ) is Ok
}

proof fn lemma_body_ok(lines: Seq<Seq<char>>, ops: Seq<Seq<char>>, i: int, e: int, entries: Seq<VEntry>)
    requires
        0 <= i < e <= lines.len(),
        e == lines.len() || is_blank(lines[e]),
        entries.len() == e - i - 1,
        forall|j: int|
            0 <= j < entries.len() ==> Ok::<VEntry, Seq<char>>(#[trigger] entries[j]) == entry_spec(
                lines[i + 1 + j],
                ops,
            ),
    ensures
        body_ok(lines, ops, i),
{
    assert forall|l: int|
        i < l < lines.len() && (forall|k: int| i < k <= l ==> !is_blank(#[trigger] lines[k])) implies entry_spec(
            #[trigger] lines[l],
            ops,
        ) is Ok by {
        if l >= e {
            assert(!is_blank(lines[e]));
        }
        assert(Ok::<VEntry, Seq<char>>(entries[l - i - 1]) == entry_spec(lines[i + 1 + (l - i - 1)], ops));
    }
}

fn starts_with_def(l: &str) -> (r: bool)
    ensures
        r == starts_def(l@),
{
    l.unicode_len() >= 3 && l.get_char(0) == 'd' && l.get_char(1) == 'e' && l.get_char(2) == 'f'
}

/// The table holds the operators of the first `h` headings, each with the
/// rules under its last heading so far.
#[verifier::opaque]
spec fn table_inv(
    t: OperatorTable,
    ls: Seq<Seq<char>>,
    os: Seq<Seq<char>>,
    at: Seq<usize>,
    names: Seq<String>,
    h: int,
) -> bool {
    forall|n: Seq<char>|
        #![trigger t.lookup(n)]
        (t.lookup(n) is Some <==> exists|h2: int| 0 <= h2 < h && names[h2]@ == n) && (
        t.lookup(n) is Some ==> exists|h0: int, e: int|
            0 <= h0 < h && defines(ls, os, at[h0] as int, e, n, t.lookup(n)->Some_0) && forall|h2: int|
                h0 < h2 < h ==> (#[trigger] names[h2])@ != n)
}

proof fn lemma_table_step(
    old_t: OperatorTable,
    t: OperatorTable,
    ls: Seq<Seq<char>>,
    os: Seq<Seq<char>>,
    at: Seq<usize>,
    names: Seq<String>,
    h: int,
    e: int,
    ov: Seq<VEntry>,
)
    requires
        0 <= h < names.len(),
        at.len() == names.len(),
        table_inv(old_t, ls, os, at, names, h),
        t.lookup(names[h]@) == Some(ov),
        forall|n: Seq<char>| n != names[h]@ ==> t.lookup(n) == old_t.lookup(n),
        defines(ls, os, at[h] as int, e, names[h]@, ov),
    ensures
        table_inv(t, ls, os, at, names, h + 1),
{
    reveal(table_inv);
    let nm = names[h]@;
    assert forall|n: Seq<char>|
        #![trigger t.lookup(n)]
        (t.lookup(n) is Some <==> exists|h2: int| 0 <= h2 < h + 1 && names[h2]@ == n) && (
        t.lookup(n) is Some ==> exists|h0: int, e: int|
            0 <= h0 < h + 1 && defines(ls, os, at[h0] as int, e, n, t.lookup(n)->Some_0) && forall|h2: int|
                h0 < h2 < h + 1 ==> (#[trigger] names[h2])@ != n) by {
        if n != nm {
            assert(t.lookup(n) == old_t.lookup(n));
            if exists|h2: int| 0 <= h2 < h + 1 && names[h2]@ == n {
                let h2 = choose|h2: int| 0 <= h2 < h + 1 && names[h2]@ == n;
                assert(h2 < h);
            }
            if t.lookup(n) is Some {
                let (h0, e0) = choose|h0: int, e0: int|
                    0 <= h0 < h && defines(ls, os, at[h0] as int, e0, n, old_t.lookup(n)->Some_0) && forall|h2: int|
                        h0 < h2 < h ==> (#[trigger] names[h2])@ != n;
                assert(forall|h2: int| h0 < h2 < h + 1 ==> (#[trigger] names[h2])@ != n);
                assert(defines(ls, os, at[h0] as int, e0, n, t.lookup(n)->Some_0));
            }
        } else {
            assert(defines(ls, os, at[h] as int, e, n, t.lookup(n)->Some_0));
        }
    }
}

proof fn lemma_table_final(
    t: OperatorTable,
    ls: Seq<Seq<char>>,
    os: Seq<Seq<char>>,
    at: Seq<usize>,
    names: Seq<String>,
)
    requires
        at.len() == names.len(),
        os == strings_view(names),
        table_inv(t, ls, os, at, names, names.len() as int),
        forall|h2: int|
            0 <= h2 < at.len() ==> at[h2] < ls.len() && heading_name(ls[#[trigger] at[h2] as int]) == Some(
                names[h2]@,
            ),
        forall|a: int, b: int| 0 <= a < b < at.len() ==> at[a] < at[b],
        forall|k: int|
            0 <= k < ls.len() && heading_name(#[trigger] ls[k]) is Some ==> exists|h: int|
                0 <= h < at.len() && at[h] == k,
    ensures
        forall|n: Seq<char>|
            #![trigger t.lookup(n)]
            (t.lookup(n) is Some <==> os.contains(n)) && (t.lookup(n) is Some ==> exists|i: int, e: int|
                defines(ls, os, i, e, n, t.lookup(n)->Some_0) && no_later_heading(ls, i, n)),
{
    reveal(table_inv);
    let h = names.len() as int;
    assert forall|n: Seq<char>|
        #![trigger t.lookup(n)]
        (t.lookup(n) is Some <==> os.contains(n)) && (t.lookup(n) is Some ==> exists|i: int, e: int|
            defines(ls, os, i, e, n, t.lookup(n)->Some_0) && no_later_heading(ls, i, n)) by {
        if os.contains(n) {
            let j = choose|j: int| 0 <= j < os.len() && os[j] == n;
            assert(names[j]@ == n);
        }
        if exists|h2: int| 0 <= h2 < h && names[h2]@ == n {
            let h2 = choose|h2: int| 0 <= h2 < h && names[h2]@ == n;
            assert(os[h2] == n);
        }
        if t.lookup(n) is Some {
            let (h0, e0) = choose|h0: int, e0: int|
                0 <= h0 < h && defines(ls, os, at[h0] as int, e0, n, t.lookup(n)->Some_0) && forall|h2: int|
                    h0 < h2 < h ==> (#[trigger] names[h2])@ != n;
            let i0 = at[h0] as int;
            assert forall|i2: int| i0 < i2 < ls.len() implies heading_name(#[trigger] ls[i2]) != Some(n) by {
                if heading_name(ls[i2]) == Some(n) {
                    let h2 = choose|h2: int| 0 <= h2 < at.len() && at[h2] == i2;
                    if h2 < h0 {
                        assert(at[h2] < at[h0]);
                    }
                    assert(h0 < h2);
                    assert(heading_name(ls[at[h2] as int]) == Some(names[h2]@));
                }
            }
            assert(defines(ls, os, i0, e0, n, t.lookup(n)->Some_0) && no_later_heading(ls, i0, n));
        }
    }
}

/// Compiles the rules under the heading at line `start`: the lines after it,
/// up to the first blank line `e`.
fn compile_heading(lines: &Vec<String>, start: usize, names: &Vec<String>) -> (r: Result<(Operator, usize), ParseError>)
    requires
        start < lines@.len(),
    ensures
        r is Ok ==> ({
            let (op, e) = r->Ok_0;
            let ls = strings_view(lines@);
            &&& start < e <= ls.len()
            &&& e == ls.len() || is_blank(ls[e as int])
            &&& forall|k: int| start < k < e ==> !is_blank(#[trigger] ls[k])
            &&& op@.len() == e - start - 1
            &&& forall|j: int|
                0 <= j < op@.len() ==> Ok::<VEntry, Seq<char>>(#[trigger] op@[j]) == entry_spec(
                    ls[start + 1 + j],
                    strings_view(names@),
                )
        }),
        r is Err ==> exists|l: int|
            start < l < lines@.len() && (forall|k: int| start < k <= l ==> !is_blank(#[trigger] strings_view(lines@)[k]))
                && Err::<VEntry, Seq<char>>(r->Err_0.0@) == entry_spec(#[trigger] strings_view(lines@)[l], strings_view(names@)),
{
    let ghost ls = strings_view(lines@);
    let nl = lines.len();
    let mut e = start + 1;
    while e < lines.len() && !blank(lines[e].as_str())
        invariant
            start < e <= lines@.len(),
            ls == strings_view(lines@),
            forall|k: int| start < k < e ==> !is_blank(#[trigger] ls[k]),
        decreases lines@.len() - e,
    {
        e = e + 1;
    }
    let mut body: Vec<String> = Vec::new();
    let mut k = start + 1;
    while k < e
        invariant
            start < k <= e <= lines@.len(),
            body@.len() == k - start - 1,
            forall|j: int| 0 <= j < body@.len() ==> (#[trigger] body@[j])@ == ls[start + 1 + j],
            ls == strings_view(lines@),
        decreases e - k,
    {
        body.push(lines[k].clone());
        k = k + 1;
    }
    match Operator::parse(body.as_slice(), names.as_slice()) {
        Ok(op) => {
            assert forall|j: int| 0 <= j < op@.len() implies Ok::<VEntry, Seq<char>>(#[trigger] op@[j]) == entry_spec(
                ls[start + 1 + j],
                strings_view(names@),
            ) by {
                assert(body@[j]@ == ls[start + 1 + j]);
            }
            Ok((op, e))
        },
        Err(err) => {
            proof {
                let k = choose|k: int|
                    0 <= k < body@.len() && Err::<VEntry, Seq<char>>(err.0@) == entry_spec(#[trigger] body@[k]@, strings_view(names@))
                        && forall|j: int| 0 <= j < k ==> entry_spec(#[trigger] body@[j]@, strings_view(names@)) is Ok;
                let l = start + 1 + k;
                assert(body@[k]@ == ls[l]);
                assert(forall|j: int| start < j <= l ==> !is_blank(#[trigger] ls[j]));
            }
            Err(err)
        },
    }
}

/// Builds the operator table from definition text: each heading `def NAME:`
/// opens an operator whose rules are the lines after it, up to the first blank
/// line. Every line that begins with `def` must be such a heading. Rules may
/// name any operator of the text, before or after their own. Of two
/// definitions of one name, the later stands.
#[verifier::rlimit(60)]
pub fn parse_source(text: &str) -> (r: Result<OperatorTable, ParseError>)
    ensures
        (exists|i: int|
            0 <= i < lines_spec(text@).len() && starts_def(#[trigger] lines_spec(text@)[i])
                && heading_name(lines_spec(text@)[i]) is None) ==> r is Err && r->Err_0.0@
            == "Bad function definition"@,
        source_ok(lines_spec(text@)) <==> r is Ok,
        r is Err ==> r->Err_0.0@ == "Bad function definition"@ || exists|l: int|
            0 <= l < lines_spec(text@).len() && Err::<VEntry, Seq<char>>(r->Err_0.0@) == entry_spec(
                #[trigger] lines_spec(text@)[l],
                heading_names(lines_spec(text@)),
            ),
        r is Ok ==> r->Ok_0.wf(),
        r is Ok ==> forall|n: Seq<char>|
            #![trigger r->Ok_0.lookup(n)]
            (r->Ok_0.lookup(n) is Some <==> heading_names(lines_spec(text@)).contains(n)) && (
            r->Ok_0.lookup(n) is Some ==> exists|i: int, e: int|
                defines(
                    lines_spec(text@),
                    heading_names(lines_spec(text@)),
                    i,
                    e,
                    n,
                    r->Ok_0.lookup(n)->Some_0,
                ) && no_later_heading(lines_spec(text@), i, n)),
{
    let lines = split_lines(text);
    let ghost ls = strings_view(lines@);
    let mut names: Vec<String> = Vec::new();
    let mut at: Vec<usize> = Vec::new();
    let mut i: usize = 0;
    assert(ls.subrange(0, 0) =~= Seq::<Seq<char>>::empty());
    assert(strings_view(names@) =~= Seq::<Seq<char>>::empty());
    while i < lines.len()
        invariant
            ls == strings_view(lines@),
            ls == lines_spec(text@),
            i <= lines@.len(),
            strings_view(names@) == heading_names(ls.subrange(0, i as int)),
            at@.len() == names@.len(),
            forall|h: int|
                0 <= h < at@.len() ==> at@[h] < i && heading_name(ls[#[trigger] at@[h] as int]) == Some(
                    names@[h]@,
                ),
            forall|k: int| 0 <= k < i ==> starts_def(#[trigger] ls[k]) ==> heading_name(ls[k]) is Some,
            forall|a: int, b: int| 0 <= a < b < at@.len() ==> at@[a] < at@[b],
            forall|k: int|
                0 <= k < i && heading_name(#[trigger] ls[k]) is Some ==> exists|h: int|
                    0 <= h < at@.len() && at@[h] == k,
        decreases lines@.len() - i,
    {
        let l = lines[i].as_str();
        let ghost pre = strings_view(names@);
        let ghost old_at = at@;
        assert(ls.subrange(0, i + 1).drop_last() =~= ls.subrange(0, i as int));
        assert(l@ == ls[i as int]);
        if starts_with_def(l) {
            match parse_heading(l) {
                None => {
                    return Err(ParseError::new("Bad function definition"));
                },
                Some(n) => {
                    names.push(n);
                    at.push(i);
                    assert(strings_view(names@) =~= pre.push(names@[names@.len() - 1]@));
                    assert(at@[at@.len() - 1] == i);
                },
            }
        } else {
            assert(heading_name(l@) is None);
        }
        assert forall|k: int|
            0 <= k < i + 1 && heading_name(#[trigger] ls[k]) is Some implies exists|h: int|
                0 <= h < at@.len() && at@[h] == k by {
            if k < i {
                let h = choose|h: int| 0 <= h < old_at.len() && old_at[h] == k;
                assert(at@[h] == k);
            } else {
                assert(at@[at@.len() - 1] == i);
            }
        }
        i = i + 1;
    }
    assert(ls.subrange(0, i as int) =~= ls);
    let ghost os = strings_view(names@);
    let mut table = OperatorTable::new();
    proof {
        reveal(table_inv);
    }
    let mut h: usize = 0;
    while h < names.len()
        invariant
            ls == strings_view(lines@),
            ls == lines_spec(text@),
            os == strings_view(names@),
            os == heading_names(ls),
            at@.len() == names@.len(),
            forall|h2: int|
                0 <= h2 < at@.len() ==> at@[h2] < ls.len() && heading_name(ls[#[trigger] at@[h2] as int])
                    == Some(names@[h2]@),
            h <= names@.len(),
            table.wf(),
            forall|k: int| 0 <= k < ls.len() ==> starts_def(#[trigger] ls[k]) ==> heading_name(ls[k]) is Some,
            forall|a: int, b: int| 0 <= a < b < at@.len() ==> at@[a] < at@[b],
            forall|k: int|
                0 <= k < ls.len() && heading_name(#[trigger] ls[k]) is Some ==> exists|h: int|
                    0 <= h < at@.len() && at@[h] == k,
            forall|h2: int| 0 <= h2 < h ==> body_ok(ls, os, #[trigger] at@[h2] as int),
            table_inv(table, ls, os, at@, names@, h as int),
        decreases names@.len() - h,
    {
        let start = at[h];
        assert(at@[h as int] < ls.len());
        let (op, e) = match compile_heading(&lines, start, &names) {
            Ok(p) => p,
            Err(err) => {
                proof {
                    let l = choose|l: int|
                        start < l < ls.len() && (forall|k: int| start < k <= l ==> !is_blank(#[trigger] ls[k]))
                            && Err::<VEntry, Seq<char>>(err.0@) == entry_spec(#[trigger] ls[l], os);
                    assert(heading_name(ls[start as int]) is Some);
                    assert(!source_ok(ls));
                }
                return Err(err);
            },
        };
        let ghost ov = op@;
        let ghost nm = names@[h as int]@;
        assert(e == ls.len() || is_blank(ls[e as int]));
        assert(heading_name(ls[start as int]) == Some(nm));
        assert(defines(ls, os, start as int, e as int, nm, ov)) by {
            assert(ov.len() == e - start - 1);

        }
        proof {
            lemma_body_ok(ls, os, start as int, e as int, ov);
        }
        assert(at@[h as int] == start);
        let ghost old_table = table;
        table.insert(names[h].clone(), op);
        proof {
            lemma_table_step(old_table, table, ls, os, at@, names@, h as int, e as int, ov);
        }
        h = h + 1;
    }
    assert(source_ok(ls)) by {
        assert forall|i2: int, l: int|
            0 <= i2 < l < ls.len() && heading_name(#[trigger] ls[i2]) is Some && (forall|k: int|
                i2 < k <= l ==> !is_blank(#[trigger] ls[k])) implies entry_spec(#[trigger] ls[l], os) is Ok by {
            let h2 = choose|h2: int| 0 <= h2 < at@.len() && at@[h2] == i2;
            assert(body_ok(ls, os, at@[h2] as int));
        }
    }
    proof {
        lemma_table_final(table, ls, os, at@, names@);
    }
    Ok(table)
}

} // verus!
