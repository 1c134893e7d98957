use filo::execute::execute_block;
use filo::item::{classify, parse_command, parse_item, Atom, Item, Value};
use filo::table::{parse_source, split_lines, OperatorTable};
use filo::get_tokens;

fn run(defs: &str, program: &str) -> Result<Vec<Item>, String> {
    let table = parse_source(defs).map_err(|e| e.message())?;
    let items = parse_command(program).map_err(|e| e.message())?;
    execute_block(items, &table).map_err(|e| e.message())
}

fn is_int(i: &Item, n: i32) -> bool {
    matches!(i, Item::Atom(Atom::Value(Value::Int(m))) if *m == n)
}

fn is_word(i: &Item, w: &str) -> bool {
    matches!(i, Item::Atom(Atom::Word(x)) if x == w)
}

fn is_bool(i: &Item, b: bool) -> bool {
    matches!(i, Item::Atom(Atom::Value(Value::Bool(x))) if *x == b)
}

#[test]
fn tokens_split_brackets_and_words() {
    let t = get_tokens("a[b]{ c }  dd\te");
    assert_eq!(t, vec!["a", "[", "b", "]", "{", "c", "}", "dd", "e"]);
    assert!(get_tokens("   ").is_empty());
}

#[test]
fn classify_literals() {
    assert!(matches!(classify("42"), Ok(Atom::Value(Value::Int(42)))));
    assert!(matches!(classify("2147483647"), Ok(Atom::Value(Value::Int(2147483647)))));
    assert!(classify("2147483648").is_err());
    assert!(matches!(classify("3."), Ok(Atom::Value(Value::Float(ref t))) if t == "3."));
    assert!(matches!(classify("3.25"), Ok(Atom::Value(Value::Float(ref t))) if t == "3.25"));
    assert!(matches!(classify(".5"), Ok(Atom::Word(ref w)) if w == ".5"));
    assert!(matches!(classify("true"), Ok(Atom::Value(Value::Bool(true)))));
    assert!(matches!(classify("false"), Ok(Atom::Value(Value::Bool(false)))));
    assert!(matches!(classify("123abc"), Ok(Atom::Word(ref w)) if w == "123abc"));
    assert!(matches!(classify("True"), Ok(Atom::Word(ref w)) if w == "True"));
}

#[test]
fn program_parses_to_items() {
    let items = parse_command("foo bar false [100 false]").unwrap();
    assert_eq!(items.len(), 4);
    assert!(is_word(&items[0], "foo"));
    assert!(is_word(&items[1], "bar"));
    assert!(is_bool(&items[2], false));
    match &items[3] {
        Item::Stack(s) => {
            assert_eq!(s.len(), 2);
            assert!(is_int(&s[0], 100));
            assert!(is_bool(&s[1], false));
        }
        _ => panic!("expected a stack"),
    }
}

#[test]
fn parse_item_reports_remainder() {
    let t: Vec<String> = get_tokens("a ] b").into_iter().collect();
    let (item, rest) = parse_item(&t).unwrap();
    assert!(matches!(item, Item::Stack(ref s) if s.len() == 1));
    assert_eq!(rest, 2);
    let t: Vec<String> = get_tokens("a [ b ] { c }").into_iter().collect();
    let (item, rest) = parse_item(&t).unwrap();
    assert!(matches!(item, Item::Block(ref s) if s.len() == 3));
    assert_eq!(rest, t.len());
}

#[test]
fn mismatched_brackets_fail() {
    assert_eq!(parse_command("[ a }").unwrap_err().message(), "Inconsistent brackets");
    assert_eq!(parse_command("{ a ]").unwrap_err().message(), "Inconsistent brackets");
    assert_eq!(parse_command("[ a").unwrap_err().message(), "Inconsistent brackets");
    assert_eq!(parse_command("a ] b").unwrap_err().message(), "Expected block");
    assert_eq!(parse_command("a } b").unwrap_err().message(), "Expected block");
}

#[test]
fn identity_operator() {
    let out = run("def id:\nx => x\n", "id 5").unwrap();
    assert_eq!(out.len(), 1);
    assert!(is_int(&out[0], 5));
}

#[test]
fn swap_operator() {
    let out = run("def swap:\na b => b a\n", "swap 1 2").unwrap();
    assert_eq!(out.len(), 2);
    assert!(is_int(&out[0], 2));
    assert!(is_int(&out[1], 1));
}

#[test]
fn undefined_word_fails() {
    let table = OperatorTable::new();
    let items = parse_command("nope 1 2").unwrap();
    let err = execute_block(items, &table).unwrap_err();
    assert_eq!(err.message(), "Unrecognized operator nope");
}

#[test]
fn unmatched_invocation_fails() {
    let err = run("def t:\ntrue => 1\n", "t false").unwrap_err();
    assert_eq!(err, "Unmatched operator invocation");
    let out = run("def t:\ntrue => 1\n", "t true").unwrap();
    assert!(is_int(&out[0], 1));
}

#[test]
fn list_variable_captures_fewest() {
    let out = run("def f:\n...xs 0 => [ xs ]\n", "f 1 2 0 3 0").unwrap();
    assert_eq!(out.len(), 3);
    match &out[0] {
        Item::Stack(s) => {
            assert_eq!(s.len(), 2);
            assert!(is_int(&s[0], 1));
            assert!(is_int(&s[1], 2));
        }
        _ => panic!("expected a stack"),
    }
    assert!(is_int(&out[1], 3));
    assert!(is_int(&out[2], 0));
}

#[test]
fn list_variable_spliced_into_state() {
    let out = run("def rev2:\n...xs _ => 9 xs\n", "rev2 1 2").unwrap();
    assert_eq!(out.len(), 3);
    assert!(is_int(&out[0], 9));
    assert!(is_int(&out[1], 1));
    assert!(is_int(&out[2], 2));
}

#[test]
fn stack_end_requires_exact_window() {
    let out = run("def last:\nx _ => x\n", "last 5").unwrap();
    assert!(is_int(&out[0], 5));
    let err = run("def last:\nx _ => x\n", "last 5 6").unwrap_err();
    assert_eq!(err, "Unmatched operator invocation");
}

#[test]
fn nested_stack_pattern() {
    let out = run("def fst:\n[ a b ] => a\n", "fst [ 1 2 ] 7").unwrap();
    assert_eq!(out.len(), 2);
    assert!(is_int(&out[0], 1));
    assert!(is_int(&out[1], 7));
    let err = run("def fst:\n[ a b ] => a\n", "fst [ 1 2 3 ]").unwrap_err();
    assert_eq!(err, "Unmatched operator invocation");
}

#[test]
fn rules_tried_in_order() {
    let defs = "def pick:\n0 => 10\nx => 20\n";
    assert!(is_int(&run(defs, "pick 0").unwrap()[0], 10));
    assert!(is_int(&run(defs, "pick 4").unwrap()[0], 20));
}

#[test]
fn operator_reference_in_pattern_and_state() {
    let defs = "def dup:\nx => x x\n\ndef twice:\nx => dup x\n";
    let out = run(defs, "twice 3").unwrap();
    assert_eq!(out.len(), 2);
    assert!(is_int(&out[0], 3));
    assert!(is_int(&out[1], 3));
    let defs = "def mark:\nx => x\n\ndef is_mark:\nmark => true\nx => false\n";
    let out = run(defs, "is_mark mark 1").unwrap();
    assert!(is_bool(&out[0], true));
}

#[test]
fn blocks_are_spliced() {
    let out = run("", "{ 1 2 } 3").unwrap();
    assert_eq!(out.len(), 3);
    assert!(is_int(&out[0], 1));
    assert!(is_int(&out[2], 3));
    let out = run("def apply:\nb => b\n", "apply { 4 [ 5 ] }").unwrap();
    assert_eq!(out.len(), 2);
    assert!(is_int(&out[0], 4));
    assert!(matches!(out[1], Item::Stack(ref s) if s.len() == 1));
}

#[test]
fn unbound_variable_fails() {
    let err = run("def g:\nx => y\n", "g 1").unwrap_err();
    assert_eq!(err, "Unbound variable");
}

#[test]
fn definition_errors() {
    assert_eq!(parse_source("def bad\nx => x\n").unwrap_err().message(), "Bad function definition");
    assert_eq!(parse_source("def f:\nx y\n").unwrap_err().message(), "Bad entry");
    assert_eq!(parse_source("def f:\nx => y => z\n").unwrap_err().message(), "Bad entry");
    assert_eq!(
        parse_source("def f:\nx => ...y\n").unwrap_err().message(),
        "List variables can't be instantiated in states"
    );
    assert_eq!(
        parse_source("def f:\n...f => 1\n").unwrap_err().message(),
        "Can't use an operator as a variable name"
    );
    assert_eq!(
        parse_source("def f:\n{ x } => x\n").unwrap_err().message(),
        "Can't include blocks in patterns"
    );
    assert_eq!(parse_source("def f:\nx => [ x\n").unwrap_err().message(), "Inconsistent brackets");
}

#[test]
fn later_definition_replaces_earlier() {
    let defs = "def k:\nx => 1\n\ndef k:\nx => 2\n";
    assert!(is_int(&run(defs, "k 0").unwrap()[0], 2));
}

#[test]
fn lines_split_like_str_lines() {
    assert_eq!(split_lines("a\r\nb\n\nc\n"), vec!["a", "b", "", "c"]);
    assert!(split_lines("").is_empty());
}

#[test]
fn self_invoking_rule_stops_at_step_limit() {
    let err = run("def spin:\n=> spin\n", "spin").unwrap_err();
    assert_eq!(err, "Step limit reached");
}

#[test]
fn same_input_same_output() {
    let defs = "def swap:\na b => b a\n";
    let a = run(defs, "swap [ 1 ] { 2 } 3").unwrap();
    let b = run(defs, "swap [ 1 ] { 2 } 3").unwrap();
    assert_eq!(format!("{:?}", a), format!("{:?}", b));
}

#[test]
fn atom_from_str_classifies() {
    let a: Atom = "17".parse().unwrap();
    assert!(matches!(a, Atom::Value(Value::Int(17))));
    let w: Atom = "x1".parse().unwrap();
    assert!(matches!(w, Atom::Word(ref s) if s == "x1"));
}

#[test]
fn canonical_text_reparses_to_same_tree() {
    let first = parse_command("[1 {a true}]b 2.5").unwrap();
    let again = parse_command("[ 1 { a true } ] b 2.5 ").unwrap();
    assert_eq!(format!("{:?}", first), format!("{:?}", again));
    assert_eq!(first.len(), 3);
}

#[test]
fn unclosed_openers() {
    let t: Vec<String> = get_tokens("a [ b").into_iter().collect();
    assert_eq!(parse_item(&t).unwrap_err().message(), "Inconsistent brackets");
    assert_eq!(parse_command("a { b").unwrap_err().message(), "Inconsistent brackets");
    assert_eq!(parse_command("{ a").unwrap_err().message(), "Inconsistent brackets");
    assert_eq!(parse_command("{ a [ b ]").unwrap_err().message(), "Inconsistent brackets");
    assert!(parse_command("{ a [ b ] }").is_ok());
}

#[test]
fn nested_unbound_variable_fails() {
    let err = run("def g:\nx => { [ y ] }\n", "g 1").unwrap_err();
    assert_eq!(err, "Unbound variable");
}

#[test]
fn float_text_is_canonical() {
    assert!(matches!(classify("1.00"), Ok(Atom::Value(Value::Float(ref t))) if t == "1."));
    assert!(matches!(classify("007.50"), Ok(Atom::Value(Value::Float(ref t))) if t == "7.5"));
    assert!(matches!(classify("0.0"), Ok(Atom::Value(Value::Float(ref t))) if t == "0."));
    assert!(matches!(classify("10.01"), Ok(Atom::Value(Value::Float(ref t))) if t == "10.01"));
}

#[test]
fn equal_floats_match() {
    let out = run("def f:\n1.0 => 7\n", "f 1.00").unwrap();
    assert!(is_int(&out[0], 7));
    let err = run("def f:\n1.0 => 7\n", "f 1.01").unwrap_err();
    assert_eq!(err, "Unmatched operator invocation");
}
