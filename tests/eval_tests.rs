use std::rc::Rc;

use ry::ast::{build, copy_node, format_node, format_ref, node_is_list, node_is_nil, nodes_equal, BuiltInFn, BuiltInOp, Node};
use ry::builtins::{l_do, l_minus, l_plus, new_builtins_environment};
use ry::lisp::{eval, eval_call, eval_sequence, Environment};
use ry::number::Number;
use ry::tokenizer::{tokenize, Token};

fn n(v: i32) -> Node {
    Node::Num(Number::integer(v))
}

fn sym(s: &str) -> Node {
    Node::Sym(s.to_string())
}

fn parse(text: &str) -> Node {
    build(tokenize(text.to_string()).unwrap()).unwrap()
}

fn root() -> Environment {
    Environment::new(Some(Rc::new(new_builtins_environment())))
}

fn run(text: &str) -> Node {
    let mut env = root();
    eval(&mut env, parse(text))
}

#[test]
fn parse_wraps_forms_in_do() {
    let p = parse("(+ 2 (- 5 1))");
    assert_eq!(
        p,
        Node::List(vec![
            sym("do"),
            Node::List(vec![sym("+"), n(2), Node::List(vec![sym("-"), n(5), n(1)])]),
        ])
    );
}

#[test]
fn parse_of_nothing_is_bare_do() {
    assert_eq!(build(vec![]).unwrap(), Node::List(vec![sym("do")]));
}

#[test]
fn parse_several_top_level_forms() {
    let p = parse("1 x \"s\"");
    assert_eq!(p, Node::List(vec![sym("do"), n(1), sym("x"), Node::Str("s".to_string())]));
}

#[test]
fn parse_missing_close_is_unmatched_open() {
    let e = build(tokenize("(+ 1 (- 2 3)".to_string()).unwrap()).unwrap_err();
    assert_eq!(e, "unmatched open parens starting at: 0");
}

#[test]
fn parse_missing_inner_close_names_inner_open() {
    let e = build(vec![Token::ParenOpen, Token::ParenOpen]).unwrap_err();
    assert_eq!(e, "unmatched open parens starting at: 1");
}

#[test]
fn parse_lone_close_is_an_error() {
    let e = build(vec![Token::ParenClose]).unwrap_err();
    assert_eq!(e, "found closing parens not matching openning parens");
}

#[test]
fn parse_close_before_open_is_an_error() {
    let e = build(vec![Token::ParenClose, Token::ParenOpen]).unwrap_err();
    assert_eq!(e, "found closing parens not matching openning parens");
}

#[test]
fn parse_keeps_leaf_tokens() {
    let p = build(vec![Token::Nil, Token::Bool(false)]).unwrap();
    assert_eq!(p, Node::List(vec![sym("do"), Node::Nil, Node::Bool(false)]));
}

#[test]
fn format_round_trip() {
    assert_eq!(format_node(parse("(+ 2 (- 5 1))")), "(do (+ 2 (- 5 1)))");
    assert_eq!(format_ref(&parse("(a \"b\" [c 1.5])")), "(do (a \"b\" (c 1.5)))");
}

#[test]
fn format_each_variant() {
    assert_eq!(format_ref(&Node::Nil), "nil");
    assert_eq!(format_ref(&Node::Bool(true)), "true");
    assert_eq!(format_ref(&Node::Bool(false)), "false");
    assert_eq!(format_ref(&n(-12)), "-12");
    assert_eq!(format_ref(&Node::Num(Number { micros: 500_000 })), "0.5");
    assert_eq!(format_ref(&Node::Num(Number { micros: -1_050_000 })), "-1.05");
    assert_eq!(format_ref(&Node::Num(Number { micros: 1 })), "0.000001");
    assert_eq!(format_ref(&Node::Num(Number { micros: i64::MIN })), "-9223372036854.775808");
    assert_eq!(format_ref(&Node::Str("x y".to_string())), "\"x y\"");
    assert_eq!(format_ref(&sym("abc")), "abc");
    assert_eq!(format_ref(&Node::List(vec![])), "()");
    assert_eq!(format_ref(&Node::Error("bad".to_string())), "ERROR bad");
    let b = BuiltInFn { name: "+".to_string(), args_count: 2, uses_rest: false, op: BuiltInOp::Plus };
    assert_eq!(format_ref(&Node::BuiltIn(b)), "builtin#+");
}

#[test]
fn add_two_numbers() {
    assert_eq!(run("(+ 2 3)"), n(5));
}

#[test]
fn nested_arithmetic() {
    assert_eq!(run("(+ 2 (- 5 1))"), n(6));
    assert_eq!(run("(- 1.5 0.25)"), Node::Num(Number { micros: 1_250_000 }));
}

#[test]
fn add_string_is_error_value() {
    assert_eq!(run("(+ \"a\" 1)"), Node::Error("+: non numeric or wrong number of arguments given".to_string()));
}

#[test]
fn wrong_argument_count_is_error_value() {
    assert_eq!(run("(+ 1)"), Node::Error("+: non numeric or wrong number of arguments given".to_string()));
    assert_eq!(run("(- 1 2 3)"), Node::Error("-: non numeric or wrong number of arguments given".to_string()));
}

#[test]
fn overflow_is_error_value() {
    let mut env = root();
    let big = Node::Num(Number { micros: i64::MAX });
    let r = l_plus(&mut env, vec![big.clone(), n(1)]);
    assert_eq!(r, Node::Error("+: result out of range".to_string()));
    let small = Node::Num(Number { micros: i64::MIN });
    let r = l_minus(&mut env, vec![small, n(1)]);
    assert_eq!(r, Node::Error("-: result out of range".to_string()));
}

#[test]
fn do_returns_last_value() {
    assert_eq!(run("(do 1 2 3)"), n(3));
}

#[test]
fn empty_do_is_nil() {
    assert_eq!(run("(do)"), Node::Nil);
}

#[test]
fn program_value_is_last_form() {
    assert_eq!(run("(+ 1 1) (- 9 4)"), n(5));
    assert_eq!(run(""), Node::Nil);
}

#[test]
fn unbound_symbol_is_nil() {
    assert_eq!(run("nothing-here"), Node::Nil);
}

#[test]
fn calling_unbound_head_is_error() {
    assert_eq!(run("(nope 1)"), Node::Error("list with non-callable first item: nope".to_string()));
}

#[test]
fn calling_a_number_is_error() {
    assert_eq!(run("(5 1)"), Node::Error("list with non-callable first item: 5".to_string()));
}

#[test]
fn empty_list_evaluates_to_itself() {
    assert_eq!(run("()"), Node::List(vec![]));
}

#[test]
fn errors_pass_through_uninspected() {
    assert_eq!(
        run("(do (+ 1) 7)"),
        n(7)
    );
    assert_eq!(
        run("(+ (+ 1) 7)"),
        Node::Error("+: non numeric or wrong number of arguments given".to_string())
    );
}

#[test]
fn deep_nesting_is_error_value() {
    let mut text = String::new();
    for _ in 0..1100 {
        text.push_str("(do ");
    }
    text.push('1');
    for _ in 0..1100 {
        text.push(')');
    }
    assert_eq!(
        run(&text),
        Node::Error("list with non-callable first item: ERROR evaluation nested too deeply".to_string())
    );
}

#[test]
fn builtins_are_bound() {
    let env = new_builtins_environment();
    assert_eq!(format_ref(&env.get("+".to_string()).unwrap()), "builtin#+");
    assert_eq!(format_ref(&env.get("-".to_string()).unwrap()), "builtin#-");
    assert_eq!(format_ref(&env.get("do".to_string()).unwrap()), "builtin#do");
    assert!(env.get("*".to_string()).is_none());
}

#[test]
fn builtins_declare_their_arity() {
    let env = new_builtins_environment();
    for (name, count, rest) in [("+", 2, false), ("-", 2, false), ("do", 1, true)] {
        match env.get(name.to_string()) {
            Some(Node::BuiltIn(b)) => {
                assert_eq!(b.name, name);
                assert_eq!(b.args_count, count);
                assert_eq!(b.uses_rest, rest);
            }
            other => panic!("{:?}", other),
        }
    }
}

#[test]
fn parse_names_innermost_unclosed_open() {
    let e = build(tokenize("(a (b) (c (d)".to_string()).unwrap()).unwrap_err();
    assert_eq!(e, "unmatched open parens starting at: 5");
}

#[test]
fn builtin_equality_is_by_name() {
    let a = BuiltInFn { name: "f".to_string(), args_count: 2, uses_rest: false, op: BuiltInOp::Plus };
    let b = BuiltInFn { name: "f".to_string(), args_count: 1, uses_rest: true, op: BuiltInOp::Do };
    let c = BuiltInFn { name: "g".to_string(), args_count: 2, uses_rest: false, op: BuiltInOp::Plus };
    assert!(a == b);
    assert!(a != c);
    assert!(nodes_equal(&Node::BuiltIn(a.clone()), &Node::BuiltIn(b)));
    assert!(!nodes_equal(&Node::BuiltIn(a), &Node::BuiltIn(c)));
}

#[test]
fn child_reads_parent_and_set_stays_local() {
    let mut parent = Environment::new(None);
    parent.set("x".to_string(), n(1));
    let parent = Rc::new(parent);
    let mut child = Environment::new(Some(parent.clone()));
    assert_eq!(child.get("x".to_string()), Some(n(1)));
    child.set("x".to_string(), n(2));
    child.set("y".to_string(), n(3));
    assert_eq!(child.get("x".to_string()), Some(n(2)));
    assert_eq!(parent.get("x".to_string()), Some(n(1)));
    assert_eq!(parent.get("y".to_string()), None);
    assert_eq!(child.get_as_node("missing".to_string()), Node::Nil);
}

#[test]
fn set_overwrites_binding() {
    let mut env = Environment::new(None);
    env.set("k".to_string(), n(1));
    env.set("k".to_string(), Node::Str("v".to_string()));
    assert_eq!(env.get("k".to_string()), Some(Node::Str("v".to_string())));
}

#[test]
fn symbol_resolves_through_scopes() {
    let mut env = root();
    env.set("w".to_string(), n(40));
    assert_eq!(eval(&mut env, parse("(+ w 2)")), n(42));
}

#[test]
fn eval_call_and_sequence_directly() {
    let mut env = root();
    let plus = env.get("+".to_string()).unwrap();
    assert_eq!(eval_call(&mut env, plus, vec![n(2), n(2)]), n(4));
    assert_eq!(eval_call(&mut env, n(1), vec![]), Node::Error("list with non-callable first item: 1".to_string()));
    assert_eq!(eval_sequence(&mut env, &vec![n(1), parse("(+ 1 1)")]), n(2));
    assert_eq!(l_do(&mut env, vec![]), Node::Nil);
    assert_eq!(l_do(&mut env, vec![n(1), Node::List(vec![sym("-"), n(3), n(1)])]), n(2));
}

#[test]
fn node_predicates_and_copy() {
    assert!(node_is_nil(Node::Nil));
    assert!(!node_is_nil(n(0)));
    assert!(node_is_list(Node::List(vec![])));
    assert!(!node_is_list(sym("a")));
    let v = parse("(a (b 1) \"c\")");
    assert_eq!(copy_node(&v), v);
    assert!(!nodes_equal(&v, &Node::List(vec![sym("do")])));
}
