use vstd::prelude::*;
use vstd::string::StringExecFns;
use crate::ast::{Node, NodeView, BuiltInOp, views};
use crate::number::Number;
use crate::ast::BuiltInFn;
use crate::lisp::{Environment, do_value, eval_sequence, MAX_EVAL_DEPTH};

verus! {

pub open spec fn arith_message(op: BuiltInOp) -> Seq<char> {
    if op is Minus {
        "-: non numeric or wrong number of arguments given"@
    } else {
        "+: non numeric or wrong number of arguments given"@
    }
}

pub open spec fn overflow_message(op: BuiltInOp) -> Seq<char> {
    if op is Minus {
        "-: result out of range"@
    } else {
        "+: result out of range"@
    }
}

/// Sum (or difference, for `Minus`) of exactly two numbers; an error value
/// for any other arguments, or when the result does not fit.
pub open spec fn arith_value(op: BuiltInOp, args: Seq<NodeView>) -> NodeView {
    if args.len() == 2 && args[0] is Num && args[1] is Num {
        let a = args[0]->Num_0.micros as int;
        let b = args[1]->Num_0.micros as int;
        let r = if op is Minus { a - b } else { a + b };
        if i64::MIN <= r <= i64::MAX {
            NodeView::Num(Number { micros: r as i64 })
        } else {
            NodeView::Error(overflow_message(op))
        }
    } else {
        NodeView::Error(arith_message(op))
    }
}

/// `(+ a b)`: the sum of two numbers.
pub fn l_plus(env: &mut Environment, args: Vec<Node>) -> (r: Node)
    ensures
        r.view() == arith_value(BuiltInOp::Plus, views(args@)),
        *final(env) == *old(env),
{
    if args.len() == 2 {
        if let (Node::Num(a), Node::Num(b)) = (&args[0], &args[1]) {
            return match a.checked_add(*b) {
                Some(n) => Node::Num(n),
                None => Node::Error(String::from_str("+: result out of range")),
            };
        }
    }
    Node::Error(String::from_str("+: non numeric or wrong number of arguments given"))
}

/// `(- a b)`: the difference of two numbers.
pub fn l_minus(env: &mut Environment, args: Vec<Node>) -> (r: Node)
    ensures
        r.view() == arith_value(BuiltInOp::Minus, views(args@)),
        *final(env) == *old(env),
{
    if args.len() == 2 {
        if let (Node::Num(a), Node::Num(b)) = (&args[0], &args[1]) {
            return match a.checked_sub(*b) {
                Some(n) => Node::Num(n),
                None => Node::Error(String::from_str("-: result out of range")),
            };
        }
    }
    Node::Error(String::from_str("-: non numeric or wrong number of arguments given"))
}


/// `(do a b ...)`: the value of the last argument, or `Nil` for none.
pub fn l_do(env: &mut Environment, args: Vec<Node>) -> (r: Node)
    ensures
        r.view() == do_value(*old(env), views(args@), MAX_EVAL_DEPTH as nat),
        *final(env) == *old(env),
{
    eval_sequence(env, &args)
}

fn register_builtin(env: &mut Environment, name: &str, args_count: usize, uses_rest: bool, op: BuiltInOp)
    ensures
        forall|k: Seq<char>| #[trigger] final(env).local(k) == if k == name@ {
            Some(NodeView::BuiltIn(name@, args_count, uses_rest, op))
        } else {
            old(env).local(k)
        },
        final(env).enclosing() == old(env).enclosing(),
{
    let f = BuiltInFn { name: String::from_str(name), args_count, uses_rest, op };
    env.set(String::from_str(name), Node::BuiltIn(f));
}

/// A root scope holding the built-ins `+` and `-` (two arguments each) and
/// the variadic `do` (declared arity 1, with a variable-length tail).
pub fn new_builtins_environment() -> (r: Environment)
    ensures
        r.enclosing() is None,
        r.local("+"@) == Some(NodeView::BuiltIn("+"@, 2, false, BuiltInOp::Plus)),
        r.local("-"@) == Some(NodeView::BuiltIn("-"@, 2, false, BuiltInOp::Minus)),
        r.local("do"@) == Some(NodeView::BuiltIn("do"@, 1, true, BuiltInOp::Do)),
        forall|k: Seq<char>| k != "+"@ && k != "-"@ && k != "do"@ ==> (#[trigger] r.local(k)) is None,
{
    proof {
        reveal_strlit("+");
        reveal_strlit("-");
        reveal_strlit("do");
        assert("+"@[0] != "-"@[0]);
        assert("+"@.len() != "do"@.len());
        assert("-"@.len() != "do"@.len());
    }
    let mut env = Environment::new(None);
    register_builtin(&mut env, "+", 2, false, BuiltInOp::Plus);
    register_builtin(&mut env, "-", 2, false, BuiltInOp::Minus);
    register_builtin(&mut env, "do", 1, true, BuiltInOp::Do);
    env
}

} // verus!
