use vstd::prelude::*;
use vstd::pervasive::VecAdditionalExecFns;
use std::rc::Rc;
use vstd::string::StringExecFns;
use crate::ast::{Node, NodeView, BuiltInOp, copy_node, format_ref, format_value, views, lemma_list_view};
use crate::builtins::{arith_value, l_plus, l_minus};

verus! {

/// The value bound to `k` by the last entry for `k`, if any.
pub open spec fn lookup_local(vals: Seq<(String, Node)>, k: Seq<char>) -> Option<NodeView>
    decreases vals.len(),
{
    if vals.len() == 0 {
        None
    } else if vals.last().0@ == k {
        Some(vals.last().1.view())
    } else {
        lookup_local(vals.drop_last(), k)
    }
}

proof fn lemma_lookup_update(vals: Seq<(String, Node)>, i: int, entry: (String, Node), k: Seq<char>)
    requires
        0 <= i < vals.len(),
        vals[i].0@ == entry.0@,
        forall|j: int| i < j < vals.len() ==> (#[trigger] vals[j]).0@ != entry.0@,
    ensures
        lookup_local(vals.update(i, entry), k) == if k == entry.0@ {
            Some(entry.1.view())
        } else {
            lookup_local(vals, k)
        },
    decreases vals.len(),
{
    let u = vals.update(i, entry);
    if i == vals.len() - 1 {
        assert(u.drop_last() =~= vals.drop_last());
        assert(vals.last() == vals[i]);
    } else {
        assert(u.drop_last() =~= vals.drop_last().update(i, entry));
        assert(vals.last() == vals[vals.len() - 1]);
        lemma_lookup_update(vals.drop_last(), i, entry, k);
    }
}

/// A scope: its own bindings, and the scope it falls back on.
pub struct Environment {
    values: Vec<(String, Node)>,
    parent: Option<Rc<Environment>>,
}

impl Environment {
    /// The value bound to `k` in this scope's own bindings.
    pub closed spec fn local(self, k: Seq<char>) -> Option<NodeView> {
        lookup_local(self.values@, k)
    }

    /// The enclosing scope.
    pub closed spec fn enclosing(self) -> Option<Environment> {
        match self.parent {
            Some(p) => Some(*p),
            None => None,
        }
    }

    /// The value bound to `k` in this scope or the nearest enclosing one.
    pub closed spec fn lookup(self, k: Seq<char>) -> Option<NodeView>
        decreases self,
    {
        match lookup_local(self.values@, k) {
            Some(v) => Some(v),
            None => match self.parent {
                Some(p) => (*p).lookup(k),
                None => None,
            },
        }
    }

    /// Lookup searches the scope's own bindings first, then the enclosing scope.
    pub broadcast proof fn lemma_lookup(self, k: Seq<char>)
        ensures
            #[trigger] self.lookup(k) == match self.local(k) {
                Some(v) => Some(v),
                None => match self.enclosing() {
                    Some(p) => p.lookup(k),
                    None => None,
                },
            },
    {
    }

    /// An empty scope under `parent`.
    pub fn new(parent: Option<Rc<Environment>>) -> (r: Environment)
        ensures
            forall|k: Seq<char>| (#[trigger] r.local(k)) is None,
            r.enclosing() == match parent {
                Some(p) => Some(*p),
                None => None::<Environment>,
            },
    {
        Environment { values: Vec::new(), parent }
    }

    /// Position of the last own binding of `key`.
    fn find_local(&self, key: &String) -> (r: Option<usize>)
        ensures
            match r {
                Some(i) => i < self.values@.len() && self.values@[i as int].0@ == key@
                    && lookup_local(self.values@, key@) == Some(self.values@[i as int].1.view())
                    && forall|j: int| i < j < self.values@.len() ==> (#[trigger] self.values@[j]).0@ != key@,
                None => lookup_local(self.values@, key@) is None,
            },
    {
        let ghost vals = self.values@;
        let mut i = self.values.len();
        assert(vals.take(i as int) =~= vals);
        while i > 0
            invariant
                vals == self.values@,
                i <= vals.len(),
                forall|j: int| i <= j < vals.len() ==> (#[trigger] vals[j]).0@ != key@,
                lookup_local(vals, key@) == lookup_local(vals.take(i as int), key@),
            decreases i,
        {
            let ghost t = vals.take(i as int);
            assert(t.drop_last() =~= vals.take(i - 1));
            assert(t.last() == vals[i - 1]);
            if self.values[i - 1].0 == *key {
                return Some(i - 1);
            }
            i = i - 1;
        }
        None
    }

    /// Binds `key` to `value` in this scope, replacing an earlier binding
    /// of it here; enclosing scopes are left as they are.
    pub fn set(&mut self, key: String, value: Node)
        ensures
            forall|k: Seq<char>| #[trigger] final(self).local(k) == if k == key@ {
                Some(value.view())
            } else {
                old(self).local(k)
            },
            final(self).enclosing() == old(self).enclosing(),
    {
        let ghost entry = (key, value);
        match self.find_local(&key) {
            Some(i) => {
                proof {
                    assert(entry.0@ == key@);
                    assert forall|k: Seq<char>| #[trigger] lookup_local(self.values@.update(i as int, entry), k) == if k == key@ {
                        Some(value.view())
                    } else {
                        lookup_local(self.values@, k)
                    } by {
                        lemma_lookup_update(self.values@, i as int, entry, k);
                    }
                }
                self.values.set(i, (key, value));
            },
            None => {
                let ghost old_vals = self.values@;
                self.values.push((key, value));
                proof {
                    assert forall|k: Seq<char>| #[trigger] lookup_local(self.values@, k) == if k == entry.0@ {
                        Some(entry.1.view())
                    } else {
                        lookup_local(old_vals, k)
                    } by {
                        assert(self.values@.drop_last() =~= old_vals);
                    }
                }
            },
        }
    }

    /// A copy of the value bound to `key` here or in the nearest enclosing
    /// scope that binds it.
    pub fn get(&self, key: String) -> (r: Option<Node>)
        ensures
            match self.lookup(key@) {
                Some(v) => r matches Some(n) && n.view() == v,
                None => r is None,
            },
        decreases self,
    {
        match self.find_local(&key) {
            Some(i) => Some(copy_node(&self.values[i].1)),
            None => match &self.parent {
                Some(p) => {
                    let e: &Environment = &**p;
                    e.get(key)
                },
                None => None,
            },
        }
    }

    /// The value bound to `key`, or `Nil` where nothing binds it.
    pub fn get_as_node(&self, key: String) -> (r: Node)
        ensures
            r.view() == match self.lookup(key@) {
                Some(v) => v,
                None => NodeView::Nil,
            },
    {
        match self.get(key) {
            Some(n) => n,
            None => Node::Nil,
        }
    }
}


/// Deepest nesting of evaluation steps before evaluation gives up with an
/// error value, in place of the stack overflow that unbounded recursion
/// would risk.
pub const MAX_EVAL_DEPTH: u64 = 1000;

pub open spec fn non_callable_message(v: NodeView) -> Seq<char> {
    "list with non-callable first item: "@ + format_value(v)
}

pub open spec fn depth_message() -> Seq<char> {
    "evaluation nested too deeply"@
}

/// The value of `n` in `env`, with `depth` nested steps left.
pub open spec fn eval_value(env: Environment, n: NodeView, depth: nat) -> NodeView
    decreases depth, 0nat, 0nat,
{
    if depth == 0 {
        NodeView::Error(depth_message())
    } else {
        match n {
            NodeView::Sym(s) => match env.lookup(s) {
                Some(v) => v,
                None => NodeView::Nil,
            },
            NodeView::List(items) => {
                if items.len() == 0 {
                    NodeView::List(Seq::empty())
                } else {
                    let callee = eval_value(env, items[0], (depth - 1) as nat);
                    if callee is Nil {
                        NodeView::Error(non_callable_message(items[0]))
                    } else {
                        call_value(env, callee, eval_args(env, items.drop_first(), (depth - 1) as nat), (depth - 1) as nat)
                    }
                }
            },
            _ => n,
        }
    }
}

/// The values of `args` in `env`, in order.
pub open spec fn eval_args(env: Environment, args: Seq<NodeView>, depth: nat) -> Seq<NodeView>
    decreases depth, 1nat, args.len(),
{
    if args.len() == 0 {
        Seq::empty()
    } else {
        eval_args(env, args.drop_last(), depth).push(eval_value(env, args.last(), depth))
    }
}

/// What calling `callee` on the argument values `args` gives.
pub open spec fn call_value(env: Environment, callee: NodeView, args: Seq<NodeView>, depth: nat) -> NodeView
    decreases depth, 2nat, 0nat,
{
    match callee {
        NodeView::BuiltIn(_, _, _, op) => match op {
            BuiltInOp::Do => if args.len() == 0 {
                NodeView::Nil
            } else {
                eval_value(env, args.last(), depth)
            },
            _ => arith_value(op, args),
        },
        _ => NodeView::Error(non_callable_message(callee)),
    }
}

/// What `do` gives on `args`: `Nil` for none, else the value of the last.
pub open spec fn do_value(env: Environment, args: Seq<NodeView>, depth: nat) -> NodeView {
    if args.len() == 0 {
        NodeView::Nil
    } else {
        eval_value(env, args.last(), depth)
    }
}

fn eval_in(env: &mut Environment, n: &Node, depth: u64) -> (r: Node)
    ensures
        r.view() == eval_value(*old(env), n.view(), depth as nat),
        *final(env) == *old(env),
    decreases depth, 0nat, 0nat,
{
    if depth == 0 {
        return Node::Error(String::from_str("evaluation nested too deeply"));
    }
    match n {
        Node::Sym(s) => env.get_as_node(s.clone()),
        Node::List(v) => {
            proof {
                lemma_list_view(*v);
            }
            if v.len() == 0 {
                let e: Vec<Node> = Vec::new();
                proof {
                    lemma_list_view(e);
                    assert(views(e@) =~= Seq::<NodeView>::empty());
                }
                return Node::List(e);
            }
            let ghost env0 = *env;
            let ghost items = views(v@);
            let callee = eval_in(env, &v[0], depth - 1);
            if let Node::Nil = callee {
                let mut m = String::from_str("list with non-callable first item: ");
                let h = format_ref(&v[0]);
                m.append(h.as_str());
                return Node::Error(m);
            }
            let ghost rest = items.drop_first();
            let mut args: Vec<Node> = Vec::new();
            let mut i: usize = 1;
            proof {
                assert(rest.take(0) =~= Seq::<NodeView>::empty());
                assert(views(args@) =~= Seq::<NodeView>::empty());
            }
            while i < v.len()
                invariant
                    depth > 0,
                    *n == Node::List(*v),
                    *env == env0,
                    items == views(v@),
                    rest == items.drop_first(),
                    1 <= i <= v@.len(),
                    views(args@) == eval_args(env0, rest.take(i - 1), (depth - 1) as nat),
                decreases v@.len() - i,
            {
                let a = eval_in(env, &v[i], depth - 1);
                let ghost av = a.view();
                let ghost old_args = args@;
                args.push(a);
                proof {
                    let t = rest.take(i as int);
                    assert(t.drop_last() =~= rest.take(i - 1));
                    assert(t.last() == v@[i as int].view());
                    assert(views(args@) =~= views(old_args).push(av));
                }
                i = i + 1;
            }
            assert(rest.take(i - 1) =~= rest);
            eval_call_in(env, callee, args, depth - 1)
        },
        _ => copy_node(n),
    }
}

fn eval_call_in(env: &mut Environment, callee: Node, args: Vec<Node>, depth: u64) -> (r: Node)
    ensures
        r.view() == call_value(*old(env), callee.view(), views(args@), depth as nat),
        *final(env) == *old(env),
    decreases depth, 2nat, 0nat,
{
    match callee {
        Node::BuiltIn(b) => match b.op {
            BuiltInOp::Plus => l_plus(env, args),
            BuiltInOp::Minus => l_minus(env, args),
            BuiltInOp::Do => eval_sequence_in(env, &args, depth),
        },
        _ => {
            let mut m = String::from_str("list with non-callable first item: ");
            let h = format_ref(&callee);
            m.append(h.as_str());
            Node::Error(m)
        },
    }
}

fn eval_sequence_in(env: &mut Environment, args: &Vec<Node>, depth: u64) -> (r: Node)
    ensures
        r.view() == do_value(*old(env), views(args@), depth as nat),
        *final(env) == *old(env),
    decreases depth, 1nat, 0nat,
{
    let ghost env0 = *env;
    let mut last = Node::Nil;
    let mut i: usize = 0;
    while i < args.len()
        invariant
            *env == env0,
            i <= args@.len(),
            i == 0 ==> last.view() == NodeView::Nil,
            i > 0 ==> last.view() == eval_value(env0, args@[i - 1].view(), depth as nat),
        decreases args@.len() - i,
    {
        last = eval_in(env, &args[i], depth);
        i = i + 1;
    }
    last
}

/// The value of `ast` in `env`.
///
/// Evaluation is bounded: every nested step (the head of a list, each of its
/// arguments, and the call they make) gets one unit fewer of a budget of
/// `MAX_EVAL_DEPTH`, and a step with no budget left gives the error value
/// `evaluation nested too deeply` instead of exhausting the stack. Because of
/// this, the value of a list equals the call of its evaluated head on its
/// evaluated arguments (`eval_call`) only away from that limit: `eval_value`
/// states the exact relation, budget included.
pub fn eval(env: &mut Environment, ast: Node) -> (r: Node)
    ensures
        r.view() == eval_value(*old(env), ast.view(), MAX_EVAL_DEPTH as nat),
        *final(env) == *old(env),
{
    eval_in(env, &ast, MAX_EVAL_DEPTH)
}

/// Calls `callee` on argument values already computed.
pub fn eval_call(env: &mut Environment, callee: Node, args: Vec<Node>) -> (r: Node)
    ensures
        r.view() == call_value(*old(env), callee.view(), views(args@), MAX_EVAL_DEPTH as nat),
        *final(env) == *old(env),
{
    eval_call_in(env, callee, args, MAX_EVAL_DEPTH)
}

/// Evaluates each of `args` in order; the value of the last, or `Nil`.
pub fn eval_sequence(env: &mut Environment, args: &Vec<Node>) -> (r: Node)
    ensures
        r.view() == do_value(*old(env), views(args@), MAX_EVAL_DEPTH as nat),
        *final(env) == *old(env),
{
    eval_sequence_in(env, args, MAX_EVAL_DEPTH)
}


/// A symbol that no scope in the chain binds evaluates to `Nil`.
pub proof fn lemma_unbound_symbol_is_nil(env: Environment, s: Seq<char>, depth: nat)
    requires
        env.lookup(s) is None,
        depth > 0,
    ensures
        eval_value(env, NodeView::Sym(s), depth) == NodeView::Nil,
{
}

/// A scope that does not bind `k` itself reads `k` from its enclosing
/// scope, as that scope binds it; and binding any name in the inner scope
/// leaves the enclosing scope as it was.
pub proof fn lemma_child_reads_parent(child: Environment, parent: Environment, k: Seq<char>, after_set: Environment, key: Seq<char>, v: NodeView)
    requires
        child.enclosing() == Some(parent),
        child.local(k) is None,
        after_set.enclosing() == child.enclosing(),
        forall|j: Seq<char>| #[trigger] after_set.local(j) == if j == key { Some(v) } else { child.local(j) },
    ensures
        child.lookup(k) == parent.lookup(k),
        after_set.enclosing() == Some(parent),
        key != k ==> after_set.lookup(k) == parent.lookup(k),
{
    child.lemma_lookup(k);
    after_set.lemma_lookup(k);
}

} // verus!
