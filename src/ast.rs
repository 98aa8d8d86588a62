use vstd::prelude::*;
use vstd::string::StringExecFns;
use crate::number::{Number, number_text, push_digits};
use crate::tokenizer::{Token, TokenView, bool_text, tokens_view};

verus! {

broadcast use vstd::std_specs::vec::group_vec_axioms, vstd::seq::group_seq_axioms;

/// The operation a built-in function performs.
#[derive(Clone, Copy, Debug, PartialEq, Eq, Structural)]
pub enum BuiltInOp {
    Plus,
    Minus,
    Do,
}

/// A native function: its name, declared arity, whether it takes a
/// variable-length tail of arguments, and the operation it performs.
#[derive(Clone, Debug)]
pub struct BuiltInFn {
    pub name: String,
    pub args_count: usize,
    pub uses_rest: bool,
    pub op: BuiltInOp,
}

impl PartialEq for BuiltInFn {
    /// Built-ins are equal when their names are.
    fn eq(&self, other: &BuiltInFn) -> (r: bool) {
        self.name == other.name
    }
}

impl vstd::std_specs::cmp::PartialEqSpecImpl for BuiltInFn {
    open spec fn obeys_eq_spec() -> bool {
        true
    }

    open spec fn eq_spec(&self, other: &BuiltInFn) -> bool {
        self.name@ == other.name@
    }
}

/// A value: parsed code and runtime data alike.
#[derive(Debug)]
pub enum Node {
    Nil,
    Bool(bool),
    Num(Number),
    Str(String),
    Sym(String),
    List(Vec<Node>),
    Error(String),
    BuiltIn(BuiltInFn),
}

/// What a value is, with text as sequences of characters.
pub enum NodeView {
    Nil,
    Bool(bool),
    Num(Number),
    Str(Seq<char>),
    Sym(Seq<char>),
    List(Seq<NodeView>),
    Error(Seq<char>),
    /// Name, declared arity, whether a variable-length tail is taken, operation.
    BuiltIn(Seq<char>, usize, bool, BuiltInOp),
}

impl Node {
    pub open spec fn view(self) -> NodeView
        decreases self,
    {
        match self {
            Node::Nil => NodeView::Nil,
            Node::Bool(b) => NodeView::Bool(b),
            Node::Num(n) => NodeView::Num(n),
            Node::Str(s) => NodeView::Str(s@),
            Node::Sym(s) => NodeView::Sym(s@),
            Node::List(v) => NodeView::List(
                Seq::new(v.len() as nat, |i: int| if 0 <= i < v.len() { v[i].view() } else { NodeView::Nil }),
            ),
            Node::Error(s) => NodeView::Error(s@),
            Node::BuiltIn(b) => NodeView::BuiltIn(b.name@, b.args_count, b.uses_rest, b.op),
        }
    }
}

pub open spec fn views(s: Seq<Node>) -> Seq<NodeView> {
    s.map_values(|n: Node| n.view())
}

pub proof fn lemma_list_view(v: Vec<Node>)
    ensures
        Node::List(v).view() == NodeView::List(views(v@)),
{
    let l = Node::List(v);
    assert(l.view() is List);
    let s = l.view()->List_0;
    assert(s.len() == v@.len());
    assert forall|i: int| 0 <= i < v@.len() implies s[i] == views(v@)[i] by {
        assert(v[i] == v@[i]);
    }
    assert(s =~= views(v@));
}

/// Printed form of a value.
pub open spec fn format_value(v: NodeView) -> Seq<char>
    decreases v,
{
    match v {
        NodeView::Nil => "nil"@,
        NodeView::Bool(b) => bool_text(b),
        NodeView::Num(n) => number_text(n.micros as int),
        NodeView::Str(s) => "\""@ + s + "\""@,
        NodeView::Sym(s) => s,
        NodeView::List(items) => "("@ + format_items(items) + ")"@,
        NodeView::Error(m) => "ERROR "@ + m,
        NodeView::BuiltIn(name, _, _, _) => "builtin#"@ + name,
    }
}

/// Printed forms of a sequence of values, joined by single spaces.
pub open spec fn format_items(items: Seq<NodeView>) -> Seq<char>
    decreases items,
{
    if items.len() == 0 {
        Seq::empty()
    } else if items.len() == 1 {
        format_value(items[0])
    } else {
        proof {
            assert(decreases_to!(items => items.subrange(0, items.len() - 1)));
        }
        format_items(items.drop_last()) + " "@ + format_value(items.last())
    }
}

/// Whether the value is `Nil`.
pub fn node_is_nil(n: Node) -> (r: bool)
    ensures
        r == (n.view() is Nil),
{
    match n {
        Node::Nil => true,
        _ => false,
    }
}

/// Whether the value is a `List`.
pub fn node_is_list(n: Node) -> (r: bool)
    ensures
        r == (n.view() is List),
{
    match n {
        Node::List(..) => true,
        _ => false,
    }
}

/// A copy of a value that shares nothing with it.
pub fn copy_node(n: &Node) -> (r: Node)
    ensures
        r.view() == n.view(),
    decreases n.view(),
{
    match n {
        Node::Nil => Node::Nil,
        Node::Bool(b) => Node::Bool(*b),
        Node::Num(x) => Node::Num(*x),
        Node::Str(s) => Node::Str(s.clone()),
        Node::Sym(s) => Node::Sym(s.clone()),
        Node::List(v) => {
            let mut out: Vec<Node> = Vec::new();
            let mut i: usize = 0;
            while i < v.len()
                invariant
                    *n == Node::List(*v),
                    i <= v@.len(),
                    out@.len() == i,
                    views(out@) == views(v@).take(i as int),
                decreases v@.len() - i,
            {
                proof {
                    lemma_list_view(*v);
                    assert(views(v@)[i as int] == v@[i as int].view());
                    let nv = n.view();
                    assert(decreases_to!(nv => nv->List_0));
                }
                let c = copy_node(&v[i]);
                out.push(c);
                i = i + 1;
                assert(views(out@) =~= views(v@).take(i as int));
            }
            proof {
                lemma_list_view(out);
                lemma_list_view(*v);
                assert(views(v@).take(i as int) =~= views(v@));
            }
            Node::List(out)
        },
        Node::Error(s) => Node::Error(s.clone()),
        Node::BuiltIn(b) => Node::BuiltIn(
            BuiltInFn { name: b.name.clone(), args_count: b.args_count, uses_rest: b.uses_rest, op: b.op },
        ),
    }
}

/// Printed form of a value: `nil`, `true`, `2.5`, `"text"`, `name`,
/// `(a b c)`, `ERROR message`, `builtin#name`.
pub fn format_node(n: Node) -> (r: String)
    ensures
        r@ == format_value(n.view()),
{
    format_ref(&n)
}

/// Printed form of a borrowed value.
pub fn format_ref(n: &Node) -> (r: String)
    ensures
        r@ == format_value(n.view()),
    decreases n.view(),
{
    match n {
        Node::Nil => String::from_str("nil"),
        Node::Bool(b) => {
            if *b {
                String::from_str("true")
            } else {
                String::from_str("false")
            }
        },
        Node::Num(x) => x.to_text(),
        Node::Str(s) => {
            let mut r = String::from_str("\"");
            r.append(s.as_str());
            r.append("\"");
            r
        },
        Node::Sym(s) => s.clone(),
        Node::List(v) => {
            proof {
                lemma_list_view(*v);
            }
            let mut r = String::from_str("(");
            let mut i: usize = 0;
            while i < v.len()
                invariant
                    *n == Node::List(*v),
                    n.view() == NodeView::List(views(v@)),
                    i <= v@.len(),
                    r@ == "("@ + format_items(views(v@).take(i as int)),
                decreases v@.len() - i,
            {
                proof {
                    let nv = n.view();
                    assert(decreases_to!(nv => nv->List_0));
                    assert(views(v@)[i as int] == v@[i as int].view());
                }
                let part = format_ref(&v[i]);
                if i > 0 {
                    r.append(" ");
                }
                r.append(part.as_str());
                proof {
                    let t = views(v@).take(i + 1);
                    assert(t.drop_last() =~= views(v@).take(i as int));
                    assert(t.last() == v@[i as int].view());
                    if i == 0 {
                        assert(format_items(t) == format_value(t[0]));
                    }
                }
                i = i + 1;
            }
            r.append(")");
            assert(views(v@).take(i as int) =~= views(v@));
            r
        },
        Node::Error(s) => {
            let mut r = String::from_str("ERROR ");
            r.append(s.as_str());
            r
        },
        Node::BuiltIn(b) => {
            let mut r = String::from_str("builtin#");
            r.append(b.name.as_str());
            r
        },
    }
}

/// Equality of values, where built-ins compare by name alone.
pub open spec fn same_value(a: NodeView, b: NodeView) -> bool
    decreases a,
{
    match a {
        NodeView::List(x) => b is List && same_items(x, b->List_0),
        NodeView::BuiltIn(n1, _, _, _) => b is BuiltIn && n1 == b->BuiltIn_0,
        _ => a == b,
    }
}

/// Two sequences of values of one length, equal element by element.
pub open spec fn same_items(x: Seq<NodeView>, y: Seq<NodeView>) -> bool
    decreases x,
{
    if x.len() != y.len() {
        false
    } else if x.len() == 0 {
        true
    } else {
        proof {
            assert(decreases_to!(x => x.subrange(0, x.len() - 1)));
        }
        same_items(x.drop_last(), y.drop_last()) && same_value(x.last(), y.last())
    }
}

/// Element-wise equality of two sequences holds of every pair of equal-length prefixes below it.
proof fn lemma_same_items_prefix(x: Seq<NodeView>, y: Seq<NodeView>, k: int)
    requires
        x.len() == y.len(),
        0 <= k <= x.len(),
        same_items(x, y),
    ensures
        same_items(x.take(k), y.take(k)),
    decreases x.len() - k,
{
    if k < x.len() {
        lemma_same_items_prefix(x, y, k + 1);
        assert(x.take(k + 1).drop_last() =~= x.take(k));
        assert(y.take(k + 1).drop_last() =~= y.take(k));
    } else {
        assert(x.take(k) =~= x);
        assert(y.take(k) =~= y);
    }
}

/// Whether two values are equal; built-ins compare by name alone.
pub fn nodes_equal(a: &Node, b: &Node) -> (r: bool)
    ensures
        r == same_value(a.view(), b.view()),
    decreases a.view(),
{
    match (a, b) {
        (Node::Nil, Node::Nil) => true,
        (Node::Bool(x), Node::Bool(y)) => *x == *y,
        (Node::Num(x), Node::Num(y)) => x.micros == y.micros,
        (Node::Str(x), Node::Str(y)) => *x == *y,
        (Node::Sym(x), Node::Sym(y)) => *x == *y,
        (Node::Error(x), Node::Error(y)) => *x == *y,
        (Node::BuiltIn(x), Node::BuiltIn(y)) => x.name == y.name,
        (Node::List(x), Node::List(y)) => {
            proof {
                lemma_list_view(*x);
                lemma_list_view(*y);
            }
            if x.len() != y.len() {
                return false;
            }
            let mut i: usize = 0;
            assert(views(x@).take(0) =~= Seq::<NodeView>::empty());
            assert(views(y@).take(0) =~= Seq::<NodeView>::empty());
            while i < x.len()
                invariant
                    *a == Node::List(*x),
                    *b == Node::List(*y),
                    a.view() == NodeView::List(views(x@)),
                    b.view() == NodeView::List(views(y@)),
                    i <= x@.len(),
                    x@.len() == y@.len(),
                    same_items(views(x@).take(i as int), views(y@).take(i as int)),
                decreases x@.len() - i,
            {
                proof {
                    let av = a.view();
                    assert(decreases_to!(av => av->List_0));
                    assert(views(x@)[i as int] == x@[i as int].view());
                    assert(views(y@)[i as int] == y@[i as int].view());
                }
                if !nodes_equal(&x[i], &y[i]) {
                    proof {
                        let av = a.view();
                        let bv = b.view();
                        assert(av->List_0 == views(x@));
                        assert(bv->List_0 == views(y@));
                        let tx = views(x@).take(i + 1);
                        let ty = views(y@).take(i + 1);
                        assert(tx.last() == views(x@)[i as int]);
                        assert(ty.last() == views(y@)[i as int]);
                        if same_items(views(x@), views(y@)) {
                            lemma_same_items_prefix(views(x@), views(y@), i + 1);
                        }
                    }
                    return false;
                }
                proof {
                    let tx = views(x@).take(i + 1);
                    let ty = views(y@).take(i + 1);
                    assert(tx.drop_last() =~= views(x@).take(i as int));
                    assert(ty.drop_last() =~= views(y@).take(i as int));
                }
                i = i + 1;
            }
            proof {
                assert(views(x@).take(i as int) =~= views(x@));
                assert(views(y@).take(i as int) =~= views(y@));
                let av = a.view();
                let bv = b.view();
                assert(av->List_0 == views(x@));
                assert(bv->List_0 == views(y@));
            }
            true
        },
        _ => false,
    }
}

impl PartialEq for Node {
    fn eq(&self, other: &Node) -> (r: bool) {
        nodes_equal(self, other)
    }
}

impl vstd::std_specs::cmp::PartialEqSpecImpl for Node {
    open spec fn obeys_eq_spec() -> bool {
        true
    }

    open spec fn eq_spec(&self, other: &Node) -> bool {
        same_value(self.view(), other.view())
    }
}

impl Clone for Node {
    fn clone(&self) -> (r: Node) {
        copy_node(self)
    }
}


/// Change of nesting depth that a token brings.
pub open spec fn delim_step(t: TokenView) -> int {
    match t {
        TokenView::ParenOpen => 1,
        TokenView::ParenClose => -1,
        _ => 0,
    }
}

/// Nesting depth after the first `n` tokens.
pub open spec fn depth_at(ts: Seq<TokenView>, n: int) -> int
    decreases n,
{
    if n <= 0 {
        0
    } else {
        depth_at(ts, n - 1) + (if n - 1 < ts.len() { delim_step(ts[n - 1]) } else { 0 })
    }
}

/// No prefix of the tokens closes more lists than it opens.
pub open spec fn never_negative(ts: Seq<TokenView>) -> bool {
    forall|n: int| 0 <= n <= ts.len() ==> #[trigger] depth_at(ts, n) >= 0
}

/// The token at `p` opens a list that no later token closes.
pub open spec fn unclosed_open(ts: Seq<TokenView>, p: int) -> bool {
    &&& 0 <= p < ts.len()
    &&& ts[p] is ParenOpen
    &&& forall|q: int| p < q <= ts.len() ==> #[trigger] depth_at(ts, q) > depth_at(ts, p)
}

/// The innermost list left open: the unclosed open delimiter at the deepest
/// level still open at the end.
pub open spec fn innermost_unclosed(ts: Seq<TokenView>, p: int) -> bool {
    unclosed_open(ts, p) && depth_at(ts, p) == depth_at(ts, ts.len() as int) - 1
}

/// At most one open delimiter is the innermost one left open.
pub proof fn lemma_innermost_unclosed_unique(ts: Seq<TokenView>, p1: int, p2: int)
    requires
        innermost_unclosed(ts, p1),
        innermost_unclosed(ts, p2),
    ensures
        p1 == p2,
{
    if p1 < p2 {
        assert(depth_at(ts, p2) > depth_at(ts, p1));
    } else if p2 < p1 {
        assert(depth_at(ts, p1) > depth_at(ts, p2));
    }
}

pub open spec fn close_message() -> Seq<char> {
    "found closing parens not matching openning parens"@
}

pub open spec fn open_message(p: int) -> Seq<char> {
    "unmatched open parens starting at: "@ + crate::number::digits_text(p as nat)
}

/// Tokens that spell a value out in source form.
pub open spec fn node_tokens(v: NodeView) -> Seq<TokenView>
    decreases v,
{
    match v {
        NodeView::Nil => seq![TokenView::Nil],
        NodeView::Bool(b) => seq![TokenView::Bool(b)],
        NodeView::Num(n) => seq![TokenView::Num(n)],
        NodeView::Str(s) => seq![TokenView::Str(s)],
        NodeView::Sym(s) => seq![TokenView::Sym(s)],
        NodeView::List(items) => seq![TokenView::ParenOpen] + items_tokens(items) + seq![TokenView::ParenClose],
        _ => Seq::empty(),
    }
}

/// Tokens of a sequence of values, one after another.
pub open spec fn items_tokens(items: Seq<NodeView>) -> Seq<TokenView>
    decreases items,
{
    if items.len() == 0 {
        Seq::empty()
    } else {
        proof {
            assert(decreases_to!(items => items.subrange(0, items.len() - 1)));
        }
        items_tokens(items.drop_last()) + node_tokens(items.last())
    }
}

/// A value that source text can spell: no errors and no built-ins inside.
pub open spec fn is_syntax(v: NodeView) -> bool
    decreases v,
{
    match v {
        NodeView::List(items) => items_syntax(items),
        NodeView::Error(_) => false,
        NodeView::BuiltIn(_, _, _, _) => false,
        _ => true,
    }
}

pub open spec fn items_syntax(items: Seq<NodeView>) -> bool
    decreases items,
{
    if items.len() == 0 {
        true
    } else {
        proof {
            assert(decreases_to!(items => items.subrange(0, items.len() - 1)));
        }
        items_syntax(items.drop_last()) && is_syntax(items.last())
    }
}

/// A program: a list headed by the symbol `do`.
pub open spec fn is_program(v: NodeView) -> bool {
    v is List && v->List_0.len() >= 1 && v->List_0[0] == NodeView::Sym("do"@)
}

/// A program whose forms spell out exactly the tokens `ts`.
pub open spec fn program_of(v: NodeView, ts: Seq<TokenView>) -> bool {
    &&& is_program(v)
    &&& items_tokens(v->List_0.drop_first()) == ts
    &&& items_syntax(v->List_0.drop_first())
}

proof fn lemma_items_push(items: Seq<NodeView>, v: NodeView)
    ensures
        items_tokens(items.push(v)) == items_tokens(items) + node_tokens(v),
        items_syntax(items.push(v)) == (items_syntax(items) && is_syntax(v)),
{
    assert(items.push(v).drop_last() =~= items);
}

fn leaf_node(t: &Token) -> (r: Node)
    requires
        !(t.view() is ParenOpen),
        !(t.view() is ParenClose),
    ensures
        node_tokens(r.view()) == seq![t.view()],
        is_syntax(r.view()),
{
    match t {
        Token::Nil => Node::Nil,
        Token::Bool(b) => Node::Bool(*b),
        Token::Num(n) => Node::Num(*n),
        Token::Str(s) => Node::Str(s.clone()),
        Token::Sym(s) => Node::Sym(s.clone()),
        _ => Node::Nil,
    }
}

/// Adds `n` at the end of the last list of `frames`.
fn push_to_last(frames: &mut Vec<Vec<Node>>, n: Node)
    requires
        old(frames)@.len() > 0,
    ensures
        final(frames)@.len() == old(frames)@.len(),
        forall|k: int| 0 <= k < old(frames)@.len() - 1 ==> #[trigger] final(frames)@[k] == old(frames)@[k],
        final(frames)@.last()@ == old(frames)@.last()@.push(n),
{
    let mut top = frames.pop().unwrap();
    top.push(n);
    frames.push(top);
}


pub open spec fn seg_start(starts: Seq<usize>, j: int) -> int {
    if j == 0 { 0 } else { starts[j - 1] + 1 }
}

pub open spec fn seg_end(starts: Seq<usize>, j: int, pos: int) -> int {
    if j < starts.len() { starts[j] as int } else { pos }
}

/// Parses tokens into a program: a list headed by the symbol `do` that
/// holds every top-level form. Fails on a closing delimiter that closes
/// nothing, and on an opening delimiter that is never closed, naming the
/// position of the innermost such one.
pub fn build(tokens: Vec<Token>) -> (r: Result<Node, String>)
    ensures
        ({
            let ts = tokens_view(tokens@);
            &&& !never_negative(ts) ==> (r matches Err(e) && e@ == close_message())
            &&& never_negative(ts) && depth_at(ts, ts.len() as int) > 0 ==> (r matches Err(e) && exists|p: int|
                innermost_unclosed(ts, p) && e@ == open_message(p))
            &&& never_negative(ts) && depth_at(ts, ts.len() as int) == 0 ==> (r matches Ok(n) && program_of(n.view(), ts))
        }),
        r matches Ok(n) ==> is_program(n.view()),
{
    let ghost ts = tokens_view(tokens@);
    let mut frames: Vec<Vec<Node>> = Vec::new();
    frames.push(Vec::new());
    let mut starts: Vec<usize> = Vec::new();
    let mut pos: usize = 0;
    proof {
        assert(views(frames@[0]@) =~= Seq::<NodeView>::empty());
        assert(ts.subrange(0, 0) =~= Seq::<TokenView>::empty());
    }
    while pos < tokens.len()
        invariant
            ts == tokens_view(tokens@),
            pos <= tokens@.len(),
            frames@.len() == starts@.len() + 1,
            depth_at(ts, pos as int) == starts@.len(),
            forall|n: int| 0 <= n <= pos ==> #[trigger] depth_at(ts, n) >= 0,
            forall|k: int|
                0 <= k < starts@.len() ==> #[trigger] starts@[k] < pos && ts[starts@[k] as int] is ParenOpen
                    && depth_at(ts, starts@[k] as int) == k,
            forall|k: int, q: int|
                0 <= k < starts@.len() && #[trigger] starts@[k] < q <= pos ==> #[trigger] depth_at(ts, q) > k,
            forall|k: int, l: int| 0 <= k < l < starts@.len() ==> #[trigger] starts@[k] < #[trigger] starts@[l],
            forall|j: int|
                0 <= j < frames@.len() ==> items_tokens(views(#[trigger] frames@[j]@)) == ts.subrange(
                    seg_start(starts@, j),
                    seg_end(starts@, j, pos as int),
                ) && items_syntax(views(frames@[j]@)),
        decreases tokens@.len() - pos,
    {
        let ghost old_frames = frames@;
        let ghost old_starts = starts@;
        let ghost k0 = starts@.len() as int;
        assert(ts[pos as int] == tokens@[pos as int].view());
        match &tokens[pos] {
            Token::ParenOpen => {
                frames.push(Vec::new());
                starts.push(pos);
                proof {
                    assert(depth_at(ts, pos + 1) == k0 + 1);
                    assert forall|j: int| 0 <= j < frames@.len() implies items_tokens(views(#[trigger] frames@[j]@)) == ts.subrange(
                        seg_start(starts@, j),
                        seg_end(starts@, j, pos + 1),
                    ) && items_syntax(views(frames@[j]@)) by {
                        if j == k0 + 1 {
                            assert(views(frames@[j]@) =~= Seq::<NodeView>::empty());
                            assert(ts.subrange(pos + 1, pos + 1) =~= Seq::<TokenView>::empty());
                        } else {
                            assert(frames@[j] == old_frames[j]);
                            if j < k0 {
                                assert(starts@[j] == old_starts[j]);
                            }
                            if j > 0 {
                                assert(starts@[j - 1] == old_starts[j - 1]);
                            }
                        }
                    }
                    assert forall|k: int, q: int| 0 <= k < starts@.len() && #[trigger] starts@[k] < q <= pos + 1 implies #[trigger] depth_at(ts, q) > k by {
                        if q <= pos {
                            assert(starts@[k] == old_starts[k]);
                        }
                    }
                    assert forall|k: int, l: int| 0 <= k < l < starts@.len() implies #[trigger] starts@[k] < #[trigger] starts@[l] by {
                        if l < k0 {
                            assert(starts@[l] == old_starts[l]);
                        }
                        assert(starts@[k] == old_starts[k]);
                    }
                }
            },
            Token::ParenClose => {
                if starts.len() == 0 {
                    proof {
                        assert(depth_at(ts, pos + 1) < 0);
                    }
                    return Err(String::from_str("found closing parens not matching openning parens"));
                }
                let items = frames.pop().unwrap();
                let s = starts.pop().unwrap();
                let ghost a = seg_start(starts@, k0 - 1);
                proof {
                    assert(old_frames[k0] == items);
                    assert(frames@[k0 - 1] == old_frames[k0 - 1]);
                    lemma_list_view(items);
                    let inner = views(items@);
                    assert(items_tokens(inner) == ts.subrange(s + 1, pos as int));
                    assert(ts[s as int] is ParenOpen);
                    assert(ts[pos as int] is ParenClose);
                    assert(node_tokens(NodeView::List(inner)) =~= ts.subrange(s as int, pos + 1));
                    if k0 - 1 > 0 {
                        assert(old_starts[k0 - 2] < old_starts[k0 - 1]);
                    }
                    assert(items_tokens(views(frames@[k0 - 1]@)) == ts.subrange(a, s as int));
                    assert(ts.subrange(a, s as int) + ts.subrange(s as int, pos + 1) =~= ts.subrange(a, pos + 1));
                    assert(views(frames@[k0 - 1]@.push(Node::List(items))) =~= views(frames@[k0 - 1]@).push(NodeView::List(inner)));
                    lemma_items_push(views(frames@[k0 - 1]@), NodeView::List(inner));
                }
                let ghost before = frames@;
                push_to_last(&mut frames, Node::List(items));
                proof {
                    assert(depth_at(ts, pos + 1) == k0 - 1);
                    assert forall|j: int| 0 <= j < frames@.len() implies items_tokens(views(#[trigger] frames@[j]@)) == ts.subrange(
                        seg_start(starts@, j),
                        seg_end(starts@, j, pos + 1),
                    ) && items_syntax(views(frames@[j]@)) by {
                        if j < k0 - 1 {
                            assert(frames@[j] == before[j]);
                            assert(before[j] == old_frames[j]);
                            assert(starts@[j] == old_starts[j]);
                            if j > 0 {
                                assert(starts@[j - 1] == old_starts[j - 1]);
                            }
                        } else {
                            assert(views(frames@[j]@) =~= views(before[j]@).push(NodeView::List(views(items@))));
                        }
                    }
                    assert forall|k: int, q: int| 0 <= k < starts@.len() && #[trigger] starts@[k] < q <= pos + 1 implies #[trigger] depth_at(ts, q) > k by {
                        assert(starts@[k] == old_starts[k]);
                    }
                    assert forall|k: int, l: int| 0 <= k < l < starts@.len() implies #[trigger] starts@[k] < #[trigger] starts@[l] by {
                        assert(starts@[k] == old_starts[k]);
                        assert(starts@[l] == old_starts[l]);
                    }
                    assert forall|k: int| 0 <= k < starts@.len() implies #[trigger] starts@[k] < pos + 1 && ts[starts@[k] as int] is ParenOpen
                        && depth_at(ts, starts@[k] as int) == k by {
                        assert(starts@[k] == old_starts[k]);
                    }
                }
            },
            t => {
                let leaf = leaf_node(t);
                let ghost lv = leaf.view();
                let ghost before = frames@;
                proof {
                    let a = seg_start(starts@, k0);
                    if k0 > 0 {
                        assert(starts@[k0 - 1] < pos);
                    }
                    assert(ts.subrange(a, pos as int) + seq![ts[pos as int]] =~= ts.subrange(a, pos + 1));
                    assert(views(frames@[k0]@.push(leaf)) =~= views(frames@[k0]@).push(lv));
                    lemma_items_push(views(frames@[k0]@), lv);
                }
                push_to_last(&mut frames, leaf);
                proof {
                    assert(depth_at(ts, pos + 1) == k0);
                    assert forall|j: int| 0 <= j < frames@.len() implies items_tokens(views(#[trigger] frames@[j]@)) == ts.subrange(
                        seg_start(starts@, j),
                        seg_end(starts@, j, pos + 1),
                    ) && items_syntax(views(frames@[j]@)) by {
                        if j < k0 {
                            assert(frames@[j] == before[j]);
                        } else {
                            assert(views(frames@[j]@) =~= views(before[j]@).push(lv));
                        }
                    }
                }
            },
        }
        pos = pos + 1;
    }
    if starts.len() > 0 {
        let p = starts[starts.len() - 1];
        let mut m = String::from_str("unmatched open parens starting at: ");
        push_digits(&mut m, p as u64);
        proof {
            assert(ts.len() == pos);
            assert(never_negative(ts));
            assert(unclosed_open(ts, p as int));
            assert(innermost_unclosed(ts, p as int));
            assert(m@ == open_message(p as int));
        }
        return Err(m);
    }
    let mut forms = frames.pop().unwrap();
    let mut prog: Vec<Node> = Vec::new();
    prog.push(Node::Sym(String::from_str("do")));
    let ghost fs = forms@;
    prog.append(&mut forms);
    proof {
        lemma_list_view(prog);
        assert(views(prog@).drop_first() =~= views(fs));
        assert(ts.subrange(0, pos as int) =~= ts);
        assert(forall|n: int| 0 <= n <= ts.len() ==> #[trigger] depth_at(ts, n) >= 0);
    }
    Ok(Node::List(prog))
}


/// Tokens that close every list they open, and never more than they opened.
pub open spec fn balanced(ts: Seq<TokenView>) -> bool {
    never_negative(ts) && depth_at(ts, ts.len() as int) == 0
}

proof fn lemma_depth_prefix(a: Seq<TokenView>, b: Seq<TokenView>, n: int)
    requires
        0 <= n <= a.len(),
    ensures
        depth_at(a + b, n) == depth_at(a, n),
    decreases n,
{
    if n > 0 {
        lemma_depth_prefix(a, b, n - 1);
        assert((a + b)[n - 1] == a[n - 1]);
    }
}

proof fn lemma_depth_concat(a: Seq<TokenView>, b: Seq<TokenView>, n: int)
    requires
        0 <= n <= b.len(),
    ensures
        depth_at(a + b, a.len() + n) == depth_at(a, a.len() as int) + depth_at(b, n),
    decreases n,
{
    if n == 0 {
        lemma_depth_prefix(a, b, a.len() as int);
    } else {
        lemma_depth_concat(a, b, n - 1);
        assert((a + b)[a.len() + n - 1] == b[n - 1]);
    }
}

proof fn lemma_balanced_concat(a: Seq<TokenView>, b: Seq<TokenView>)
    requires
        balanced(a),
        balanced(b),
    ensures
        balanced(a + b),
{
    assert forall|n: int| 0 <= n <= (a + b).len() implies #[trigger] depth_at(a + b, n) >= 0 by {
        if n <= a.len() {
            lemma_depth_prefix(a, b, n);
        } else {
            lemma_depth_concat(a, b, n - a.len());
            assert(depth_at(b, n - a.len()) >= 0);
        }
    }
    lemma_depth_concat(a, b, b.len() as int);
}

proof fn lemma_balanced_wrap(x: Seq<TokenView>)
    requires
        balanced(x),
    ensures
        balanced(seq![TokenView::ParenOpen] + x + seq![TokenView::ParenClose]),
{
    let o = seq![TokenView::ParenOpen];
    let c = seq![TokenView::ParenClose];
    let w = o + x + c;
    assert(depth_at(o, 0) == 0);
    assert(o[0] == TokenView::ParenOpen);
    assert(depth_at(o, 1) == 1);
    assert(depth_at(c, 0) == 0);
    assert(c[0] == TokenView::ParenClose);
    assert(depth_at(c, 1) == -1);
    assert forall|n: int| 0 <= n <= w.len() implies #[trigger] depth_at(w, n) >= 0 by {
        if n == 0 {
        } else if n <= x.len() + 1 {
            lemma_depth_prefix(o + x, c, n);
            lemma_depth_concat(o, x, n - 1);
            assert(depth_at(x, n - 1) >= 0);
        } else {
            lemma_depth_concat(o, x, x.len() as int);
            lemma_depth_concat(o + x, c, 1);
        }
    }
    lemma_depth_concat(o, x, x.len() as int);
    lemma_depth_concat(o + x, c, 1);
}

proof fn lemma_node_balanced(v: NodeView)
    requires
        is_syntax(v),
    ensures
        balanced(node_tokens(v)),
    decreases v,
{
    match v {
        NodeView::List(items) => {
            lemma_items_balanced(items);
            lemma_balanced_wrap(items_tokens(items));
        },
        _ => {
            let t = node_tokens(v);
            assert(t.len() == 1);
            assert(delim_step(t[0]) == 0);
            assert(depth_at(t, 0) == 0);
            assert(depth_at(t, 1) == 0);
            assert forall|n: int| 0 <= n <= t.len() implies #[trigger] depth_at(t, n) >= 0 by {
                if n == 1 {
                    assert(depth_at(t, 1) == 0);
                }
            }
        },
    }
}

proof fn lemma_items_balanced(items: Seq<NodeView>)
    requires
        items_syntax(items),
    ensures
        balanced(items_tokens(items)),
    decreases items,
{
    if items.len() == 0 {
        assert(depth_at(Seq::<TokenView>::empty(), 0) == 0);
    } else {
        assert(decreases_to!(items => items.subrange(0, items.len() - 1)));
        lemma_items_balanced(items.drop_last());
        lemma_node_balanced(items.last());
        lemma_balanced_concat(items_tokens(items.drop_last()), node_tokens(items.last()));
    }
}

/// The tokens that spell out any forms free of errors and built-ins close
/// every list they open and never close more than they opened, so `build`
/// owes `Ok` on them, with a program whose forms spell them out again.
pub proof fn lemma_spelled_forms_parse(forms: Seq<NodeView>)
    requires
        items_syntax(forms),
    ensures
        never_negative(items_tokens(forms)),
        depth_at(items_tokens(forms), items_tokens(forms).len() as int) == 0,
{
    lemma_items_balanced(forms);
}


/// Tokens of a list or leaf: every proper nonempty prefix is still open.
pub open spec fn primitive(t: Seq<TokenView>) -> bool {
    &&& t.len() >= 1
    &&& depth_at(t, t.len() as int) == 0
    &&& forall|n: int| 0 < n < t.len() ==> #[trigger] depth_at(t, n) > 0
}

proof fn lemma_items_front(items: Seq<NodeView>)
    requires
        items.len() >= 1,
    ensures
        items_tokens(items) == node_tokens(items[0]) + items_tokens(items.drop_first()),
        items_syntax(items) == (is_syntax(items[0]) && items_syntax(items.drop_first())),
    decreases items.len(),
{
    if items.len() == 1 {
        assert(items.drop_last() =~= Seq::<NodeView>::empty());
        assert(items.drop_first() =~= Seq::<NodeView>::empty());
        assert(node_tokens(items[0]) + Seq::<TokenView>::empty() =~= node_tokens(items[0]));
    } else {
        let d = items.drop_last();
        lemma_items_front(d);
        assert(d.drop_first() =~= items.drop_first().drop_last());
        assert(items.drop_first().last() == items.last());
        assert(d[0] == items[0]);
        assert(node_tokens(items[0]) + items_tokens(d.drop_first()) + node_tokens(items.last()) =~= node_tokens(items[0])
            + (items_tokens(d.drop_first()) + node_tokens(items.last())));
    }
}

proof fn lemma_node_primitive(v: NodeView)
    requires
        is_syntax(v),
    ensures
        primitive(node_tokens(v)),
    decreases v,
{
    lemma_node_balanced(v);
    if let NodeView::List(items) = v {
        let x = items_tokens(items);
        lemma_items_balanced(items);
        let o = seq![TokenView::ParenOpen];
        let c = seq![TokenView::ParenClose];
        assert(depth_at(o, 0) == 0);
        assert(o[0] == TokenView::ParenOpen);
        assert(depth_at(o, 1) == 1);
        assert forall|n: int| 0 < n < node_tokens(v).len() implies #[trigger] depth_at(node_tokens(v), n) > 0 by {
            lemma_depth_prefix(o + x, c, n);
            lemma_depth_concat(o, x, n - 1);
            assert(depth_at(x, n - 1) >= 0);
        }
    } else {
        assert(node_tokens(v).len() == 1);
    }
}

/// A primitive run of tokens ends at the first later point at depth zero.
proof fn lemma_primitive_first_zero(p: Seq<TokenView>, r: Seq<TokenView>, q: Seq<TokenView>, s: Seq<TokenView>)
    requires
        primitive(p),
        primitive(q),
        p + r == q + s,
    ensures
        p.len() == q.len(),
{
    if p.len() < q.len() {
        lemma_depth_prefix(p, r, p.len() as int);
        lemma_depth_prefix(q, s, p.len() as int);
        assert(depth_at(q, p.len() as int) > 0);
    } else if q.len() < p.len() {
        lemma_depth_prefix(p, r, q.len() as int);
        lemma_depth_prefix(q, s, q.len() as int);
        assert(depth_at(p, q.len() as int) > 0);
    }
}

proof fn lemma_node_tokens_injective(v: NodeView, w: NodeView)
    requires
        is_syntax(v),
        is_syntax(w),
        node_tokens(v) == node_tokens(w),
    ensures
        v == w,
    decreases v,
{
    let t = node_tokens(v);
    if let NodeView::List(xs) = v {
        assert(t[0] == TokenView::ParenOpen);
        assert(w is List);
        let ys = w->List_0;
        let x = items_tokens(xs);
        let y = items_tokens(ys);
        assert(x =~= t.subrange(1, t.len() - 1));
        assert(y =~= t.subrange(1, t.len() - 1));
        lemma_items_tokens_injective(xs, ys);
    } else {
        assert(t[0] == node_tokens(w)[0]);
        assert(!(w is List));
    }
}

proof fn lemma_items_tokens_injective(xs: Seq<NodeView>, ys: Seq<NodeView>)
    requires
        items_syntax(xs),
        items_syntax(ys),
        items_tokens(xs) == items_tokens(ys),
    ensures
        xs == ys,
    decreases xs,
{
    if xs.len() == 0 && ys.len() == 0 {
        assert(xs =~= ys);
    } else if xs.len() == 0 || ys.len() == 0 {
        if xs.len() > 0 {
            lemma_items_front(xs);
            lemma_node_primitive(xs[0]);
        } else {
            lemma_items_front(ys);
            lemma_node_primitive(ys[0]);
        }
    } else {
        lemma_items_front(xs);
        lemma_items_front(ys);
        lemma_node_primitive(xs[0]);
        lemma_node_primitive(ys[0]);
        let p = node_tokens(xs[0]);
        let q = node_tokens(ys[0]);
        let r = items_tokens(xs.drop_first());
        let s = items_tokens(ys.drop_first());
        lemma_primitive_first_zero(p, r, q, s);
        assert(p =~= (p + r).subrange(0, p.len() as int));
        assert(q =~= (q + s).subrange(0, q.len() as int));
        assert(r =~= (p + r).subrange(p.len() as int, (p + r).len() as int));
        assert(s =~= (q + s).subrange(q.len() as int, (q + s).len() as int));
        assert(decreases_to!(xs => xs[0]));
        lemma_node_tokens_injective(xs[0], ys[0]);
        assert(decreases_to!(xs => xs.subrange(1, xs.len() as int)));
        assert(xs.drop_first() =~= xs.subrange(1, xs.len() as int));
        lemma_items_tokens_injective(xs.drop_first(), ys.drop_first());
        assert(xs =~= seq![xs[0]] + xs.drop_first());
        assert(ys =~= seq![ys[0]] + ys.drop_first());
    }
}

/// Tokens spell out at most one program: two programs whose forms spell
/// out the same tokens are the same program. With `build`'s contract, the
/// program built from the tokens of any forms is those forms under `do`.
pub proof fn lemma_program_unique(v: NodeView, w: NodeView, ts: Seq<TokenView>)
    requires
        program_of(v, ts),
        program_of(w, ts),
    ensures
        v == w,
{
    let xs = v->List_0;
    let ys = w->List_0;
    lemma_items_tokens_injective(xs.drop_first(), ys.drop_first());
    assert(xs =~= seq![xs[0]] + xs.drop_first());
    assert(ys =~= seq![ys[0]] + ys.drop_first());
}

} // verus!
