use vstd::prelude::*;

verus! {

/// One node of the intermediate representation.
///
/// Every offset is relative to the pointer, which only `Move` changes.
#[derive(Debug)]
pub enum Expr {
    /// `Add(count, offset)`: the cell at pointer + offset grows by `count`, wrapping.
    Add(i32, isize),
    /// `Move(offset)`: the pointer grows by `offset`.
    Move(isize),
    /// `Out(offset)`: the cell at pointer + offset goes to the output routine.
    Out(isize),
    /// `In(offset)`: what the input routine returns is stored at pointer + offset.
    In(isize),
    /// `Loop(body)`: `body` runs as long as the cell at the pointer is not zero.
    Loop(Vec<Expr>),
    /// `Clear(offset)`: the cell at pointer + offset becomes zero.
    Clear(isize),
    /// `Mul(count, index, offset)`: the cell at pointer + index + offset grows by
    /// `count` times the cell at pointer + offset. Only the optimizer makes it.
    Mul(i32, isize, isize),
    /// Nothing. Left behind where a rewrite emptied a slot.
    Nop,
}

/// The mathematical value of an [`Expr`]: the same tree over sequences.
pub enum Node {
    Add(i32, isize),
    Move(isize),
    Out(isize),
    In(isize),
    Loop(Seq<Node>),
    Clear(isize),
    Mul(i32, isize, isize),
    Nop,
}

/// The tree that `e` stands for.
pub open spec fn node_of(e: Expr) -> Node
    decreases e, 0nat,
{
    match e {
        Expr::Add(c, o) => Node::Add(c, o),
        Expr::Move(o) => Node::Move(o),
        Expr::Out(o) => Node::Out(o),
        Expr::In(o) => Node::In(o),
        Expr::Loop(body) => Node::Loop(nodes_of(body@)),
        Expr::Clear(o) => Node::Clear(o),
        Expr::Mul(c, i, o) => Node::Mul(c, i, o),
        Expr::Nop => Node::Nop,
    }
}

/// The trees that a sequence of expressions stands for, in order.
pub open spec fn nodes_of(es: Seq<Expr>) -> Seq<Node>
    decreases es, 1nat,
{
    Seq::new(
        es.len(),
        |i: int|
            if 0 <= i < es.len() {
                node_of(es[i])
            } else {
                Node::Nop
            },
    )
}

/// `nodes_of` goes through a sequence element by element.
pub proof fn lemma_nodes_of_index(es: Seq<Expr>, i: int)
    ensures
        nodes_of(es).len() == es.len(),
        0 <= i < es.len() ==> nodes_of(es)[i] == node_of(es[i]),
{
}

/// `nodes_of` goes through a push.
pub proof fn lemma_nodes_of_push(es: Seq<Expr>, e: Expr)
    ensures
        nodes_of(es.push(e)) == nodes_of(es).push(node_of(e)),
{
    assert(nodes_of(es.push(e)) =~= nodes_of(es).push(node_of(e)));
}

/// `nodes_of` goes through a concatenation.
pub proof fn lemma_nodes_of_add(a: Seq<Expr>, b: Seq<Expr>)
    ensures
        nodes_of(a + b) == nodes_of(a) + nodes_of(b),
{
    assert(nodes_of(a + b) =~= nodes_of(a) + nodes_of(b));
}

/// No expressions stand for no nodes.
pub proof fn lemma_nodes_of_empty()
    ensures
        nodes_of(Seq::<Expr>::empty()) == Seq::<Node>::empty(),
{
    assert(nodes_of(Seq::<Expr>::empty()) =~= Seq::<Node>::empty());
}

/// Whether two expressions stand for the same tree.
pub fn same_expr(a: &Expr, b: &Expr) -> (same: bool)
    ensures
        same == (node_of(*a) == node_of(*b)),
    decreases a,
{
    match (a, b) {
        (Expr::Add(c1, o1), Expr::Add(c2, o2)) => *c1 == *c2 && *o1 == *o2,
        (Expr::Move(o1), Expr::Move(o2)) => *o1 == *o2,
        (Expr::Out(o1), Expr::Out(o2)) => *o1 == *o2,
        (Expr::In(o1), Expr::In(o2)) => *o1 == *o2,
        (Expr::Loop(b1), Expr::Loop(b2)) => same_exprs(b1, b2),
        (Expr::Clear(o1), Expr::Clear(o2)) => *o1 == *o2,
        (Expr::Mul(c1, i1, o1), Expr::Mul(c2, i2, o2)) => *c1 == *c2 && *i1 == *i2 && *o1 == *o2,
        (Expr::Nop, Expr::Nop) => true,
        _ => false,
    }
}

/// Whether two sequences of expressions stand for the same trees.
pub fn same_exprs(a: &Vec<Expr>, b: &Vec<Expr>) -> (same: bool)
    ensures
        same == (nodes_of(a@) == nodes_of(b@)),
    decreases a,
{
    if a.len() != b.len() {
        proof {
            lemma_nodes_of_index(a@, 0);
            lemma_nodes_of_index(b@, 0);
        }
        return false;
    }
    let n = a.len();
    let mut i: usize = 0;
    while i < n
        invariant
            i <= n,
            n == a.len(),
            n == b.len(),
            forall|j: int| 0 <= j < i ==> node_of(#[trigger] a@[j]) == node_of(b@[j]),
        decreases n - i,
    {
        if !same_expr(&a[i], &b[i]) {
            proof {
                lemma_nodes_of_index(a@, i as int);
                lemma_nodes_of_index(b@, i as int);
            }
            return false;
        }
        i += 1;
    }
    proof {
        assert(nodes_of(a@) =~= nodes_of(b@));
    }
    true
}

/// A copy of `e`.
pub fn copy_expr(e: &Expr) -> (copy: Expr)
    ensures
        node_of(copy) == node_of(*e),
    decreases e,
{
    match e {
        Expr::Add(c, o) => Expr::Add(*c, *o),
        Expr::Move(o) => Expr::Move(*o),
        Expr::Out(o) => Expr::Out(*o),
        Expr::In(o) => Expr::In(*o),
        Expr::Loop(body) => Expr::Loop(copy_exprs(body)),
        Expr::Clear(o) => Expr::Clear(*o),
        Expr::Mul(c, i, o) => Expr::Mul(*c, *i, *o),
        Expr::Nop => Expr::Nop,
    }
}

/// Copies of the expressions of `es`, in order.
pub fn copy_exprs(es: &Vec<Expr>) -> (copy: Vec<Expr>)
    ensures
        nodes_of(copy@) == nodes_of(es@),
    decreases es,
{
    let n = es.len();
    let mut copy: Vec<Expr> = Vec::new();
    let mut i: usize = 0;
    while i < n
        invariant
            i <= n,
            n == es@.len(),
            copy@.len() == i,
            forall|j: int| 0 <= j < i ==> node_of(#[trigger] copy@[j]) == node_of(es@[j]),
        decreases n - i,
    {
        copy.push(copy_expr(&es[i]));
        i += 1;
    }
    proof {
        assert(nodes_of(copy@) =~= nodes_of(es@));
    }
    copy
}

impl Clone for Expr {
    fn clone(&self) -> (copy: Self)
        ensures
            node_of(copy) == node_of(*self),
    {
        copy_expr(self)
    }
}

impl PartialEq for Expr {
    fn eq(&self, other: &Self) -> (same: bool) {
        same_expr(self, other)
    }
}

impl vstd::std_specs::cmp::PartialEqSpecImpl for Expr {
    open spec fn obeys_eq_spec() -> bool {
        true
    }

    open spec fn eq_spec(&self, other: &Self) -> bool {
        node_of(*self) == node_of(*other)
    }
}

impl Eq for Expr {

}

impl View for Expr {
    type V = Node;

    open spec fn view(&self) -> Node {
        node_of(*self)
    }
}

} // verus!
