use crate::frontend::{
    copy_expr, lemma_nodes_of_add, lemma_nodes_of_empty, lemma_nodes_of_index,
    lemma_nodes_of_push, node_of, nodes_of, Expr, Node,
};
use crate::machine::wadd;
use vstd::prelude::*;

verus! {

/// A run is straight when no loop stands in it.
pub open spec fn straight(run: Seq<Node>) -> bool {
    forall|i: int| 0 <= i < run.len() ==> !(#[trigger] run[i] is Loop)
}

/// The nodes that address a cell.
pub open spec fn addresses_cell(e: Node) -> bool {
    e is Add || e is Out || e is In || e is Clear || e is Mul
}

/// `e` with its offset counted from a pointer that lies `d` further back.
pub open spec fn shifted(e: Node, d: isize) -> Node {
    match e {
        Node::Add(count, offset) => Node::Add(count, wadd(d, offset)),
        Node::Out(offset) => Node::Out(wadd(d, offset)),
        Node::In(offset) => Node::In(wadd(d, offset)),
        Node::Clear(offset) => Node::Clear(wadd(d, offset)),
        Node::Mul(count, index, offset) => Node::Mul(count, index, wadd(d, offset)),
        other => other,
    }
}

/// The sum of all pointer moves of a run.
pub open spec fn displacement(run: Seq<Node>) -> isize
    decreases run.len(),
{
    if run.len() == 0 {
        0
    } else {
        let d = displacement(run.drop_last());
        match run.last() {
            Node::Move(offset) => wadd(d, offset),
            _ => d,
        }
    }
}

/// The cell operations of a run, in order, each addressed from the pointer at
/// which the run starts.
pub open spec fn resolved(run: Seq<Node>) -> Seq<Node>
    decreases run.len(),
{
    if run.len() == 0 {
        Seq::empty()
    } else {
        let before = run.drop_last();
        if addresses_cell(run.last()) {
            resolved(before).push(shifted(run.last(), displacement(before)))
        } else {
            resolved(before)
        }
    }
}

/// The resolved operations of a run, followed by its one move if it has any.
pub open spec fn compacted(run: Seq<Node>) -> Seq<Node> {
    let d = displacement(run);
    if d != 0 {
        resolved(run).push(Node::Move(d))
    } else {
        resolved(run)
    }
}

/// A straight run after lazy-move coalescing: its compacted form, filled up
/// with `Nop` to the length it had.
pub open spec fn coalesced(run: Seq<Node>) -> Seq<Node> {
    let head = compacted(run);
    head + nops((run.len() - head.len()) as nat)
}

/// `n` times `Nop`.
pub open spec fn nops(n: nat) -> Seq<Node> {
    Seq::new(n, |i: int| Node::Nop)
}

/// An `Add` on the cell at the pointer, which is the counter of a loop.
pub open spec fn on_counter(e: Node) -> bool {
    e matches Node::Add(_, offset) && offset == 0
}

/// The shape of a loop that multiplies: nothing but `Add` and `Nop`, and exactly
/// one `Add` on the counter cell, which takes one off it.
pub open spec fn multiplies(body: Seq<Node>) -> bool {
    &&& forall|i: int| 0 <= i < body.len() ==> (#[trigger] body[i] is Add || body[i] is Nop)
    &&& exists|k: int|
        {
            &&& 0 <= k < body.len()
            &&& #[trigger] body[k] matches Node::Add(count, offset)
            &&& count == -1
            &&& offset == 0
            &&& forall|j: int| 0 <= j < body.len() && j != k ==> !on_counter(#[trigger] body[j])
        }
}

/// One `Mul` for every `Add` of the body that is not on the counter cell.
pub open spec fn products(body: Seq<Node>) -> Seq<Node>
    decreases body.len(),
{
    if body.len() == 0 {
        Seq::empty()
    } else {
        match body.last() {
            Node::Add(count, offset) if offset != 0 => products(body.drop_last()).push(
                Node::Mul(count, offset, 0),
            ),
            _ => products(body.drop_last()),
        }
    }
}

/// What stands in place of a multiplying loop: its products, then the counter cleared.
pub open spec fn multiplication(body: Seq<Node>) -> Seq<Node> {
    products(body).push(Node::Clear(0))
}

/// The straight run that follows the last loop of `prog`.
pub open spec fn pending(prog: Seq<Node>) -> Seq<Node>
    decreases prog.len(),
{
    if prog.len() == 0 {
        Seq::empty()
    } else if prog.last() is Loop {
        Seq::empty()
    } else {
        pending(prog.drop_last()).push(prog.last())
    }
}

/// `prog` up to its last loop, every straight run in it coalesced.
pub open spec fn settled(prog: Seq<Node>) -> Seq<Node>
    decreases prog.len(),
{
    if prog.len() == 0 {
        Seq::empty()
    } else if prog.last() is Loop {
        (settled(prog.drop_last()) + coalesced(pending(prog.drop_last()))).push(prog.last())
    } else {
        settled(prog.drop_last())
    }
}

/// `prog` with every maximal straight run coalesced. Loops bound the runs and stay.
pub open spec fn coalesced_runs(prog: Seq<Node>) -> Seq<Node> {
    settled(prog) + coalesced(pending(prog))
}

/// What the optimizer makes of one node: a loop has its body optimized and, if
/// it then multiplies, gives way to its multiplication; any other node stays.
pub open spec fn expanded_one(e: Node) -> Seq<Node>
    decreases e, 0nat, 0nat,
{
    match e {
        Node::Loop(body) => {
            let inner = optimized(body);
            if multiplies(inner) {
                multiplication(inner)
            } else {
                seq![Node::Loop(inner)]
            }
        },
        _ => seq![e],
    }
}

/// The first `n` nodes of `prog`, each expanded.
pub open spec fn expanded(prog: Seq<Node>, n: nat) -> Seq<Node>
    decreases prog, 0nat, n,
{
    if n == 0 || n > prog.len() {
        Seq::empty()
    } else {
        expanded(prog, (n - 1) as nat) + expanded_one(prog[n - 1])
    }
}

/// The optimized program: every node expanded, bottom-up, then every straight
/// run coalesced.
pub open spec fn optimized(prog: Seq<Node>) -> Seq<Node>
    decreases prog, 1nat, 0nat,
{
    coalesced_runs(expanded(prog, prog.len()))
}

/// A compacted run is no longer than the run: every move that counts has left a slot free.
pub proof fn lemma_compacted_fits(run: Seq<Node>)
    ensures
        resolved(run).len() <= run.len(),
        displacement(run) != 0 ==> resolved(run).len() < run.len(),
        compacted(run).len() <= run.len(),
    decreases run.len(),
{
    if run.len() > 0 {
        lemma_compacted_fits(run.drop_last());
    }
}

/// No loop stands in the run that follows the last loop.
pub proof fn lemma_pending_straight(prog: Seq<Node>)
    ensures
        straight(pending(prog)),
    decreases prog.len(),
{
    if prog.len() > 0 {
        lemma_pending_straight(prog.drop_last());
    }
}

/// A straight run put behind a program only makes its pending run longer.
pub proof fn lemma_append_straight(prog: Seq<Node>, run: Seq<Node>)
    requires
        straight(run),
    ensures
        pending(prog + run) == pending(prog) + run,
        settled(prog + run) == settled(prog),
    decreases run.len(),
{
    if run.len() == 0 {
        assert(prog + run =~= prog);
        assert(pending(prog) + run =~= pending(prog));
    } else {
        let shorter = run.drop_last();
        assert(straight(shorter));
        lemma_append_straight(prog, shorter);
        assert((prog + run).drop_last() =~= prog + shorter);
        assert((prog + run).last() == run.last());
        assert(!(run[run.len() - 1] is Loop));
        assert((pending(prog) + shorter).push(run.last()) =~= pending(prog) + run);
    }
}

/// A multiplication is a straight run.
pub proof fn lemma_multiplication_straight(body: Seq<Node>)
    ensures
        straight(products(body)),
        straight(multiplication(body)),
    decreases body.len(),
{
    if body.len() > 0 {
        lemma_multiplication_straight(body.drop_last());
    }
}

/// Rewrites intermediate representation into a cheaper form that does the same.
pub struct Optimizer {}

impl Optimizer {
    /// An optimizer. It keeps nothing between two calls.
    pub fn new() -> (optimizer: Self) {
        Self {}
    }

    /// Lazy-move coalescing of one straight run, in place: the moves are summed
    /// up, every cell operation is addressed from the pointer at which the run
    /// starts, one move for the whole run follows them, and `Nop` fills the rest.
    pub fn optimize_lazy_move(&mut self, commands: &mut Vec<Expr>)
        requires
            straight(nodes_of(old(commands)@)),
        ensures
            nodes_of(final(commands)@) == coalesced(nodes_of(old(commands)@)),
    {
        let n = commands.len();
        let ghost run = nodes_of(commands@);
        let mut out: Vec<Expr> = Vec::new();
        let mut current_offset: isize = 0;
        let mut i: usize = 0;
        proof {
            lemma_nodes_of_empty();
            assert(run.take(0) =~= Seq::<Node>::empty());
        }
        while i < n
            invariant
                i <= n,
                n == commands.len(),
                run == nodes_of(commands@),
                straight(run),
                nodes_of(out@) == resolved(run.take(i as int)),
                current_offset == displacement(run.take(i as int)),
            decreases n - i,
        {
            proof {
                reveal(wadd);
                lemma_nodes_of_index(commands@, i as int);
                assert(run.take(i + 1).drop_last() =~= run.take(i as int));
                assert(run.take(i + 1).last() == run[i as int]);
            }
            let ghost before = out@;
            match &commands[i] {
                Expr::Move(offset) => {
                    current_offset = current_offset.wrapping_add(*offset);
                },
                Expr::Add(count, offset) => {
                    let e = Expr::Add(*count, current_offset.wrapping_add(*offset));
                    proof {
                        lemma_nodes_of_push(before, e);
                    }
                    out.push(e);
                },
                Expr::Out(offset) => {
                    let e = Expr::Out(current_offset.wrapping_add(*offset));
                    proof {
                        lemma_nodes_of_push(before, e);
                    }
                    out.push(e);
                },
                Expr::In(offset) => {
                    let e = Expr::In(current_offset.wrapping_add(*offset));
                    proof {
                        lemma_nodes_of_push(before, e);
                    }
                    out.push(e);
                },
                Expr::Clear(offset) => {
                    let e = Expr::Clear(current_offset.wrapping_add(*offset));
                    proof {
                        lemma_nodes_of_push(before, e);
                    }
                    out.push(e);
                },
                Expr::Mul(count, index, offset) => {
                    let e = Expr::Mul(*count, *index, current_offset.wrapping_add(*offset));
                    proof {
                        lemma_nodes_of_push(before, e);
                    }
                    out.push(e);
                },
                Expr::Nop => {},
                Expr::Loop(_) => {},
            }
            i += 1;
        }
        proof {
            assert(run.take(n as int) =~= run);
            lemma_compacted_fits(run);
            lemma_nodes_of_index(commands@, 0);
        }
        if current_offset != 0 {
            let e = Expr::Move(current_offset);
            proof {
                lemma_nodes_of_push(out@, e);
            }
            out.push(e);
        }
        let ghost head = compacted(run);
        assert(nodes_of(out@) =~= head + nops(0));
        while out.len() < n
            invariant
                head.len() <= out.len() <= n,
                nodes_of(out@) == head + nops((out.len() - head.len()) as nat),
            decreases n - out.len(),
        {
            proof {
                lemma_nodes_of_push(out@, Expr::Nop);
                assert(nodes_of(out@).push(Node::Nop) =~= head + nops(
                    (out.len() + 1 - head.len()) as nat,
                ));
            }
            out.push(Expr::Nop);
        }
        *commands = out;
    }

    /// Whether a loop with this body multiplies: see [`multiplies`].
    pub fn can_convert_to_multiplication(&mut self, commands: &[Expr]) -> (yes: bool)
        ensures
            yes == multiplies(nodes_of(commands@)),
    {
        let n = commands.len();
        let ghost body = nodes_of(commands@);
        let mut found = false;
        let ghost mut k: int = 0;
        let mut i: usize = 0;
        proof {
            lemma_nodes_of_index(commands@, 0);
        }
        while i < n
            invariant
                i <= n,
                n == commands.len(),
                body == nodes_of(commands@),
                body.len() == n,
                forall|j: int| 0 <= j < i ==> (#[trigger] body[j] is Add || body[j] is Nop),
                found ==> 0 <= k < i && body[k] == Node::Add(-1i32, 0isize),
                forall|j: int| 0 <= j < i && !(found && j == k) ==> !on_counter(#[trigger] body[j]),
            decreases n - i,
        {
            proof {
                lemma_nodes_of_index(commands@, i as int);
            }
            match &commands[i] {
                Expr::Add(count, offset) => {
                    if *offset == 0 {
                        if found || *count != -1 {
                            return false;
                        }
                        found = true;
                        proof {
                            k = i as int;
                        }
                    }
                },
                Expr::Nop => {},
                _ => {
                    return false;
                },
            }
            i += 1;
        }
        found
    }

    /// The straight run that does at once what a multiplying loop does round by
    /// round: one `Mul` for each `Add` off the counter cell, then the counter cleared.
    pub fn optimize_multiplication(&mut self, commands: &[Expr]) -> (new: Vec<Expr>)
        ensures
            nodes_of(new@) == multiplication(nodes_of(commands@)),
    {
        let n = commands.len();
        let ghost body = nodes_of(commands@);
        let mut new: Vec<Expr> = Vec::new();
        let mut i: usize = 0;
        proof {
            lemma_nodes_of_empty();
            assert(body.take(0) =~= Seq::<Node>::empty());
        }
        while i < n
            invariant
                i <= n,
                n == commands.len(),
                body == nodes_of(commands@),
                nodes_of(new@) == products(body.take(i as int)),
            decreases n - i,
        {
            proof {
                lemma_nodes_of_index(commands@, i as int);
                assert(body.take(i + 1).drop_last() =~= body.take(i as int));
                assert(body.take(i + 1).last() == body[i as int]);
            }
            match &commands[i] {
                Expr::Add(count, offset) => {
                    if *offset != 0 {
                        let e = Expr::Mul(*count, *offset, 0);
                        proof {
                            lemma_nodes_of_push(new@, e);
                        }
                        new.push(e);
                    }
                },
                _ => {},
            }
            i += 1;
        }
        proof {
            assert(body.take(n as int) =~= body);
            lemma_nodes_of_push(new@, Expr::Clear(0));
        }
        new.push(Expr::Clear(0));
        new
    }

    /// Optimizes a program: loops are optimized from the inside out, a loop
    /// that then multiplies gives way to its multiplication, and every straight
    /// run is coalesced. The result does what the program does, and has no
    /// more nodes.
    pub fn optimize(&mut self, commands: Vec<Expr>) -> (result: Vec<Expr>)
        ensures
            nodes_of(result@) == optimized(nodes_of(commands@)),
            crate::soundness::equivalent(nodes_of(commands@), nodes_of(result@)),
            crate::stability::size_of(nodes_of(result@)) <= crate::stability::size_of(
                nodes_of(commands@),
            ),
    {
        proof {
            crate::soundness::theorem_optimized_equivalent(nodes_of(commands@));
            crate::stability::lemma_optimized_no_larger(nodes_of(commands@));
        }
        self.optimize_all(&commands)
    }

    fn optimize_all(&mut self, commands: &Vec<Expr>) -> (result: Vec<Expr>)
        ensures
            nodes_of(result@) == optimized(nodes_of(commands@)),
        decreases commands,
    {
        let n = commands.len();
        let ghost prog = nodes_of(commands@);
        let mut done: Vec<Expr> = Vec::new();
        let mut run: Vec<Expr> = Vec::new();
        let mut i: usize = 0;
        proof {
            lemma_nodes_of_empty();
            lemma_nodes_of_index(commands@, 0);
        }
        while i < n
            invariant
                i <= n,
                n == commands.len(),
                prog == nodes_of(commands@),
                prog.len() == n,
                nodes_of(done@) == settled(expanded(prog, i as nat)),
                nodes_of(run@) == pending(expanded(prog, i as nat)),
            decreases n - i,
        {
            let ghost so_far = expanded(prog, i as nat);
            proof {
                lemma_nodes_of_index(commands@, i as int);
                lemma_pending_straight(so_far);
                assert(expanded(prog, (i + 1) as nat) == so_far + expanded_one(prog[i as int]));
            }
            match &commands[i] {
                Expr::Loop(children) => {
                    let inner = self.optimize_all(children);
                    if self.can_convert_to_multiplication(inner.as_slice()) {
                        let mut block = self.optimize_multiplication(inner.as_slice());
                        proof {
                            lemma_multiplication_straight(nodes_of(inner@));
                            lemma_append_straight(so_far, nodes_of(block@));
                            lemma_nodes_of_add(run@, block@);
                        }
                        run.append(&mut block);
                    } else {
                        let ghost kept = Expr::Loop(inner);
                        self.optimize_lazy_move(&mut run);
                        proof {
                            lemma_nodes_of_add(done@, run@);
                            lemma_nodes_of_push(done@ + run@, kept);
                            assert(so_far + seq![node_of(kept)] =~= so_far.push(node_of(kept)));
                            assert(so_far.push(node_of(kept)).drop_last() =~= so_far);
                        }
                        done.append(&mut run);
                        done.push(Expr::Loop(inner));
                    }
                },
                other => {
                    let e = copy_expr(other);
                    proof {
                        lemma_nodes_of_push(run@, e);
                        lemma_append_straight(so_far, seq![node_of(e)]);
                        assert(pending(so_far) + seq![node_of(e)] =~= pending(so_far).push(
                            node_of(e),
                        ));
                    }
                    run.push(e);
                },
            }
            i += 1;
        }
        proof {
            lemma_pending_straight(expanded(prog, n as nat));
        }
        self.optimize_lazy_move(&mut run);
        proof {
            lemma_nodes_of_add(done@, run@);
        }
        done.append(&mut run);
        done
    }
}

} // verus!
