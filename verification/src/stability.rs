use crate::frontend::Node;
use crate::optimizer::{
    coalesced, coalesced_runs, compacted, expanded, expanded_one, lemma_append_straight,
    lemma_compacted_fits, lemma_multiplication_straight, lemma_pending_straight, multiplication,
    multiplies, nops, optimized, pending, products, resolved, settled, straight,
};
use crate::soundness::{lemma_coalescing_idempotent, lemma_resolved_straight};
use vstd::prelude::*;

verus! {

/// A coalesced straight run is straight.
pub proof fn lemma_coalesced_straight(run: Seq<Node>)
    requires
        straight(run),
    ensures
        straight(coalesced(run)),
        coalesced(run).len() == run.len(),
{
    lemma_compacted_fits(run);
    lemma_resolved_straight(run);
    let head = compacted(run);
    let all = coalesced(run);
    assert forall|i: int| 0 <= i < all.len() implies !(#[trigger] all[i] is Loop) by {
        if i < head.len() {
            assert(all[i] == head[i]);
        } else {
            assert(all[i] == nops((run.len() - head.len()) as nat)[i - head.len()]);
        }
    }
}

/// What is settled of a program ends with a loop, if it is not empty: no run
/// is pending behind it.
pub proof fn lemma_nothing_pending_when_settled(prog: Seq<Node>)
    ensures
        pending(settled(prog)) == Seq::<Node>::empty(),
    decreases prog.len(),
{
    if prog.len() > 0 && !(prog.last() is Loop) {
        lemma_nothing_pending_when_settled(prog.drop_last());
    }
}

/// Coalescing the runs of a program is idempotent.
pub proof fn lemma_coalesced_runs_idempotent(prog: Seq<Node>)
    ensures
        coalesced_runs(coalesced_runs(prog)) == coalesced_runs(prog),
        settled(settled(prog)) == settled(prog),
    decreases prog.len(),
{
    let done = settled(prog);
    let run = coalesced(pending(prog));
    if prog.len() > 0 {
        let before = prog.drop_last();
        lemma_coalesced_runs_idempotent(before);
        if prog.last() is Loop {
            assert(done.drop_last() =~= coalesced_runs(before));
        }
    }
    lemma_pending_straight(prog);
    lemma_coalesced_straight(pending(prog));
    lemma_nothing_pending_when_settled(prog);
    lemma_append_straight(done, run);
    lemma_coalescing_idempotent(pending(prog));
    assert(Seq::<Node>::empty() + run =~= run);
}

/// A loop whose body the optimizer leaves as it is, and which does not multiply.
pub open spec fn at_rest(e: Node) -> bool {
    e matches Node::Loop(body) ==> optimized(body) == body && !multiplies(body)
}

/// A program in which every loop is at rest.
pub open spec fn all_at_rest(prog: Seq<Node>) -> bool {
    forall|i: int| 0 <= i < prog.len() ==> at_rest(#[trigger] prog[i])
}

/// Coalescing the runs of a program keeps its loops as they are.
pub proof fn lemma_coalesced_runs_at_rest(prog: Seq<Node>)
    requires
        all_at_rest(prog),
    ensures
        all_at_rest(settled(prog)),
        all_at_rest(coalesced_runs(prog)),
    decreases prog.len(),
{
    let done = settled(prog);
    let run = coalesced(pending(prog));
    if prog.len() > 0 {
        let before = prog.drop_last();
        assert(all_at_rest(before)) by {
            assert forall|i: int| 0 <= i < before.len() implies at_rest(#[trigger] before[i]) by {
                assert(before[i] == prog[i]);
            }
        }
        lemma_coalesced_runs_at_rest(before);
        if prog.last() is Loop {
            assert(at_rest(prog[prog.len() - 1]));
            assert forall|i: int| 0 <= i < done.len() implies at_rest(#[trigger] done[i]) by {
                if i < done.len() - 1 {
                    assert(done[i] == coalesced_runs(before)[i]);
                }
            }
        }
    }
    lemma_pending_straight(prog);
    lemma_coalesced_straight(pending(prog));
    assert forall|i: int| 0 <= i < coalesced_runs(prog).len() implies at_rest(
        #[trigger] coalesced_runs(prog)[i],
    ) by {
        if i < done.len() {
            assert(coalesced_runs(prog)[i] == done[i]);
        } else {
            assert(coalesced_runs(prog)[i] == run[i - done.len()]);
        }
    }
}

/// Expanding a program in which every loop is at rest changes nothing.
pub proof fn lemma_expanded_at_rest(prog: Seq<Node>, n: nat)
    requires
        all_at_rest(prog),
        n <= prog.len(),
    ensures
        expanded(prog, n) == prog.take(n as int),
    decreases n,
{
    if n == 0 {
        assert(prog.take(0) =~= Seq::<Node>::empty());
    } else {
        lemma_expanded_at_rest(prog, (n - 1) as nat);
        assert(at_rest(prog[n - 1]));
        assert(expanded_one(prog[n - 1]) == seq![prog[n - 1]]);
        assert(prog.take(n - 1) + seq![prog[n - 1]] =~= prog.take(n as int));
    }
}

/// Every loop of an expanded program is at rest.
pub proof fn lemma_expanded_comes_to_rest(prog: Seq<Node>, n: nat)
    requires
        n <= prog.len(),
    ensures
        all_at_rest(expanded(prog, n)),
    decreases prog, n,
{
    if n > 0 {
        let before = expanded(prog, (n - 1) as nat);
        let last = expanded_one(prog[n - 1]);
        lemma_expanded_comes_to_rest(prog, (n - 1) as nat);
        if let Node::Loop(body) = prog[n - 1] {
            let inner = optimized(body);
            theorem_optimizer_idempotent(body);
            if multiplies(inner) {
                lemma_multiplication_straight(inner);
                assert(last == multiplication(inner));
            }
        }
        assert forall|i: int| 0 <= i < last.len() implies at_rest(#[trigger] last[i]) by {}
        assert forall|i: int| 0 <= i < expanded(prog, n).len() implies at_rest(
            #[trigger] expanded(prog, n)[i],
        ) by {
            if i < before.len() {
                assert(expanded(prog, n)[i] == before[i]);
            } else {
                assert(expanded(prog, n)[i] == last[i - before.len()]);
            }
        }
    }
}

/// The optimizer is idempotent: an optimized program is optimized to itself.
pub proof fn theorem_optimizer_idempotent(prog: Seq<Node>)
    ensures
        optimized(optimized(prog)) == optimized(prog),
    decreases prog, prog.len() + 1,
{
    let wide = expanded(prog, prog.len());
    let best = optimized(prog);
    lemma_expanded_comes_to_rest(prog, prog.len());
    lemma_coalesced_runs_at_rest(wide);
    lemma_expanded_at_rest(best, best.len());
    assert(best.take(best.len() as int) =~= best);
    lemma_coalesced_runs_idempotent(wide);
}

/// Whether an `Out` stands in a sequence of nodes, loops not looked into.
pub open spec fn has_output(prog: Seq<Node>) -> bool {
    exists|i: int| 0 <= i < prog.len() && #[trigger] prog[i] is Out
}

/// Resolving a run keeps its outputs.
pub proof fn lemma_resolved_keeps_output(run: Seq<Node>)
    requires
        has_output(run),
    ensures
        has_output(resolved(run)),
    decreases run.len(),
{
    let i = choose|i: int| 0 <= i < run.len() && #[trigger] run[i] is Out;
    let before = run.drop_last();
    if i == run.len() - 1 {
        let ops = resolved(run);
        assert(ops[ops.len() - 1] is Out);
    } else {
        assert(before[i] is Out);
        lemma_resolved_keeps_output(before);
        let ops = resolved(before);
        let k = choose|k: int| 0 <= k < ops.len() && #[trigger] ops[k] is Out;
        assert(resolved(run)[k] is Out);
    }
}

/// Coalescing a run keeps its outputs.
pub proof fn lemma_coalesced_keeps_output(run: Seq<Node>)
    requires
        has_output(run),
    ensures
        has_output(coalesced(run)),
{
    lemma_resolved_keeps_output(run);
    let k = choose|k: int| 0 <= k < resolved(run).len() && #[trigger] resolved(run)[k] is Out;
    assert(compacted(run)[k] is Out);
    assert(coalesced(run)[k] is Out);
}

/// Coalescing the runs of a program keeps its outputs.
pub proof fn lemma_coalesced_runs_keep_output(prog: Seq<Node>)
    requires
        has_output(prog),
    ensures
        has_output(settled(prog)) || has_output(pending(prog)),
        has_output(coalesced_runs(prog)),
    decreases prog.len(),
{
    let i = choose|i: int| 0 <= i < prog.len() && #[trigger] prog[i] is Out;
    let before = prog.drop_last();
    let last = prog.last();
    if i == prog.len() - 1 {
        assert(pending(prog)[pending(prog).len() - 1] is Out);
    } else {
        assert(before[i] is Out);
        lemma_coalesced_runs_keep_output(before);
        if last is Loop {
            let ready = coalesced_runs(before);
            let k = choose|k: int| 0 <= k < ready.len() && #[trigger] ready[k] is Out;
            assert(settled(prog)[k] is Out);
        } else if has_output(pending(before)) {
            let k = choose|k: int|
                0 <= k < pending(before).len() && #[trigger] pending(before)[k] is Out;
            assert(pending(prog)[k] is Out);
        }
    }
    if has_output(settled(prog)) {
        let k = choose|k: int| 0 <= k < settled(prog).len() && #[trigger] settled(prog)[k] is Out;
        assert(coalesced_runs(prog)[k] is Out);
    } else {
        lemma_coalesced_keeps_output(pending(prog));
        let run = coalesced(pending(prog));
        let k = choose|k: int| 0 <= k < run.len() && #[trigger] run[k] is Out;
        assert(coalesced_runs(prog)[settled(prog).len() + k] is Out);
    }
}

/// Expanding a program keeps its outputs.
pub proof fn lemma_expanded_keeps_output(prog: Seq<Node>, n: nat, i: int)
    requires
        0 <= i < n <= prog.len(),
        prog[i] is Out,
    ensures
        has_output(expanded(prog, n)),
    decreases n,
{
    let before = expanded(prog, (n - 1) as nat);
    assert(expanded(prog, n) == before + expanded_one(prog[n - 1]));
    if i == n - 1 {
        assert(expanded_one(prog[i]) == seq![prog[i]]);
        assert(expanded(prog, n)[before.len() as int] is Out);
    } else {
        lemma_expanded_keeps_output(prog, (n - 1) as nat, i);
        let k = choose|k: int| 0 <= k < before.len() && #[trigger] before[k] is Out;
        assert(expanded(prog, n)[k] is Out);
    }
}

/// A loop with an `Out` in its body is never rewritten: it stays a loop,
/// whatever its `Add` nodes are.
pub proof fn lemma_loop_with_output_stays(body: Seq<Node>)
    requires
        has_output(body),
    ensures
        !multiplies(optimized(body)),
        expanded_one(Node::Loop(body)) == seq![Node::Loop(optimized(body))],
{
    let i = choose|i: int| 0 <= i < body.len() && #[trigger] body[i] is Out;
    lemma_expanded_keeps_output(body, body.len(), i);
    lemma_coalesced_runs_keep_output(expanded(body, body.len()));
    let k = choose|k: int| 0 <= k < optimized(body).len() && #[trigger] optimized(body)[k] is Out;
    assert(!(optimized(body)[k] is Add || optimized(body)[k] is Nop));
}

/// The number of nodes of a node: itself, and those of its body if it is a loop.
pub open spec fn size_one(e: Node) -> nat
    decreases e, 0nat,
{
    match e {
        Node::Loop(body) => 1 + size(body, body.len()),
        _ => 1,
    }
}

/// The number of nodes of the first `n` nodes of a program, bodies of loops included.
pub open spec fn size(prog: Seq<Node>, n: nat) -> nat
    decreases prog, n,
{
    if n == 0 || n > prog.len() {
        0
    } else {
        size(prog, (n - 1) as nat) + size_one(prog[n - 1])
    }
}

/// The number of nodes of a whole program.
pub open spec fn size_of(prog: Seq<Node>) -> nat {
    size(prog, prog.len())
}

/// What stands behind the first `n` nodes does not count for their size.
pub proof fn lemma_size_prefix(a: Seq<Node>, b: Seq<Node>, n: nat)
    requires
        n <= a.len(),
    ensures
        size(a + b, n) == size(a, n),
    decreases n,
{
    if n > 0 {
        lemma_size_prefix(a, b, (n - 1) as nat);
        assert((a + b)[n - 1] == a[n - 1]);
    }
}

/// The size of a program and of the first `n` nodes of another behind it is
/// the sum of their sizes.
pub proof fn lemma_size_behind(a: Seq<Node>, b: Seq<Node>, n: nat)
    requires
        n <= b.len(),
    ensures
        size(a + b, a.len() + n) == size_of(a) + size(b, n),
    decreases n,
{
    if n == 0 {
        lemma_size_prefix(a, b, a.len());
    } else {
        lemma_size_behind(a, b, (n - 1) as nat);
        assert((a + b)[a.len() + n - 1] == b[n - 1]);
    }
}

/// The size of two programs in a row is the sum of their sizes.
pub proof fn lemma_size_concat(a: Seq<Node>, b: Seq<Node>)
    ensures
        size_of(a + b) == size_of(a) + size_of(b),
{
    lemma_size_behind(a, b, b.len());
}

/// The size of a program of one node is the size of that node.
pub proof fn lemma_size_single(e: Node)
    ensures
        size_of(seq![e]) == size_one(e),
        size_one(e) >= 1,
{
    let one = seq![e];
    assert(size(one, 0) == 0);
    assert(size(one, 1) == size(one, 0) + size_one(one[0]));
}

/// A program has at least as many nodes as it is long, and a straight one no more.
pub proof fn lemma_size_at_least_length(prog: Seq<Node>, n: nat)
    requires
        n <= prog.len(),
    ensures
        size(prog, n) >= n,
        straight(prog) ==> size(prog, n) == n,
    decreases n,
{
    if n > 0 {
        lemma_size_at_least_length(prog, (n - 1) as nat);
        lemma_size_single(prog[n - 1]);
        if straight(prog) {
            assert(!(prog[n - 1] is Loop));
            assert(size_one(prog[n - 1]) == 1);
        }
    }
}

/// Coalescing the runs of a program keeps its size.
pub proof fn lemma_coalesced_runs_keep_size(prog: Seq<Node>)
    ensures
        size_of(settled(prog)) + pending(prog).len() == size_of(prog),
        size_of(coalesced_runs(prog)) == size_of(prog),
    decreases prog.len(),
{
    let done = settled(prog);
    let run = pending(prog);
    lemma_pending_straight(prog);
    lemma_coalesced_straight(run);
    if prog.len() > 0 {
        let before = prog.drop_last();
        let last = prog.last();
        lemma_coalesced_runs_keep_size(before);
        assert(before + seq![last] =~= prog);
        lemma_size_concat(before, seq![last]);
        lemma_size_single(last);
        if last is Loop {
            assert(done =~= coalesced_runs(before) + seq![last]);
            lemma_size_concat(coalesced_runs(before), seq![last]);
            assert(run.len() == 0);
        } else {
            assert(size_one(last) == 1);
            assert(done == settled(before));
            assert(run.len() == pending(before).len() + 1);
        }
    } else {
        assert(size(done, 0) == 0);
    }
    lemma_size_concat(done, coalesced(run));
    lemma_size_at_least_length(coalesced(run), coalesced(run).len());
}

/// A multiplication has no more nodes than the body it is made of.
pub proof fn lemma_products_fit(body: Seq<Node>)
    ensures
        products(body).len() <= body.len(),
        (exists|k: int| 0 <= k < body.len() && crate::optimizer::on_counter(#[trigger] body[k]))
            ==> products(body).len() < body.len(),
    decreases body.len(),
{
    if body.len() > 0 {
        lemma_products_fit(body.drop_last());
        if exists|k: int| 0 <= k < body.len() && crate::optimizer::on_counter(#[trigger] body[k]) {
            let k = choose|k: int|
                0 <= k < body.len() && crate::optimizer::on_counter(#[trigger] body[k]);
            if k < body.len() - 1 {
                assert(crate::optimizer::on_counter(body.drop_last()[k]));
            }
        }
    }
}

/// Expanding a node does not make it larger.
pub proof fn lemma_expanded_one_no_larger(e: Node)
    ensures
        size_of(expanded_one(e)) <= size_one(e),
    decreases e, 0nat,
{
    match e {
        Node::Loop(body) => {
            let inner = optimized(body);
            lemma_optimized_no_larger(body);
            if multiplies(inner) {
                let block = multiplication(inner);
                lemma_multiplication_straight(inner);
                lemma_size_at_least_length(block, block.len());
                lemma_size_at_least_length(inner, inner.len());
                let k = choose|k: int|
                    {
                        &&& 0 <= k < inner.len()
                        &&& #[trigger] inner[k] matches Node::Add(count, offset)
                        &&& count == -1
                        &&& offset == 0
                        &&& forall|j: int|
                            0 <= j < inner.len() && j != k ==> !crate::optimizer::on_counter(
                                #[trigger] inner[j],
                            )
                    };
                assert(crate::optimizer::on_counter(inner[k]));
                lemma_products_fit(inner);
            } else {
                lemma_size_single(Node::Loop(inner));
            }
        },
        _ => {
            lemma_size_single(e);
        },
    }
}

/// Expanding the first `n` nodes of a program does not make them larger.
pub proof fn lemma_expanded_no_larger(prog: Seq<Node>, n: nat)
    requires
        n <= prog.len(),
    ensures
        size_of(expanded(prog, n)) <= size(prog, n),
    decreases prog, n,
{
    if n > 0 {
        let before = expanded(prog, (n - 1) as nat);
        let last = expanded_one(prog[n - 1]);
        lemma_expanded_no_larger(prog, (n - 1) as nat);
        lemma_expanded_one_no_larger(prog[n - 1]);
        lemma_size_concat(before, last);
    }
}

/// The optimized program has no more nodes than the program.
pub proof fn lemma_optimized_no_larger(prog: Seq<Node>)
    ensures
        size_of(optimized(prog)) <= size_of(prog),
    decreases prog, prog.len() + 1,
{
    lemma_expanded_no_larger(prog, prog.len());
    lemma_coalesced_runs_keep_size(expanded(prog, prog.len()));
}

} // verus!
