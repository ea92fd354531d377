use crate::frontend::Node;
use crate::machine::{
    lemma_more_fuel, lemma_more_fuel_one, lemma_run_concat, lemma_run_push, lemma_run_single,
    lemma_wadd_laws, run, run_one, step, wadd, Outcome, State,
};
use crate::optimizer::{
    addresses_cell, coalesced, coalesced_runs, compacted, displacement, expanded, expanded_one,
    lemma_compacted_fits, multiplies, nops, optimized, pending, resolved, settled, shifted,
    straight,
};
use crate::reduction::{
    lemma_multiplication_alike, lemma_multiplication_runs, lemma_one_round, lemma_scaled_again,
    lemma_wrap32_zero, lemma_counter_goes_down, gain, wrap32, rounds, scaled,
};
use vstd::prelude::*;

verus! {

/// The outcome `o`, with the pointer put at `p` if the run came to its end.
pub open spec fn with_pointer(o: Outcome, p: isize) -> Outcome {
    match o {
        Outcome::Done(s) => Outcome::Done(State { ptr: p, ..s }),
        other => other,
    }
}

/// A cell operation shifted by `d` does from a pointer at `p` what the operation
/// itself does from a pointer at `p + d`.
pub proof fn lemma_shifted_step(e: Node, s: State, p: isize, d: isize, size: Option<nat>)
    requires
        addresses_cell(e),
        s.ptr == wadd(p, d),
    ensures
        run_one(shifted(e, d), State { ptr: p, ..s }, 0, size) == with_pointer(
            run_one(e, s, 0, size),
            p,
        ),
{
    let s0 = State { ptr: p, ..s };
    match e {
        Node::Add(_, o) | Node::Out(o) | Node::In(o) | Node::Clear(o) => {
            lemma_wadd_laws(p, d, o);
            assert(s0.at(wadd(d, o)) == s.at(o));
        },
        Node::Mul(_, i, o) => {
            lemma_wadd_laws(p, d, o);
            lemma_wadd_laws(p, d, i);
            lemma_wadd_laws(wadd(p, i), d, o);
            assert(s0.at(wadd(d, o)) == s.at(o));
            assert(s0.moved(i).at(wadd(d, o)) == s.moved(i).at(o));
        },
        _ => {},
    }
    match step(e, s, size) {
        Some(s1) => {
            let got = step(shifted(e, d), s0, size);
            assert(got is Some);
            assert(got->0.cells =~= s1.cells);
        },
        None => {},
    }
}

/// A straight run needs no fuel.
pub proof fn lemma_straight_needs_no_fuel(prog: Seq<Node>, s: State, fuel: nat, size: Option<nat>)
    requires
        straight(prog),
    ensures
        run(prog, s, fuel, size) == run(prog, s, 0, size),
        !(run(prog, s, fuel, size) is OutOfFuel),
    decreases prog.len(),
{
    if prog.len() > 0 {
        assert(!(prog[0] is Loop));
        assert(straight(prog.drop_first()));
        assert(run_one(prog[0], s, 0, size) == run_one(prog[0], s, fuel, size));
        if let Outcome::Done(s1) = run_one(prog[0], s, fuel, size) {
            lemma_straight_needs_no_fuel(prog.drop_first(), s1, fuel, size);
        }
    }
}

/// The resolved operations of a straight run do to the cells and the streams
/// what the run does, and leave the pointer where it was; the run leaves it
/// further by its displacement.
pub proof fn lemma_resolved_alike(prog: Seq<Node>, s: State, size: Option<nat>)
    requires
        straight(prog),
    ensures
        run(resolved(prog), s, 0, size) == with_pointer(run(prog, s, 0, size), s.ptr),
        run(prog, s, 0, size) matches Outcome::Done(s1) ==> s1.ptr == wadd(
            s.ptr,
            displacement(prog),
        ),
    decreases prog.len(),
{
    if prog.len() == 0 {
        lemma_wadd_laws(s.ptr, 0, 0);
    } else {
        let before = prog.drop_last();
        let last = prog.last();
        let d = displacement(before);
        assert(straight(before));
        assert(!(prog[prog.len() - 1] is Loop));
        assert(before.push(last) =~= prog);
        lemma_resolved_alike(before, s, size);
        lemma_run_push(before, last, s, 0, size);
        if let Outcome::Done(s1) = run(before, s, 0, size) {
            if addresses_cell(last) {
                lemma_run_push(resolved(before), shifted(last, d), s, 0, size);
                lemma_shifted_step(last, s1, s.ptr, d, size);
                if let Outcome::Done(s2) = run_one(last, s1, 0, size) {
                    assert(s2.ptr == s1.ptr);
                }
            } else if let Node::Move(o) = last {
                lemma_wadd_laws(s.ptr, d, o);
                assert(run_one(last, s1, 0, size) == Outcome::Done(s1.moved(o)));
            } else {
                assert(last is Nop);
                assert(run_one(last, s1, 0, size) == Outcome::Done(s1));
            }
        } else {
            if addresses_cell(last) {
                lemma_run_push(resolved(before), shifted(last, d), s, 0, size);
            }
        }
    }
}

/// A run of `Nop` does nothing.
pub proof fn lemma_nops_do_nothing(n: nat, s: State, fuel: nat, size: Option<nat>)
    ensures
        run(nops(n), s, fuel, size) == Outcome::Done(s),
    decreases n,
{
    if n > 0 {
        assert(nops(n).drop_first() =~= nops((n - 1) as nat));
        assert(run_one(nops(n)[0], s, fuel, size) == Outcome::Done(s));
        lemma_nops_do_nothing((n - 1) as nat, s, fuel, size);
    }
}

/// Resolving a straight run leaves a straight run, and no move in it.
pub proof fn lemma_resolved_straight(prog: Seq<Node>)
    ensures
        straight(resolved(prog)),
        forall|i: int|
            0 <= i < resolved(prog).len() ==> addresses_cell(#[trigger] resolved(prog)[i]),
    decreases prog.len(),
{
    if prog.len() > 0 {
        lemma_resolved_straight(prog.drop_last());
    }
}

/// Lazy-move coalescing keeps what a straight run does: on every tape, from
/// every state, the coalesced run ends as the run itself.
pub proof fn lemma_coalesced_alike(prog: Seq<Node>, s: State, fuel: nat, size: Option<nat>)
    requires
        straight(prog),
    ensures
        run(coalesced(prog), s, fuel, size) == run(prog, s, fuel, size),
{
    let d = displacement(prog);
    let head = compacted(prog);
    let fill = nops((prog.len() - head.len()) as nat);
    lemma_compacted_fits(prog);
    lemma_resolved_alike(prog, s, size);
    lemma_straight_needs_no_fuel(prog, s, fuel, size);
    lemma_resolved_straight(prog);
    lemma_straight_needs_no_fuel(resolved(prog), s, fuel, size);
    lemma_wadd_laws(s.ptr, d, 0);
    if d != 0 {
        lemma_run_push(resolved(prog), Node::Move(d), s, fuel, size);
        if let Outcome::Done(s1) = run(resolved(prog), s, fuel, size) {
            assert(run_one(Node::Move(d), s1, fuel, size) == Outcome::Done(s1.moved(d)));
        }
    }
    assert(run(head, s, fuel, size) == run(prog, s, fuel, size));
    lemma_run_concat(head, fill, s, fuel, size);
    if let Outcome::Done(s1) = run(head, s, fuel, size) {
        lemma_nops_do_nothing(fill.len(), s1, fuel, size);
    }
}

/// Coalescing every straight run of a program keeps what the program does: on
/// every tape, from every state and with any fuel, it ends as the program itself.
pub proof fn lemma_coalesced_runs_alike(prog: Seq<Node>, s: State, fuel: nat, size: Option<nat>)
    ensures
        run(settled(prog) + pending(prog), s, fuel, size) == run(prog, s, fuel, size),
        run(coalesced_runs(prog), s, fuel, size) == run(prog, s, fuel, size),
    decreases prog.len(),
{
    let tail = pending(prog);
    crate::optimizer::lemma_pending_straight(prog);
    if prog.len() == 0 {
        assert(settled(prog) + pending(prog) =~= prog);
    } else {
        let before = prog.drop_last();
        let last = prog.last();
        assert(before.push(last) =~= prog);
        lemma_coalesced_runs_alike(before, s, fuel, size);
        lemma_run_push(before, last, s, fuel, size);
        if last is Loop {
            assert(settled(prog) + pending(prog) =~= coalesced_runs(before).push(last));
            lemma_run_push(coalesced_runs(before), last, s, fuel, size);
        } else {
            assert(settled(prog) + pending(prog) =~= (settled(before) + pending(before)).push(
                last,
            ));
            lemma_run_push(settled(before) + pending(before), last, s, fuel, size);
        }
    }
    lemma_run_concat(settled(prog), tail, s, fuel, size);
    lemma_run_concat(settled(prog), coalesced(tail), s, fuel, size);
    if let Outcome::Done(s1) = run(settled(prog), s, fuel, size) {
        lemma_coalesced_alike(tail, s1, fuel, size);
    }
}

/// A loop that comes to its end still does so, and ends the same, once its
/// body is optimized.
pub proof fn lemma_loop_forward(body: Seq<Node>, s: State, fuel: nat)
    requires
        run_one(Node::Loop(body), s, fuel, None) is Done,
    ensures
        run_one(Node::Loop(optimized(body)), s, fuel, None) == run_one(
            Node::Loop(body),
            s,
            fuel,
            None,
        ),
    decreases fuel, 0nat, 0nat,
{
    if s.read(s.at(0)) != 0 {
        lemma_optimized_forward(body, s, (fuel - 1) as nat);
        if let Outcome::Done(s1) = run(body, s, (fuel - 1) as nat, None) {
            lemma_loop_forward(body, s1, (fuel - 1) as nat);
        }
    }
}

/// A node that comes to its end ends the same once it is expanded.
pub proof fn lemma_expanded_one_forward(e: Node, s: State, fuel: nat)
    requires
        run_one(e, s, fuel, None) is Done,
    ensures
        run(expanded_one(e), s, fuel, None) == run_one(e, s, fuel, None),
    decreases fuel, 0nat, 1nat,
{
    match e {
        Node::Loop(body) => {
            let inner = optimized(body);
            lemma_loop_forward(body, s, fuel);
            if multiplies(inner) {
                let enough = if fuel < rounds(s) {
                    rounds(s)
                } else {
                    fuel
                };
                lemma_more_fuel_one(Node::Loop(inner), s, fuel, enough, None);
                lemma_multiplication_alike(inner, s, enough, fuel);
            } else {
                lemma_run_single(Node::Loop(inner), s, fuel, None);
            }
        },
        _ => {
            lemma_run_single(e, s, fuel, None);
        },
    }
}

/// The first `n` nodes of a program, if they come to their end, end the same
/// once they are expanded.
pub proof fn lemma_expanded_forward(prog: Seq<Node>, n: nat, s: State, fuel: nat)
    requires
        n <= prog.len(),
        run(prog.take(n as int), s, fuel, None) is Done,
    ensures
        run(expanded(prog, n), s, fuel, None) == run(prog.take(n as int), s, fuel, None),
    decreases fuel, 1nat, n,
{
    if n > 0 {
        let before = prog.take(n - 1);
        let last = prog[n - 1];
        assert(before.push(last) =~= prog.take(n as int));
        lemma_run_push(before, last, s, fuel, None);
        lemma_expanded_forward(prog, (n - 1) as nat, s, fuel);
        lemma_run_concat(expanded(prog, (n - 1) as nat), expanded_one(last), s, fuel, None);
        if let Outcome::Done(s1) = run(before, s, fuel, None) {
            lemma_expanded_one_forward(last, s1, fuel);
        }
    } else {
        assert(prog.take(0) =~= Seq::<Node>::empty());
    }
}

/// A program that comes to its end still does so once it is optimized, with
/// the same fuel, and ends the same.
pub proof fn lemma_optimized_forward(prog: Seq<Node>, s: State, fuel: nat)
    requires
        run(prog, s, fuel, None) is Done,
    ensures
        run(optimized(prog), s, fuel, None) == run(prog, s, fuel, None),
    decreases fuel, 2nat, 0nat,
{
    assert(prog.take(prog.len() as int) =~= prog);
    lemma_expanded_forward(prog, prog.len(), s, fuel);
    lemma_coalesced_runs_alike(expanded(prog, prog.len()), s, fuel, None);
}

/// The larger of two amounts of fuel.
pub open spec fn larger(a: nat, b: nat) -> nat {
    if a < b {
        b
    } else {
        a
    }
}

/// Where a loop with its body optimized comes to its end, the loop itself does
/// too, given the fuel that is handed back, and ends the same.
pub proof fn lemma_loop_backward(body: Seq<Node>, s: State, fuel: nat) -> (needed: nat)
    requires
        run_one(Node::Loop(optimized(body)), s, fuel, None) is Done,
    ensures
        run_one(Node::Loop(body), s, needed, None) == run_one(
            Node::Loop(optimized(body)),
            s,
            fuel,
            None,
        ),
    decreases fuel, body, 1nat,
{
    if s.read(s.at(0)) != 0 {
        let inner = optimized(body);
        let g1 = lemma_optimized_backward(body, s, (fuel - 1) as nat);
        let s1 = run(inner, s, (fuel - 1) as nat, None)->Done_0;
        let g2 = lemma_loop_backward(body, s1, (fuel - 1) as nat);
        let g = larger(g1, g2);
        lemma_more_fuel(body, s, g1, g, None);
        lemma_more_fuel_one(Node::Loop(body), s1, g2, g, None);
        g + 1
    } else {
        0
    }
}

/// Where the optimized body of a loop multiplies, the loop itself comes to its
/// end, given the fuel that is handed back, and has then added to every cell
/// the gain of the optimized body times the number of rounds.
pub proof fn lemma_plain_loop_unrolls(body: Seq<Node>, s: State) -> (needed: nat)
    requires
        multiplies(optimized(body)),
    ensures
        run_one(Node::Loop(body), s, needed, None) == Outcome::Done(
            scaled(optimized(body), s, rounds(s) as int),
        ),
    decreases 0nat, body, body.len() + 2 + rounds(s),
{
    let inner = optimized(body);
    let p = s.ptr as int;
    lemma_wadd_laws(s.ptr, 0, 0);
    assert(s.at(0) == p);
    lemma_scaled_again(inner, s, rounds(s) - 1);
    if s.read(p) != 0 {
        let s1 = scaled(inner, s, 1);
        lemma_one_round(inner, s, 0);
        lemma_counter_goes_down(inner, s.ptr);
        lemma_wrap32_zero(s.read(p) - 1);
        assert(s1.read(p) == wrap32(s.read(p) + 1 * gain(inner, s.ptr, p)));
        assert(rounds(s1) == rounds(s) - 1);
        let g1 = lemma_optimized_backward(body, s, 0);
        let g2 = lemma_plain_loop_unrolls(body, s1);
        let g = larger(g1, g2);
        lemma_more_fuel(body, s, g1, g, None);
        lemma_more_fuel_one(Node::Loop(body), s1, g2, g, None);
        g + 1
    } else {
        0
    }
}

/// Where an expanded node comes to its end, the node itself does too, given
/// the fuel that is handed back, and ends the same.
pub proof fn lemma_expanded_one_backward(e: Node, s: State, fuel: nat) -> (needed: nat)
    requires
        run(expanded_one(e), s, fuel, None) is Done,
    ensures
        run_one(e, s, needed, None) == run(expanded_one(e), s, fuel, None),
    decreases fuel, e, 0nat,
{
    match e {
        Node::Loop(body) => {
            let inner = optimized(body);
            if multiplies(inner) {
                lemma_multiplication_runs(inner, s, fuel);
                lemma_plain_loop_unrolls(body, s)
            } else {
                lemma_run_single(Node::Loop(inner), s, fuel, None);
                lemma_loop_backward(body, s, fuel)
            }
        },
        _ => {
            lemma_run_single(e, s, fuel, None);
            fuel
        },
    }
}

/// Where the first `n` nodes of a program, expanded, come to their end, the
/// nodes themselves do too, given the fuel that is handed back, and end the same.
pub proof fn lemma_expanded_backward(prog: Seq<Node>, n: nat, s: State, fuel: nat) -> (needed: nat)
    requires
        n <= prog.len(),
        run(expanded(prog, n), s, fuel, None) is Done,
    ensures
        run(prog.take(n as int), s, needed, None) == run(expanded(prog, n), s, fuel, None),
    decreases fuel, prog, n,
{
    if n > 0 {
        let before = prog.take(n - 1);
        let last = prog[n - 1];
        assert(before.push(last) =~= prog.take(n as int));
        lemma_run_concat(expanded(prog, (n - 1) as nat), expanded_one(last), s, fuel, None);
        let g1 = lemma_expanded_backward(prog, (n - 1) as nat, s, fuel);
        let s1 = run(expanded(prog, (n - 1) as nat), s, fuel, None)->Done_0;
        let g2 = lemma_expanded_one_backward(last, s1, fuel);
        let g = larger(g1, g2);
        lemma_more_fuel(before, s, g1, g, None);
        lemma_more_fuel_one(last, s1, g2, g, None);
        lemma_run_push(before, last, s, g, None);
        g
    } else {
        assert(prog.take(0) =~= Seq::<Node>::empty());
        0
    }
}

/// Where the optimized program comes to its end, the program itself does too,
/// given the fuel that is handed back, and ends the same.
pub proof fn lemma_optimized_backward(prog: Seq<Node>, s: State, fuel: nat) -> (needed: nat)
    requires
        run(optimized(prog), s, fuel, None) is Done,
    ensures
        run(prog, s, needed, None) == run(optimized(prog), s, fuel, None),
    decreases fuel, prog, prog.len() + 1,
{
    assert(prog.take(prog.len() as int) =~= prog);
    lemma_coalesced_runs_alike(expanded(prog, prog.len()), s, fuel, None);
    lemma_expanded_backward(prog, prog.len(), s, fuel)
}

/// Whatever `p` comes to, from any state on the tape without end, `q` comes to
/// as well, given enough fuel.
pub open spec fn simulates(q: Seq<Node>, p: Seq<Node>) -> bool {
    forall|s: State, fuel: nat| #[trigger]
        run(p, s, fuel, None) is Done ==> exists|enough: nat| #[trigger]
            run(q, s, enough, None) == run(p, s, fuel, None)
}

/// Two programs that end alike wherever either ends: the same cells, the same
/// pointer, the same input left and the same output written.
pub open spec fn equivalent(p: Seq<Node>, q: Seq<Node>) -> bool {
    simulates(p, q) && simulates(q, p)
}

/// The optimized program is equivalent to the program: from every state each
/// ends where the other does, and neither ends where the other runs forever.
pub proof fn theorem_optimized_equivalent(prog: Seq<Node>)
    ensures
        equivalent(prog, optimized(prog)),
{
    let opt = optimized(prog);
    assert forall|s: State, fuel: nat| #[trigger] run(opt, s, fuel, None) is Done implies exists|
        enough: nat,
    | #[trigger] run(prog, s, enough, None) == run(opt, s, fuel, None) by {
        let needed = lemma_optimized_backward(prog, s, fuel);
        assert(run(prog, s, needed, None) == run(opt, s, fuel, None));
    }
    assert forall|s: State, fuel: nat| #[trigger] run(prog, s, fuel, None) is Done implies exists|
        enough: nat,
    | #[trigger] run(opt, s, enough, None) == run(prog, s, fuel, None) by {
        lemma_optimized_forward(prog, s, fuel);
        assert(run(opt, s, fuel, None) == run(prog, s, fuel, None));
    }
}

/// A run of cell operations alone has no displacement and is resolved as it stands.
pub proof fn lemma_resolved_stays(ops: Seq<Node>)
    requires
        forall|i: int| 0 <= i < ops.len() ==> addresses_cell(#[trigger] ops[i]),
    ensures
        displacement(ops) == 0,
        resolved(ops) == ops,
    decreases ops.len(),
{
    if ops.len() > 0 {
        let before = ops.drop_last();
        assert(addresses_cell(ops[ops.len() - 1]));
        lemma_resolved_stays(before);
        match ops.last() {
            Node::Add(_, o) | Node::Out(o) | Node::In(o) | Node::Clear(o) | Node::Mul(_, _, o) => {
                lemma_wadd_laws(o, 0, 0);
            },
            _ => {},
        }
        assert(before.push(ops.last()) =~= ops);
    } else {
        assert(resolved(ops) =~= ops);
    }
}

/// `Nop` behind a run changes neither what it resolves to nor its displacement.
pub proof fn lemma_nops_behind(run: Seq<Node>, n: nat)
    ensures
        displacement(run + nops(n)) == displacement(run),
        resolved(run + nops(n)) == resolved(run),
    decreases n,
{
    if n == 0 {
        assert(run + nops(n) =~= run);
    } else {
        lemma_nops_behind(run, (n - 1) as nat);
        assert((run + nops(n)).drop_last() =~= run + nops((n - 1) as nat));
        assert((run + nops(n)).last() == Node::Nop);
    }
}

/// Lazy-move coalescing is idempotent: a coalesced run is coalesced to itself.
pub proof fn lemma_coalescing_idempotent(run: Seq<Node>)
    requires
        straight(run),
    ensures
        coalesced(coalesced(run)) == coalesced(run),
{
    let d = displacement(run);
    let ops = resolved(run);
    let head = compacted(run);
    let fill = (run.len() - head.len()) as nat;
    lemma_compacted_fits(run);
    lemma_resolved_straight(run);
    lemma_resolved_stays(ops);
    lemma_wadd_laws(d, 0, 0);
    if d != 0 {
        assert(head.drop_last() =~= ops);
    }
    assert(displacement(head) == d);
    assert(resolved(head) == ops);
    lemma_nops_behind(head, fill);
    assert(compacted(coalesced(run)) == head);
}

/// Cell arithmetic wraps and never fails: on the tape without end `Add` and
/// `Mul` always go through, and leave the exact result reduced to the cell width.
pub proof fn lemma_arithmetic_wraps(s: State, count: i32, index: isize, offset: isize)
    ensures
        step(Node::Add(count, offset), s, None) matches Some(after) && after.read(s.at(offset))
            == wrap32(s.read(s.at(offset)) + count),
        step(Node::Mul(count, index, offset), s, None) matches Some(after) && after.read(
            s.moved(index).at(offset),
        ) == wrap32(
            s.read(s.moved(index).at(offset)) + s.read(s.at(offset)) * count,
        ),
        wrap32(i32::MAX + 1) == i32::MIN,
        wrap32(-1 + 1) == 0,
{
    let dst = s.moved(index).at(offset);
    let src = s.at(offset);
    let product = crate::machine::cell_mul(s.read(src), count);
    crate::reduction::lemma_wrap32_laws(0, 0, 0, s.read(src), count);
    crate::reduction::lemma_wrap32_laws(0, 0, 0, s.read(dst), product);
    crate::reduction::lemma_wrap32_laws(s.read(dst) as int, s.read(src) * count, 0, 0, 0);
    reveal(wrap32);
}

} // verus!
