use crate::frontend::Node;
use crate::machine::{
    cell_add, cell_mul, lemma_run_push, lemma_wadd_laws, run, run_one, wadd, Outcome, State,
};
use crate::optimizer::{multiplication, multiplies, on_counter, products};
use vstd::prelude::*;

verus! {

/// The 32-bit cell value that is congruent to `x`.
#[verifier::opaque]
pub open spec fn wrap32(x: int) -> i32 {
    vstd::wrapping::i32_specs::signed_crop(x)
}

/// `wrap32` keeps a cell value, forgets multiples of the cell range, and may be
/// applied early; cell addition and multiplication are `wrap32` of the exact result.
pub proof fn lemma_wrap32_laws(a: int, b: int, k: int, v: i32, c: i32)
    ensures
        wrap32(v as int) == v,
        wrap32(a + wrap32(b)) == wrap32(a + b),
        wrap32(a + k * 0x1_0000_0000) == wrap32(a),
        cell_add(v, c) == wrap32(v + c),
        cell_mul(v, c) == wrap32(v * c),
{
    reveal(wrap32);
    reveal(cell_add);
    reveal(cell_mul);
    assert((a + wrap32(b)) % 0x1_0000_0000 == (a + b) % 0x1_0000_0000);
    assert((a + k * 0x1_0000_0000) % 0x1_0000_0000 == a % 0x1_0000_0000) by {
        vstd::arithmetic::div_mod::lemma_mod_multiples_vanish(k, a, 0x1_0000_0000);
    }
}

/// A cell value is zero exactly if it is congruent to zero.
pub proof fn lemma_wrap32_zero(x: int)
    ensures
        wrap32(x) == 0 <==> x % 0x1_0000_0000 == 0,
        wrap32(x) as int % 0x1_0000_0000 == x % 0x1_0000_0000,
{
    reveal(wrap32);
}

/// A body of `Add` and `Nop` alone.
pub open spec fn adds_only(body: Seq<Node>) -> bool {
    forall|i: int| 0 <= i < body.len() ==> (#[trigger] body[i] is Add || body[i] is Nop)
}

/// What one round of `body`, run with the pointer at `p`, adds to the cell at
/// index `a`, before wrapping.
pub open spec fn gain(body: Seq<Node>, p: isize, a: int) -> int
    decreases body.len(),
{
    if body.len() == 0 {
        0
    } else {
        gain(body.drop_last(), p, a) + match body.last() {
            Node::Add(count, offset) if wadd(p, offset) == a => count as int,
            _ => 0,
        }
    }
}

/// The state `s` after its cells have taken `k` times the gain of `body`.
pub open spec fn scaled(body: Seq<Node>, s: State, k: int) -> State {
    State { cells: |a: int| wrap32(s.read(a) + k * gain(body, s.ptr, a)), ..s }
}

/// How often a multiplying loop goes round from `s`: the counter cell, read as
/// an unsigned number.
pub open spec fn rounds(s: State) -> nat {
    (s.read(s.ptr as int) as int % 0x1_0000_0000) as nat
}

/// `body` run `n` times in a row from `s`, on the tape without end.
pub open spec fn repeated(body: Seq<Node>, s: State, n: nat) -> Outcome
    decreases n,
{
    if n == 0 {
        Outcome::Done(s)
    } else {
        match run(body, s, 0, None) {
            Outcome::Done(s1) => repeated(body, s1, (n - 1) as nat),
            other => other,
        }
    }
}

/// One round of a body of `Add` and `Nop` adds its gain to every cell, once.
pub proof fn lemma_one_round(body: Seq<Node>, s: State, fuel: nat)
    requires
        adds_only(body),
    ensures
        run(body, s, fuel, None) == Outcome::Done(scaled(body, s, 1)),
    decreases body.len(),
{
    if body.len() == 0 {
        assert forall|a: int| #[trigger] (scaled(body, s, 1).cells)(a) == (s.cells)(a) by {
            lemma_wrap32_laws(0, 0, 0, s.read(a), 0);
        }
        assert(scaled(body, s, 1).cells =~= s.cells);
    } else {
        let before = body.drop_last();
        let last = body.last();
        assert(body[body.len() - 1] is Add || body[body.len() - 1] is Nop);
        assert(adds_only(before));
        assert(before.push(last) =~= body);
        lemma_one_round(before, s, fuel);
        lemma_run_push(before, last, s, fuel, None);
        let s1 = scaled(before, s, 1);
        match last {
            Node::Add(count, offset) => {
                let target = s1.at(offset);
                let s2 = s1.write(target, cell_add(s1.read(target), count));
                assert(run_one(last, s1, fuel, None) == Outcome::Done(s2));
                assert forall|a: int| #[trigger] (s2.cells)(a) == (scaled(body, s, 1).cells)(a) by {
                    if a == target {
                        lemma_wrap32_laws(
                            count as int,
                            s.read(a) + 1 * gain(before, s.ptr, a),
                            0,
                            s1.read(a),
                            count,
                        );
                    }
                }
                assert(s2.cells =~= scaled(body, s, 1).cells);
            },
            _ => {
                assert(run_one(last, s1, fuel, None) == Outcome::Done(s1));
                assert(s1.cells =~= scaled(body, s, 1).cells);
            },
        }
    }
}

/// With no `Add` on the counter cell a round leaves the counter alone.
pub proof fn lemma_gain_without_counter(body: Seq<Node>, p: isize)
    requires
        forall|j: int| 0 <= j < body.len() ==> !on_counter(#[trigger] body[j]),
    ensures
        gain(body, p, p as int) == 0,
    decreases body.len(),
{
    if body.len() > 0 {
        let before = body.drop_last();
        assert forall|j: int| 0 <= j < before.len() implies !on_counter(#[trigger] before[j]) by {
            assert(before[j] == body[j]);
        }
        lemma_gain_without_counter(before, p);
        assert(!on_counter(body[body.len() - 1]));
        if let Node::Add(_, o) = body.last() {
            lemma_wadd_laws(p, o, 0);
        }
    }
}

/// With one `Add` on the counter cell a round adds its count to the counter.
pub proof fn lemma_gain_of_counter(body: Seq<Node>, p: isize, k: int)
    requires
        0 <= k < body.len(),
        on_counter(body[k]),
        forall|j: int| 0 <= j < body.len() && j != k ==> !on_counter(#[trigger] body[j]),
    ensures
        body[k] matches Node::Add(count, _) && gain(body, p, p as int) == count,
    decreases body.len(),
{
    let before = body.drop_last();
    if k == body.len() - 1 {
        assert forall|j: int| 0 <= j < before.len() implies !on_counter(#[trigger] before[j]) by {
            assert(before[j] == body[j]);
        }
        lemma_gain_without_counter(before, p);
        lemma_wadd_laws(p, 0, 0);
    } else {
        assert(before[k] == body[k]);
        assert forall|j: int| 0 <= j < before.len() && j != k implies !on_counter(
            #[trigger] before[j],
        ) by {
            assert(before[j] == body[j]);
        }
        lemma_gain_of_counter(before, p, k);
        assert(!on_counter(body[body.len() - 1]));
        if let Node::Add(_, o) = body.last() {
            lemma_wadd_laws(p, o, 0);
        }
    }
}

/// A round of a multiplying body takes one off the counter.
pub proof fn lemma_counter_goes_down(body: Seq<Node>, p: isize)
    requires
        multiplies(body),
    ensures
        gain(body, p, p as int) == -1,
{
    let k = choose|k: int|
        {
            &&& 0 <= k < body.len()
            &&& #[trigger] body[k] matches Node::Add(count, offset)
            &&& count == -1
            &&& offset == 0
            &&& forall|j: int| 0 <= j < body.len() && j != k ==> !on_counter(#[trigger] body[j])
        };
    lemma_gain_of_counter(body, p, k);
}

/// Scaling by one and then by `k` is scaling by `k + 1`.
pub proof fn lemma_scaled_again(body: Seq<Node>, s: State, k: int)
    ensures
        scaled(body, scaled(body, s, 1), k) == scaled(body, s, k + 1),
        scaled(body, s, 0) == s,
{
    let once = scaled(body, s, 1);
    assert forall|a: int| #[trigger] (scaled(body, once, k).cells)(a) == (scaled(
        body,
        s,
        k + 1,
    ).cells)(a) by {
        let g = gain(body, s.ptr, a);
        lemma_wrap32_laws(k * g, s.read(a) + 1 * g, 0, 0, 0);
        assert(k * g + (s.read(a) + 1 * g) == s.read(a) + (k + 1) * g) by (nonlinear_arith);
    }
    assert(scaled(body, once, k).cells =~= scaled(body, s, k + 1).cells);
    assert forall|a: int| #[trigger] (scaled(body, s, 0).cells)(a) == (s.cells)(a) by {
        lemma_wrap32_laws(0, 0, 0, s.read(a), 0);
    }
    assert(scaled(body, s, 0).cells =~= s.cells);
}

/// `n` rounds of a body of `Add` and `Nop` add `n` times its gain.
pub proof fn lemma_repeated(body: Seq<Node>, s: State, n: nat)
    requires
        adds_only(body),
    ensures
        repeated(body, s, n) == Outcome::Done(scaled(body, s, n as int)),
    decreases n,
{
    lemma_scaled_again(body, s, n - 1);
    if n > 0 {
        lemma_one_round(body, s, 0);
        lemma_repeated(body, scaled(body, s, 1), (n - 1) as nat);
    }
}

/// A multiplying loop with fuel for all its rounds comes to its end, and has
/// then added to every cell its gain times the number of rounds.
pub proof fn lemma_loop_unrolls(body: Seq<Node>, s: State, fuel: nat)
    requires
        multiplies(body),
        rounds(s) <= fuel,
    ensures
        run_one(Node::Loop(body), s, fuel, None) == Outcome::Done(
            scaled(body, s, rounds(s) as int),
        ),
    decreases fuel,
{
    let p = s.ptr as int;
    lemma_wadd_laws(s.ptr, 0, 0);
    assert(s.at(0) == p);
    lemma_scaled_again(body, s, rounds(s) - 1);
    if s.read(p) != 0 {
        let s1 = scaled(body, s, 1);
        lemma_one_round(body, s, (fuel - 1) as nat);
        lemma_counter_goes_down(body, s.ptr);
        lemma_wrap32_zero(s.read(p) - 1);
        assert(s1.read(p) == wrap32(s.read(p) + 1 * gain(body, s.ptr, p)));
        assert(rounds(s1) == rounds(s) - 1);
        lemma_loop_unrolls(body, s1, (fuel - 1) as nat);
    }
}

/// The state `s` after every cell but the counter has taken the counter times
/// the gain of `body`.
pub open spec fn multiplied(body: Seq<Node>, s: State) -> State {
    State {
        cells: |a: int|
            if a == s.ptr {
                s.read(a)
            } else {
                wrap32(s.read(a) + s.read(s.ptr as int) * gain(body, s.ptr, a))
            },
        ..s
    }
}

/// The products of a body do the multiplying: see [`multiplied`].
pub proof fn lemma_products_run(body: Seq<Node>, s: State, fuel: nat)
    requires
        adds_only(body),
    ensures
        run(products(body), s, fuel, None) == Outcome::Done(multiplied(body, s)),
    decreases body.len(),
{
    let p = s.ptr as int;
    let v = s.read(p);
    if body.len() == 0 {
        assert forall|a: int| #[trigger] (multiplied(body, s).cells)(a) == (s.cells)(a) by {
            lemma_wrap32_laws(0, 0, 0, s.read(a), 0);
        }
        assert(multiplied(body, s).cells =~= s.cells);
    } else {
        let before = body.drop_last();
        let last = body.last();
        assert(body[body.len() - 1] is Add || body[body.len() - 1] is Nop);
        assert(adds_only(before));
        lemma_products_run(before, s, fuel);
        let s1 = multiplied(before, s);
        match last {
            Node::Add(count, offset) => {
                lemma_wadd_laws(s.ptr, offset, 0);
                if offset != 0 {
                    let e = Node::Mul(count, offset, 0);
                    let target = wadd(s.ptr, offset) as int;
                    lemma_run_push(products(before), e, s, fuel, None);
                    assert(s1.at(0) == p);
                    assert(s1.moved(offset).at(0) == target);
                    let product = cell_mul(s1.read(p), count);
                    let s2 = s1.write(target, cell_add(s1.read(target), product));
                    assert(run_one(e, s1, fuel, None) == Outcome::Done(s2));
                    assert forall|a: int| #[trigger] (s2.cells)(a) == (multiplied(body, s).cells)(
                        a,
                    ) by {
                        if a == target {
                            let g = gain(before, s.ptr, a);
                            lemma_wrap32_laws(0, 0, 0, s1.read(a), wrap32(v * count));
                            lemma_wrap32_laws(0, 0, 0, v, count);
                            lemma_wrap32_laws(s1.read(a) as int, v * count, 0, 0, 0);
                            lemma_wrap32_laws(v * count, s.read(a) + v * g, 0, 0, 0);
                            assert(v * count + (s.read(a) + v * g) == s.read(a) + v * (g + count))
                                by (nonlinear_arith);
                        }
                    }
                    assert(s2.cells =~= multiplied(body, s).cells);
                } else {
                    assert(s1.cells =~= multiplied(body, s).cells);
                }
            },
            _ => {
                assert(s1.cells =~= multiplied(body, s).cells);
            },
        }
    }
}

/// The multiplication of a multiplying body does at once what the loop does in
/// all its rounds.
pub proof fn lemma_multiplication_runs(body: Seq<Node>, s: State, fuel: nat)
    requires
        multiplies(body),
    ensures
        run(multiplication(body), s, fuel, None) == Outcome::Done(
            scaled(body, s, rounds(s) as int),
        ),
{
    let p = s.ptr as int;
    let v = s.read(p);
    let n = rounds(s) as int;
    lemma_products_run(body, s, fuel);
    lemma_run_push(products(body), Node::Clear(0), s, fuel, None);
    lemma_wadd_laws(s.ptr, 0, 0);
    lemma_counter_goes_down(body, s.ptr);
    let s1 = multiplied(body, s);
    let s2 = s1.write(p, 0);
    assert(s1.at(0) == p);
    assert(run_one(Node::Clear(0), s1, fuel, None) == Outcome::Done(s2));
    let t = (n - v) / 0x1_0000_0000;
    assert(n == v + t * 0x1_0000_0000);
    assert forall|a: int| #[trigger] (s2.cells)(a) == (scaled(body, s, n).cells)(a) by {
        let g = gain(body, s.ptr, a);
        if a == p {
            assert(n * g == -n) by (nonlinear_arith)
                requires
                    g == -1,
            ;
            lemma_wrap32_zero(v + n * g);
        } else {
            lemma_wrap32_laws(s.read(a) + v * g, 0, t * g, 0, 0);
            assert(s.read(a) + v * g + (t * g) * 0x1_0000_0000 == s.read(a) + n * g)
                by (nonlinear_arith)
                requires
                    n == v + t * 0x1_0000_0000,
            ;
        }
    }
    assert(s2.cells =~= scaled(body, s, n).cells);
}

/// Strength reduction is sound: a multiplying loop that has fuel for all its
/// rounds ends as its multiplication does, which needs no fuel.
pub proof fn lemma_multiplication_alike(body: Seq<Node>, s: State, fuel: nat, any: nat)
    requires
        multiplies(body),
        rounds(s) <= fuel,
    ensures
        run_one(Node::Loop(body), s, fuel, None) == run(multiplication(body), s, any, None),
        run(multiplication(body), s, any, None) is Done,
{
    lemma_loop_unrolls(body, s, fuel);
    lemma_multiplication_runs(body, s, any);
}

/// The multiplication of a multiplying body, applied once to a state whose
/// counter holds `n`, leaves what `n` rounds of the body leave, and the counter at zero.
pub proof fn lemma_multiplication_is_repetition(body: Seq<Node>, s: State, n: nat)
    requires
        multiplies(body),
        s.read(s.ptr as int) == n,
    ensures
        run(multiplication(body), s, 0, None) == repeated(body, s, n),
        repeated(body, s, n) matches Outcome::Done(after) && after.read(s.ptr as int) == 0,
{
    lemma_multiplication_runs(body, s, 0);
    lemma_repeated(body, s, n);
    lemma_counter_goes_down(body, s.ptr);
    let g = gain(body, s.ptr, s.ptr as int);
    assert(n + n * g == 0) by (nonlinear_arith)
        requires
            g == -1,
    ;
    lemma_wrap32_zero(n + n * g);
    assert(rounds(s) == n);
}

} // verus!
