use crate::frontend::Node;
use vstd::prelude::*;

verus! {

/// Pointer arithmetic: addition that wraps at the width of an address.
#[verifier::opaque]
pub open spec fn wadd(p: isize, o: isize) -> isize {
    vstd::wrapping::isize_specs::wrapping_add(p, o)
}

/// Wrapping addition is associative and commutative, zero is neutral, and
/// only zero leaves a value where it was.
pub proof fn lemma_wadd_laws(a: isize, b: isize, c: isize)
    ensures
        wadd(wadd(a, b), c) == wadd(a, wadd(b, c)),
        wadd(wadd(a, b), c) == wadd(wadd(a, c), b),
        wadd(a, b) == wadd(b, a),
        wadd(a, 0) == a,
        wadd(0, a) == a,
        wadd(a, b) == a <==> b == 0,
{
    reveal(wadd);
}

/// Cell arithmetic: addition modulo the 32-bit cell width.
#[verifier::opaque]
pub open spec fn cell_add(v: i32, c: i32) -> i32 {
    vstd::wrapping::i32_specs::wrapping_add(v, c)
}

/// Cell arithmetic: multiplication modulo the 32-bit cell width.
#[verifier::opaque]
pub open spec fn cell_mul(v: i32, c: i32) -> i32 {
    vstd::wrapping::i32_specs::wrapping_mul(v, c)
}

/// What the input routine hands back once the input is used up.
pub const END_OF_INPUT: i32 = -1;

/// The memory model: a pointer, a tape of 32-bit cells, and the two streams.
pub struct State {
    /// The selected position. Only `Move` changes it.
    pub ptr: isize,
    /// The tape, one cell for every index.
    pub cells: spec_fn(int) -> i32,
    /// The bytes that have not been read yet.
    pub input: Seq<u8>,
    /// The values handed to the output routine so far.
    pub output: Seq<i32>,
}

impl State {
    /// The state in which a program starts: pointer 0, every cell 0, nothing written.
    pub open spec fn initial(input: Seq<u8>) -> State {
        State { ptr: 0, cells: |a: int| 0i32, input, output: Seq::empty() }
    }

    /// The index that `offset` names from the current pointer.
    pub open spec fn at(self, offset: isize) -> int {
        wadd(self.ptr, offset) as int
    }

    /// The cell at index `a`.
    pub open spec fn read(self, a: int) -> i32 {
        (self.cells)(a)
    }

    /// This state with `v` in the cell at index `a`.
    pub open spec fn write(self, a: int, v: i32) -> State {
        State {
            cells: |i: int|
                if i == a {
                    v
                } else {
                    (self.cells)(i)
                },
            ..self
        }
    }

    /// This state with the pointer moved by `offset`.
    pub open spec fn moved(self, offset: isize) -> State {
        State { ptr: wadd(self.ptr, offset), ..self }
    }
}

/// Whether index `a` lies on a tape of `size` cells; `None` is the tape without end.
pub open spec fn on_tape(a: int, size: Option<nat>) -> bool {
    size matches Some(n) ==> 0 <= a < n
}

/// How a run ends.
pub enum Outcome {
    /// The program ran to its end and left this state.
    Done(State),
    /// A cell outside the tape was addressed.
    OutOfBounds,
    /// Some loop went round more often than the fuel allows.
    OutOfFuel,
}

/// One node that is not a loop, applied to `s`. `None`: it addressed a cell outside the tape.
pub open spec fn step(e: Node, s: State, size: Option<nat>) -> Option<State> {
    match e {
        Node::Add(count, offset) => {
            let a = s.at(offset);
            if on_tape(a, size) {
                Some(s.write(a, cell_add(s.read(a), count)))
            } else {
                None
            }
        },
        Node::Move(offset) => Some(s.moved(offset)),
        Node::Out(offset) => {
            let a = s.at(offset);
            if on_tape(a, size) {
                Some(State { output: s.output.push(s.read(a)), ..s })
            } else {
                None
            }
        },
        Node::In(offset) => {
            let a = s.at(offset);
            if !on_tape(a, size) {
                None
            } else if s.input.len() > 0 {
                Some(State { input: s.input.drop_first(), ..s }.write(a, s.input[0] as i32))
            } else {
                Some(s.write(a, END_OF_INPUT))
            }
        },
        Node::Clear(offset) => {
            let a = s.at(offset);
            if on_tape(a, size) {
                Some(s.write(a, 0))
            } else {
                None
            }
        },
        Node::Mul(count, index, offset) => {
            let src = s.at(offset);
            let dst = s.moved(index).at(offset);
            if on_tape(src, size) && on_tape(dst, size) {
                Some(s.write(dst, cell_add(s.read(dst), cell_mul(s.read(src), count))))
            } else {
                None
            }
        },
        Node::Nop => Some(s),
        Node::Loop(_) => Some(s),
    }
}

/// One node, run from `s`. A loop may go round at most `fuel` times, and each
/// round leaves one unit less for the loops inside it and for the rounds after it.
pub open spec fn run_one(e: Node, s: State, fuel: nat, size: Option<nat>) -> Outcome
    decreases fuel, 0nat,
{
    match e {
        Node::Loop(body) => {
            if !on_tape(s.at(0), size) {
                Outcome::OutOfBounds
            } else if s.read(s.at(0)) == 0 {
                Outcome::Done(s)
            } else if fuel == 0 {
                Outcome::OutOfFuel
            } else {
                match run(body, s, (fuel - 1) as nat, size) {
                    Outcome::Done(s1) => run_one(e, s1, (fuel - 1) as nat, size),
                    other => other,
                }
            }
        },
        _ => match step(e, s, size) {
            Some(s1) => Outcome::Done(s1),
            None => Outcome::OutOfBounds,
        },
    }
}

/// A sequence of nodes, run from `s` in order.
pub open spec fn run(prog: Seq<Node>, s: State, fuel: nat, size: Option<nat>) -> Outcome
    decreases fuel, prog.len() + 1,
{
    if prog.len() == 0 {
        Outcome::Done(s)
    } else {
        match run_one(prog[0], s, fuel, size) {
            Outcome::Done(s1) => run(prog.drop_first(), s1, fuel, size),
            other => other,
        }
    }
}

/// `first`, and then `rest` from the state that `first` left.
pub open spec fn then_run(
    first: Outcome,
    rest: Seq<Node>,
    fuel: nat,
    size: Option<nat>,
) -> Outcome {
    match first {
        Outcome::Done(s1) => run(rest, s1, fuel, size),
        other => other,
    }
}

/// `first`, and then the one node `e` from the state that `first` left.
pub open spec fn then_one(first: Outcome, e: Node, fuel: nat, size: Option<nat>) -> Outcome {
    match first {
        Outcome::Done(s1) => run_one(e, s1, fuel, size),
        other => other,
    }
}

/// A program of one node runs as that node does.
pub proof fn lemma_run_single(e: Node, s: State, fuel: nat, size: Option<nat>)
    ensures
        run(seq![e], s, fuel, size) == run_one(e, s, fuel, size),
{
    let prog = seq![e];
    assert(prog.drop_first().len() == 0);
    match run_one(e, s, fuel, size) {
        Outcome::Done(s1) => {
            assert(run(prog.drop_first(), s1, fuel, size) == Outcome::Done(s1));
        },
        _ => {},
    }
}

/// Running `p + q` is running `p` and then `q`.
pub proof fn lemma_run_concat(p: Seq<Node>, q: Seq<Node>, s: State, fuel: nat, size: Option<nat>)
    ensures
        run(p + q, s, fuel, size) == then_run(run(p, s, fuel, size), q, fuel, size),
    decreases p.len(),
{
    if p.len() == 0 {
        assert(p + q =~= q);
    } else {
        assert((p + q)[0] == p[0]);
        assert((p + q).drop_first() =~= p.drop_first() + q);
        match run_one(p[0], s, fuel, size) {
            Outcome::Done(s1) => {
                lemma_run_concat(p.drop_first(), q, s1, fuel, size);
            },
            _ => {},
        }
    }
}

/// Running `p.push(e)` is running `p` and then `e`.
pub proof fn lemma_run_push(p: Seq<Node>, e: Node, s: State, fuel: nat, size: Option<nat>)
    ensures
        run(p.push(e), s, fuel, size) == then_one(run(p, s, fuel, size), e, fuel, size),
{
    assert(p.push(e) =~= p + seq![e]);
    lemma_run_concat(p, seq![e], s, fuel, size);
    match run(p, s, fuel, size) {
        Outcome::Done(s1) => {
            lemma_run_single(e, s1, fuel, size);
        },
        _ => {},
    }
}

/// On the tape without end no cell is out of bounds.
pub proof fn lemma_ideal_one_in_bounds(e: Node, s: State, fuel: nat)
    ensures
        !(run_one(e, s, fuel, None) is OutOfBounds),
    decreases fuel, 0nat,
{
    if let Node::Loop(body) = e {
        if s.read(s.at(0)) != 0 && fuel > 0 {
            lemma_ideal_in_bounds(body, s, (fuel - 1) as nat);
            if let Outcome::Done(s1) = run(body, s, (fuel - 1) as nat, None) {
                lemma_ideal_one_in_bounds(e, s1, (fuel - 1) as nat);
            }
        }
    }
}

/// On the tape without end no cell is out of bounds.
pub proof fn lemma_ideal_in_bounds(prog: Seq<Node>, s: State, fuel: nat)
    ensures
        !(run(prog, s, fuel, None) is OutOfBounds),
    decreases fuel, prog.len() + 1,
{
    if prog.len() > 0 {
        lemma_ideal_one_in_bounds(prog[0], s, fuel);
        if let Outcome::Done(s1) = run_one(prog[0], s, fuel, None) {
            lemma_ideal_in_bounds(prog.drop_first(), s1, fuel);
        }
    }
}

/// More fuel changes nothing of a run that did not run out of it.
pub proof fn lemma_more_fuel_one(e: Node, s: State, fuel: nat, more: nat, size: Option<nat>)
    requires
        fuel <= more,
        !(run_one(e, s, fuel, size) is OutOfFuel),
    ensures
        run_one(e, s, more, size) == run_one(e, s, fuel, size),
    decreases fuel, 0nat,
{
    if let Node::Loop(body) = e {
        if on_tape(s.at(0), size) && s.read(s.at(0)) != 0 {
            lemma_more_fuel(body, s, (fuel - 1) as nat, (more - 1) as nat, size);
            if let Outcome::Done(s1) = run(body, s, (fuel - 1) as nat, size) {
                lemma_more_fuel_one(e, s1, (fuel - 1) as nat, (more - 1) as nat, size);
            }
        }
    }
}

/// More fuel changes nothing of a run that did not run out of it.
pub proof fn lemma_more_fuel(prog: Seq<Node>, s: State, fuel: nat, more: nat, size: Option<nat>)
    requires
        fuel <= more,
        !(run(prog, s, fuel, size) is OutOfFuel),
    ensures
        run(prog, s, more, size) == run(prog, s, fuel, size),
    decreases fuel, prog.len() + 1,
{
    if prog.len() > 0 {
        lemma_more_fuel_one(prog[0], s, fuel, more, size);
        if let Outcome::Done(s1) = run_one(prog[0], s, fuel, size) {
            lemma_more_fuel(prog.drop_first(), s1, fuel, more, size);
        }
    }
}

/// What ran to its end on a tape of some size runs to the same end on the tape
/// without end.
pub proof fn lemma_bounded_run_one_is_ideal(e: Node, s: State, fuel: nat, size: Option<nat>)
    requires
        run_one(e, s, fuel, size) is Done,
    ensures
        run_one(e, s, fuel, None) == run_one(e, s, fuel, size),
    decreases fuel, 0nat,
{
    if let Node::Loop(body) = e {
        if s.read(s.at(0)) != 0 {
            lemma_bounded_run_is_ideal(body, s, (fuel - 1) as nat, size);
            if let Outcome::Done(s1) = run(body, s, (fuel - 1) as nat, size) {
                lemma_bounded_run_one_is_ideal(e, s1, (fuel - 1) as nat, size);
            }
        }
    }
}

/// What ran to its end on a tape of some size runs to the same end on the tape
/// without end.
pub proof fn lemma_bounded_run_is_ideal(prog: Seq<Node>, s: State, fuel: nat, size: Option<nat>)
    requires
        run(prog, s, fuel, size) is Done,
    ensures
        run(prog, s, fuel, None) == run(prog, s, fuel, size),
    decreases fuel, prog.len() + 1,
{
    if prog.len() > 0 {
        lemma_bounded_run_one_is_ideal(prog[0], s, fuel, size);
        if let Outcome::Done(s1) = run_one(prog[0], s, fuel, size) {
            lemma_bounded_run_is_ideal(prog.drop_first(), s1, fuel, size);
        }
    }
}

} // verus!
