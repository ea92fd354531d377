use crate::frontend::{lemma_nodes_of_index, node_of, nodes_of, Expr, Node};
use crate::machine::{
    cell_add, cell_mul, on_tape, run, run_one, step, wadd, Outcome, State, END_OF_INPUT,
};
use vstd::prelude::*;

verus! {

/// The number of cells on the tape of an [`Interpreter`].
pub const MEMORY_SIZE: usize = 65535;

/// Why a run stopped before the end of the program.
#[derive(Debug, Clone, Copy, PartialEq, Eq, Structural)]
pub enum Halt {
    /// A cell outside the tape was addressed.
    OutOfBounds,
    /// Some loop went round more often than the fuel allows.
    OutOfFuel,
}

/// A tree-walking evaluator of the intermediate representation, on a tape of
/// [`MEMORY_SIZE`] cells, reading from a given input and collecting its output.
pub struct Interpreter {
    address: isize,
    memory: Vec<i32>,
    input: Vec<u8>,
    consumed: usize,
    output: Vec<i32>,
}

impl View for Interpreter {
    type V = State;

    closed spec fn view(&self) -> State {
        State {
            ptr: self.address,
            cells: |a: int|
                if 0 <= a < self.memory@.len() {
                    self.memory@[a]
                } else {
                    0i32
                },
            input: self.input@.skip(self.consumed as int),
            output: self.output@,
        }
    }
}

impl Interpreter {
    /// The invariant of the evaluator: a tape of full length, and no more input
    /// consumed than there is.
    pub closed spec fn wf(&self) -> bool {
        &&& self.memory@.len() == MEMORY_SIZE
        &&& self.consumed <= self.input@.len()
    }

    /// The tape of this evaluator, as the memory model sees it.
    pub open spec fn tape() -> Option<nat> {
        Some(MEMORY_SIZE as nat)
    }

    /// An evaluator in the initial state: pointer 0, every cell 0, nothing
    /// written, and all of `input` still to read.
    pub fn new(input: Vec<u8>) -> (interpreter: Self)
        ensures
            interpreter.wf(),
            interpreter@ == State::initial(input@),
    {
        let mut memory: Vec<i32> = Vec::new();
        while memory.len() < MEMORY_SIZE
            invariant
                memory@.len() <= MEMORY_SIZE,
                forall|i: int| 0 <= i < memory@.len() ==> memory@[i] == 0,
            decreases MEMORY_SIZE - memory@.len(),
        {
            memory.push(0);
        }
        let interpreter = Interpreter {
            address: 0,
            memory,
            input,
            consumed: 0,
            output: Vec::new(),
        };
        proof {
            assert(interpreter@.cells =~= State::initial(input@).cells);
            assert(interpreter@.input =~= input@);
            assert(interpreter@.output =~= Seq::<i32>::empty());
        }
        interpreter
    }

    /// The pointer.
    pub fn pointer(&self) -> (p: isize)
        ensures
            p == self@.ptr,
    {
        self.address
    }

    /// The cell at `index`; a cell beyond the tape reads as zero.
    pub fn cell(&self, index: usize) -> (v: i32)
        requires
            self.wf(),
        ensures
            v == self@.read(index as int),
    {
        if index < self.memory.len() {
            self.memory[index]
        } else {
            0
        }
    }

    /// The values handed to the output routine so far.
    pub fn output(&self) -> (out: &Vec<i32>)
        ensures
            out@ == self@.output,
    {
        &self.output
    }

    /// The tape index that `offset` names, if it lies on the tape.
    fn locate(&self, offset: isize) -> (place: Option<usize>)
        requires
            self.wf(),
        ensures
            match place {
                Some(a) => a == self@.at(offset) && a < MEMORY_SIZE,
                None => !on_tape(self@.at(offset), Self::tape()),
            },
    {
        proof {
            reveal(wadd);
        }
        let a = self.address.wrapping_add(offset);
        if 0 <= a && (a as usize) < MEMORY_SIZE {
            Some(a as usize)
        } else {
            None
        }
    }

    /// Stores `v` in the cell at `a`.
    fn store(&mut self, a: usize, v: i32)
        requires
            old(self).wf(),
            a < MEMORY_SIZE,
        ensures
            final(self).wf(),
            final(self)@ == old(self)@.write(a as int, v),
    {
        self.memory.set(a, v);
        proof {
            assert(self@.cells =~= old(self)@.write(a as int, v).cells);
        }
    }

    /// Applies one node that is not a loop.
    fn apply(&mut self, e: &Expr) -> (result: Result<(), Halt>)
        requires
            old(self).wf(),
            !(e is Loop),
        ensures
            final(self).wf(),
            match step(node_of(*e), old(self)@, Self::tape()) {
                Some(s) => result is Ok && final(self)@ == s,
                None => result == Err::<(), Halt>(Halt::OutOfBounds),
            },
    {
        proof {
            reveal(wadd);
            reveal(cell_add);
            reveal(cell_mul);
        }
        match e {
            Expr::Add(count, offset) => {
                match self.locate(*offset) {
                    Some(a) => {
                        let v = self.memory[a].wrapping_add(*count);
                        self.store(a, v);
                        Ok(())
                    },
                    None => Err(Halt::OutOfBounds),
                }
            },
            Expr::Move(offset) => {
                self.address = self.address.wrapping_add(*offset);
                Ok(())
            },
            Expr::Out(offset) => {
                match self.locate(*offset) {
                    Some(a) => {
                        let v = self.memory[a];
                        self.output.push(v);
                        Ok(())
                    },
                    None => Err(Halt::OutOfBounds),
                }
            },
            Expr::In(offset) => {
                match self.locate(*offset) {
                    Some(a) => {
                        if self.consumed < self.input.len() {
                            let v = self.input[self.consumed] as i32;
                            self.consumed += 1;
                            proof {
                                assert(self@.input =~= old(self)@.input.drop_first());
                            }
                            self.store(a, v);
                        } else {
                            self.store(a, END_OF_INPUT);
                        }
                        Ok(())
                    },
                    None => Err(Halt::OutOfBounds),
                }
            },
            Expr::Clear(offset) => {
                match self.locate(*offset) {
                    Some(a) => {
                        self.store(a, 0);
                        Ok(())
                    },
                    None => Err(Halt::OutOfBounds),
                }
            },
            Expr::Mul(count, index, offset) => {
                let source = self.locate(*offset);
                let target = self.locate(index.wrapping_add(*offset));
                proof {
                    crate::machine::lemma_wadd_laws(self.address, *index, *offset);
                }
                match (source, target) {
                    (Some(src), Some(dst)) => {
                        let product = self.memory[src].wrapping_mul(*count);
                        let v = self.memory[dst].wrapping_add(product);
                        self.store(dst, v);
                        Ok(())
                    },
                    _ => Err(Halt::OutOfBounds),
                }
            },
            Expr::Nop => Ok(()),
            Expr::Loop(_) => Ok(()),
        }
    }

    /// Runs `commands` from the current state. A loop may go round at most
    /// `fuel` times, and each round leaves one unit less for the loops inside it
    /// and for the rounds after it. Of the state after an error nothing is said.
    pub fn eval(&mut self, commands: &[Expr], fuel: u64) -> (result: Result<(), Halt>)
        requires
            old(self).wf(),
        ensures
            final(self).wf(),
            match run(nodes_of(commands@), old(self)@, fuel as nat, Self::tape()) {
                Outcome::Done(s) => result is Ok && final(self)@ == s,
                Outcome::OutOfBounds => result == Err::<(), Halt>(Halt::OutOfBounds),
                Outcome::OutOfFuel => result == Err::<(), Halt>(Halt::OutOfFuel),
            },
        decreases fuel, 1nat,
    {
        let n = commands.len();
        let ghost prog = nodes_of(commands@);
        let ghost goal = run(prog, self@, fuel as nat, Self::tape());
        let mut i: usize = 0;
        proof {
            lemma_nodes_of_index(commands@, 0);
            assert(prog.skip(0) =~= prog);
        }
        while i < n
            invariant
                i <= n,
                n == commands@.len(),
                prog == nodes_of(commands@),
                prog.len() == n,
                self.wf(),
                goal == run(prog, old(self)@, fuel as nat, Self::tape()),
                run(prog.skip(i as int), self@, fuel as nat, Self::tape()) == goal,
            decreases n - i,
        {
            let ghost here = self@;
            let ghost whole = run_one(prog[i as int], here, fuel as nat, Self::tape());
            proof {
                lemma_nodes_of_index(commands@, i as int);
                assert(prog.skip(i as int)[0] == prog[i as int]);
                assert(prog.skip(i as int).drop_first() =~= prog.skip(i + 1));
                assert(goal == crate::machine::then_run(
                    whole,
                    prog.skip(i + 1),
                    fuel as nat,
                    Self::tape(),
                ));
            }
            let outcome = match &commands[i] {
                Expr::Loop(body) => self.eval_loop(body.as_slice(), fuel),
                other => self.apply(other),
            };
            match outcome {
                Ok(()) => {},
                Err(halt) => {
                    return Err(halt);
                },
            }
            i += 1;
        }
        proof {
            assert(prog.skip(n as int).len() == 0);
        }
        Ok(())
    }

    /// Runs the loop with this body from the current state.
    fn eval_loop(&mut self, body: &[Expr], fuel: u64) -> (result: Result<(), Halt>)
        requires
            old(self).wf(),
        ensures
            final(self).wf(),
            match run_one(Node::Loop(nodes_of(body@)), old(self)@, fuel as nat, Self::tape()) {
                Outcome::Done(s) => result is Ok && final(self)@ == s,
                Outcome::OutOfBounds => result == Err::<(), Halt>(Halt::OutOfBounds),
                Outcome::OutOfFuel => result == Err::<(), Halt>(Halt::OutOfFuel),
            },
        decreases fuel, 0nat,
    {
        let ghost node = Node::Loop(nodes_of(body@));
        let ghost whole = run_one(node, self@, fuel as nat, Self::tape());
        let mut left: u64 = fuel;
        loop
            invariant_except_break
                self.wf(),
                left <= fuel,
                node == Node::Loop(nodes_of(body@)),
                whole == run_one(node, old(self)@, fuel as nat, Self::tape()),
                run_one(node, self@, left as nat, Self::tape()) == whole,
            ensures
                self.wf(),
                whole == Outcome::Done(self@),
            decreases left,
        {
            match self.locate(0) {
                Some(a) => {
                    if self.memory[a] == 0 {
                        break ;
                    }
                },
                None => {
                    return Err(Halt::OutOfBounds);
                },
            }
            if left == 0 {
                return Err(Halt::OutOfFuel);
            }
            left -= 1;
            match self.eval(body, left) {
                Ok(()) => {},
                Err(halt) => {
                    return Err(halt);
                },
            }
        }
        Ok(())
    }
}

} // verus!
