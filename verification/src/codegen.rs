use crate::frontend::{lemma_nodes_of_index, nodes_of, Expr, Node};
use vstd::prelude::*;

verus! {

/// One instruction of the function that a program is lowered to. A value is
/// named by the slot that holds it, a block by the index of the instruction
/// that enters it. The pointer is a variable of its own and holds a byte
/// offset into the data segment, four bytes to a cell.
#[derive(Debug, Clone, Copy, PartialEq, Eq, Structural)]
pub enum Inst {
    /// `into` := the address-sized constant 0.
    Origin { into: u8 },
    /// `into` := the pointer variable.
    Pointer { into: u8 },
    /// The pointer variable := `value`.
    SetPointer { value: u8 },
    /// `into` := the address of the data segment + `value`.
    AddBase { into: u8, value: u8 },
    /// `into` := the address `value` + `imm` bytes, wrapping.
    Offset { into: u8, value: u8, imm: i64 },
    /// `into` := the 32-bit `value` + `imm`, wrapping.
    AddImm { into: u8, value: u8, imm: i64 },
    /// `into` := the 32-bit `value` * `imm`, wrapping.
    MulImm { into: u8, value: u8, imm: i64 },
    /// `into` := the 32-bit `left` + `right`, wrapping.
    Sum { into: u8, left: u8, right: u8 },
    /// `into` := the 32-bit constant 0.
    Zero { into: u8 },
    /// `into` := the 32-bit cell at `address`.
    Load { into: u8, address: u8 },
    /// The 32-bit cell at `address` := `value`.
    Store { value: u8, address: u8 },
    /// `into` := what the input routine returns.
    Read { into: u8 },
    /// `value` goes to the output routine.
    Write { value: u8 },
    /// A new block of the name `block`.
    NewBlock { block: usize },
    /// Control goes to `block`.
    Jump { block: usize },
    /// Control goes to `block` if `value` is zero, and to the next instruction if not.
    BranchIfZero { value: u8, block: usize },
    /// What follows is the code of `block`. This instruction stands at index `block`.
    Enter { block: usize },
    /// No jump to `block` will be added any more.
    Seal { block: usize },
    /// The function returns.
    Return,
}

/// The name of the input routine: it takes nothing and returns one byte, or -1
/// where the input has ended, as a 32-bit value.
pub const INPUT_ROUTINE: &'static str = "getchar";

/// The name of the output routine: it takes one 32-bit value, writes its low
/// byte, and returns it.
pub const OUTPUT_ROUTINE: &'static str = "putchar";

/// The name of the data segment.
pub const DATA_SEGMENT: &'static str = "data";

/// The name of the function that a program is lowered to.
pub const ENTRY_POINT: &'static str = "main";

/// The number of cells of the data segment.
pub const DATA_SIZE: usize = 65535;

/// The number of bytes of the data segment: four to a cell.
pub const DATA_BYTES: usize = 262140;

/// The byte offset of a cell offset: four bytes to a cell, wrapping at 64 bits.
pub open spec fn byte_offset(offset: isize) -> i64 {
    vstd::wrapping::i64_specs::wrapping_mul(4, offset as i64)
}

/// The instructions that leave in slot 2 the address of the cell at pointer + `offset`.
pub open spec fn address_code(offset: isize) -> Seq<Inst> {
    seq![
        Inst::Pointer { into: 0 },
        Inst::AddBase { into: 1, value: 0 },
        Inst::Offset { into: 2, value: 1, imm: byte_offset(offset) },
    ]
}

/// The number of instructions that open a loop.
pub const LOOP_ENTRY: usize = 12;

/// The instructions that open a loop with the blocks `header`, `inside` and
/// `exit`: the three blocks, the jump into the header, and the header, which
/// leaves the loop if the cell at the pointer is zero and enters the body if not.
pub open spec fn loop_entry(header: usize, inside: usize, exit: usize) -> Seq<Inst> {
    seq![
        Inst::NewBlock { block: header },
        Inst::NewBlock { block: inside },
        Inst::NewBlock { block: exit },
        Inst::Jump { block: header },
        Inst::Enter { block: header },
        Inst::Pointer { into: 0 },
        Inst::AddBase { into: 1, value: 0 },
        Inst::Offset { into: 2, value: 1, imm: 0 },
        Inst::Load { into: 3, address: 2 },
        Inst::BranchIfZero { value: 3, block: exit },
        Inst::Jump { block: inside },
        Inst::Enter { block: inside },
    ]
}

/// The instructions that close a loop: back to the header, and on in the exit block.
pub open spec fn loop_exit(header: usize, inside: usize, exit: usize) -> Seq<Inst> {
    seq![
        Inst::Jump { block: header },
        Inst::Enter { block: exit },
        Inst::Seal { block: header },
        Inst::Seal { block: inside },
        Inst::Seal { block: exit },
    ]
}

/// The instructions of a loop that stands at index `at` and whose body has the
/// instructions `inner`. Each block is named by the index at which it is entered.
pub open spec fn loop_code(inner: Seq<Inst>, at: nat) -> Seq<Inst> {
    let header = (at + 4) as usize;
    let inside = (at + 11) as usize;
    let exit = (at + 12 + inner.len() + 1) as usize;
    loop_entry(header, inside, exit) + inner + loop_exit(header, inside, exit)
}

/// The instructions of one node, placed at index `at`.
pub open spec fn lowered_one(e: Node, at: nat) -> Seq<Inst>
    decreases e, 0nat,
{
    match e {
        Node::Add(count, offset) => address_code(offset) + seq![
            Inst::Load { into: 3, address: 2 },
            Inst::AddImm { into: 4, value: 3, imm: count as i64 },
            Inst::Store { value: 4, address: 2 },
        ],
        Node::Move(offset) => seq![
            Inst::Pointer { into: 0 },
            Inst::Offset { into: 1, value: 0, imm: byte_offset(offset) },
            Inst::SetPointer { value: 1 },
        ],
        Node::Clear(offset) => address_code(offset) + seq![
            Inst::Zero { into: 3 },
            Inst::Store { value: 3, address: 2 },
        ],
        Node::Out(offset) => address_code(offset) + seq![
            Inst::Load { into: 3, address: 2 },
            Inst::Write { value: 3 },
        ],
        Node::In(offset) => seq![Inst::Read { into: 3 }] + address_code(offset) + seq![
            Inst::Store { value: 3, address: 2 },
        ],
        Node::Mul(count, index, offset) => address_code(offset) + seq![
            Inst::Load { into: 3, address: 2 },
            Inst::MulImm { into: 4, value: 3, imm: count as i64 },
            Inst::Offset { into: 5, value: 2, imm: byte_offset(index) },
            Inst::Load { into: 6, address: 5 },
            Inst::Sum { into: 7, left: 6, right: 4 },
            Inst::Store { value: 7, address: 5 },
        ],
        Node::Loop(body) => loop_code(lowered(body, body.len(), at + 12), at),
        Node::Nop => Seq::empty(),
    }
}

/// The instructions of the first `n` nodes of a program, placed at index `at`.
pub open spec fn lowered(prog: Seq<Node>, n: nat, at: nat) -> Seq<Inst>
    decreases prog, n,
{
    if n == 0 || n > prog.len() {
        Seq::empty()
    } else {
        let before = lowered(prog, (n - 1) as nat, at);
        before + lowered_one(prog[n - 1], at + before.len())
    }
}

/// The instructions with which every function starts: the pointer is set to 0.
pub open spec fn prologue() -> Seq<Inst> {
    seq![Inst::Origin { into: 0 }, Inst::SetPointer { value: 0 }]
}

/// The whole function of a program: the prologue, the instructions of the
/// program, and the return.
pub open spec fn function_code(prog: Seq<Node>) -> Seq<Inst> {
    (prologue() + lowered(prog, prog.len(), 2)).push(Inst::Return)
}

/// Lowers intermediate representation into the instructions of one function.
pub struct FunctionTranslator {
    code: Vec<Inst>,
}

impl View for FunctionTranslator {
    type V = Seq<Inst>;

    closed spec fn view(&self) -> Seq<Inst> {
        self.code@
    }
}

impl FunctionTranslator {
    /// A translator that has emitted the prologue.
    pub fn new() -> (translator: Self)
        ensures
            translator@ == prologue(),
    {
        let mut code: Vec<Inst> = Vec::new();
        code.push(Inst::Origin { into: 0 });
        code.push(Inst::SetPointer { value: 0 });
        proof {
            assert(code@ =~= prologue());
        }
        FunctionTranslator { code }
    }

    /// Emits the instructions that leave in slot 2 the address of the cell at
    /// pointer + `offset`.
    pub fn address(&mut self, offset: isize)
        ensures
            final(self)@ == old(self)@ + address_code(offset),
    {
        self.code.push(Inst::Pointer { into: 0 });
        self.code.push(Inst::AddBase { into: 1, value: 0 });
        self.code.push(Inst::Offset { into: 2, value: 1, imm: 4i64.wrapping_mul(offset as i64) });
        proof {
            assert(self@ =~= old(self)@ + address_code(offset));
        }
    }

    fn emit_add(&mut self, count: i32, offset: isize)
        ensures
            final(self)@ == old(self)@ + lowered_one(Node::Add(count, offset), old(self)@.len()),
    {
        self.address(offset);
        self.code.push(Inst::Load { into: 3, address: 2 });
        self.code.push(Inst::AddImm { into: 4, value: 3, imm: count as i64 });
        self.code.push(Inst::Store { value: 4, address: 2 });
        proof {
            assert(self@ =~= old(self)@ + lowered_one(Node::Add(count, offset), old(self)@.len()));
        }
    }

    fn emit_move(&mut self, offset: isize)
        ensures
            final(self)@ == old(self)@ + lowered_one(Node::Move(offset), old(self)@.len()),
    {
        self.code.push(Inst::Pointer { into: 0 });
        self.code.push(Inst::Offset { into: 1, value: 0, imm: 4i64.wrapping_mul(offset as i64) });
        self.code.push(Inst::SetPointer { value: 1 });
        proof {
            assert(self@ =~= old(self)@ + lowered_one(Node::Move(offset), old(self)@.len()));
        }
    }

    fn emit_clear(&mut self, offset: isize)
        ensures
            final(self)@ == old(self)@ + lowered_one(Node::Clear(offset), old(self)@.len()),
    {
        self.address(offset);
        self.code.push(Inst::Zero { into: 3 });
        self.code.push(Inst::Store { value: 3, address: 2 });
        proof {
            assert(self@ =~= old(self)@ + lowered_one(Node::Clear(offset), old(self)@.len()));
        }
    }

    fn emit_out(&mut self, offset: isize)
        ensures
            final(self)@ == old(self)@ + lowered_one(Node::Out(offset), old(self)@.len()),
    {
        self.address(offset);
        self.code.push(Inst::Load { into: 3, address: 2 });
        self.code.push(Inst::Write { value: 3 });
        proof {
            assert(self@ =~= old(self)@ + lowered_one(Node::Out(offset), old(self)@.len()));
        }
    }

    fn emit_in(&mut self, offset: isize)
        ensures
            final(self)@ == old(self)@ + lowered_one(Node::In(offset), old(self)@.len()),
    {
        self.code.push(Inst::Read { into: 3 });
        self.address(offset);
        self.code.push(Inst::Store { value: 3, address: 2 });
        proof {
            assert(self@ =~= old(self)@ + lowered_one(Node::In(offset), old(self)@.len()));
        }
    }

    fn emit_mul(&mut self, count: i32, index: isize, offset: isize)
        ensures
            final(self)@ == old(self)@ + lowered_one(
                Node::Mul(count, index, offset),
                old(self)@.len(),
            ),
    {
        self.address(offset);
        self.code.push(Inst::Load { into: 3, address: 2 });
        self.code.push(Inst::MulImm { into: 4, value: 3, imm: count as i64 });
        self.code.push(Inst::Offset { into: 5, value: 2, imm: 4i64.wrapping_mul(index as i64) });
        self.code.push(Inst::Load { into: 6, address: 5 });
        self.code.push(Inst::Sum { into: 7, left: 6, right: 4 });
        self.code.push(Inst::Store { value: 7, address: 5 });
        proof {
            assert(self@ =~= old(self)@ + lowered_one(
                Node::Mul(count, index, offset),
                old(self)@.len(),
            ));
        }
    }

    /// Emits the instructions that open a loop, under names that stand for
    /// the ones they get once the place of the exit is known.
    fn emit_loop_entry(&mut self)
        ensures
            final(self)@ == old(self)@ + loop_entry(0, 0, 0),
            old(self)@.len() + LOOP_ENTRY == final(self)@.len() <= usize::MAX,
    {
        self.code.push(Inst::NewBlock { block: 0 });
        self.code.push(Inst::NewBlock { block: 0 });
        self.code.push(Inst::NewBlock { block: 0 });
        self.code.push(Inst::Jump { block: 0 });
        self.code.push(Inst::Enter { block: 0 });
        self.code.push(Inst::Pointer { into: 0 });
        self.code.push(Inst::AddBase { into: 1, value: 0 });
        self.code.push(Inst::Offset { into: 2, value: 1, imm: 0 });
        self.code.push(Inst::Load { into: 3, address: 2 });
        self.code.push(Inst::BranchIfZero { value: 3, block: 0 });
        self.code.push(Inst::Jump { block: 0 });
        self.code.push(Inst::Enter { block: 0 });
        proof {
            assert(self@ =~= old(self)@ + loop_entry(0, 0, 0));
            assert(self.code@.len() == self.code.len());
        }
    }

    /// Emits the instructions that close the loop that stands at index `at`,
    /// and gives the blocks of the loop their names.
    fn emit_loop_exit(
        &mut self,
        at: usize,
        Ghost(before): Ghost<Seq<Inst>>,
        Ghost(inner): Ghost<Seq<Inst>>,
    )
        requires
            before.len() == at,
            old(self)@ == before + loop_entry(0, 0, 0) + inner,
        ensures
            final(self)@ == before + loop_code(inner, at as nat),
    {
        let end = self.code.len();
        self.code.push(Inst::Jump { block: 0 });
        self.code.push(Inst::Enter { block: 0 });
        self.code.push(Inst::Seal { block: 0 });
        self.code.push(Inst::Seal { block: 0 });
        self.code.push(Inst::Seal { block: 0 });
        proof {
            assert(self.code@.len() == self.code.len());
        }
        let header = at + 4;
        let inside = at + 11;
        let exit = end + 1;
        self.code.set(end, Inst::Jump { block: header });
        self.code.set(end + 1, Inst::Enter { block: exit });
        self.code.set(end + 2, Inst::Seal { block: header });
        self.code.set(end + 3, Inst::Seal { block: inside });
        self.code.set(end + 4, Inst::Seal { block: exit });
        self.code.set(at, Inst::NewBlock { block: header });
        self.code.set(at + 1, Inst::NewBlock { block: inside });
        self.code.set(at + 2, Inst::NewBlock { block: exit });
        self.code.set(at + 3, Inst::Jump { block: header });
        self.code.set(at + 4, Inst::Enter { block: header });
        self.code.set(at + 9, Inst::BranchIfZero { value: 3, block: exit });
        self.code.set(at + 10, Inst::Jump { block: inside });
        self.code.set(at + 11, Inst::Enter { block: inside });
        proof {
            assert(self@ =~= before + loop_code(inner, at as nat));
        }
    }

    /// Emits the instructions of `commands`, node by node.
    pub fn translate(&mut self, commands: &[Expr])
        ensures
            final(self)@ == old(self)@ + lowered(
                nodes_of(commands@),
                commands@.len(),
                old(self)@.len(),
            ),
        decreases commands@,
    {
        let n = commands.len();
        let ghost prog = nodes_of(commands@);
        let ghost start = self@;
        let mut i: usize = 0;
        proof {
            lemma_nodes_of_index(commands@, 0);
            assert(self@ =~= start + lowered(prog, 0, start.len()));
        }
        while i < n
            invariant
                i <= n,
                n == commands@.len(),
                prog == nodes_of(commands@),
                prog.len() == n,
                self@ == start + lowered(prog, i as nat, start.len()),
            decreases n - i,
        {
            let ghost before = lowered(prog, i as nat, start.len());
            let ghost at = start.len() + before.len();
            let ghost here = self@;
            proof {
                lemma_nodes_of_index(commands@, i as int);
                assert(lowered(prog, (i + 1) as nat, start.len()) == before + lowered_one(
                    prog[i as int],
                    at,
                ));
            }
            match &commands[i] {
                Expr::Add(count, offset) => self.emit_add(*count, *offset),
                Expr::Move(offset) => self.emit_move(*offset),
                Expr::Clear(offset) => self.emit_clear(*offset),
                Expr::Out(offset) => self.emit_out(*offset),
                Expr::In(offset) => self.emit_in(*offset),
                Expr::Mul(count, index, offset) => self.emit_mul(*count, *index, *offset),
                Expr::Loop(body) => {
                    let place = self.code.len();
                    self.emit_loop_entry();
                    self.translate(body.as_slice());
                    self.emit_loop_exit(
                        place,
                        Ghost(here),
                        Ghost(lowered(nodes_of(body@), body@.len(), at + 12)),
                    );
                },
                Expr::Nop => {
                    proof {
                        assert(self@ =~= here + Seq::<Inst>::empty());
                    }
                },
            }
            proof {
                assert(self@ == here + lowered_one(prog[i as int], at));
                assert(self@ =~= start + lowered(prog, (i + 1) as nat, start.len()));
            }
            i += 1;
        }
    }

    /// Emits the return and hands the finished function back.
    pub fn finish(self) -> (code: Vec<Inst>)
        ensures
            code@ == self@.push(Inst::Return),
    {
        let mut code = self.code;
        code.push(Inst::Return);
        code
    }
}

/// The function of a program: the prologue, its nodes lowered in order, and
/// the return. The instructions come in an order that a backend can take
/// them in: see [`crate::emission::ready`].
pub fn lower(commands: &[Expr]) -> (code: Vec<Inst>)
    ensures
        code@ == function_code(nodes_of(commands@)),
        crate::emission::ready(code@, 0),
{
    let mut translator = FunctionTranslator::new();
    translator.translate(commands);
    let code = translator.finish();
    proof {
        assert(code@.len() == code.len());
        crate::emission::theorem_function_ready(nodes_of(commands@));
    }
    code
}

} // verus!
