use crate::codegen::Inst;
use crate::machine::END_OF_INPUT;
use crate::reduction::wrap32;
use vstd::prelude::*;

verus! {

/// The 64-bit address value that is congruent to `x`.
#[verifier::opaque]
pub open spec fn wrap64(x: int) -> i64 {
    vstd::wrapping::i64_specs::signed_crop(x)
}

/// `wrap64` keeps an address value, forgets multiples of the address range, and
/// may be applied early.
pub proof fn lemma_wrap64_laws(a: int, b: int, k: int, v: i64)
    ensures
        wrap64(v as int) == v,
        wrap64(a + wrap64(b)) == wrap64(a + b),
        wrap64(a + k * 0x1_0000_0000_0000_0000) == wrap64(a),
{
    reveal(wrap64);
    assert((a + wrap64(b)) % 0x1_0000_0000_0000_0000 == (a + b) % 0x1_0000_0000_0000_0000);
    assert((a + k * 0x1_0000_0000_0000_0000) % 0x1_0000_0000_0000_0000 == a
        % 0x1_0000_0000_0000_0000) by {
        vstd::arithmetic::div_mod::lemma_mod_multiples_vanish(k, a, 0x1_0000_0000_0000_0000);
    }
}

/// What a lowered function works on while it runs: its slots, the pointer
/// variable, the memory by byte offset from the start of the data segment, and
/// the two streams.
pub struct Frame {
    pub slots: spec_fn(u8) -> int,
    pub pointer: int,
    pub memory: spec_fn(int) -> i32,
    pub input: Seq<u8>,
    pub output: Seq<i32>,
}

impl Frame {
    /// What the slot `name` holds.
    pub open spec fn slot(self, name: u8) -> int {
        (self.slots)(name)
    }

    /// This frame with `value` in the slot `name`.
    pub open spec fn set(self, name: u8, value: int) -> Frame {
        Frame {
            slots: |n: u8|
                if n == name {
                    value
                } else {
                    (self.slots)(n)
                },
            ..self
        }
    }

    /// This frame with `value` in the memory at `address`.
    pub open spec fn store(self, address: int, value: i32) -> Frame {
        Frame {
            memory: |a: int|
                if a == address {
                    value
                } else {
                    (self.memory)(a)
                },
            ..self
        }
    }
}

/// One instruction, carried out at index `pc`: the index of the instruction
/// that comes next, and the frame it leaves. Arithmetic on addresses wraps at
/// 64 bits, arithmetic on cells at 32.
pub open spec fn carried_out(inst: Inst, pc: int, f: Frame) -> (int, Frame) {
    match inst {
        Inst::Origin { into } => (pc + 1, f.set(into, 0)),
        Inst::Pointer { into } => (pc + 1, f.set(into, f.pointer)),
        Inst::SetPointer { value } => (pc + 1, Frame { pointer: f.slot(value), ..f }),
        Inst::AddBase { into, value } => (pc + 1, f.set(into, f.slot(value))),
        Inst::Offset { into, value, imm } => (
            pc + 1,
            f.set(into, wrap64(f.slot(value) + imm) as int),
        ),
        Inst::AddImm { into, value, imm } => (
            pc + 1,
            f.set(into, wrap32(f.slot(value) + imm) as int),
        ),
        Inst::MulImm { into, value, imm } => (
            pc + 1,
            f.set(into, wrap32(f.slot(value) * imm) as int),
        ),
        Inst::Sum { into, left, right } => (
            pc + 1,
            f.set(into, wrap32(f.slot(left) + f.slot(right)) as int),
        ),
        Inst::Zero { into } => (pc + 1, f.set(into, 0)),
        Inst::Load { into, address } => (pc + 1, f.set(into, (f.memory)(f.slot(address)) as int)),
        Inst::Store { value, address } => (pc + 1, f.store(f.slot(address), wrap32(f.slot(value)))),
        Inst::Read { into } => if f.input.len() > 0 {
            (pc + 1, Frame { input: f.input.drop_first(), ..f }.set(into, f.input[0] as int))
        } else {
            (pc + 1, f.set(into, END_OF_INPUT as int))
        },
        Inst::Write { value } => (
            pc + 1,
            Frame { output: f.output.push(wrap32(f.slot(value))), ..f },
        ),
        Inst::NewBlock { .. } => (pc + 1, f),
        Inst::Enter { .. } => (pc + 1, f),
        Inst::Seal { .. } => (pc + 1, f),
        Inst::Jump { block } => (block as int, f),
        Inst::BranchIfZero { value, block } => if f.slot(value) == 0 {
            (block as int, f)
        } else {
            (pc + 1, f)
        },
        Inst::Return => (pc, f),
    }
}

/// Where control stands, and the frame, after `n` instructions from index
/// `pc`. A function that has returned, or left its code, stays where it is.
pub open spec fn after(code: Seq<Inst>, pc: int, f: Frame, n: nat) -> (int, Frame)
    decreases n,
{
    if n == 0 || !(0 <= pc < code.len()) {
        (pc, f)
    } else {
        let (next, g) = carried_out(code[pc], pc, f);
        after(code, next, g, (n - 1) as nat)
    }
}

/// Steps add up.
pub proof fn lemma_after_sum(code: Seq<Inst>, pc: int, f: Frame, n: nat, m: nat)
    ensures
        after(code, pc, f, n + m) == after(
            code,
            after(code, pc, f, n).0,
            after(code, pc, f, n).1,
            m,
        ),
    decreases n,
{
    if n > 0 && 0 <= pc < code.len() {
        let (next, g) = carried_out(code[pc], pc, f);
        lemma_after_sum(code, next, g, (n - 1) as nat, m);
        assert(after(code, pc, f, n + m) == after(code, next, g, (n + m - 1) as nat));
    } else if n > 0 {
        assert(after(code, pc, f, n + m) == (pc, f));
        if m > 0 {
            assert(after(code, pc, f, m) == (pc, f));
        }
    }
}

/// `part` stands in `code` at index `at`.
pub open spec fn placed(code: Seq<Inst>, at: int, part: Seq<Inst>) -> bool {
    &&& 0 <= at
    &&& at + part.len() <= code.len()
    &&& forall|i: int| 0 <= i < part.len() ==> code[at + i] == #[trigger] part[i]
}

/// Where two parts in a row stand, each of them stands.
pub proof fn lemma_placed_split(code: Seq<Inst>, at: int, a: Seq<Inst>, b: Seq<Inst>)
    requires
        placed(code, at, a + b),
    ensures
        placed(code, at, a),
        placed(code, at + a.len(), b),
{
    assert forall|i: int| 0 <= i < a.len() implies code[at + i] == #[trigger] a[i] by {
        assert((a + b)[i] == a[i]);
    }
    assert forall|i: int| 0 <= i < b.len() implies code[at + a.len() + i] == #[trigger] b[i] by {
        assert((a + b)[a.len() + i] == b[i]);
    }
}

} // verus!
