use crate::codegen::{
    address_code, function_code, loop_code, loop_entry, loop_exit, lowered, lowered_one, prologue,
    Inst,
};
use crate::frontend::Node;
use vstd::prelude::*;

verus! {

/// The slot that an instruction fills, if it fills one.
pub open spec fn fills(inst: Inst) -> Option<u8> {
    match inst {
        Inst::Origin { into }
        | Inst::Pointer { into }
        | Inst::AddBase { into, .. }
        | Inst::Offset { into, .. }
        | Inst::AddImm { into, .. }
        | Inst::MulImm { into, .. }
        | Inst::Sum { into, .. }
        | Inst::Zero { into }
        | Inst::Load { into, .. }
        | Inst::Read { into } => Some(into),
        _ => None,
    }
}

/// Whether an instruction reads the slot `r`.
pub open spec fn reads(inst: Inst, r: u8) -> bool {
    match inst {
        Inst::SetPointer { value }
        | Inst::AddBase { value, .. }
        | Inst::Offset { value, .. }
        | Inst::AddImm { value, .. }
        | Inst::MulImm { value, .. }
        | Inst::Write { value }
        | Inst::BranchIfZero { value, .. } => r == value,
        Inst::Sum { left, right, .. } => r == left || r == right,
        Inst::Load { address, .. } => r == address,
        Inst::Store { value, address } => r == value || r == address,
        _ => false,
    }
}

/// The block that an instruction goes to, enters or seals.
pub open spec fn names(inst: Inst) -> Option<usize> {
    match inst {
        Inst::Jump { block }
        | Inst::BranchIfZero { block, .. }
        | Inst::Enter { block }
        | Inst::Seal { block } => Some(block),
        _ => None,
    }
}

/// Whether the slot `r` was filled before index `pc`, in the block that index
/// `pc` stands in.
pub open spec fn filled_before(code: Seq<Inst>, pc: int, r: u8) -> bool
    decreases pc,
{
    if pc <= 0 || pc > code.len() {
        false
    } else if fills(code[pc - 1]) == Some(r) {
        true
    } else if code[pc - 1] is Enter {
        false
    } else {
        filled_before(code, pc - 1, r)
    }
}

/// Whether the block `b` was created before index `pc`.
pub open spec fn created_before(code: Seq<Inst>, pc: int, b: usize) -> bool
    decreases pc,
{
    if pc <= 0 || pc > code.len() {
        false
    } else if code[pc - 1] == (Inst::NewBlock { block: b }) {
        true
    } else {
        created_before(code, pc - 1, b)
    }
}

/// What the backend needs of the instruction at index `i` of a part that
/// stands at index `at`: every slot it reads was filled before in its block,
/// the block it names was created before, and a block is entered at the index
/// that is its name.
pub open spec fn ready_at(part: Seq<Inst>, at: int, i: int) -> bool {
    &&& forall|r: u8| reads(part[i], r) ==> filled_before(part, i, r)
    &&& names(part[i]) matches Some(b) ==> created_before(part, i, b)
    &&& part[i] matches Inst::Enter { block } ==> block == at + i
}

/// What the backend needs of a part that stands at index `at`.
pub open spec fn ready(part: Seq<Inst>, at: int) -> bool {
    forall|i: int| 0 <= i < part.len() ==> #[trigger] ready_at(part, at, i)
}

/// A slot that was filled in a part was filled in that part with more around it.
pub proof fn lemma_filled_within(
    before: Seq<Inst>,
    part: Seq<Inst>,
    after: Seq<Inst>,
    i: int,
    r: u8,
)
    requires
        0 <= i <= part.len(),
        filled_before(part, i, r),
    ensures
        filled_before(before + part + after, before.len() + i, r),
    decreases i,
{
    let whole = before + part + after;
    assert(whole[before.len() + i - 1] == part[i - 1]);
    if fills(part[i - 1]) != Some(r) {
        lemma_filled_within(before, part, after, i - 1, r);
    }
}

/// A block that was created in a part was created in that part with more around it.
pub proof fn lemma_created_within(
    before: Seq<Inst>,
    part: Seq<Inst>,
    after: Seq<Inst>,
    i: int,
    b: usize,
)
    requires
        0 <= i <= part.len(),
        created_before(part, i, b),
    ensures
        created_before(before + part + after, before.len() + i, b),
    decreases i,
{
    let whole = before + part + after;
    assert(whole[before.len() + i - 1] == part[i - 1]);
    if part[i - 1] != (Inst::NewBlock { block: b }) {
        lemma_created_within(before, part, after, i - 1, b);
    }
}

/// What is ready at an index of a part is ready in that part with more around it.
pub proof fn lemma_ready_within(
    before: Seq<Inst>,
    part: Seq<Inst>,
    after: Seq<Inst>,
    at: int,
    i: int,
)
    requires
        0 <= i < part.len(),
        ready_at(part, at + before.len(), i),
    ensures
        ready_at(before + part + after, at, before.len() + i),
{
    let whole = before + part + after;
    let inst = part[i];
    assert(whole[before.len() + i] == inst);
    assert forall|r: u8| reads(inst, r) implies filled_before(whole, before.len() + i, r) by {
        lemma_filled_within(before, part, after, i, r);
    }
    if let Some(b) = names(inst) {
        lemma_created_within(before, part, after, i, b);
    }
}

/// Two parts in a row that are ready are ready together.
pub proof fn lemma_ready_concat(a: Seq<Inst>, b: Seq<Inst>, at: int)
    requires
        ready(a, at),
        ready(b, at + a.len()),
    ensures
        ready(a + b, at),
{
    let whole = a + b;
    let none = Seq::<Inst>::empty();
    assert(none + a + b =~= whole);
    assert(a + b + none =~= whole);
    assert forall|i: int| 0 <= i < whole.len() implies #[trigger] ready_at(whole, at, i) by {
        if i < a.len() {
            assert(ready_at(a, at, i));
            lemma_ready_within(none, a, b, at, i);
        } else {
            assert(ready_at(b, at + a.len(), i - a.len()));
            lemma_ready_within(a, b, none, at, i - a.len());
        }
    }
}

/// The instructions of a node that is no loop are ready.
pub proof fn lemma_plain_node_ready(e: Node, at: nat)
    requires
        !(e is Loop),
    ensures
        ready(lowered_one(e, at), at as int),
{
    let part = lowered_one(e, at);
    reveal_with_fuel(filled_before, 10);
    assert forall|i: int| 0 <= i < part.len() implies #[trigger] ready_at(part, at as int, i) by {
        match e {
            Node::Add(_, offset) | Node::Clear(offset) | Node::Out(offset) | Node::Mul(
                _,
                _,
                offset,
            ) => {
                assert(address_code(offset).len() == 3);
            },
            Node::In(offset) => {
                assert(address_code(offset).len() == 3);
            },
            _ => {},
        }
    }
}

/// The instructions of a program are ready for the backend: every slot is
/// filled before it is read, in the block in which it is read; every block is
/// created before it is named; and every block is entered where its name says.
pub proof fn lemma_program_ready(prog: Seq<Node>, n: nat, at: nat)
    requires
        n <= prog.len(),
        at + lowered(prog, n, at).len() <= usize::MAX,
    ensures
        ready(lowered(prog, n, at), at as int),
    decreases prog, n,
{
    if n > 0 {
        let before = lowered(prog, (n - 1) as nat, at);
        let place = at + before.len();
        let last = lowered_one(prog[n - 1], place);
        lemma_program_ready(prog, (n - 1) as nat, at);
        match prog[n - 1] {
            Node::Loop(body) => {
                let inner = lowered(body, body.len(), place + 12);
                let header = (place + 4) as usize;
                let inside = (place + 11) as usize;
                let exit = (place + 12 + inner.len() + 1) as usize;
                let entry = loop_entry(header, inside, exit);
                let close = loop_exit(header, inside, exit);
                assert(last == entry + inner + close);
                lemma_program_ready(body, body.len(), place + 12);
                assert(ready(entry, place as int)) by {
                    reveal_with_fuel(filled_before, 6);
                    reveal_with_fuel(created_before, 13);
                    assert forall|i: int| 0 <= i < entry.len() implies #[trigger] ready_at(
                        entry,
                        place as int,
                        i,
                    ) by {}
                }
                lemma_ready_concat(entry, inner, place as int);
                let none = Seq::<Inst>::empty();
                assert(none + (entry + inner) + close =~= last);
                assert forall|i: int| 0 <= i < last.len() implies #[trigger] ready_at(
                    last,
                    place as int,
                    i,
                ) by {
                    let opened = entry + inner;
                    if i < opened.len() {
                        assert(ready_at(opened, place as int, i));
                        lemma_ready_within(none, opened, close, place as int, i);
                    } else {
                        assert(last[0] == entry[0] && last[1] == entry[1] && last[2] == entry[2]);
                        assert(created_before(last, 3, header) && created_before(last, 3, inside)
                            && created_before(last, 3, exit)) by {
                            reveal_with_fuel(created_before, 4);
                        }
                        lemma_created_stays(last, 3, i, header);
                        lemma_created_stays(last, 3, i, inside);
                        lemma_created_stays(last, 3, i, exit);
                        assert(last[i] == close[i - opened.len()]);
                    }
                }
            },
            _ => {
                lemma_plain_node_ready(prog[n - 1], place);
            },
        }
        lemma_ready_concat(before, last, at as int);
    }
}

/// A block that was created before some index was created before every later one.
pub proof fn lemma_created_stays(code: Seq<Inst>, early: int, late: int, b: usize)
    requires
        0 <= early <= late <= code.len(),
        created_before(code, early, b),
    ensures
        created_before(code, late, b),
    decreases late - early,
{
    if early < late {
        lemma_created_stays(code, early, late - 1, b);
    }
}

/// The whole function of a program is ready for the backend.
pub proof fn theorem_function_ready(prog: Seq<Node>)
    requires
        function_code(prog).len() <= usize::MAX,
    ensures
        ready(function_code(prog), 0),
{
    let body = lowered(prog, prog.len(), 2);
    let end = seq![Inst::Return];
    lemma_program_ready(prog, prog.len(), 2);
    assert(ready(prologue(), 0)) by {
        reveal_with_fuel(filled_before, 3);
        assert forall|i: int| 0 <= i < prologue().len() implies #[trigger] ready_at(
            prologue(),
            0,
            i,
        ) by {}
    }
    let behind = 2 + body.len() as int;
    assert(ready(end, behind)) by {
        assert forall|i: int| 0 <= i < end.len() implies #[trigger] ready_at(end, behind, i) by {}
    }
    lemma_ready_concat(prologue(), body, 0);
    lemma_ready_concat(prologue() + body, end, 0);
    assert(function_code(prog) =~= prologue() + body + end);
}

} // verus!
