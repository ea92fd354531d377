use crate::codegen::{
    address_code, byte_offset, function_code, loop_entry, loop_exit, lowered, lowered_one,
    prologue, Inst, DATA_SIZE,
};
use crate::frontend::Node;
use crate::machine::{lemma_run_push, lemma_wadd_laws, on_tape, run, run_one, step, wadd, State};
use crate::native::{
    after, carried_out, lemma_after_sum, lemma_placed_split, lemma_wrap64_laws, placed, wrap64,
    Frame,
};
use crate::reduction::{lemma_wrap32_laws, wrap32};
use vstd::prelude::*;

verus! {

/// Addresses have 64 bits.
pub open spec fn sixty_four_bit() -> bool {
    isize::MAX == 0x7fff_ffff_ffff_ffff
}

/// The tape that the data segment holds.
pub open spec fn segment() -> Option<nat> {
    Some(DATA_SIZE as nat)
}

/// The frame `f` stands for the state `s`: the pointer variable holds the byte
/// offset of the pointer, the data segment holds the cells of the tape, and the
/// streams are the same.
pub open spec fn models(f: Frame, s: State) -> bool {
    &&& f.pointer == wrap64(4 * s.ptr)
    &&& forall|k: int| 0 <= k < DATA_SIZE ==> (f.memory)(4 * k) == #[trigger] (s.cells)(k)
    &&& f.input == s.input
    &&& f.output == s.output
}

/// Byte offsets follow cell offsets: adding the byte offset of `o` to the byte
/// offset of `p` gives the byte offset of `p + o`, each wrapping at its width.
pub proof fn lemma_byte_offsets(p: isize, o: isize)
    requires
        sixty_four_bit(),
    ensures
        wrap64(wrap64(4 * p) + byte_offset(o)) == wrap64(4 * wadd(p, o)),
        0 <= wadd(p, o) < DATA_SIZE ==> wrap64(4 * wadd(p, o)) == 4 * wadd(p, o),
        wrap64(0) == 0,
{
    let range = 0x1_0000_0000_0000_0000int;
    let sum = wadd(p, o);
    assert(byte_offset(o) == wrap64(4 * o)) by {
        reveal(wrap64);
    }
    let j: int = if p + o > isize::MAX {
        -1
    } else if p + o < isize::MIN {
        1
    } else {
        0
    };
    assert(sum == p + o + j * range) by {
        reveal(wadd);
    }
    lemma_wrap64_laws(wrap64(4 * p) as int, 4 * o, 0, 0);
    lemma_wrap64_laws(4 * o, 4 * p, 0, 0);
    lemma_wrap64_laws(4 * p + 4 * o, 0, 4 * j, 0);
    assert(4 * sum == 4 * p + 4 * o + (4 * j) * range);
    if 0 <= sum < DATA_SIZE {
        lemma_wrap64_laws(0, 0, 0, (4 * sum) as i64);
    }
    lemma_wrap64_laws(0, 0, 0, 0);
}

/// The frame `f` with the slots 0, 1 and 2 as the address code leaves them.
pub open spec fn addressed(f: Frame, address: int) -> Frame {
    f.set(0, f.pointer).set(1, f.pointer).set(2, address)
}

/// The address code leaves in slot 2 the byte offset of the cell it names.
pub proof fn lemma_address_runs(code: Seq<Inst>, at: int, offset: isize, f: Frame, s: State)
    requires
        sixty_four_bit(),
        placed(code, at, address_code(offset)),
        f.pointer == wrap64(4 * s.ptr),
        on_tape(s.at(offset), segment()),
    ensures
        after(code, at, f, 3) == (at + 3, addressed(f, 4 * s.at(offset))),
{
    let part = address_code(offset);
    assert(code[at] == part[0] && code[at + 1] == part[1] && code[at + 2] == part[2]);
    lemma_byte_offsets(s.ptr, offset);
    reveal_with_fuel(after, 4);
    let f1 = f.set(0, f.pointer);
    let f2 = f1.set(1, f.pointer);
    assert(carried_out(code[at], at, f) == (at + 1, f1));
    assert(carried_out(code[at + 1], at + 1, f1) == (at + 2, f2));
    assert(carried_out(code[at + 2], at + 2, f2) == (at + 3, f2.set(2, 4 * s.at(offset))));
}

/// `Add`, lowered, adds to the cell.
pub proof fn lemma_add_runs(
    code: Seq<Inst>,
    at: int,
    count: i32,
    offset: isize,
    f: Frame,
    s: State,
) -> (g: Frame)
    requires
        sixty_four_bit(),
        placed(code, at, lowered_one(Node::Add(count, offset), at as nat)),
        models(f, s),
        step(Node::Add(count, offset), s, segment()) is Some,
    ensures
        after(code, at, f, 6) == (at + 6, g),
        models(g, step(Node::Add(count, offset), s, segment())->0),
{
    let rest = seq![
        Inst::Load { into: 3, address: 2 },
        Inst::AddImm { into: 4, value: 3, imm: count as i64 },
        Inst::Store { value: 4, address: 2 },
    ];
    let a = s.at(offset);
    lemma_placed_split(code, at, address_code(offset), rest);
    lemma_address_runs(code, at, offset, f, s);
    lemma_after_sum(code, at, f, 3, 3);
    assert(code[at + 3] == rest[0] && code[at + 4] == rest[1] && code[at + 5] == rest[2]);
    let f0 = addressed(f, 4 * a);
    let f1 = f0.set(3, s.read(a) as int);
    let f2 = f1.set(4, wrap32(s.read(a) + count) as int);
    let g = f2.store(4 * a, wrap32(wrap32(s.read(a) + count) as int));
    reveal_with_fuel(after, 4);
    assert((f.memory)(4 * a) == (s.cells)(a));
    assert(carried_out(code[at + 3], at + 3, f0) == (at + 4, f1));
    assert(carried_out(code[at + 4], at + 4, f1) == (at + 5, f2));
    assert(carried_out(code[at + 5], at + 5, f2) == (at + 6, g));
    lemma_wrap32_laws(0, 0, 0, s.read(a), count);
    lemma_wrap32_laws(0, 0, 0, wrap32(s.read(a) + count), 0);
    let s1 = step(Node::Add(count, offset), s, segment())->0;
    assert forall|k: int| 0 <= k < DATA_SIZE implies (g.memory)(4 * k) == #[trigger] (s1.cells)(
        k,
    ) by {
        assert((f.memory)(4 * k) == (s.cells)(k));
    }
    g
}

/// `Move`, lowered, moves the pointer variable.
pub proof fn lemma_move_runs(code: Seq<Inst>, at: int, offset: isize, f: Frame, s: State) -> (g:
    Frame)
    requires
        sixty_four_bit(),
        placed(code, at, lowered_one(Node::Move(offset), at as nat)),
        models(f, s),
    ensures
        after(code, at, f, 3) == (at + 3, g),
        models(g, s.moved(offset)),
{
    let part = lowered_one(Node::Move(offset), at as nat);
    assert(code[at] == part[0] && code[at + 1] == part[1] && code[at + 2] == part[2]);
    lemma_byte_offsets(s.ptr, offset);
    let target = wrap64(f.pointer + byte_offset(offset)) as int;
    let f1 = f.set(0, f.pointer);
    let f2 = f1.set(1, target);
    let g = Frame { pointer: target, ..f2 };
    reveal_with_fuel(after, 4);
    assert(carried_out(code[at], at, f) == (at + 1, f1));
    assert(carried_out(code[at + 1], at + 1, f1) == (at + 2, f2));
    assert(carried_out(code[at + 2], at + 2, f2) == (at + 3, g));
    let s1 = s.moved(offset);
    assert forall|k: int| 0 <= k < DATA_SIZE implies (g.memory)(4 * k) == #[trigger] (s1.cells)(
        k,
    ) by {
        assert((f.memory)(4 * k) == (s.cells)(k));
    }
    g
}

/// `Clear`, lowered, stores zero in the cell.
pub proof fn lemma_clear_runs(code: Seq<Inst>, at: int, offset: isize, f: Frame, s: State) -> (g:
    Frame)
    requires
        sixty_four_bit(),
        placed(code, at, lowered_one(Node::Clear(offset), at as nat)),
        models(f, s),
        step(Node::Clear(offset), s, segment()) is Some,
    ensures
        after(code, at, f, 5) == (at + 5, g),
        models(g, step(Node::Clear(offset), s, segment())->0),
{
    let rest = seq![Inst::Zero { into: 3 }, Inst::Store { value: 3, address: 2 }];
    let a = s.at(offset);
    lemma_placed_split(code, at, address_code(offset), rest);
    lemma_address_runs(code, at, offset, f, s);
    lemma_after_sum(code, at, f, 3, 2);
    assert(code[at + 3] == rest[0] && code[at + 4] == rest[1]);
    let f0 = addressed(f, 4 * a);
    let f1 = f0.set(3, 0);
    let g = f1.store(4 * a, wrap32(0));
    reveal_with_fuel(after, 3);
    assert(carried_out(code[at + 3], at + 3, f0) == (at + 4, f1));
    assert(carried_out(code[at + 4], at + 4, f1) == (at + 5, g));
    lemma_wrap32_laws(0, 0, 0, 0, 0);
    let s1 = step(Node::Clear(offset), s, segment())->0;
    assert forall|k: int| 0 <= k < DATA_SIZE implies (g.memory)(4 * k) == #[trigger] (s1.cells)(
        k,
    ) by {
        assert((f.memory)(4 * k) == (s.cells)(k));
    }
    g
}

/// `Out`, lowered, hands the cell to the output routine.
pub proof fn lemma_out_runs(code: Seq<Inst>, at: int, offset: isize, f: Frame, s: State) -> (g:
    Frame)
    requires
        sixty_four_bit(),
        placed(code, at, lowered_one(Node::Out(offset), at as nat)),
        models(f, s),
        step(Node::Out(offset), s, segment()) is Some,
    ensures
        after(code, at, f, 5) == (at + 5, g),
        models(g, step(Node::Out(offset), s, segment())->0),
{
    let rest = seq![Inst::Load { into: 3, address: 2 }, Inst::Write { value: 3 }];
    let a = s.at(offset);
    lemma_placed_split(code, at, address_code(offset), rest);
    lemma_address_runs(code, at, offset, f, s);
    lemma_after_sum(code, at, f, 3, 2);
    assert(code[at + 3] == rest[0] && code[at + 4] == rest[1]);
    let f0 = addressed(f, 4 * a);
    let f1 = f0.set(3, s.read(a) as int);
    let g = Frame { output: f.output.push(wrap32(s.read(a) as int)), ..f1 };
    reveal_with_fuel(after, 3);
    assert((f.memory)(4 * a) == (s.cells)(a));
    assert(carried_out(code[at + 3], at + 3, f0) == (at + 4, f1));
    assert(carried_out(code[at + 4], at + 4, f1) == (at + 5, g));
    lemma_wrap32_laws(0, 0, 0, s.read(a), 0);
    let s1 = step(Node::Out(offset), s, segment())->0;
    assert forall|k: int| 0 <= k < DATA_SIZE implies (g.memory)(4 * k) == #[trigger] (s1.cells)(
        k,
    ) by {
        assert((f.memory)(4 * k) == (s.cells)(k));
    }
    g
}

/// `In`, lowered, stores what the input routine returns.
pub proof fn lemma_in_runs(code: Seq<Inst>, at: int, offset: isize, f: Frame, s: State) -> (g:
    Frame)
    requires
        sixty_four_bit(),
        placed(code, at, lowered_one(Node::In(offset), at as nat)),
        models(f, s),
        step(Node::In(offset), s, segment()) is Some,
    ensures
        after(code, at, f, 5) == (at + 5, g),
        models(g, step(Node::In(offset), s, segment())->0),
{
    let first = seq![Inst::Read { into: 3 }];
    let last = seq![Inst::Store { value: 3, address: 2 }];
    let a = s.at(offset);
    lemma_placed_split(code, at, first + address_code(offset), last);
    lemma_placed_split(code, at, first, address_code(offset));
    assert(code[at] == first[0] && code[at + 4] == last[0]);
    let v: i32 = if s.input.len() > 0 {
        s.input[0] as i32
    } else {
        crate::machine::END_OF_INPUT
    };
    let f1 = if s.input.len() > 0 {
        Frame { input: f.input.drop_first(), ..f }.set(3, v as int)
    } else {
        f.set(3, v as int)
    };
    reveal_with_fuel(after, 2);
    assert(carried_out(code[at], at, f) == (at + 1, f1));
    assert(after(code, at, f, 1) == (at + 1, f1));
    lemma_address_runs(code, at + 1, offset, f1, s);
    lemma_after_sum(code, at, f, 1, 3);
    lemma_after_sum(code, at, f, 4, 1);
    let f2 = addressed(f1, 4 * a);
    let g = f2.store(4 * a, wrap32(v as int));
    assert(carried_out(code[at + 4], at + 4, f2) == (at + 5, g));
    lemma_wrap32_laws(0, 0, 0, v, 0);
    let s1 = step(Node::In(offset), s, segment())->0;
    assert forall|k: int| 0 <= k < DATA_SIZE implies (g.memory)(4 * k) == #[trigger] (s1.cells)(
        k,
    ) by {
        assert((f.memory)(4 * k) == (s.cells)(k));
    }
    g
}

/// `Mul`, lowered, adds the product to the target cell and leaves the source alone.
pub proof fn lemma_mul_runs(
    code: Seq<Inst>,
    at: int,
    count: i32,
    index: isize,
    offset: isize,
    f: Frame,
    s: State,
) -> (g: Frame)
    requires
        sixty_four_bit(),
        placed(code, at, lowered_one(Node::Mul(count, index, offset), at as nat)),
        models(f, s),
        step(Node::Mul(count, index, offset), s, segment()) is Some,
    ensures
        after(code, at, f, 9) == (at + 9, g),
        models(g, step(Node::Mul(count, index, offset), s, segment())->0),
{
    let rest = seq![
        Inst::Load { into: 3, address: 2 },
        Inst::MulImm { into: 4, value: 3, imm: count as i64 },
        Inst::Offset { into: 5, value: 2, imm: byte_offset(index) },
        Inst::Load { into: 6, address: 5 },
        Inst::Sum { into: 7, left: 6, right: 4 },
        Inst::Store { value: 7, address: 5 },
    ];
    let src = s.at(offset);
    let dst = s.moved(index).at(offset);
    lemma_placed_split(code, at, address_code(offset), rest);
    lemma_address_runs(code, at, offset, f, s);
    lemma_after_sum(code, at, f, 3, 6);
    assert(code[at + 3] == rest[0] && code[at + 4] == rest[1] && code[at + 5] == rest[2]
        && code[at + 6] == rest[3] && code[at + 7] == rest[4] && code[at + 8] == rest[5]);
    lemma_wadd_laws(s.ptr, offset, index);
    lemma_byte_offsets(wadd(s.ptr, offset), index);
    lemma_wrap64_laws(0, 0, 0, (4 * src) as i64);
    assert(wrap64(4 * src + byte_offset(index)) == 4 * dst);
    let product = wrap32(s.read(src) * count);
    let total = wrap32(s.read(dst) + product);
    let f0 = addressed(f, 4 * src);
    let f1 = f0.set(3, s.read(src) as int);
    let f2 = f1.set(4, product as int);
    let f3 = f2.set(5, 4 * dst);
    let f4 = f3.set(6, s.read(dst) as int);
    let f5 = f4.set(7, total as int);
    let g = f5.store(4 * dst, wrap32(total as int));
    reveal_with_fuel(after, 7);
    assert((f.memory)(4 * src) == (s.cells)(src));
    assert((f.memory)(4 * dst) == (s.cells)(dst));
    assert(carried_out(code[at + 3], at + 3, f0) == (at + 4, f1));
    assert(carried_out(code[at + 4], at + 4, f1) == (at + 5, f2));
    assert(carried_out(code[at + 5], at + 5, f2) == (at + 6, f3));
    assert(carried_out(code[at + 6], at + 6, f3) == (at + 7, f4));
    assert(carried_out(code[at + 7], at + 7, f4) == (at + 8, f5));
    assert(carried_out(code[at + 8], at + 8, f5) == (at + 9, g));
    lemma_wrap32_laws(0, 0, 0, s.read(src), count);
    lemma_wrap32_laws(0, 0, 0, s.read(dst), product);
    lemma_wrap32_laws(0, 0, 0, total, 0);
    let s1 = step(Node::Mul(count, index, offset), s, segment())->0;
    assert forall|k: int| 0 <= k < DATA_SIZE implies (g.memory)(4 * k) == #[trigger] (s1.cells)(
        k,
    ) by {
        assert((f.memory)(4 * k) == (s.cells)(k));
    }
    g
}

/// A loop, lowered and entered at its header, goes round as the loop does and
/// then stands behind its code. `steps` is the number of instructions it took.
pub proof fn lemma_loop_runs(
    code: Seq<Inst>,
    at: int,
    body: Seq<Node>,
    f: Frame,
    s: State,
    fuel: nat,
) -> (end: (nat, Frame))
    requires
        sixty_four_bit(),
        code.len() <= usize::MAX,
        placed(code, at, lowered_one(Node::Loop(body), at as nat)),
        models(f, s),
        run_one(Node::Loop(body), s, fuel, segment()) is Done,
    ensures
        after(code, at + 4, f, end.0) == (
            at + lowered_one(Node::Loop(body), at as nat).len(),
            end.1,
        ),
        models(end.1, run_one(Node::Loop(body), s, fuel, segment())->Done_0),
    decreases fuel, 0nat, 0nat,
{
    let inner = lowered(body, body.len(), (at + 12) as nat);
    let header = (at + 4) as usize;
    let inside = (at + 11) as usize;
    let exit = (at + 12 + inner.len() + 1) as usize;
    let entry = loop_entry(header, inside, exit);
    let close = loop_exit(header, inside, exit);
    let whole = lowered_one(Node::Loop(body), at as nat);
    assert(whole == entry + inner + close);
    lemma_placed_split(code, at, entry + inner, close);
    lemma_placed_split(code, at, entry, inner);
    let back = at + 12 + inner.len();
    assert(code[at + 4] == entry[4] && code[at + 5] == entry[5] && code[at + 6] == entry[6]
        && code[at + 7] == entry[7] && code[at + 8] == entry[8] && code[at + 9] == entry[9]
        && code[at + 10] == entry[10] && code[at + 11] == entry[11]);
    assert(code[back] == close[0] && code[back + 1] == close[1] && code[back + 2] == close[2]
        && code[back + 3] == close[3] && code[back + 4] == close[4]);
    // the header: the cell at the pointer is loaded and tested
    lemma_wadd_laws(s.ptr, 0, 0);
    let a = s.at(0);
    assert(on_tape(a, segment()));
    assert(placed(code, at + 5, address_code(0))) by {
        let part = address_code(0);
        assert(part[0] == entry[5] && part[1] == entry[6] && part[2] == entry[7]);
    }
    assert(after(code, at + 4, f, 1) == (at + 5, f)) by {
        reveal_with_fuel(after, 2);
    }
    lemma_address_runs(code, at + 5, 0, f, s);
    lemma_after_sum(code, at + 4, f, 1, 3);
    let f0 = addressed(f, 4 * a);
    let f1 = f0.set(3, s.read(a) as int);
    assert((f.memory)(4 * a) == (s.cells)(a));
    assert(carried_out(code[at + 8], at + 8, f0) == (at + 9, f1));
    assert(models(f1, s)) by {
        assert forall|k: int| 0 <= k < DATA_SIZE implies (f1.memory)(4 * k) == #[trigger] (
        s.cells)(k) by {
            assert((f.memory)(4 * k) == (s.cells)(k));
        }
    }
    if s.read(a) == 0 {
        assert(carried_out(code[at + 9], at + 9, f1) == (exit as int, f1));
        assert(after(code, at + 8, f0, 6) == (at + whole.len(), f1)) by {
            reveal_with_fuel(after, 7);
        }
        lemma_after_sum(code, at + 4, f, 4, 6);
        (10, f1)
    } else {
        assert(carried_out(code[at + 9], at + 9, f1) == (at + 10, f1));
        assert(after(code, at + 8, f0, 4) == (at + 12, f1)) by {
            reveal_with_fuel(after, 5);
        }
        lemma_after_sum(code, at + 4, f, 4, 4);
        assert(body.take(body.len() as int) =~= body);
        let inside = (fuel - 1) as nat;
        let (n1, g1) = lemma_program_runs(code, at + 12, body, body.len(), f1, s, inside);
        let s1 = run(body, s, (fuel - 1) as nat, segment())->Done_0;
        lemma_after_sum(code, at + 4, f, 8, n1);
        assert(after(code, back, g1, 1) == (at + 4, g1)) by {
            reveal_with_fuel(after, 2);
        }
        lemma_after_sum(code, at + 4, f, 8 + n1, 1);
        let (n2, g2) = lemma_loop_runs(code, at, body, g1, s1, (fuel - 1) as nat);
        lemma_after_sum(code, at + 4, f, 8 + n1 + 1, n2);
        (8 + n1 + 1 + n2, g2)
    }
}

/// One node, lowered, does what the node does and then stands behind its code.
pub proof fn lemma_node_runs(
    code: Seq<Inst>,
    at: int,
    e: Node,
    f: Frame,
    s: State,
    fuel: nat,
) -> (end: (nat, Frame))
    requires
        sixty_four_bit(),
        code.len() <= usize::MAX,
        placed(code, at, lowered_one(e, at as nat)),
        models(f, s),
        run_one(e, s, fuel, segment()) is Done,
    ensures
        after(code, at, f, end.0) == (at + lowered_one(e, at as nat).len(), end.1),
        models(end.1, run_one(e, s, fuel, segment())->Done_0),
    decreases fuel, 0nat, 1nat,
{
    match e {
        Node::Add(count, offset) => (6, lemma_add_runs(code, at, count, offset, f, s)),
        Node::Move(offset) => (3, lemma_move_runs(code, at, offset, f, s)),
        Node::Clear(offset) => (5, lemma_clear_runs(code, at, offset, f, s)),
        Node::Out(offset) => (5, lemma_out_runs(code, at, offset, f, s)),
        Node::In(offset) => (5, lemma_in_runs(code, at, offset, f, s)),
        Node::Mul(count, index, offset) => (
            9,
            lemma_mul_runs(code, at, count, index, offset, f, s),
        ),
        Node::Nop => {
            assert(after(code, at, f, 0) == (at, f));
            (0, f)
        },
        Node::Loop(body) => {
            let inner = lowered(body, body.len(), (at + 12) as nat);
            let header = (at + 4) as usize;
            let inside = (at + 11) as usize;
            let exit = (at + 12 + inner.len() + 1) as usize;
            let entry = loop_entry(header, inside, exit);
            let close = loop_exit(header, inside, exit);
            lemma_placed_split(code, at, entry + inner, close);
            lemma_placed_split(code, at, entry, inner);
            assert(code[at] == entry[0] && code[at + 1] == entry[1] && code[at + 2] == entry[2]
                && code[at + 3] == entry[3]);
            assert(after(code, at, f, 4) == (at + 4, f)) by {
                reveal_with_fuel(after, 5);
            }
            let (n, g) = lemma_loop_runs(code, at, body, f, s, fuel);
            lemma_after_sum(code, at, f, 4, n);
            (4 + n, g)
        },
    }
}

/// The first `k` nodes of a program, lowered, do what the nodes do and then
/// stand behind their code.
pub proof fn lemma_program_runs(
    code: Seq<Inst>,
    at: int,
    prog: Seq<Node>,
    k: nat,
    f: Frame,
    s: State,
    fuel: nat,
) -> (end: (nat, Frame))
    requires
        sixty_four_bit(),
        code.len() <= usize::MAX,
        k <= prog.len(),
        placed(code, at, lowered(prog, k, at as nat)),
        models(f, s),
        run(prog.take(k as int), s, fuel, segment()) is Done,
    ensures
        after(code, at, f, end.0) == (at + lowered(prog, k, at as nat).len(), end.1),
        models(end.1, run(prog.take(k as int), s, fuel, segment())->Done_0),
    decreases fuel, 1nat, k,
{
    if k == 0 {
        assert(prog.take(0) =~= Seq::<Node>::empty());
        assert(after(code, at, f, 0) == (at, f));
        (0, f)
    } else {
        let before = lowered(prog, (k - 1) as nat, at as nat);
        let last = prog[k - 1];
        assert(prog.take(k - 1).push(last) =~= prog.take(k as int));
        lemma_run_push(prog.take(k - 1), last, s, fuel, segment());
        lemma_placed_split(code, at, before, lowered_one(last, (at + before.len()) as nat));
        let (n1, g1) = lemma_program_runs(code, at, prog, (k - 1) as nat, f, s, fuel);
        let s1 = run(prog.take(k - 1), s, fuel, segment())->Done_0;
        let (n2, g2) = lemma_node_runs(code, at + before.len(), last, g1, s1, fuel);
        lemma_after_sum(code, at, f, n1, n2);
        (n1 + n2, g2)
    }
}

/// The lowered function does what the program does on the tape of the data
/// segment: started with the segment zeroed, it comes to its return, and has
/// then the cells, the input left and the output written that the program
/// leaves from the initial state.
pub proof fn theorem_function_runs(prog: Seq<Node>, f: Frame, fuel: nat) -> (end: (nat, Frame))
    requires
        sixty_four_bit(),
        function_code(prog).len() <= usize::MAX,
        forall|k: int| 0 <= k < DATA_SIZE ==> #[trigger] (f.memory)(4 * k) == 0,
        f.output == Seq::<i32>::empty(),
        run(prog, State::initial(f.input), fuel, segment()) is Done,
    ensures
        after(function_code(prog), 0, f, end.0) == (function_code(prog).len() - 1, end.1),
        function_code(prog).last() == Inst::Return,
        models(end.1, run(prog, State::initial(f.input), fuel, segment())->Done_0),
{
    let code = function_code(prog);
    let body = lowered(prog, prog.len(), 2);
    let s = State::initial(f.input);
    assert(code == (prologue() + body).push(Inst::Return));
    assert(code[0] == prologue()[0] && code[1] == prologue()[1]);
    let f1 = f.set(0, 0);
    let f2 = Frame { pointer: 0, ..f1 };
    assert(after(code, 0, f, 2) == (2int, f2)) by {
        reveal_with_fuel(after, 3);
    }
    lemma_byte_offsets(0, 0);
    assert(models(f2, s)) by {
        assert forall|k: int| 0 <= k < DATA_SIZE implies (f2.memory)(4 * k) == #[trigger] (
        s.cells)(k) by {
            assert((f.memory)(4 * k) == 0);
        }
    }
    assert(placed(code, 2, body)) by {
        assert forall|i: int| 0 <= i < body.len() implies code[2 + i] == #[trigger] body[i] by {}
    }
    assert(prog.take(prog.len() as int) =~= prog);
    let (n, g) = lemma_program_runs(code, 2, prog, prog.len(), f2, s, fuel);
    lemma_after_sum(code, 0, f, 2, n);
    (2 + n, g)
}

} // verus!
