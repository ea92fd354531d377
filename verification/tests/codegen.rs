use bf_jit::codegen::{lower, FunctionTranslator, Inst, DATA_BYTES, DATA_SIZE};
use bf_jit::frontend::Expr;
use bf_jit::interpreter::Interpreter;
use bf_jit::jit::compile;
use bf_jit::optimizer::Optimizer;
use bf_jit::parser::ParseError;

/// Carries the instructions out as their documentation says, on a data
/// segment of `DATA_SIZE` cells, and hands back the cells and the output.
fn execute(code: &[Inst], input: &[u8], limit: usize) -> Option<(Vec<i32>, Vec<i32>)> {
    let mut slots = [0i64; 256];
    let mut pointer = 0i64;
    let mut memory = vec![0i32; DATA_SIZE];
    let mut output = vec![];
    let mut unread = input.iter();
    let mut pc = 0usize;
    for _ in 0..limit {
        match code[pc] {
            Inst::Origin { into } => slots[into as usize] = 0,
            Inst::Pointer { into } => slots[into as usize] = pointer,
            Inst::SetPointer { value } => pointer = slots[value as usize],
            Inst::AddBase { into, value } => slots[into as usize] = slots[value as usize],
            Inst::Offset { into, value, imm } => {
                slots[into as usize] = slots[value as usize].wrapping_add(imm)
            }
            Inst::AddImm { into, value, imm } => {
                slots[into as usize] = (slots[value as usize] as i32).wrapping_add(imm as i32) as i64
            }
            Inst::MulImm { into, value, imm } => {
                slots[into as usize] = (slots[value as usize] as i32).wrapping_mul(imm as i32) as i64
            }
            Inst::Sum { into, left, right } => {
                slots[into as usize] =
                    (slots[left as usize] as i32).wrapping_add(slots[right as usize] as i32) as i64
            }
            Inst::Zero { into } => slots[into as usize] = 0,
            Inst::Load { into, address } => {
                let at = slots[address as usize];
                assert!(at % 4 == 0 && 0 <= at && (at as usize) < DATA_BYTES);
                slots[into as usize] = memory[at as usize / 4] as i64
            }
            Inst::Store { value, address } => {
                let at = slots[address as usize];
                assert!(at % 4 == 0 && 0 <= at && (at as usize) < DATA_BYTES);
                memory[at as usize / 4] = slots[value as usize] as i32
            }
            Inst::Read { into } => {
                slots[into as usize] = match unread.next() {
                    Some(byte) => *byte as i64,
                    None => -1,
                }
            }
            Inst::Write { value } => output.push(slots[value as usize] as i32),
            Inst::NewBlock { .. } | Inst::Seal { .. } => {}
            Inst::Enter { block } => assert_eq!(block, pc),
            Inst::Jump { block } => {
                pc = block;
                continue;
            }
            Inst::BranchIfZero { value, block } => {
                if slots[value as usize] == 0 {
                    pc = block;
                    continue;
                }
            }
            Inst::Return => return Some((memory, output)),
        }
        pc += 1;
    }
    None
}

#[test]
fn test_empty_program_sets_the_pointer_and_returns() {
    let code = lower(&[]);
    assert_eq!(
        code,
        vec![
            Inst::Origin { into: 0 },
            Inst::SetPointer { value: 0 },
            Inst::Return
        ]
    );
    let (memory, output) = execute(&code, &[], 10).unwrap();
    assert!(memory.iter().all(|cell| *cell == 0));
    assert!(output.is_empty());
}

#[test]
fn test_data_segment_has_four_bytes_to_a_cell() {
    assert_eq!(DATA_SIZE, 65535);
    assert_eq!(DATA_BYTES, 4 * 65535);
}

#[test]
fn test_add_loads_adds_and_stores() {
    assert_eq!(
        lower(&[Expr::Add(9, 3)])[2..],
        [
            Inst::Pointer { into: 0 },
            Inst::AddBase { into: 1, value: 0 },
            Inst::Offset { into: 2, value: 1, imm: 12 },
            Inst::Load { into: 3, address: 2 },
            Inst::AddImm { into: 4, value: 3, imm: 9 },
            Inst::Store { value: 4, address: 2 },
            Inst::Return,
        ]
    );
}

#[test]
fn test_move_changes_the_pointer_only() {
    assert_eq!(
        lower(&[Expr::Move(-2), Expr::Nop])[2..],
        [
            Inst::Pointer { into: 0 },
            Inst::Offset { into: 1, value: 0, imm: -8 },
            Inst::SetPointer { value: 1 },
            Inst::Return,
        ]
    );
}

#[test]
fn test_clear_out_and_in() {
    assert_eq!(
        lower(&[Expr::Clear(1), Expr::Out(0), Expr::In(-1)])[2..],
        [
            Inst::Pointer { into: 0 },
            Inst::AddBase { into: 1, value: 0 },
            Inst::Offset { into: 2, value: 1, imm: 4 },
            Inst::Zero { into: 3 },
            Inst::Store { value: 3, address: 2 },
            Inst::Pointer { into: 0 },
            Inst::AddBase { into: 1, value: 0 },
            Inst::Offset { into: 2, value: 1, imm: 0 },
            Inst::Load { into: 3, address: 2 },
            Inst::Write { value: 3 },
            Inst::Read { into: 3 },
            Inst::Pointer { into: 0 },
            Inst::AddBase { into: 1, value: 0 },
            Inst::Offset { into: 2, value: 1, imm: -4 },
            Inst::Store { value: 3, address: 2 },
            Inst::Return,
        ]
    );
}

#[test]
fn test_mul_reads_the_source_and_writes_the_target_only() {
    assert_eq!(
        lower(&[Expr::Mul(8, -1, 1)])[2..],
        [
            Inst::Pointer { into: 0 },
            Inst::AddBase { into: 1, value: 0 },
            Inst::Offset { into: 2, value: 1, imm: 4 },
            Inst::Load { into: 3, address: 2 },
            Inst::MulImm { into: 4, value: 3, imm: 8 },
            Inst::Offset { into: 5, value: 2, imm: -4 },
            Inst::Load { into: 6, address: 5 },
            Inst::Sum { into: 7, left: 6, right: 4 },
            Inst::Store { value: 7, address: 5 },
            Inst::Return,
        ]
    );
}

#[test]
fn test_loop_has_header_body_and_exit() {
    assert_eq!(
        lower(&[Expr::Loop(vec![Expr::Move(1)])]),
        vec![
            Inst::Origin { into: 0 },
            Inst::SetPointer { value: 0 },
            Inst::NewBlock { block: 6 },
            Inst::NewBlock { block: 13 },
            Inst::NewBlock { block: 18 },
            Inst::Jump { block: 6 },
            Inst::Enter { block: 6 },
            Inst::Pointer { into: 0 },
            Inst::AddBase { into: 1, value: 0 },
            Inst::Offset { into: 2, value: 1, imm: 0 },
            Inst::Load { into: 3, address: 2 },
            Inst::BranchIfZero { value: 3, block: 18 },
            Inst::Jump { block: 13 },
            Inst::Enter { block: 13 },
            Inst::Pointer { into: 0 },
            Inst::Offset { into: 1, value: 0, imm: 4 },
            Inst::SetPointer { value: 1 },
            Inst::Jump { block: 6 },
            Inst::Enter { block: 18 },
            Inst::Seal { block: 6 },
            Inst::Seal { block: 13 },
            Inst::Seal { block: 18 },
            Inst::Return,
        ]
    );
}

#[test]
fn test_every_block_is_named_by_where_it_is_entered() {
    let code = lower(&[
        Expr::Loop(vec![Expr::Loop(vec![]), Expr::Add(1, 0)]),
        Expr::Loop(vec![]),
    ]);
    let mut entered = vec![];
    for (at, inst) in code.iter().enumerate() {
        if let Inst::Enter { block } = inst {
            assert_eq!(*block, at);
            entered.push(at);
        }
    }
    let created: Vec<usize> = code
        .iter()
        .filter_map(|inst| match inst {
            Inst::NewBlock { block } => Some(*block),
            _ => None,
        })
        .collect();
    assert_eq!(created.len(), 9);
    for block in created {
        assert!(entered.contains(&block));
    }
}

#[test]
fn test_translator_appends() {
    let mut translator = FunctionTranslator::new();
    translator.address(2);
    translator.translate(&[Expr::Nop]);
    assert_eq!(
        translator.finish(),
        vec![
            Inst::Origin { into: 0 },
            Inst::SetPointer { value: 0 },
            Inst::Pointer { into: 0 },
            Inst::AddBase { into: 1, value: 0 },
            Inst::Offset { into: 2, value: 1, imm: 8 },
            Inst::Return,
        ]
    );
}

#[test]
fn test_put_h_runs_to_72_in_both_forms() {
    let source = || {
        vec![
            Expr::Move(1),
            Expr::Add(9, 0),
            Expr::Loop(vec![
                Expr::Move(-1),
                Expr::Add(8, 0),
                Expr::Move(1),
                Expr::Add(-1, 0),
            ]),
            Expr::Move(-1),
            Expr::Out(0),
        ]
    };
    let (plain_memory, plain_output) = execute(&lower(&source()), &[], 10_000).unwrap();
    assert_eq!(plain_output, vec![72]);
    let optimized = Optimizer::new().optimize(source());
    let (memory, output) = execute(&lower(&optimized), &[], 10_000).unwrap();
    assert_eq!(output, vec![72]);
    assert_eq!(memory, plain_memory);

    let mut interpreter = Interpreter::new(vec![]);
    assert_eq!(interpreter.eval(&source(), 100), Ok(()));
    assert_eq!(interpreter.output(), &output);
    for i in 0..DATA_SIZE {
        assert_eq!(interpreter.cell(i), memory[i]);
    }
}

#[test]
fn test_compile_hello() {
    let hello = "++++++++[>++++[>++>+++>+++>+<<<<-]>+>+>->>+[<]<-]>>.>---.+++++++..+++.>>.<-.<.+++.------.--------.>>+.>++.";
    let code = compile(hello).unwrap();
    let (_, output) = execute(&code, &[], 1_000_000).unwrap();
    let text: Vec<u8> = output.iter().map(|v| *v as u8).collect();
    assert_eq!(text, b"Hello World!\n");
}

#[test]
fn test_compile_echo_reads_until_end_of_input() {
    // ,+[-.,+] : echo, up to the -1 that ends the input
    let code = compile(",+[-.,+]").unwrap();
    let (_, output) = execute(&code, b"abc", 10_000).unwrap();
    assert_eq!(output, vec![97, 98, 99]);
}

#[test]
fn test_compile_empty_source() {
    assert_eq!(
        compile(""),
        Ok(vec![
            Inst::Origin { into: 0 },
            Inst::SetPointer { value: 0 },
            Inst::Return
        ])
    );
}

#[test]
fn test_compile_refuses_unmatched_brackets() {
    assert_eq!(compile("+[-"), Err(ParseError { position: 3 }));
    assert_eq!(compile("+]-"), Err(ParseError { position: 1 }));
}
