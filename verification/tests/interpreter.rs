use bf_jit::frontend::Expr;
use bf_jit::interpreter::{Halt, Interpreter, MEMORY_SIZE};
use bf_jit::optimizer::Optimizer;

fn put_h() -> Vec<Expr> {
    vec![
        Expr::Move(1),
        Expr::Add(9, 0),
        Expr::Loop(vec![
            Expr::Move(-1),
            Expr::Add(8, 0),
            Expr::Move(1),
            Expr::Add(-1, 0),
        ]),
        Expr::Move(-1),
        Expr::Out(0),
    ]
}

#[test]
fn test_put_h_emits_72() {
    let mut plain = Interpreter::new(vec![]);
    assert_eq!(plain.eval(&put_h(), 100), Ok(()));
    assert_eq!(plain.output(), &vec![72]);

    let optimized = Optimizer::new().optimize(put_h());
    let mut fast = Interpreter::new(vec![]);
    // the optimized form has no loop left and needs no fuel
    assert_eq!(fast.eval(&optimized, 0), Ok(()));
    assert_eq!(fast.output(), &vec![72]);
    assert_eq!(fast.pointer(), plain.pointer());
    for i in 0..8 {
        assert_eq!(fast.cell(i), plain.cell(i));
    }
}

#[test]
fn test_pure_move_coalescing_leaves_the_same_state() {
    let source = vec![Expr::Move(3), Expr::Move(-1), Expr::Add(5, 0)];
    let mut plain = Interpreter::new(vec![]);
    assert_eq!(plain.eval(&source, 0), Ok(()));
    assert_eq!(plain.cell(2), 5);
    assert_eq!(plain.pointer(), 2);

    let optimized = vec![Expr::Add(5, 2), Expr::Move(2)];
    let mut fast = Interpreter::new(vec![]);
    assert_eq!(fast.eval(&optimized, 0), Ok(()));
    assert_eq!(fast.cell(2), 5);
    assert_eq!(fast.pointer(), 2);
}

#[test]
fn test_empty_program_is_a_no_op() {
    let mut interpreter = Interpreter::new(vec![1, 2]);
    assert_eq!(interpreter.eval(&[], 0), Ok(()));
    assert_eq!(interpreter.pointer(), 0);
    assert_eq!(interpreter.output(), &Vec::<i32>::new());
    assert_eq!(interpreter.cell(0), 0);
}

#[test]
fn test_add_wraps() {
    let mut interpreter = Interpreter::new(vec![]);
    assert_eq!(
        interpreter.eval(&[Expr::Add(i32::MAX, 0), Expr::Add(1, 0)], 0),
        Ok(())
    );
    assert_eq!(interpreter.cell(0), i32::MIN);
    assert_eq!(
        interpreter.eval(&[Expr::Clear(0), Expr::Add(-1, 0), Expr::Add(1, 0)], 0),
        Ok(())
    );
    assert_eq!(interpreter.cell(0), 0);
}

#[test]
fn test_mul_wraps_and_keeps_the_source() {
    let mut interpreter = Interpreter::new(vec![]);
    let program = [
        Expr::Add(0x4000_0000, 0),
        Expr::Add(7, 1),
        Expr::Mul(4, 1, 0),
        Expr::Mul(3, 1, 0),
    ];
    assert_eq!(interpreter.eval(&program, 0), Ok(()));
    // 7 + 4 * 2^30 wraps to 7, then 3 * 2^30 is added
    assert_eq!(interpreter.cell(1), 7i32.wrapping_add(0x4000_0000i32.wrapping_mul(3)));
    assert_eq!(interpreter.cell(0), 0x4000_0000);
}

#[test]
fn test_mul_adds_count_times_source() {
    let mut interpreter = Interpreter::new(vec![]);
    let program = [Expr::Add(9, 1), Expr::Add(2, 0), Expr::Mul(8, -1, 1), Expr::Clear(1)];
    assert_eq!(interpreter.eval(&program, 0), Ok(()));
    assert_eq!(interpreter.cell(0), 74);
    assert_eq!(interpreter.cell(1), 0);
}

#[test]
fn test_input_and_end_of_input() {
    let mut interpreter = Interpreter::new(vec![65, 200]);
    let program = [Expr::In(0), Expr::In(1), Expr::In(2), Expr::Out(1), Expr::Out(0)];
    assert_eq!(interpreter.eval(&program, 0), Ok(()));
    assert_eq!(interpreter.cell(0), 65);
    assert_eq!(interpreter.cell(1), 200);
    assert_eq!(interpreter.cell(2), -1);
    assert_eq!(interpreter.output(), &vec![200, 65]);
}

#[test]
fn test_out_of_bounds_is_reported() {
    let mut interpreter = Interpreter::new(vec![]);
    assert_eq!(interpreter.eval(&[Expr::Add(1, -1)], 0), Err(Halt::OutOfBounds));
    let mut interpreter = Interpreter::new(vec![]);
    assert_eq!(
        interpreter.eval(&[Expr::Move(MEMORY_SIZE as isize), Expr::Loop(vec![])], 5),
        Err(Halt::OutOfBounds)
    );
    let mut interpreter = Interpreter::new(vec![]);
    assert_eq!(
        interpreter.eval(&[Expr::Move(MEMORY_SIZE as isize - 1), Expr::Add(1, 0)], 0),
        Ok(())
    );
    assert_eq!(interpreter.cell(MEMORY_SIZE - 1), 1);
    assert_eq!(interpreter.cell(MEMORY_SIZE), 0);
}

#[test]
fn test_a_move_alone_is_never_out_of_bounds() {
    let mut interpreter = Interpreter::new(vec![]);
    assert_eq!(
        interpreter.eval(&[Expr::Move(-5), Expr::Move(6), Expr::Add(1, 0)], 0),
        Ok(())
    );
    assert_eq!(interpreter.cell(1), 1);
}

#[test]
fn test_fuel_bounds_the_rounds() {
    let countdown = [Expr::Add(3, 0), Expr::Loop(vec![Expr::Add(-1, 0)])];
    let mut interpreter = Interpreter::new(vec![]);
    assert_eq!(interpreter.eval(&countdown, 2), Err(Halt::OutOfFuel));
    let mut interpreter = Interpreter::new(vec![]);
    assert_eq!(interpreter.eval(&countdown, 3), Ok(()));
    assert_eq!(interpreter.cell(0), 0);

    let forever = [Expr::Add(1, 0), Expr::Loop(vec![])];
    let mut interpreter = Interpreter::new(vec![]);
    assert_eq!(interpreter.eval(&forever, 1000), Err(Halt::OutOfFuel));
}

#[test]
fn test_optimized_nested_program_agrees() {
    // cell1 = 3; while cell1 { cell0 += 2 via inner loop; cell1 -= 1 }
    let source = vec![
        Expr::Move(1),
        Expr::Add(3, 0),
        Expr::Loop(vec![
            Expr::Move(1),
            Expr::Add(2, 0),
            Expr::Loop(vec![Expr::Move(-2), Expr::Add(1, 0), Expr::Move(2), Expr::Add(-1, 0)]),
            Expr::Move(-1),
            Expr::Add(-1, 0),
            Expr::Out(-1),
        ]),
    ];
    let mut plain = Interpreter::new(vec![]);
    assert_eq!(plain.eval(&source, 50), Ok(()));
    let optimized = Optimizer::new().optimize(vec![
        Expr::Move(1),
        Expr::Add(3, 0),
        Expr::Loop(vec![
            Expr::Move(1),
            Expr::Add(2, 0),
            Expr::Loop(vec![Expr::Move(-2), Expr::Add(1, 0), Expr::Move(2), Expr::Add(-1, 0)]),
            Expr::Move(-1),
            Expr::Add(-1, 0),
            Expr::Out(-1),
        ]),
    ]);
    let mut fast = Interpreter::new(vec![]);
    assert_eq!(fast.eval(&optimized, 50), Ok(()));
    assert_eq!(plain.output(), &vec![2, 4, 6]);
    assert_eq!(fast.output(), plain.output());
    assert_eq!(fast.pointer(), plain.pointer());
    for i in 0..4 {
        assert_eq!(fast.cell(i), plain.cell(i));
    }
}

#[test]
fn test_negative_counter_goes_round_the_cell_width() {
    // a counter of -1 needs 2^32 - 1 rounds; the multiplication does it at once
    let optimized = Optimizer::new().optimize(vec![
        Expr::Add(-1, 0),
        Expr::Loop(vec![Expr::Add(3, 1), Expr::Add(-1, 0)]),
    ]);
    let mut fast = Interpreter::new(vec![]);
    assert_eq!(fast.eval(&optimized, 0), Ok(()));
    assert_eq!(fast.cell(0), 0);
    assert_eq!(fast.cell(1), -3);
}
