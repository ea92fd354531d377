use bf_jit::frontend::Expr;
use bf_jit::optimizer::Optimizer;

#[test]
fn test_put_h_optimize() {
    // putchar('H');
    let commands = vec![
        Expr::Move(1),
        Expr::Add(9, 0),
        Expr::Loop(vec![
            Expr::Move(-1),
            Expr::Add(8, 0),
            Expr::Move(1),
            Expr::Add(-1, 0),
        ]),
        Expr::Move(-1),
        Expr::Out(0),
    ];

    let mut optimizer = Optimizer::new();
    let commands = optimizer.optimize(commands);

    let expected = vec![
        Expr::Add(9, 1),
        Expr::Mul(8, -1, 1),
        Expr::Clear(1),
        Expr::Out(0),
        Expr::Nop,
        Expr::Nop,
    ];

    assert_eq!(commands, expected);
}

#[test]
fn test_pure_move_coalescing() {
    let mut optimizer = Optimizer::new();
    let commands = optimizer.optimize(vec![Expr::Move(3), Expr::Move(-1), Expr::Add(5, 0)]);
    assert_eq!(commands, vec![Expr::Add(5, 2), Expr::Move(2), Expr::Nop]);
}

#[test]
fn test_loop_with_output_is_preserved() {
    let body = vec![Expr::Out(0), Expr::Add(-1, 0)];
    let mut optimizer = Optimizer::new();
    assert!(!optimizer.can_convert_to_multiplication(&body));
    let commands = optimizer.optimize(vec![Expr::Loop(body)]);
    assert_eq!(
        commands,
        vec![Expr::Loop(vec![Expr::Out(0), Expr::Add(-1, 0)])]
    );
}

#[test]
fn test_empty_program_stays_empty() {
    let mut optimizer = Optimizer::new();
    assert_eq!(optimizer.optimize(vec![]), vec![]);
}

#[test]
fn test_lazy_move_resolves_offsets_and_pads() {
    let mut optimizer = Optimizer::new();
    let mut run = vec![
        Expr::Move(2),
        Expr::Out(0),
        Expr::Nop,
        Expr::Move(-2),
        Expr::In(1),
        Expr::Clear(-1),
        Expr::Mul(3, 4, 5),
    ];
    optimizer.optimize_lazy_move(&mut run);
    assert_eq!(
        run,
        vec![
            Expr::Out(2),
            Expr::In(1),
            Expr::Clear(-1),
            Expr::Mul(3, 4, 5),
            Expr::Nop,
            Expr::Nop,
            Expr::Nop,
        ]
    );
}

#[test]
fn test_lazy_move_is_idempotent() {
    let mut optimizer = Optimizer::new();
    let mut run = vec![Expr::Move(1), Expr::Add(1, 0), Expr::Move(1), Expr::Add(2, -1)];
    optimizer.optimize_lazy_move(&mut run);
    assert_eq!(
        run,
        vec![Expr::Add(1, 1), Expr::Add(2, 1), Expr::Move(2), Expr::Nop]
    );
    let mut again = vec![Expr::Add(1, 1), Expr::Add(2, 1), Expr::Move(2), Expr::Nop];
    optimizer.optimize_lazy_move(&mut again);
    assert_eq!(again, run);
}

#[test]
fn test_lazy_move_wraps_the_displacement() {
    let mut optimizer = Optimizer::new();
    let mut run = vec![Expr::Move(isize::MAX), Expr::Move(1), Expr::Add(1, 0)];
    optimizer.optimize_lazy_move(&mut run);
    assert_eq!(
        run,
        vec![Expr::Add(1, isize::MIN), Expr::Move(isize::MIN), Expr::Nop]
    );
}

#[test]
fn test_can_convert_to_multiplication() {
    let mut optimizer = Optimizer::new();
    assert!(optimizer.can_convert_to_multiplication(&[Expr::Add(8, -1), Expr::Add(-1, 0)]));
    assert!(optimizer.can_convert_to_multiplication(&[Expr::Add(-1, 0), Expr::Nop]));
    // the counter goes down by two
    assert!(!optimizer.can_convert_to_multiplication(&[Expr::Add(-2, 0)]));
    // two steps on the counter
    assert!(!optimizer.can_convert_to_multiplication(&[Expr::Add(-1, 0), Expr::Add(-1, 0)]));
    assert!(!optimizer.can_convert_to_multiplication(&[Expr::Add(1, 0), Expr::Add(-1, 0)]));
    // no step on the counter
    assert!(!optimizer.can_convert_to_multiplication(&[Expr::Add(1, 1)]));
    assert!(!optimizer.can_convert_to_multiplication(&[]));
    // a move is left
    assert!(!optimizer.can_convert_to_multiplication(&[Expr::Add(-1, 0), Expr::Move(1)]));
}

#[test]
fn test_optimize_multiplication() {
    let mut optimizer = Optimizer::new();
    let block = optimizer.optimize_multiplication(&[
        Expr::Add(8, -1),
        Expr::Nop,
        Expr::Add(-1, 0),
        Expr::Add(2, 3),
    ]);
    assert_eq!(
        block,
        vec![Expr::Mul(8, -1, 0), Expr::Mul(2, 3, 0), Expr::Clear(0)]
    );
}

#[test]
fn test_nested_loops_are_optimized_inside_out() {
    // [ > [-] < - ] : the inner loop clears, so the outer one does not multiply
    let commands = vec![Expr::Loop(vec![
        Expr::Move(1),
        Expr::Loop(vec![Expr::Add(-1, 0)]),
        Expr::Move(-1),
        Expr::Add(-1, 0),
    ])];
    let mut optimizer = Optimizer::new();
    let commands = optimizer.optimize(commands);
    assert_eq!(
        commands,
        vec![Expr::Loop(vec![
            Expr::Clear(1),
            Expr::Add(-1, 0),
            Expr::Nop,
            Expr::Nop,
        ])]
    );
}

#[test]
fn test_optimizing_twice_changes_nothing_more() {
    let source = vec![
        Expr::Move(1),
        Expr::Add(9, 0),
        Expr::Loop(vec![
            Expr::Move(-1),
            Expr::Add(8, 0),
            Expr::Loop(vec![Expr::Out(0), Expr::Move(2), Expr::Add(-1, -2)]),
            Expr::Move(1),
            Expr::Add(-1, 0),
        ]),
        Expr::Move(-1),
        Expr::Out(0),
    ];
    let mut optimizer = Optimizer::new();
    let once = optimizer.optimize(source);
    let twice = optimizer.optimize(once.clone());
    assert_eq!(twice, once);
}
