use bf_jit::frontend::Expr;
use bf_jit::parser::{parse_bytes, program, ParseError};

#[test]
fn test_every_command() {
    assert_eq!(
        program("+-><.,"),
        Ok(vec![
            Expr::Add(1, 0),
            Expr::Add(-1, 0),
            Expr::Move(1),
            Expr::Move(-1),
            Expr::Out(0),
            Expr::In(0),
        ])
    );
}

#[test]
fn test_loops_nest() {
    assert_eq!(
        program("+[>[-]<-]."),
        Ok(vec![
            Expr::Add(1, 0),
            Expr::Loop(vec![
                Expr::Move(1),
                Expr::Loop(vec![Expr::Add(-1, 0)]),
                Expr::Move(-1),
                Expr::Add(-1, 0),
            ]),
            Expr::Out(0),
        ])
    );
    assert_eq!(program("[]"), Ok(vec![Expr::Loop(vec![])]));
}

#[test]
fn test_empty_source_is_the_empty_program() {
    assert_eq!(program(""), Ok(vec![]));
}

#[test]
fn test_comments_are_ignored() {
    assert_eq!(
        program("add one: + then print. \u{3042}"),
        Ok(vec![Expr::Add(1, 0), Expr::Out(0)])
    );
    assert_eq!(parse_bytes(b"a+b"), Ok(vec![Expr::Add(1, 0)]));
}

#[test]
fn test_unmatched_close_is_reported_where_it_stands() {
    assert_eq!(program("+]"), Err(ParseError { position: 1 }));
    assert_eq!(program("[]]["), Err(ParseError { position: 2 }));
    assert_eq!(program("]"), Err(ParseError { position: 0 }));
}

#[test]
fn test_open_loop_is_reported_at_the_end() {
    assert_eq!(program("[+"), Err(ParseError { position: 2 }));
    assert_eq!(program("[[]"), Err(ParseError { position: 3 }));
    assert_eq!(program("["), Err(ParseError { position: 1 }));
}
