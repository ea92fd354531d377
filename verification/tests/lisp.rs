use bf_jit::environment::{Environment, LispError};
use bf_jit::eval::{apply, eval, eval_sequence, is_false, is_true, list_of_values};
use bf_jit::sexp::Sexp;
use bf_jit::value::{decimal_text, Primitive, Value};
use std::rc::Rc;

/// Reads the expressions of a text: numbers, symbols and lists in parentheses.
fn read(text: &str) -> Vec<Sexp> {
    fn list(items: Vec<Sexp>) -> Sexp {
        let mut out = Sexp::Nil;
        for item in items.into_iter().rev() {
            out = Sexp::Pair(Box::new(item), Box::new(out));
        }
        out
    }
    let spaced = text.replace('(', " ( ").replace(')', " ) ");
    let mut stack: Vec<Vec<Sexp>> = vec![vec![]];
    for token in spaced.split_whitespace() {
        match token {
            "(" => stack.push(vec![]),
            ")" => {
                let items = stack.pop().unwrap();
                stack.last_mut().unwrap().push(list(items));
            }
            _ => {
                let atom = match token.parse::<i64>() {
                    Ok(n) => Sexp::Integer(n),
                    Err(_) => Sexp::Symbol(token.to_string()),
                };
                stack.last_mut().unwrap().push(atom);
            }
        }
    }
    assert_eq!(stack.len(), 1);
    stack.pop().unwrap()
}

/// Evaluates the expressions of a text in the global scope, one after the other.
fn run(env: &mut Environment, text: &str) -> Result<String, LispError> {
    let mut last = String::new();
    for e in &read(text) {
        last = eval(e, env, 0, 1000)?.render();
    }
    Ok(last)
}

fn printed(env: &Environment) -> Vec<&str> {
    env.printed().iter().map(|line| line.as_str()).collect()
}

#[test]
fn test_the_three_symbols() {
    assert!(matches!(&*Value::ok(), Value::Symbol(s) if s == "ok"));
    assert!(matches!(&*Value::t(), Value::Symbol(s) if s == "true"));
    assert!(matches!(&*Value::f(), Value::Symbol(s) if s == "false"));
}

#[test]
fn test_double_and_counters() {
    let mut env = Environment::new();
    let program = "
(define double (lambda (x) (+ x x)))
(display (double 21))

(define make-counter (lambda () (begin (define count 0) (lambda () (begin (set! count (+ count 1)) count)))))
(define c1 (make-counter))
(define c2 (make-counter))
(display (c1))
(display (c1))
(display (c1))
(display (c2))
(display (c2))
";
    assert_eq!(run(&mut env, program), Ok("nil".to_string()));
    assert_eq!(printed(&env), vec!["42", "1", "2", "3", "1", "2"]);
}

#[test]
fn test_atoms() {
    let mut env = Environment::new();
    assert_eq!(run(&mut env, "7"), Ok("7".to_string()));
    assert_eq!(run(&mut env, "-7"), Ok("-7".to_string()));
    assert_eq!(run(&mut env, "()"), Ok("nil".to_string()));
    assert_eq!(run(&mut env, "car"), Ok("#<primitive procedure>".to_string()));
    assert_eq!(run(&mut env, "(lambda (x) x)"), Ok("#<procedure>".to_string()));
    assert_eq!(run(&mut env, "nowhere"), Err(LispError::UnboundVariable));
}

#[test]
fn test_define_and_set() {
    let mut env = Environment::new();
    assert_eq!(run(&mut env, "(define x 1)"), Ok("ok".to_string()));
    assert_eq!(run(&mut env, "(define x 2) x"), Ok("2".to_string()));
    assert_eq!(run(&mut env, "(set! x 3)"), Ok("ok".to_string()));
    assert_eq!(run(&mut env, "x"), Ok("3".to_string()));
    assert_eq!(run(&mut env, "(set! y 3)"), Err(LispError::UnboundVariable));
    // an inner scope sets the outer variable, and defines its own
    assert_eq!(
        run(&mut env, "((lambda () (begin (set! x 4) (define z 5) z)))"),
        Ok("5".to_string())
    );
    assert_eq!(run(&mut env, "x"), Ok("4".to_string()));
    assert_eq!(run(&mut env, "z"), Err(LispError::UnboundVariable));
}

#[test]
fn test_forms_of_another_shape_are_calls() {
    let mut env = Environment::new();
    // neither keyword is a variable
    assert_eq!(run(&mut env, "(define x)"), Err(LispError::UnboundVariable));
    assert_eq!(run(&mut env, "(if 1 2)"), Err(LispError::UnboundVariable));
    assert_eq!(run(&mut env, "(lambda)"), Err(LispError::UnboundVariable));
}

#[test]
fn test_if_takes_everything_but_false_as_true() {
    let mut env = Environment::new();
    assert_eq!(run(&mut env, "(if (< 1 2) 10 20)"), Ok("10".to_string()));
    assert_eq!(run(&mut env, "(if (> 1 2) 10 20)"), Ok("20".to_string()));
    assert_eq!(run(&mut env, "(if 0 10 20)"), Ok("10".to_string()));
    assert_eq!(run(&mut env, "(if () 10 20)"), Ok("10".to_string()));
    assert!(is_true(&Value::t()));
    assert!(is_true(&Rc::new(Value::Nil)));
    assert!(is_false(&Value::f()));
    assert!(!is_false(&Value::ok()));
}

#[test]
fn test_begin() {
    let mut env = Environment::new();
    assert_eq!(run(&mut env, "(begin)"), Ok("nil".to_string()));
    assert_eq!(run(&mut env, "(begin 1 2 3)"), Ok("3".to_string()));
    let body = read("(1 2)").pop().unwrap();
    let last = eval_sequence(&body, &mut env, 0, 0).unwrap();
    assert_eq!(last.render(), "2");
    let none = eval_sequence(&Sexp::Nil, &mut env, 0, 0).unwrap();
    assert_eq!(none.render(), "nil");
}

#[test]
fn test_arithmetic() {
    let mut env = Environment::new();
    assert_eq!(run(&mut env, "(+)"), Ok("0".to_string()));
    assert_eq!(run(&mut env, "(+ 1 2 3)"), Ok("6".to_string()));
    assert_eq!(run(&mut env, "(- 10)"), Ok("10".to_string()));
    assert_eq!(run(&mut env, "(- 10 1 2)"), Ok("7".to_string()));
    assert_eq!(run(&mut env, "(* 2 3 4)"), Ok("24".to_string()));
    assert_eq!(run(&mut env, "(/ 20 2 5)"), Ok("2".to_string()));
    assert_eq!(run(&mut env, "(/ -7 2)"), Ok("-3".to_string()));
    assert_eq!(run(&mut env, "(/ 7 -2)"), Ok("-3".to_string()));
    assert_eq!(run(&mut env, "(/ 1 0)"), Err(LispError::DivisionByZero));
    assert_eq!(run(&mut env, "(-)"), Err(LispError::InvalidArguments));
    assert_eq!(run(&mut env, "(+ 1 car)"), Err(LispError::InvalidArguments));
    assert_eq!(
        run(&mut env, "(+ 9223372036854775807 1)"),
        Err(LispError::Overflow)
    );
    assert_eq!(
        run(&mut env, "(* 4611686018427387904 2)"),
        Err(LispError::Overflow)
    );
    assert_eq!(
        run(&mut env, "(/ (- -9223372036854775807 1) -1)"),
        Err(LispError::Overflow)
    );
    // the first fault from the left decides
    assert_eq!(
        run(&mut env, "(+ 9223372036854775807 1 car)"),
        Err(LispError::Overflow)
    );
}

#[test]
fn test_comparisons() {
    let mut env = Environment::new();
    assert_eq!(run(&mut env, "(< 1 2)"), Ok("true".to_string()));
    assert_eq!(run(&mut env, "(> 1 2)"), Ok("false".to_string()));
    assert_eq!(run(&mut env, "(= 2 2)"), Ok("true".to_string()));
    assert_eq!(run(&mut env, "(<= 2 2)"), Ok("true".to_string()));
    assert_eq!(run(&mut env, "(>= 1 2)"), Ok("false".to_string()));
    assert_eq!(run(&mut env, "(< 1)"), Err(LispError::InvalidArguments));
    assert_eq!(run(&mut env, "(< 1 2 3)"), Err(LispError::InvalidArguments));
    assert_eq!(run(&mut env, "(= 1 ())"), Err(LispError::InvalidArguments));
}

#[test]
fn test_pairs() {
    let mut env = Environment::new();
    assert_eq!(
        run(&mut env, "(cons 1 (cons 2 ()))"),
        Ok("(1 . (2 . nil))".to_string())
    );
    assert_eq!(run(&mut env, "(car (cons 1 2))"), Ok("1".to_string()));
    assert_eq!(run(&mut env, "(cdr (cons 1 2))"), Ok("2".to_string()));
    assert_eq!(run(&mut env, "(null? ())"), Ok("true".to_string()));
    assert_eq!(run(&mut env, "(null? 0)"), Ok("false".to_string()));
    assert_eq!(run(&mut env, "(cons 1)"), Err(LispError::InvalidArguments));
    assert_eq!(run(&mut env, "(car 1)"), Err(LispError::InvalidArguments));
    assert_eq!(run(&mut env, "(cdr)"), Err(LispError::InvalidArguments));
    assert_eq!(run(&mut env, "(null?)"), Err(LispError::InvalidArguments));
    assert_eq!(run(&mut env, "(display 1 2)"), Err(LispError::InvalidArguments));
}

#[test]
fn test_calls() {
    let mut env = Environment::new();
    assert_eq!(
        run(&mut env, "(define first (lambda (a b) a)) (first 1 2)"),
        Ok("1".to_string())
    );
    assert_eq!(run(&mut env, "(first 1)"), Err(LispError::TooFewArguments));
    assert_eq!(run(&mut env, "(first 1 2 3)"), Err(LispError::TooManyArguments));
    assert_eq!(run(&mut env, "(1 2)"), Err(LispError::InvalidProcedure));
    assert_eq!(run(&mut env, "((lambda ()))"), Ok("nil".to_string()));
    // parameters that are no symbols are left out
    assert_eq!(run(&mut env, "((lambda (1 x) x) 5)"), Ok("5".to_string()));
    // a later parameter of the same name wins
    assert_eq!(run(&mut env, "((lambda (x x) x) 1 2)"), Ok("2".to_string()));
}

#[test]
fn test_recursion_and_fuel() {
    let mut env = Environment::new();
    let factorial = "(define fact (lambda (n) (if (< n 2) 1 (* n (fact (- n 1))))))";
    assert_eq!(run(&mut env, factorial), Ok("ok".to_string()));
    assert_eq!(run(&mut env, "(fact 10)"), Ok("3628800".to_string()));
    assert_eq!(
        run(&mut env, "(define spin (lambda () (spin))) (spin)"),
        Err(LispError::OutOfFuel)
    );
    let call = read("(fact 3)").pop().unwrap();
    // three nested calls of fact, and in the innermost the call of a primitive
    assert!(matches!(eval(&call, &mut env, 0, 3), Err(LispError::OutOfFuel)));
    assert_eq!(eval(&call, &mut env, 0, 4).unwrap().render(), "6");
    let sum = read("(+ 1 2)").pop().unwrap();
    assert!(matches!(eval(&sum, &mut env, 0, 0), Err(LispError::OutOfFuel)));
    assert_eq!(eval(&sum, &mut env, 0, 1).unwrap().render(), "3");
}

#[test]
fn test_closures_keep_their_scope() {
    let mut env = Environment::new();
    let program = "
(define make-adder (lambda (n) (lambda (x) (+ x n))))
(define add2 (make-adder 2))
(define n 100)
(add2 5)";
    assert_eq!(run(&mut env, program), Ok("7".to_string()));
}

#[test]
fn test_environment_by_hand() {
    let mut env = Environment::empty();
    assert_eq!(env.scopes(), 1);
    assert!(matches!(env.lookup(0, "x"), Err(LispError::UnboundVariable)));
    assert_eq!(env.define(0, "x", Rc::new(Value::Integer(1))).render(), "ok");
    assert_eq!(env.lookup(0, "x").unwrap().render(), "1");
    let inner = env
        .extend(&["y".to_string()], &[Rc::new(Value::Integer(2))], 0)
        .unwrap();
    assert_eq!(inner, 1);
    assert_eq!(env.lookup(inner, "y").unwrap().render(), "2");
    assert_eq!(env.lookup(inner, "x").unwrap().render(), "1");
    assert!(matches!(env.lookup(0, "y"), Err(LispError::UnboundVariable)));
    assert_eq!(env.set(inner, "x", Rc::new(Value::Integer(3))).unwrap().render(), "ok");
    assert_eq!(env.lookup(0, "x").unwrap().render(), "3");
    assert!(matches!(
        env.set(inner, "z", Rc::new(Value::Nil)),
        Err(LispError::UnboundVariable)
    ));
    assert!(matches!(
        env.extend(&["a".to_string()], &[], 0),
        Err(LispError::TooFewArguments)
    ));
    assert!(matches!(
        env.extend(&[], &[Rc::new(Value::Nil)], 0),
        Err(LispError::TooManyArguments)
    ));
    assert!(matches!(env.lookup(7, "x"), Err(LispError::UnboundVariable)));
}

#[test]
fn test_apply_and_list_of_values() {
    let mut env = Environment::new();
    let operands = read("(1 (+ 1 1) 3)").pop().unwrap();
    let values = list_of_values(&operands, &mut env, 0, 5).unwrap();
    let texts: Vec<String> = values.iter().map(|v| v.render()).collect();
    assert_eq!(texts, vec!["1", "2", "3"]);
    let sum = apply(
        Rc::new(Value::PrimitiveProcedure(Primitive::Add)),
        &values,
        &mut env,
        0,
    );
    assert_eq!(sum.unwrap().render(), "6");
    assert!(matches!(
        apply(Rc::new(Value::Nil), &values, &mut env, 0),
        Err(LispError::InvalidProcedure)
    ));
    let stray = Rc::new(Value::CompoundProcedure {
        body: vec![],
        parameters: vec![],
        environment: 99,
    });
    assert!(matches!(
        apply(stray, &[], &mut env, 0),
        Err(LispError::InvalidProcedure)
    ));
}

#[test]
fn test_numerals() {
    assert_eq!(decimal_text(0), "0");
    assert_eq!(decimal_text(7), "7");
    assert_eq!(decimal_text(-10), "-10");
    assert_eq!(decimal_text(1234567890), "1234567890");
    assert_eq!(decimal_text(i64::MAX), "9223372036854775807");
    assert_eq!(decimal_text(i64::MIN), "-9223372036854775808");
}

#[test]
fn test_duplicate_copies_the_whole_expression() {
    let e = read("(a (b 1) ())").pop().unwrap();
    assert_eq!(e.duplicate(), e);
    assert_eq!(e.clone(), e);
}
