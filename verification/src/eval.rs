use crate::environment::{Environment, LispError, World};
use crate::sexp::{elements, term_of, terms_of, Sexp, Term};
use crate::value::{data_of, datum_of, names_of, share, written, Datum, Primitive, Value};
use std::rc::Rc;
use vstd::prelude::*;
use vstd::string::StringExecFns;

verus! {

/// The head of a list.
pub open spec fn first(t: Term) -> Term {
    *t->Pair_0
}

/// What follows the head of a list.
pub open spec fn rest(t: Term) -> Term {
    *t->Pair_1
}

/// Whether `t` has the form `(keyword variable value)`.
pub open spec fn is_binding(t: Term, keyword: Seq<char>) -> bool {
    &&& t is Pair
    &&& rest(t) is Pair
    &&& rest(rest(t)) is Pair
    &&& rest(rest(rest(t))) is Nil
    &&& first(t) == Term::Symbol(keyword)
    &&& first(rest(t)) is Symbol
}

/// Whether `t` has the form `(if predicate consequent alternative)`.
pub open spec fn is_conditional(t: Term) -> bool {
    &&& t is Pair
    &&& rest(t) is Pair
    &&& rest(rest(t)) is Pair
    &&& rest(rest(rest(t))) is Pair
    &&& rest(rest(rest(rest(t)))) is Nil
    &&& first(t) == Term::Symbol("if"@)
}

/// Whether `t` has the form `(begin ...)`.
pub open spec fn is_sequence(t: Term) -> bool {
    t is Pair && first(t) == Term::Symbol("begin"@)
}

/// Whether `t` has the form `(lambda parameters ...)`.
pub open spec fn is_lambda(t: Term) -> bool {
    t is Pair && first(t) == Term::Symbol("lambda"@) && rest(t) is Pair
}

/// The symbols among the elements of the list that starts at `t`, in order.
pub open spec fn symbols(t: Term) -> Seq<Seq<char>>
    decreases t,
{
    match t {
        Term::Pair(car, cdr) => match *car {
            Term::Symbol(s) => seq![s] + symbols(*cdr),
            _ => symbols(*cdr),
        },
        _ => Seq::empty(),
    }
}

/// Every datum but the symbol `false` counts as true.
pub open spec fn counts_as_true(d: Datum) -> bool {
    d != Datum::Symbol("false"@)
}

/// The symbol that stands for a truth value.
pub open spec fn truth(b: bool) -> Datum {
    if b {
        Datum::Symbol("true"@)
    } else {
        Datum::Symbol("false"@)
    }
}

/// The four arithmetic primitives on two numbers. A result that does not fit
/// in 64 bits is an overflow.
pub open spec fn combined(p: Primitive, a: i64, b: i64) -> Result<i64, LispError> {
    match p {
        Primitive::Add => match a.checked_add(b) {
            Some(v) => Ok(v),
            None => Err(LispError::Overflow),
        },
        Primitive::Sub => match a.checked_sub(b) {
            Some(v) => Ok(v),
            None => Err(LispError::Overflow),
        },
        Primitive::Mul => match a.checked_mul(b) {
            Some(v) => Ok(v),
            None => Err(LispError::Overflow),
        },
        _ => if b == 0 {
            Err(LispError::DivisionByZero)
        } else {
            match a.checked_div(b) {
                Some(v) => Ok(v),
                None => Err(LispError::Overflow),
            }
        },
    }
}

/// The arguments from index `k` on, combined one by one with what was
/// combined so far. All of them must be numbers.
pub open spec fn folded(p: Primitive, args: Seq<Datum>, k: int, so_far: i64) -> Result<
    i64,
    LispError,
>
    decreases args.len() - k,
{
    if !(0 <= k < args.len()) {
        Ok(so_far)
    } else {
        match args[k] {
            Datum::Integer(n) => match combined(p, so_far, n) {
                Ok(v) => folded(p, args, k + 1, v),
                Err(e) => Err(e),
            },
            _ => Err(LispError::InvalidArguments),
        }
    }
}

/// The comparison that a primitive stands for.
pub open spec fn compared(p: Primitive, a: i64, b: i64) -> bool {
    match p {
        Primitive::Less => a < b,
        Primitive::Greater => a > b,
        Primitive::Equal => a == b,
        Primitive::LessEqual => a <= b,
        _ => a >= b,
    }
}

/// What a primitive procedure does with its arguments: the value it returns
/// and the world it leaves.
pub open spec fn primitive_applied(p: Primitive, args: Seq<Datum>, w: World) -> (
    Result<Datum, LispError>,
    World,
) {
    match p {
        Primitive::Add => (
            match folded(p, args, 0, 0) {
                Ok(v) => Ok(Datum::Integer(v)),
                Err(e) => Err(e),
            },
            w,
        ),
        Primitive::Sub | Primitive::Mul | Primitive::Div => (
            if args.len() > 0 && args[0] is Integer {
                match folded(p, args, 1, args[0]->Integer_0) {
                    Ok(v) => Ok(Datum::Integer(v)),
                    Err(e) => Err(e),
                }
            } else {
                Err(LispError::InvalidArguments)
            },
            w,
        ),
        Primitive::Cons => (
            if args.len() == 2 {
                Ok(Datum::Pair(Box::new(args[0]), Box::new(args[1])))
            } else {
                Err(LispError::InvalidArguments)
            },
            w,
        ),
        Primitive::Car => (
            if args.len() > 0 && args[0] is Pair {
                Ok(*args[0]->Pair_0)
            } else {
                Err(LispError::InvalidArguments)
            },
            w,
        ),
        Primitive::Cdr => (
            if args.len() > 0 && args[0] is Pair {
                Ok(*args[0]->Pair_1)
            } else {
                Err(LispError::InvalidArguments)
            },
            w,
        ),
        Primitive::Display => if args.len() == 1 {
            (Ok(Datum::Nil), w.displayed(written(args[0])))
        } else {
            (Err(LispError::InvalidArguments), w)
        },
        Primitive::Less
        | Primitive::Greater
        | Primitive::Equal
        | Primitive::LessEqual
        | Primitive::GreaterEqual => (
            if args.len() == 2 && args[0] is Integer && args[1] is Integer {
                Ok(truth(compared(p, args[0]->Integer_0, args[1]->Integer_0)))
            } else {
                Err(LispError::InvalidArguments)
            },
            w,
        ),
        Primitive::IsNull => (
            if args.len() == 1 {
                Ok(truth(args[0] is Nil))
            } else {
                Err(LispError::InvalidArguments)
            },
            w,
        ),
    }
}

/// What the expression `t` evaluates to in `scope`, and the world it leaves.
/// Every call of a procedure takes one unit of fuel for all that happens in it.
pub open spec fn evaluated(t: Term, w: World, scope: nat, fuel: nat) -> (
    Result<Datum, LispError>,
    World,
)
    decreases fuel, 0nat, t, 0nat,
{
    match t {
        Term::Nil => (Ok(Datum::Nil), w),
        Term::Integer(n) => (Ok(Datum::Integer(n)), w),
        Term::Symbol(s) => (
            match w.found(scope, s) {
                Some(d) => Ok(d),
                None => Err(LispError::UnboundVariable),
            },
            w,
        ),
        Term::Pair(_, _) => if is_binding(t, "set!"@) {
            let (value, w1) = evaluated(first(rest(rest(t))), w, scope, fuel);
            match value {
                Ok(d) => match w1.assigned(scope, first(rest(t))->Symbol_0, d) {
                    Some(w2) => (Ok(Datum::Symbol("ok"@)), w2),
                    None => (Err(LispError::UnboundVariable), w1),
                },
                Err(e) => (Err(e), w1),
            }
        } else if is_binding(t, "define"@) {
            let (value, w1) = evaluated(first(rest(rest(t))), w, scope, fuel);
            match value {
                Ok(d) => (Ok(Datum::Symbol("ok"@)), w1.defined(scope, first(rest(t))->Symbol_0, d)),
                Err(e) => (Err(e), w1),
            }
        } else if is_conditional(t) {
            let (test, w1) = evaluated(first(rest(t)), w, scope, fuel);
            match test {
                Ok(d) => if counts_as_true(d) {
                    evaluated(first(rest(rest(t))), w1, scope, fuel)
                } else {
                    evaluated(first(rest(rest(rest(t)))), w1, scope, fuel)
                },
                Err(e) => (Err(e), w1),
            }
        } else if is_sequence(t) {
            evaluated_in_turn(rest(t), Datum::Nil, w, scope, fuel)
        } else if is_lambda(t) {
            (
                Ok(
                    Datum::Procedure {
                        body: elements(rest(rest(t))),
                        parameters: symbols(first(rest(t))),
                        environment: scope,
                    },
                ),
                w,
            )
        } else {
            let (operator, w1) = evaluated(first(t), w, scope, fuel);
            match operator {
                Ok(procedure) => {
                    let (operands, w2) = evaluated_each(rest(t), Seq::empty(), w1, scope, fuel);
                    match operands {
                        Ok(args) => if fuel == 0 {
                            (Err(LispError::OutOfFuel), w2)
                        } else {
                            applied(procedure, args, w2, (fuel - 1) as nat)
                        },
                        Err(e) => (Err(e), w2),
                    }
                },
                Err(e) => (Err(e), w1),
            }
        },
    }
}

/// The elements of the list that starts at `t`, evaluated in turn: the value of
/// the last one, or `last` where there is none.
pub open spec fn evaluated_in_turn(t: Term, last: Datum, w: World, scope: nat, fuel: nat) -> (
    Result<Datum, LispError>,
    World,
)
    decreases fuel, 0nat, t, 0nat,
{
    match t {
        Term::Pair(car, cdr) => {
            let (value, w1) = evaluated(*car, w, scope, fuel);
            match value {
                Ok(d) => evaluated_in_turn(*cdr, d, w1, scope, fuel),
                Err(e) => (Err(e), w1),
            }
        },
        _ => (Ok(last), w),
    }
}

/// The elements of the list that starts at `t`, evaluated in turn: their
/// values, in order, behind those in `so_far`.
pub open spec fn evaluated_each(t: Term, so_far: Seq<Datum>, w: World, scope: nat, fuel: nat) -> (
    Result<Seq<Datum>, LispError>,
    World,
)
    decreases fuel, 0nat, t, 0nat,
{
    match t {
        Term::Pair(car, cdr) => {
            let (value, w1) = evaluated(*car, w, scope, fuel);
            match value {
                Ok(d) => evaluated_each(*cdr, so_far.push(d), w1, scope, fuel),
                Err(e) => (Err(e), w1),
            }
        },
        _ => (Ok(so_far), w),
    }
}

/// What the procedure `f` returns for the arguments `args`. A `lambda` binds
/// its parameters to the arguments in a new scope, which lies in the scope it
/// was made in, and evaluates its body there.
pub open spec fn applied(f: Datum, args: Seq<Datum>, w: World, fuel: nat) -> (
    Result<Datum, LispError>,
    World,
)
    decreases fuel, 1nat, Term::Nil, 1nat,
{
    match f {
        Datum::Primitive(p) => primitive_applied(p, args, w),
        Datum::Procedure { body, parameters, environment } => if environment >= w.scopes.len() {
            (Err(LispError::InvalidProcedure), w)
        } else if parameters.len() < args.len() {
            (Err(LispError::TooManyArguments), w)
        } else if parameters.len() > args.len() {
            (Err(LispError::TooFewArguments), w)
        } else {
            evaluated_body(
                body,
                0,
                Datum::Nil,
                w.extended(parameters, args, environment),
                w.scopes.len(),
                fuel,
            )
        },
        _ => (Err(LispError::InvalidProcedure), w),
    }
}

/// The expressions of a body from index `k` on, evaluated in turn: the value
/// of the last one, or `last` where there is none.
pub open spec fn evaluated_body(
    body: Seq<Term>,
    k: nat,
    last: Datum,
    w: World,
    scope: nat,
    fuel: nat,
) -> (Result<Datum, LispError>, World)
    decreases fuel, 1nat, Term::Nil, 0nat, body.len() - k,
{
    if k >= body.len() {
        (Ok(last), w)
    } else {
        let (value, w1) = evaluated(body[k as int], w, scope, fuel);
        match value {
            Ok(d) => evaluated_body(body, k + 1, d, w1, scope, fuel),
            Err(e) => (Err(e), w1),
        }
    }
}

/// Whether `s` is the text `word`.
fn is_word(s: &String, word: &str) -> (same: bool)
    ensures
        same == (s@ == word@),
{
    let other = String::from_str(word);
    *s == other
}

/// Whether a value counts as false: only the symbol `false` does.
pub fn is_false(exp: &Rc<Value>) -> (no: bool)
    ensures
        no == !counts_as_true(datum_of(**exp)),
{
    match &**exp {
        Value::Symbol(s) => is_word(s, "false"),
        _ => false,
    }
}

/// Whether a value counts as true: every value but the symbol `false` does.
pub fn is_true(exp: &Rc<Value>) -> (yes: bool)
    ensures
        yes == counts_as_true(datum_of(**exp)),
{
    !is_false(exp)
}

/// The symbol that stands for a truth value.
fn truth_value(b: bool) -> (v: Rc<Value>)
    ensures
        datum_of(*v) == truth(b),
{
    if b {
        Value::t()
    } else {
        Value::f()
    }
}

/// One of the four arithmetic primitives on two numbers.
fn combine(p: Primitive, a: i64, b: i64) -> (result: Result<i64, LispError>)
    ensures
        result == combined(p, a, b),
{
    let found = match p {
        Primitive::Add => a.checked_add(b),
        Primitive::Sub => a.checked_sub(b),
        Primitive::Mul => a.checked_mul(b),
        _ => {
            if b == 0 {
                return Err(LispError::DivisionByZero);
            }
            a.checked_div(b)
        },
    };
    match found {
        Some(v) => Ok(v),
        None => Err(LispError::Overflow),
    }
}

/// The arguments from index `from` on, combined one by one with `start`.
fn fold(p: Primitive, args: &[Rc<Value>], from: usize, start: i64) -> (result: Result<
    i64,
    LispError,
>)
    requires
        from <= args@.len(),
    ensures
        result == folded(p, data_of(args@), from as int, start),
{
    let n = args.len();
    let mut k = from;
    let mut so_far = start;
    while k < n
        invariant
            from <= k <= n,
            n == args@.len(),
            folded(p, data_of(args@), k as int, so_far) == folded(
                p,
                data_of(args@),
                from as int,
                start,
            ),
        decreases n - k,
    {
        match &*args[k] {
            Value::Integer(m) => match combine(p, so_far, *m) {
                Ok(v) => {
                    so_far = v;
                },
                Err(e) => {
                    return Err(e);
                },
            },
            _ => {
                return Err(LispError::InvalidArguments);
            },
        }
        k += 1;
    }
    Ok(so_far)
}

/// Whether two numbers compare as the primitive says.
fn compare(p: Primitive, a: i64, b: i64) -> (yes: bool)
    ensures
        yes == compared(p, a, b),
{
    match p {
        Primitive::Less => a < b,
        Primitive::Greater => a > b,
        Primitive::Equal => a == b,
        Primitive::LessEqual => a <= b,
        _ => a >= b,
    }
}

/// Applies a primitive procedure to its arguments.
pub fn apply_primitive(p: Primitive, args: &[Rc<Value>], env: &mut Environment) -> (result: Result<
    Rc<Value>,
    LispError,
>)
    requires
        old(env).wf(),
    ensures
        final(env).wf(),
        final(env)@.scopes == old(env)@.scopes,
        match primitive_applied(p, data_of(args@), old(env)@) {
            (Ok(d), w) => final(env)@ == w && (result matches Ok(v) && datum_of(*v) == d),
            (Err(e), _) => result matches Err(f) && e == f,
        },
{
    let n = args.len();
    match p {
        Primitive::Add => match fold(p, args, 0, 0) {
            Ok(v) => Ok(Rc::new(Value::Integer(v))),
            Err(e) => Err(e),
        },
        Primitive::Sub | Primitive::Mul | Primitive::Div => {
            if n == 0 {
                return Err(LispError::InvalidArguments);
            }
            match &*args[0] {
                Value::Integer(first) => match fold(p, args, 1, *first) {
                    Ok(v) => Ok(Rc::new(Value::Integer(v))),
                    Err(e) => Err(e),
                },
                _ => Err(LispError::InvalidArguments),
            }
        },
        Primitive::Cons => {
            if n != 2 {
                return Err(LispError::InvalidArguments);
            }
            Ok(Rc::new(Value::Pair(share(&args[0]), share(&args[1]))))
        },
        Primitive::Car => {
            if n == 0 {
                return Err(LispError::InvalidArguments);
            }
            match &*args[0] {
                Value::Pair(car, _) => Ok(share(car)),
                _ => Err(LispError::InvalidArguments),
            }
        },
        Primitive::Cdr => {
            if n == 0 {
                return Err(LispError::InvalidArguments);
            }
            match &*args[0] {
                Value::Pair(_, cdr) => Ok(share(cdr)),
                _ => Err(LispError::InvalidArguments),
            }
        },
        Primitive::Display => {
            if n != 1 {
                return Err(LispError::InvalidArguments);
            }
            let line = args[0].render();
            env.display(line);
            Ok(Rc::new(Value::Nil))
        },
        Primitive::Less
        | Primitive::Greater
        | Primitive::Equal
        | Primitive::LessEqual
        | Primitive::GreaterEqual => {
            if n != 2 {
                return Err(LispError::InvalidArguments);
            }
            match (&*args[0], &*args[1]) {
                (Value::Integer(lhs), Value::Integer(rhs)) => Ok(
                    truth_value(compare(p, *lhs, *rhs)),
                ),
                _ => Err(LispError::InvalidArguments),
            }
        },
        Primitive::IsNull => {
            if n != 1 {
                return Err(LispError::InvalidArguments);
            }
            match &*args[0] {
                Value::Nil => Ok(truth_value(true)),
                _ => Ok(truth_value(false)),
            }
        },
    }
}

/// The variable and the value expression of `(keyword variable value)`.
fn binding_parts<'a>(exp: &'a Sexp, keyword: &str) -> (parts: Option<(&'a String, &'a Sexp)>)
    ensures
        match parts {
            Some((var, val)) => {
                &&& is_binding(term_of(*exp), keyword@)
                &&& Term::Symbol(var@) == first(rest(term_of(*exp)))
                &&& term_of(*val) == first(rest(rest(term_of(*exp))))
            },
            None => !is_binding(term_of(*exp), keyword@),
        },
{
    proof {
        reveal_with_fuel(term_of, 5);
    }
    if let Sexp::Pair(head, tail) = exp {
        if let Sexp::Symbol(s) = &**head {
            if let Sexp::Pair(second, tail2) = &**tail {
                if let Sexp::Symbol(var) = &**second {
                    if let Sexp::Pair(val, end) = &**tail2 {
                        if let Sexp::Nil = &**end {
                            if is_word(s, keyword) {
                                return Some((var, &**val));
                            }
                        }
                    }
                }
            }
        }
    }
    None
}

/// The predicate, the consequent and the alternative of an `if`.
fn conditional_parts<'a>(exp: &'a Sexp) -> (parts: Option<(&'a Sexp, &'a Sexp, &'a Sexp)>)
    ensures
        match parts {
            Some((p, c, a)) => {
                &&& is_conditional(term_of(*exp))
                &&& term_of(*p) == first(rest(term_of(*exp)))
                &&& term_of(*c) == first(rest(rest(term_of(*exp))))
                &&& term_of(*a) == first(rest(rest(rest(term_of(*exp)))))
            },
            None => !is_conditional(term_of(*exp)),
        },
{
    proof {
        reveal_with_fuel(term_of, 6);
    }
    if let Sexp::Pair(head, tail) = exp {
        if let Sexp::Symbol(s) = &**head {
            if let Sexp::Pair(p, tail2) = &**tail {
                if let Sexp::Pair(c, tail3) = &**tail2 {
                    if let Sexp::Pair(a, end) = &**tail3 {
                        if let Sexp::Nil = &**end {
                            if is_word(s, "if") {
                                return Some((&**p, &**c, &**a));
                            }
                        }
                    }
                }
            }
        }
    }
    None
}

/// Whether `exp` is a pair whose head is the symbol `keyword`.
fn starts_with(exp: &Sexp, keyword: &str) -> (yes: bool)
    ensures
        yes == (term_of(*exp) is Pair && first(term_of(*exp)) == Term::Symbol(keyword@)),
{
    proof {
        reveal_with_fuel(term_of, 3);
    }
    if let Sexp::Pair(head, _) = exp {
        if let Sexp::Symbol(s) = &**head {
            return is_word(s, keyword);
        }
    }
    false
}

/// The names of the symbols among the elements of a list.
fn parameter_names(list: &Sexp) -> (names: Vec<String>)
    ensures
        names_of(names@) == symbols(term_of(*list)),
    decreases list,
{
    match list {
        Sexp::Pair(car, cdr) => {
            let mut names = parameter_names(cdr);
            proof {
                reveal_with_fuel(term_of, 3);
            }
            if let Sexp::Symbol(s) = &**car {
                let ghost had = names@;
                let copy = s.clone();
                names.insert(0, copy);
                proof {
                    assert(names_of(names@) =~= seq![s@] + names_of(had));
                }
            }
            names
        },
        _ => {
            let names: Vec<String> = Vec::new();
            proof {
                assert(names_of(names@) =~= Seq::<Seq<char>>::empty());
            }
            names
        },
    }
}

/// Copies of the elements of a list.
fn body_of(list: &Sexp) -> (body: Vec<Sexp>)
    ensures
        terms_of(body@) == elements(term_of(*list)),
    decreases list,
{
    match list {
        Sexp::Pair(car, cdr) => {
            let mut body = body_of(cdr);
            let ghost had = body@;
            let copy = car.duplicate();
            body.insert(0, copy);
            proof {
                assert(terms_of(body@) =~= seq![term_of(**car)] + terms_of(had));
            }
            body
        },
        _ => {
            let body: Vec<Sexp> = Vec::new();
            proof {
                assert(terms_of(body@) =~= Seq::<Term>::empty());
            }
            body
        },
    }
}

/// Evaluates the expression `exp` in `scope`. Every call of a procedure takes
/// one unit of fuel for all that happens in it. Of the environment after an
/// error nothing is said.
pub fn eval(exp: &Sexp, env: &mut Environment, scope: usize, fuel: u64) -> (result: Result<
    Rc<Value>,
    LispError,
>)
    requires
        old(env).wf(),
        scope < old(env)@.scopes.len(),
    ensures
        final(env).wf(),
        old(env)@.scopes.len() <= final(env)@.scopes.len(),
        match evaluated(term_of(*exp), old(env)@, scope as nat, fuel as nat) {
            (Ok(d), w) => final(env)@ == w && (result matches Ok(v) && datum_of(*v) == d),
            (Err(e), _) => result matches Err(f) && e == f,
        },
    decreases fuel, 0nat, term_of(*exp), 0nat,
{
    proof {
        reveal_with_fuel(term_of, 3);
    }
    match exp {
        Sexp::Nil => {
            return Ok(Rc::new(Value::Nil));
        },
        Sexp::Integer(n) => {
            return Ok(Rc::new(Value::Integer(*n)));
        },
        Sexp::Symbol(s) => {
            return env.lookup(scope, s.as_str());
        },
        Sexp::Pair(head, tail) => {
            if let Some((var, val)) = binding_parts(exp, "set!") {
                let value = match eval(val, env, scope, fuel) {
                    Ok(v) => v,
                    Err(e) => {
                        return Err(e);
                    },
                };
                return env.set(scope, var.as_str(), value);
            }
            if let Some((var, val)) = binding_parts(exp, "define") {
                let value = match eval(val, env, scope, fuel) {
                    Ok(v) => v,
                    Err(e) => {
                        return Err(e);
                    },
                };
                return Ok(env.define(scope, var.as_str(), value));
            }
            if let Some((p, c, a)) = conditional_parts(exp) {
                let test = match eval(p, env, scope, fuel) {
                    Ok(v) => v,
                    Err(e) => {
                        return Err(e);
                    },
                };
                if is_true(&test) {
                    return eval(c, env, scope, fuel);
                } else {
                    return eval(a, env, scope, fuel);
                }
            }
            if starts_with(exp, "begin") {
                return eval_sequence(tail, env, scope, fuel);
            }
            if starts_with(exp, "lambda") {
                if let Sexp::Pair(parameters, body) = &**tail {
                    return Ok(
                        Rc::new(
                            Value::CompoundProcedure {
                                body: body_of(body),
                                parameters: parameter_names(parameters),
                                environment: scope,
                            },
                        ),
                    );
                }
            }
            let procedure = match eval(head, env, scope, fuel) {
                Ok(v) => v,
                Err(e) => {
                    return Err(e);
                },
            };
            let arguments = match list_of_values(tail, env, scope, fuel) {
                Ok(vs) => vs,
                Err(e) => {
                    return Err(e);
                },
            };
            if fuel == 0 {
                return Err(LispError::OutOfFuel);
            }
            apply(procedure, arguments.as_slice(), env, fuel - 1)
        },
    }
}

/// Evaluates the elements of a list in turn and hands back the value of the
/// last one, or `Nil` where the list has none.
pub fn eval_sequence(exp: &Sexp, env: &mut Environment, scope: usize, fuel: u64) -> (result: Result<
    Rc<Value>,
    LispError,
>)
    requires
        old(env).wf(),
        scope < old(env)@.scopes.len(),
    ensures
        final(env).wf(),
        old(env)@.scopes.len() <= final(env)@.scopes.len(),
        match evaluated_in_turn(term_of(*exp), Datum::Nil, old(env)@, scope as nat, fuel as nat) {
            (Ok(d), w) => final(env)@ == w && (result matches Ok(v) && datum_of(*v) == d),
            (Err(e), _) => result matches Err(f) && e == f,
        },
    decreases fuel, 0nat, term_of(*exp), 1nat,
{
    sequence_from(exp, Rc::new(Value::Nil), env, scope, fuel)
}

/// Evaluates the elements of a list in turn and hands back the value of the
/// last one, or `last` where the list has none.
fn sequence_from(
    exp: &Sexp,
    last: Rc<Value>,
    env: &mut Environment,
    scope: usize,
    fuel: u64,
) -> (result: Result<Rc<Value>, LispError>)
    requires
        old(env).wf(),
        scope < old(env)@.scopes.len(),
    ensures
        final(env).wf(),
        old(env)@.scopes.len() <= final(env)@.scopes.len(),
        match evaluated_in_turn(
            term_of(*exp),
            datum_of(*last),
            old(env)@,
            scope as nat,
            fuel as nat,
        ) {
            (Ok(d), w) => final(env)@ == w && (result matches Ok(v) && datum_of(*v) == d),
            (Err(e), _) => result matches Err(f) && e == f,
        },
    decreases fuel, 0nat, term_of(*exp), 0nat,
{
    match exp {
        Sexp::Pair(car, cdr) => {
            let value = match eval(car, env, scope, fuel) {
                Ok(v) => v,
                Err(e) => {
                    return Err(e);
                },
            };
            sequence_from(cdr, value, env, scope, fuel)
        },
        _ => Ok(last),
    }
}

/// Evaluates the elements of a list in turn and hands back their values, in order.
pub fn list_of_values(exps: &Sexp, env: &mut Environment, scope: usize, fuel: u64) -> (result:
    Result<Vec<Rc<Value>>, LispError>)
    requires
        old(env).wf(),
        scope < old(env)@.scopes.len(),
    ensures
        final(env).wf(),
        old(env)@.scopes.len() <= final(env)@.scopes.len(),
        match evaluated_each(
            term_of(*exps),
            Seq::empty(),
            old(env)@,
            scope as nat,
            fuel as nat,
        ) {
            (Ok(ds), w) => final(env)@ == w && (result matches Ok(vs) && data_of(vs@) == ds),
            (Err(e), _) => result matches Err(f) && e == f,
        },
    decreases fuel, 0nat, term_of(*exps), 1nat,
{
    proof {
        assert(data_of(Seq::<Rc<Value>>::empty()) =~= Seq::<Datum>::empty());
    }
    values_from(exps, Vec::new(), env, scope, fuel)
}

/// Evaluates the elements of a list in turn and hands back their values, in
/// order, behind those in `values`.
fn values_from(
    exps: &Sexp,
    values: Vec<Rc<Value>>,
    env: &mut Environment,
    scope: usize,
    fuel: u64,
) -> (result: Result<Vec<Rc<Value>>, LispError>)
    requires
        old(env).wf(),
        scope < old(env)@.scopes.len(),
    ensures
        final(env).wf(),
        old(env)@.scopes.len() <= final(env)@.scopes.len(),
        match evaluated_each(
            term_of(*exps),
            data_of(values@),
            old(env)@,
            scope as nat,
            fuel as nat,
        ) {
            (Ok(ds), w) => final(env)@ == w && (result matches Ok(vs) && data_of(vs@) == ds),
            (Err(e), _) => result matches Err(f) && e == f,
        },
    decreases fuel, 0nat, term_of(*exps), 0nat,
{
    match exps {
        Sexp::Pair(car, cdr) => {
            let value = match eval(car, env, scope, fuel) {
                Ok(v) => v,
                Err(e) => {
                    return Err(e);
                },
            };
            let mut values = values;
            proof {
                assert(data_of(values@.push(value)) =~= data_of(values@).push(datum_of(*value)));
            }
            values.push(value);
            values_from(cdr, values, env, scope, fuel)
        },
        _ => Ok(values),
    }
}

/// The datum that the value behind `v` stands for.
pub open spec fn datum_at(v: Rc<Value>) -> Datum {
    datum_of(*v)
}

/// Applies a procedure to its arguments. A `lambda` binds its parameters to
/// the arguments in a new scope, which lies in the scope it was made in, and
/// evaluates its body there.
pub fn apply(
    procedure: Rc<Value>,
    arguments: &[Rc<Value>],
    env: &mut Environment,
    fuel: u64,
) -> (result: Result<Rc<Value>, LispError>)
    requires
        old(env).wf(),
    ensures
        final(env).wf(),
        old(env)@.scopes.len() <= final(env)@.scopes.len(),
        match applied(datum_of(*procedure), data_of(arguments@), old(env)@, fuel as nat) {
            (Ok(d), w) => final(env)@ == w && (result matches Ok(v) && datum_of(*v) == d),
            (Err(e), _) => result matches Err(f) && e == f,
        },
    decreases fuel, 1nat, Term::Nil, 1nat,
{
    match &*procedure {
        Value::PrimitiveProcedure(p) => apply_primitive(*p, arguments, env),
        Value::CompoundProcedure { parameters, body, environment } => {
            if *environment >= env.scopes() {
                return Err(LispError::InvalidProcedure);
            }
            let scope = match env.extend(parameters.as_slice(), arguments, *environment) {
                Ok(id) => id,
                Err(e) => {
                    return Err(e);
                },
            };
            let ghost goal = applied(
                datum_at(procedure),
                data_of(arguments@),
                old(env)@,
                fuel as nat,
            );
            let ghost terms = terms_of(body@);
            let n = body.len();
            let mut result = Rc::new(Value::Nil);
            let mut k: usize = 0;
            while k < n
                invariant
                    k <= n,
                    n == body@.len(),
                    terms == terms_of(body@),
                    goal == applied(
                        datum_at(procedure),
                        data_of(arguments@),
                        old(env)@,
                        fuel as nat,
                    ),
                    env.wf(),
                    scope < env@.scopes.len(),
                    old(env)@.scopes.len() <= env@.scopes.len(),
                    evaluated_body(
                        terms,
                        k as nat,
                        datum_of(*result),
                        env@,
                        scope as nat,
                        fuel as nat,
                    ) == goal,
                decreases n - k,
            {
                assert(terms[k as int] == term_of(body@[k as int]));
                match eval(&body[k], env, scope, fuel) {
                    Ok(v) => {
                        result = v;
                    },
                    Err(e) => {
                        return Err(e);
                    },
                }
                k += 1;
            }
            Ok(result)
        },
        _ => Err(LispError::InvalidProcedure),
    }
}

} // verus!
