use crate::sexp::{terms_of, Sexp, Term};
use std::rc::Rc;
use vstd::prelude::*;
use vstd::string::StringExecFns;

verus! {

/// The procedures that the interpreter brings along.
#[derive(Debug, Clone, Copy, PartialEq, Eq, Structural)]
pub enum Primitive {
    Add,
    Sub,
    Mul,
    Div,
    Cons,
    Car,
    Cdr,
    Display,
    Less,
    Greater,
    Equal,
    LessEqual,
    GreaterEqual,
    IsNull,
}

/// What an expression evaluates to.
pub enum Value {
    Nil,
    Symbol(String),
    Integer(i64),
    Pair(Rc<Value>, Rc<Value>),
    PrimitiveProcedure(Primitive),
    /// A `lambda`: its body, its parameters, and the scope it was made in.
    CompoundProcedure { body: Vec<Sexp>, parameters: Vec<String>, environment: usize },
}

/// The mathematical value of a [`Value`].
pub enum Datum {
    Nil,
    Symbol(Seq<char>),
    Integer(i64),
    Pair(Box<Datum>, Box<Datum>),
    Primitive(Primitive),
    Procedure { body: Seq<Term>, parameters: Seq<Seq<char>>, environment: nat },
}

/// The texts of a sequence of strings.
pub open spec fn names_of(words: Seq<String>) -> Seq<Seq<char>> {
    Seq::new(words.len(), |i: int| words[i]@)
}

/// The datum that `v` stands for.
pub open spec fn datum_of(v: Value) -> Datum
    decreases v,
{
    match v {
        Value::Nil => Datum::Nil,
        Value::Symbol(s) => Datum::Symbol(s@),
        Value::Integer(n) => Datum::Integer(n),
        Value::Pair(car, cdr) => Datum::Pair(Box::new(datum_of(*car)), Box::new(datum_of(*cdr))),
        Value::PrimitiveProcedure(p) => Datum::Primitive(p),
        Value::CompoundProcedure { body, parameters, environment } => Datum::Procedure {
            body: terms_of(body@),
            parameters: names_of(parameters@),
            environment: environment as nat,
        },
    }
}

/// The data that a sequence of values stands for.
pub open spec fn data_of(vs: Seq<Rc<Value>>) -> Seq<Datum> {
    Seq::new(vs.len(), |i: int| datum_of(*vs[i]))
}

impl View for Value {
    type V = Datum;

    open spec fn view(&self) -> Datum {
        datum_of(*self)
    }
}

/// Another handle on the value that `v` points to. This is `Rc::clone`, which
/// makes a new pointer to the same allocation: what it points to is what `v`
/// points to.
#[verifier::external_body]
pub(crate) fn share(v: &Rc<Value>) -> (same: Rc<Value>)
    ensures
        same == *v,
{
    Rc::clone(v)
}

/// The character of a decimal digit.
pub open spec fn digit(d: int) -> char {
    if d == 0 {
        '0'
    } else if d == 1 {
        '1'
    } else if d == 2 {
        '2'
    } else if d == 3 {
        '3'
    } else if d == 4 {
        '4'
    } else if d == 5 {
        '5'
    } else if d == 6 {
        '6'
    } else if d == 7 {
        '7'
    } else if d == 8 {
        '8'
    } else {
        '9'
    }
}

/// The decimal digits of a natural number, without leading zeros.
pub open spec fn digits(n: nat) -> Seq<char>
    decreases n,
{
    if n < 10 {
        seq![digit(n as int)]
    } else {
        digits(n / 10).push(digit((n % 10) as int))
    }
}

/// The decimal numeral of an integer, with `-` before a negative one.
pub open spec fn decimal(n: int) -> Seq<char> {
    if n < 0 {
        seq!['-'] + digits((-n) as nat)
    } else {
        digits(n as nat)
    }
}

/// The digits `ds`, the last one first, as characters.
pub open spec fn backwards(ds: Seq<u8>) -> Seq<char> {
    Seq::new(ds.len(), |j: int| digit(ds[ds.len() - 1 - j] as int))
}

fn digit_text(d: u8) -> (text: &'static str)
    requires
        d < 10,
    ensures
        text@ == seq![digit(d as int)],
{
    proof {
        reveal_strlit("0");
        reveal_strlit("1");
        reveal_strlit("2");
        reveal_strlit("3");
        reveal_strlit("4");
        reveal_strlit("5");
        reveal_strlit("6");
        reveal_strlit("7");
        reveal_strlit("8");
        reveal_strlit("9");
    }
    let text = if d == 0 {
        "0"
    } else if d == 1 {
        "1"
    } else if d == 2 {
        "2"
    } else if d == 3 {
        "3"
    } else if d == 4 {
        "4"
    } else if d == 5 {
        "5"
    } else if d == 6 {
        "6"
    } else if d == 7 {
        "7"
    } else if d == 8 {
        "8"
    } else {
        "9"
    };
    proof {
        assert(text@ =~= seq![digit(d as int)]);
    }
    text
}

/// The decimal numeral of `n`.
pub fn decimal_text(n: i64) -> (text: String)
    ensures
        text@ == decimal(n as int),
{
    let magnitude: u64 = if n < 0 {
        ((-(n + 1)) as u64) + 1
    } else {
        n as u64
    };
    let mut ds: Vec<u8> = Vec::new();
    ds.push((magnitude % 10) as u8);
    let mut rest: u64 = magnitude / 10;
    proof {
        assert(digits(magnitude as nat) =~= (if rest > 0 {
            digits(rest as nat)
        } else {
            Seq::empty()
        }) + backwards(ds@));
    }
    while rest > 0
        invariant
            ds@.len() > 0,
            forall|i: int| 0 <= i < ds@.len() ==> ds@[i] < 10,
            digits(magnitude as nat) == (if rest > 0 {
                digits(rest as nat)
            } else {
                Seq::empty()
            }) + backwards(ds@),
        decreases rest,
    {
        let d = (rest % 10) as u8;
        let ghost high = if rest / 10 > 0 {
            digits((rest / 10) as nat)
        } else {
            Seq::empty()
        };
        proof {
            assert(digits(rest as nat) =~= high.push(digit(d as int)));
            assert(high.push(digit(d as int)) + backwards(ds@) =~= high + backwards(ds@.push(d)));
        }
        ds.push(d);
        rest = rest / 10;
    }
    let mut text = String::new();
    if n < 0 {
        proof {
            reveal_strlit("-");
        }
        text.append("-");
    }
    let ghost sign = text@;
    let count = ds.len();
    let mut k: usize = 0;
    proof {
        assert(sign + backwards(ds@).take(0) =~= sign);
        assert(n < 0 ==> sign =~= seq!['-']);
    }
    while k < count
        invariant
            k <= count,
            count == ds@.len(),
            forall|i: int| 0 <= i < ds@.len() ==> ds@[i] < 10,
            text@ == sign + backwards(ds@).take(k as int),
        decreases count - k,
    {
        let d = ds[count - 1 - k];
        let ghost had = text@;
        text.append(digit_text(d));
        proof {
            assert(backwards(ds@).take(k + 1) =~= backwards(ds@).take(k as int).push(
                digit(d as int),
            ));
            assert(had + seq![digit(d as int)] =~= sign + backwards(ds@).take(k + 1));
        }
        k += 1;
    }
    proof {
        assert(backwards(ds@).take(count as int) =~= backwards(ds@));
    }
    text
}

/// How a datum is written: `nil`, the symbol, the numeral, a pair in dotted
/// form, and a fixed text for a procedure.
pub open spec fn written(d: Datum) -> Seq<char>
    decreases d,
{
    match d {
        Datum::Nil => "nil"@,
        Datum::Symbol(s) => s,
        Datum::Integer(n) => decimal(n as int),
        Datum::Pair(car, cdr) => "("@ + written(*car) + " . "@ + written(*cdr) + ")"@,
        Datum::Primitive(_) => "#<primitive procedure>"@,
        Datum::Procedure { .. } => "#<procedure>"@,
    }
}

impl Value {
    /// The symbol `ok`, which a definition or an assignment evaluates to.
    pub fn ok() -> (v: Rc<Self>)
        ensures
            datum_of(*v) == Datum::Symbol("ok"@),
    {
        Rc::new(Value::Symbol(String::from_str("ok")))
    }

    /// The symbol `true`.
    pub fn t() -> (v: Rc<Self>)
        ensures
            datum_of(*v) == Datum::Symbol("true"@),
    {
        Rc::new(Value::Symbol(String::from_str("true")))
    }

    /// The symbol `false`, the one value that counts as false.
    pub fn f() -> (v: Rc<Self>)
        ensures
            datum_of(*v) == Datum::Symbol("false"@),
    {
        Rc::new(Value::Symbol(String::from_str("false")))
    }

    /// This value, written out: see [`written`].
    pub fn render(&self) -> (text: String)
        ensures
            text@ == written(datum_of(*self)),
        decreases self,
    {
        match self {
            Value::Nil => String::from_str("nil"),
            Value::Symbol(s) => s.clone(),
            Value::Integer(n) => decimal_text(*n),
            Value::Pair(car, cdr) => {
                let mut text = String::from_str("(");
                let left = car.render();
                text.append(left.as_str());
                text.append(" . ");
                let right = cdr.render();
                text.append(right.as_str());
                text.append(")");
                text
            },
            Value::PrimitiveProcedure(_) => String::from_str("#<primitive procedure>"),
            Value::CompoundProcedure { .. } => String::from_str("#<procedure>"),
        }
    }
}

} // verus!
