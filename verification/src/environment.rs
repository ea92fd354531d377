use crate::value::{data_of, datum_of, names_of, share, Datum, Primitive, Value};
use std::rc::Rc;
use vstd::prelude::*;
use vstd::string::StringExecFns;

verus! {

/// Why an evaluation stopped without a value.
#[derive(Debug, Clone, Copy, PartialEq, Eq, Structural)]
pub enum LispError {
    /// A variable is bound in none of the scopes that were searched.
    UnboundVariable,
    /// A procedure was handed more arguments than it has parameters.
    TooManyArguments,
    /// A procedure was handed fewer arguments than it has parameters.
    TooFewArguments,
    /// A primitive procedure was handed arguments it is not made for.
    InvalidArguments,
    /// What stands in the place of a procedure is none.
    InvalidProcedure,
    /// The result of an arithmetic operation does not fit in 64 bits.
    Overflow,
    /// A division by zero.
    DivisionByZero,
    /// The evaluation went deeper than the fuel allows.
    OutOfFuel,
}

/// One scope, as a mathematical value: its variables in the order in which
/// they were defined, each with its datum, and the scope around it.
pub struct Scope {
    pub names: Seq<Seq<char>>,
    pub data: Seq<Datum>,
    pub base: Option<nat>,
}

/// The first index from `from` on at which `name` stands, or the number of names.
pub open spec fn position(names: Seq<Seq<char>>, name: Seq<char>, from: int) -> int
    decreases names.len() - from,
{
    if 0 <= from < names.len() && names[from] != name {
        position(names, name, from + 1)
    } else {
        from
    }
}

impl Scope {
    /// Whether `name` is a variable of this scope.
    pub open spec fn holds(self, name: Seq<char>) -> bool {
        0 <= position(self.names, name, 0) < self.names.len()
    }

    /// The datum of the variable `name` of this scope.
    pub open spec fn datum(self, name: Seq<char>) -> Datum {
        self.data[position(self.names, name, 0)]
    }

    /// This scope with `name` bound to `d`: an existing variable gets the new
    /// datum, a new one is added behind the others.
    pub open spec fn with(self, name: Seq<char>, d: Datum) -> Scope {
        if self.holds(name) {
            Scope { data: self.data.update(position(self.names, name, 0), d), ..self }
        } else {
            Scope { names: self.names.push(name), data: self.data.push(d), ..self }
        }
    }

    /// This scope with the first `n` of `names` bound to the first `n` of `data`, in order.
    pub open spec fn with_all(self, names: Seq<Seq<char>>, data: Seq<Datum>, n: nat) -> Scope
        decreases n,
    {
        if n == 0 || n > names.len() || n > data.len() {
            self
        } else {
            self.with_all(names, data, (n - 1) as nat).with(names[n - 1], data[n - 1])
        }
    }
}

/// All scopes that an evaluation has made, and the lines it has displayed.
pub struct World {
    pub scopes: Seq<Scope>,
    pub printed: Seq<Seq<char>>,
}

impl World {
    /// Every scope has as many data as names, and lies behind the scope around it.
    pub open spec fn well_formed(self) -> bool {
        forall|i: int|
            0 <= i < self.scopes.len() ==> {
                &&& (#[trigger] self.scopes[i]).names.len() == self.scopes[i].data.len()
                &&& self.scopes[i].base matches Some(b) ==> b < i
            }
    }

    /// The datum of `name` as seen from `scope`: that of the innermost scope,
    /// from `scope` outwards, in which `name` is a variable.
    pub open spec fn found(self, scope: nat, name: Seq<char>) -> Option<Datum>
        decreases scope,
    {
        if scope >= self.scopes.len() {
            None
        } else if self.scopes[scope as int].holds(name) {
            Some(self.scopes[scope as int].datum(name))
        } else {
            match self.scopes[scope as int].base {
                Some(b) => if b < scope {
                    self.found(b, name)
                } else {
                    None
                },
                None => None,
            }
        }
    }

    /// This world with `name` bound to `d` in `scope`.
    pub open spec fn defined(self, scope: nat, name: Seq<char>, d: Datum) -> World {
        World {
            scopes: self.scopes.update(scope as int, self.scopes[scope as int].with(name, d)),
            ..self
        }
    }

    /// This world after `name`, as seen from `scope`, was given the datum `d`;
    /// `None` where `name` is a variable of none of the scopes.
    pub open spec fn assigned(self, scope: nat, name: Seq<char>, d: Datum) -> Option<World>
        decreases scope,
    {
        if scope >= self.scopes.len() {
            None
        } else if self.scopes[scope as int].holds(name) {
            Some(self.defined(scope, name, d))
        } else {
            match self.scopes[scope as int].base {
                Some(b) => if b < scope {
                    self.assigned(b, name, d)
                } else {
                    None
                },
                None => None,
            }
        }
    }

    /// This world with one scope more, which lies in `base` and binds `names`
    /// to `data`, in order.
    pub open spec fn extended(self, names: Seq<Seq<char>>, data: Seq<Datum>, base: nat) -> World {
        let fresh = Scope { names: Seq::empty(), data: Seq::empty(), base: Some(base) };
        World { scopes: self.scopes.push(fresh.with_all(names, data, names.len())), ..self }
    }

    /// This world with one line more displayed.
    pub open spec fn displayed(self, line: Seq<char>) -> World {
        World { printed: self.printed.push(line), ..self }
    }
}

/// The world in which an evaluation starts: one scope, with no variable and
/// nothing around it, and nothing displayed.
pub open spec fn empty_world() -> World {
    World {
        scopes: seq![Scope { names: Seq::empty(), data: Seq::empty(), base: None }],
        printed: Seq::empty(),
    }
}

/// The world with the primitive procedures in the global scope, each under its name.
pub open spec fn global_world() -> World {
    empty_world().defined(0, "+"@, Datum::Primitive(Primitive::Add)).defined(
        0,
        "-"@,
        Datum::Primitive(Primitive::Sub),
    ).defined(0, "*"@, Datum::Primitive(Primitive::Mul)).defined(
        0,
        "/"@,
        Datum::Primitive(Primitive::Div),
    ).defined(0, "cons"@, Datum::Primitive(Primitive::Cons)).defined(
        0,
        "car"@,
        Datum::Primitive(Primitive::Car),
    ).defined(0, "cdr"@, Datum::Primitive(Primitive::Cdr)).defined(
        0,
        "display"@,
        Datum::Primitive(Primitive::Display),
    ).defined(0, "<"@, Datum::Primitive(Primitive::Less)).defined(
        0,
        ">"@,
        Datum::Primitive(Primitive::Greater),
    ).defined(0, "="@, Datum::Primitive(Primitive::Equal)).defined(
        0,
        "<="@,
        Datum::Primitive(Primitive::LessEqual),
    ).defined(0, ">="@, Datum::Primitive(Primitive::GreaterEqual)).defined(
        0,
        "null?"@,
        Datum::Primitive(Primitive::IsNull),
    )
}

struct Frame {
    names: Vec<String>,
    values: Vec<Rc<Value>>,
    base: Option<usize>,
}

impl Frame {
    spec fn scope(self) -> Scope {
        Scope {
            names: names_of(self.names@),
            data: data_of(self.values@),
            base: match self.base {
                Some(b) => Some(b as nat),
                None => None,
            },
        }
    }

    /// The index of the variable `name` of this frame, if it is one.
    fn find(&self, name: &String) -> (place: Option<usize>)
        requires
            self.names@.len() == self.values@.len(),
        ensures
            match place {
                Some(i) => self.scope().holds(name@) && i == position(self.scope().names, name@, 0)
                    && i < self.values@.len(),
                None => !self.scope().holds(name@),
            },
    {
        let n = self.names.len();
        let mut i: usize = 0;
        while i < n && !(self.names[i] == *name)
            invariant
                i <= n,
                n == self.names@.len(),
                position(self.scope().names, name@, 0) == position(
                    self.scope().names,
                    name@,
                    i as int,
                ),
            decreases n - i,
        {
            i += 1;
        }
        if i < n {
            Some(i)
        } else {
            None
        }
    }

    /// Binds `name` to `value` in this frame.
    fn bind(&mut self, name: String, value: Rc<Value>)
        requires
            old(self).names@.len() == old(self).values@.len(),
        ensures
            final(self).names@.len() == final(self).values@.len(),
            final(self).scope() == old(self).scope().with(name@, datum_of(*value)),
    {
        match self.find(&name) {
            Some(i) => {
                self.values.set(i, value);
                proof {
                    assert(self.scope().data =~= old(self).scope().data.update(
                        i as int,
                        datum_of(*value),
                    ));
                }
            },
            None => {
                self.names.push(name);
                self.values.push(value);
                proof {
                    assert(self.scope().names =~= old(self).scope().names.push(name@));
                    assert(self.scope().data =~= old(self).scope().data.push(datum_of(*value)));
                }
            },
        }
    }
}

/// The scopes of an evaluation, each named by its index, and the lines that
/// were displayed. Scope 0 is the global one.
pub struct Environment {
    frames: Vec<Frame>,
    printed: Vec<String>,
}

impl View for Environment {
    type V = World;

    closed spec fn view(&self) -> World {
        World {
            scopes: Seq::new(self.frames@.len(), |i: int| self.frames@[i].scope()),
            printed: names_of(self.printed@),
        }
    }
}

impl Environment {
    /// The invariant of the environment: see [`World::well_formed`].
    pub open spec fn wf(&self) -> bool {
        self@.well_formed()
    }

    /// The environment with the global scope alone, and no variable in it.
    pub fn empty() -> (environment: Self)
        ensures
            environment.wf(),
            environment@ == empty_world(),
    {
        let mut frames: Vec<Frame> = Vec::new();
        frames.push(Frame { names: Vec::new(), values: Vec::new(), base: None });
        let environment = Environment { frames, printed: Vec::new() };
        proof {
            assert(environment@.scopes[0].names =~= Seq::<Seq<char>>::empty());
            assert(environment@.scopes[0].data =~= Seq::<Datum>::empty());
            assert(environment@.scopes =~= empty_world().scopes);
            assert(environment@.printed =~= empty_world().printed);
        }
        environment
    }

    /// The environment in which programs start: the global scope alone, with
    /// the primitive procedures in it.
    pub fn new() -> (environment: Self)
        ensures
            environment.wf(),
            environment@ == global_world(),
    {
        let mut env = Self::empty();
        env.define_primitive_procedure("+", Primitive::Add);
        env.define_primitive_procedure("-", Primitive::Sub);
        env.define_primitive_procedure("*", Primitive::Mul);
        env.define_primitive_procedure("/", Primitive::Div);
        env.define_primitive_procedure("cons", Primitive::Cons);
        env.define_primitive_procedure("car", Primitive::Car);
        env.define_primitive_procedure("cdr", Primitive::Cdr);
        env.define_primitive_procedure("display", Primitive::Display);
        env.define_primitive_procedure("<", Primitive::Less);
        env.define_primitive_procedure(">", Primitive::Greater);
        env.define_primitive_procedure("=", Primitive::Equal);
        env.define_primitive_procedure("<=", Primitive::LessEqual);
        env.define_primitive_procedure(">=", Primitive::GreaterEqual);
        env.define_primitive_procedure("null?", Primitive::IsNull);
        env
    }

    /// Binds `var` in the global scope to the primitive procedure `p`.
    pub fn define_primitive_procedure(&mut self, var: &str, p: Primitive)
        requires
            old(self).wf(),
            old(self)@.scopes.len() > 0,
        ensures
            final(self).wf(),
            final(self)@ == old(self)@.defined(0, var@, Datum::Primitive(p)),
            final(self)@.scopes.len() == old(self)@.scopes.len(),
    {
        let _ = self.define(0, var, Rc::new(Value::PrimitiveProcedure(p)));
    }

    /// The number of scopes.
    pub fn scopes(&self) -> (n: usize)
        ensures
            n == self@.scopes.len(),
    {
        self.frames.len()
    }

    /// The lines that were displayed so far.
    pub fn printed(&self) -> (lines: &Vec<String>)
        ensures
            names_of(lines@) == self@.printed,
    {
        &self.printed
    }

    /// Notes that `line` was displayed.
    pub fn display(&mut self, line: String)
        requires
            old(self).wf(),
        ensures
            final(self).wf(),
            final(self)@ == old(self)@.displayed(line@),
            final(self)@.scopes == old(self)@.scopes,
    {
        self.printed.push(line);
        proof {
            assert(self@.printed =~= old(self)@.printed.push(line@));
            assert(self@.scopes =~= old(self)@.scopes);
        }
    }

    /// Binds `var` to `value` in `scope`, and evaluates to `ok`.
    pub fn define(&mut self, scope: usize, var: &str, value: Rc<Value>) -> (ok: Rc<Value>)
        requires
            old(self).wf(),
            scope < old(self)@.scopes.len(),
        ensures
            final(self).wf(),
            final(self)@ == old(self)@.defined(scope as nat, var@, datum_of(*value)),
            final(self)@.scopes.len() == old(self)@.scopes.len(),
            datum_of(*ok) == Datum::Symbol("ok"@),
    {
        let name = String::from_str(var);
        let ghost before = self.frames@;
        assert(old(self)@.scopes[scope as int] == before[scope as int].scope());
        let frame = &mut self.frames[scope];
        frame.bind(name, value);
        proof {
            assert(self@.scopes =~= old(self)@.defined(
                scope as nat,
                var@,
                datum_of(*value),
            ).scopes);
            assert forall|i: int| 0 <= i < self@.scopes.len() implies {
                &&& (#[trigger] self@.scopes[i]).names.len() == self@.scopes[i].data.len()
                &&& self@.scopes[i].base matches Some(b) ==> b < i
            } by {
                assert(old(self)@.scopes[i].names.len() == old(self)@.scopes[i].data.len());
            }
        }
        Value::ok()
    }

    /// The value of `var` as seen from `scope`.
    pub fn lookup(&self, scope: usize, var: &str) -> (result: Result<Rc<Value>, LispError>)
        requires
            self.wf(),
        ensures
            match self@.found(scope as nat, var@) {
                Some(d) => result matches Ok(v) && datum_of(*v) == d,
                None => result == Err::<Rc<Value>, LispError>(LispError::UnboundVariable),
            },
    {
        let name = String::from_str(var);
        let mut at = scope;
        loop
            invariant
                self.wf(),
                name@ == var@,
                self@.found(at as nat, var@) == self@.found(scope as nat, var@),
            decreases at,
        {
            if at >= self.frames.len() {
                return Err(LispError::UnboundVariable);
            }
            let frame = &self.frames[at];
            assert(self@.scopes[at as int] == frame.scope());
            match frame.find(&name) {
                Some(i) => {
                    return Ok(share(&frame.values[i]));
                },
                None => {},
            }
            match frame.base {
                Some(b) => {
                    if b < at {
                        at = b;
                    } else {
                        return Err(LispError::UnboundVariable);
                    }
                },
                None => {
                    return Err(LispError::UnboundVariable);
                },
            }
        }
    }

    /// Gives `var`, as seen from `scope`, the value `value`, and evaluates to `ok`.
    pub fn set(&mut self, scope: usize, var: &str, value: Rc<Value>) -> (result: Result<
        Rc<Value>,
        LispError,
    >)
        requires
            old(self).wf(),
        ensures
            final(self).wf(),
            final(self)@.scopes.len() == old(self)@.scopes.len(),
            match old(self)@.assigned(scope as nat, var@, datum_of(*value)) {
                Some(w) => final(self)@ == w && (result matches Ok(ok) && datum_of(*ok)
                    == Datum::Symbol("ok"@)),
                None => final(self)@ == old(self)@ && result == Err::<Rc<Value>, LispError>(
                    LispError::UnboundVariable,
                ),
            },
    {
        let name = String::from_str(var);
        let mut at = scope;
        loop
            invariant
                self.wf(),
                self@ == old(self)@,
                name@ == var@,
                self@.assigned(at as nat, var@, datum_of(*value)) == self@.assigned(
                    scope as nat,
                    var@,
                    datum_of(*value),
                ),
            decreases at,
        {
            if at >= self.frames.len() {
                return Err(LispError::UnboundVariable);
            }
            let frame = &self.frames[at];
            assert(self@.scopes[at as int] == frame.scope());
            let held = frame.find(&name);
            let base = frame.base;
            match held {
                Some(_) => {
                    return Ok(self.define(at, var, value));
                },
                None => {},
            }
            match base {
                Some(b) => {
                    if b < at {
                        at = b;
                    } else {
                        return Err(LispError::UnboundVariable);
                    }
                },
                None => {
                    return Err(LispError::UnboundVariable);
                },
            }
        }
    }

    /// Makes a scope in `base` that binds `vars` to `vals`, in order, and hands
    /// back its index. There must be as many values as variables.
    pub fn extend(&mut self, vars: &[String], vals: &[Rc<Value>], base: usize) -> (result: Result<
        usize,
        LispError,
    >)
        requires
            old(self).wf(),
            base < old(self)@.scopes.len(),
        ensures
            final(self).wf(),
            old(self)@.scopes.len() <= final(self)@.scopes.len(),
            vars@.len() < vals@.len() ==> result == Err::<usize, LispError>(
                LispError::TooManyArguments,
            ) && final(self)@ == old(self)@,
            vars@.len() > vals@.len() ==> result == Err::<usize, LispError>(
                LispError::TooFewArguments,
            ) && final(self)@ == old(self)@,
            vars@.len() == vals@.len() ==> result == Ok::<usize, LispError>(
                old(self)@.scopes.len() as usize,
            ) && final(self)@ == old(self)@.extended(
                names_of(vars@),
                data_of(vals@),
                base as nat,
            ),
    {
        if vars.len() < vals.len() {
            return Err(LispError::TooManyArguments);
        }
        if vars.len() > vals.len() {
            return Err(LispError::TooFewArguments);
        }
        let n = vars.len();
        let ghost names = names_of(vars@);
        let ghost data = data_of(vals@);
        let ghost fresh = Scope {
            names: Seq::empty(),
            data: Seq::empty(),
            base: Some(base as nat),
        };
        let mut frame = Frame { names: Vec::new(), values: Vec::new(), base: Some(base) };
        proof {
            assert(frame.scope().names =~= fresh.names);
            assert(frame.scope().data =~= fresh.data);
        }
        let mut i: usize = 0;
        while i < n
            invariant
                i <= n,
                n == vars@.len(),
                n == vals@.len(),
                names == names_of(vars@),
                data == data_of(vals@),
                frame.names@.len() == frame.values@.len(),
                frame.base == Some(base),
                frame.scope() == fresh.with_all(names, data, i as nat),
            decreases n - i,
        {
            frame.bind(vars[i].clone(), share(&vals[i]));
            i += 1;
        }
        let id = self.frames.len();
        self.frames.push(frame);
        proof {
            assert(self@.scopes =~= old(self)@.extended(names, data, base as nat).scopes);
            assert forall|k: int| 0 <= k < self@.scopes.len() implies {
                &&& (#[trigger] self@.scopes[k]).names.len() == self@.scopes[k].data.len()
                &&& self@.scopes[k].base matches Some(b) ==> b < k
            } by {
                if k < old(self)@.scopes.len() {
                    assert(self@.scopes[k] == old(self)@.scopes[k]);
                }
            }
        }
        Ok(id)
    }
}

} // verus!
