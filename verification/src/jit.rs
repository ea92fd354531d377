use crate::codegen::{function_code, lower, prologue, Inst};
use crate::frontend::{nodes_of, Node};
use crate::lowering::{models, segment, sixty_four_bit, theorem_function_runs};
use crate::machine::{lemma_bounded_run_is_ideal, lemma_more_fuel, run, Outcome, State};
use crate::native::{after, Frame};
use crate::optimizer::{coalesced, expanded, optimized, pending, settled, Optimizer};
use crate::parser::{all_plain, balanced, commands, offends, program, written, ParseError};
use crate::soundness::lemma_optimized_forward;
use vstd::prelude::*;
use vstd::string::StringSliceAdditionalSpecFns;

verus! {

/// Compiles a source text: it is parsed, the program is optimized, and the
/// optimized program is lowered into the instructions of one function. A text
/// whose brackets do not match is refused.
pub fn compile(input: &str) -> (result: Result<Vec<Inst>, ParseError>)
    ensures
        result is Ok <==> balanced(input.spec_bytes()),
        result matches Ok(code) ==> exists|prog: Seq<Node>|
            {
                &&& all_plain(prog)
                &&& written(prog, prog.len()) == commands(input.spec_bytes())
                &&& code@ == #[trigger] function_code(optimized(prog))
            },
        result matches Ok(code) ==> crate::emission::ready(code@, 0),
        result matches Err(e) ==> offends(input.spec_bytes(), e.position as int),
{
    match program(input) {
        Ok(parsed) => {
            let ghost prog = nodes_of(parsed@);
            let mut optimizer = Optimizer::new();
            let best = optimizer.optimize(parsed);
            let code = lower(best.as_slice());
            proof {
                assert(code@ == function_code(optimized(prog)));
            }
            Ok(code)
        },
        Err(e) => Err(e),
    }
}

/// The compiled function agrees with the evaluator. Where the program, run
/// from the initial state on the tape of the data segment, comes to its end,
/// and the optimized program does not leave that tape, the function lowered
/// from the optimized program comes to its return with the same cells, the same
/// input left and the same output written.
pub proof fn theorem_compiled_agrees(prog: Seq<Node>, f: Frame, fuel: nat, enough: nat) -> (end: (
    nat,
    Frame,
))
    requires
        sixty_four_bit(),
        function_code(optimized(prog)).len() <= usize::MAX,
        forall|k: int| 0 <= k < crate::codegen::DATA_SIZE ==> #[trigger] (f.memory)(4 * k) == 0,
        f.output == Seq::<i32>::empty(),
        run(prog, State::initial(f.input), fuel, segment()) is Done,
        run(optimized(prog), State::initial(f.input), enough, segment()) is Done,
    ensures
        after(function_code(optimized(prog)), 0, f, end.0) == (
            function_code(optimized(prog)).len() - 1,
            end.1,
        ),
        function_code(optimized(prog)).last() == Inst::Return,
        models(end.1, run(prog, State::initial(f.input), fuel, segment())->Done_0),
{
    let start = State::initial(f.input);
    let best = optimized(prog);
    lemma_bounded_run_is_ideal(prog, start, fuel, segment());
    lemma_optimized_forward(prog, start, fuel);
    lemma_bounded_run_is_ideal(best, start, enough, segment());
    if fuel <= enough {
        lemma_more_fuel(best, start, fuel, enough, None);
    } else {
        lemma_more_fuel(best, start, enough, fuel, None);
    }
    theorem_function_runs(best, f, enough)
}

/// The empty text is a program, the empty program; optimized it stays empty;
/// run, it leaves every state as it is; and its function sets the pointer and
/// returns, with the memory and both streams untouched.
pub proof fn lemma_empty_program(s: State, fuel: nat, size: Option<nat>, f: Frame)
    ensures
        balanced(Seq::<u8>::empty()),
        optimized(Seq::<Node>::empty()) == Seq::<Node>::empty(),
        run(Seq::<Node>::empty(), s, fuel, size) == Outcome::Done(s),
        function_code(Seq::<Node>::empty()) == prologue().push(Inst::Return),
        after(function_code(Seq::<Node>::empty()), 0, f, 2).0 == 2,
        after(function_code(Seq::<Node>::empty()), 0, f, 2).1.memory == f.memory,
        after(function_code(Seq::<Node>::empty()), 0, f, 2).1.input == f.input,
        after(function_code(Seq::<Node>::empty()), 0, f, 2).1.output == f.output,
{
    let none = Seq::<Node>::empty();
    let text = Seq::<u8>::empty();
    assert forall|j: int| 0 <= j <= text.len() implies crate::parser::depth(
        #[trigger] text.take(j),
    ) >= 0 by {
        assert(text.take(j) =~= text);
    }
    assert(expanded(none, 0) =~= none);
    assert(settled(none) =~= none && pending(none) =~= none);
    assert(coalesced(none) =~= none);
    assert(optimized(none) =~= none);
    let code = function_code(none);
    assert(code =~= prologue().push(Inst::Return));
    assert(code[0] == prologue()[0] && code[1] == prologue()[1]);
    reveal_with_fuel(after, 3);
}

} // verus!
