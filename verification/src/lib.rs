//! A verified compiler for a tape machine of eight commands, and a few smaller
//! verified programs beside it.
//!
//! The compiler: [`parser`] reads a source text into the intermediate
//! representation of [`frontend`]; [`optimizer`] rewrites it; [`codegen`]
//! lowers it into the instructions of one function; [`jit`] does all three.
//! [`machine`] says what a program means, [`interpreter`] runs it on a tape of
//! fixed size, and [`native`] says what the lowered instructions mean.
//! [`soundness`], [`reduction`], [`stability`], [`lowering`] and [`emission`]
//! hold the theorems: the optimizer keeps the meaning of a program, the lowered
//! function does what the program does, and a backend can take its
//! instructions as they come.
//!
//! Beside it: [`shell`] parses command lines; [`sexp`], [`value`],
//! [`environment`] and [`eval`] evaluate symbolic expressions; [`life`] is a
//! universe of cells in three dimensions; [`wafwaf`] routes requests to
//! handlers; [`clock`] writes the face of a clock; [`pool`] names what a pool
//! of workers runs.

pub mod clock;
pub mod codegen;
pub mod emission;
pub mod environment;
pub mod eval;
pub mod frontend;
pub mod interpreter;
pub mod jit;
pub mod life;
pub mod lowering;
pub mod machine;
pub mod native;
pub mod optimizer;
pub mod parser;
pub mod pool;
pub mod reduction;
pub mod sexp;
pub mod shell;
pub mod soundness;
pub mod stability;
pub mod value;
pub mod wafwaf;
