//! A small expression language front end and bytecode virtual machine.
//!
//! Source text holding one arithmetic expression (numeric literals, unary
//! negation, `+ - * /`, parentheses) is scanned into tokens, compiled by a
//! single-pass Pratt parser into a bytecode chunk, and executed on a value
//! stack. Numeric values are IEEE-754 double-precision numbers, carried
//! everywhere as their 64-bit patterns; the embedder supplies the four
//! binary arithmetic operations and the decoding of numeric literals, while
//! everything else — scanning, parsing, code generation, the decode/execute
//! loop, negation — is verified here.
//!
//! The standing guarantees, each proved below:
//! - scanning follows `scanner::spec_scan` exactly, token by token;
//! - compiling succeeds exactly when `compiler::sp_compile` accepts the
//!   source, then emits exactly its code, line records and literal spans —
//!   every instruction attributed to the line of the token that caused it —
//!   and on rejection reports exactly the one diagnostic `sp_compile`
//!   prescribes, so the whole outcome is a function of the source text alone;
//! - a successful compilation makes one constant slot per numeric literal
//!   and never more than 256: a source with more literals is always
//!   rejected (`compiler::lemma_pool_bound`);
//! - compiled code is balanced (`chunk::wf_from`): the machine never pops an
//!   absent operand and always halts with exactly one value, whatever the
//!   embedder's arithmetic returns (`vm::lemma_wf_runs`);
//! - the halting value is exactly the source expression's precedence-
//!   respecting, left-associative evaluation under the embedder's literal
//!   decoding and arithmetic (`compiler::lemma_compile_evaluates`).

pub mod chunk;
pub mod compiler;
pub mod scanner;
pub mod vm;
