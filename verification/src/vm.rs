//! The stack virtual machine: a decode/execute step over a compiled chunk.
//!
//! The machine owns an instruction pointer and a value stack of IEEE-754 bit
//! patterns. Decoding, stack moves, constant pushes, negation (an exact sign
//! bit flip) and halting are all verified here; the four binary arithmetic
//! operations are the embedder's: when `step` reaches one it pops both
//! operands and hands them out, and the embedder computes the double result
//! and passes its bits back through `resume`. `lemma_wf_runs` is the safety
//! theorem: on a well-formed chunk this protocol never pops an absent
//! operand and always halts with exactly one value, whatever results the
//! embedder supplies.

use vstd::prelude::*;

use crate::chunk::Chunk;
use crate::chunk::OpCode;
use crate::chunk::wf_from;

verus! {

/// Outcome of one `interpret` call: success, a rejected source text, or a
/// failure during execution (no current instruction can raise one; the kind
/// is kept so the distinction survives future operations that can).
#[derive(Clone, Copy, Debug, PartialEq, Eq, Structural)]
pub enum InterpretResult {
    Success,
    CompileError,
    RuntimeError,
}

/// What one `step` call did: executed a whole instruction, halted with the
/// final value, or popped the two operands of a binary arithmetic
/// instruction — the embedder must then compute the double result and hand
/// its bit pattern to `resume` before stepping again.
#[derive(Clone, Copy, Debug, PartialEq, Eq, Structural)]
pub enum Step {
    Ran,
    Arith(OpCode, u64, u64),
    Done(u64),
}

/// The IEEE-754 negation of the double with bit pattern `v`: exactly a sign
/// bit flip, for every value including zeros, infinities and NaNs.
pub open spec fn negated(v: u64) -> u64 {
    v ^ 0x8000_0000_0000_0000u64
}

pub struct Vm {
    ip: usize,
    stack: Vec<u64>,
    pending: bool,
}

impl Vm {
    /// The byte offset of the next instruction in the current chunk.
    pub closed spec fn spec_ip(&self) -> int {
        self.ip as int
    }

    /// The value stack, bottom first.
    pub closed spec fn spec_stack(&self) -> Seq<u64> {
        self.stack@
    }

    /// Whether the machine is waiting for `resume` with an arithmetic result.
    pub closed spec fn is_pending(&self) -> bool {
        self.pending
    }

    pub fn new() -> (vm: Self)
        ensures
            vm.spec_ip() == 0,
            vm.spec_stack().len() == 0,
            !vm.is_pending(),
    {
        Vm { ip: 0, stack: Vec::new(), pending: false }
    }

    /// Clears the stack and rewinds the instruction pointer, making the
    /// machine ready to run a chunk from its start.
    pub fn reset(&mut self)
        ensures
            final(self).spec_ip() == 0,
            final(self).spec_stack().len() == 0,
            !final(self).is_pending(),
    {
        self.ip = 0;
        self.stack.clear();
        self.pending = false;
    }

    /// Decodes and executes the instruction at the current position. On a
    /// binary arithmetic instruction the operands are popped and handed out
    /// (left one first) and the machine waits for `resume`; a constant push
    /// and a negation complete in place; a return halts with the one
    /// remaining value, leaving the stack empty.
    pub fn step(&mut self, chunk: &Chunk) -> (r: Step)
        requires
            !old(self).is_pending(),
            wf_from(
                chunk.code@,
                chunk.constants@.len() as int,
                old(self).spec_ip(),
                old(self).spec_stack().len() as int,
            ),
        ensures
            ({
                let code = chunk.code@;
                let n_consts = chunk.constants@.len() as int;
                let ip = old(self).spec_ip();
                let stk = old(self).spec_stack();
                match OpCode::spec_from_byte(code[ip]) {
                    Some(OpCode::Constant) => {
                        &&& r == Step::Ran
                        &&& final(self).spec_ip() == ip + 2
                        &&& final(self).spec_stack() == stk.push(chunk.constants@[code[ip + 1] as int])
                        &&& !final(self).is_pending()
                        &&& wf_from(code, n_consts, ip + 2, stk.len() as int + 1)
                    },
                    Some(OpCode::Add) | Some(OpCode::Subtract) | Some(OpCode::Multiply) | Some(
                        OpCode::Divide,
                    ) => {
                        &&& r == Step::Arith(
                            OpCode::spec_from_byte(code[ip]).unwrap(),
                            stk[stk.len() - 2],
                            stk[stk.len() - 1],
                        )
                        &&& final(self).spec_ip() == ip + 1
                        &&& final(self).spec_stack() == stk.subrange(0, stk.len() - 2)
                        &&& final(self).is_pending()
                        &&& wf_from(code, n_consts, ip + 1, stk.len() as int - 1)
                    },
                    Some(OpCode::Negate) => {
                        &&& r == Step::Ran
                        &&& final(self).spec_ip() == ip + 1
                        &&& final(self).spec_stack() == stk.subrange(0, stk.len() - 1).push(
                            negated(stk[stk.len() - 1]),
                        )
                        &&& !final(self).is_pending()
                        &&& wf_from(code, n_consts, ip + 1, stk.len() as int)
                    },
                    Some(OpCode::Return) => {
                        &&& r == Step::Done(stk[stk.len() - 1])
                        &&& final(self).spec_stack().len() == 0
                        &&& !final(self).is_pending()
                    },
                    None => false,
                }
            }),
    {
        let n = chunk.code.len();
        proof {
            assert(self.ip < n);
        }
        let b = chunk.code[self.ip];
        match OpCode::from_byte(b) {
            Some(OpCode::Constant) => {
                let index = chunk.code[self.ip + 1];
                let value = chunk.constants[index as usize];
                self.stack.push(value);
                self.ip += 2;
                Step::Ran
            },
            Some(OpCode::Add) => {
                let right = self.stack.pop().unwrap();
                let left = self.stack.pop().unwrap();
                self.ip += 1;
                self.pending = true;
                proof {
                    assert(final(self).spec_stack() =~= old(self).spec_stack().subrange(
                        0,
                        old(self).spec_stack().len() - 2,
                    ));
                }
                Step::Arith(OpCode::Add, left, right)
            },
            Some(OpCode::Subtract) => {
                let right = self.stack.pop().unwrap();
                let left = self.stack.pop().unwrap();
                self.ip += 1;
                self.pending = true;
                proof {
                    assert(final(self).spec_stack() =~= old(self).spec_stack().subrange(
                        0,
                        old(self).spec_stack().len() - 2,
                    ));
                }
                Step::Arith(OpCode::Subtract, left, right)
            },
            Some(OpCode::Multiply) => {
                let right = self.stack.pop().unwrap();
                let left = self.stack.pop().unwrap();
                self.ip += 1;
                self.pending = true;
                proof {
                    assert(final(self).spec_stack() =~= old(self).spec_stack().subrange(
                        0,
                        old(self).spec_stack().len() - 2,
                    ));
                }
                Step::Arith(OpCode::Multiply, left, right)
            },
            Some(OpCode::Divide) => {
                let right = self.stack.pop().unwrap();
                let left = self.stack.pop().unwrap();
                self.ip += 1;
                self.pending = true;
                proof {
                    assert(final(self).spec_stack() =~= old(self).spec_stack().subrange(
                        0,
                        old(self).spec_stack().len() - 2,
                    ));
                }
                Step::Arith(OpCode::Divide, left, right)
            },
            Some(OpCode::Negate) => {
                let value = self.stack.pop().unwrap();
                self.stack.push(value ^ 0x8000_0000_0000_0000u64);
                self.ip += 1;
                Step::Ran
            },
            Some(OpCode::Return) => {
                let value = self.stack.pop().unwrap();
                Step::Done(value)
            },
            None => {
                proof {
                    assert(false);
                }
                Step::Ran
            },
        }
    }

    /// The byte offset of the next instruction, for diagnostics.
    pub fn position(&self) -> (ip: usize)
        ensures
            ip as int == self.spec_ip(),
    {
        self.ip
    }

    /// A copy of the value stack, bottom first, for diagnostics.
    #[verifier::loop_isolation(false)]
    pub fn stack_snapshot(&self) -> (s: Vec<u64>)
        ensures
            s@ == self.spec_stack(),
    {
        let mut s: Vec<u64> = Vec::new();
        let mut i: usize = 0;
        while i < self.stack.len()
            invariant
                i <= self.stack@.len(),
                s@ == self.stack@.subrange(0, i as int),
            decreases self.stack@.len() - i,
        {
            s.push(self.stack[i]);
            i += 1;
        }
        proof {
            assert(s@ =~= self.spec_stack());
        }
        s
    }

    /// Accepts the bit pattern of the arithmetic result the embedder
    /// computed for the operands the last `step` handed out, and pushes it.
    pub fn resume(&mut self, value: u64)
        requires
            old(self).is_pending(),
        ensures
            !final(self).is_pending(),
            final(self).spec_ip() == old(self).spec_ip(),
            final(self).spec_stack() == old(self).spec_stack().push(value),
    {
        self.stack.push(value);
        self.pending = false;
    }
}

/// What executing `code` from `ip` yields when the `k`-th binary arithmetic
/// instruction reached from here evaluates to `oracle(k, op, left, right)`:
/// the bit pattern the halting return instruction pops, or nothing when
/// execution would decode an unknown byte, read past the code or the pool,
/// or pop an absent operand.
pub open spec fn run_from(
    code: Seq<u8>,
    consts: Seq<u64>,
    ip: int,
    stack: Seq<u64>,
    k: int,
    oracle: spec_fn(int, OpCode, u64, u64) -> u64,
) -> Option<u64>
    decreases code.len() - ip,
{
    if ip < 0 || ip >= code.len() {
        None
    } else {
        match OpCode::spec_from_byte(code[ip]) {
            Some(OpCode::Constant) => {
                if ip + 1 < code.len() && (code[ip + 1] as int) < consts.len() {
                    run_from(code, consts, ip + 2, stack.push(consts[code[ip + 1] as int]), k, oracle)
                } else {
                    None
                }
            },
            Some(OpCode::Add) | Some(OpCode::Subtract) | Some(OpCode::Multiply) | Some(
                OpCode::Divide,
            ) => {
                if stack.len() >= 2 {
                    let op = OpCode::spec_from_byte(code[ip]).unwrap();
                    let left = stack[stack.len() - 2];
                    let right = stack[stack.len() - 1];
                    run_from(
                        code,
                        consts,
                        ip + 1,
                        stack.subrange(0, stack.len() - 2).push(oracle(k, op, left, right)),
                        k + 1,
                        oracle,
                    )
                } else {
                    None
                }
            },
            Some(OpCode::Negate) => {
                if stack.len() >= 1 {
                    run_from(
                        code,
                        consts,
                        ip + 1,
                        stack.subrange(0, stack.len() - 1).push(negated(stack[stack.len() - 1])),
                        k,
                        oracle,
                    )
                } else {
                    None
                }
            },
            Some(OpCode::Return) => {
                if stack.len() >= 1 {
                    Some(stack[stack.len() - 1])
                } else {
                    None
                }
            },
            None => None,
        }
    }
}

/// The safety theorem of the machine: on well-formed code, execution never
/// gets stuck — no unknown byte is decoded, no operand is popped from an
/// empty stack, no constant slot is read past the pool — and it halts with
/// a value, whatever results the embedder's arithmetic supplies.
pub proof fn lemma_wf_runs(
    code: Seq<u8>,
    consts: Seq<u64>,
    ip: int,
    stack: Seq<u64>,
    k: int,
    oracle: spec_fn(int, OpCode, u64, u64) -> u64,
)
    requires
        wf_from(code, consts.len() as int, ip, stack.len() as int),
    ensures
        run_from(code, consts, ip, stack, k, oracle) is Some,
    decreases code.len() - ip,
{
    match OpCode::spec_from_byte(code[ip]) {
        Some(OpCode::Constant) => {
            lemma_wf_runs(code, consts, ip + 2, stack.push(consts[code[ip + 1] as int]), k, oracle);
        },
        Some(OpCode::Add) | Some(OpCode::Subtract) | Some(OpCode::Multiply) | Some(
            OpCode::Divide,
        ) => {
            let op = OpCode::spec_from_byte(code[ip]).unwrap();
            lemma_wf_runs(
                code,
                consts,
                ip + 1,
                stack.subrange(0, stack.len() - 2).push(
                    oracle(k, op, stack[stack.len() - 2], stack[stack.len() - 1]),
                ),
                k + 1,
                oracle,
            );
        },
        Some(OpCode::Negate) => {
            lemma_wf_runs(
                code,
                consts,
                ip + 1,
                stack.subrange(0, stack.len() - 1).push(negated(stack[stack.len() - 1])),
                k,
                oracle,
            );
        },
        _ => {},
    }
}

} // verus!

verus! {

/// The stack after running the instruction segment `code[lo..hi)` from
/// `stack`, with the binary arithmetic given by `arith`; or nothing when the
/// segment does not decode into whole instructions, pops an absent operand,
/// reads past the constant pool, or holds a return instruction.
pub open spec fn seg_run(
    code: Seq<u8>,
    consts: Seq<u64>,
    lo: int,
    hi: int,
    stack: Seq<u64>,
    arith: spec_fn(OpCode, u64, u64) -> u64,
) -> Option<Seq<u64>>
    decreases hi - lo,
{
    if lo == hi {
        Some(stack)
    } else if lo < 0 || lo >= hi || hi > code.len() {
        None
    } else {
        match OpCode::spec_from_byte(code[lo]) {
            Some(OpCode::Constant) => {
                if lo + 1 < hi && (code[lo + 1] as int) < consts.len() {
                    seg_run(code, consts, lo + 2, hi, stack.push(consts[code[lo + 1] as int]), arith)
                } else {
                    None
                }
            },
            Some(OpCode::Add) | Some(OpCode::Subtract) | Some(OpCode::Multiply) | Some(
                OpCode::Divide,
            ) => {
                if stack.len() >= 2 {
                    let op = OpCode::spec_from_byte(code[lo]).unwrap();
                    seg_run(
                        code,
                        consts,
                        lo + 1,
                        hi,
                        stack.subrange(0, stack.len() - 2).push(
                            arith(op, stack[stack.len() - 2], stack[stack.len() - 1]),
                        ),
                        arith,
                    )
                } else {
                    None
                }
            },
            Some(OpCode::Negate) => {
                if stack.len() >= 1 {
                    seg_run(
                        code,
                        consts,
                        lo + 1,
                        hi,
                        stack.subrange(0, stack.len() - 1).push(negated(stack[stack.len() - 1])),
                        arith,
                    )
                } else {
                    None
                }
            },
            _ => None,
        }
    }
}

/// A segment runs the same wherever it stands: only the bytes it covers and
/// the constant slots it references matter, so bytes around it and constants
/// appended after those it uses change nothing.
pub proof fn lemma_seg_run_shift(
    code1: Seq<u8>,
    code2: Seq<u8>,
    consts1: Seq<u64>,
    consts2: Seq<u64>,
    lo: int,
    hi: int,
    off: int,
    stack: Seq<u64>,
    arith: spec_fn(OpCode, u64, u64) -> u64,
)
    requires
        seg_run(code1, consts1, lo, hi, stack, arith) is Some,
        forall|k: int| lo <= k < hi ==> code2[k + off] == code1[k],
        0 <= lo + off,
        hi + off <= code2.len(),
        consts1.len() <= consts2.len(),
        forall|i: int| 0 <= i < consts1.len() ==> consts2[i] == consts1[i],
    ensures
        seg_run(code2, consts2, lo + off, hi + off, stack, arith) == seg_run(
            code1,
            consts1,
            lo,
            hi,
            stack,
            arith,
        ),
    decreases hi - lo,
{
    if lo == hi {
    } else {
        match OpCode::spec_from_byte(code1[lo]) {
            Some(OpCode::Constant) => {
                lemma_seg_run_shift(
                    code1,
                    code2,
                    consts1,
                    consts2,
                    lo + 2,
                    hi,
                    off,
                    stack.push(consts1[code1[lo + 1] as int]),
                    arith,
                );
            },
            Some(OpCode::Add) | Some(OpCode::Subtract) | Some(OpCode::Multiply) | Some(
                OpCode::Divide,
            ) => {
                let op = OpCode::spec_from_byte(code1[lo]).unwrap();
                lemma_seg_run_shift(
                    code1,
                    code2,
                    consts1,
                    consts2,
                    lo + 1,
                    hi,
                    off,
                    stack.subrange(0, stack.len() - 2).push(
                        arith(op, stack[stack.len() - 2], stack[stack.len() - 1]),
                    ),
                    arith,
                );
            },
            Some(OpCode::Negate) => {
                lemma_seg_run_shift(
                    code1,
                    code2,
                    consts1,
                    consts2,
                    lo + 1,
                    hi,
                    off,
                    stack.subrange(0, stack.len() - 1).push(negated(stack[stack.len() - 1])),
                    arith,
                );
            },
            _ => {},
        }
    }
}

/// Running two adjacent segments one after the other runs their union.
pub proof fn lemma_seg_run_compose(
    code: Seq<u8>,
    consts: Seq<u64>,
    lo: int,
    mid: int,
    hi: int,
    stack: Seq<u64>,
    stack2: Seq<u64>,
    arith: spec_fn(OpCode, u64, u64) -> u64,
)
    requires
        seg_run(code, consts, lo, mid, stack, arith) == Some(stack2),
        mid <= hi <= code.len(),
    ensures
        seg_run(code, consts, lo, hi, stack, arith) == seg_run(code, consts, mid, hi, stack2, arith),
    decreases mid - lo,
{
    if lo == mid {
    } else {
        match OpCode::spec_from_byte(code[lo]) {
            Some(OpCode::Constant) => {
                lemma_seg_run_compose(
                    code,
                    consts,
                    lo + 2,
                    mid,
                    hi,
                    stack.push(consts[code[lo + 1] as int]),
                    stack2,
                    arith,
                );
            },
            Some(OpCode::Add) | Some(OpCode::Subtract) | Some(OpCode::Multiply) | Some(
                OpCode::Divide,
            ) => {
                let op = OpCode::spec_from_byte(code[lo]).unwrap();
                lemma_seg_run_compose(
                    code,
                    consts,
                    lo + 1,
                    mid,
                    hi,
                    stack.subrange(0, stack.len() - 2).push(
                        arith(op, stack[stack.len() - 2], stack[stack.len() - 1]),
                    ),
                    stack2,
                    arith,
                );
            },
            Some(OpCode::Negate) => {
                lemma_seg_run_compose(
                    code,
                    consts,
                    lo + 1,
                    mid,
                    hi,
                    stack.subrange(0, stack.len() - 1).push(negated(stack[stack.len() - 1])),
                    stack2,
                    arith,
                );
            },
            _ => {},
        }
    }
}

/// A segment that leaves a value on the stack, followed by a return
/// instruction, makes the whole execution halt with that value — for any
/// oracle that computes the same arithmetic.
pub proof fn lemma_seg_run_halts(
    code: Seq<u8>,
    consts: Seq<u64>,
    lo: int,
    hi: int,
    stack: Seq<u64>,
    stack2: Seq<u64>,
    k: int,
    arith: spec_fn(OpCode, u64, u64) -> u64,
    oracle: spec_fn(int, OpCode, u64, u64) -> u64,
)
    requires
        seg_run(code, consts, lo, hi, stack, arith) == Some(stack2),
        stack2.len() >= 1,
        0 <= lo,
        hi < code.len(),
        code[hi] == 6u8,
        forall|k2: int, op: OpCode, a: u64, b: u64| #[trigger] oracle(k2, op, a, b) == arith(op, a, b),
    ensures
        run_from(code, consts, lo, stack, k, oracle) == Some(stack2[stack2.len() - 1]),
    decreases hi - lo,
{
    if lo == hi {
    } else {
        match OpCode::spec_from_byte(code[lo]) {
            Some(OpCode::Constant) => {
                lemma_seg_run_halts(
                    code,
                    consts,
                    lo + 2,
                    hi,
                    stack.push(consts[code[lo + 1] as int]),
                    stack2,
                    k,
                    arith,
                    oracle,
                );
            },
            Some(OpCode::Add) | Some(OpCode::Subtract) | Some(OpCode::Multiply) | Some(
                OpCode::Divide,
            ) => {
                let op = OpCode::spec_from_byte(code[lo]).unwrap();
                lemma_seg_run_halts(
                    code,
                    consts,
                    lo + 1,
                    hi,
                    stack.subrange(0, stack.len() - 2).push(
                        arith(op, stack[stack.len() - 2], stack[stack.len() - 1]),
                    ),
                    stack2,
                    k + 1,
                    arith,
                    oracle,
                );
            },
            Some(OpCode::Negate) => {
                lemma_seg_run_halts(
                    code,
                    consts,
                    lo + 1,
                    hi,
                    stack.subrange(0, stack.len() - 1).push(negated(stack[stack.len() - 1])),
                    stack2,
                    k,
                    arith,
                    oracle,
                );
            },
            _ => {},
        }
    }
}

} // verus!
