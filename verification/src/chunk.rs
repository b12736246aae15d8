//! Bytecode chunks: the unit of compiled output and of execution.
//!
//! A chunk holds the instruction bytes, a parallel sequence of source line
//! numbers (one per byte, for diagnostics), a pool of constant values
//! (IEEE-754 bit patterns), and the byte ranges of the numeric literals the
//! constants come from. `wf_from` defines when executing a chunk from a given
//! position and stack depth is safe: every operand byte indexes the pool,
//! every operation finds its operands on the stack, and a return instruction
//! halts at depth one. `seg_wf` is the compositional account of the same for
//! an instruction segment, used to prove the compiler emits balanced code.

use vstd::prelude::*;

verus! {

#[derive(Clone, Copy, Debug, PartialEq, Eq, Structural)]
pub enum OpCode {
    Constant,
    Add,
    Subtract,
    Multiply,
    Divide,
    Negate,
    Return,
}

impl OpCode {
    /// The stable one-byte encoding of this opcode.
    pub open spec fn spec_byte(self) -> u8 {
        match self {
            OpCode::Constant => 0,
            OpCode::Add => 1,
            OpCode::Subtract => 2,
            OpCode::Multiply => 3,
            OpCode::Divide => 4,
            OpCode::Negate => 5,
            OpCode::Return => 6,
        }
    }

    /// Which opcode, if any, a byte decodes to: the inverse of `spec_byte`.
    pub open spec fn spec_from_byte(b: u8) -> Option<OpCode> {
        if b == 0 {
            Some(OpCode::Constant)
        } else if b == 1 {
            Some(OpCode::Add)
        } else if b == 2 {
            Some(OpCode::Subtract)
        } else if b == 3 {
            Some(OpCode::Multiply)
        } else if b == 4 {
            Some(OpCode::Divide)
        } else if b == 5 {
            Some(OpCode::Negate)
        } else if b == 6 {
            Some(OpCode::Return)
        } else {
            None
        }
    }

    pub fn to_byte(self) -> (b: u8)
        ensures
            b == self.spec_byte(),
            Self::spec_from_byte(b) == Some(self),
    {
        match self {
            OpCode::Constant => 0,
            OpCode::Add => 1,
            OpCode::Subtract => 2,
            OpCode::Multiply => 3,
            OpCode::Divide => 4,
            OpCode::Negate => 5,
            OpCode::Return => 6,
        }
    }

    pub fn from_byte(b: u8) -> (r: Option<OpCode>)
        ensures
            r == Self::spec_from_byte(b),
    {
        if b == 0 {
            Some(OpCode::Constant)
        } else if b == 1 {
            Some(OpCode::Add)
        } else if b == 2 {
            Some(OpCode::Subtract)
        } else if b == 3 {
            Some(OpCode::Multiply)
        } else if b == 4 {
            Some(OpCode::Divide)
        } else if b == 5 {
            Some(OpCode::Negate)
        } else if b == 6 {
            Some(OpCode::Return)
        } else {
            None
        }
    }
}

/// The half-open byte range of a numeric literal's lexeme in the source.
#[derive(Clone, Copy, Debug, PartialEq, Eq, Structural)]
pub struct Span {
    pub start: usize,
    pub end: usize,
}

/// A growing container of bytecode: instruction bytes, one source line per
/// byte, the constant pool (IEEE-754 bit patterns), and the source span each
/// constant slot was written from. The compiler fills `code`, `lines` and
/// `literals`; the embedder decodes each literal span to a double and pushes
/// its bit pattern with `add_constant`, slot by slot, before execution.
pub struct Chunk {
    pub code: Vec<u8>,
    pub lines: Vec<u64>,
    pub constants: Vec<u64>,
    pub literals: Vec<Span>,
}

impl Chunk {
    pub fn new() -> (c: Self)
        ensures
            c.code@.len() == 0,
            c.lines@.len() == 0,
            c.constants@.len() == 0,
            c.literals@.len() == 0,
    {
        Chunk { code: Vec::new(), lines: Vec::new(), constants: Vec::new(), literals: Vec::new() }
    }

    /// Appends a constant value (a double's bit pattern) to the pool and
    /// returns its slot index.
    pub fn add_constant(&mut self, value: u64) -> (index: usize)
        ensures
            final(self).constants@ == old(self).constants@.push(value),
            index == old(self).constants@.len(),
            final(self).code == old(self).code,
            final(self).lines == old(self).lines,
            final(self).literals == old(self).literals,
    {
        self.constants.push(value);
        self.constants.len() - 1
    }

    /// Appends a literal's source span to the pool of pending constants and
    /// returns its slot index.
    pub fn add_literal(&mut self, span: Span) -> (index: usize)
        ensures
            final(self).literals@ == old(self).literals@.push(span),
            index == old(self).literals@.len(),
            final(self).code == old(self).code,
            final(self).lines == old(self).lines,
            final(self).constants == old(self).constants,
    {
        self.literals.push(span);
        self.literals.len() - 1
    }

    /// Appends one bytecode byte together with the source line it came from.
    pub fn write_chunk(&mut self, byte: u8, line: u64)
        ensures
            final(self).code@ == old(self).code@.push(byte),
            final(self).lines@ == old(self).lines@.push(line),
            final(self).constants == old(self).constants,
            final(self).literals == old(self).literals,
    {
        self.code.push(byte);
        self.lines.push(line);
    }
}

/// Executing `code` from position `ip` at stack depth `depth`, against a pool
/// of `n_consts` constants, decodes cleanly, never pops an absent operand,
/// and halts on a return instruction that finds exactly one value.
pub open spec fn wf_from(code: Seq<u8>, n_consts: int, ip: int, depth: int) -> bool
    decreases code.len() - ip,
{
    if ip < 0 || ip >= code.len() {
        false
    } else {
        match OpCode::spec_from_byte(code[ip]) {
            Some(OpCode::Constant) => {
                if ip + 1 < code.len() && (code[ip + 1] as int) < n_consts {
                    wf_from(code, n_consts, ip + 2, depth + 1)
                } else {
                    false
                }
            },
            Some(OpCode::Add) | Some(OpCode::Subtract) | Some(OpCode::Multiply) | Some(
                OpCode::Divide,
            ) => {
                if depth >= 2 {
                    wf_from(code, n_consts, ip + 1, depth - 1)
                } else {
                    false
                }
            },
            Some(OpCode::Negate) => {
                if depth >= 1 {
                    wf_from(code, n_consts, ip + 1, depth)
                } else {
                    false
                }
            },
            Some(OpCode::Return) => depth == 1,
            None => false,
        }
    }
}

/// Stack effect of the instruction segment `code[lo..hi)` started at depth
/// `depth`: the depth after the segment, or nothing when the segment does not
/// decode into whole instructions, pops an absent operand, references a
/// constant slot at or above `n_consts`, or holds a return instruction.
pub open spec fn seg_wf(code: Seq<u8>, n_consts: int, lo: int, hi: int, depth: int) -> Option<int>
    decreases hi - lo,
{
    if lo == hi {
        Some(depth)
    } else if lo < 0 || lo >= hi || hi > code.len() {
        None
    } else {
        match OpCode::spec_from_byte(code[lo]) {
            Some(OpCode::Constant) => {
                if lo + 1 < hi && (code[lo + 1] as int) < n_consts {
                    seg_wf(code, n_consts, lo + 2, hi, depth + 1)
                } else {
                    None
                }
            },
            Some(OpCode::Add) | Some(OpCode::Subtract) | Some(OpCode::Multiply) | Some(
                OpCode::Divide,
            ) => {
                if depth >= 2 {
                    seg_wf(code, n_consts, lo + 1, hi, depth - 1)
                } else {
                    None
                }
            },
            Some(OpCode::Negate) => {
                if depth >= 1 {
                    seg_wf(code, n_consts, lo + 1, hi, depth)
                } else {
                    None
                }
            },
            Some(OpCode::Return) => None,
            None => None,
        }
    }
}

/// Two well-formed segments laid end to end form a well-formed segment whose
/// effect is the composition of theirs.
pub proof fn lemma_seg_wf_compose(
    code: Seq<u8>,
    n_consts: int,
    lo: int,
    mid: int,
    hi: int,
    depth: int,
    e: int,
    f: int,
)
    requires
        seg_wf(code, n_consts, lo, mid, depth) == Some(e),
        seg_wf(code, n_consts, mid, hi, e) == Some(f),
    ensures
        seg_wf(code, n_consts, lo, hi, depth) == Some(f),
    decreases mid - lo,
{
    if lo == mid {
    } else {
        match OpCode::spec_from_byte(code[lo]) {
            Some(OpCode::Constant) => {
                lemma_seg_wf_compose(code, n_consts, lo + 2, mid, hi, depth + 1, e, f);
            },
            Some(OpCode::Add) | Some(OpCode::Subtract) | Some(OpCode::Multiply) | Some(
                OpCode::Divide,
            ) => {
                lemma_seg_wf_compose(code, n_consts, lo + 1, mid, hi, depth - 1, e, f);
            },
            Some(OpCode::Negate) => {
                lemma_seg_wf_compose(code, n_consts, lo + 1, mid, hi, depth, e, f);
            },
            _ => {},
        }
    }
}

/// A segment's effect depends only on the bytes it covers: bytes appended
/// after it, or a grown constant pool, do not disturb it.
pub proof fn lemma_seg_wf_stable(
    code1: Seq<u8>,
    code2: Seq<u8>,
    n1: int,
    n2: int,
    lo: int,
    hi: int,
    depth: int,
)
    requires
        seg_wf(code1, n1, lo, hi, depth) is Some,
        hi <= code2.len(),
        forall|k: int| lo <= k < hi ==> code2[k] == code1[k],
        n2 >= n1,
    ensures
        seg_wf(code2, n2, lo, hi, depth) == seg_wf(code1, n1, lo, hi, depth),
    decreases hi - lo,
{
    if lo == hi {
    } else {
        match OpCode::spec_from_byte(code1[lo]) {
            Some(OpCode::Constant) => {
                lemma_seg_wf_stable(code1, code2, n1, n2, lo + 2, hi, depth + 1);
            },
            Some(OpCode::Add) | Some(OpCode::Subtract) | Some(OpCode::Multiply) | Some(
                OpCode::Divide,
            ) => {
                lemma_seg_wf_stable(code1, code2, n1, n2, lo + 1, hi, depth - 1);
            },
            Some(OpCode::Negate) => {
                lemma_seg_wf_stable(code1, code2, n1, n2, lo + 1, hi, depth);
            },
            _ => {},
        }
    }
}

/// A well-formed segment followed by code that runs safely from the
/// segment's final depth runs safely from the segment's start.
pub proof fn lemma_seg_wf_runs(code: Seq<u8>, n_consts: int, lo: int, hi: int, depth: int, e: int)
    requires
        seg_wf(code, n_consts, lo, hi, depth) == Some(e),
        wf_from(code, n_consts, hi, e),
    ensures
        wf_from(code, n_consts, lo, depth),
    decreases hi - lo,
{
    if lo == hi {
    } else {
        match OpCode::spec_from_byte(code[lo]) {
            Some(OpCode::Constant) => {
                lemma_seg_wf_runs(code, n_consts, lo + 2, hi, depth + 1, e);
            },
            Some(OpCode::Add) | Some(OpCode::Subtract) | Some(OpCode::Multiply) | Some(
                OpCode::Divide,
            ) => {
                lemma_seg_wf_runs(code, n_consts, lo + 1, hi, depth - 1, e);
            },
            Some(OpCode::Negate) => {
                lemma_seg_wf_runs(code, n_consts, lo + 1, hi, depth, e);
            },
            _ => {},
        }
    }
}

} // verus!

verus! {

/// Where the instruction after the one at `offset` begins: two bytes for a
/// constant when its operand byte exists, one byte for everything else —
/// unknown opcodes included, so a disassembly walk always advances.
pub open spec fn instr_next(code: Seq<u8>, offset: int) -> int {
    if OpCode::spec_from_byte(code[offset]) == Some(OpCode::Constant) && offset + 1 < code.len() {
        offset + 2
    } else {
        offset + 1
    }
}

impl Chunk {
    /// Walks one instruction for disassembly, returning the offset of the
    /// next one by the opcode's operand width.
    pub fn disassemble_instruction(&self, offset: usize) -> (next: usize)
        requires
            offset < self.code@.len(),
        ensures
            next == instr_next(self.code@, offset as int),
            offset < next <= self.code@.len(),
    {
        let n = self.code.len();
        let b = self.code[offset];
        let wide = match OpCode::from_byte(b) {
            Some(OpCode::Constant) => true,
            _ => false,
        };
        if wide && n - offset > 1 {
            offset + 2
        } else {
            offset + 1
        }
    }

    /// Decides whether executing this chunk from its start with an empty
    /// stack is safe, by one linear walk tracking the stack depth.
    #[verifier::loop_isolation(false)]
    pub fn validate(&self) -> (ok: bool)
        ensures
            ok == wf_from(self.code@, self.constants@.len() as int, 0, 0),
    {
        let n = self.code.len();
        let mut ip: usize = 0;
        let mut depth: usize = 0;
        loop
            invariant
                ip <= n,
                2 * depth <= ip,
                wf_from(self.code@, self.constants@.len() as int, 0, 0) == wf_from(
                    self.code@,
                    self.constants@.len() as int,
                    ip as int,
                    depth as int,
                ),
            decreases n - ip,
        {
            if ip >= n {
                return false;
            }
            let b = self.code[ip];
            match OpCode::from_byte(b) {
                Some(OpCode::Constant) => {
                    if ip + 1 < n && (self.code[ip + 1] as usize) < self.constants.len() {
                        ip += 2;
                        depth += 1;
                    } else {
                        return false;
                    }
                },
                Some(OpCode::Add) | Some(OpCode::Subtract) | Some(OpCode::Multiply) | Some(
                    OpCode::Divide,
                ) => {
                    if depth >= 2 {
                        ip += 1;
                        depth -= 1;
                    } else {
                        return false;
                    }
                },
                Some(OpCode::Negate) => {
                    if depth >= 1 {
                        ip += 1;
                    } else {
                        return false;
                    }
                },
                Some(OpCode::Return) => {
                    return depth == 1;
                },
                None => {
                    return false;
                },
            }
        }
    }
}

} // verus!
