//! Single-pass compiler: Pratt (operator-precedence) parsing straight into
//! bytecode, with no intermediate tree.
//!
//! The compiler pulls tokens from the scanner one at a time, holding only the
//! previous and current token. Each token kind has a parse rule — an optional
//! prefix action, an optional infix action, and a precedence level — and
//! `parse_precedence` drives them: operands are emitted left to right, each
//! operator after its operands, so the bytecode evaluates on a stack. The
//! proved heart of the matter is twofold. First, compilation is pinned to a
//! specification mirror: `compile` succeeds exactly when `sp_compile`
//! accepts the source, and then emits exactly the code, line records and
//! literal spans `sp_compile` prescribes — so compiling is a function of the
//! source text alone. Second, successful output is balanced: each
//! sub-expression's code is a value segment (`seg_wf` effect of exactly one
//! push from any depth), the whole chunk closed by a return instruction
//! satisfies `wf_from`, and the virtual machine can never pop an absent
//! operand. A numeric literal becomes a constant slot holding the lexeme's
//! byte range; the embedder decodes each slot to a double before execution.
//! Errors never escape as bytecode: any error discards the chunk and yields
//! the collected diagnostics instead.

use vstd::prelude::*;

use crate::chunk::Chunk;
use crate::chunk::OpCode;
use crate::chunk::Span;
use crate::chunk::seg_wf;
use crate::chunk::wf_from;
use crate::chunk::lemma_seg_wf_compose;
use crate::chunk::lemma_seg_wf_stable;
use crate::chunk::lemma_seg_wf_runs;
use crate::scanner::Scanner;
use crate::scanner::Token;
use crate::scanner::TokenType;
use crate::scanner::count_nl;
use crate::scanner::spec_scan;
use crate::vm::run_from;
use crate::vm::seg_run;
use crate::vm::lemma_seg_run_shift;
use crate::vm::lemma_seg_run_compose;
use crate::vm::lemma_seg_run_halts;

verus! {

/// Binding strength of an operator, lowest to highest; same-level binary
/// operators associate to the left.
#[derive(Clone, Copy, Debug, PartialEq, Eq, Structural)]
pub enum Precedence {
    Lowest,
    Assignment,
    Or,
    And,
    Equality,
    Comparison,
    Term,
    Factor,
    Unary,
    Call,
    Primary,
}

impl Precedence {
    /// The numeric rank of this level, for comparisons.
    pub open spec fn spec_level(self) -> u8 {
        match self {
            Precedence::Lowest => 0,
            Precedence::Assignment => 1,
            Precedence::Or => 2,
            Precedence::And => 3,
            Precedence::Equality => 4,
            Precedence::Comparison => 5,
            Precedence::Term => 6,
            Precedence::Factor => 7,
            Precedence::Unary => 8,
            Precedence::Call => 9,
            Precedence::Primary => 10,
        }
    }

    pub fn level(self) -> (n: u8)
        ensures
            n == self.spec_level(),
    {
        match self {
            Precedence::Lowest => 0,
            Precedence::Assignment => 1,
            Precedence::Or => 2,
            Precedence::And => 3,
            Precedence::Equality => 4,
            Precedence::Comparison => 5,
            Precedence::Term => 6,
            Precedence::Factor => 7,
            Precedence::Unary => 8,
            Precedence::Call => 9,
            Precedence::Primary => 10,
        }
    }

    /// The next higher level: an infix action parses its right operand one
    /// level up, which is what makes same-level operators left-associative.
    pub fn one_higher(self) -> (p: Precedence)
        ensures
            self.spec_level() < 10 ==> p.spec_level() == self.spec_level() + 1,
            self.spec_level() == 10 ==> p.spec_level() == 10,
    {
        match self {
            Precedence::Lowest => Precedence::Assignment,
            Precedence::Assignment => Precedence::Or,
            Precedence::Or => Precedence::And,
            Precedence::And => Precedence::Equality,
            Precedence::Equality => Precedence::Comparison,
            Precedence::Comparison => Precedence::Term,
            Precedence::Term => Precedence::Factor,
            Precedence::Factor => Precedence::Unary,
            Precedence::Unary => Precedence::Call,
            Precedence::Call => Precedence::Primary,
            Precedence::Primary => Precedence::Primary,
        }
    }
}

/// How a token parses when it opens an expression.
#[derive(Clone, Copy, Debug, PartialEq, Eq, Structural)]
pub enum PrefixAction {
    Grouping,
    Unary,
    Number,
}

/// How a token parses when it follows a complete sub-expression.
#[derive(Clone, Copy, Debug, PartialEq, Eq, Structural)]
pub enum InfixAction {
    Binary,
}

/// One row of the parse table: what a token does as a prefix, what it does
/// as an infix, and how strongly it binds as an infix.
#[derive(Clone, Copy, Debug, PartialEq, Eq, Structural)]
pub struct ParseRule {
    pub prefix: Option<PrefixAction>,
    pub infix: Option<InfixAction>,
    pub precedence: Precedence,
}

/// The fixed mapping from token kind to parse rule: parentheses group, minus
/// negates as a prefix and subtracts as an infix, plus/minus bind at term
/// level, star/slash at factor level, a number loads a constant; every other
/// token has no rule and ends the expression.
pub open spec fn spec_get_rule(token_type: TokenType) -> ParseRule {
    match token_type {
        TokenType::LeftParen => ParseRule {
            prefix: Some(PrefixAction::Grouping),
            infix: None,
            precedence: Precedence::Lowest,
        },
        TokenType::Minus => ParseRule {
            prefix: Some(PrefixAction::Unary),
            infix: Some(InfixAction::Binary),
            precedence: Precedence::Term,
        },
        TokenType::Plus => ParseRule {
            prefix: None,
            infix: Some(InfixAction::Binary),
            precedence: Precedence::Term,
        },
        TokenType::Slash => ParseRule {
            prefix: None,
            infix: Some(InfixAction::Binary),
            precedence: Precedence::Factor,
        },
        TokenType::Star => ParseRule {
            prefix: None,
            infix: Some(InfixAction::Binary),
            precedence: Precedence::Factor,
        },
        TokenType::Number => ParseRule {
            prefix: Some(PrefixAction::Number),
            infix: None,
            precedence: Precedence::Lowest,
        },
        _ => ParseRule { prefix: None, infix: None, precedence: Precedence::Lowest },
    }
}

/// Which message a diagnostic carries.
#[derive(Clone, Copy, Debug, PartialEq, Eq, Structural)]
pub enum Message {
    UnreadableToken,
    ExpectExpression,
    ExpectRightParen,
    ExpectEndOfExpression,
    TooManyConstants,
}

impl Message {
    /// The message's display text, fixed per variant.
    pub fn text(&self) -> (r: &'static str)
        ensures
            self is UnreadableToken ==> r@ == "Something was erroneous."@,
            self is ExpectExpression ==> r@ == "Expect expression."@,
            self is ExpectRightParen ==> r@ == "Expect ')' after expression."@,
            self is ExpectEndOfExpression ==> r@ == "Expect end of expression."@,
            self is TooManyConstants ==> r@ == "Too many constants in one chunk."@,
    {
        match self {
            Message::UnreadableToken => "Something was erroneous.",
            Message::ExpectExpression => "Expect expression.",
            Message::ExpectRightParen => "Expect ')' after expression.",
            Message::ExpectEndOfExpression => "Expect end of expression.",
            Message::TooManyConstants => "Too many constants in one chunk.",
        }
    }
}

/// What source context a diagnostic points at: the end of the input, a
/// lexeme's byte range, or a spot the scanner could not read.
#[derive(Clone, Copy, Debug, PartialEq, Eq, Structural)]
pub enum ErrorAt {
    End,
    Lexeme(Span),
    Unreadable,
}

/// One reported compile error: the 1-based source line, what it points at,
/// and its message.
#[derive(Clone, Copy, Debug, PartialEq, Eq, Structural)]
pub struct Diagnostic {
    pub line: usize,
    pub at: ErrorAt,
    pub message: Message,
}

/// A failed compilation: the diagnostics that were reported. Panic mode
/// suppresses every report after the first, so exactly one diagnostic — the
/// first error, as `sp_compile` prescribes it — is always present.
pub struct CompileError {
    pub diagnostics: Vec<Diagnostic>,
}

/// The parser's token window and error state, fresh for each compilation.
struct Parser {
    current: Option<Token>,
    previous: Option<Token>,
    had_error: bool,
    panic_mode: bool,
    diagnostics: Vec<Diagnostic>,
}

/// One compilation in progress: the source bytes, the chunk being filled,
/// the scanner's cursor, and the parser state.
pub struct Compiler {
    source: Vec<u8>,
    chunk: Chunk,
    scanner: Scanner,
    parser: Parser,
}

impl Compiler {
    /// The compiler's working invariant, except for the constant-pool bound:
    /// the one part that is momentarily broken between registering an
    /// overflowing constant and reporting the error.
    spec fn inv_core(&self) -> bool {
        &&& self.scanner.wf()
        &&& 0 <= self.scanner.cursor() <= self.source@.len()
        &&& self.source@.len() < usize::MAX
        &&& self.chunk.lines@.len() == self.chunk.code@.len()
        &&& self.chunk.constants@.len() == 0
        &&& self.parser.had_error == self.parser.panic_mode
        &&& (self.parser.had_error <==> self.parser.diagnostics@.len() > 0)
        &&& (forall|k: int|
            0 <= k < self.chunk.literals@.len() ==> (#[trigger] self.chunk.literals@[k]).start
                <= self.chunk.literals@[k].end <= self.source@.len())
        &&& match self.parser.current {
            Some(t) => {
                &&& t.label_start <= t.label_end <= self.source@.len()
                &&& (t.token_type == TokenType::Eof ==> self.scanner.cursor()
                    == self.source@.len())
            },
            None => true,
        }
        &&& match self.parser.previous {
            Some(t) => t.label_start <= t.label_end <= self.source@.len(),
            None => true,
        }
    }

    /// The compiler's working invariant, maintained by every helper: the
    /// core conditions, and an error-free compilation never holds more than
    /// 256 constant slots.
    spec fn inv(&self) -> bool {
        &&& self.inv_core()
        &&& (!self.parser.had_error ==> self.chunk.literals@.len() <= 256)
    }

    /// The compiler's place in the source, as the specification sees it.
    spec fn scan_st(&self) -> ScanState {
        ScanState {
            pos: self.scanner.cursor(),
            line: self.scanner.line_num(),
            previous: self.parser.previous,
            current: self.parser.current,
        }
    }

    /// Termination measure of the parse: bytes left after the lookahead,
    /// plus one while the lookahead is not yet end-of-input.
    spec fn measure(&self) -> int {
        st_measure(self.source@, self.scan_st())
    }

    /// Moves the token window forward: the current token becomes the
    /// previous one, and the next token the scanner can read cleanly becomes
    /// current; unreadable stretches are reported once and skipped.
    #[verifier::loop_isolation(false)]
    fn advance(&mut self)
        requires
            old(self).inv(),
        ensures
            final(self).inv(),
            final(self).parser.previous == old(self).parser.current,
            final(self).parser.current is Some,
            final(self).source == old(self).source,
            final(self).chunk == old(self).chunk,
            final(self).measure() <= old(self).measure(),
            (match old(self).parser.current {
                Some(t) => t.token_type != TokenType::Eof,
                None => true,
            }) ==> final(self).measure() < old(self).measure(),
            old(self).parser.had_error ==> final(self).parser.had_error,
            old(self).parser.had_error ==> final(self).parser.diagnostics
                == old(self).parser.diagnostics,
            !final(self).parser.had_error ==> final(self).parser == (Parser {
                previous: old(self).parser.current,
                current: final(self).parser.current,
                ..old(self).parser
            }),
            !old(self).parser.had_error && !final(self).parser.had_error ==> sp_advance(
                old(self).source@,
                old(self).scan_st(),
            ) == Ok::<ScanState, Diagnostic>(final(self).scan_st()),
            !old(self).parser.had_error && final(self).parser.had_error ==> sp_advance(
                old(self).source@,
                old(self).scan_st(),
            ) is Err && final(self).parser.diagnostics@ == seq![
                sp_advance(old(self).source@, old(self).scan_st())->Err_0,
            ],
    {
        self.parser.previous = self.parser.current;

        loop
            invariant
                !self.parser.had_error ==> self.scanner == old(self).scanner,
                !old(self).parser.had_error && self.parser.had_error ==> sp_advance(
                    old(self).source@,
                    old(self).scan_st(),
                ) is Err && self.parser.diagnostics@ == seq![
                    sp_advance(old(self).source@, old(self).scan_st())->Err_0,
                ],
                self.inv(),
                self.parser.previous == old(self).parser.current,
                self.source == old(self).source,
                self.chunk == old(self).chunk,
                self.scanner.cursor() >= old(self).scanner.cursor(),
                self.scanner.cursor() > old(self).scanner.cursor() || self.parser.current == old(
                    self,
                ).parser.current,
                old(self).parser.had_error ==> self.parser.had_error,
                old(self).parser.had_error ==> self.parser.diagnostics
                    == old(self).parser.diagnostics,
                !self.parser.had_error ==> self.parser == (Parser {
                    previous: old(self).parser.current,
                    current: self.parser.current,
                    ..old(self).parser
                }),
            decreases self.source@.len() - self.scanner.cursor(),
        {
            let token = self.scanner.scan_token(self.source.as_slice());
            let is_error = match token.token_type {
                TokenType::Error => true,
                _ => false,
            };
            self.parser.current = Some(token);
            if !is_error {
                break ;
            }
            self.error_at_current(Message::UnreadableToken);
        }
    }

    /// Reports an error at the current token, unless panic mode already
    /// suppresses reports; either way the compilation is marked failed.
    fn error_at_current(&mut self, message: Message)
        requires
            old(self).inv_core(),
            old(self).parser.current is Some,
        ensures
            final(self).inv(),
            final(self).parser.had_error,
            final(self).parser.current == old(self).parser.current,
            final(self).parser.previous == old(self).parser.previous,
            final(self).source == old(self).source,
            final(self).chunk == old(self).chunk,
            final(self).scanner == old(self).scanner,
            old(self).parser.panic_mode ==> final(self).parser.diagnostics
                == old(self).parser.diagnostics,
            !old(self).parser.panic_mode ==> final(self).parser.diagnostics@
                == old(self).parser.diagnostics@.push(
                diag_at_current(old(self).parser.current.unwrap(), message),
            ),
    {
        if self.parser.panic_mode {
            return ;
        }
        self.parser.panic_mode = true;

        let token = match self.parser.current {
            Some(t) => t,
            None => {
                proof {
                    assert(false);
                }
                return ;
            },
        };
        let at = match token.token_type {
            TokenType::Eof => ErrorAt::End,
            _ => ErrorAt::Lexeme(Span { start: token.label_start, end: token.label_end }),
        };
        self.parser.diagnostics.push(Diagnostic { line: token.line, at, message });
        self.parser.had_error = true;
    }

    /// Reports an error at the previous token, unless panic mode already
    /// suppresses reports; either way the compilation is marked failed.
    fn error(&mut self, message: Message)
        requires
            old(self).inv_core(),
            old(self).parser.previous is Some,
        ensures
            final(self).inv(),
            final(self).parser.had_error,
            final(self).parser.current == old(self).parser.current,
            final(self).parser.previous == old(self).parser.previous,
            final(self).source == old(self).source,
            final(self).chunk == old(self).chunk,
            final(self).scanner == old(self).scanner,
            old(self).parser.panic_mode ==> final(self).parser.diagnostics
                == old(self).parser.diagnostics,
            !old(self).parser.panic_mode ==> final(self).parser.diagnostics@
                == old(self).parser.diagnostics@.push(
                diag_at_previous(old(self).parser.previous.unwrap(), message),
            ),
    {
        if self.parser.panic_mode {
            return ;
        }
        self.parser.panic_mode = true;

        let token = match self.parser.previous {
            Some(t) => t,
            None => {
                proof {
                    assert(false);
                }
                return ;
            },
        };
        let at = match token.token_type {
            TokenType::Eof => ErrorAt::End,
            TokenType::Error => ErrorAt::Unreadable,
            _ => ErrorAt::Lexeme(Span { start: token.label_start, end: token.label_end }),
        };
        self.parser.diagnostics.push(Diagnostic { line: token.line, at, message });
        self.parser.had_error = true;
    }

    /// Consumes the current token when it has the expected kind, and reports
    /// the given error otherwise.
    fn consume(&mut self, token_type: TokenType, message: Message)
        requires
            old(self).inv(),
            old(self).parser.current is Some,
        ensures
            final(self).inv(),
            final(self).parser.current is Some,
            final(self).source == old(self).source,
            final(self).chunk == old(self).chunk,
            final(self).measure() <= old(self).measure(),
            old(self).parser.had_error ==> final(self).parser.had_error,
            old(self).parser.had_error ==> final(self).parser.diagnostics
                == old(self).parser.diagnostics,
            old(self).parser.previous is Some ==> final(self).parser.previous is Some,
            !final(self).parser.had_error ==> old(self).parser.current.unwrap().token_type
                == token_type && final(self).parser.previous == old(self).parser.current,
            !old(self).parser.had_error && !final(self).parser.had_error ==> sp_consume(
                old(self).source@,
                old(self).scan_st(),
                token_type,
                message,
            ) == Ok::<ScanState, Diagnostic>(final(self).scan_st()),
            !old(self).parser.had_error && final(self).parser.had_error ==> sp_consume(
                old(self).source@,
                old(self).scan_st(),
                token_type,
                message,
            ) is Err && final(self).parser.diagnostics@ == seq![
                sp_consume(old(self).source@, old(self).scan_st(), token_type, message)->Err_0,
            ],
    {
        let matches_expected = match self.parser.current {
            Some(t) => t.token_type == token_type,
            None => false,
        };
        if matches_expected {
            self.advance();
            return ;
        }

        self.error_at_current(message);
    }
}

} // verus!

verus! {

/// The chunk grew append-only: existing code bytes, lines and literal spans
/// are untouched, and the value pool stays empty until the embedder links it.
pub open spec fn chunk_extends(c0: Chunk, c1: Chunk) -> bool {
    &&& c0.code@.len() <= c1.code@.len()
    &&& (forall|k: int| 0 <= k < c0.code@.len() ==> c1.code@[k] == c0.code@[k])
    &&& c0.literals@.len() <= c1.literals@.len()
    &&& (forall|k: int| 0 <= k < c0.literals@.len() ==> c1.literals@[k] == c0.literals@[k])
    &&& c1.constants@ == c0.constants@
    &&& c0.lines@.len() <= c1.lines@.len()
    &&& (forall|k: int| 0 <= k < c0.lines@.len() ==> c1.lines@[k] == c0.lines@[k])
}

/// The bytes appended between the two chunk states form a value segment:
/// from any starting depth they execute safely and leave exactly one more
/// value on the stack. Every complete sub-expression compiles to one.
pub open spec fn grew_value_seg(c0: Chunk, c1: Chunk) -> bool {
    forall|d: int|
        d >= 0 ==> seg_wf(
            c1.code@,
            c1.literals@.len() as int,
            c0.code@.len() as int,
            c1.code@.len() as int,
            d,
        ) == Some(d + 1)
}

/// The bytes appended between the two chunk states form an operator segment:
/// from any depth of at least one they execute safely and leave the depth
/// unchanged. A binary operator's right operand plus its opcode is one.
pub open spec fn grew_op_seg(c0: Chunk, c1: Chunk) -> bool {
    forall|d: int|
        d >= 1 ==> seg_wf(
            c1.code@,
            c1.literals@.len() as int,
            c0.code@.len() as int,
            c1.code@.len() as int,
            d,
        ) == Some(d)
}

impl Compiler {
    /// Appends one bytecode byte, recording the previous token's line as the
    /// byte's source line: every emitted instruction is attributed to the
    /// token that caused its emission.
    fn emit_byte(&mut self, byte: u8)
        requires
            old(self).inv(),
            old(self).parser.previous is Some,
        ensures
            final(self).inv(),
            final(self).chunk.code@ == old(self).chunk.code@.push(byte),
            final(self).chunk.lines@ == old(self).chunk.lines@.push(
                old(self).parser.previous.unwrap().line as u64,
            ),
            final(self).chunk.constants == old(self).chunk.constants,
            final(self).chunk.literals == old(self).chunk.literals,
            final(self).scanner == old(self).scanner,
            final(self).parser == old(self).parser,
            final(self).source == old(self).source,
    {
        let line = match self.parser.previous {
            Some(t) => t.line,
            None => {
                proof {
                    assert(false);
                }
                0
            },
        };
        self.chunk.write_chunk(byte, line as u64);
    }

    /// Appends one opcode byte, recording the given token line: an operator
    /// instruction is attributed to the operator's own token, which stands
    /// before the operand code emitted ahead of it.
    fn emit_byte_at(&mut self, byte: u8, line: usize)
        requires
            old(self).inv(),
        ensures
            final(self).inv(),
            final(self).chunk.code@ == old(self).chunk.code@.push(byte),
            final(self).chunk.lines@ == old(self).chunk.lines@.push(line as u64),
            final(self).chunk.constants == old(self).chunk.constants,
            final(self).chunk.literals == old(self).chunk.literals,
            final(self).scanner == old(self).scanner,
            final(self).parser == old(self).parser,
            final(self).source == old(self).source,
    {
        self.chunk.write_chunk(byte, line as u64);
    }

    fn emit_bytes(&mut self, byte1: u8, byte2: u8)
        requires
            old(self).inv(),
            old(self).parser.previous is Some,
        ensures
            final(self).inv(),
            final(self).chunk.code@ == old(self).chunk.code@.push(byte1).push(byte2),
            final(self).chunk.lines@ == old(self).chunk.lines@.push(
                old(self).parser.previous.unwrap().line as u64,
            ).push(old(self).parser.previous.unwrap().line as u64),
            final(self).chunk.constants == old(self).chunk.constants,
            final(self).chunk.literals == old(self).chunk.literals,
            final(self).scanner == old(self).scanner,
            final(self).parser == old(self).parser,
            final(self).source == old(self).source,
    {
        self.emit_byte(byte1);
        self.emit_byte(byte2);
    }

    /// Closes the chunk with the return instruction that surfaces the result.
    fn emit_return(&mut self)
        requires
            old(self).inv(),
            old(self).parser.previous is Some,
        ensures
            final(self).inv(),
            final(self).chunk.code@ == old(self).chunk.code@.push(OpCode::Return.spec_byte()),
            final(self).chunk.lines@ == old(self).chunk.lines@.push(
                old(self).parser.previous.unwrap().line as u64,
            ),
            final(self).chunk.constants == old(self).chunk.constants,
            final(self).chunk.literals == old(self).chunk.literals,
            final(self).scanner == old(self).scanner,
            final(self).parser == old(self).parser,
            final(self).source == old(self).source,
    {
        self.emit_byte(OpCode::Return.to_byte());
    }

    /// Registers a literal's span as a new constant slot and returns its
    /// index; a pool already holding the largest representable index fails
    /// the compilation, since the operand is a single byte.
    fn make_constant(&mut self, span: Span) -> (index: u8)
        requires
            old(self).inv(),
            old(self).parser.previous is Some,
            span.start <= span.end <= old(self).source@.len(),
        ensures
            final(self).inv(),
            final(self).chunk.literals@ == old(self).chunk.literals@.push(span),
            final(self).chunk.code == old(self).chunk.code,
            final(self).chunk.lines == old(self).chunk.lines,
            final(self).chunk.constants == old(self).chunk.constants,
            final(self).scanner == old(self).scanner,
            final(self).parser.current == old(self).parser.current,
            final(self).parser.previous == old(self).parser.previous,
            final(self).source == old(self).source,
            old(self).parser.had_error ==> final(self).parser.had_error,
            old(self).parser.had_error ==> final(self).parser.diagnostics
                == old(self).parser.diagnostics,
            !final(self).parser.had_error ==> {
                &&& old(self).chunk.literals@.len() <= 255
                &&& index as int == old(self).chunk.literals@.len()
            },
            !old(self).parser.had_error && final(self).parser.had_error ==> old(
                self,
            ).chunk.literals@.len() > 255 && final(self).parser.diagnostics@ == seq![
                diag_at_previous(old(self).parser.previous.unwrap(), Message::TooManyConstants),
            ],
    {
        let constant = self.chunk.add_literal(span);
        if constant > 255 {
            self.error(Message::TooManyConstants);
            return 0;
        }
        constant as u8
    }

    /// Emits the two-byte instruction that pushes the given literal's value.
    fn emit_constant(&mut self, span: Span)
        requires
            old(self).inv(),
            old(self).parser.previous is Some,
            span.start <= span.end <= old(self).source@.len(),
        ensures
            final(self).inv(),
            chunk_extends(old(self).chunk, final(self).chunk),
            final(self).scanner == old(self).scanner,
            final(self).parser.current == old(self).parser.current,
            final(self).parser.previous == old(self).parser.previous,
            final(self).source == old(self).source,
            old(self).parser.had_error ==> final(self).parser.had_error,
            old(self).parser.had_error ==> final(self).parser.diagnostics
                == old(self).parser.diagnostics,
            !final(self).parser.had_error ==> grew_value_seg(old(self).chunk, final(self).chunk),
            !final(self).parser.had_error ==> ({
                &&& old(self).chunk.literals@.len() <= 255
                &&& final(self).chunk.code@ == old(self).chunk.code@.push(0u8).push(
                    (old(self).chunk.literals@.len() as u8),
                )
                &&& final(self).chunk.lines@ == old(self).chunk.lines@.push(
                    old(self).parser.previous.unwrap().line as u64,
                ).push(old(self).parser.previous.unwrap().line as u64)
                &&& final(self).chunk.literals@ == old(self).chunk.literals@.push(span)
            }),
            !old(self).parser.had_error && final(self).parser.had_error ==> old(
                self,
            ).chunk.literals@.len() > 255 && final(self).parser.diagnostics@ == seq![
                diag_at_previous(old(self).parser.previous.unwrap(), Message::TooManyConstants),
            ],
    {
        let constant = self.make_constant(span);
        let ghost c0 = old(self).chunk;
        self.emit_bytes(OpCode::Constant.to_byte(), constant);
        proof {
            let c1 = self.chunk;
            let n0 = c0.code@.len() as int;
            let nlit = c1.literals@.len() as int;
            if !self.parser.had_error {
                assert forall|d: int| d >= 0 implies #[trigger] seg_wf(c1.code@, nlit, n0, n0 + 2, d)
                    == Some(d + 1) by {
                    assert(seg_wf(c1.code@, nlit, n0 + 2, n0 + 2, d + 1) == Some(d + 1));
                    assert(OpCode::spec_from_byte(c1.code@[n0]) == Some(OpCode::Constant));
                }
            }
        }
    }

    /// Compiles a numeric literal: the previous token's lexeme becomes a
    /// constant slot, and the instruction to push it is emitted.
    fn number(&mut self)
        requires
            old(self).inv(),
            old(self).parser.previous is Some,
        ensures
            final(self).inv(),
            chunk_extends(old(self).chunk, final(self).chunk),
            final(self).scanner == old(self).scanner,
            final(self).parser.current == old(self).parser.current,
            final(self).parser.previous == old(self).parser.previous,
            final(self).source == old(self).source,
            old(self).parser.had_error ==> final(self).parser.had_error,
            old(self).parser.had_error ==> final(self).parser.diagnostics
                == old(self).parser.diagnostics,
            !final(self).parser.had_error ==> grew_value_seg(old(self).chunk, final(self).chunk),
            !old(self).parser.had_error && final(self).parser.had_error ==> sp_number(
                old(self).scan_st(),
                old(self).chunk.literals@.len() as int,
            ) is Err && final(self).parser.diagnostics@ == seq![
                sp_number(old(self).scan_st(), old(self).chunk.literals@.len() as int)->Err_0,
            ],
            !old(self).parser.had_error && !final(self).parser.had_error ==> sp_number(
                old(self).scan_st(),
                old(self).chunk.literals@.len() as int,
            ) == Ok::<Emitted, Diagnostic>(Emitted {
                st: final(self).scan_st(),
                code: final(self).chunk.code@.skip(old(self).chunk.code@.len() as int),
                lines: final(self).chunk.lines@.skip(old(self).chunk.lines@.len() as int),
                literals: final(self).chunk.literals@.skip(old(self).chunk.literals@.len() as int),
            }),
    {
        let token = match self.parser.previous {
            Some(t) => t,
            None => {
                proof {
                    assert(false);
                }
                return ;
            },
        };
        let span = Span { start: token.label_start, end: token.label_end };
        self.emit_constant(span);
        proof {
            if !old(self).parser.had_error && !self.parser.had_error {
                let n0 = old(self).chunk.code@.len() as int;
                let l0 = old(self).chunk.lines@.len() as int;
                let q0 = old(self).chunk.literals@.len() as int;
                assert(self.chunk.code@.skip(n0) =~= seq![0u8, (q0 as u8)]);
                assert(self.chunk.lines@.skip(l0) =~= seq![
                    token.line as u64,
                    token.line as u64,
                ]);
                assert(self.chunk.literals@.skip(q0) =~= seq![span]);
            }
        }
    }
}

} // verus!

verus! {


/// One step of the infix loop, folded into the specification: when the loop
/// consumes an operator that binds strongly enough and compiles its right
/// operand, the specification's loop takes the same step, and the operator
/// segment joins the accumulated emission.
#[verifier::rlimit(100)]
proof fn lemma_loop_fold(
    s: Seq<u8>,
    st0: ScanState,
    lvl: int,
    n0: int,
    l0: int,
    q0: int,
    st_pre: ScanState,
    c_pre: Chunk,
    st_adv: ScanState,
    st_now: ScanState,
    c_now: Chunk,
)
    requires
        sp_prec(s, st0, lvl, q0) == (match sp_loop(s, st_pre, lvl, c_pre.literals@.len() as int) {
            Err(d) => Err::<Emitted, Diagnostic>(d),
            Ok(r2) => Ok(sp_compose(Emitted {
                st: st_pre,
                code: c_pre.code@.skip(n0),
                lines: c_pre.lines@.skip(l0),
                literals: c_pre.literals@.skip(q0),
            }, r2)),
        }),
        st_wf(s, st_pre),
        1 <= lvl,
        st_pre.current is Some,
        lvl <= spec_get_rule(st_pre.current.unwrap().token_type).precedence.spec_level() as int,
        sp_advance(s, st_pre) == Ok::<ScanState, Diagnostic>(st_adv),
        st_adv.previous is Some,
        spec_get_rule(st_adv.previous.unwrap().token_type).infix == Some(InfixAction::Binary),
        sp_binary(s, st_adv, c_pre.literals@.len() as int) == Ok::<Emitted, Diagnostic>(Emitted {
            st: st_now,
            code: c_now.code@.skip(c_pre.code@.len() as int),
            lines: c_now.lines@.skip(c_pre.lines@.len() as int),
            literals: c_now.literals@.skip(c_pre.literals@.len() as int),
        }),
        st_wf(s, st_now),
        st_measure(s, st_now) <= st_measure(s, st_adv),
        chunk_extends(c_pre, c_now),
        0 <= n0 <= c_pre.code@.len(),
        0 <= l0 <= c_pre.lines@.len(),
        0 <= q0 <= c_pre.literals@.len(),
    ensures
        sp_prec(s, st0, lvl, q0) == (match sp_loop(s, st_now, lvl, c_now.literals@.len() as int) {
            Err(d) => Err::<Emitted, Diagnostic>(d),
            Ok(r2) => Ok(sp_compose(Emitted {
                st: st_now,
                code: c_now.code@.skip(n0),
                lines: c_now.lines@.skip(l0),
                literals: c_now.literals@.skip(q0),
            }, r2)),
        }),
{
    let nlit_pre = c_pre.literals@.len() as int;
    let delta = Emitted {
        st: st_now,
        code: c_now.code@.skip(c_pre.code@.len() as int),
        lines: c_now.lines@.skip(c_pre.lines@.len() as int),
        literals: c_now.literals@.skip(c_pre.literals@.len() as int),
    };
    assert(nlit_pre + delta.literals.len() == c_now.literals@.len());
    assert(sp_loop(s, st_pre, lvl, nlit_pre) == (match sp_loop(
        s,
        st_now,
        lvl,
        c_now.literals@.len() as int,
    ) {
        Err(d) => Err::<Emitted, Diagnostic>(d),
        Ok(r2) => Ok(sp_compose(delta, r2)),
    }));
    let acc_pre = Emitted {
        st: st_pre,
        code: c_pre.code@.skip(n0),
        lines: c_pre.lines@.skip(l0),
        literals: c_pre.literals@.skip(q0),
    };
    let acc_now = Emitted {
        st: st_now,
        code: c_now.code@.skip(n0),
        lines: c_now.lines@.skip(l0),
        literals: c_now.literals@.skip(q0),
    };
    assert(acc_now.code =~= acc_pre.code + delta.code);
    assert(acc_now.lines =~= acc_pre.lines + delta.lines);
    assert(acc_now.literals =~= acc_pre.literals + delta.literals);
    let lr = sp_loop(s, st_now, lvl, c_now.literals@.len() as int);
    if lr is Ok {
        let r2 = lr->Ok_0;
        assert(acc_pre.code + (delta.code + r2.code) =~= acc_now.code + r2.code);
        assert(acc_pre.lines + (delta.lines + r2.lines) =~= acc_now.lines + r2.lines);
        assert(acc_pre.literals + (delta.literals + r2.literals) =~= acc_now.literals
            + r2.literals);
        assert(sp_compose(acc_pre, sp_compose(delta, r2)) == sp_compose(acc_now, r2));
    }
}

impl Compiler {
    /// Looks up the parse rule for a token kind.
    fn get_rule(&self, token_type: TokenType) -> (r: ParseRule)
        ensures
            r == spec_get_rule(token_type),
    {
        match token_type {
            TokenType::LeftParen => ParseRule {
                prefix: Some(PrefixAction::Grouping),
                infix: None,
                precedence: Precedence::Lowest,
            },
            TokenType::Minus => ParseRule {
                prefix: Some(PrefixAction::Unary),
                infix: Some(InfixAction::Binary),
                precedence: Precedence::Term,
            },
            TokenType::Plus => ParseRule {
                prefix: None,
                infix: Some(InfixAction::Binary),
                precedence: Precedence::Term,
            },
            TokenType::Slash => ParseRule {
                prefix: None,
                infix: Some(InfixAction::Binary),
                precedence: Precedence::Factor,
            },
            TokenType::Star => ParseRule {
                prefix: None,
                infix: Some(InfixAction::Binary),
                precedence: Precedence::Factor,
            },
            TokenType::Number => ParseRule {
                prefix: Some(PrefixAction::Number),
                infix: None,
                precedence: Precedence::Lowest,
            },
            _ => ParseRule { prefix: None, infix: None, precedence: Precedence::Lowest },
        }
    }

    /// Parses one expression at the given minimum binding strength and emits
    /// its code: one prefix action, then every following infix operator that
    /// binds at least that strongly. On success the emitted bytes are a
    /// value segment — they push exactly one result from any starting depth.
    #[verifier::loop_isolation(false)]
    #[verifier::rlimit(100)]
    fn parse_precedence(&mut self, precedence: Precedence)
        requires
            old(self).inv(),
            old(self).parser.current is Some,
            precedence.spec_level() >= 1,
        ensures
            final(self).inv(),
            final(self).parser.current is Some,
            final(self).parser.previous is Some,
            final(self).source == old(self).source,
            chunk_extends(old(self).chunk, final(self).chunk),
            final(self).measure() <= old(self).measure(),
            old(self).parser.had_error ==> final(self).parser.had_error,
            old(self).parser.had_error ==> final(self).parser.diagnostics
                == old(self).parser.diagnostics,
            !final(self).parser.had_error ==> grew_value_seg(old(self).chunk, final(self).chunk),
            !old(self).parser.had_error && final(self).parser.had_error ==> sp_prec(
                old(self).source@,
                old(self).scan_st(),
                precedence.spec_level() as int,
                old(self).chunk.literals@.len() as int,
            ) is Err && final(self).parser.diagnostics@ == seq![
                sp_prec(
                    old(self).source@,
                    old(self).scan_st(),
                    precedence.spec_level() as int,
                    old(self).chunk.literals@.len() as int,
                )->Err_0,
            ],
            !old(self).parser.had_error && !final(self).parser.had_error ==> sp_prec(
                old(self).source@,
                old(self).scan_st(),
                precedence.spec_level() as int,
                old(self).chunk.literals@.len() as int,
            ) == Ok::<Emitted, Diagnostic>(Emitted {
                st: final(self).scan_st(),
                code: final(self).chunk.code@.skip(old(self).chunk.code@.len() as int),
                lines: final(self).chunk.lines@.skip(old(self).chunk.lines@.len() as int),
                literals: final(self).chunk.literals@.skip(old(self).chunk.literals@.len() as int),
            }),
        decreases old(self).measure(), 0int,
    {
        let ghost s = old(self).source@;
        let ghost st0 = old(self).scan_st();
        let ghost lvl = precedence.spec_level() as int;
        let ghost n0 = old(self).chunk.code@.len() as int;
        let ghost l0 = old(self).chunk.lines@.len() as int;
        let ghost q0 = old(self).chunk.literals@.len() as int;
        proof {
            assert(st_wf(s, st0));
        }
        self.advance();
        let ghost err_adv = self.parser.had_error;
        let prev_type = match self.parser.previous {
            Some(t) => t.token_type,
            None => {
                proof {
                    assert(false);
                }
                return ;
            },
        };
        let rule = self.get_rule(prev_type);
        let ghost st_mid = self.scan_st();
        match rule.prefix {
            Some(PrefixAction::Grouping) => {
                self.grouping();
            },
            Some(PrefixAction::Unary) => {
                self.unary();
            },
            Some(PrefixAction::Number) => {
                self.number();
            },
            None => {
                self.error(Message::ExpectExpression);
                proof {
                    if !old(self).parser.had_error {
                        assert(st_wf(s, st0));
                        if !err_adv {
                            assert(sp_advance(s, st0) == Ok::<ScanState, Diagnostic>(st_mid));
                        }
                        assert(sp_prec(s, st0, lvl, q0) is Err);
                        assert(self.parser.diagnostics@ == seq![sp_prec(s, st0, lvl, q0)->Err_0]);
                    }
                }
                return ;
            },
        }
        proof {
            if !old(self).parser.had_error && self.parser.had_error {
                assert(st_wf(s, st0));
                if !err_adv {
                    assert(sp_advance(s, st0) == Ok::<ScanState, Diagnostic>(st_mid));
                    assert(st_wf(s, st_mid));
                }
                assert(sp_prec(s, st0, lvl, q0) is Err);
                assert(self.parser.diagnostics@ == seq![sp_prec(s, st0, lvl, q0)->Err_0]);
            }
            if !old(self).parser.had_error && !self.parser.had_error {
                assert(st_wf(s, self.scan_st()));
                assert(sp_prec(s, st0, lvl, q0) == (match sp_loop(
                    s,
                    self.scan_st(),
                    lvl,
                    self.chunk.literals@.len() as int,
                ) {
                    Err(d) => Err::<Emitted, Diagnostic>(d),
                    Ok(r2) => Ok(sp_compose(Emitted {
                        st: self.scan_st(),
                        code: self.chunk.code@.skip(n0),
                        lines: self.chunk.lines@.skip(l0),
                        literals: self.chunk.literals@.skip(q0),
                    }, r2)),
                }));
            }
        }

        loop
            invariant
                self.inv(),
                self.parser.current is Some,
                self.parser.previous is Some,
                self.source == old(self).source,
                chunk_extends(old(self).chunk, self.chunk),
                self.measure() <= old(self).measure(),
                old(self).parser.had_error ==> self.parser.had_error,
                old(self).parser.had_error ==> self.parser.diagnostics
                    == old(self).parser.diagnostics,
                !self.parser.had_error ==> grew_value_seg(old(self).chunk, self.chunk),
                !old(self).parser.had_error && self.parser.had_error ==> sp_prec(
                    s,
                    st0,
                    lvl,
                    q0,
                ) is Err && self.parser.diagnostics@ == seq![sp_prec(s, st0, lvl, q0)->Err_0],
                !old(self).parser.had_error && !self.parser.had_error ==> sp_prec(s, st0, lvl, q0)
                    == (match sp_loop(s, self.scan_st(), lvl, self.chunk.literals@.len() as int) {
                    Err(d) => Err::<Emitted, Diagnostic>(d),
                    Ok(r2) => Ok(sp_compose(Emitted {
                        st: self.scan_st(),
                        code: self.chunk.code@.skip(n0),
                        lines: self.chunk.lines@.skip(l0),
                        literals: self.chunk.literals@.skip(q0),
                    }, r2)),
                }),
            decreases self.measure(),
        {
            let cur_type = match self.parser.current {
                Some(t) => t.token_type,
                None => {
                    proof {
                        assert(false);
                    }
                    return ;
                },
            };
            let current_rule = self.get_rule(cur_type);
            if precedence.level() > current_rule.precedence.level() {
                proof {
                    if !old(self).parser.had_error && !self.parser.had_error {
                        assert(st_wf(s, self.scan_st()));
                        let acc = Emitted {
                            st: self.scan_st(),
                            code: self.chunk.code@.skip(n0),
                            lines: self.chunk.lines@.skip(l0),
                            literals: self.chunk.literals@.skip(q0),
                        };
                        let empty = Emitted {
                            st: self.scan_st(),
                            code: Seq::empty(),
                            lines: Seq::empty(),
                            literals: Seq::empty(),
                        };
                        assert(sp_loop(s, self.scan_st(), lvl, self.chunk.literals@.len() as int)
                            == Ok::<Emitted, Diagnostic>(empty));
                        assert(acc.code + empty.code =~= acc.code);
                        assert(acc.lines + empty.lines =~= acc.lines);
                        assert(acc.literals + empty.literals =~= acc.literals);
                        assert(sp_compose(acc, empty) == acc);
                    }
                }
                break ;
            }
            let ghost c_pre = self.chunk;
            let ghost state_pre = *self;
            self.advance();
            let ghost err_adv2 = self.parser.had_error;
            let infix_prev = match self.parser.previous {
                Some(t) => t.token_type,
                None => {
                    proof {
                        assert(false);
                    }
                    return ;
                },
            };
            let ghost st_adv = self.scan_st();
            match self.get_rule(infix_prev).infix {
                Some(InfixAction::Binary) => {
                    self.binary();
                },
                None => {},
            }
            proof {
                if !old(self).parser.had_error && !state_pre.parser.had_error
                    && self.parser.had_error {
                    assert(st_wf(s, state_pre.scan_st()));
                    if !err_adv2 {
                        assert(sp_advance(s, state_pre.scan_st()) == Ok::<
                            ScanState,
                            Diagnostic,
                        >(st_adv));
                        assert(st_wf(s, st_adv));
                    }
                    assert(sp_loop(
                        s,
                        state_pre.scan_st(),
                        lvl,
                        c_pre.literals@.len() as int,
                    ) is Err);
                    assert(sp_prec(s, st0, lvl, q0) is Err);
                    assert(self.parser.diagnostics@ == seq![sp_prec(s, st0, lvl, q0)->Err_0]);
                }
                if !self.parser.had_error {
                    let c_now = self.chunk;
                    let n_old = old(self).chunk.code@.len() as int;
                    let n_pre = c_pre.code@.len() as int;
                    let n_now = c_now.code@.len() as int;
                    let nlit_pre = c_pre.literals@.len() as int;
                    let nlit_now = c_now.literals@.len() as int;
                    assert forall|d: int| d >= 0 implies #[trigger] seg_wf(
                        c_now.code@,
                        nlit_now,
                        n_old,
                        n_now,
                        d,
                    ) == Some(d + 1) by {
                        assert(seg_wf(c_pre.code@, nlit_pre, n_old, n_pre, d) == Some(d + 1));
                        lemma_seg_wf_stable(
                            c_pre.code@,
                            c_now.code@,
                            nlit_pre,
                            nlit_now,
                            n_old,
                            n_pre,
                            d,
                        );
                        assert(seg_wf(c_now.code@, nlit_now, n_pre, n_now, d + 1) == Some(d + 1));
                        lemma_seg_wf_compose(c_now.code@, nlit_now, n_old, n_pre, n_now, d, d + 1, d + 1);
                    }
                    if !old(self).parser.had_error {
                        assert(st_wf(s, state_pre.scan_st()));
                        assert(st_wf(s, st_adv));
                        assert(st_wf(s, self.scan_st()));
                        lemma_loop_fold(
                            s,
                            st0,
                            lvl,
                            n0,
                            l0,
                            q0,
                            state_pre.scan_st(),
                            c_pre,
                            st_adv,
                            self.scan_st(),
                            self.chunk,
                        );
                    }
                }
            }
        }
    }

    /// Parses one whole expression: the lowest level every expression has.
    fn expression(&mut self)
        requires
            old(self).inv(),
            old(self).parser.current is Some,
        ensures
            final(self).inv(),
            final(self).parser.current is Some,
            final(self).parser.previous is Some,
            final(self).source == old(self).source,
            chunk_extends(old(self).chunk, final(self).chunk),
            final(self).measure() <= old(self).measure(),
            old(self).parser.had_error ==> final(self).parser.had_error,
            old(self).parser.had_error ==> final(self).parser.diagnostics
                == old(self).parser.diagnostics,
            !final(self).parser.had_error ==> grew_value_seg(old(self).chunk, final(self).chunk),
            !old(self).parser.had_error && final(self).parser.had_error ==> sp_prec(
                old(self).source@,
                old(self).scan_st(),
                1int,
                old(self).chunk.literals@.len() as int,
            ) is Err && final(self).parser.diagnostics@ == seq![
                sp_prec(
                    old(self).source@,
                    old(self).scan_st(),
                    1int,
                    old(self).chunk.literals@.len() as int,
                )->Err_0,
            ],
            !old(self).parser.had_error && !final(self).parser.had_error ==> sp_prec(
                old(self).source@,
                old(self).scan_st(),
                1int,
                old(self).chunk.literals@.len() as int,
            ) == Ok::<Emitted, Diagnostic>(Emitted {
                st: final(self).scan_st(),
                code: final(self).chunk.code@.skip(old(self).chunk.code@.len() as int),
                lines: final(self).chunk.lines@.skip(old(self).chunk.lines@.len() as int),
                literals: final(self).chunk.literals@.skip(old(self).chunk.literals@.len() as int),
            }),
        decreases old(self).measure(), 2int,
    {
        self.parse_precedence(Precedence::Assignment);
    }

    /// Parses a parenthesized sub-expression; the closing parenthesis is
    /// required. Grouping emits no code of its own.
    fn grouping(&mut self)
        requires
            old(self).inv(),
            old(self).parser.current is Some,
        ensures
            final(self).inv(),
            final(self).parser.current is Some,
            final(self).parser.previous is Some,
            final(self).source == old(self).source,
            chunk_extends(old(self).chunk, final(self).chunk),
            final(self).measure() <= old(self).measure(),
            old(self).parser.had_error ==> final(self).parser.had_error,
            old(self).parser.had_error ==> final(self).parser.diagnostics
                == old(self).parser.diagnostics,
            !final(self).parser.had_error ==> grew_value_seg(old(self).chunk, final(self).chunk),
            !old(self).parser.had_error && final(self).parser.had_error ==> sp_grouping(
                old(self).source@,
                old(self).scan_st(),
                old(self).chunk.literals@.len() as int,
            ) is Err && final(self).parser.diagnostics@ == seq![
                sp_grouping(
                    old(self).source@,
                    old(self).scan_st(),
                    old(self).chunk.literals@.len() as int,
                )->Err_0,
            ],
            !old(self).parser.had_error && !final(self).parser.had_error ==> sp_grouping(
                old(self).source@,
                old(self).scan_st(),
                old(self).chunk.literals@.len() as int,
            ) == Ok::<Emitted, Diagnostic>(Emitted {
                st: final(self).scan_st(),
                code: final(self).chunk.code@.skip(old(self).chunk.code@.len() as int),
                lines: final(self).chunk.lines@.skip(old(self).chunk.lines@.len() as int),
                literals: final(self).chunk.literals@.skip(old(self).chunk.literals@.len() as int),
            }),
        decreases old(self).measure(), 3int,
    {
        self.expression();
        let ghost mid = *self;
        self.consume(TokenType::RightParen, Message::ExpectRightParen);
        proof {
            if !old(self).parser.had_error {
                assert(st_wf(old(self).source@, old(self).scan_st()));
                if self.parser.had_error && !mid.parser.had_error {
                    // The expression parsed; the closing parenthesis did not.
                    assert(sp_consume(
                        old(self).source@,
                        mid.scan_st(),
                        TokenType::RightParen,
                        Message::ExpectRightParen,
                    ) is Err);
                }
            }
        }
    }

    /// Parses a unary operator: the operand is compiled first, then the
    /// negation instruction, so the operand's value is on the stack when the
    /// negation executes.
    fn unary(&mut self)
        requires
            old(self).inv(),
            old(self).parser.current is Some,
            old(self).parser.previous is Some,
        ensures
            final(self).inv(),
            final(self).parser.current is Some,
            final(self).parser.previous is Some,
            final(self).source == old(self).source,
            chunk_extends(old(self).chunk, final(self).chunk),
            final(self).measure() <= old(self).measure(),
            old(self).parser.had_error ==> final(self).parser.had_error,
            old(self).parser.had_error ==> final(self).parser.diagnostics
                == old(self).parser.diagnostics,
            !final(self).parser.had_error ==> grew_value_seg(old(self).chunk, final(self).chunk),
            !old(self).parser.had_error && final(self).parser.had_error ==> sp_unary(
                old(self).source@,
                old(self).scan_st(),
                old(self).chunk.literals@.len() as int,
            ) is Err && final(self).parser.diagnostics@ == seq![
                sp_unary(
                    old(self).source@,
                    old(self).scan_st(),
                    old(self).chunk.literals@.len() as int,
                )->Err_0,
            ],
            !old(self).parser.had_error && !final(self).parser.had_error ==> sp_unary(
                old(self).source@,
                old(self).scan_st(),
                old(self).chunk.literals@.len() as int,
            ) == Ok::<Emitted, Diagnostic>(Emitted {
                st: final(self).scan_st(),
                code: final(self).chunk.code@.skip(old(self).chunk.code@.len() as int),
                lines: final(self).chunk.lines@.skip(old(self).chunk.lines@.len() as int),
                literals: final(self).chunk.literals@.skip(old(self).chunk.literals@.len() as int),
            }),
        decreases old(self).measure(), 1int,
    {
        let (operator_type, operator_line) = match self.parser.previous {
            Some(t) => (t.token_type, t.line),
            None => {
                proof {
                    assert(false);
                }
                return ;
            },
        };

        // Compile the operand.
        self.parse_precedence(Precedence::Unary);

        // Emit the operator instruction, recorded at the operator's own line.
        match operator_type {
            TokenType::Minus => {
                let ghost c1 = self.chunk;
                self.emit_byte_at(OpCode::Negate.to_byte(), operator_line);
                proof {
                    if !old(self).parser.had_error && self.parser.had_error {
                        assert(st_wf(old(self).source@, old(self).scan_st()));
                    }
                    if !self.parser.had_error {
                        let c2 = self.chunk;
                        let n_old = old(self).chunk.code@.len() as int;
                        let n1 = c1.code@.len() as int;
                        let nlit1 = c1.literals@.len() as int;
                        let nlit2 = c2.literals@.len() as int;
                        assert forall|d: int| d >= 0 implies #[trigger] seg_wf(
                            c2.code@,
                            nlit2,
                            n_old,
                            n1 + 1,
                            d,
                        ) == Some(d + 1) by {
                            assert(seg_wf(c1.code@, nlit1, n_old, n1, d) == Some(d + 1));
                            lemma_seg_wf_stable(c1.code@, c2.code@, nlit1, nlit2, n_old, n1, d);
                            assert(seg_wf(c2.code@, nlit2, n1 + 1, n1 + 1, d + 1) == Some(d + 1));
                            lemma_seg_wf_compose(c2.code@, nlit2, n_old, n1, n1 + 1, d, d + 1, d + 1);
                        }
                        if !old(self).parser.had_error {
                            let l_old = old(self).chunk.lines@.len() as int;
                            let q_old = old(self).chunk.literals@.len() as int;
                            assert(st_wf(old(self).source@, old(self).scan_st()));
                            assert(sp_prec(
                                old(self).source@,
                                old(self).scan_st(),
                                8int,
                                q_old,
                            ) is Ok);
                            assert(self.chunk.code@.skip(n_old) =~= c1.code@.skip(n_old).push(
                                5u8,
                            ));
                            assert(self.chunk.lines@.skip(l_old) =~= c1.lines@.skip(l_old).push(
                                old(self).parser.previous.unwrap().line as u64,
                            ));
                            assert(self.chunk.literals@.skip(q_old) =~= c1.literals@.skip(q_old));
                        }
                    }
                }
            },
            _ => {
                proof {
                    if !old(self).parser.had_error {
                        assert(st_wf(old(self).source@, old(self).scan_st()));
                    }
                }
            },
        }
    }

    /// Parses the right operand of a binary operator one level tighter than
    /// the operator itself — which makes same-level chains left-associative
    /// — then emits the operator's instruction.
    fn binary(&mut self)
        requires
            old(self).inv(),
            old(self).parser.current is Some,
            old(self).parser.previous is Some,
            spec_get_rule(old(self).parser.previous.unwrap().token_type).infix == Some(
                InfixAction::Binary,
            ),
        ensures
            final(self).inv(),
            final(self).parser.current is Some,
            final(self).parser.previous is Some,
            final(self).source == old(self).source,
            chunk_extends(old(self).chunk, final(self).chunk),
            final(self).measure() <= old(self).measure(),
            old(self).parser.had_error ==> final(self).parser.had_error,
            old(self).parser.had_error ==> final(self).parser.diagnostics
                == old(self).parser.diagnostics,
            !final(self).parser.had_error ==> grew_op_seg(old(self).chunk, final(self).chunk),
            !old(self).parser.had_error && final(self).parser.had_error ==> sp_binary(
                old(self).source@,
                old(self).scan_st(),
                old(self).chunk.literals@.len() as int,
            ) is Err && final(self).parser.diagnostics@ == seq![
                sp_binary(
                    old(self).source@,
                    old(self).scan_st(),
                    old(self).chunk.literals@.len() as int,
                )->Err_0,
            ],
            !old(self).parser.had_error && !final(self).parser.had_error ==> sp_binary(
                old(self).source@,
                old(self).scan_st(),
                old(self).chunk.literals@.len() as int,
            ) == Ok::<Emitted, Diagnostic>(Emitted {
                st: final(self).scan_st(),
                code: final(self).chunk.code@.skip(old(self).chunk.code@.len() as int),
                lines: final(self).chunk.lines@.skip(old(self).chunk.lines@.len() as int),
                literals: final(self).chunk.literals@.skip(old(self).chunk.literals@.len() as int),
            }),
        decreases old(self).measure(), 1int,
    {
        let (operator_type, operator_line) = match self.parser.previous {
            Some(t) => (t.token_type, t.line),
            None => {
                proof {
                    assert(false);
                }
                return ;
            },
        };
        let rule = self.get_rule(operator_type);
        self.parse_precedence(rule.precedence.one_higher());

        let ghost c1 = self.chunk;
        // Emit the operator instruction, recorded at the operator's own line.
        match operator_type {
            TokenType::Plus => {
                self.emit_byte_at(OpCode::Add.to_byte(), operator_line);
            },
            TokenType::Minus => {
                self.emit_byte_at(OpCode::Subtract.to_byte(), operator_line);
            },
            TokenType::Star => {
                self.emit_byte_at(OpCode::Multiply.to_byte(), operator_line);
            },
            TokenType::Slash => {
                self.emit_byte_at(OpCode::Divide.to_byte(), operator_line);
            },
            _ => {},
        }
        proof {
            if !old(self).parser.had_error && self.parser.had_error {
                assert(st_wf(old(self).source@, old(self).scan_st()));
            }
            if !old(self).parser.had_error && !self.parser.had_error {
                let n_old = old(self).chunk.code@.len() as int;
                let l_old = old(self).chunk.lines@.len() as int;
                let q_old = old(self).chunk.literals@.len() as int;
                let opbyte: u8 = if operator_type == TokenType::Plus {
                    1u8
                } else if operator_type == TokenType::Minus {
                    2u8
                } else if operator_type == TokenType::Star {
                    3u8
                } else {
                    4u8
                };
                assert(st_wf(old(self).source@, old(self).scan_st()));
                assert(self.chunk.code@.skip(n_old) =~= c1.code@.skip(n_old).push(opbyte));
                assert(self.chunk.lines@.skip(l_old) =~= c1.lines@.skip(l_old).push(
                    old(self).parser.previous.unwrap().line as u64,
                ));
                assert(self.chunk.literals@.skip(q_old) =~= c1.literals@.skip(q_old));
            }
            if !self.parser.had_error {
                let c2 = self.chunk;
                let n_old = old(self).chunk.code@.len() as int;
                let n1 = c1.code@.len() as int;
                let nlit1 = c1.literals@.len() as int;
                let nlit2 = c2.literals@.len() as int;
                assert forall|d: int| d >= 1 implies #[trigger] seg_wf(
                    c2.code@,
                    nlit2,
                    n_old,
                    n1 + 1,
                    d,
                ) == Some(d) by {
                    assert(seg_wf(c1.code@, nlit1, n_old, n1, d) == Some(d + 1));
                    lemma_seg_wf_stable(c1.code@, c2.code@, nlit1, nlit2, n_old, n1, d);
                    assert(seg_wf(c2.code@, nlit2, n1 + 1, n1 + 1, d) == Some(d));
                    lemma_seg_wf_compose(c2.code@, nlit2, n_old, n1, n1 + 1, d, d + 1, d);
                }
            }
        }
    }

    /// Finishes a compilation by emitting the trailing return instruction.
    fn end_compiler(&mut self)
        requires
            old(self).inv(),
            old(self).parser.previous is Some,
        ensures
            final(self).inv(),
            final(self).chunk.code@ == old(self).chunk.code@.push(OpCode::Return.spec_byte()),
            final(self).chunk.lines@ == old(self).chunk.lines@.push(
                old(self).parser.previous.unwrap().line as u64,
            ),
            final(self).chunk.constants == old(self).chunk.constants,
            final(self).chunk.literals == old(self).chunk.literals,
            final(self).parser == old(self).parser,
            final(self).source == old(self).source,
    {
        self.emit_return();
    }

    /// Compiles one arithmetic expression into a chunk.
    ///
    /// Compilation succeeds exactly when `sp_compile` accepts the source,
    /// and then the chunk's code, lines and literal spans are exactly what
    /// `sp_compile` says: the output is a function of the source text alone,
    /// so compiling the same source twice yields identical bytecode, and
    /// every byte's recorded line is the line of the token that caused its
    /// emission — a literal's own line for its constant instruction, the
    /// operator's own line for an operator instruction even when its operand
    /// stands on a later line, and the end of the input for the trailing
    /// return. A successful chunk is moreover well formed: its code decodes
    /// cleanly, every constant instruction references one of at most 256
    /// literal slots — one per numeric literal in the source
    /// (`lemma_pool_bound`) — a line is recorded for every byte, and
    /// execution from an empty stack is balanced: it can never pop an absent
    /// operand and halts on the trailing return instruction with exactly one
    /// value (`wf_from`). The constant pool itself is left empty: the
    /// embedder decodes each recorded literal span to a double and links its
    /// bit pattern with `add_constant`. On any error the chunk is discarded
    /// and exactly one diagnostic — the one `sp_compile` prescribes, with
    /// its line, location and message — is returned instead; later errors in
    /// panic mode are suppressed, never reported.
    pub fn compile(source: Vec<u8>) -> (r: Result<Chunk, CompileError>)
        requires
            source@.len() < usize::MAX,
        ensures
            match r {
                Result::Ok(chunk) => {
                    &&& wf_from(chunk.code@, chunk.literals@.len() as int, 0, 0)
                    &&& chunk.constants@.len() == 0
                    &&& chunk.literals@.len() <= 256
                    &&& chunk.lines@.len() == chunk.code@.len()
                    &&& (forall|k: int|
                        0 <= k < chunk.literals@.len() ==> (#[trigger] chunk.literals@[k]).start
                            <= chunk.literals@[k].end <= source@.len())
                    &&& sp_compile(source@) is Ok
                    &&& sp_compile(source@)->Ok_0.code == chunk.code@
                    &&& sp_compile(source@)->Ok_0.lines == chunk.lines@
                    &&& sp_compile(source@)->Ok_0.literals == chunk.literals@
                },
                Result::Err(e) => {
                    &&& sp_compile(source@) is Err
                    &&& e.diagnostics@.len() == 1
                    &&& e.diagnostics@ == seq![sp_compile(source@)->Err_0]
                },
            },
            (r is Ok) <==> sp_compile(source@) is Ok,
    {
        let mut compiler = Compiler {
            source,
            chunk: Chunk::new(),
            scanner: Scanner::new(),
            parser: Parser {
                current: None,
                previous: None,
                had_error: false,
                panic_mode: false,
                diagnostics: Vec::new(),
            },
        };

        let ghost st0 = compiler.scan_st();
        compiler.advance();
        let ghost st1 = compiler.scan_st();
        let ghost err_adv = compiler.parser.had_error;
        compiler.expression();
        let ghost c_expr = compiler.chunk;
        let ghost st_expr = compiler.scan_st();
        let ghost err_expr = compiler.parser.had_error;
        compiler.consume(TokenType::Eof, Message::ExpectEndOfExpression);
        let ghost st2 = compiler.scan_st();
        compiler.end_compiler();

        if compiler.parser.had_error {
            proof {
                assert(st0 == (ScanState { pos: 0, line: 1, previous: None, current: None }));
                if err_adv {
                    assert(sp_advance(source@, st0) is Err);
                } else {
                    assert(sp_advance(source@, st0) == Ok::<ScanState, Diagnostic>(st1));
                    assert(st_wf(source@, st1));
                    if err_expr {
                        assert(sp_prec(source@, st1, 1int, 0int) is Err);
                    } else {
                        let e1 = Emitted {
                            st: st_expr,
                            code: c_expr.code@.skip(0),
                            lines: c_expr.lines@.skip(0),
                            literals: c_expr.literals@.skip(0),
                        };
                        assert(sp_prec(source@, st1, 1int, 0int) == Ok::<Emitted, Diagnostic>(e1));
                        assert(sp_consume(
                            source@,
                            st_expr,
                            TokenType::Eof,
                            Message::ExpectEndOfExpression,
                        ) is Err);
                    }
                }
                assert(sp_compile(source@) is Err);
                assert(compiler.parser.diagnostics@ == seq![sp_compile(source@)->Err_0]);
            }
            return Result::Err(CompileError { diagnostics: compiler.parser.diagnostics });
        }
        proof {
            assert(st0 == (ScanState { pos: 0, line: 1, previous: None, current: None }));
            assert(sp_advance(source@, st0) == Ok::<ScanState, Diagnostic>(st1));
            assert(st_wf(source@, st1));
            let e1 = Emitted {
                st: st_expr,
                code: c_expr.code@.skip(0),
                lines: c_expr.lines@.skip(0),
                literals: c_expr.literals@.skip(0),
            };
            assert(sp_prec(source@, st1, 1int, 0int) == Ok::<Emitted, Diagnostic>(e1));
            assert(e1.code =~= c_expr.code@);
            assert(e1.lines =~= c_expr.lines@);
            assert(e1.literals =~= c_expr.literals@);
            assert(sp_consume(
                source@,
                st_expr,
                TokenType::Eof,
                Message::ExpectEndOfExpression,
            ) == Ok::<ScanState, Diagnostic>(st2));
            assert(sp_compile(source@) == Ok::<Emitted, Diagnostic>(Emitted {
                st: st2,
                code: e1.code.push(6u8),
                lines: e1.lines.push(st2.previous.unwrap().line as u64),
                literals: e1.literals,
            }));
            assert(compiler.chunk.code@ == e1.code.push(6u8));
            assert(compiler.chunk.lines@ == e1.lines.push(st2.previous.unwrap().line as u64));
        }
        proof {
            let cf = compiler.chunk;
            let n1 = c_expr.code@.len() as int;
            let nlit = cf.literals@.len() as int;
            assert(seg_wf(c_expr.code@, c_expr.literals@.len() as int, 0, n1, 0) == Some(1int));
            lemma_seg_wf_stable(
                c_expr.code@,
                cf.code@,
                c_expr.literals@.len() as int,
                nlit,
                0,
                n1,
                0,
            );
            assert(wf_from(cf.code@, nlit, n1, 1));
            lemma_seg_wf_runs(cf.code@, nlit, 0, n1, 0, 1);
        }
        Result::Ok(compiler.chunk)
    }
}

} // verus!

verus! {

/// The scanner-and-token-window state a compilation moves through, as the
/// specification sees it: cursor position, current line, and the two tokens
/// the parser holds.
pub struct ScanState {
    pub pos: int,
    pub line: int,
    pub previous: Option<Token>,
    pub current: Option<Token>,
}

/// A reachable scan state: the cursor is inside the source, and once the
/// lookahead is end-of-input the cursor rests at the very end.
pub open spec fn st_wf(s: Seq<u8>, st: ScanState) -> bool {
    &&& 0 <= st.pos <= s.len()
    &&& match st.current {
        Some(t) => t.token_type == TokenType::Eof ==> st.pos == s.len(),
        None => true,
    }
}

/// How much scanning work is left: bytes after the lookahead, plus one while
/// the lookahead is not yet end-of-input. Every parsing step lowers it.
pub open spec fn st_measure(s: Seq<u8>, st: ScanState) -> int {
    s.len() - st.pos + match st.current {
        Some(t) => if t.token_type == TokenType::Eof {
            0int
        } else {
            1int
        },
        None => 1int,
    }
}

/// What compiling one construct produces: the scan state after it, and the
/// code bytes, line entries and literal spans it appends to the chunk.
pub struct Emitted {
    pub st: ScanState,
    pub code: Seq<u8>,
    pub lines: Seq<u64>,
    pub literals: Seq<Span>,
}

/// Two constructs compiled one after the other.
pub open spec fn sp_compose(a: Emitted, b: Emitted) -> Emitted {
    Emitted {
        st: b.st,
        code: a.code + b.code,
        lines: a.lines + b.lines,
        literals: a.literals + b.literals,
    }
}

/// The diagnostic `error_at_current` reports for a token: its line,
/// pointing at the end of the input or at the token's lexeme.
pub open spec fn diag_at_current(t: Token, message: Message) -> Diagnostic {
    Diagnostic {
        line: t.line,
        at: if t.token_type == TokenType::Eof {
            ErrorAt::End
        } else {
            ErrorAt::Lexeme(Span { start: t.label_start, end: t.label_end })
        },
        message,
    }
}

/// The diagnostic `error` reports for a token: as above, except that a
/// token the scanner could not read is pointed at without a lexeme.
pub open spec fn diag_at_previous(t: Token, message: Message) -> Diagnostic {
    Diagnostic {
        line: t.line,
        at: if t.token_type == TokenType::Eof {
            ErrorAt::End
        } else if t.token_type == TokenType::Error {
            ErrorAt::Unreadable
        } else {
            ErrorAt::Lexeme(Span { start: t.label_start, end: t.label_end })
        },
        message,
    }
}

/// Stands in the failure branches of the specification that no compilation
/// can reach: the bounds they guard are proved to hold of every state the
/// parser passes in, so no contract ever exposes this value.
pub open spec fn unreached_diagnostic() -> Diagnostic {
    Diagnostic { line: 0, at: ErrorAt::End, message: Message::ExpectExpression }
}

/// What `advance` does: the lookahead becomes the previous token and the
/// next token is scanned in, or the compilation fails on an unreadable
/// stretch of source, reporting it once.
pub open spec fn sp_advance(s: Seq<u8>, st: ScanState) -> Result<ScanState, Diagnostic> {
    let (tt, a, b, np) = spec_scan(s, st.pos);
    let line2 = st.line + count_nl(s, st.pos, np);
    let token = Token {
        token_type: tt,
        label_start: a as usize,
        label_end: b as usize,
        line: line2 as usize,
    };
    if tt == TokenType::Error {
        Err(diag_at_current(token, Message::UnreadableToken))
    } else {
        Ok(ScanState { pos: np, line: line2, previous: st.current, current: Some(token) })
    }
}

/// A successful `sp_advance` stays well formed and lowers the measure
/// whenever the token it consumes is not end-of-input.
pub proof fn lemma_sp_advance(s: Seq<u8>, st: ScanState)
    requires
        st_wf(s, st),
    ensures
        match sp_advance(s, st) {
            Ok(st2) => {
                &&& st_wf(s, st2)
                &&& st2.current is Some
                &&& st2.previous == st.current
                &&& st_measure(s, st2) <= st_measure(s, st)
                &&& ((match st.current {
                    Some(t) => t.token_type != TokenType::Eof,
                    None => true,
                }) ==> st_measure(s, st2) < st_measure(s, st))
            },
            Err(_) => true,
        },
{
    crate::scanner::lemma_spec_scan_bounds(s, st.pos);
    crate::scanner::lemma_count_nl_bounds(s, st.pos, spec_scan(s, st.pos).3);
}

/// What `consume` does: the expected token is there and consumed, or the
/// given message is reported at the current token.
pub open spec fn sp_consume(
    s: Seq<u8>,
    st: ScanState,
    token_type: TokenType,
    message: Message,
) -> Result<ScanState, Diagnostic> {
    if st.current is Some && st.current.unwrap().token_type == token_type {
        sp_advance(s, st)
    } else {
        Err(diag_at_current(st.current.unwrap(), message))
    }
}

/// What compiling a numeric literal emits: the previous token's lexeme
/// becomes constant slot `nlit`, pushed by a two-byte instruction; a pool
/// already past the largest one-byte index fails at that token.
pub open spec fn sp_number(st: ScanState, nlit: int) -> Result<Emitted, Diagnostic> {
    let t = st.previous.unwrap();
    if 0 <= nlit <= 255 {
        Ok(
            Emitted {
                st: st,
                code: seq![0u8, nlit as u8],
                lines: seq![t.line as u64, t.line as u64],
                literals: seq![Span { start: t.label_start, end: t.label_end }],
            },
        )
    } else {
        Err(diag_at_previous(t, Message::TooManyConstants))
    }
}

/// The next higher precedence level.
pub open spec fn sp_one_higher(p: Precedence) -> int {
    if p.spec_level() < 10 {
        p.spec_level() + 1
    } else {
        10
    }
}

/// What `parse_precedence` compiles and emits, or the one diagnostic the
/// rejection reports. This and its companions below mirror the parser
/// exactly; the bounds checks on intermediate states are proved to hold of
/// the parser, so they never cut a run short.
pub open spec fn sp_prec(s: Seq<u8>, st: ScanState, min_level: int, nlit: int) -> Result<
    Emitted,
    Diagnostic,
>
    decreases st_measure(s, st), 1int,
{
    if !(st_wf(s, st) && 1 <= min_level) {
        Err(unreached_diagnostic())
    } else {
        proof {
            lemma_sp_advance(s, st);
        }
        match sp_advance(s, st) {
        Err(d) => Err(d),
        Ok(st1) => {
            let prev = st1.previous.unwrap();
            let rule = spec_get_rule(prev.token_type);
            let prefix_result = match rule.prefix {
                None => Err(diag_at_previous(prev, Message::ExpectExpression)),
                Some(PrefixAction::Grouping) => sp_grouping(s, st1, nlit),
                Some(PrefixAction::Unary) => sp_unary(s, st1, nlit),
                Some(PrefixAction::Number) => sp_number(st1, nlit),
            };
            match prefix_result {
                Err(d) => Err(d),
                Ok(r) => {
                    if st_wf(s, r.st) && st_measure(s, r.st) <= st_measure(s, st1) {
                        match sp_loop(s, r.st, min_level, nlit + r.literals.len()) {
                            Err(d) => Err(d),
                            Ok(r2) => Ok(sp_compose(r, r2)),
                        }
                    } else {
                        Err(unreached_diagnostic())
                    }
                },
            }
        },
        }
    }
}

/// What the infix loop of `parse_precedence` compiles and emits: every
/// following operator that binds at least as strongly as `min_level`, each
/// with its right operand.
pub open spec fn sp_loop(s: Seq<u8>, st: ScanState, min_level: int, nlit: int) -> Result<
    Emitted,
    Diagnostic,
>
    decreases st_measure(s, st), 2int,
{
    if !(st_wf(s, st) && 1 <= min_level) {
        Err(unreached_diagnostic())
    } else {
        proof {
            lemma_sp_advance(s, st);
        }
        let cur = st.current.unwrap();
    let current_rule = spec_get_rule(cur.token_type);
    if min_level > current_rule.precedence.spec_level() as int {
        Ok(Emitted { st: st, code: Seq::empty(), lines: Seq::empty(), literals: Seq::empty() })
    } else {
        match sp_advance(s, st) {
            Err(d) => Err(d),
            Ok(st1) => {
                match spec_get_rule(st1.previous.unwrap().token_type).infix {
                    Some(InfixAction::Binary) => {
                        match sp_binary(s, st1, nlit) {
                            Err(d) => Err(d),
                            Ok(r) => {
                                if st_wf(s, r.st) && st_measure(s, r.st) <= st_measure(s, st1) {
                                    match sp_loop(s, r.st, min_level, nlit + r.literals.len()) {
                                        Err(d) => Err(d),
                                        Ok(r2) => Ok(sp_compose(r, r2)),
                                    }
                                } else {
                                    Err(unreached_diagnostic())
                                }
                            },
                        }
                    },
                    None => sp_loop(s, st1, min_level, nlit),
                }
            },
        }
        }
    }
}

/// What `grouping` compiles: a whole expression, then the closing
/// parenthesis, emitting nothing of its own.
pub open spec fn sp_grouping(s: Seq<u8>, st: ScanState, nlit: int) -> Result<Emitted, Diagnostic>
    decreases st_measure(s, st), 3int,
{
    if !st_wf(s, st) {
        Err(unreached_diagnostic())
    } else {
        match sp_prec(s, st, 1, nlit) {
        Err(d) => Err(d),
        Ok(r) => {
            match sp_consume(s, r.st, TokenType::RightParen, Message::ExpectRightParen) {
                Err(d) => Err(d),
                Ok(st2) => Ok(Emitted { st: st2, ..r }),
            }
        },
        }
    }
}

/// What `unary` compiles: the operand at unary strength, then the negation
/// instruction when the operator is a minus, recorded at the operator's own
/// line.
pub open spec fn sp_unary(s: Seq<u8>, st: ScanState, nlit: int) -> Result<Emitted, Diagnostic>
    decreases st_measure(s, st), 3int,
{
    if !st_wf(s, st) {
        Err(unreached_diagnostic())
    } else {
        let operator_type = st.previous.unwrap().token_type;
        match sp_prec(s, st, 8, nlit) {
        Err(d) => Err(d),
        Ok(r) => {
            if operator_type == TokenType::Minus {
                Ok(
                    Emitted {
                        st: r.st,
                        code: r.code.push(5u8),
                        lines: r.lines.push(st.previous.unwrap().line as u64),
                        literals: r.literals,
                    },
                )
            } else {
                Ok(r)
            }
        },
        }
    }
}

/// What `binary` compiles: the right operand one level tighter than the
/// operator, then the operator's instruction, recorded at the operator's
/// own line.
pub open spec fn sp_binary(s: Seq<u8>, st: ScanState, nlit: int) -> Result<Emitted, Diagnostic>
    decreases st_measure(s, st), 3int,
{
    if !st_wf(s, st) {
        Err(unreached_diagnostic())
    } else {
        let operator_type = st.previous.unwrap().token_type;
        let rule = spec_get_rule(operator_type);
        match sp_prec(s, st, sp_one_higher(rule.precedence), nlit) {
        Err(d) => Err(d),
        Ok(r) => {
            let opcode_byte: u8 = if operator_type == TokenType::Plus {
                1u8
            } else if operator_type == TokenType::Minus {
                2u8
            } else if operator_type == TokenType::Star {
                3u8
            } else if operator_type == TokenType::Slash {
                4u8
            } else {
                0u8
            };
            if operator_type == TokenType::Plus || operator_type == TokenType::Minus
                || operator_type == TokenType::Star || operator_type == TokenType::Slash {
                Ok(
                    Emitted {
                        st: r.st,
                        code: r.code.push(opcode_byte),
                        lines: r.lines.push(st.previous.unwrap().line as u64),
                        literals: r.literals,
                    },
                )
            } else {
                Ok(r)
            }
        },
        }
    }
}

/// What one whole compilation emits on success, or the one diagnostic its
/// rejection reports: the first token is read in, one expression is
/// compiled, the source must be exhausted, and the return instruction
/// closes the chunk — its recorded line is the end-of-input token's. The
/// outcome is a function of the source text alone.
pub open spec fn sp_compile(s: Seq<u8>) -> Result<Emitted, Diagnostic> {
    let st0 = ScanState { pos: 0, line: 1, previous: None, current: None };
    match sp_advance(s, st0) {
        Err(d) => Err(d),
        Ok(st1) => {
            if st_wf(s, st1) {
                match sp_prec(s, st1, 1, 0) {
                    Err(d) => Err(d),
                    Ok(r) => {
                        match sp_consume(s, r.st, TokenType::Eof, Message::ExpectEndOfExpression) {
                            Err(d) => Err(d),
                            Ok(st2) => Ok(
                                Emitted {
                                    st: st2,
                                    code: r.code.push(6u8),
                                    lines: r.lines.push(st2.previous.unwrap().line as u64),
                                    literals: r.literals,
                                },
                            ),
                        }
                    },
                }
            } else {
                Err(unreached_diagnostic())
            }
        },
    }
}

} // verus!

verus! {

/// The value the compiled program will compute for the expression
/// `parse_precedence` parses, with the decoding of numeric literals given by
/// `lit` (lexeme bytes to a double's bits) and binary arithmetic by `arith`:
/// the precedence-respecting, left-associative evaluation of the source.
pub open spec fn sp_prec_val(
    s: Seq<u8>,
    st: ScanState,
    min_level: int,
    lit: spec_fn(Seq<u8>) -> u64,
    arith: spec_fn(OpCode, u64, u64) -> u64,
) -> Option<(ScanState, u64)>
    decreases st_measure(s, st), 1int,
{
    if !(st_wf(s, st) && 1 <= min_level) {
        None
    } else {
        proof {
            lemma_sp_advance(s, st);
        }
        match sp_advance(s, st) {
            Err(_) => None,
            Ok(st1) => {
                let prev = st1.previous.unwrap();
                let rule = spec_get_rule(prev.token_type);
                let prefix_result = match rule.prefix {
                    None => None,
                    Some(PrefixAction::Grouping) => sp_grouping_val(s, st1, lit, arith),
                    Some(PrefixAction::Unary) => sp_unary_val(s, st1, lit, arith),
                    Some(PrefixAction::Number) => Some(
                        (
                            st1,
                            lit(s.subrange(prev.label_start as int, prev.label_end as int)),
                        ),
                    ),
                };
                match prefix_result {
                    None => None,
                    Some((st2, v)) => {
                        if st_wf(s, st2) && st_measure(s, st2) <= st_measure(s, st1) {
                            sp_loop_val(s, st2, min_level, v, lit, arith)
                        } else {
                            None
                        }
                    },
                }
            },
        }
    }
}

/// The left-to-right fold of the infix loop: each operator that binds at
/// least as strongly combines the value so far with its right operand.
pub open spec fn sp_loop_val(
    s: Seq<u8>,
    st: ScanState,
    min_level: int,
    left: u64,
    lit: spec_fn(Seq<u8>) -> u64,
    arith: spec_fn(OpCode, u64, u64) -> u64,
) -> Option<(ScanState, u64)>
    decreases st_measure(s, st), 2int,
{
    if !(st_wf(s, st) && 1 <= min_level) {
        None
    } else {
        proof {
            lemma_sp_advance(s, st);
        }
        let cur = st.current.unwrap();
        let current_rule = spec_get_rule(cur.token_type);
        if min_level > current_rule.precedence.spec_level() as int {
            Some((st, left))
        } else {
            match sp_advance(s, st) {
                Err(_) => None,
                Ok(st1) => {
                    match spec_get_rule(st1.previous.unwrap().token_type).infix {
                        Some(InfixAction::Binary) => {
                            match sp_binary_val(s, st1, left, lit, arith) {
                                None => None,
                                Some((st2, v)) => {
                                    if st_wf(s, st2) && st_measure(s, st2) <= st_measure(s, st1) {
                                        sp_loop_val(s, st2, min_level, v, lit, arith)
                                    } else {
                                        None
                                    }
                                },
                            }
                        },
                        None => sp_loop_val(s, st1, min_level, left, lit, arith),
                    }
                },
            }
        }
    }
}

/// The value of a parenthesized sub-expression is the expression's own.
pub open spec fn sp_grouping_val(
    s: Seq<u8>,
    st: ScanState,
    lit: spec_fn(Seq<u8>) -> u64,
    arith: spec_fn(OpCode, u64, u64) -> u64,
) -> Option<(ScanState, u64)>
    decreases st_measure(s, st), 3int,
{
    if !st_wf(s, st) {
        None
    } else {
        match sp_prec_val(s, st, 1, lit, arith) {
            None => None,
            Some((st2, v)) => {
                match sp_consume(s, st2, TokenType::RightParen, Message::ExpectRightParen) {
                    Err(_) => None,
                    Ok(st3) => Some((st3, v)),
                }
            },
        }
    }
}

/// A unary minus negates its operand's value: an exact sign bit flip.
pub open spec fn sp_unary_val(
    s: Seq<u8>,
    st: ScanState,
    lit: spec_fn(Seq<u8>) -> u64,
    arith: spec_fn(OpCode, u64, u64) -> u64,
) -> Option<(ScanState, u64)>
    decreases st_measure(s, st), 3int,
{
    if !st_wf(s, st) {
        None
    } else {
        let operator_type = st.previous.unwrap().token_type;
        match sp_prec_val(s, st, 8, lit, arith) {
            None => None,
            Some((st2, v)) => Some(
                (
                    st2,
                    if operator_type == TokenType::Minus {
                        crate::vm::negated(v)
                    } else {
                        v
                    },
                ),
            ),
        }
    }
}

/// A binary operator combines the value to its left with its right operand,
/// parsed one level tighter.
pub open spec fn sp_binary_val(
    s: Seq<u8>,
    st: ScanState,
    left: u64,
    lit: spec_fn(Seq<u8>) -> u64,
    arith: spec_fn(OpCode, u64, u64) -> u64,
) -> Option<(ScanState, u64)>
    decreases st_measure(s, st), 3int,
{
    if !st_wf(s, st) {
        None
    } else {
        let operator_type = st.previous.unwrap().token_type;
        let rule = spec_get_rule(operator_type);
        match sp_prec_val(s, st, sp_one_higher(rule.precedence), lit, arith) {
            None => None,
            Some((st2, right)) => {
                if operator_type == TokenType::Plus {
                    Some((st2, arith(OpCode::Add, left, right)))
                } else if operator_type == TokenType::Minus {
                    Some((st2, arith(OpCode::Subtract, left, right)))
                } else if operator_type == TokenType::Star {
                    Some((st2, arith(OpCode::Multiply, left, right)))
                } else if operator_type == TokenType::Slash {
                    Some((st2, arith(OpCode::Divide, left, right)))
                } else {
                    None
                }
            },
        }
    }
}

/// The value a whole successful compilation computes: what the source's
/// expression evaluates to under `lit` and `arith`.
pub open spec fn sp_compile_val(
    s: Seq<u8>,
    lit: spec_fn(Seq<u8>) -> u64,
    arith: spec_fn(OpCode, u64, u64) -> u64,
) -> Option<u64> {
    let st0 = ScanState { pos: 0, line: 1, previous: None, current: None };
    match sp_advance(s, st0) {
        Err(_) => None,
        Ok(st1) => {
            if st_wf(s, st1) {
                match sp_prec_val(s, st1, 1, lit, arith) {
                    None => None,
                    Some((st2, v)) => {
                        match sp_consume(s, st2, TokenType::Eof, Message::ExpectEndOfExpression) {
                            Err(_) => None,
                            Ok(_) => Some(v),
                        }
                    },
                }
            } else {
                None
            }
        },
    }
}

} // verus!

verus! {

/// The constant pool slots from `nlit` on carry exactly the decoded values
/// of the given literal spans, in order.
pub open spec fn consts_match(
    s: Seq<u8>,
    consts: Seq<u64>,
    nlit: int,
    lits: Seq<Span>,
    lit: spec_fn(Seq<u8>) -> u64,
) -> bool {
    &&& consts.len() >= nlit + lits.len()
    &&& forall|j: int|
        0 <= j < lits.len() ==> consts[nlit + j] == lit(
            s.subrange((#[trigger] lits[j]).start as int, lits[j].end as int),
        )
}

proof fn lemma_consts_match_split(
    s: Seq<u8>,
    consts: Seq<u64>,
    nlit: int,
    a: Seq<Span>,
    b: Seq<Span>,
    lit: spec_fn(Seq<u8>) -> u64,
)
    requires
        consts_match(s, consts, nlit, a + b, lit),
    ensures
        consts_match(s, consts, nlit, a, lit),
        consts_match(s, consts, nlit + a.len(), b, lit),
{
    assert forall|j: int| 0 <= j < a.len() implies consts[nlit + j] == lit(
        s.subrange((#[trigger] a[j]).start as int, a[j].end as int),
    ) by {
        assert((a + b)[j] == a[j]);
    }
    assert forall|j: int| 0 <= j < b.len() implies consts[nlit + a.len() + j] == lit(
        s.subrange((#[trigger] b[j]).start as int, b[j].end as int),
    ) by {
        assert((a + b)[a.len() + j] == b[j]);
    }
}

/// Code compiled for one expression computes its value: running the emitted
/// segment from any stack pushes exactly the evaluation `sp_prec_val` gives,
/// provided the constant pool carries the decoded literals.
#[verifier::rlimit(100)]
pub proof fn lemma_prec_value(
    s: Seq<u8>,
    st: ScanState,
    min_level: int,
    nlit: int,
    consts: Seq<u64>,
    lit: spec_fn(Seq<u8>) -> u64,
    arith: spec_fn(OpCode, u64, u64) -> u64,
    stack: Seq<u64>,
)
    requires
        sp_prec(s, st, min_level, nlit) is Ok,
        0 <= nlit,
        consts_match(s, consts, nlit, sp_prec(s, st, min_level, nlit)->Ok_0.literals, lit),
    ensures
        ({
            let r = sp_prec(s, st, min_level, nlit)->Ok_0;
            let rv = sp_prec_val(s, st, min_level, lit, arith);
            &&& rv is Some
            &&& rv.unwrap().0 == r.st
            &&& seg_run(r.code, consts, 0, r.code.len() as int, stack, arith) == Some(
                stack.push(rv.unwrap().1),
            )
        }),
    decreases st_measure(s, st), 1int,
{
    let r = sp_prec(s, st, min_level, nlit)->Ok_0;
    lemma_sp_advance(s, st);
    let st1 = sp_advance(s, st)->Ok_0;
    let prev = st1.previous.unwrap();
    let rule = spec_get_rule(prev.token_type);
    match rule.prefix {
        None => {
            assert(false);
        },
        Some(PrefixAction::Number) => {
            let r1 = sp_number(st1, nlit)->Ok_0;
            let r2 = sp_loop(s, st1, min_level, nlit + r1.literals.len())->Ok_0;
            assert(r == sp_compose(r1, r2));
            lemma_consts_match_split(s, consts, nlit, r1.literals, r2.literals, lit);
            let v1 = lit(s.subrange(prev.label_start as int, prev.label_end as int));
            assert(r1.literals[0] == (Span { start: prev.label_start, end: prev.label_end }));
            assert(consts[nlit] == v1);
            // The two-byte constant instruction pushes the decoded literal.
            assert(((nlit as u8) as int) == nlit);
            assert(seg_run(r1.code, consts, 0, 2, stack, arith) == Some(stack.push(v1))) by {
                assert(r1.code[0] == 0u8 && r1.code[1] == (nlit as u8));
                assert(seg_run(r1.code, consts, 2, 2, stack.push(consts[nlit]), arith) == Some(
                    stack.push(consts[nlit]),
                ));
            }
            lemma_loop_value(
                s,
                st1,
                min_level,
                nlit + r1.literals.len(),
                consts,
                lit,
                arith,
                stack,
                v1,
            );
            let r2v = sp_loop_val(s, st1, min_level, v1, lit, arith).unwrap();
            lemma_seg_run_shift(r1.code, r.code, consts, consts, 0, 2, 0, stack, arith);
            lemma_seg_run_shift(
                r2.code,
                r.code,
                consts,
                consts,
                0,
                r2.code.len() as int,
                2,
                stack.push(v1),
                arith,
            );
            lemma_seg_run_compose(
                r.code,
                consts,
                0,
                2,
                r.code.len() as int,
                stack,
                stack.push(v1),
                arith,
            );
        },
        Some(PrefixAction::Grouping) => {
            let r1 = sp_grouping(s, st1, nlit)->Ok_0;
            let r2 = sp_loop(s, r1.st, min_level, nlit + r1.literals.len())->Ok_0;
            assert(r == sp_compose(r1, r2));
            lemma_consts_match_split(s, consts, nlit, r1.literals, r2.literals, lit);
            lemma_grouping_value(s, st1, nlit, consts, lit, arith, stack);
            let (stg, v1) = sp_grouping_val(s, st1, lit, arith).unwrap();
            lemma_loop_value(
                s,
                r1.st,
                min_level,
                nlit + r1.literals.len(),
                consts,
                lit,
                arith,
                stack,
                v1,
            );
            let n1 = r1.code.len() as int;
            lemma_seg_run_shift(r1.code, r.code, consts, consts, 0, n1, 0, stack, arith);
            lemma_seg_run_shift(
                r2.code,
                r.code,
                consts,
                consts,
                0,
                r2.code.len() as int,
                n1,
                stack.push(v1),
                arith,
            );
            lemma_seg_run_compose(
                r.code,
                consts,
                0,
                n1,
                r.code.len() as int,
                stack,
                stack.push(v1),
                arith,
            );
        },
        Some(PrefixAction::Unary) => {
            let r1 = sp_unary(s, st1, nlit)->Ok_0;
            let r2 = sp_loop(s, r1.st, min_level, nlit + r1.literals.len())->Ok_0;
            assert(r == sp_compose(r1, r2));
            lemma_consts_match_split(s, consts, nlit, r1.literals, r2.literals, lit);
            lemma_unary_value(s, st1, nlit, consts, lit, arith, stack);
            let (stu, v1) = sp_unary_val(s, st1, lit, arith).unwrap();
            lemma_loop_value(
                s,
                r1.st,
                min_level,
                nlit + r1.literals.len(),
                consts,
                lit,
                arith,
                stack,
                v1,
            );
            let n1 = r1.code.len() as int;
            lemma_seg_run_shift(r1.code, r.code, consts, consts, 0, n1, 0, stack, arith);
            lemma_seg_run_shift(
                r2.code,
                r.code,
                consts,
                consts,
                0,
                r2.code.len() as int,
                n1,
                stack.push(v1),
                arith,
            );
            lemma_seg_run_compose(
                r.code,
                consts,
                0,
                n1,
                r.code.len() as int,
                stack,
                stack.push(v1),
                arith,
            );
        },
    }
}

/// The infix loop's code folds values left to right: running it from a
/// stack whose top is the value so far leaves the folded value on top.
#[verifier::rlimit(100)]
pub proof fn lemma_loop_value(
    s: Seq<u8>,
    st: ScanState,
    min_level: int,
    nlit: int,
    consts: Seq<u64>,
    lit: spec_fn(Seq<u8>) -> u64,
    arith: spec_fn(OpCode, u64, u64) -> u64,
    stack: Seq<u64>,
    left: u64,
)
    requires
        sp_loop(s, st, min_level, nlit) is Ok,
        0 <= nlit,
        consts_match(s, consts, nlit, sp_loop(s, st, min_level, nlit)->Ok_0.literals, lit),
    ensures
        ({
            let r = sp_loop(s, st, min_level, nlit)->Ok_0;
            let rv = sp_loop_val(s, st, min_level, left, lit, arith);
            &&& rv is Some
            &&& rv.unwrap().0 == r.st
            &&& seg_run(r.code, consts, 0, r.code.len() as int, stack.push(left), arith) == Some(
                stack.push(rv.unwrap().1),
            )
        }),
    decreases st_measure(s, st), 2int,
{
    let r = sp_loop(s, st, min_level, nlit)->Ok_0;
    let cur = st.current.unwrap();
    let current_rule = spec_get_rule(cur.token_type);
    if min_level > current_rule.precedence.spec_level() as int {
        assert(seg_run(r.code, consts, 0, 0, stack.push(left), arith) == Some(stack.push(left)));
    } else {
        lemma_sp_advance(s, st);
        let st1 = sp_advance(s, st)->Ok_0;
        match spec_get_rule(st1.previous.unwrap().token_type).infix {
            Some(InfixAction::Binary) => {
                let rb = sp_binary(s, st1, nlit)->Ok_0;
                let rest = sp_loop(s, rb.st, min_level, nlit + rb.literals.len())->Ok_0;
                assert(r == sp_compose(rb, rest));
                lemma_consts_match_split(s, consts, nlit, rb.literals, rest.literals, lit);
                lemma_binary_value(s, st1, nlit, consts, lit, arith, stack, left);
                let (stb, comb) = sp_binary_val(s, st1, left, lit, arith).unwrap();
                lemma_loop_value(
                    s,
                    rb.st,
                    min_level,
                    nlit + rb.literals.len(),
                    consts,
                    lit,
                    arith,
                    stack,
                    comb,
                );
                let nb = rb.code.len() as int;
                lemma_seg_run_shift(
                    rb.code,
                    r.code,
                    consts,
                    consts,
                    0,
                    nb,
                    0,
                    stack.push(left),
                    arith,
                );
                lemma_seg_run_shift(
                    rest.code,
                    r.code,
                    consts,
                    consts,
                    0,
                    rest.code.len() as int,
                    nb,
                    stack.push(comb),
                    arith,
                );
                lemma_seg_run_compose(
                    r.code,
                    consts,
                    0,
                    nb,
                    r.code.len() as int,
                    stack.push(left),
                    stack.push(comb),
                    arith,
                );
            },
            None => {
                lemma_loop_value(s, st1, min_level, nlit, consts, lit, arith, stack, left);
            },
        }
    }
}

/// A parenthesized group's code computes the inner expression's value.
#[verifier::rlimit(100)]
pub proof fn lemma_grouping_value(
    s: Seq<u8>,
    st: ScanState,
    nlit: int,
    consts: Seq<u64>,
    lit: spec_fn(Seq<u8>) -> u64,
    arith: spec_fn(OpCode, u64, u64) -> u64,
    stack: Seq<u64>,
)
    requires
        sp_grouping(s, st, nlit) is Ok,
        0 <= nlit,
        consts_match(s, consts, nlit, sp_grouping(s, st, nlit)->Ok_0.literals, lit),
    ensures
        ({
            let r = sp_grouping(s, st, nlit)->Ok_0;
            let rv = sp_grouping_val(s, st, lit, arith);
            &&& rv is Some
            &&& rv.unwrap().0 == r.st
            &&& seg_run(r.code, consts, 0, r.code.len() as int, stack, arith) == Some(
                stack.push(rv.unwrap().1),
            )
        }),
    decreases st_measure(s, st), 3int,
{
    lemma_prec_value(s, st, 1, nlit, consts, lit, arith, stack);
}

/// A unary minus's code computes the operand's value, then flips its sign
/// bit: exactly IEEE negation.
#[verifier::rlimit(100)]
pub proof fn lemma_unary_value(
    s: Seq<u8>,
    st: ScanState,
    nlit: int,
    consts: Seq<u64>,
    lit: spec_fn(Seq<u8>) -> u64,
    arith: spec_fn(OpCode, u64, u64) -> u64,
    stack: Seq<u64>,
)
    requires
        sp_unary(s, st, nlit) is Ok,
        0 <= nlit,
        consts_match(s, consts, nlit, sp_unary(s, st, nlit)->Ok_0.literals, lit),
    ensures
        ({
            let r = sp_unary(s, st, nlit)->Ok_0;
            let rv = sp_unary_val(s, st, lit, arith);
            &&& rv is Some
            &&& rv.unwrap().0 == r.st
            &&& seg_run(r.code, consts, 0, r.code.len() as int, stack, arith) == Some(
                stack.push(rv.unwrap().1),
            )
        }),
    decreases st_measure(s, st), 3int,
{
    let r = sp_unary(s, st, nlit)->Ok_0;
    let operator_type = st.previous.unwrap().token_type;
    let r1 = sp_prec(s, st, 8, nlit)->Ok_0;
    lemma_prec_value(s, st, 8, nlit, consts, lit, arith, stack);
    let (st2, v) = sp_prec_val(s, st, 8, lit, arith).unwrap();
    if operator_type == TokenType::Minus {
        let n1 = r1.code.len() as int;
        assert(r.code == r1.code.push(5u8));
        lemma_seg_run_shift(r1.code, r.code, consts, consts, 0, n1, 0, stack, arith);
        assert(seg_run(r.code, consts, n1, n1 + 1, stack.push(v), arith) == Some(
            stack.push(crate::vm::negated(v)),
        )) by {
            assert(r.code[n1] == 5u8);
            let popped = stack.push(v).subrange(0, stack.push(v).len() - 1);
            assert(popped =~= stack);
            assert(stack.push(v)[stack.push(v).len() - 1] == v);
            assert(popped.push(crate::vm::negated(v)) == stack.push(crate::vm::negated(v)));
            assert(seg_run(
                r.code,
                consts,
                n1 + 1,
                n1 + 1,
                stack.push(crate::vm::negated(v)),
                arith,
            ) == Some(stack.push(crate::vm::negated(v))));
        }
        lemma_seg_run_compose(
            r.code,
            consts,
            0,
            n1,
            r.code.len() as int,
            stack,
            stack.push(v),
            arith,
        );
    }
}

/// A binary operator's code computes the right operand above the left value,
/// then combines the two with the operator's arithmetic.
#[verifier::rlimit(100)]
pub proof fn lemma_binary_value(
    s: Seq<u8>,
    st: ScanState,
    nlit: int,
    consts: Seq<u64>,
    lit: spec_fn(Seq<u8>) -> u64,
    arith: spec_fn(OpCode, u64, u64) -> u64,
    stack: Seq<u64>,
    left: u64,
)
    requires
        sp_binary(s, st, nlit) is Ok,
        0 <= nlit,
        consts_match(s, consts, nlit, sp_binary(s, st, nlit)->Ok_0.literals, lit),
        spec_get_rule(st.previous.unwrap().token_type).infix == Some(InfixAction::Binary),
    ensures
        ({
            let r = sp_binary(s, st, nlit)->Ok_0;
            let rv = sp_binary_val(s, st, left, lit, arith);
            &&& rv is Some
            &&& rv.unwrap().0 == r.st
            &&& seg_run(r.code, consts, 0, r.code.len() as int, stack.push(left), arith) == Some(
                stack.push(rv.unwrap().1),
            )
        }),
    decreases st_measure(s, st), 3int,
{
    let r = sp_binary(s, st, nlit)->Ok_0;
    let operator_type = st.previous.unwrap().token_type;
    let rule = spec_get_rule(operator_type);
    let r1 = sp_prec(s, st, sp_one_higher(rule.precedence), nlit)->Ok_0;
    lemma_prec_value(s, st, sp_one_higher(rule.precedence), nlit, consts, lit, arith, stack.push(left));
    let (st2, right) = sp_prec_val(s, st, sp_one_higher(rule.precedence), lit, arith).unwrap();
    let op = if operator_type == TokenType::Plus {
        OpCode::Add
    } else if operator_type == TokenType::Minus {
        OpCode::Subtract
    } else if operator_type == TokenType::Star {
        OpCode::Multiply
    } else {
        OpCode::Divide
    };
    let n1 = r1.code.len() as int;
    assert(r.code == r1.code.push(op.spec_byte()));
    lemma_seg_run_shift(r1.code, r.code, consts, consts, 0, n1, 0, stack.push(left), arith);
    let big = stack.push(left).push(right);
    assert(seg_run(r.code, consts, n1, n1 + 1, big, arith) == Some(
        stack.push(arith(op, left, right)),
    )) by {
        assert(r.code[n1] == op.spec_byte());
        assert(OpCode::spec_from_byte(op.spec_byte()) == Some(op));
        assert(big.len() >= 2);
        assert(big[big.len() - 2] == left && big[big.len() - 1] == right);
        assert(big.subrange(0, big.len() - 2) =~= stack);
        assert(big.subrange(0, big.len() - 2).push(arith(op, left, right)) == stack.push(
            arith(op, left, right),
        ));
        assert(seg_run(
            r.code,
            consts,
            n1 + 1,
            n1 + 1,
            stack.push(arith(op, left, right)),
            arith,
        ) == Some(stack.push(arith(op, left, right))));
    }
    lemma_seg_run_compose(
        r.code,
        consts,
        0,
        n1,
        r.code.len() as int,
        stack.push(left),
        big,
        arith,
    );
}

/// The evaluation law of the whole pipeline: a compiled chunk, with its
/// constant pool linked from the decoded literals, executes to exactly the
/// source expression's precedence-respecting, left-associative evaluation,
/// with literal decoding and the four binary operations given by the
/// embedder's `lit` and `arith` and negation an exact sign bit flip.
pub proof fn lemma_compile_evaluates(
    s: Seq<u8>,
    consts: Seq<u64>,
    lit: spec_fn(Seq<u8>) -> u64,
    arith: spec_fn(OpCode, u64, u64) -> u64,
    oracle: spec_fn(int, OpCode, u64, u64) -> u64,
)
    requires
        sp_compile(s) is Ok,
        consts_match(s, consts, 0, sp_compile(s)->Ok_0.literals, lit),
        forall|k: int, op: OpCode, a: u64, b: u64| #[trigger] oracle(k, op, a, b) == arith(op, a, b),
    ensures
        sp_compile_val(s, lit, arith) is Some,
        run_from(sp_compile(s)->Ok_0.code, consts, 0, Seq::empty(), 0, oracle) == Some(
            sp_compile_val(s, lit, arith).unwrap(),
        ),
{
    let e = sp_compile(s)->Ok_0;
    let st0 = ScanState { pos: 0, line: 1, previous: None, current: None };
    let st1 = sp_advance(s, st0)->Ok_0;
    let r = sp_prec(s, st1, 1, 0)->Ok_0;
    lemma_prec_value(s, st1, 1, 0, consts, lit, arith, Seq::empty());
    let (st2, v) = sp_prec_val(s, st1, 1, lit, arith).unwrap();
    let n1 = r.code.len() as int;
    assert(e.code == r.code.push(6u8));
    lemma_seg_run_shift(r.code, e.code, consts, consts, 0, n1, 0, Seq::empty(), arith);
    assert(Seq::<u64>::empty().push(v)[0] == v);
    lemma_seg_run_halts(
        e.code,
        consts,
        0,
        n1,
        Seq::empty(),
        Seq::empty().push(v),
        0,
        arith,
        oracle,
    );
}

} // verus!

verus! {

/// How many number tokens stand in the source from position `pos` to the
/// end of the input.
pub open spec fn number_token_count(s: Seq<u8>, pos: int) -> int
    decreases s.len() - pos,
{
    if !(0 <= pos <= s.len()) {
        0
    } else {
        proof {
            crate::scanner::lemma_spec_scan_bounds(s, pos);
        }
        let (tt, a, b, np) = spec_scan(s, pos);
        if tt == TokenType::Eof {
            0
        } else {
            (if tt == TokenType::Number {
                1int
            } else {
                0int
            }) + number_token_count(s, np)
        }
    }
}

/// The number tokens not yet consumed from a scan state: the lookahead, if
/// it is one, and everything after it.
pub open spec fn st_remaining(s: Seq<u8>, st: ScanState) -> int {
    number_token_count(s, st.pos) + match st.current {
        Some(t) => if t.token_type == TokenType::Number {
            1int
        } else {
            0int
        },
        None => 0int,
    }
}

/// Advancing consumes exactly the lookahead: one number token when it is
/// one, none otherwise.
pub proof fn lemma_advance_remaining(s: Seq<u8>, st: ScanState)
    requires
        st_wf(s, st),
    ensures
        match sp_advance(s, st) {
            Ok(st2) => st_remaining(s, st2) == st_remaining(s, st) - (match st.current {
                Some(t) => if t.token_type == TokenType::Number {
                    1int
                } else {
                    0int
                },
                None => 0int,
            }),
            Err(_) => true,
        },
{
    crate::scanner::lemma_spec_scan_bounds(s, st.pos);
    let (tt, a, b, np) = spec_scan(s, st.pos);
    if tt == TokenType::Eof {
        assert(number_token_count(s, np) == 0);
    }
}

} // verus!

verus! {

/// Each number token a compiled expression consumes becomes exactly one
/// constant slot, and the slots never pass the pool's 256-entry bound.
pub proof fn lemma_prec_count(s: Seq<u8>, st: ScanState, min_level: int, nlit: int)
    requires
        sp_prec(s, st, min_level, nlit) is Ok,
        st.current is Some,
        0 <= nlit,
    ensures
        ({
            let r = sp_prec(s, st, min_level, nlit)->Ok_0;
            &&& st_wf(s, r.st)
            &&& r.st.current is Some
            &&& r.literals.len() == st_remaining(s, st) - st_remaining(s, r.st)
            &&& nlit + r.literals.len() <= 256
        }),
    decreases st_measure(s, st), 1int,
{
    let r = sp_prec(s, st, min_level, nlit)->Ok_0;
    lemma_sp_advance(s, st);
    lemma_advance_remaining(s, st);
    let st1 = sp_advance(s, st)->Ok_0;
    let prev = st1.previous.unwrap();
    let rule = spec_get_rule(prev.token_type);
    match rule.prefix {
        None => {
            assert(false);
        },
        Some(PrefixAction::Number) => {
            let r1 = sp_number(st1, nlit)->Ok_0;
            let r2 = sp_loop(s, st1, min_level, nlit + r1.literals.len())->Ok_0;
            assert(r == sp_compose(r1, r2));
            lemma_loop_count(s, st1, min_level, nlit + 1);
        },
        Some(PrefixAction::Grouping) => {
            let r1 = sp_grouping(s, st1, nlit)->Ok_0;
            let r2 = sp_loop(s, r1.st, min_level, nlit + r1.literals.len())->Ok_0;
            assert(r == sp_compose(r1, r2));
            lemma_grouping_count(s, st1, nlit);
            lemma_loop_count(s, r1.st, min_level, nlit + r1.literals.len() as int);
        },
        Some(PrefixAction::Unary) => {
            let r1 = sp_unary(s, st1, nlit)->Ok_0;
            let r2 = sp_loop(s, r1.st, min_level, nlit + r1.literals.len())->Ok_0;
            assert(r == sp_compose(r1, r2));
            lemma_unary_count(s, st1, nlit);
            lemma_loop_count(s, r1.st, min_level, nlit + r1.literals.len() as int);
        },
    }
}

pub proof fn lemma_loop_count(s: Seq<u8>, st: ScanState, min_level: int, nlit: int)
    requires
        sp_loop(s, st, min_level, nlit) is Ok,
        st.current is Some,
        0 <= nlit,
        nlit <= 256,
    ensures
        ({
            let r = sp_loop(s, st, min_level, nlit)->Ok_0;
            &&& st_wf(s, r.st)
            &&& r.st.current is Some
            &&& r.literals.len() == st_remaining(s, st) - st_remaining(s, r.st)
            &&& nlit + r.literals.len() <= 256
        }),
    decreases st_measure(s, st), 2int,
{
    let r = sp_loop(s, st, min_level, nlit)->Ok_0;
    let cur = st.current.unwrap();
    let current_rule = spec_get_rule(cur.token_type);
    if min_level > current_rule.precedence.spec_level() as int {
    } else {
        lemma_sp_advance(s, st);
        lemma_advance_remaining(s, st);
        let st1 = sp_advance(s, st)->Ok_0;
        match spec_get_rule(st1.previous.unwrap().token_type).infix {
            Some(InfixAction::Binary) => {
                let rb = sp_binary(s, st1, nlit)->Ok_0;
                let rest = sp_loop(s, rb.st, min_level, nlit + rb.literals.len())->Ok_0;
                assert(r == sp_compose(rb, rest));
                lemma_binary_count(s, st1, nlit);
                lemma_loop_count(s, rb.st, min_level, nlit + rb.literals.len() as int);
            },
            None => {
                lemma_loop_count(s, st1, min_level, nlit);
            },
        }
    }
}

pub proof fn lemma_grouping_count(s: Seq<u8>, st: ScanState, nlit: int)
    requires
        sp_grouping(s, st, nlit) is Ok,
        st.current is Some,
        0 <= nlit,
    ensures
        ({
            let r = sp_grouping(s, st, nlit)->Ok_0;
            &&& st_wf(s, r.st)
            &&& r.st.current is Some
            &&& r.literals.len() == st_remaining(s, st) - st_remaining(s, r.st)
            &&& nlit + r.literals.len() <= 256
        }),
    decreases st_measure(s, st), 3int,
{
    let r1 = sp_prec(s, st, 1, nlit)->Ok_0;
    lemma_prec_count(s, st, 1, nlit);
    let st2 = sp_consume(s, r1.st, TokenType::RightParen, Message::ExpectRightParen)->Ok_0;
    lemma_sp_advance(s, r1.st);
    lemma_advance_remaining(s, r1.st);
}

pub proof fn lemma_unary_count(s: Seq<u8>, st: ScanState, nlit: int)
    requires
        sp_unary(s, st, nlit) is Ok,
        st.current is Some,
        0 <= nlit,
    ensures
        ({
            let r = sp_unary(s, st, nlit)->Ok_0;
            &&& st_wf(s, r.st)
            &&& r.st.current is Some
            &&& r.literals.len() == st_remaining(s, st) - st_remaining(s, r.st)
            &&& nlit + r.literals.len() <= 256
        }),
    decreases st_measure(s, st), 3int,
{
    lemma_prec_count(s, st, 8, nlit);
}

pub proof fn lemma_binary_count(s: Seq<u8>, st: ScanState, nlit: int)
    requires
        sp_binary(s, st, nlit) is Ok,
        st.current is Some,
        0 <= nlit,
    ensures
        ({
            let r = sp_binary(s, st, nlit)->Ok_0;
            &&& st_wf(s, r.st)
            &&& r.st.current is Some
            &&& r.literals.len() == st_remaining(s, st) - st_remaining(s, r.st)
            &&& nlit + r.literals.len() <= 256
        }),
    decreases st_measure(s, st), 3int,
{
    let operator_type = st.previous.unwrap().token_type;
    let rule = spec_get_rule(operator_type);
    lemma_prec_count(s, st, sp_one_higher(rule.precedence), nlit);
}

/// The constant-pool law: a successful compilation makes exactly one
/// constant slot per number token in the source, and never more than 256 —
/// so a source holding more than 256 numeric literals is always rejected.
pub proof fn lemma_pool_bound(s: Seq<u8>)
    ensures
        sp_compile(s) is Ok ==> sp_compile(s)->Ok_0.literals.len() == number_token_count(s, 0),
        sp_compile(s) is Ok ==> number_token_count(s, 0) <= 256,
        number_token_count(s, 0) > 256 ==> sp_compile(s) is Err,
{
    if sp_compile(s) is Ok {
        let st0 = ScanState { pos: 0, line: 1, previous: None, current: None };
        lemma_sp_advance(s, st0);
        lemma_advance_remaining(s, st0);
        let st1 = sp_advance(s, st0)->Ok_0;
        let r = sp_prec(s, st1, 1, 0)->Ok_0;
        lemma_prec_count(s, st1, 1, 0);
        // The expression ends at the end-of-input token, past which no
        // number token remains.
        let st2 = sp_consume(s, r.st, TokenType::Eof, Message::ExpectEndOfExpression)->Ok_0;
        assert(r.st.current.unwrap().token_type == TokenType::Eof);
        assert(r.st.pos == s.len());
        assert(number_token_count(s, s.len() as int) == 0);
        assert(st_remaining(s, r.st) == 0);
        assert(st_remaining(s, st0) == number_token_count(s, 0));
    }
}

} // verus!
