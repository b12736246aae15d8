//! Lexical scanner: turns source bytes into a stream of tokens, one per call.
//!
//! The scanner is a cursor over an immutable byte buffer. Each `scan_token`
//! call skips whitespace and line comments, then forms exactly one token;
//! once it returns the end-of-input token it keeps returning it. The
//! specification functions below give the mathematical account of that
//! behaviour, and `scan_token` is proved to follow it exactly.

use vstd::prelude::*;

verus! {

#[derive(Clone, Copy, Debug, PartialEq, Eq, Structural)]
pub enum TokenType {
    // Single-character tokens.
    LeftParen,
    RightParen,
    LeftBrace,
    RightBrace,
    Comma,
    Dot,
    Minus,
    Plus,
    Semicolon,
    Slash,
    Star,
    // One or two character tokens.
    Bang,
    BangEqual,
    Equal,
    EqualEqual,
    Greater,
    GreaterEqual,
    Less,
    LessEqual,
    // Literals.
    Identifier,
    String,
    Number,
    // Keywords.
    And,
    Class,
    Else,
    False,
    For,
    Fun,
    If,
    Nil,
    Or,
    Print,
    Return,
    Super,
    This,
    True,
    Var,
    While,
    Error,
    Eof,
}

/// A classified, located fragment of source text: its kind, the half-open
/// byte range of its lexeme, and the 1-based line it ends on.
#[derive(Clone, Copy, Debug, PartialEq, Eq, Structural)]
pub struct Token {
    pub token_type: TokenType,
    pub label_start: usize,
    pub label_end: usize,
    pub line: usize,
}

/// Space, carriage return or tab: skipped between tokens without note.
pub open spec fn is_blank(c: u8) -> bool {
    c == (' ' as u8) || c == ('\r' as u8) || c == ('\t' as u8)
}

pub open spec fn is_newline(c: u8) -> bool {
    c == ('\n' as u8)
}

pub open spec fn is_digit_byte(c: u8) -> bool {
    ('0' as u8) <= c && c <= ('9' as u8)
}

/// A byte that may start an identifier: a letter or an underscore.
pub open spec fn is_alpha_byte(c: u8) -> bool {
    c == ('_' as u8) || (('a' as u8) <= c && c <= ('z' as u8)) || (('A' as u8) <= c && c <= (
    'Z' as u8))
}

/// Position of the first byte at or after `i` that the scanner does not skip:
/// blanks, newlines and `//` line comments lie before it.
pub open spec fn ws_end(s: Seq<u8>, i: int) -> int
    decreases s.len() - i, 0int,
{
    if i < 0 || i >= s.len() {
        i
    } else if is_blank(s[i]) || is_newline(s[i]) {
        ws_end(s, i + 1)
    } else if s[i] == ('/' as u8) && i + 1 < s.len() && s[i + 1] == ('/' as u8) {
        comment_end(s, i + 2)
    } else {
        i
    }
}

/// Continues `ws_end` from inside a line comment: the comment runs to the
/// next newline, which is not part of it, or to the end of the source.
pub open spec fn comment_end(s: Seq<u8>, i: int) -> int
    decreases s.len() - i, 1int,
{
    if i < 0 || i >= s.len() {
        i
    } else if is_newline(s[i]) {
        ws_end(s, i)
    } else {
        comment_end(s, i + 1)
    }
}

/// How many newline bytes `s` holds in the half-open range `[lo, hi)`.
pub open spec fn count_nl(s: Seq<u8>, lo: int, hi: int) -> int
    decreases hi - lo,
{
    if lo >= hi {
        0
    } else {
        count_nl(s, lo, hi - 1) + if 0 <= hi - 1 < s.len() && is_newline(s[hi - 1]) {
            1int
        } else {
            0int
        }
    }
}

/// Position after a maximal run of digits starting at `i`.
pub open spec fn digits_end(s: Seq<u8>, i: int) -> int
    decreases s.len() - i,
{
    if 0 <= i < s.len() && is_digit_byte(s[i]) {
        digits_end(s, i + 1)
    } else {
        i
    }
}

/// Position after a maximal run of identifier bytes starting at `i`.
pub open spec fn ident_end(s: Seq<u8>, i: int) -> int
    decreases s.len() - i,
{
    if 0 <= i < s.len() && (is_alpha_byte(s[i]) || is_digit_byte(s[i])) {
        ident_end(s, i + 1)
    } else {
        i
    }
}

/// Position of the closing quote of a string whose body starts at `i`, or
/// the end of the source when the string is unterminated.
pub open spec fn string_body_end(s: Seq<u8>, i: int) -> int
    decreases s.len() - i,
{
    if 0 <= i < s.len() && s[i] != ('"' as u8) {
        string_body_end(s, i + 1)
    } else {
        i
    }
}

/// Position after a whole number lexeme whose first digit lies just before
/// `i`: more digits, then a fractional part only when a digit directly
/// follows the dot.
pub open spec fn number_end(s: Seq<u8>, i: int) -> int {
    let d = digits_end(s, i);
    if d < s.len() && s[d] == ('.' as u8) && d + 1 < s.len() && is_digit_byte(s[d + 1]) {
        digits_end(s, d + 1)
    } else {
        d
    }
}

/// The identifier `s[st..en]` continues, from `st + offset` on, exactly with
/// the bytes of `rest` and nothing more.
pub open spec fn kw_match(s: Seq<u8>, st: int, en: int, offset: int, rest: Seq<u8>) -> bool {
    &&& en - st == offset + rest.len()
    &&& forall|j: int| 0 <= j < rest.len() ==> s[st + offset + j] == rest[j]
}

/// Which keyword, if any, the identifier lexeme `s[st..en]` spells; anything
/// off the closed keyword list is a plain identifier.
pub open spec fn keyword_type(s: Seq<u8>, st: int, en: int) -> TokenType {
    let c = s[st];
    if c == ('a' as u8) {
        if kw_match(s, st, en, 1, seq![('n' as u8), ('d' as u8)]) {
            TokenType::And
        } else {
            TokenType::Identifier
        }
    } else if c == ('c' as u8) {
        if kw_match(s, st, en, 1, seq![('l' as u8), ('a' as u8), ('s' as u8), ('s' as u8)]) {
            TokenType::Class
        } else {
            TokenType::Identifier
        }
    } else if c == ('e' as u8) {
        if kw_match(s, st, en, 1, seq![('l' as u8), ('s' as u8), ('e' as u8)]) {
            TokenType::Else
        } else {
            TokenType::Identifier
        }
    } else if c == ('f' as u8) {
        if en - st > 1 {
            if s[st + 1] == ('a' as u8) {
                if kw_match(s, st, en, 2, seq![('l' as u8), ('s' as u8), ('e' as u8)]) {
                    TokenType::False
                } else {
                    TokenType::Identifier
                }
            } else if s[st + 1] == ('o' as u8) {
                if kw_match(s, st, en, 2, seq![('r' as u8)]) {
                    TokenType::For
                } else {
                    TokenType::Identifier
                }
            } else if s[st + 1] == ('u' as u8) {
                if kw_match(s, st, en, 2, seq![('n' as u8)]) {
                    TokenType::Fun
                } else {
                    TokenType::Identifier
                }
            } else {
                TokenType::Identifier
            }
        } else {
            TokenType::Identifier
        }
    } else if c == ('i' as u8) {
        if kw_match(s, st, en, 1, seq![('f' as u8)]) {
            TokenType::If
        } else {
            TokenType::Identifier
        }
    } else if c == ('n' as u8) {
        if kw_match(s, st, en, 1, seq![('i' as u8), ('l' as u8)]) {
            TokenType::Nil
        } else {
            TokenType::Identifier
        }
    } else if c == ('o' as u8) {
        if kw_match(s, st, en, 1, seq![('r' as u8)]) {
            TokenType::Or
        } else {
            TokenType::Identifier
        }
    } else if c == ('p' as u8) {
        if kw_match(s, st, en, 1, seq![('r' as u8), ('i' as u8), ('n' as u8), ('t' as u8)]) {
            TokenType::Print
        } else {
            TokenType::Identifier
        }
    } else if c == ('r' as u8) {
        if kw_match(
            s,
            st,
            en,
            1,
            seq![('e' as u8), ('t' as u8), ('u' as u8), ('r' as u8), ('n' as u8)],
        ) {
            TokenType::Return
        } else {
            TokenType::Identifier
        }
    } else if c == ('s' as u8) {
        if kw_match(s, st, en, 1, seq![('u' as u8), ('p' as u8), ('e' as u8), ('r' as u8)]) {
            TokenType::Super
        } else {
            TokenType::Identifier
        }
    } else if c == ('t' as u8) {
        if en - st > 1 {
            if s[st + 1] == ('h' as u8) {
                if kw_match(s, st, en, 2, seq![('i' as u8), ('s' as u8)]) {
                    TokenType::This
                } else {
                    TokenType::Identifier
                }
            } else if s[st + 1] == ('r' as u8) {
                if kw_match(s, st, en, 2, seq![('u' as u8), ('e' as u8)]) {
                    TokenType::True
                } else {
                    TokenType::Identifier
                }
            } else {
                TokenType::Identifier
            }
        } else {
            TokenType::Identifier
        }
    } else if c == ('v' as u8) {
        if kw_match(s, st, en, 1, seq![('a' as u8), ('r' as u8)]) {
            TokenType::Var
        } else {
            TokenType::Identifier
        }
    } else if c == ('w' as u8) {
        if kw_match(s, st, en, 1, seq![('h' as u8), ('i' as u8), ('l' as u8), ('e' as u8)]) {
            TokenType::While
        } else {
            TokenType::Identifier
        }
    } else {
        TokenType::Identifier
    }
}

/// What one `scan_token` call does from cursor position `pos`: the token's
/// kind, its lexeme range, and the cursor position after it, in that order.
/// Error tokens carry an empty lexeme range.
pub open spec fn spec_scan(s: Seq<u8>, pos: int) -> (TokenType, int, int, int) {
    let st = ws_end(s, pos);
    if st >= s.len() {
        (TokenType::Eof, st, st, st)
    } else {
        let c = s[st];
        if c == ('(' as u8) {
            (TokenType::LeftParen, st, st + 1, st + 1)
        } else if c == (')' as u8) {
            (TokenType::RightParen, st, st + 1, st + 1)
        } else if c == ('{' as u8) {
            (TokenType::LeftBrace, st, st + 1, st + 1)
        } else if c == ('}' as u8) {
            (TokenType::RightBrace, st, st + 1, st + 1)
        } else if c == (';' as u8) {
            (TokenType::Semicolon, st, st + 1, st + 1)
        } else if c == (',' as u8) {
            (TokenType::Comma, st, st + 1, st + 1)
        } else if c == ('.' as u8) {
            (TokenType::Dot, st, st + 1, st + 1)
        } else if c == ('-' as u8) {
            (TokenType::Minus, st, st + 1, st + 1)
        } else if c == ('+' as u8) {
            (TokenType::Plus, st, st + 1, st + 1)
        } else if c == ('/' as u8) {
            (TokenType::Slash, st, st + 1, st + 1)
        } else if c == ('*' as u8) {
            (TokenType::Star, st, st + 1, st + 1)
        } else if c == ('!' as u8) {
            if st + 1 < s.len() && s[st + 1] == ('=' as u8) {
                (TokenType::BangEqual, st, st + 2, st + 2)
            } else {
                (TokenType::Bang, st, st + 1, st + 1)
            }
        } else if c == ('=' as u8) {
            if st + 1 < s.len() && s[st + 1] == ('=' as u8) {
                (TokenType::EqualEqual, st, st + 2, st + 2)
            } else {
                (TokenType::Equal, st, st + 1, st + 1)
            }
        } else if c == ('<' as u8) {
            if st + 1 < s.len() && s[st + 1] == ('=' as u8) {
                (TokenType::LessEqual, st, st + 2, st + 2)
            } else {
                (TokenType::Less, st, st + 1, st + 1)
            }
        } else if c == ('>' as u8) {
            if st + 1 < s.len() && s[st + 1] == ('=' as u8) {
                (TokenType::GreaterEqual, st, st + 2, st + 2)
            } else {
                (TokenType::Greater, st, st + 1, st + 1)
            }
        } else if c == ('"' as u8) {
            let e = string_body_end(s, st + 1);
            if e >= s.len() {
                (TokenType::Error, 0, 0, e)
            } else {
                (TokenType::String, st, e + 1, e + 1)
            }
        } else if is_alpha_byte(c) {
            let e = ident_end(s, st + 1);
            (keyword_type(s, st, e), st, e, e)
        } else if is_digit_byte(c) {
            let e = number_end(s, st + 1);
            (TokenType::Number, st, e, e)
        } else {
            (TokenType::Error, 0, 0, st + 1)
        }
    }
}

} // verus!

verus! {

pub proof fn lemma_ws_end_bounds(s: Seq<u8>, i: int)
    requires
        0 <= i <= s.len(),
    ensures
        i <= ws_end(s, i) <= s.len(),
    decreases s.len() - i, 0int,
{
    if i < s.len() {
        if is_blank(s[i]) || is_newline(s[i]) {
            lemma_ws_end_bounds(s, i + 1);
        } else if s[i] == ('/' as u8) && i + 1 < s.len() && s[i + 1] == ('/' as u8) {
            lemma_comment_end_bounds(s, i + 2);
        }
    }
}

pub proof fn lemma_comment_end_bounds(s: Seq<u8>, i: int)
    requires
        0 <= i <= s.len(),
    ensures
        i <= comment_end(s, i) <= s.len(),
    decreases s.len() - i, 1int,
{
    if i < s.len() {
        if is_newline(s[i]) {
            lemma_ws_end_bounds(s, i);
        } else {
            lemma_comment_end_bounds(s, i + 1);
        }
    }
}

pub proof fn lemma_digits_end_bounds(s: Seq<u8>, i: int)
    requires
        0 <= i <= s.len(),
    ensures
        i <= digits_end(s, i) <= s.len(),
        forall|k: int| i <= k < digits_end(s, i) ==> is_digit_byte(s[k]),
    decreases s.len() - i,
{
    if i < s.len() && is_digit_byte(s[i]) {
        lemma_digits_end_bounds(s, i + 1);
    }
}

pub proof fn lemma_ident_end_bounds(s: Seq<u8>, i: int)
    requires
        0 <= i <= s.len(),
    ensures
        i <= ident_end(s, i) <= s.len(),
        forall|k: int| i <= k < ident_end(s, i) ==> is_alpha_byte(s[k]) || is_digit_byte(s[k]),
    decreases s.len() - i,
{
    if i < s.len() && (is_alpha_byte(s[i]) || is_digit_byte(s[i])) {
        lemma_ident_end_bounds(s, i + 1);
    }
}

pub proof fn lemma_string_body_end_bounds(s: Seq<u8>, i: int)
    requires
        0 <= i <= s.len(),
    ensures
        i <= string_body_end(s, i) <= s.len(),
    decreases s.len() - i,
{
    if i < s.len() && s[i] != ('"' as u8) {
        lemma_string_body_end_bounds(s, i + 1);
    }
}

pub proof fn lemma_number_end_bounds(s: Seq<u8>, i: int)
    requires
        0 <= i <= s.len(),
    ensures
        i <= number_end(s, i) <= s.len(),
        forall|k: int| i <= k < number_end(s, i) ==> !is_newline(s[k]),
{
    lemma_digits_end_bounds(s, i);
    let d = digits_end(s, i);
    if d < s.len() && s[d] == ('.' as u8) && d + 1 < s.len() && is_digit_byte(s[d + 1]) {
        lemma_digits_end_bounds(s, d + 1);
    }
}

pub proof fn lemma_count_nl_bounds(s: Seq<u8>, lo: int, hi: int)
    requires
        lo <= hi,
    ensures
        0 <= count_nl(s, lo, hi) <= hi - lo,
    decreases hi - lo,
{
    if lo < hi {
        lemma_count_nl_bounds(s, lo, hi - 1);
    }
}

pub proof fn lemma_count_nl_split(s: Seq<u8>, lo: int, mid: int, hi: int)
    requires
        lo <= mid <= hi,
    ensures
        count_nl(s, lo, hi) == count_nl(s, lo, mid) + count_nl(s, mid, hi),
    decreases hi - mid,
{
    if mid < hi {
        lemma_count_nl_split(s, lo, mid, hi - 1);
    }
}

pub proof fn lemma_count_nl_none(s: Seq<u8>, lo: int, hi: int)
    requires
        lo <= hi,
        forall|k: int| lo <= k < hi && 0 <= k < s.len() ==> !is_newline(s[k]),
    ensures
        count_nl(s, lo, hi) == 0,
    decreases hi - lo,
{
    if lo < hi {
        lemma_count_nl_none(s, lo, hi - 1);
    }
}

/// Scanning at the end of the source yields the end-of-input token and does
/// not move: every later call keeps returning end-of-input.
pub proof fn lemma_scan_at_end(s: Seq<u8>)
    ensures
        spec_scan(s, s.len() as int) == (TokenType::Eof, s.len() as int, s.len() as int, s.len() as int),
{
}

} // verus!

verus! {

/// Cursor state of one scan over a fixed source buffer: the start of the
/// token being formed, the read position, and the 1-based current line.
pub struct Scanner {
    start: usize,
    current: usize,
    line: usize,
}

impl Scanner {
    /// The byte position of the start of the most recent token's lexeme.
    pub closed spec fn token_start(&self) -> int {
        self.start as int
    }

    /// The byte position the next token will be scanned from.
    pub closed spec fn cursor(&self) -> int {
        self.current as int
    }

    /// The 1-based line number at the read position.
    pub closed spec fn line_num(&self) -> int {
        self.line as int
    }

    /// The scanner's own invariant: the token start never passes the read
    /// position, and the line count never exceeds one more than the number
    /// of bytes read.
    pub closed spec fn wf(&self) -> bool {
        &&& self.start <= self.current
        &&& 1 <= self.line
        &&& self.line <= self.current + 1
    }

    pub fn new() -> (s: Self)
        ensures
            s.wf(),
            s.token_start() == 0,
            s.cursor() == 0,
            s.line_num() == 1,
    {
        Scanner { start: 0, current: 0, line: 1 }
    }

    fn is_at_end(&self, source: &[u8]) -> (r: bool)
        ensures
            r == (self.cursor() >= source@.len()),
    {
        self.current >= source.len()
    }

    fn peek(&self, source: &[u8]) -> (r: Option<u8>)
        ensures
            r == (if self.cursor() < source@.len() {
                Some(source@[self.cursor()])
            } else {
                None::<u8>
            }),
    {
        if self.is_at_end(source) {
            return None;
        }
        Some(source[self.current])
    }

    fn peek_next(&self, source: &[u8]) -> (r: Option<u8>)
        requires
            self.cursor() <= source@.len(),
        ensures
            r == (if self.cursor() + 1 < source@.len() {
                Some(source@[self.cursor() + 1])
            } else {
                None::<u8>
            }),
    {
        if source.len() - self.current < 2 {
            return None;
        }
        Some(source[self.current + 1])
    }

    fn advance(&mut self, source: &[u8]) -> (c: u8)
        requires
            old(self).cursor() < source@.len(),
            source@.len() < usize::MAX,
        ensures
            final(self).current == old(self).current + 1,
            c == source@[old(self).cursor()],
            final(self).start == old(self).start,
            final(self).line == old(self).line,
    {
        self.current += 1;
        source[self.current - 1]
    }

    fn accept(&mut self, source: &[u8], expected: u8) -> (r: bool)
        requires
            old(self).cursor() <= source@.len(),
            source@.len() < usize::MAX,
        ensures
            final(self).start == old(self).start,
            final(self).line == old(self).line,
            old(self).cursor() < source@.len() && source@[old(self).cursor()] == expected ==> r
                && final(self).current == old(self).current + 1,
            !(old(self).cursor() < source@.len() && source@[old(self).cursor()] == expected) ==> !r
                && final(self).current == old(self).current,
    {
        if self.is_at_end(source) {
            return false;
        }
        if source[self.current] != expected {
            return false;
        }
        self.current += 1;
        true
    }

    fn is_alpha(c: u8) -> (r: bool)
        ensures
            r == is_alpha_byte(c),
    {
        c == ('_' as u8) || (('a' as u8) <= c && c <= ('z' as u8)) || (('A' as u8) <= c && c <= (
        'Z' as u8))
    }

    fn is_digit(c: u8) -> (r: bool)
        ensures
            r == is_digit_byte(c),
    {
        ('0' as u8) <= c && c <= ('9' as u8)
    }

    fn make_token(&self, token_type: TokenType) -> (t: Token)
        ensures
            t == (Token {
                token_type,
                label_start: (self.token_start() as usize),
                label_end: (self.cursor() as usize),
                line: (self.line_num() as usize),
            }),
    {
        Token { token_type, label_start: self.start, label_end: self.current, line: self.line }
    }

    fn error_token(&self) -> (t: Token)
        ensures
            t == (Token {
                token_type: TokenType::Error,
                label_start: 0,
                label_end: 0,
                line: (self.line_num() as usize),
            }),
    {
        Token { token_type: TokenType::Error, label_start: 0, label_end: 0, line: self.line }
    }

    #[verifier::loop_isolation(false)]
    fn skip_whitespace(&mut self, source: &[u8])
        requires
            old(self).wf(),
            old(self).cursor() <= source@.len(),
            source@.len() < usize::MAX,
        ensures
            final(self).wf(),
            final(self).start == old(self).start,
            final(self).cursor() == ws_end(source@, old(self).cursor()),
            final(self).line_num() == old(self).line_num() + count_nl(
                source@,
                old(self).cursor(),
                final(self).cursor(),
            ),
            old(self).cursor() <= final(self).cursor() <= source@.len(),
    {
        let ghost s = source@;
        let ghost cur0 = self.current as int;
        let ghost line0 = self.line as int;
        let ghost start0 = self.start;
        proof {
            lemma_ws_end_bounds(s, cur0);
        }
        loop
            invariant
                self.wf(),
                self.start == start0,
                self.current <= source@.len(),
                source@.len() < usize::MAX,
                s == source@,
                cur0 <= self.current as int,
                ws_end(s, self.current as int) == ws_end(s, cur0),
                self.line as int == line0 + count_nl(s, cur0, self.current as int),
            decreases source@.len() - self.current,
        {
            let c = match self.peek(source) {
                Some(c) => c,
                None => { return ; },
            };
            if c == (' ' as u8) || c == ('\r' as u8) || c == ('\t' as u8) {
                proof {
                    lemma_count_nl_split(s, cur0, self.current as int, self.current as int + 1);
                }
                let _ = self.advance(source);
            } else if c == ('\n' as u8) {
                proof {
                    lemma_count_nl_split(s, cur0, self.current as int, self.current as int + 1);
                }
                self.line += 1;
                let _ = self.advance(source);
            } else if c == ('/' as u8) {
                let next_is_slash = match self.peek_next(source) {
                    Some(c2) => c2 == ('/' as u8),
                    None => false,
                };
                if !next_is_slash {
                    return ;
                }
                // A line comment: consume up to, but not past, the newline.
                let ghost centry = self.current as int;
                proof {
                    assert(comment_end(s, centry) == comment_end(s, centry + 1));
                    assert(comment_end(s, centry + 1) == comment_end(s, centry + 2));
                    assert(ws_end(s, centry) == comment_end(s, centry + 2));
                }
                loop
                    invariant
                        self.wf(),
                        self.start == old(self).start,
                        self.current <= source@.len(),
                        source@.len() < usize::MAX,
                        s == source@,
                        cur0 <= centry <= self.current as int,
                        comment_end(s, self.current as int) == ws_end(s, cur0),
                        self.line as int == line0 + count_nl(s, cur0, self.current as int),
                        count_nl(s, centry, self.current as int) == 0,
                    decreases source@.len() - self.current,
                {
                    let cc = match self.peek(source) {
                        Some(cc) => cc,
                        None => { break ; },
                    };
                    if cc == ('\n' as u8) {
                        break ;
                    }
                    proof {
                        lemma_count_nl_split(s, cur0, self.current as int, self.current as int + 1);
                        lemma_count_nl_split(s, centry, self.current as int, self.current as int + 1);
                    }
                    let _ = self.advance(source);
                }
            } else {
                return ;
            }
        }
    }
}

} // verus!

verus! {

/// The position `ws_end` reaches is a fixpoint: nothing skippable stands there.
pub proof fn lemma_ws_end_fix(s: Seq<u8>, i: int)
    requires
        0 <= i <= s.len(),
    ensures
        ({
            let w = ws_end(s, i);
            &&& i <= w <= s.len()
            &&& (w < s.len() ==> !is_blank(s[w]) && !is_newline(s[w]))
            &&& (w < s.len() ==> !(s[w] == ('/' as u8) && w + 1 < s.len() && s[w + 1] == (
            '/' as u8)))
        }),
    decreases s.len() - i, 0int,
{
    if i < s.len() {
        if is_blank(s[i]) || is_newline(s[i]) {
            lemma_ws_end_fix(s, i + 1);
        } else if s[i] == ('/' as u8) && i + 1 < s.len() && s[i + 1] == ('/' as u8) {
            lemma_comment_end_fix(s, i + 2);
        }
    }
}

pub proof fn lemma_comment_end_fix(s: Seq<u8>, i: int)
    requires
        0 <= i <= s.len(),
    ensures
        ({
            let w = comment_end(s, i);
            &&& i <= w <= s.len()
            &&& (w < s.len() ==> !is_blank(s[w]) && !is_newline(s[w]))
            &&& (w < s.len() ==> !(s[w] == ('/' as u8) && w + 1 < s.len() && s[w + 1] == (
            '/' as u8)))
        }),
    decreases s.len() - i, 1int,
{
    if i < s.len() {
        if is_newline(s[i]) {
            lemma_ws_end_fix(s, i);
        } else {
            lemma_comment_end_fix(s, i + 1);
        }
    }
}

impl Scanner {
    #[verifier::loop_isolation(false)]
    fn string(&mut self, source: &[u8]) -> (t: Token)
        requires
            old(self).wf(),
            old(self).cursor() <= source@.len(),
            source@.len() < usize::MAX,
        ensures
            final(self).wf(),
            final(self).start == old(self).start,
            final(self).line_num() == old(self).line_num() + count_nl(
                source@,
                old(self).cursor(),
                final(self).cursor(),
            ),
            old(self).cursor() <= final(self).cursor() <= source@.len(),
            ({
                let e = string_body_end(source@, old(self).cursor());
                if e >= source@.len() {
                    final(self).cursor() == e && t == (Token {
                        token_type: TokenType::Error,
                        label_start: 0,
                        label_end: 0,
                        line: (final(self).line_num() as usize),
                    })
                } else {
                    final(self).cursor() == e + 1 && t == (Token {
                        token_type: TokenType::String,
                        label_start: (final(self).token_start() as usize),
                        label_end: (final(self).cursor() as usize),
                        line: (final(self).line_num() as usize),
                    })
                }
            }),
    {
        let ghost s = source@;
        let ghost cur0 = self.current as int;
        proof {
            lemma_string_body_end_bounds(s, cur0);
        }
        loop
            invariant
                self.wf(),
                self.start == old(self).start,
                self.current <= source@.len(),
                cur0 <= self.current as int,
                string_body_end(s, self.current as int) == string_body_end(s, cur0),
                self.line as int == old(self).line as int + count_nl(s, cur0, self.current as int),
            decreases source@.len() - self.current,
        {
            let c = match self.peek(source) {
                Some(c) => c,
                None => { break ; },
            };
            if c == ('"' as u8) {
                break ;
            }
            proof {
                lemma_count_nl_split(s, cur0, self.current as int, self.current as int + 1);
            }
            if c == ('\n' as u8) {
                self.line += 1;
            }
            let _ = self.advance(source);
        }
        if self.is_at_end(source) {
            return self.error_token();
        }
        // The closing quote.
        proof {
            lemma_count_nl_split(s, cur0, self.current as int, self.current as int + 1);
        }
        let _ = self.advance(source);
        self.make_token(TokenType::String)
    }

    #[verifier::loop_isolation(false)]
    fn number(&mut self, source: &[u8]) -> (t: Token)
        requires
            old(self).wf(),
            old(self).cursor() <= source@.len(),
            source@.len() < usize::MAX,
        ensures
            final(self).wf(),
            final(self).start == old(self).start,
            final(self).line == old(self).line,
            final(self).cursor() == number_end(source@, old(self).cursor()),
            old(self).cursor() <= final(self).cursor() <= source@.len(),
            t == (Token {
                token_type: TokenType::Number,
                label_start: (final(self).token_start() as usize),
                label_end: (final(self).cursor() as usize),
                line: (final(self).line_num() as usize),
            }),
    {
        let ghost s = source@;
        let ghost cur0 = self.current as int;
        proof {
            lemma_digits_end_bounds(s, cur0);
        }
        loop
            invariant
                self.wf(),
                self.start == old(self).start,
                self.line == old(self).line,
                self.current <= source@.len(),
                cur0 <= self.current as int,
                digits_end(s, self.current as int) == digits_end(s, cur0),
            decreases source@.len() - self.current,
        {
            let c = match self.peek(source) {
                Some(c) => c,
                None => { break ; },
            };
            if !Scanner::is_digit(c) {
                break ;
            }
            let _ = self.advance(source);
        }
        let ghost d = self.current as int;
        // Look for a fractional part.
        let dot_here = match self.peek(source) {
            Some(c) => c == ('.' as u8),
            None => false,
        };
        let digit_next = match self.peek_next(source) {
            Some(c) => Scanner::is_digit(c),
            None => false,
        };
        if dot_here && digit_next {
            // Consume the ".".
            let _ = self.advance(source);
            proof {
                lemma_digits_end_bounds(s, self.current as int);
            }
            loop
                invariant
                    self.wf(),
                    self.start == old(self).start,
                    self.line == old(self).line,
                    self.current <= source@.len(),
                    d + 1 <= self.current as int,
                    digits_end(s, self.current as int) == digits_end(s, d + 1),
                decreases source@.len() - self.current,
            {
                let c = match self.peek(source) {
                    Some(c) => c,
                    None => { break ; },
                };
                if !Scanner::is_digit(c) {
                    break ;
                }
                let _ = self.advance(source);
            }
        }
        self.make_token(TokenType::Number)
    }

    fn check_keyword(
        &self,
        source: &[u8],
        offset: usize,
        rest: &[u8],
        token_type: TokenType,
    ) -> (r: TokenType)
        requires
            self.token_start() <= self.cursor() <= source@.len(),
            offset <= 2,
            rest@.len() <= 5,
        ensures
            r == (if kw_match(source@, self.token_start(), self.cursor(), offset as int, rest@) {
                token_type
            } else {
                TokenType::Identifier
            }),
    {
        if self.current - self.start != offset + rest.len() {
            return TokenType::Identifier;
        }
        let mut j: usize = 0;
        #[verifier::loop_isolation(false)]
        while j < rest.len()
            invariant
                j <= rest@.len(),
                forall|k: int|
                    0 <= k < j ==> source@[self.token_start() + offset + k] == rest@[k],
            decreases rest@.len() - j,
        {
            if source[self.start + offset + j] != rest[j] {
                return TokenType::Identifier;
            }
            j += 1;
        }
        token_type
    }
}

} // verus!

verus! {

impl Scanner {
    fn identifier_type(&self, source: &[u8]) -> (r: TokenType)
        requires
            self.token_start() < self.cursor() <= source@.len(),
        ensures
            r == keyword_type(source@, self.token_start(), self.cursor()),
    {
        let c = source[self.start];
        if c == ('a' as u8) {
            let rest = vec![('n' as u8), ('d' as u8)];
            proof {
                assert(rest@ =~= seq![('n' as u8), ('d' as u8)]);
            }
            self.check_keyword(source, 1, &rest, TokenType::And)
        } else if c == ('c' as u8) {
            let rest = vec![('l' as u8), ('a' as u8), ('s' as u8), ('s' as u8)];
            proof {
                assert(rest@ =~= seq![('l' as u8), ('a' as u8), ('s' as u8), ('s' as u8)]);
            }
            self.check_keyword(source, 1, &rest, TokenType::Class)
        } else if c == ('e' as u8) {
            let rest = vec![('l' as u8), ('s' as u8), ('e' as u8)];
            proof {
                assert(rest@ =~= seq![('l' as u8), ('s' as u8), ('e' as u8)]);
            }
            self.check_keyword(source, 1, &rest, TokenType::Else)
        } else if c == ('f' as u8) {
            if self.current - self.start > 1 {
                let c1 = source[self.start + 1];
                if c1 == ('a' as u8) {
                    let rest = vec![('l' as u8), ('s' as u8), ('e' as u8)];
                    proof {
                        assert(rest@ =~= seq![('l' as u8), ('s' as u8), ('e' as u8)]);
                    }
                    self.check_keyword(source, 2, &rest, TokenType::False)
                } else if c1 == ('o' as u8) {
                    let rest = vec![('r' as u8)];
                    proof {
                        assert(rest@ =~= seq![('r' as u8)]);
                    }
                    self.check_keyword(source, 2, &rest, TokenType::For)
                } else if c1 == ('u' as u8) {
                    let rest = vec![('n' as u8)];
                    proof {
                        assert(rest@ =~= seq![('n' as u8)]);
                    }
                    self.check_keyword(source, 2, &rest, TokenType::Fun)
                } else {
                    TokenType::Identifier
                }
            } else {
                TokenType::Identifier
            }
        } else if c == ('i' as u8) {
            let rest = vec![('f' as u8)];
            proof {
                assert(rest@ =~= seq![('f' as u8)]);
            }
            self.check_keyword(source, 1, &rest, TokenType::If)
        } else if c == ('n' as u8) {
            let rest = vec![('i' as u8), ('l' as u8)];
            proof {
                assert(rest@ =~= seq![('i' as u8), ('l' as u8)]);
            }
            self.check_keyword(source, 1, &rest, TokenType::Nil)
        } else if c == ('o' as u8) {
            let rest = vec![('r' as u8)];
            proof {
                assert(rest@ =~= seq![('r' as u8)]);
            }
            self.check_keyword(source, 1, &rest, TokenType::Or)
        } else if c == ('p' as u8) {
            let rest = vec![('r' as u8), ('i' as u8), ('n' as u8), ('t' as u8)];
            proof {
                assert(rest@ =~= seq![('r' as u8), ('i' as u8), ('n' as u8), ('t' as u8)]);
            }
            self.check_keyword(source, 1, &rest, TokenType::Print)
        } else if c == ('r' as u8) {
            let rest = vec![('e' as u8), ('t' as u8), ('u' as u8), ('r' as u8), ('n' as u8)];
            proof {
                assert(rest@ =~= seq![('e' as u8), ('t' as u8), ('u' as u8), ('r' as u8), ('n' as u8)]);
            }
            self.check_keyword(source, 1, &rest, TokenType::Return)
        } else if c == ('s' as u8) {
            let rest = vec![('u' as u8), ('p' as u8), ('e' as u8), ('r' as u8)];
            proof {
                assert(rest@ =~= seq![('u' as u8), ('p' as u8), ('e' as u8), ('r' as u8)]);
            }
            self.check_keyword(source, 1, &rest, TokenType::Super)
        } else if c == ('t' as u8) {
            if self.current - self.start > 1 {
                let c1 = source[self.start + 1];
                if c1 == ('h' as u8) {
                    let rest = vec![('i' as u8), ('s' as u8)];
                    proof {
                        assert(rest@ =~= seq![('i' as u8), ('s' as u8)]);
                    }
                    self.check_keyword(source, 2, &rest, TokenType::This)
                } else if c1 == ('r' as u8) {
                    let rest = vec![('u' as u8), ('e' as u8)];
                    proof {
                        assert(rest@ =~= seq![('u' as u8), ('e' as u8)]);
                    }
                    self.check_keyword(source, 2, &rest, TokenType::True)
                } else {
                    TokenType::Identifier
                }
            } else {
                TokenType::Identifier
            }
        } else if c == ('v' as u8) {
            let rest = vec![('a' as u8), ('r' as u8)];
            proof {
                assert(rest@ =~= seq![('a' as u8), ('r' as u8)]);
            }
            self.check_keyword(source, 1, &rest, TokenType::Var)
        } else if c == ('w' as u8) {
            let rest = vec![('h' as u8), ('i' as u8), ('l' as u8), ('e' as u8)];
            proof {
                assert(rest@ =~= seq![('h' as u8), ('i' as u8), ('l' as u8), ('e' as u8)]);
            }
            self.check_keyword(source, 1, &rest, TokenType::While)
        } else {
            TokenType::Identifier
        }
    }

    #[verifier::loop_isolation(false)]
    fn identifier(&mut self, source: &[u8]) -> (t: Token)
        requires
            old(self).wf(),
            old(self).token_start() < old(self).cursor(),
            old(self).cursor() <= source@.len(),
            source@.len() < usize::MAX,
        ensures
            final(self).wf(),
            final(self).start == old(self).start,
            final(self).line == old(self).line,
            final(self).cursor() == ident_end(source@, old(self).cursor()),
            old(self).cursor() <= final(self).cursor() <= source@.len(),
            t == (Token {
                token_type: keyword_type(source@, final(self).token_start(), final(self).cursor()),
                label_start: (final(self).token_start() as usize),
                label_end: (final(self).cursor() as usize),
                line: (final(self).line_num() as usize),
            }),
    {
        let ghost s = source@;
        let ghost cur0 = self.current as int;
        proof {
            lemma_ident_end_bounds(s, cur0);
        }
        loop
            invariant
                self.wf(),
                self.start == old(self).start,
                self.line == old(self).line,
                self.current <= source@.len(),
                cur0 <= self.current as int,
                ident_end(s, self.current as int) == ident_end(s, cur0),
            decreases source@.len() - self.current,
        {
            let c = match self.peek(source) {
                Some(c) => c,
                None => { break ; },
            };
            if !(Scanner::is_alpha(c) || Scanner::is_digit(c)) {
                break ;
            }
            let _ = self.advance(source);
        }
        self.make_token(self.identifier_type(source))
    }
}

} // verus!

verus! {

impl Scanner {
    /// Scans and returns the next token, moving the cursor past it. Follows
    /// `spec_scan` exactly; after the end-of-input token the cursor rests at
    /// the end of the source, so every later call returns end-of-input again.
    pub fn scan_token(&mut self, source: &[u8]) -> (token: Token)
        requires
            old(self).wf(),
            old(self).cursor() <= source@.len(),
            source@.len() < usize::MAX,
        ensures
            final(self).wf(),
            ({
                let (tt, a, b, np) = spec_scan(source@, old(self).cursor());
                &&& token.token_type == tt
                &&& token.label_start == a
                &&& token.label_end == b
                &&& final(self).cursor() == np
            }),
            token.line == old(self).line_num() + count_nl(
                source@,
                old(self).cursor(),
                final(self).cursor(),
            ),
            final(self).line_num() == token.line,
            final(self).token_start() == ws_end(source@, old(self).cursor()),
            old(self).cursor() <= final(self).cursor() <= source@.len(),
            token.label_start <= token.label_end <= final(self).cursor(),
            token.token_type != TokenType::Eof ==> old(self).cursor() < final(self).cursor(),
            token.token_type == TokenType::Eof ==> final(self).cursor() == source@.len(),
    {
        let ghost s = source@;
        let ghost cur0 = self.current as int;
        proof {
            lemma_ws_end_fix(s, cur0);
        }
        self.skip_whitespace(source);
        self.start = self.current;
        let ghost st = self.current as int;

        if self.is_at_end(source) {
            return self.make_token(TokenType::Eof);
        }

        let c = self.advance(source);
        if c == ('(' as u8) {
            return self.make_token(TokenType::LeftParen);
        }
        if c == (')' as u8) {
            return self.make_token(TokenType::RightParen);
        }
        if c == ('{' as u8) {
            return self.make_token(TokenType::LeftBrace);
        }
        if c == ('}' as u8) {
            return self.make_token(TokenType::RightBrace);
        }
        if c == (';' as u8) {
            return self.make_token(TokenType::Semicolon);
        }
        if c == (',' as u8) {
            return self.make_token(TokenType::Comma);
        }
        if c == ('.' as u8) {
            return self.make_token(TokenType::Dot);
        }
        if c == ('-' as u8) {
            return self.make_token(TokenType::Minus);
        }
        if c == ('+' as u8) {
            return self.make_token(TokenType::Plus);
        }
        if c == ('/' as u8) {
            return self.make_token(TokenType::Slash);
        }
        if c == ('*' as u8) {
            return self.make_token(TokenType::Star);
        }
        if c == ('!' as u8) {
            let token_type = if self.accept(source, ('=' as u8)) {
                TokenType::BangEqual
            } else {
                TokenType::Bang
            };
            proof {
                lemma_count_nl_split(s, cur0, st, self.current as int);
                lemma_count_nl_none(s, st, self.current as int);
            }
            return self.make_token(token_type);
        }
        if c == ('=' as u8) {
            let token_type = if self.accept(source, ('=' as u8)) {
                TokenType::EqualEqual
            } else {
                TokenType::Equal
            };
            proof {
                lemma_count_nl_split(s, cur0, st, self.current as int);
                lemma_count_nl_none(s, st, self.current as int);
            }
            return self.make_token(token_type);
        }
        if c == ('<' as u8) {
            let token_type = if self.accept(source, ('=' as u8)) {
                TokenType::LessEqual
            } else {
                TokenType::Less
            };
            proof {
                lemma_count_nl_split(s, cur0, st, self.current as int);
                lemma_count_nl_none(s, st, self.current as int);
            }
            return self.make_token(token_type);
        }
        if c == ('>' as u8) {
            let token_type = if self.accept(source, ('=' as u8)) {
                TokenType::GreaterEqual
            } else {
                TokenType::Greater
            };
            proof {
                lemma_count_nl_split(s, cur0, st, self.current as int);
                lemma_count_nl_none(s, st, self.current as int);
            }
            return self.make_token(token_type);
        }
        if c == ('"' as u8) {
            let token = self.string(source);
            proof {
                lemma_count_nl_split(s, cur0, st, st + 1);
                lemma_count_nl_split(s, cur0, st + 1, self.current as int);
            }
            return token;
        }
        if Scanner::is_alpha(c) {
            let token = self.identifier(source);
            proof {
                lemma_ident_end_bounds(s, st + 1);
                lemma_count_nl_split(s, cur0, st, self.current as int);
                lemma_count_nl_none(s, st, self.current as int);
            }
            return token;
        }
        if Scanner::is_digit(c) {
            let token = self.number(source);
            proof {
                lemma_number_end_bounds(s, st + 1);
                lemma_count_nl_split(s, cur0, st, self.current as int);
                lemma_count_nl_none(s, st, self.current as int);
            }
            return token;
        }
        proof {
            lemma_count_nl_split(s, cur0, st, self.current as int);
            lemma_count_nl_none(s, st, self.current as int);
        }
        self.error_token()
    }
}

} // verus!

verus! {

/// Bounds of one specified scan: the cursor only moves forward and stays in
/// the source, the lexeme lies before the new cursor, only end-of-input
/// leaves the cursor in place, and end-of-input puts it at the very end.
pub proof fn lemma_spec_scan_bounds(s: Seq<u8>, pos: int)
    requires
        0 <= pos <= s.len(),
    ensures
        ({
            let (tt, a, b, np) = spec_scan(s, pos);
            &&& pos <= np <= s.len()
            &&& 0 <= a <= b <= np
            &&& (tt == TokenType::Eof ==> np == s.len())
            &&& (tt != TokenType::Eof ==> pos < np)
        }),
{
    lemma_ws_end_bounds(s, pos);
    let st = ws_end(s, pos);
    if st < s.len() {
        let c = s[st];
        if c == ('"' as u8) {
            lemma_string_body_end_bounds(s, st + 1);
        } else if is_alpha_byte(c) {
            lemma_ident_end_bounds(s, st + 1);
        } else if is_digit_byte(c) {
            lemma_number_end_bounds(s, st + 1);
        }
    }
}

} // verus!
