use rustlox::chunk::Span;
use rustlox::compiler::Compiler;
use rustlox::compiler::ErrorAt;
use rustlox::compiler::Message;

#[test]
fn precedence_orders_the_emitted_code() {
    // 2 + 3 * 4 compiles to: push 2, push 3, push 4, multiply, add, return.
    let chunk = Compiler::compile(b"2 + 3 * 4".to_vec()).ok().unwrap();
    assert_eq!(chunk.code, vec![0, 0, 0, 1, 0, 2, 3, 1, 6]);
    assert_eq!(
        chunk.literals,
        vec![
            Span { start: 0, end: 1 },
            Span { start: 4, end: 5 },
            Span { start: 8, end: 9 },
        ]
    );
    assert_eq!(chunk.constants.len(), 0);
}

#[test]
fn grouping_reorders_the_emitted_code() {
    // (2 + 3) * 4 compiles to: push 2, push 3, add, push 4, multiply, return.
    let chunk = Compiler::compile(b"(2 + 3) * 4".to_vec()).ok().unwrap();
    assert_eq!(chunk.code, vec![0, 0, 0, 1, 1, 0, 2, 3, 6]);
}

#[test]
fn same_level_operators_associate_left() {
    // 8 / 4 / 2 compiles to: push 8, push 4, divide, push 2, divide, return.
    let chunk = Compiler::compile(b"8 / 4 / 2".to_vec()).ok().unwrap();
    assert_eq!(chunk.code, vec![0, 0, 0, 1, 4, 0, 2, 4, 6]);
}

#[test]
fn unary_binds_tighter_than_binary() {
    // -2 * 3 compiles to: push 2, negate, push 3, multiply, return.
    let chunk = Compiler::compile(b"-2 * 3".to_vec()).ok().unwrap();
    assert_eq!(chunk.code, vec![0, 0, 5, 0, 1, 3, 6]);
}

#[test]
fn unary_applies_to_a_group() {
    // -(2 + 3) compiles to: push 2, push 3, add, negate, return.
    let chunk = Compiler::compile(b"-(2 + 3)".to_vec()).ok().unwrap();
    assert_eq!(chunk.code, vec![0, 0, 0, 1, 1, 5, 6]);
}

#[test]
fn every_byte_has_the_line_of_its_token() {
    let chunk = Compiler::compile(b"1 +\n2".to_vec()).ok().unwrap();
    assert_eq!(chunk.code, vec![0, 0, 0, 1, 1, 6]);
    // Each constant carries its literal's line; the add, though emitted
    // after its right operand, carries the plus's own line; the closing
    // return carries the end of the input.
    assert_eq!(chunk.lines, vec![1, 1, 2, 2, 1, 2]);
}

#[test]
fn an_operator_keeps_its_own_line_across_a_newline() {
    // The minus stands on line 1, its operand on line 2: the negate
    // instruction is attributed to the minus that caused it.
    let chunk = Compiler::compile(b"-\n2".to_vec()).ok().unwrap();
    assert_eq!(chunk.code, vec![0, 0, 5, 6]);
    assert_eq!(chunk.lines, vec![2, 2, 1, 2]);
}

#[test]
fn unterminated_group_is_rejected() {
    let err = match Compiler::compile(b"(1 + 2".to_vec()) {
        Err(e) => e,
        Ok(_) => panic!("an unterminated group must not compile"),
    };
    assert_eq!(err.diagnostics.len(), 1);
    assert_eq!(err.diagnostics[0].message, Message::ExpectRightParen);
    assert_eq!(err.diagnostics[0].at, ErrorAt::End);
    assert_eq!(err.diagnostics[0].line, 1);
}

#[test]
fn prefix_with_no_rule_is_rejected() {
    let err = match Compiler::compile(b"*1".to_vec()) {
        Err(e) => e,
        Ok(_) => panic!("a leading star must not compile"),
    };
    assert_eq!(err.diagnostics.len(), 1);
    assert_eq!(err.diagnostics[0].message, Message::ExpectExpression);
    assert_eq!(err.diagnostics[0].at, ErrorAt::Lexeme(Span { start: 0, end: 1 }));
}

#[test]
fn empty_source_is_rejected() {
    let err = match Compiler::compile(b"".to_vec()) {
        Err(e) => e,
        Ok(_) => panic!("an empty source must not compile"),
    };
    assert_eq!(err.diagnostics[0].message, Message::ExpectExpression);
    assert_eq!(err.diagnostics[0].at, ErrorAt::End);
}

#[test]
fn trailing_tokens_are_rejected() {
    let err = match Compiler::compile(b"1 2".to_vec()) {
        Err(e) => e,
        Ok(_) => panic!("trailing tokens must not compile"),
    };
    assert_eq!(err.diagnostics[0].message, Message::ExpectEndOfExpression);
    assert_eq!(err.diagnostics[0].at, ErrorAt::Lexeme(Span { start: 2, end: 3 }));
}

#[test]
fn unreadable_characters_are_reported_once() {
    let err = match Compiler::compile(b"1 + @".to_vec()) {
        Err(e) => e,
        Ok(_) => panic!("an unreadable character must not compile"),
    };
    assert_eq!(err.diagnostics.len(), 1);
    assert_eq!(err.diagnostics[0].message, Message::UnreadableToken);
}

#[test]
fn a_diagnostic_reports_the_line_it_arose_on() {
    let err = match Compiler::compile(b"1 +\n@".to_vec()) {
        Err(e) => e,
        Ok(_) => panic!("an unreadable character must not compile"),
    };
    assert_eq!(err.diagnostics.len(), 1);
    assert_eq!(err.diagnostics[0].message, Message::UnreadableToken);
    assert_eq!(err.diagnostics[0].line, 2);
    // An unreadable stretch carries no lexeme: its range collapses to empty.
    assert_eq!(err.diagnostics[0].at, ErrorAt::Lexeme(Span { start: 0, end: 0 }));
}

#[test]
fn cascading_errors_are_suppressed() {
    // After the first error the parser is in panic mode: the later
    // unreadable character and the missing operand stay unreported.
    let err = match Compiler::compile(b"*1 @ +".to_vec()) {
        Err(e) => e,
        Ok(_) => panic!("this source must not compile"),
    };
    assert_eq!(err.diagnostics.len(), 1);
    assert_eq!(err.diagnostics[0].message, Message::ExpectExpression);
}

fn sum_of_distinct_literals(n: usize) -> Vec<u8> {
    let mut source = Vec::new();
    for i in 0..n {
        if i > 0 {
            source.extend_from_slice(b" + ");
        }
        source.extend_from_slice(i.to_string().as_bytes());
    }
    source
}

#[test]
fn a_full_constant_pool_still_compiles() {
    let chunk = Compiler::compile(sum_of_distinct_literals(256)).ok().unwrap();
    assert_eq!(chunk.literals.len(), 256);
    // The code ends by pushing the constant with the largest one-byte
    // index, adding it, and returning.
    let n = chunk.code.len();
    assert_eq!(&chunk.code[n - 4..], &[0, 255, 1, 6]);
}

#[test]
fn an_overflowing_constant_pool_is_rejected() {
    let err = match Compiler::compile(sum_of_distinct_literals(257)) {
        Err(e) => e,
        Ok(_) => panic!("a 257th constant must not compile"),
    };
    assert_eq!(err.diagnostics.len(), 1);
    assert_eq!(err.diagnostics[0].message, Message::TooManyConstants);
}

#[test]
fn diagnostic_messages_have_their_display_text() {
    assert_eq!(Message::ExpectExpression.text(), "Expect expression.");
    assert_eq!(Message::ExpectRightParen.text(), "Expect ')' after expression.");
    assert_eq!(Message::ExpectEndOfExpression.text(), "Expect end of expression.");
    assert_eq!(Message::TooManyConstants.text(), "Too many constants in one chunk.");
    assert_eq!(Message::UnreadableToken.text(), "Something was erroneous.");
}
