use putt::atom::{Atom, BuiltIn, Kind};
use putt::error::{ParseError, ParseReason, RuntimeError};
use putt::number::{Fault, Number};
use putt::parser::tokenize;
use putt::roman::from_roman;
use putt::Putt;

const STEPS: u64 = 10_000;

fn whole(v: i32) -> Atom {
    Atom::Num(Number::from_int(v))
}

fn text(s: &str) -> Atom {
    Atom::Str(s.to_string())
}

fn run_program(src: &str) -> Putt {
    let mut putt = Putt::new();
    putt.parse(src).unwrap();
    putt.eval_expression(STEPS).unwrap();
    putt
}

fn top(src: &str) -> Atom {
    run_program(src).stack.pop().unwrap()
}

fn run_tape(tape: Vec<Atom>) -> (Putt, Result<(), RuntimeError>) {
    let mut putt = Putt::new();
    putt.load(tape);
    let r = putt.run(STEPS);
    (putt, r)
}

#[test]
fn test_expr() {
    assert_eq!(top("1 1+"), whole(2));
    assert_eq!(top("1 1/"), whole(1));
    assert_eq!(top("10 1/"), whole(10));
    // `s` and `x` are no operators: as letters they read as numerals worth nothing.
    assert_eq!(run_program("10 1s").stack, vec![whole(10), whole(1), whole(0)]);
    assert_eq!(run_program("10 1ss").stack, vec![whole(10), whole(1), whole(0)]);
    assert_eq!(run_program("10 1x").stack, vec![whole(10), whole(1), whole(0)]);
    assert_eq!(top("10 1+"), whole(11));
    assert_eq!(top("X 1+"), whole(11));
    assert_eq!(top("2 3+11*1+"), whole(34));
    assert_eq!(top("\"Hi\"\"Hello!\"+"), text("HiHello!"));
    assert_eq!(top("6!"), whole(720));
}

#[test]
fn test_str() {
    assert_eq!(top("\"Hi\""), text("Hi"));
}

#[test]
fn assert_parse_string() {
    assert_eq!(tokenize("\"Hello, World!\"").unwrap(), vec![text("Hello, World!")]);
    assert_eq!(tokenize("\"Hello, World\"").unwrap(), vec![text("Hello, World")]);
}

#[test]
fn assert_roman() {
    assert_eq!(from_roman("CMD"), 1400);
    assert_eq!(from_roman("CMk"), 900_000);
    assert_eq!(from_roman("Mk"), 1_000_000);
    assert_eq!(from_roman("Dk"), 500_000);
    assert_eq!(from_roman("Lk"), 50_000);
    assert_eq!(from_roman("C"), 100);
    assert_eq!(from_roman("X"), 10);
    assert_eq!(from_roman("V"), 5);
    assert_eq!(from_roman("IV"), 4);
    assert_eq!(from_roman("I"), 1);
    assert_eq!(tokenize("CMD").unwrap(), vec![whole(1400)]);
    assert_eq!(tokenize("CMk").unwrap(), vec![whole(900_000)]);
}

#[test]
fn number_literal_tokenizes_to_itself() {
    assert_eq!(tokenize("42").unwrap(), vec![whole(42)]);
    assert_eq!(tokenize("-7").unwrap(), vec![whole(-7)]);
    assert_eq!(tokenize("+7").unwrap(), vec![whole(7)]);
    assert_eq!(tokenize("0").unwrap(), vec![whole(0)]);
    assert_eq!(tokenize("1.5").unwrap(), vec![Atom::Num(Number::new(3, 2).unwrap())]);
    assert_eq!(tokenize("-0.25").unwrap(), vec![Atom::Num(Number::new(-1, 4).unwrap())]);
    assert_eq!(whole(6).render(), "6");
    assert_eq!(whole(-120).render(), "-120");
    assert_eq!(tokenize("1.50").unwrap()[0].render(), "1.5");
}

#[test]
fn long_literals_are_rounded() {
    let most = Atom::Num(Number::new(i64::MAX, 1).unwrap());
    assert_eq!(tokenize("99999999999999999999").unwrap(), vec![most.clone()]);
    assert_eq!(tokenize("-99999999999999999999").unwrap()[0].render(), "-9223372036854775807");
    assert_eq!(
        tokenize("0.1234567890123456789").unwrap(),
        vec![Atom::Num(Number::new(123_456_789_012_345_679, 1_000_000_000_000_000_000).unwrap())]
    );
    assert_eq!(
        tokenize("0.1234567890123456781").unwrap(),
        vec![Atom::Num(Number::new(123_456_789_012_345_678, 1_000_000_000_000_000_000).unwrap())]
    );
    assert_eq!(tokenize("1.00000000000000000000000").unwrap(), vec![whole(1)]);
    assert_eq!(tokenize("0.9999999999999999999").unwrap(), vec![whole(1)]);
}

#[test]
fn factorial_of_six() {
    assert_eq!(top("6!"), whole(720));
    assert_eq!(top("0!"), whole(1));
    assert_eq!(top("1!"), whole(1));
}

#[test]
fn left_to_right_evaluation() {
    // `+11` is a signed literal, so the program reads 2 3 11 * 1 +.
    assert_eq!(run_program("2 3+11*1+").stack, vec![whole(2), whole(34)]);
    assert_eq!(top("2 3 + 11*1+"), whole(56));
}

#[test]
fn text_concatenation() {
    assert_eq!(top("\"Hi\"\"Hello!\"+"), text("HiHello!"));
    assert_eq!(top("\"a\" \"b\"-"), text("ab"));
}

#[test]
fn numeral_plus_one() {
    assert_eq!(top("X 1+"), whole(11));
}

#[test]
fn unknown_word_is_zero() {
    let putt = run_program("10 1x");
    assert_eq!(putt.stack, vec![whole(10), whole(1), whole(0)]);
    assert_eq!(putt.peek_top(), Some(whole(0)));
}

#[test]
fn jump_word_is_a_numeral() {
    let putt = run_program("2 0Jmp");
    assert_eq!(putt.stack, vec![whole(2), whole(0), whole(0)]);
}

#[test]
fn endless_jump_stops_at_step_limit() {
    let (putt, r) = run_tape(vec![whole(0), Atom::BuiltIn(BuiltIn::Jmp)]);
    assert_eq!(r, Err(RuntimeError::StepLimit { steps: STEPS }));
    assert!(putt.pc < 2);
}

#[test]
fn jump_back_loops_then_stops() {
    let mut putt = Putt::new();
    putt.load(vec![whole(2), whole(0), Atom::BuiltIn(BuiltIn::Jmp)]);
    assert_eq!(putt.run(7), Err(RuntimeError::StepLimit { steps: 7 }));
    assert_eq!(putt.stack, vec![whole(2), whole(2), whole(2)]);
    assert_eq!(putt.pc, 1);
}

#[test]
fn jump_out_of_tape() {
    let (putt, r) = run_tape(vec![whole(5), Atom::BuiltIn(BuiltIn::Jmp)]);
    assert_eq!(r, Err(RuntimeError::InvalidJumpTarget { target: 5, tape_length: 2 }));
    assert_eq!(putt.stack, vec![whole(5)]);
    let (_, r) = run_tape(vec![whole(-1), Atom::BuiltIn(BuiltIn::Jmp)]);
    assert_eq!(r, Err(RuntimeError::InvalidJumpTarget { target: -1, tape_length: 2 }));
}

#[test]
fn jump_forward_skips() {
    let (putt, r) = run_tape(vec![whole(3), Atom::BuiltIn(BuiltIn::Jmp), whole(7), whole(9)]);
    assert_eq!(r, Ok(()));
    assert_eq!(putt.stack, vec![whole(9)]);
}

#[test]
fn compress_then_decompress() {
    let (putt, r) =
        run_tape(vec![text("string"), Atom::BuiltIn(BuiltIn::Cmp), Atom::BuiltIn(BuiltIn::Dcmp)]);
    assert_eq!(r, Ok(()));
    assert_eq!(putt.stack, vec![text("string")]);
    let (putt, r) = run_tape(vec![text("string"), Atom::BuiltIn(BuiltIn::Cmp)]);
    assert_eq!(r, Ok(()));
    assert_eq!(putt.stack, vec![text("MrT")]);
    assert_eq!(top("\"string\" cmp dmp"), text("string"));
}

#[test]
fn compressed_literal() {
    assert_eq!(tokenize("`MrT`").unwrap(), vec![text("string")]);
    assert_eq!(top("`MrT`"), text("string"));
}

#[test]
fn binary_operations_underflow() {
    let ops = [
        BuiltIn::Plus,
        BuiltIn::Minus,
        BuiltIn::Times,
        BuiltIn::Divide,
        BuiltIn::Equal,
        BuiltIn::Power,
        BuiltIn::Modulus,
        BuiltIn::Range,
        BuiltIn::Swap,
    ];
    for op in ops {
        let (putt, r) = run_tape(vec![whole(1), Atom::BuiltIn(op)]);
        assert_eq!(
            r,
            Err(RuntimeError::StackUnderflow { operation: op, needed: 2, available: 1 })
        );
        assert_eq!(putt.stack, vec![whole(1)]);
        assert_eq!(putt.pc, 1);
        let (putt, r) = run_tape(vec![Atom::BuiltIn(op)]);
        assert_eq!(
            r,
            Err(RuntimeError::StackUnderflow { operation: op, needed: 2, available: 0 })
        );
        assert!(putt.stack.is_empty());
    }
}

#[test]
fn type_mismatch_keeps_operands() {
    let mut putt = Putt::new();
    putt.parse("1 \"a\"+").unwrap();
    let r = putt.eval_expression(STEPS);
    assert_eq!(
        r,
        Err(RuntimeError::TypeMismatch {
            operation: BuiltIn::Plus,
            expected: Kind::Number,
            found: Kind::Text,
        })
    );
    assert_eq!(putt.stack, vec![whole(1), text("a")]);
    let mut putt = Putt::new();
    putt.parse("\"a\" 2*").unwrap();
    assert_eq!(
        putt.eval_expression(STEPS),
        Err(RuntimeError::TypeMismatch {
            operation: BuiltIn::Times,
            expected: Kind::Number,
            found: Kind::Text,
        })
    );
    let mut putt = Putt::new();
    putt.parse("\"a\" 2+").unwrap();
    assert_eq!(
        putt.eval_expression(STEPS),
        Err(RuntimeError::TypeMismatch {
            operation: BuiltIn::Plus,
            expected: Kind::Text,
            found: Kind::Number,
        })
    );
}

#[test]
fn arithmetic_faults() {
    let mut putt = Putt::new();
    putt.parse("1 0/").unwrap();
    assert_eq!(
        putt.eval_expression(STEPS),
        Err(RuntimeError::Arithmetic { operation: BuiltIn::Divide, fault: Fault::DivisionByZero })
    );
    assert_eq!(putt.stack, vec![whole(1), whole(0)]);
    let mut putt = Putt::new();
    putt.parse("21!").unwrap();
    assert_eq!(
        putt.eval_expression(STEPS),
        Err(RuntimeError::Arithmetic { operation: BuiltIn::Factorial, fault: Fault::Overflow })
    );
    let mut putt = Putt::new();
    putt.parse("2R").unwrap();
    assert_eq!(
        putt.eval_expression(STEPS),
        Err(RuntimeError::Arithmetic { operation: BuiltIn::Root, fault: Fault::NotRepresentable })
    );
    let mut putt = Putt::new();
    putt.parse("2 1 2/^").unwrap();
    assert_eq!(
        putt.eval_expression(STEPS),
        Err(RuntimeError::Arithmetic { operation: BuiltIn::Power, fault: Fault::NotRepresentable })
    );
}

#[test]
fn decode_error_on_uncompressible_text() {
    let (putt, r) = run_tape(vec![text("Q"), Atom::BuiltIn(BuiltIn::Cmp)]);
    assert_eq!(r, Err(RuntimeError::DecodeError { operation: BuiltIn::Cmp }));
    assert_eq!(putt.stack, vec![text("Q")]);
}

#[test]
fn parse_errors() {
    assert_eq!(
        tokenize("1 @"),
        Err(ParseError { position: 2, reason: ParseReason::UnexpectedByte })
    );
    assert_eq!(
        tokenize("  \"abc"),
        Err(ParseError { position: 2, reason: ParseReason::UnterminatedString })
    );
    assert_eq!(
        tokenize("`abc"),
        Err(ParseError { position: 0, reason: ParseReason::UnterminatedString })
    );
    assert_eq!(
        tokenize("#x"),
        Err(ParseError { position: 0, reason: ParseReason::UnexpectedByte })
    );
    let mut putt = Putt::new();
    assert!(putt.parse("\"open").is_err());
    assert!(putt.src.is_none());
}

#[test]
fn literals_and_keywords() {
    assert_eq!(
        tokenize("#t #f n , . cmp dmp R+-*/=!^%").unwrap(),
        vec![
            whole(1),
            whole(0),
            Atom::BuiltIn(BuiltIn::Not),
            Atom::BuiltIn(BuiltIn::PrintLn),
            Atom::BuiltIn(BuiltIn::Print),
            Atom::BuiltIn(BuiltIn::Cmp),
            Atom::BuiltIn(BuiltIn::Dcmp),
            Atom::BuiltIn(BuiltIn::Root),
            Atom::BuiltIn(BuiltIn::Plus),
            Atom::BuiltIn(BuiltIn::Minus),
            Atom::BuiltIn(BuiltIn::Times),
            Atom::BuiltIn(BuiltIn::Divide),
            Atom::BuiltIn(BuiltIn::Equal),
            Atom::BuiltIn(BuiltIn::Factorial),
            Atom::BuiltIn(BuiltIn::Power),
            Atom::BuiltIn(BuiltIn::Modulus),
        ]
    );
    assert_eq!(tokenize("").unwrap(), vec![]);
    assert_eq!(tokenize(" \t\n ").unwrap(), vec![]);
    assert_eq!(tokenize("\"\"").unwrap(), vec![text("")]);
}

#[test]
fn number_formulas() {
    assert_eq!(top("7 2%"), whole(1));
    assert_eq!(top("-7 2%"), whole(-1));
    assert_eq!(top("7 -2%"), whole(1));
    assert_eq!(top("2 10^"), whole(1024));
    assert_eq!(top("1 1000000000000000000^"), whole(1));
    assert_eq!(top("-1 1000000000000000001^"), whole(-1));
    assert_eq!(top("0 0^"), whole(1));
    assert_eq!(top("0 7^"), whole(0));
    assert_eq!(top("2 3 /4^"), Atom::Num(Number::new(16, 81).unwrap()));
    assert_eq!(top("2 -1^").render(), "0.5");
    assert_eq!(top("1 3/").render(), "0.3333333333333333");
    assert_eq!(top("9 4/R"), Atom::Num(Number::new(3, 2).unwrap()));
    assert_eq!(top("1 2/ 1 3/+"), Atom::Num(Number::new(5, 6).unwrap()));
    assert_eq!(top("5 7-"), whole(-2));
    assert_eq!(top("4.5 2%").render(), "0.5");
    assert_eq!(top("3 3="), whole(1));
    assert_eq!(top("3 4="), whole(0));
    assert_eq!(top("1n"), whole(0));
    assert_eq!(top("0n"), whole(1));
    assert_eq!(top("5n"), whole(1));
}

#[test]
fn stack_operations() {
    let op = |b| Atom::BuiltIn(b);
    let (putt, r) = run_tape(vec![whole(1), whole(3), op(BuiltIn::Range)]);
    assert_eq!(r, Ok(()));
    let list = Atom::Arr(vec![
        Number::from_int(1),
        Number::from_int(2),
        Number::from_int(3),
    ]);
    assert_eq!(putt.stack, vec![list.clone()]);
    assert_eq!(list.render(), "1 2 3");
    let (putt, _) = run_tape(vec![whole(1), whole(2), whole(3), whole(3), op(BuiltIn::Sum)]);
    assert_eq!(putt.stack, vec![whole(6)]);
    let (putt, _) = run_tape(vec![whole(9), whole(1), whole(2), whole(3), whole(3), op(BuiltIn::Avg)]);
    assert_eq!(putt.stack, vec![whole(9), whole(2)]);
    let (putt, _) = run_tape(vec![whole(4), text("x"), whole(5), whole(10), op(BuiltIn::Sum)]);
    assert_eq!(putt.stack, vec![whole(9)]);
    let (putt, _) = run_tape(vec![whole(4), whole(5), op(BuiltIn::Len)]);
    assert_eq!(putt.stack, vec![whole(4), whole(5), whole(2)]);
    let (putt, _) = run_tape(vec![whole(4), whole(5), op(BuiltIn::Swap)]);
    assert_eq!(putt.stack, vec![whole(5), whole(4)]);
    let (putt, _) = run_tape(vec![whole(4), op(BuiltIn::Dupe)]);
    assert_eq!(putt.stack, vec![whole(4), whole(4)]);
    let (putt, _) = run_tape(vec![whole(4), whole(5), op(BuiltIn::Drop)]);
    assert_eq!(putt.stack, vec![whole(4)]);
    let (putt, _) = run_tape(vec![whole(4), whole(5), op(BuiltIn::Clear)]);
    assert!(putt.stack.is_empty());
    let (putt, _) = run_tape(vec![whole(4), op(BuiltIn::Negate), whole(-3), op(BuiltIn::Abs)]);
    assert_eq!(putt.stack, vec![whole(-4), whole(3)]);
    let (_, r) = run_tape(vec![whole(0), op(BuiltIn::Avg)]);
    assert_eq!(
        r,
        Err(RuntimeError::Arithmetic { operation: BuiltIn::Avg, fault: Fault::DivisionByZero })
    );
    let (_, r) = run_tape(vec![op(BuiltIn::Dupe)]);
    assert_eq!(
        r,
        Err(RuntimeError::StackUnderflow { operation: BuiltIn::Dupe, needed: 1, available: 0 })
    );
}

#[test]
fn printing_writes_output() {
    let putt = run_program("5. 6, \"hi\",");
    assert_eq!(putt.out, "5 6\nhi\n");
    assert!(putt.stack.is_empty());
}

#[test]
fn machine_keeps_state_between_programs() {
    let mut putt = Putt::new();
    putt.parse("1 2").unwrap();
    putt.eval_expression(STEPS).unwrap();
    putt.parse("+").unwrap();
    putt.eval_expression(STEPS).unwrap();
    assert_eq!(putt.stack, vec![whole(3)]);
    assert_eq!(putt.inst.len(), 3);
    assert_eq!(putt.pc, 3);
}
