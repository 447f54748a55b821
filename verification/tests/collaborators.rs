use kernel::dev::kbd::keys::KeyCode;
use kernel::dev::kbd::{Kbd, KbdInner};
use kernel::dev::mgr::{
    bytes_eq, get_device, install, parse_device_name, write_decimal, CommonDevice,
    DeviceClassEntry, DeviceManager,
};
use kernel::dev::{Device, Driver};
use kernel::drv::hid::atkbd::{parse_scancode, AtkbdDriver};
use kernel::kio::idt::{create_idt, Handler};
use kernel::kio::port::{PortSpace, PortWrite};
use kernel::shell::calc::arithmetic::{
    parse_atom, parse_number, parse_product, parse_sum, pos_to_line, Expected, ParseState,
    RuleResult, Token,
};
use kernel::shell::calc::ast::{parse_i64, vecast_to_ast, Ast, EvalError, Op};
use kernel::shell::calc::{eval, expression, CalcError, ParseError};
use kernel::dev::text_video::{TextColor, TextStyle};
use kernel::shell::{
    error_style, exec, header_style, message, prompt_key, prompt_style, Answer, PromptStep,
};

#[test]
fn key_codes_stand_for_characters() {
    assert_eq!(KeyCode(0x1c).to_ascii(), b'\n');
    assert_eq!(u8::from(KeyCode(0x1c)), b'\n');
    let point: u8 = KeyCode(0xb4).into();
    assert_eq!(point, b'.');
    assert_eq!(KeyCode(0x38).to_ascii(), b' ');
    assert_eq!(KeyCode(0x0e).to_ascii(), b'\r');
    assert_eq!(KeyCode(0xb4).to_ascii(), b'.');
    assert_eq!(KeyCode(0xb5).to_ascii(), b'/');
    assert_eq!(KeyCode(0x29).to_ascii(), b'0');
    assert_eq!(KeyCode(0x02).to_ascii(), b'1');
    assert_eq!(KeyCode(0x0a).to_ascii(), b'9');
    let row1: Vec<u8> = (0x10..=0x19).map(|code| KeyCode(code).to_ascii()).collect();
    assert_eq!(row1, b"qwertyuiop");
    let row2: Vec<u8> = (0x1e..=0x26).map(|code| KeyCode(code).to_ascii()).collect();
    assert_eq!(row2, b"asdfghjkl");
    let row3: Vec<u8> = (0x2c..=0x32).map(|code| KeyCode(code).to_ascii()).collect();
    assert_eq!(row3, b"zxcvbnm");
}

#[test]
fn unknown_key_codes_are_the_null_key() {
    for code in [0x00u8, 0x01, 0x0b, 0x1a, 0x1b, 0x1d, 0x27, 0x33, 0x39, 0x90, 0xff] {
        assert_eq!(KeyCode(code).to_ascii(), 0, "code {:#x}", code);
    }
}

#[test]
fn keyboard_buffers_keys_in_order() {
    let mut inner = KbdInner::new();
    assert_eq!(inner.poll(), None);
    inner.push(KeyCode(1));
    inner.push(KeyCode(2));
    assert_eq!(inner.poll(), Some(KeyCode(1)));
    let mut kbd = Kbd::new();
    assert_eq!(kbd.poll(), None);
    kbd.process_key(KeyCode(0x10));
    kbd.process_key(KeyCode(0x11));
    assert_eq!(kbd.poll(), Some(KeyCode(0x10)));
    assert_eq!(kbd.poll(), Some(KeyCode(0x11)));
    assert_eq!(kbd.poll(), None);
    assert_eq!(Kbd::class_name(), "kbd");
}

#[test]
fn atkbd_reads_scancode_and_acknowledges() {
    let mut ports = PortSpace::new();
    let mut idt = create_idt();
    let mut driver = AtkbdDriver::uninitialized();
    ports.write(0x21, 0xff);
    driver.start(&mut idt, &mut ports);
    assert_eq!(idt.entry(33).handler, Some(Handler::Keyboard));
    assert_eq!(ports.read(0x21), 0xfd);
    // Without a keyboard the key is dropped, but the interrupt is acknowledged.
    ports.write(0x60, 0x1e);
    let before = ports.writes().len();
    driver.handle_irq(&mut ports);
    assert_eq!(&ports.writes()[before..], &[PortWrite { port: 0x20, value: 0x20 }]);
    driver.init(Kbd::new());
    ports.write(0x60, 0x1f);
    driver.handle_irq(&mut ports);
    driver.process_scancode(0x20);
    assert_eq!(parse_scancode(0x42), KeyCode(0x42));
}

#[test]
fn device_names_are_class_and_number() {
    let mut manager = DeviceManager::new();
    assert_eq!(install::<Kbd>(&mut manager), b"kbd0");
    assert_eq!(manager.install(CommonDevice::of_class("tty")), b"tty0");
    assert_eq!(install::<Kbd>(&mut manager), b"kbd1");
    for _ in 2..12 {
        install::<Kbd>(&mut manager);
    }
    let device = get_device(&manager, "kbd11").unwrap();
    assert_eq!(device.class(), "kbd");
    assert_eq!(device.id(), 11);
    assert_eq!(device.name(), b"kbd11");
    assert!(device.is_class("kbd"));
    assert!(!device.is_class("tty"));
    assert_eq!(get_device(&manager, "tty0").map(|d| d.id()), Some(0));
    assert!(get_device(&manager, "kbd12").is_none());
    assert!(get_device(&manager, "tty1").is_none());
    assert!(get_device(&manager, "mouse0").is_none());
    assert!(get_device(&manager, "kbd").is_none());
    assert!(get_device(&manager, "kbd1x").is_none());
    assert!(manager.get(b"").is_none());
}

#[test]
fn device_name_parsing() {
    assert_eq!(parse_device_name(b"kbd0"), Some((3, 0)));
    assert_eq!(parse_device_name(b"tty123"), Some((3, 123)));
    assert_eq!(parse_device_name(b"42"), Some((0, 42)));
    assert_eq!(parse_device_name(b"kbd"), None);
    assert_eq!(parse_device_name(b""), None);
    assert_eq!(parse_device_name(b"a1b"), None);
    assert_eq!(parse_device_name(b"x18446744073709551615"), Some((1, usize::MAX)));
    assert_eq!(parse_device_name(b"x18446744073709551616"), None);
    assert_eq!(write_decimal(0), b"0");
    assert_eq!(write_decimal(907), b"907");
    assert!(bytes_eq(b"abc", b"abc"));
    assert!(!bytes_eq(b"abc", b"abd"));
    assert!(!bytes_eq(b"abc", b"ab"));
    let mut class = DeviceClassEntry::new("net");
    assert!(class.get(0).is_none());
    assert_eq!(class.install(CommonDevice::of_class("net")), b"net0");
    assert_eq!(class.get(0).map(|d| d.id()), Some(0));
    assert_eq!(CommonDevice::new::<Kbd>().id(), usize::MAX);
}

fn num(digits: &str) -> Ast {
    Ast::Num(digits.to_string())
}

fn node(op: Op, left: Ast, right: Ast) -> Ast {
    Ast::OpNode(op, Box::new(left), Box::new(right))
}

#[test]
fn ast_eval_uses_checked_arithmetic() {
    assert_eq!(node(Op::Add, num("1"), node(Op::Mul, num("2"), num("3"))).eval(), Ok(7));
    assert_eq!(node(Op::Sub, num("1"), num("3")).eval(), Ok(-2));
    assert_eq!(node(Op::Div, num("-7"), num("2")).eval(), Ok(-3));
    assert_eq!(node(Op::Div, num("7"), num("0")).eval(), Err(EvalError::MathError));
    assert_eq!(
        node(Op::Add, num("9223372036854775807"), num("1")).eval(),
        Err(EvalError::MathError)
    );
    assert_eq!(
        node(Op::Div, num("-9223372036854775808"), num("-1")).eval(),
        Err(EvalError::MathError)
    );
    assert_eq!(node(Op::Mul, num("x"), num("0")).eval(), Err(EvalError::NotANumber));
    assert_eq!(node(Op::Div, num("1"), node(Op::Sub, num(""), num("0"))).eval(), Err(EvalError::NotANumber));
    assert_eq!(Op::Mul.eval(1 << 62, 2), Err(EvalError::MathError));
    assert_eq!(Op::Sub.eval(i64::MIN, 1), Err(EvalError::MathError));
    assert_eq!(Op::Add.eval(40, 2), Ok(42));
}

#[test]
fn parse_i64_reads_signed_decimal_numbers() {
    assert_eq!(parse_i64(b"0"), Some(0));
    assert_eq!(parse_i64(b"+17"), Some(17));
    assert_eq!(parse_i64(b"-17"), Some(-17));
    assert_eq!(parse_i64(b"0009"), Some(9));
    assert_eq!(parse_i64(b"9223372036854775807"), Some(i64::MAX));
    assert_eq!(parse_i64(b"9223372036854775808"), None);
    assert_eq!(parse_i64(b"-9223372036854775808"), Some(i64::MIN));
    assert_eq!(parse_i64(b"-9223372036854775809"), None);
    assert_eq!(parse_i64(b"99999999999999999999999"), None);
    assert_eq!(parse_i64(b""), None);
    assert_eq!(parse_i64(b"-"), None);
    assert_eq!(parse_i64(b"1 "), None);
    assert_eq!(parse_i64(b"--1"), None);
}

#[test]
fn vecast_joins_from_the_left() {
    // ([(2, -), (1, +)], 4) ==> (1 + 2) - 4
    let tree = vecast_to_ast((vec![(num("2"), Op::Sub), (num("1"), Op::Add)], num("4")), node);
    assert_eq!(tree.eval(), Ok(-1));
    match tree {
        Ast::OpNode(Op::Sub, left, right) => {
            assert_eq!(right.eval(), Ok(4));
            match *left {
                Ast::OpNode(Op::Add, a, b) => {
                    assert_eq!(a.eval(), Ok(1));
                    assert_eq!(b.eval(), Ok(2));
                }
                other => panic!("unexpected {:?}", other),
            }
        }
        other => panic!("unexpected {:?}", other),
    }
    assert_eq!(vecast_to_ast((Vec::<(Ast, Op)>::new(), num("5")), node).eval(), Ok(5));
    let one = vecast_to_ast((vec![(num("8"), Op::Div)], num("2")), node);
    // Any way of joining will do: here the operands are counted.
    let count = vecast_to_ast((vec![(num("0"), 1u8), (num("0"), 2), (num("0"), 3)], num("0")), |_, left, _| {
        let seen = left.eval().unwrap();
        num(&(seen + 1).to_string())
    });
    assert_eq!(count.eval(), Ok(3));
    assert_eq!(one.eval(), Ok(4));
    assert_eq!(one.duplicate().eval(), Ok(4));
}

fn all(tokens: &[Token]) -> Expected {
    tokens.iter().fold(Expected::none(), |set, token| set.with(*token))
}

#[test]
fn expression_values() {
    assert_eq!(expression("42"), Ok(42));
    assert_eq!(expression("1+2"), Ok(3));
    assert_eq!(expression("2*3"), Ok(6));
    assert_eq!(expression("2*3+4*5"), Ok(26));
    assert_eq!(expression("(1+2)*3"), Ok(9));
    assert_eq!(expression("((7))"), Ok(7));
    assert_eq!(expression("(2*(3+4))+(5)"), Ok(19));
    assert_eq!(expression("0007"), Ok(7));
    assert_eq!(eval(b"9223372036854775807"), Ok(i64::MAX));
}

#[test]
fn expression_errors_tell_place_and_expectation() {
    assert_eq!(
        expression("1+2+3"),
        Err(ParseError {
            line: 1,
            column: 4,
            offset: 3,
            expected: all(&[Token::Digit, Token::Star]),
        })
    );
    assert_eq!(
        expression(""),
        Err(ParseError {
            line: 1,
            column: 1,
            offset: 0,
            expected: all(&[Token::Digit, Token::Open]),
        })
    );
    assert_eq!(
        expression("(1"),
        Err(ParseError {
            line: 1,
            column: 3,
            offset: 2,
            expected: all(&[Token::Digit, Token::Star, Token::Plus, Token::Close]),
        })
    );
    assert_eq!(
        expression("1-2"),
        Err(ParseError {
            line: 1,
            column: 2,
            offset: 1,
            expected: all(&[Token::Digit, Token::Star, Token::Plus]),
        })
    );
    assert_eq!(
        expression("2*"),
        Err(ParseError {
            line: 1,
            column: 3,
            offset: 2,
            expected: all(&[Token::Digit, Token::Open]),
        })
    );
    assert_eq!(
        expression("1)"),
        Err(ParseError {
            line: 1,
            column: 2,
            offset: 1,
            expected: all(&[Token::Digit, Token::Star, Token::Plus]),
        })
    );
}

#[test]
fn eval_reports_overflow_as_math_error() {
    assert_eq!(eval(b"9223372036854775808"), Err(CalcError::MathError));
    assert_eq!(eval(b"9223372036854775807+1"), Err(CalcError::MathError));
    assert_eq!(eval(b"4611686018427387904*2"), Err(CalcError::MathError));
    assert_eq!(eval(b"(3037000500*3037000500)+1"), Err(CalcError::MathError));
    assert_eq!(eval(b"3037000499*3037000499"), Ok(9223372030926249001));
    assert!(matches!(eval(b"1+"), Err(CalcError::Parse(_))));
    assert!(matches!(eval(&[0xff, 0xfe]), Err(CalcError::Parse(_))));
}

#[test]
fn parser_rules_report_what_they_matched() {
    let mut state = ParseState::new();
    assert_eq!(parse_number(b"12a", &mut state, 0), RuleResult::Matched(2, 12));
    assert_eq!(state, ParseState { max_err_pos: 2, expected: all(&[Token::Digit]) });
    let mut state = ParseState::new();
    assert_eq!(parse_number(b"a", &mut state, 0), RuleResult::Failed);
    assert_eq!(
        parse_number(b"9223372036854775808", &mut ParseState::new(), 0),
        RuleResult::Overflow
    );
    assert_eq!(
        parse_product(b"(1+9223372036854775807)*2", &mut ParseState::new(), 0),
        RuleResult::Overflow
    );
    assert_eq!(parse_atom(b"(5)", &mut state, 0), RuleResult::Matched(3, 5));
    assert_eq!(parse_product(b"2*3*4", &mut ParseState::new(), 0), RuleResult::Matched(3, 6));
    assert_eq!(parse_sum(b"1+x", &mut ParseState::new(), 0), RuleResult::Matched(1, 1));
    assert_eq!(parse_sum(b"x", &mut ParseState::new(), 0), RuleResult::Failed);
    let mut state = ParseState::new();
    state.mark_failure(3, Token::Plus);
    state.mark_failure(1, Token::Star);
    state.mark_failure(3, Token::Close);
    assert_eq!(state, ParseState { max_err_pos: 3, expected: all(&[Token::Plus, Token::Close]) });
    assert_eq!(state.expected.len(), 2);
    assert_eq!(state.expected.names(), vec!["+", ")"]);
    assert_eq!(pos_to_line(b"ab\ncd\nef", 7), (3, 2));
    assert_eq!(pos_to_line(b"ab\ncd", 0), (1, 1));
    assert_eq!(pos_to_line(b"ab\ncd", 3), (2, 1));
}

#[test]
fn parse_error_messages() {
    let error = |expected: Expected| ParseError { line: 1, column: 12, offset: 11, expected };
    assert_eq!(message(&error(Expected::none())), b"error at 1:12: expected EOF");
    assert_eq!(message(&error(all(&[Token::Close]))), b"error at 1:12: expected `)`");
    assert_eq!(
        message(&error(all(&[Token::Star, Token::Digit, Token::Plus]))),
        b"error at 1:12: expected one of `[0-9]`, `+`, `*`"
    );
}

#[test]
fn shell_answers_lines() {
    assert_eq!(exec(b"lsdev"), Answer::Devices);
    assert_eq!(exec(b"6*7"), Answer::Value(42));
    assert!(matches!(exec(b"lsdev "), Answer::Error(CalcError::Parse(_))));
    assert_eq!(exec(b"9223372036854775807+1"), Answer::Error(CalcError::MathError));
}

#[test]
fn shell_styles() {
    let black = |foreground| TextStyle { foreground, background: TextColor::Black };
    assert_eq!(prompt_style(), black(TextColor::White));
    assert_eq!(error_style(), black(TextColor::LightRed));
    let colors: Vec<TextColor> = (0..9).map(|line| header_style(line).foreground).collect();
    assert_eq!(
        colors,
        vec![
            TextColor::Green,
            TextColor::Green,
            TextColor::Yellow,
            TextColor::Red,
            TextColor::Red,
            TextColor::LightBlue,
            TextColor::LightBlue,
            TextColor::White,
            TextColor::Green,
        ]
    );
    assert_eq!(header_style(usize::MAX), black(TextColor::White));
}

#[test]
fn prompt_collects_characters_until_enter() {
    let mut line = Vec::new();
    assert_eq!(prompt_key(&mut line, KeyCode(0x02)), PromptStep::Echo(b'1'));
    assert_eq!(prompt_key(&mut line, KeyCode(0x90)), PromptStep::Skip);
    assert_eq!(prompt_key(&mut line, KeyCode(0x10)), PromptStep::Echo(b'q'));
    assert_eq!(prompt_key(&mut line, KeyCode(0x1c)), PromptStep::Complete);
    assert_eq!(line, b"1q");
}
