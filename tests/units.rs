use boxfunge::interpreter::Interpreter;
use boxfunge::{
    push_decimal, scan_next, BinaryOperation, Direction, Error, InputBuffer, IoErrorKind,
    JustInTimeCompiler, Position, RunStatus, StepStatus, PC,
};

fn run_jit(source: &str, input: &[u8]) -> (Result<(), Error>, String, usize) {
    let mut jit = JustInTimeCompiler::new_with_io(source, input.to_vec(), 3).unwrap();
    let result = loop {
        match jit.run(1 << 12) {
            Ok(RunStatus::Ended) => break Ok(()),
            Ok(RunStatus::NeedInput) => panic!("closed input cannot run out"),
            Ok(RunStatus::Paused) => {}
            Err(e) => break Err(e),
        }
    };
    let out = String::from_utf8_lossy(&jit.take_output()).to_string();
    (result, out, jit.steps())
}

fn run_steps(source: &str, input: &[u8]) -> (Result<(), Error>, String) {
    let mut interpreter = Interpreter::new_with_io(source, input.to_vec(), 3).unwrap();
    let result = loop {
        match interpreter.run_step() {
            Ok(StepStatus::Stepped) => {}
            Ok(StepStatus::NeedInput) => panic!("closed input cannot run out"),
            Err(Error::ProgramEnd) => break Ok(()),
            Err(e) => break Err(e),
        }
    };
    (result, String::from_utf8_lossy(&interpreter.take_output()).to_string())
}

#[test]
fn parse_pads_rows_and_round_trips() {
    let grid = Interpreter::parse_grid("ab\n\ncd  e\n").unwrap();
    let mut jit = JustInTimeCompiler::new("ab\n\ncd  e\n", 1).unwrap();
    assert_eq!(jit.position(), Position { x: 0, y: 0 });
    assert_eq!(grid.get(Position { x: 0, y: 0 }), b'a');
    assert_eq!(grid.get(Position { x: 1, y: 0 }), b'b');
    assert_eq!(grid.get(Position { x: 2, y: 0 }), b' ');
    assert_eq!(grid.get(Position { x: 0, y: 1 }), b' ');
    assert_eq!(grid.get(Position { x: 4, y: 2 }), b'e');
    assert_eq!(grid.get(Position { x: 79, y: 24 }), b' ');
    let _ = jit.take_output();
}

#[test]
fn parse_drops_carriage_return_before_line_feed() {
    let grid = Interpreter::parse_grid("a\r\nb").unwrap();
    assert_eq!(grid.get(Position { x: 1, y: 0 }), b' ');
    assert_eq!(grid.get(Position { x: 0, y: 1 }), b'b');
}

#[test]
fn parse_rejects_non_ascii() {
    assert!(matches!(Interpreter::parse_grid("ab\u{e9}c"), Err(Error::NonAscii(0xe9))));
}

#[test]
fn parse_rejects_oversized_grids() {
    let wide = "x".repeat(81);
    assert!(matches!(Interpreter::parse_grid(&wide), Err(Error::InvalidGridSize(81, 1))));
    let tall = "x\n".repeat(26);
    assert!(matches!(Interpreter::parse_grid(&tall), Err(Error::InvalidGridSize(1, 26))));
    let full = format!("{}\n", "y".repeat(80)).repeat(25);
    assert!(Interpreter::parse_grid(&full).is_ok());
    let late = format!("ab\n{}", "z".repeat(90));
    assert!(matches!(Interpreter::parse_grid(&late), Err(Error::InvalidGridSize(90, 2))));
}

#[test]
fn stepping_wraps_around_the_playfield() {
    let mut pc = PC { position: Position { x: 0, y: 3 }, direction: Direction::Left };
    pc.advance();
    assert_eq!(pc.position, Position { x: 79, y: 3 });
    pc.advance();
    assert_eq!(pc.position, Position { x: 78, y: 3 });
    let mut up = PC { position: Position { x: 5, y: 0 }, direction: Direction::Up };
    up.advance();
    assert_eq!(up.position, Position { x: 5, y: 24 });
    let mut right = PC { position: Position { x: 79, y: 7 }, direction: Direction::Right };
    right.advance();
    assert_eq!(right.position, Position { x: 0, y: 7 });
    let mut down = PC { position: Position { x: 2, y: 24 }, direction: Direction::Down };
    down.advance();
    assert_eq!(down.position, Position { x: 2, y: 0 });
}

#[test]
fn step_and_constrain_wrap_a_bridge() {
    let mut pc = PC { position: Position { x: 79, y: 0 }, direction: Direction::Right };
    pc.step();
    pc.step();
    assert_eq!(pc.position, Position { x: 81, y: 0 });
    pc.constrain();
    assert_eq!(pc.position, Position { x: 1, y: 0 });
    assert_eq!((pc.position, pc.direction), (Position { x: 1, y: 0 }, Direction::Right));
}

#[test]
fn wrapping_program_runs_off_the_left_edge() {
    // `<` sends the program counter off the left edge onto `@` at column 79.
    let mut line = String::from("<");
    line.push_str(&" ".repeat(77));
    line.push_str(".@");
    let (result, out, _) = run_jit(&line, b"");
    assert!(result.is_ok());
    assert_eq!(out, "");
    let mut line2 = String::from("1<");
    line2.push_str(&" ".repeat(76));
    line2.push_str("@.");
    let (result2, out2) = run_steps(&line2, b"");
    assert!(result2.is_ok());
    assert_eq!(out2, "1 ");
}

#[test]
fn binary_operations_wrap() {
    assert_eq!(BinaryOperation::Add.call(i64::MAX, 1), i64::MIN);
    assert_eq!(BinaryOperation::Subtract.call(i64::MIN, 1), i64::MAX);
    assert_eq!(BinaryOperation::Multiply.call(i64::MAX, 2), -2);
    assert_eq!(BinaryOperation::Divide.call(i64::MIN, -1), i64::MIN);
    assert_eq!(BinaryOperation::Remainder.call(i64::MIN, -1), 0);
    assert_eq!(BinaryOperation::Divide.call(-7, 2), -3);
    assert_eq!(BinaryOperation::Remainder.call(-7, 2), -1);
    assert_eq!(BinaryOperation::Remainder.call(7, -2), 1);
    assert_eq!(BinaryOperation::Divide.call(7, 0), 0);
    assert_eq!(BinaryOperation::Remainder.call(7, 0), 0);
    assert_eq!(BinaryOperation::Greater.call(3, 2), 1);
    assert_eq!(BinaryOperation::Greater.call(2, 3), 0);
    assert_eq!(BinaryOperation::Greater.call(2, 2), 0);
}

#[test]
fn division_by_zero_in_a_program_is_no_error() {
    let (result, out, _) = run_jit("50/.50%.@", b"");
    assert!(result.is_ok());
    assert_eq!(out, "0 0 ");
}

#[test]
fn popping_an_empty_stack_yields_zero() {
    let (result, out, _) = run_jit(".:.\\..+.!.`.$g.@", b"");
    assert!(result.is_ok());
    assert_eq!(out, "0 0 0 0 0 1 0 46 ");
    let (result2, out2) = run_steps(".:.\\..+.!.`.$g.@", b"");
    assert!(result2.is_ok());
    assert_eq!(out2, out);
}

#[test]
fn signed_cell_read() {
    // Stores 255 at (0, 0) and reads it back as -1.
    let (result, out, _) = run_jit("88*4*1-00p00g.@", b"");
    assert!(result.is_ok());
    assert_eq!(out, "-1 ");
    let (result2, out2) = run_steps("88*4*1-00p00g.@", b"");
    assert!(result2.is_ok());
    assert_eq!(out2, "-1 ");
}

#[test]
fn get_outside_the_playfield_is_zero() {
    let (_, out, _) = run_jit("09-0g.099*g.@", b"");
    assert_eq!(out, "0 0 ");
}

#[test]
fn store_into_own_block_resumes_after_the_store() {
    // The store writes `.` over the space at column 7, which the running
    // block already traced: the block stops and the rest is recompiled.
    let program = "\".\"70p1 @";
    let (result, out, compiles) = run_jit(program, b"");
    assert!(result.is_ok());
    assert_eq!(out, "1 ");
    assert_eq!(compiles, 2);
    let (_, out2) = run_steps(program, b"");
    assert_eq!(out2, "1 ");
}

#[test]
fn loops_compile_each_block_once() {
    let program = "9>:#v_@\n ^-1<\n";
    let (result, _, compiles) = run_jit(program, b"");
    assert!(result.is_ok());
    assert_eq!(compiles, 3);
    let longer = "9999**>:#v_@\n      ^-1<\n";
    let (result2, _, compiles2) = run_jit(longer, b"");
    assert!(result2.is_ok());
    assert_eq!(compiles2, 3);
}

#[test]
fn output_of_a_non_ascii_value_fails() {
    let (result, out, _) = run_jit("88*2*,@", b"");
    assert!(matches!(result, Err(Error::NonAscii(128))));
    assert_eq!(out, "");
    let (result2, _) = run_steps("01-,@", b"");
    assert!(matches!(result2, Err(Error::NonAscii(-1))));
}

#[test]
fn illegal_command_fails() {
    let (result, _, _) = run_jit("1x@", b"");
    assert!(matches!(result, Err(Error::IllegalCommand(b'x'))));
    let (result2, _) = run_steps("1x@", b"");
    assert!(matches!(result2, Err(Error::IllegalCommand(b'x'))));
}

#[test]
fn string_mode_pushes_bytes() {
    let (_, out, _) = run_jit("\"gx\"..@", b"");
    assert_eq!(out, "120 103 ");
}

#[test]
fn ascii_input_and_end_of_stream() {
    let (_, out, _) = run_jit("~.~.~.@", b"A\xff");
    assert_eq!(out, "65 255 -1 ");
    let (_, out2) = run_steps("~.~.~.@", b"A\xff");
    assert_eq!(out2, "65 255 -1 ");
}

#[test]
fn decimal_input_reads_signed_numbers() {
    let (_, out, _) = run_jit("&.&.&.@", b"  12\n-7 +3");
    assert_eq!(out, "12 -7 3 ");
}

#[test]
fn decimal_input_failure_is_invalid_data() {
    let (result, _, _) = run_jit("&.@", b"12a");
    assert!(matches!(result, Err(Error::Io(IoErrorKind::InvalidData))));
    let (result2, _, _) = run_jit("&.@", b"   ");
    assert!(matches!(result2, Err(Error::Io(IoErrorKind::InvalidData))));
}

#[test]
fn scan_next_tokens() {
    let mut input = InputBuffer::new(b" \t42 -9223372036854775808 9223372036854775808 x".to_vec(), true);
    assert_eq!(scan_next(&mut input), Ok(Some(42)));
    assert_eq!(scan_next(&mut input), Ok(Some(i64::MIN)));
    assert_eq!(scan_next(&mut input), Err(Error::Io(IoErrorKind::InvalidData)));
    assert_eq!(scan_next(&mut input), Err(Error::Io(IoErrorKind::InvalidData)));
    assert_eq!(scan_next(&mut input), Err(Error::Io(IoErrorKind::InvalidData)));
}

#[test]
fn scan_next_waits_for_the_end_of_a_token() {
    let mut input = InputBuffer::new(b" 12".to_vec(), false);
    assert_eq!(scan_next(&mut input), Ok(None));
    input.feed(b"3 ");
    assert_eq!(scan_next(&mut input), Ok(Some(123)));
    assert_eq!(scan_next(&mut input), Ok(None));
    input.close();
    assert_eq!(scan_next(&mut input), Err(Error::Io(IoErrorKind::InvalidData)));
}

#[test]
fn decimal_output_text() {
    let mut out = Vec::new();
    push_decimal(&mut out, 0);
    push_decimal(&mut out, -305);
    push_decimal(&mut out, i64::MIN);
    assert_eq!(String::from_utf8(out).unwrap(), "0-305-9223372036854775808");
}

#[test]
fn interactive_input_suspends_and_resumes() {
    let mut jit = JustInTimeCompiler::new("1.~.&.@", 5).unwrap();
    assert_eq!(jit.run(100), Ok(RunStatus::NeedInput));
    assert_eq!(jit.take_output(), b"1 ".to_vec());
    jit.feed_input(b"a4");
    assert_eq!(jit.run(100), Ok(RunStatus::NeedInput));
    jit.feed_input(b"2\n");
    assert_eq!(jit.run(100), Ok(RunStatus::Ended));
    assert_eq!(jit.take_output(), b"97 42 ".to_vec());

    let mut interpreter = Interpreter::new("~.@", 5).unwrap();
    assert_eq!(interpreter.run_step(), Ok(StepStatus::NeedInput));
    interpreter.close_input();
    assert_eq!(interpreter.run_step(), Ok(StepStatus::Stepped));
    assert_eq!(interpreter.run_step(), Ok(StepStatus::Stepped));
    assert_eq!(interpreter.run_step(), Err(Error::ProgramEnd));
    assert_eq!(interpreter.take_output(), b"-1 ".to_vec());
    assert_eq!(interpreter.steps(), 3);
}

#[test]
fn random_branch_takes_one_of_the_ways() {
    // `?` at (1, 1): up, right and down each print a distinct digit; left
    // leads back into `?`.
    let source = "v>1.@\n>?2.@\n >3.@\n";
    let mut seen = Vec::new();
    for seed in 0..20u64 {
        let mut jit = JustInTimeCompiler::new_with_io(source, Vec::new(), seed).unwrap();
        let mut status = jit.run(1000);
        while status == Ok(RunStatus::Paused) {
            status = jit.run(1000);
        }
        assert_eq!(status, Ok(RunStatus::Ended));
        let out = String::from_utf8(jit.take_output()).unwrap();
        assert!(out == "1 " || out == "2 " || out == "3 ", "unexpected output {}", out);
        if !seen.contains(&out) {
            seen.push(out);
        }
        let mut interpreter = Interpreter::new_with_io(source, Vec::new(), seed).unwrap();
        let mut stepped = interpreter.run(1000);
        while stepped == Ok(RunStatus::Paused) {
            stepped = interpreter.run(1000);
        }
        assert_eq!(stepped, Ok(RunStatus::Ended));
        let out2 = String::from_utf8(interpreter.take_output()).unwrap();
        assert!(out2 == "1 " || out2 == "2 " || out2 == "3 ", "unexpected output {}", out2);
    }
    assert!(seen.len() >= 2);
}

#[test]
fn single_at_sign_ends_at_once() {
    let (result, out, compiles) = run_jit("@", b"");
    assert!(result.is_ok());
    assert_eq!(out, "");
    assert_eq!(compiles, 1);
    let (result2, out2) = run_steps("@", b"");
    assert!(result2.is_ok());
    assert_eq!(out2, "");
}

#[test]
fn string_mode_pushes_high_bytes_as_signed() {
    // Stores 200 into the string at (1, 1), then runs through the string
    // leftwards: the cell is pushed as -56 and printed.
    let mut row1 = String::from("\" \"     <");
    row1.push_str(&" ".repeat(69));
    row1.push_str("@.");
    let program = format!("855**11pv\n{}\n", row1);
    let (result, out, _) = run_jit(&program, b"");
    assert!(result.is_ok());
    assert_eq!(out, "-56 ");
    let (result2, out2) = run_steps(&program, b"");
    assert!(result2.is_ok());
    assert_eq!(out2, "-56 ");
}

#[test]
fn failed_step_keeps_position_and_counts() {
    let mut interpreter = Interpreter::new_with_io("1x@", Vec::new(), 1).unwrap();
    assert_eq!(interpreter.run_step(), Ok(StepStatus::Stepped));
    assert_eq!(interpreter.run_step(), Err(Error::IllegalCommand(b'x')));
    assert_eq!(interpreter.position(), Position { x: 1, y: 0 });
    assert_eq!(interpreter.steps(), 2);

    let mut printer = Interpreter::new_with_io("65*:*,@", Vec::new(), 1).unwrap();
    let status = printer.run(100);
    assert_eq!(status, Err(Error::NonAscii(900)));
    assert_eq!(printer.position(), Position { x: 5, y: 0 });
    assert_eq!(printer.take_output(), Vec::<u8>::new());
}

#[test]
fn compiler_error_keeps_the_block_entry() {
    let mut jit = JustInTimeCompiler::new_with_io(">1v\n  x\n", Vec::new(), 1).unwrap();
    assert_eq!(jit.run(10), Err(Error::IllegalCommand(b'x')));
    assert_eq!(jit.position(), Position { x: 0, y: 0 });
    assert_eq!(jit.steps(), 0);
}

#[test]
fn constrain_wraps_far_positions() {
    let mut pc = PC { position: Position { x: 1000, y: -25 }, direction: Direction::Up };
    pc.constrain();
    assert_eq!(pc.position, Position { x: 40, y: 0 });
    let mut far = PC { position: Position { x: -80, y: 99 }, direction: Direction::Down };
    far.constrain();
    assert_eq!(far.position, Position { x: 0, y: 24 });
}
