use boxfunge::{Error, Interpreter, JustInTimeCompiler, RunStatus, StepStatus};

const HELLO_WORLD: &str = "\"!dlroW olleH\">:#,_@\n";

const DIGIROOT: &str = "&>:9`#v_.@\n      >:55+/\\55+%+v\n ^                <\n";

const RNG: &str = "&&v\n  ?.@\n";

const DNA1: &str = "55+>    :#v_@\n   ^  -1.0?1.1-v\n   ^           <\n";

const DNA2: &str = "55+>    :#v_@\n   ^-1,\"A\"?\"T\",1-v\n   ^             <\n";

const QUINE: &str = "01->1# +# :# 0# g# ,# :# 5# 8# *# 4# +# -# _@";

fn run_jit_with_input(source: &str, input: &[u8]) -> Result<String, Error> {
    let mut jit = JustInTimeCompiler::new_with_io(source, input.to_vec(), 11)?;
    loop {
        match jit.run(1 << 16)? {
            RunStatus::Ended => break,
            RunStatus::NeedInput => panic!("closed input cannot run out"),
            RunStatus::Paused => {}
        }
    }
    Ok(String::from_utf8_lossy(&jit.take_output()).to_string())
}

fn run_interpreter_with_input(source: &str, input: &[u8]) -> Result<String, Error> {
    let mut interpreter = Interpreter::new_with_io(source, input.to_vec(), 11)?;
    loop {
        match interpreter.run_step() {
            Ok(StepStatus::Stepped) => {}
            Ok(StepStatus::NeedInput) => panic!("closed input cannot run out"),
            Err(Error::ProgramEnd) => break,
            Err(e) => return Err(e),
        }
    }
    Ok(String::from_utf8_lossy(&interpreter.take_output()).to_string())
}

fn run_file_with_input(source: &str, input: &[u8]) -> Result<String, Error> {
    let jit = run_jit_with_input(source, input)?;
    let stepped = run_interpreter_with_input(source, input)?;
    assert_eq!(jit, stepped);
    Ok(jit)
}

fn run_file(source: &str) -> Result<String, Error> {
    run_file_with_input(source, &[])
}

#[test]
fn hello_world() {
    assert_eq!(run_file(HELLO_WORLD).unwrap(), "Hello World!");
}

#[test]
fn digiroot() {
    assert_eq!(run_file_with_input(DIGIROOT, b"9").unwrap().trim(), "9");
    assert_eq!(run_file_with_input(DIGIROOT, b"100").unwrap().trim(), "1");
    assert_eq!(run_file_with_input(DIGIROOT, b"88182").unwrap().trim(), "9");
    assert_eq!(run_file_with_input(DIGIROOT, b"91").unwrap().trim(), "1");
    assert_eq!(run_file_with_input(DIGIROOT, b"99999999").unwrap().trim(), "9");
    assert_eq!(run_file_with_input(DIGIROOT, b"12").unwrap().trim(), "3");
    assert_eq!(run_file_with_input(DIGIROOT, b"123").unwrap().trim(), "6");
    assert_eq!(run_file_with_input(DIGIROOT, b"3004").unwrap().trim(), "7");
}

#[test]
fn randomness() {
    run_jit_with_input(RNG, b"0 19").unwrap();
    run_jit_with_input(DNA1, b"").unwrap();
    run_jit_with_input(DNA2, b"").unwrap();
    run_interpreter_with_input(RNG, b"0 19").unwrap();
    run_interpreter_with_input(DNA1, b"").unwrap();
    run_interpreter_with_input(DNA2, b"").unwrap();
}

#[test]
fn quines() {
    assert_eq!(run_file(QUINE).unwrap().trim_end(), QUINE.trim_end());
}

#[test]
fn single_end_halts_with_no_output() {
    assert_eq!(run_file("@").unwrap(), "");
}
