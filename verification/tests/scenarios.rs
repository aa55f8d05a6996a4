use brainfuck::engine::InterpreterError;
use brainfuck::interpreter::Brainfuck;

/// Dispatches instructions until the pointer runs off the known buffer,
/// collecting every byte written to the output sink.
fn run_to_end(bf: &mut Brainfuck) -> Result<Vec<u8>, InterpreterError> {
    let mut out = Vec::new();
    while !bf.at_end() {
        match bf.parse() {
            Ok(Some(b)) => out.push(b),
            Ok(None) => {}
            Err(e) => return Err(e),
        }
    }
    Ok(out)
}

fn run_program(src: &[u8]) -> Result<Vec<u8>, InterpreterError> {
    let mut bf = Brainfuck::new();
    bf.read(src)?;
    run_to_end(&mut bf)
}

#[test]
fn sixty_five_increments_output_a() {
    let src = b"+++++++++++++++++++++++++++++++++++++++++++++++++++++++++++++++++.";
    assert_eq!(src.len(), 66);
    let out = run_program(src).unwrap();
    assert_eq!(out, vec![65u8]);
    assert_eq!(out[0] as char, 'A');
}

#[test]
fn loop_skipped_when_cell_already_zero() {
    let out = run_program(b"[-].").unwrap();
    assert_eq!(out, vec![0u8]);
}

#[test]
fn lone_close_is_fatal_and_produces_no_output() {
    let mut bf = Brainfuck::new();
    let r = bf.read(b"]");
    assert_eq!(r, Err(InterpreterError::CloseWithoutOpen));
    // nothing was appended, so nothing can be dispatched
    assert!(bf.at_end());
}

#[test]
fn move_left_from_cell_zero_underflows() {
    let mut bf = Brainfuck::new();
    bf.read(b"<").unwrap();
    assert_eq!(bf.parse(), Err(InterpreterError::TapeUnderflow));
    // a failing dispatch leaves the state unchanged
    assert_eq!(bf.parse(), Err(InterpreterError::TapeUnderflow));
}

#[test]
fn increment_at_255_wraps_to_zero() {
    let mut src = vec![b'+'; 256];
    src.push(b'.');
    let out = run_program(&src).unwrap();
    assert_eq!(out, vec![0u8]);
}

#[test]
fn decrement_at_zero_wraps_to_255() {
    let out = run_program(b"-.").unwrap();
    assert_eq!(out, vec![255u8]);
}

#[test]
fn unknown_instruction_is_fatal() {
    let mut bf = Brainfuck::new();
    bf.read(b"x").unwrap();
    assert_eq!(bf.parse(), Err(InterpreterError::UnknownInstruction));
}

#[test]
fn jump_at_unresolved_open_reports_corrupt_table() {
    let mut bf = Brainfuck::new();
    assert_eq!(bf.read(b"["), Ok(1));
    assert!(bf.needs_more_input());
    // dispatching anyway, with the cell at 0, takes a jump whose close
    // was never recorded
    assert_eq!(bf.parse(), Err(InterpreterError::CorruptJumpTable));
}

#[test]
fn input_instruction_is_a_noop() {
    let out = run_program(b",+.").unwrap();
    assert_eq!(out, vec![1u8]);
}

#[test]
fn tape_grows_with_zero_cells_to_the_right() {
    let out = run_program(b">>.").unwrap();
    assert_eq!(out, vec![0u8]);
    let out = run_program(b"+>.<.").unwrap();
    assert_eq!(out, vec![0u8, 1u8]);
}

#[test]
fn nested_loops_resolve_and_execute() {
    let out = run_program(b"+[[-]].").unwrap();
    assert_eq!(out, vec![0u8]);
}

#[test]
fn loop_multiplies() {
    // 2 iterations adding 3 each: the second cell ends at 6
    let out = run_program(b"++[>+++<-]>.").unwrap();
    assert_eq!(out, vec![6u8]);
}
