use brainfuck::engine::InterpreterError;
use brainfuck::interpreter::{Brainfuck, Phase};

fn run_to_end(bf: &mut Brainfuck) -> Result<Vec<u8>, InterpreterError> {
    let mut out = Vec::new();
    while !bf.at_end() {
        match bf.parse() {
            Ok(Some(b)) => out.push(b),
            Ok(None) => {}
            Err(e) => return Err(e),
        }
    }
    Ok(out)
}

#[test]
fn open_and_close_in_separate_chunks() {
    // the loop's `[` arrives first; with the initial cell at 1 the rest
    // behaves exactly as `[-].` delivered whole: decrement to 0, exit,
    // output code 0
    let mut bf = Brainfuck::new();
    bf.read(b"+").unwrap();
    let out = run_to_end(&mut bf).unwrap();
    assert_eq!(out, Vec::<u8>::new());
    bf.read(b"[").unwrap();
    assert!(bf.needs_more_input());
    bf.read(b"-].").unwrap();
    assert!(!bf.needs_more_input());
    let out = run_to_end(&mut bf).unwrap();
    assert_eq!(out, vec![0u8]);
}

#[test]
fn chunked_delivery_matches_whole_delivery() {
    let program: &[u8] = b"++[->+<]>.";
    let mut whole = Brainfuck::new();
    whole.read(program).unwrap();
    let expected = run_to_end(&mut whole).unwrap();
    assert_eq!(expected, vec![2u8]);

    let mut chunked = Brainfuck::new();
    chunked.read(b"++[-").unwrap();
    assert!(chunked.needs_more_input());
    chunked.read(b">+<]").unwrap();
    assert!(!chunked.needs_more_input());
    chunked.read(b">.").unwrap();
    let got = run_to_end(&mut chunked).unwrap();
    assert_eq!(got, expected);
}

#[test]
fn whitespace_is_discarded_and_not_counted() {
    let mut bf = Brainfuck::new();
    let n = bf.read(b"+ \t+\n+\r.").unwrap();
    assert_eq!(n, 4);
    let out = run_to_end(&mut bf).unwrap();
    assert_eq!(out, vec![3u8]);
}

#[test]
fn empty_and_whitespace_chunks_yield_zero() {
    let mut bf = Brainfuck::new();
    assert_eq!(bf.read(b""), Ok(0));
    assert_eq!(bf.read(b" \n\t"), Ok(0));
    assert!(bf.at_end());
}

#[test]
fn read_counts_appended_instruction_bytes() {
    let mut bf = Brainfuck::new();
    assert_eq!(bf.read(b"+++"), Ok(3));
    assert_eq!(bf.read(b"[-]."), Ok(4));
}

#[test]
fn phase_follows_the_instruction_pointer() {
    let mut bf = Brainfuck::new();
    assert_eq!(bf.phase(), Phase::AwaitingInput);
    bf.read(b"+").unwrap();
    assert_eq!(bf.phase(), Phase::Dispatching);
    bf.parse().unwrap();
    assert_eq!(bf.phase(), Phase::AwaitingInput);
}

#[test]
fn close_without_open_across_chunks() {
    // the `]` that closes nothing arrives in a later chunk
    let mut bf = Brainfuck::new();
    bf.read(b"[-]").unwrap();
    assert_eq!(bf.read(b"]"), Err(InterpreterError::CloseWithoutOpen));
}
