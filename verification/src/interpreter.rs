//! The interpreter: the loader and the engine as executable code.
//!
//! `Brainfuck` owns the four structures of the design: the append-only
//! instruction buffer, the tape, the table of matched delimiter pairs,
//! and the stack of unresolved opens.  `read` feeds it one chunk of raw
//! input; `parse` dispatches one instruction.  The caller drives the
//! scheduler loop: while `needs_more_input` holds, a loop is still open
//! and more input must arrive before dispatch resumes; `phase` says
//! whether an instruction is available at the pointer.

use vstd::prelude::*;

use crate::engine::{
    find_close, find_open, step, wrap_dec, wrap_inc, BfView, InterpreterError, DEC_BYTE, IN_BYTE,
    INC_BYTE, MOVE_LEFT_BYTE, MOVE_RIGHT_BYTE, OUT_BYTE,
};
use crate::loader::{
    is_ws, lemma_load_byte_inv, lemma_load_concat, lemma_load_extends, lemma_load_snoc, load,
    load_byte, pair_ok, CLOSE_BYTE, OPEN_BYTE,
};
use crate::engine::{lemma_find_close_is_pair, lemma_find_open_is_pair};
use vstd::pervasive::VecAdditionalExecFns;

verus! {

/// The scheduler's two states: an instruction waits under the pointer,
/// or the pointer has run off the end of the known buffer.
#[derive(Clone, Copy, Debug, PartialEq, Eq, Structural)]
pub enum Phase {
    Dispatching,
    AwaitingInput,
}

/// A streaming interpreter instance.
pub struct Brainfuck {
    code: Vec<u8>,
    code_i: usize,
    tape: Vec<u8>,
    tape_i: usize,
    pairs: Vec<(usize, usize)>,
    opens: Vec<usize>,
}

impl View for Brainfuck {
    type V = BfView;

    closed spec fn view(&self) -> BfView {
        BfView {
            code: self.code@,
            code_i: self.code_i as int,
            tape: self.tape@,
            tape_i: self.tape_i as int,
            pairs: self.pairs@.map_values(|p: (usize, usize)| (p.0 as int, p.1 as int)),
            opens: self.opens@.map_values(|x: usize| x as int),
        }
    }
}

impl Brainfuck {
    /// Well-formedness of an interpreter instance.
    pub open spec fn wf(&self) -> bool {
        self@.inv()
    }

    /// A fresh interpreter: empty instruction buffer, pointer at 0, and a
    /// tape of one zero cell.
    pub fn new() -> (b: Brainfuck)
        ensures
            b.wf(),
            b@.code == Seq::<u8>::empty(),
            b@.code_i == 0,
            b@.tape == seq![0u8],
            b@.tape_i == 0,
            b@.pairs == Seq::<(int, int)>::empty(),
            b@.opens == Seq::<int>::empty(),
    {
        let mut tape: Vec<u8> = Vec::new();
        tape.push(0);
        let b = Brainfuck {
            code: Vec::new(),
            code_i: 0,
            tape,
            tape_i: 0,
            pairs: Vec::new(),
            opens: Vec::new(),
        };
        proof {
            assert(b@.pairs =~= Seq::<(int, int)>::empty());
            assert(b@.opens =~= Seq::<int>::empty());
            assert(b@.tape =~= seq![0u8]);
        }
        b
    }

    /// Consume one chunk of raw input: discard whitespace, append every
    /// other byte to the instruction buffer, and pair loop delimiters as
    /// they complete.  Returns the count of newly appended instruction
    /// bytes (0 means "no new instructions right now", not an error).
    /// `CloseWithoutOpen` is returned exactly when the chunk holds a `]`
    /// with no unresolved `[` before it; the state then reflects the
    /// chunk's bytes up to (not including) the offending one.
    pub fn read(&mut self, chunk: &[u8]) -> (r: Result<usize, InterpreterError>)
        requires
            old(self).wf(),
        ensures
            final(self).wf(),
            final(self)@.tape == old(self)@.tape,
            final(self)@.tape_i == old(self)@.tape_i,
            final(self)@.code_i == old(self)@.code_i,
            old(self)@.code.is_prefix_of(final(self)@.code),
            match r {
                Ok(n) => load(old(self)@.loader(), chunk@) == Some(final(self)@.loader())
                    && n as int == final(self)@.code.len() - old(self)@.code.len(),
                Err(e) => e == InterpreterError::CloseWithoutOpen && load(
                    old(self)@.loader(),
                    chunk@,
                ) is None && exists|i: int|
                    0 <= i <= chunk@.len() && load(old(self)@.loader(), #[trigger] chunk@.take(i))
                        == Some(final(self)@.loader()),
            },
    {
        let ghost st0 = self@.loader();
        let start: usize = self.code.len();
        let mut j: usize = 0;
        while j < chunk.len()
            invariant
                self.wf(),
                j <= chunk@.len(),
                start as int <= self@.code.len(),
                self@.tape == old(self)@.tape,
                self@.tape_i == old(self)@.tape_i,
                self@.code_i == old(self)@.code_i,
                st0 == old(self)@.loader(),
                start as int == old(self)@.code.len(),
                load(st0, chunk@.take(j as int)) == Some(self@.loader()),
            decreases chunk@.len() - j,
        {
            let b = chunk[j];
            let ghost prev = self@.loader();
            if is_ws_byte(b) {
                proof {
                    assert(load_byte(prev, b) == Some(prev));
                }
            } else if b == OPEN_BYTE {
                let p = self.code.len();
                self.opens.push(p);
                self.code.push(b);
                proof {
                    assert(self@.opens =~= prev.opens.push(p as int));
                    assert(self@.pairs =~= prev.pairs);
                    assert(self@.loader() =~= load_byte(prev, b)->Some_0);
                }
            } else if b == CLOSE_BYTE {
                if self.opens.len() == 0 {
                    proof {
                        assert(prev.opens.len() == 0);
                        assert(load_byte(prev, b) is None);
                        lemma_load_snoc(st0, chunk@.take(j as int), b);
                        assert(chunk@.take(j as int).push(b) =~= chunk@.take(j as int + 1));
                        assert(load(st0, chunk@.take(j as int + 1)) is None);
                        lemma_load_concat(
                            st0,
                            chunk@.take(j as int + 1),
                            chunk@.skip(j as int + 1),
                        );
                        assert(chunk@.take(j as int + 1) + chunk@.skip(j as int + 1) =~= chunk@);
                        assert(load(st0, chunk@) is None);
                        assert(load(st0, chunk@.take(j as int)) == Some(self@.loader()));
                        lemma_load_extends(st0, chunk@.take(j as int));
                    }
                    return Err(InterpreterError::CloseWithoutOpen);
                }
                let c = self.code.len();
                let o = self.opens.pop().unwrap();
                self.pairs.push((o, c));
                self.code.push(b);
                proof {
                    assert(o as int == prev.opens.last());
                    assert(self@.opens =~= prev.opens.drop_last());
                    assert(self@.pairs =~= prev.pairs.push((o as int, c as int)));
                    assert(self@.loader() =~= load_byte(prev, b)->Some_0);
                }
            } else {
                self.code.push(b);
                proof {
                    assert(self@.opens =~= prev.opens);
                    assert(self@.pairs =~= prev.pairs);
                    assert(self@.loader() =~= load_byte(prev, b)->Some_0);
                }
            }
            proof {
                lemma_load_byte_inv(prev, b);
                lemma_load_snoc(st0, chunk@.take(j as int), b);
                assert(chunk@.take(j as int).push(b) =~= chunk@.take(j as int + 1));
                assert(load(st0, chunk@.take(j as int + 1)) == Some(self@.loader()));
            }
            j += 1;
        }
        proof {
            assert(chunk@.take(j as int) =~= chunk@);
            lemma_load_extends(st0, chunk@);
        }
        Ok(self.code.len() - start)
    }

    /// Dispatch the one instruction under the instruction pointer.  On
    /// success the returned option holds the byte written to the output
    /// sink, if the instruction was an output.  The engine's step
    /// function `step` states the exact effect, the cases that fail
    /// (`TapeUnderflow`, `UnknownInstruction`, `CorruptJumpTable`)
    /// included; a failing dispatch leaves the state unchanged.
    pub fn parse(&mut self) -> (r: Result<Option<u8>, InterpreterError>)
        requires
            old(self).wf(),
            old(self)@.code_i < old(self)@.code.len(),
        ensures
            final(self).wf(),
            final(self)@.code == old(self)@.code,
            final(self)@.pairs == old(self)@.pairs,
            final(self)@.opens == old(self)@.opens,
            match step(old(self)@) {
                Ok(p) => r == Ok::<Option<u8>, InterpreterError>(p.1) && final(self)@ == p.0,
                Err(e) => r == Err::<Option<u8>, InterpreterError>(e) && final(self)@ == old(
                    self,
                )@,
            },
    {
        let code_len = self.code.len();
        let tape_len = self.tape.len();
        proof {
            assert(self@.code.len() == code_len as int);
            assert(self@.tape.len() == tape_len as int);
        }
        let b = self.code[self.code_i];
        if b == MOVE_RIGHT_BYTE {
            self.tape_i = self.tape_i + 1;
            if self.tape.len() == self.tape_i {
                self.tape.push(0);
            }
            self.code_i = self.code_i + 1;
            proof {
                assert(self@ =~= step(old(self)@)->Ok_0.0);
            }
            Ok(None)
        } else if b == MOVE_LEFT_BYTE {
            if self.tape_i == 0 {
                return Err(InterpreterError::TapeUnderflow);
            }
            self.tape_i = self.tape_i - 1;
            self.code_i = self.code_i + 1;
            proof {
                assert(self@ =~= step(old(self)@)->Ok_0.0);
            }
            Ok(None)
        } else if b == INC_BYTE {
            let cur = self.tape[self.tape_i];
            let nv: u8 = if cur == 255 {
                0
            } else {
                cur + 1
            };
            self.tape.set(self.tape_i, nv);
            self.code_i = self.code_i + 1;
            proof {
                assert(nv == wrap_inc(cur));
                assert(self@ =~= step(old(self)@)->Ok_0.0);
            }
            Ok(None)
        } else if b == DEC_BYTE {
            let cur = self.tape[self.tape_i];
            let nv: u8 = if cur == 0 {
                255
            } else {
                cur - 1
            };
            self.tape.set(self.tape_i, nv);
            self.code_i = self.code_i + 1;
            proof {
                assert(nv == wrap_dec(cur));
                assert(self@ =~= step(old(self)@)->Ok_0.0);
            }
            Ok(None)
        } else if b == OUT_BYTE {
            let out = self.tape[self.tape_i];
            self.code_i = self.code_i + 1;
            proof {
                assert(self@ =~= step(old(self)@)->Ok_0.0);
            }
            Ok(Some(out))
        } else if b == IN_BYTE {
            self.code_i = self.code_i + 1;
            proof {
                assert(self@ =~= step(old(self)@)->Ok_0.0);
            }
            Ok(None)
        } else if b == OPEN_BYTE {
            let cell = self.tape[self.tape_i];
            if cell == 0 {
                match self.lookup_close(self.code_i) {
                    Some(c) => {
                        proof {
                            lemma_find_close_is_pair(self@.pairs, self.code_i as int);
                            let k = choose|k: int|
                                0 <= k < self@.pairs.len() && #[trigger] self@.pairs[k] == (
                                self.code_i as int,
                                c as int,
                            );
                            assert(pair_ok(self@.code, self@.pairs[k]));
                            assert((c as int) < self@.code.len());
                        }
                        self.code_i = c + 1;
                        proof {
                            assert(self@ =~= step(old(self)@)->Ok_0.0);
                        }
                        Ok(None)
                    }
                    None => Err(InterpreterError::CorruptJumpTable),
                }
            } else {
                self.code_i = self.code_i + 1;
                proof {
                    assert(self@ =~= step(old(self)@)->Ok_0.0);
                }
                Ok(None)
            }
        } else if b == CLOSE_BYTE {
            let cell = self.tape[self.tape_i];
            if cell != 0 {
                match self.lookup_open(self.code_i) {
                    Some(o) => {
                        proof {
                            lemma_find_open_is_pair(self@.pairs, self.code_i as int);
                            let k = choose|k: int|
                                0 <= k < self@.pairs.len() && #[trigger] self@.pairs[k] == (
                                o as int,
                                self.code_i as int,
                            );
                            assert(pair_ok(self@.code, self@.pairs[k]));
                            assert((o as int) < self@.code.len());
                        }
                        self.code_i = o + 1;
                        proof {
                            assert(self@ =~= step(old(self)@)->Ok_0.0);
                        }
                        Ok(None)
                    }
                    None => Err(InterpreterError::CorruptJumpTable),
                }
            } else {
                self.code_i = self.code_i + 1;
                proof {
                    assert(self@ =~= step(old(self)@)->Ok_0.0);
                }
                Ok(None)
            }
        } else {
            Err(InterpreterError::UnknownInstruction)
        }
    }

    /// The instruction pointer has run off the end of the known buffer:
    /// dispatch must wait for more input.
    pub fn at_end(&self) -> (r: bool)
        ensures
            r == (self@.code_i == self@.code.len()),
    {
        self.code_i == self.code.len()
    }

    /// A loop is still open: its `]` has not arrived yet.  While this
    /// holds, the loader must keep draining input before dispatch resumes.
    pub fn needs_more_input(&self) -> (r: bool)
        ensures
            r == (self@.opens.len() > 0),
    {
        self.opens.len() > 0
    }

    /// The scheduler state the instance is in.
    pub fn phase(&self) -> (r: Phase)
        requires
            self.wf(),
        ensures
            r == (if self@.code_i < self@.code.len() {
                Phase::Dispatching
            } else {
                Phase::AwaitingInput
            }),
    {
        if self.code_i < self.code.len() {
            Phase::Dispatching
        } else {
            Phase::AwaitingInput
        }
    }

    /// Linear search of the pair table for the entry opening at `pos`.
    fn lookup_close(&self, pos: usize) -> (r: Option<usize>)
        ensures
            match r {
                Some(c) => find_close(self@.pairs, pos as int) == Some(c as int),
                None => find_close(self@.pairs, pos as int) is None,
            },
    {
        let ghost sp = self@.pairs;
        proof {
            assert(sp.skip(0) =~= sp);
        }
        let mut k: usize = 0;
        while k < self.pairs.len()
            invariant
                k <= self.pairs.len(),
                sp == self@.pairs,
                sp.len() == self.pairs.len(),
                find_close(sp, pos as int) == find_close(sp.skip(k as int), pos as int),
            decreases self.pairs.len() - k,
        {
            let (o, c) = self.pairs[k];
            proof {
                assert(sp[k as int] == (o as int, c as int));
                assert(sp.skip(k as int)[0] == sp[k as int]);
            }
            if o == pos {
                return Some(c);
            }
            proof {
                assert(sp.skip(k as int).drop_first() =~= sp.skip(k as int + 1));
            }
            k = k + 1;
        }
        proof {
            assert(sp.skip(k as int).len() == 0);
        }
        None
    }

    /// Linear search of the pair table for the entry closing at `pos`.
    fn lookup_open(&self, pos: usize) -> (r: Option<usize>)
        ensures
            match r {
                Some(o) => find_open(self@.pairs, pos as int) == Some(o as int),
                None => find_open(self@.pairs, pos as int) is None,
            },
    {
        let ghost sp = self@.pairs;
        proof {
            assert(sp.skip(0) =~= sp);
        }
        let mut k: usize = 0;
        while k < self.pairs.len()
            invariant
                k <= self.pairs.len(),
                sp == self@.pairs,
                sp.len() == self.pairs.len(),
                find_open(sp, pos as int) == find_open(sp.skip(k as int), pos as int),
            decreases self.pairs.len() - k,
        {
            let (o, c) = self.pairs[k];
            proof {
                assert(sp[k as int] == (o as int, c as int));
                assert(sp.skip(k as int)[0] == sp[k as int]);
            }
            if c == pos {
                return Some(o);
            }
            proof {
                assert(sp.skip(k as int).drop_first() =~= sp.skip(k as int + 1));
            }
            k = k + 1;
        }
        proof {
            assert(sp.skip(k as int).len() == 0);
        }
        None
    }
}

/// Whether a byte is loader-discarded whitespace.
fn is_ws_byte(b: u8) -> (r: bool)
    ensures
        r == is_ws(b),
{
    b == 32 || b == 9 || b == 10 || b == 11 || b == 12 || b == 13
}

} // verus!
