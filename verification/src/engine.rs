//! The mathematical model of the execution engine.
//!
//! One dispatch cycle reads the instruction under the instruction pointer,
//! mutates the tape or the pointer accordingly, and advances the pointer
//! by one unless a jump overrode it.  Jumps are resolved through the
//! table of matched delimiter pairs that the loader maintains.

use vstd::prelude::*;

use crate::loader::{
    loader_inv, pair_ok, pairs_has_close, pairs_has_open, pairs_nested, separate_or_nested,
    LoadState, CLOSE_BYTE, OPEN_BYTE,
};

verus! {

/// Move the tape pointer one cell to the right, `>`.
pub const MOVE_RIGHT_BYTE: u8 = 62;

/// Move the tape pointer one cell to the left, `<`.
pub const MOVE_LEFT_BYTE: u8 = 60;

/// Increment the current cell, `+`.
pub const INC_BYTE: u8 = 43;

/// Decrement the current cell, `-`.
pub const DEC_BYTE: u8 = 45;

/// Write the current cell to the output sink, `.`.
pub const OUT_BYTE: u8 = 46;

/// Read one value into the current cell, `,` (a documented no-op).
pub const IN_BYTE: u8 = 44;

/// The fatal conditions an executed program can raise.
#[derive(Clone, Copy, Debug, PartialEq, Eq, Structural)]
pub enum InterpreterError {
    /// The tape pointer would move left of cell 0.
    TapeUnderflow,
    /// A `]` arrived with no unresolved `[` before it.
    CloseWithoutOpen,
    /// An instruction byte outside the recognized set was dispatched.
    UnknownInstruction,
    /// A jump was taken at a delimiter that has no recorded partner; the
    /// loader's invariant rules this out for fully resolved programs.
    CorruptJumpTable,
}

/// The whole interpreter state: the loader's three structures, the tape,
/// and the two pointers.
#[verifier::ext_equal]
pub ghost struct BfView {
    pub code: Seq<u8>,
    pub code_i: int,
    pub tape: Seq<u8>,
    pub tape_i: int,
    pub pairs: Seq<(int, int)>,
    pub opens: Seq<int>,
}

impl BfView {
    /// The loader-owned part of the state.
    pub open spec fn loader(self) -> LoadState {
        LoadState { code: self.code, pairs: self.pairs, opens: self.opens }
    }

    /// Well-formedness: the loader invariant holds, the tape has at least
    /// one cell, the tape pointer is on a cell, and the instruction
    /// pointer is at most one past the end of the buffer.
    pub open spec fn inv(self) -> bool {
        &&& loader_inv(self.loader())
        &&& self.tape.len() >= 1
        &&& 0 <= self.tape_i < self.tape.len()
        &&& 0 <= self.code_i <= self.code.len()
    }
}

/// Incrementing a cell wraps modulo 256.
pub open spec fn wrap_inc(x: u8) -> u8 {
    (((x as int) + 1) % 256) as u8
}

/// Decrementing a cell wraps modulo 256.
pub open spec fn wrap_dec(x: u8) -> u8 {
    (((x as int) + 255) % 256) as u8
}

/// The close position recorded for the open position `pos`: the first
/// table entry whose open is `pos`.
pub open spec fn find_close(pairs: Seq<(int, int)>, pos: int) -> Option<int>
    decreases pairs.len(),
{
    if pairs.len() == 0 {
        None
    } else if pairs[0].0 == pos {
        Some(pairs[0].1)
    } else {
        find_close(pairs.drop_first(), pos)
    }
}

/// The open position recorded for the close position `pos`: the first
/// table entry whose close is `pos`.
pub open spec fn find_open(pairs: Seq<(int, int)>, pos: int) -> Option<int>
    decreases pairs.len(),
{
    if pairs.len() == 0 {
        None
    } else if pairs[0].1 == pos {
        Some(pairs[0].0)
    } else {
        find_open(pairs.drop_first(), pos)
    }
}

/// One dispatch cycle on the state `v`, whose instruction pointer must
/// lie on an instruction.  On success, the new state and the byte (if
/// any) written to the output sink; otherwise the fatal condition raised.
pub open spec fn step(v: BfView) -> Result<(BfView, Option<u8>), InterpreterError>
    recommends
        v.code_i < v.code.len(),
        0 <= v.tape_i < v.tape.len(),
{
    let b = v.code[v.code_i];
    if b == MOVE_RIGHT_BYTE {
        let t = if v.tape_i + 1 == v.tape.len() {
            v.tape.push(0u8)
        } else {
            v.tape
        };
        Ok((BfView { tape: t, tape_i: v.tape_i + 1, code_i: v.code_i + 1, ..v }, None))
    } else if b == MOVE_LEFT_BYTE {
        if v.tape_i == 0 {
            Err(InterpreterError::TapeUnderflow)
        } else {
            Ok((BfView { tape_i: v.tape_i - 1, code_i: v.code_i + 1, ..v }, None))
        }
    } else if b == INC_BYTE {
        Ok((
            BfView {
                tape: v.tape.update(v.tape_i, wrap_inc(v.tape[v.tape_i])),
                code_i: v.code_i + 1,
                ..v
            },
            None,
        ))
    } else if b == DEC_BYTE {
        Ok((
            BfView {
                tape: v.tape.update(v.tape_i, wrap_dec(v.tape[v.tape_i])),
                code_i: v.code_i + 1,
                ..v
            },
            None,
        ))
    } else if b == OUT_BYTE {
        Ok((BfView { code_i: v.code_i + 1, ..v }, Some(v.tape[v.tape_i])))
    } else if b == IN_BYTE {
        Ok((BfView { code_i: v.code_i + 1, ..v }, None))
    } else if b == OPEN_BYTE {
        if v.tape[v.tape_i] == 0 {
            match find_close(v.pairs, v.code_i) {
                Some(c) => Ok((BfView { code_i: c + 1, ..v }, None)),
                None => Err(InterpreterError::CorruptJumpTable),
            }
        } else {
            Ok((BfView { code_i: v.code_i + 1, ..v }, None))
        }
    } else if b == CLOSE_BYTE {
        if v.tape[v.tape_i] != 0 {
            match find_open(v.pairs, v.code_i) {
                Some(o) => Ok((BfView { code_i: o + 1, ..v }, None)),
                None => Err(InterpreterError::CorruptJumpTable),
            }
        } else {
            Ok((BfView { code_i: v.code_i + 1, ..v }, None))
        }
    } else {
        Err(InterpreterError::UnknownInstruction)
    }
}

/// A successful close lookup names a recorded pair; a failed one means no
/// recorded pair opens at `pos`.
pub proof fn lemma_find_close_is_pair(pairs: Seq<(int, int)>, pos: int)
    ensures
        match find_close(pairs, pos) {
            Some(c) => exists|k: int|
                0 <= k < pairs.len() && #[trigger] pairs[k] == (pos, c),
            None => !pairs_has_open(pairs, pos),
        },
    decreases pairs.len(),
{
    if pairs.len() == 0 {
    } else if pairs[0].0 == pos {
        assert(pairs[0] == (pos, pairs[0].1));
    } else {
        lemma_find_close_is_pair(pairs.drop_first(), pos);
        match find_close(pairs.drop_first(), pos) {
            Some(c) => {
                let k = choose|k: int|
                    0 <= k < pairs.drop_first().len() && #[trigger] pairs.drop_first()[k] == (
                    pos,
                    c,
                );
                assert(pairs[k + 1] == (pos, c));
            }
            None => {
                assert forall|k: int| 0 <= k < pairs.len() implies (#[trigger] pairs[k]).0 != pos by {
                    if k > 0 {
                        assert(pairs.drop_first()[k - 1] == pairs[k]);
                    }
                }
            }
        }
    }
}

/// A successful open lookup names a recorded pair; a failed one means no
/// recorded pair closes at `pos`.
pub proof fn lemma_find_open_is_pair(pairs: Seq<(int, int)>, pos: int)
    ensures
        match find_open(pairs, pos) {
            Some(o) => exists|k: int|
                0 <= k < pairs.len() && #[trigger] pairs[k] == (o, pos),
            None => !pairs_has_close(pairs, pos),
        },
    decreases pairs.len(),
{
    if pairs.len() == 0 {
    } else if pairs[0].1 == pos {
        assert(pairs[0] == (pairs[0].0, pos));
    } else {
        lemma_find_open_is_pair(pairs.drop_first(), pos);
        match find_open(pairs.drop_first(), pos) {
            Some(o) => {
                let k = choose|k: int|
                    0 <= k < pairs.drop_first().len() && #[trigger] pairs.drop_first()[k] == (
                    o,
                    pos,
                );
                assert(pairs[k + 1] == (o, pos));
            }
            None => {
                assert forall|k: int| 0 <= k < pairs.len() implies (#[trigger] pairs[k]).1 != pos by {
                    if k > 0 {
                        assert(pairs.drop_first()[k - 1] == pairs[k]);
                    }
                }
            }
        }
    }
}

/// In a properly nested table no two entries share an endpoint, and no
/// open of one entry is the close of another.
pub proof fn lemma_pairs_endpoints_distinct(pairs: Seq<(int, int)>, j: int, k: int)
    requires
        pairs_nested(pairs),
        forall|m: int| 0 <= m < pairs.len() ==> (#[trigger] pairs[m]).0 < pairs[m].1,
        0 <= j < pairs.len(),
        0 <= k < pairs.len(),
        j != k,
    ensures
        pairs[j].0 != pairs[k].0,
        pairs[j].1 != pairs[k].1,
        pairs[j].0 != pairs[k].1,
{
    assert(separate_or_nested(pairs[j], pairs[k]));
}

/// Jump symmetry: for every recorded pair `(o, c)`, the jump taken at `o`
/// resolves to `c` and the jump taken at `c` resolves to `o`.
pub proof fn lemma_jump_symmetry(st: LoadState, k: int)
    requires
        loader_inv(st),
        0 <= k < st.pairs.len(),
    ensures
        find_close(st.pairs, st.pairs[k].0) == Some(st.pairs[k].1),
        find_open(st.pairs, st.pairs[k].1) == Some(st.pairs[k].0),
{
    assert forall|m: int| 0 <= m < st.pairs.len() implies (#[trigger] st.pairs[m]).0
        < st.pairs[m].1 by {
        assert(pair_ok(st.code, st.pairs[m]));
    }
    lemma_find_close_unique(st.pairs, k);
    lemma_find_open_unique(st.pairs, k);
}

/// Jump symmetry at the engine level: dispatching at the open of a
/// recorded pair with the current cell at 0 moves the pointer to just
/// past the pair's close, and dispatching at its close with the cell
/// non-zero moves the pointer to just past the pair's open.
pub proof fn lemma_step_jump_symmetry(v: BfView, k: int)
    requires
        v.inv(),
        v.code_i < v.code.len(),
        0 <= k < v.pairs.len(),
    ensures
        v.code_i == v.pairs[k].0 && v.tape[v.tape_i] == 0 ==> step(v) == Ok::<
            (BfView, Option<u8>),
            InterpreterError,
        >(((BfView { code_i: v.pairs[k].1 + 1, ..v }), None)),
        v.code_i == v.pairs[k].1 && v.tape[v.tape_i] != 0 ==> step(v) == Ok::<
            (BfView, Option<u8>),
            InterpreterError,
        >(((BfView { code_i: v.pairs[k].0 + 1, ..v }), None)),
{
    lemma_jump_symmetry(v.loader(), k);
    assert(pair_ok(v.code, v.pairs[k]));
}

proof fn lemma_find_close_unique(pairs: Seq<(int, int)>, k: int)
    requires
        0 <= k < pairs.len(),
        forall|j: int| 0 <= j < pairs.len() && j != k ==> (#[trigger] pairs[j]).0 != pairs[k].0,
    ensures
        find_close(pairs, pairs[k].0) == Some(pairs[k].1),
    decreases pairs.len(),
{
    if k == 0 {
    } else {
        assert(pairs[0].0 != pairs[k].0);
        let rest = pairs.drop_first();
        assert(rest[k - 1] == pairs[k]);
        assert forall|j: int| 0 <= j < rest.len() && j != k - 1 implies (#[trigger] rest[j]).0
            != rest[k - 1].0 by {
            assert(rest[j] == pairs[j + 1]);
        }
        lemma_find_close_unique(rest, k - 1);
    }
}

proof fn lemma_find_open_unique(pairs: Seq<(int, int)>, k: int)
    requires
        0 <= k < pairs.len(),
        forall|j: int| 0 <= j < pairs.len() && j != k ==> (#[trigger] pairs[j]).1 != pairs[k].1,
    ensures
        find_open(pairs, pairs[k].1) == Some(pairs[k].0),
    decreases pairs.len(),
{
    if k == 0 {
    } else {
        assert(pairs[0].1 != pairs[k].1);
        let rest = pairs.drop_first();
        assert(rest[k - 1] == pairs[k]);
        assert forall|j: int| 0 <= j < rest.len() && j != k - 1 implies (#[trigger] rest[j]).1
            != rest[k - 1].1 by {
            assert(rest[j] == pairs[j + 1]);
        }
        lemma_find_open_unique(rest, k - 1);
    }
}

/// The balance invariant for a fully resolved program (no unresolved
/// opens left): every recorded pair runs from an earlier `[` to a later
/// `]`; entries never partially overlap; every `[` of the buffer opens
/// exactly one recorded pair and every `]` closes exactly one.
pub proof fn lemma_balance(st: LoadState)
    requires
        loader_inv(st),
        st.opens.len() == 0,
    ensures
        forall|k: int|
            0 <= k < st.pairs.len() ==> pair_ok(st.code, #[trigger] st.pairs[k]),
        pairs_nested(st.pairs),
        forall|p: int|
            0 <= p < st.code.len() && #[trigger] st.code[p] == OPEN_BYTE ==> pairs_has_open(
                st.pairs,
                p,
            ),
        forall|p: int|
            0 <= p < st.code.len() && #[trigger] st.code[p] == CLOSE_BYTE ==> pairs_has_close(
                st.pairs,
                p,
            ),
        forall|j: int, k: int|
            0 <= j < st.pairs.len() && 0 <= k < st.pairs.len() && j != k ==> (
            #[trigger] st.pairs[j]).0 != (#[trigger] st.pairs[k]).0 && st.pairs[j].1
                != st.pairs[k].1 && st.pairs[j].0 != st.pairs[k].1,
{
    assert forall|p: int|
        0 <= p < st.code.len() && #[trigger] st.code[p] == OPEN_BYTE implies pairs_has_open(
        st.pairs,
        p,
    ) by {
        assert(!st.opens.contains(p));
    }
    assert forall|m: int| 0 <= m < st.pairs.len() implies (#[trigger] st.pairs[m]).0
        < st.pairs[m].1 by {
        assert(pair_ok(st.code, st.pairs[m]));
    }
    assert forall|j: int, k: int|
        0 <= j < st.pairs.len() && 0 <= k < st.pairs.len() && j != k implies (
    #[trigger] st.pairs[j]).0 != (#[trigger] st.pairs[k]).0 && st.pairs[j].1 != st.pairs[k].1
        && st.pairs[j].0 != st.pairs[k].1 by {
        lemma_pairs_endpoints_distinct(st.pairs, j, k);
    }
}

} // verus!
