//! The mathematical model of the incremental loader.
//!
//! The loader consumes raw input bytes one at a time.  Whitespace is
//! discarded; every other byte is appended to the instruction buffer.  A
//! `[` pushes its buffer position onto a stack of unresolved opens; a `]`
//! pops the most recent unresolved open and records the matched pair.  A
//! `]` that arrives while the stack is empty is a fatal condition,
//! modelled here as `None`.

use vstd::prelude::*;

verus! {

/// The loop-open delimiter, `[`.
pub const OPEN_BYTE: u8 = 91;

/// The loop-close delimiter, `]`.
pub const CLOSE_BYTE: u8 = 93;

/// ASCII whitespace: space, tab, line feed, vertical tab, form feed,
/// carriage return.  Such bytes are discarded before any byte reaches the
/// instruction buffer.
pub open spec fn is_ws(b: u8) -> bool {
    b == 32 || b == 9 || b == 10 || b == 11 || b == 12 || b == 13
}

/// The loader-owned state: the instruction buffer, the table of matched
/// delimiter pairs, and the stack of still-unresolved open positions.
#[verifier::ext_equal]
pub ghost struct LoadState {
    pub code: Seq<u8>,
    pub pairs: Seq<(int, int)>,
    pub opens: Seq<int>,
}

/// One byte of input reaches the loader.  `None` is the fatal
/// "close without matching open" condition.
pub open spec fn load_byte(st: LoadState, b: u8) -> Option<LoadState> {
    if is_ws(b) {
        Some(st)
    } else if b == OPEN_BYTE {
        Some(LoadState {
            code: st.code.push(b),
            pairs: st.pairs,
            opens: st.opens.push(st.code.len() as int),
        })
    } else if b == CLOSE_BYTE {
        if st.opens.len() == 0 {
            None
        } else {
            Some(LoadState {
                code: st.code.push(b),
                pairs: st.pairs.push((st.opens.last(), st.code.len() as int)),
                opens: st.opens.drop_last(),
            })
        }
    } else {
        Some(LoadState { code: st.code.push(b), pairs: st.pairs, opens: st.opens })
    }
}

/// A whole sequence of input bytes reaches the loader, left to right.
pub open spec fn load(st: LoadState, input: Seq<u8>) -> Option<LoadState>
    decreases input.len(),
{
    if input.len() == 0 {
        Some(st)
    } else {
        match load_byte(st, input[0]) {
            None => None,
            Some(mid) => load(mid, input.drop_first()),
        }
    }
}

/// One matched pair: an open strictly before its close, both inside the
/// buffer, each holding the delimiter byte it claims to hold.
pub open spec fn pair_ok(code: Seq<u8>, p: (int, int)) -> bool {
    &&& 0 <= p.0 < p.1 < code.len()
    &&& code[p.0] == OPEN_BYTE
    &&& code[p.1] == CLOSE_BYTE
}

/// Two distinct pairs never partially overlap: one lies entirely before
/// the other, or strictly inside it.
pub open spec fn separate_or_nested(p: (int, int), q: (int, int)) -> bool {
    ||| p.1 < q.0
    ||| q.1 < p.0
    ||| q.0 < p.0 && p.1 < q.1
    ||| p.0 < q.0 && q.1 < p.1
}

/// Every two distinct entries of the pair table are separate or nested.
pub open spec fn pairs_nested(pairs: Seq<(int, int)>) -> bool {
    forall|j: int, k: int|
        0 <= j < pairs.len() && 0 <= k < pairs.len() && j != k ==> separate_or_nested(
            #[trigger] pairs[j],
            #[trigger] pairs[k],
        )
}

/// Some entry of the pair table has `p` as its open position.
pub open spec fn pairs_has_open(pairs: Seq<(int, int)>, p: int) -> bool {
    exists|k: int| 0 <= k < pairs.len() && (#[trigger] pairs[k]).0 == p
}

/// Some entry of the pair table has `p` as its close position.
pub open spec fn pairs_has_close(pairs: Seq<(int, int)>, p: int) -> bool {
    exists|k: int| 0 <= k < pairs.len() && (#[trigger] pairs[k]).1 == p
}

/// The loader invariant.
///
/// Every recorded pair is well formed and the table is properly nested;
/// the unresolved opens are strictly increasing positions of `[` bytes,
/// and none of them lies inside (or at an endpoint of) a recorded pair;
/// every delimiter byte of the buffer is accounted for: each `[` either
/// owns a recorded pair or sits on the unresolved stack, and each `]`
/// closes a recorded pair.
pub open spec fn loader_inv(st: LoadState) -> bool {
    &&& forall|k: int| 0 <= k < st.pairs.len() ==> pair_ok(st.code, #[trigger] st.pairs[k])
    &&& pairs_nested(st.pairs)
    &&& forall|i: int|
        0 <= i < st.opens.len() ==> 0 <= #[trigger] st.opens[i] < st.code.len()
            && st.code[st.opens[i]] == OPEN_BYTE
    &&& forall|i: int, j: int|
        0 <= i < j < st.opens.len() ==> #[trigger] st.opens[i] < #[trigger] st.opens[j]
    &&& forall|i: int, k: int|
        0 <= i < st.opens.len() && 0 <= k < st.pairs.len() ==> (#[trigger] st.opens[i]
            < (#[trigger] st.pairs[k]).0 || st.pairs[k].1 < st.opens[i])
    &&& forall|p: int|
        0 <= p < st.code.len() && #[trigger] st.code[p] == OPEN_BYTE ==> pairs_has_open(
            st.pairs,
            p,
        ) || st.opens.contains(p)
    &&& forall|p: int|
        0 <= p < st.code.len() && #[trigger] st.code[p] == CLOSE_BYTE ==> pairs_has_close(
            st.pairs,
            p,
        )
}

/// Loading one byte preserves the loader invariant.
pub proof fn lemma_load_byte_inv(st: LoadState, b: u8)
    requires
        loader_inv(st),
        load_byte(st, b) is Some,
    ensures
        loader_inv(load_byte(st, b)->Some_0),
{
    let st2 = load_byte(st, b)->Some_0;
    if is_ws(b) {
    } else if b == OPEN_BYTE {
        let p = st.code.len() as int;
        assert forall|q: int|
            0 <= q < st2.code.len() && #[trigger] st2.code[q] == OPEN_BYTE implies pairs_has_open(
            st2.pairs,
            q,
        ) || st2.opens.contains(q) by {
            if q < st.code.len() {
                assert(st2.code[q] == st.code[q]);
                if st.opens.contains(q) {
                    let i = choose|i: int| 0 <= i < st.opens.len() && st.opens[i] == q;
                    assert(st2.opens[i] == q);
                }
            } else {
                assert(st2.opens.last() == p);
            }
        }
        assert forall|q: int|
            0 <= q < st2.code.len() && #[trigger] st2.code[q] == CLOSE_BYTE implies pairs_has_close(
            st2.pairs,
            q,
        ) by {
            assert(q < st.code.len());
            assert(st2.code[q] == st.code[q]);
        }
    } else if b == CLOSE_BYTE {
        let o = st.opens.last();
        let c = st.code.len() as int;
        let n = st.pairs.len() as int;
        assert(st.opens.len() > 0);
        assert(0 <= o < c && st.code[o] == OPEN_BYTE);
        assert(st2.pairs[n] == (o, c));
        // every recorded pair of the new table is well formed
        assert forall|k: int| 0 <= k < st2.pairs.len() implies pair_ok(
            st2.code,
            #[trigger] st2.pairs[k],
        ) by {
            if k < n {
                assert(st2.pairs[k] == st.pairs[k]);
                assert(pair_ok(st.code, st.pairs[k]));
                assert(st2.code[st.pairs[k].0] == st.code[st.pairs[k].0]);
                assert(st2.code[st.pairs[k].1] == st.code[st.pairs[k].1]);
            } else {
                assert(st2.code[c] == b);
            }
        }
        // the new table is still properly nested
        assert forall|j: int, k: int|
            0 <= j < st2.pairs.len() && 0 <= k < st2.pairs.len() && j != k implies separate_or_nested(
            #[trigger] st2.pairs[j],
            #[trigger] st2.pairs[k],
        ) by {
            if j < n && k < n {
                assert(st2.pairs[j] == st.pairs[j]);
                assert(st2.pairs[k] == st.pairs[k]);
            } else if j == n && k < n {
                assert(st2.pairs[k] == st.pairs[k]);
                assert(st.opens[st.opens.len() - 1] == o);
                assert(o < st.pairs[k].0 || st.pairs[k].1 < o);
                assert(pair_ok(st.code, st.pairs[k]));
            } else if k == n && j < n {
                assert(st2.pairs[j] == st.pairs[j]);
                assert(st.opens[st.opens.len() - 1] == o);
                assert(o < st.pairs[j].0 || st.pairs[j].1 < o);
                assert(pair_ok(st.code, st.pairs[j]));
            }
        }
        // remaining opens stay clear of every pair, the new one included
        assert forall|i: int, k: int|
            0 <= i < st2.opens.len() && 0 <= k < st2.pairs.len() implies (#[trigger] st2.opens[i]
            < (#[trigger] st2.pairs[k]).0 || st2.pairs[k].1 < st2.opens[i]) by {
            assert(st2.opens[i] == st.opens[i]);
            if k < n {
                assert(st2.pairs[k] == st.pairs[k]);
            } else {
                assert(st.opens[i] < st.opens[st.opens.len() - 1]);
            }
        }
        // every delimiter of the buffer is still accounted for
        assert forall|q: int|
            0 <= q < st2.code.len() && #[trigger] st2.code[q] == OPEN_BYTE implies pairs_has_open(
            st2.pairs,
            q,
        ) || st2.opens.contains(q) by {
            if q < st.code.len() {
                assert(st2.code[q] == st.code[q]);
                if pairs_has_open(st.pairs, q) {
                    let k = choose|k: int| 0 <= k < st.pairs.len() && (st.pairs[k]).0 == q;
                    assert((st2.pairs[k]).0 == q);
                } else {
                    assert(st.opens.contains(q));
                    let i = choose|i: int| 0 <= i < st.opens.len() && st.opens[i] == q;
                    if i == st.opens.len() - 1 {
                        assert(q == o);
                        assert((st2.pairs[n]).0 == q);
                    } else {
                        assert(st2.opens[i] == q);
                    }
                }
            }
        }
        assert forall|q: int|
            0 <= q < st2.code.len() && #[trigger] st2.code[q] == CLOSE_BYTE implies pairs_has_close(
            st2.pairs,
            q,
        ) by {
            if q < st.code.len() {
                assert(st2.code[q] == st.code[q]);
                let k = choose|k: int| 0 <= k < st.pairs.len() && (st.pairs[k]).1 == q;
                assert((st2.pairs[k]).1 == q);
            } else {
                assert((st2.pairs[n]).1 == q);
            }
        }
    } else {
        assert forall|q: int|
            0 <= q < st2.code.len() && #[trigger] st2.code[q] == OPEN_BYTE implies pairs_has_open(
            st2.pairs,
            q,
        ) || st2.opens.contains(q) by {
            assert(q < st.code.len());
            assert(st2.code[q] == st.code[q]);
        }
        assert forall|q: int|
            0 <= q < st2.code.len() && #[trigger] st2.code[q] == CLOSE_BYTE implies pairs_has_close(
            st2.pairs,
            q,
        ) by {
            assert(q < st.code.len());
            assert(st2.code[q] == st.code[q]);
        }
    }
}

/// Streaming correctness: loading `a` and then `b` is loading `a + b`.
/// In particular a loop whose `[` arrives in one chunk and whose `]`
/// arrives in a later chunk resolves exactly as it would had the whole
/// program arrived at once.
pub proof fn lemma_load_concat(st: LoadState, a: Seq<u8>, b: Seq<u8>)
    ensures
        load(st, a + b) == (match load(st, a) {
            None => None::<LoadState>,
            Some(mid) => load(mid, b),
        }),
    decreases a.len(),
{
    if a.len() == 0 {
        assert(a + b =~= b);
    } else {
        assert((a + b)[0] == a[0]);
        assert((a + b).len() > 0);
        match load_byte(st, a[0]) {
            None => {}
            Some(mid) => {
                assert((a + b).drop_first() =~= a.drop_first() + b);
                lemma_load_concat(mid, a.drop_first(), b);
            }
        }
    }
}

/// Loading one more byte after a sequence.
pub proof fn lemma_load_snoc(st: LoadState, s: Seq<u8>, b: u8)
    ensures
        load(st, s.push(b)) == (match load(st, s) {
            None => None::<LoadState>,
            Some(mid) => load_byte(mid, b),
        }),
{
    assert(s.push(b) =~= s + seq![b]);
    lemma_load_concat(st, s, seq![b]);
    match load(st, s) {
        None => {}
        Some(mid) => {
            assert(seq![b].len() == 1);
            assert(seq![b][0] == b);
            match load_byte(mid, b) {
                None => {
                    assert(load(mid, seq![b]) == None::<LoadState>);
                }
                Some(st2) => {
                    assert(seq![b].drop_first() =~= Seq::<u8>::empty());
                    assert(load(st2, Seq::<u8>::empty()) == Some(st2));
                    assert(load(st2, seq![b].drop_first()) == Some(st2));
                    assert(load(mid, seq![b]) == Some(st2));
                }
            }
        }
    }
}

/// The instruction buffer is append-only and the pair table grows
/// monotonically: whatever the loader accepts extends both.
pub proof fn lemma_load_extends(st: LoadState, s: Seq<u8>)
    requires
        load(st, s) is Some,
    ensures
        st.code.is_prefix_of(load(st, s)->Some_0.code),
        st.pairs.len() <= load(st, s)->Some_0.pairs.len(),
    decreases s.len(),
{
    if s.len() == 0 {
        assert(st.code.is_prefix_of(st.code));
    } else {
        let mid = load_byte(st, s[0])->Some_0;
        lemma_load_extends(mid, s.drop_first());
        assert(st.code.is_prefix_of(mid.code));
        let fin = load(st, s)->Some_0;
        assert(mid.code.is_prefix_of(fin.code));
        assert(st.code.is_prefix_of(fin.code));
    }
}

} // verus!
