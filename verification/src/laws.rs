//! The laws of the pattern language, stated over the specification
//! interpreter and proved once and for all: cursor non-regression and
//! decomposition of sequences, the rewind and short-circuit discipline
//! of alternation, scope visibility of stored values, round trips of
//! every integer and float width through the renderer, the agreement
//! of counted arrays with repeated sequences, and the agreement of
//! magics with exact byte checks.

use vstd::prelude::*;

use crate::context::CtxView;
use crate::data::DataView;
use crate::fbits::widen32;
use crate::num::enc;
use crate::num::lemma_enc_len;
use crate::num::lemma_enc_roundtrip;
use crate::num::lemma_pow256_values;
use crate::num::lemma_pow256_mono;
use crate::num::pow256;
use crate::num::tc;
use crate::num::uval;
use crate::parser::ParseError;
use crate::prelude::magic_view;
use crate::render::rend_spec;
use crate::render::Renderable;
use crate::semantics::eval_all;
use crate::semantics::eval_alts;
use crate::semantics::eval_expr;
use crate::semantics::eval_pat;
use crate::semantics::eval_rep;
use crate::semantics::first_zero;
use crate::semantics::i64_wrap;
use crate::semantics::init_state;
use crate::semantics::lemma_i64_wrap_in_range;
use crate::semantics::spec_parse;
use crate::semantics::top_frame;
use crate::semantics::with_top;
use crate::semantics::ExprView;
use crate::semantics::PatView;

verus! {

/// The first zero at or after a position is at or after it.
proof fn lemma_first_zero_at_least(bytes: Seq<u8>, i: int)
    ensures
        first_zero(bytes, i) matches Some(z) ==> i <= z < bytes.len(),
    decreases bytes.len() - i,
{
    if 0 <= i < bytes.len() && bytes[i] != 0 {
        lemma_first_zero_at_least(bytes, i + 1);
    }
}

/// The cursor never regresses: whatever a pattern does, the state it
/// leaves is at or after where it started, within the buffer if it
/// started within it, and with the same number of scope frames.
pub proof fn lemma_pos_monotonic(p: PatView, bytes: Seq<u8>, st: CtxView)
    requires
        st.frames.len() >= 1,
    ensures
        st.pos <= bytes.len() ==> st.pos <= eval_pat(p, bytes, st).1.pos <= bytes.len(),
        eval_pat(p, bytes, st).1.frames.len() == st.frames.len(),
    decreases p, 0nat, 0nat,
{
    reveal_with_fuel(eval_pat, 2);
    match p {
        PatView::CStr => {
            lemma_first_zero_at_least(bytes, st.pos);
            assert(eval_pat(p, bytes, st).1.frames == st.frames);
        },
        PatView::Array(inner, count) => {
            match eval_expr(count, top_frame(st)) {
                Ok(DataView::Int(i)) => {
                    if i >= 0 {
                        lemma_rep_monotonic(*inner, i as nat, bytes, st);
                    }
                },
                _ => {},
            }
        },
        PatView::AnyOf(cs) => {
            if cs.len() > 0 {
                lemma_alts_monotonic(cs, bytes, st.pos, st.frames);
            }
        },
        PatView::AllOf(cs) => {
            lemma_all_monotonic(cs, bytes, st);
        },
        PatView::Store(inner, k) => {
            lemma_pos_monotonic(*inner, bytes, st);
        },
        PatView::Mapped(inner, op) => {
            lemma_pos_monotonic(*inner, bytes, st);
        },
        _ => {},
    }
}

proof fn lemma_all_monotonic(ps: Seq<PatView>, bytes: Seq<u8>, st: CtxView)
    requires
        st.frames.len() >= 1,
    ensures
        st.pos <= bytes.len() ==> st.pos <= eval_all(ps, bytes, st).1.pos <= bytes.len(),
        eval_all(ps, bytes, st).1.frames.len() == st.frames.len(),
    decreases ps, 0nat, 1nat,
{
    if ps.len() > 0 {
        lemma_pos_monotonic(ps[0], bytes, st);
        let (r0, st0) = eval_pat(ps[0], bytes, st);
        if r0 is Ok {
            lemma_all_monotonic(ps.subrange(1, ps.len() as int), bytes, st0);
        }
    }
}

proof fn lemma_alts_monotonic(
    ps: Seq<PatView>,
    bytes: Seq<u8>,
    pos0: int,
    frames: Seq<Map<i64, DataView>>,
)
    requires
        frames.len() >= 1,
    ensures
        pos0 <= bytes.len() ==> pos0 <= eval_alts(ps, bytes, pos0, frames).1.pos <= bytes.len(),
        eval_alts(ps, bytes, pos0, frames).1.frames.len() == frames.len(),
    decreases ps, 0nat, 1nat,
{
    if ps.len() > 0 {
        let start = CtxView { pos: pos0, frames };
        lemma_pos_monotonic(ps[0], bytes, start);
        let (r0, st0) = eval_pat(ps[0], bytes, start);
        if r0 is Err && ps.len() > 1 {
            lemma_alts_monotonic(ps.subrange(1, ps.len() as int), bytes, pos0, st0.frames);
        }
    }
}

proof fn lemma_rep_monotonic(p: PatView, n: nat, bytes: Seq<u8>, st: CtxView)
    requires
        st.frames.len() >= 1,
    ensures
        st.pos <= bytes.len() ==> st.pos <= eval_rep(p, n, bytes, st).1.pos <= bytes.len(),
        eval_rep(p, n, bytes, st).1.frames.len() == st.frames.len(),
    decreases p, n, 2nat,
{
    if n > 0 {
        lemma_pos_monotonic(p, bytes, st);
        let (r0, st0) = eval_pat(p, bytes, st);
        if r0 is Ok {
            lemma_rep_monotonic(p, (n - 1) as nat, bytes, st0);
        }
    }
}

/// Cursor non-regression within a sequence: when `AllOf([p1, p2])`
/// succeeds, `p1` alone succeeds from the same state, and `p2`
/// succeeds from exactly the state — cursor position and scope —
/// that `p1` left; the sequence's value collects both results.
#[verifier::rlimit(60)]
pub proof fn lemma_all_of_decomposes(p1: PatView, p2: PatView, bytes: Seq<u8>, st: CtxView)
    requires
        st.frames.len() >= 1,
        0 <= st.pos <= bytes.len(),
        eval_pat(PatView::AllOf(seq![p1, p2]), bytes, st).0 is Ok,
    ensures
        eval_pat(p1, bytes, st).0 is Ok,
        eval_pat(p1, bytes, st).1.pos >= st.pos,
        eval_pat(p2, bytes, eval_pat(p1, bytes, st).1).0 is Ok,
        eval_pat(PatView::AllOf(seq![p1, p2]), bytes, st).1 == eval_pat(
            p2,
            bytes,
            eval_pat(p1, bytes, st).1,
        ).1,
        eval_pat(PatView::AllOf(seq![p1, p2]), bytes, st).0 == Ok::<DataView, ParseError>(
            DataView::List(
                seq![
                    eval_pat(p1, bytes, st).0->Ok_0,
                    eval_pat(p2, bytes, eval_pat(p1, bytes, st).1).0->Ok_0,
                ],
            ),
        ),
{
    reveal_with_fuel(eval_pat, 3);
    reveal_with_fuel(eval_all, 3);
    let cs = seq![p1, p2];
    assert(cs[0] == p1 && cs.len() == 2);
    assert(cs.subrange(1, 2) =~= seq![p2]);
    assert(seq![p2].subrange(1, 1) =~= Seq::<PatView>::empty());
    lemma_pos_monotonic(p1, bytes, st);
    let (r1, st1) = eval_pat(p1, bytes, st);
    if r1 is Ok {
        let (r2, st2) = eval_pat(p2, bytes, st1);
        assert(eval_all(seq![p2], bytes, st1) == (match r2 {
            Ok(v) => (Ok::<Seq<DataView>, ParseError>(seq![v] + Seq::<DataView>::empty()), st2),
            Err(e) => (Err::<Seq<DataView>, ParseError>(e), st2),
        }));
        if r2 is Ok {
            assert(eval_all(cs, bytes, st) == (Ok::<Seq<DataView>, ParseError>(
                seq![r1->Ok_0] + (seq![r2->Ok_0] + Seq::<DataView>::empty()),
            ), st2));
            assert(seq![r1->Ok_0] + (seq![r2->Ok_0] + Seq::<DataView>::empty()) =~= seq![
                r1->Ok_0,
                r2->Ok_0,
            ]);
            assert(eval_pat(PatView::AllOf(cs), bytes, st).1 == st2);
        }
    }
}


/// A zero in a suffix sits where it sat in the whole buffer.
proof fn lemma_first_zero_shift(bytes: Seq<u8>, k: int, i: int)
    requires
        0 <= k <= i,
        k <= bytes.len(),
    ensures
        ({
            let cut = bytes.subrange(k, bytes.len() as int);
            match first_zero(bytes, i) {
                None => first_zero(cut, i - k) is None,
                Some(z) => first_zero(cut, i - k) == Some(z - k),
            }
        }),
    decreases bytes.len() - i,
{
    let cut = bytes.subrange(k, bytes.len() as int);
    if i < bytes.len() {
        assert(cut[i - k] == bytes[i]);
        if bytes[i] != 0 {
            lemma_first_zero_shift(bytes, k, i + 1);
        }
    }
}

/// Evaluation reads the buffer only at and after the cursor: parsing
/// from position `pos` over the whole buffer is parsing from position
/// `pos - k` over the buffer with its first `k` bytes cut off, for
/// any `k` at or before the cursor — same result, same scope, and a
/// cursor shifted by exactly `k`.
pub proof fn lemma_eval_shift(p: PatView, bytes: Seq<u8>, st: CtxView, k: int)
    requires
        st.frames.len() >= 1,
        0 <= k <= st.pos <= bytes.len(),
    ensures
        ({
            let (r, st1) = eval_pat(p, bytes, st);
            let (r2, st2) = eval_pat(
                p,
                bytes.subrange(k, bytes.len() as int),
                CtxView { pos: st.pos - k, frames: st.frames },
            );
            r2 == r && st2.pos == st1.pos - k && st2.frames == st1.frames
        }),
    decreases p, 0nat, 0nat,
{
    let cut = bytes.subrange(k, bytes.len() as int);
    let stk = CtxView { pos: st.pos - k, frames: st.frames };
    match p {
        PatView::Exact(bs) => {
            if st.pos + bs.len() <= bytes.len() {
                assert(bytes.subrange(st.pos, st.pos + bs.len()) =~= cut.subrange(
                    stk.pos,
                    stk.pos + bs.len(),
                ));
            }
        },
        PatView::UInt(le, n) => {
            if st.pos + n <= bytes.len() {
                assert(bytes.subrange(st.pos, st.pos + n) =~= cut.subrange(
                    stk.pos,
                    stk.pos + n,
                ));
            }
        },
        PatView::SInt(le, n) => {
            if st.pos + n <= bytes.len() {
                assert(bytes.subrange(st.pos, st.pos + n) =~= cut.subrange(
                    stk.pos,
                    stk.pos + n,
                ));
            }
        },
        PatView::Flt(le, n) => {
            if st.pos + n <= bytes.len() {
                assert(bytes.subrange(st.pos, st.pos + n) =~= cut.subrange(
                    stk.pos,
                    stk.pos + n,
                ));
            }
        },
        PatView::CStr => {
            lemma_first_zero_shift(bytes, k, st.pos);
            lemma_first_zero_at_least(bytes, st.pos);
            match first_zero(bytes, st.pos) {
                None => {},
                Some(z) => {
                    assert(bytes.subrange(st.pos, z) =~= cut.subrange(stk.pos, z - k));
                },
            }
        },
        PatView::Array(inner, count) => {
            match eval_expr(count, top_frame(st)) {
                Ok(DataView::Int(i)) => {
                    if i >= 0 {
                        lemma_rep_shift(*inner, i as nat, bytes, st, k);
                    }
                },
                _ => {},
            }
        },
        PatView::AnyOf(cs) => {
            if cs.len() > 0 {
                lemma_alts_shift(cs, bytes, st.pos, st.frames, k);
            }
        },
        PatView::AllOf(cs) => {
            lemma_all_shift(cs, bytes, st, k);
        },
        PatView::Store(inner, _) => {
            lemma_eval_shift(*inner, bytes, st, k);
        },
        PatView::Mapped(inner, _) => {
            lemma_eval_shift(*inner, bytes, st, k);
        },
    }
}

proof fn lemma_all_shift(ps: Seq<PatView>, bytes: Seq<u8>, st: CtxView, k: int)
    requires
        st.frames.len() >= 1,
        0 <= k <= st.pos <= bytes.len(),
    ensures
        ({
            let (r, st1) = eval_all(ps, bytes, st);
            let (r2, st2) = eval_all(
                ps,
                bytes.subrange(k, bytes.len() as int),
                CtxView { pos: st.pos - k, frames: st.frames },
            );
            r2 == r && st2.pos == st1.pos - k && st2.frames == st1.frames
        }),
    decreases ps, 0nat, 1nat,
{
    if ps.len() > 0 {
        lemma_eval_shift(ps[0], bytes, st, k);
        lemma_pos_monotonic(ps[0], bytes, st);
        let (r0, st0) = eval_pat(ps[0], bytes, st);
        if r0 is Ok {
            lemma_all_shift(ps.subrange(1, ps.len() as int), bytes, st0, k);
        }
    }
}

proof fn lemma_alts_shift(
    ps: Seq<PatView>,
    bytes: Seq<u8>,
    pos0: int,
    frames: Seq<Map<i64, DataView>>,
    k: int,
)
    requires
        frames.len() >= 1,
        0 <= k <= pos0 <= bytes.len(),
    ensures
        ({
            let (r, st1) = eval_alts(ps, bytes, pos0, frames);
            let (r2, st2) = eval_alts(
                ps,
                bytes.subrange(k, bytes.len() as int),
                pos0 - k,
                frames,
            );
            r2 == r && st2.pos == st1.pos - k && st2.frames == st1.frames
        }),
    decreases ps, 0nat, 1nat,
{
    if ps.len() > 0 {
        let start = CtxView { pos: pos0, frames };
        lemma_eval_shift(ps[0], bytes, start, k);
        lemma_pos_monotonic(ps[0], bytes, start);
        let (r0, st0) = eval_pat(ps[0], bytes, start);
        if r0 is Err && ps.len() > 1 {
            lemma_alts_shift(ps.subrange(1, ps.len() as int), bytes, pos0, st0.frames, k);
        }
    }
}

proof fn lemma_rep_shift(p: PatView, n: nat, bytes: Seq<u8>, st: CtxView, k: int)
    requires
        st.frames.len() >= 1,
        0 <= k <= st.pos <= bytes.len(),
    ensures
        ({
            let (r, st1) = eval_rep(p, n, bytes, st);
            let (r2, st2) = eval_rep(
                p,
                n,
                bytes.subrange(k, bytes.len() as int),
                CtxView { pos: st.pos - k, frames: st.frames },
            );
            r2 == r && st2.pos == st1.pos - k && st2.frames == st1.frames
        }),
    decreases p, n, 2nat,
{
    if n > 0 {
        lemma_eval_shift(p, bytes, st, k);
        lemma_pos_monotonic(p, bytes, st);
        let (r0, st0) = eval_pat(p, bytes, st);
        if r0 is Ok {
            lemma_rep_shift(p, (n - 1) as nat, bytes, st0, k);
        }
    }
}

/// Cursor non-regression within a sequence, stated over buffer
/// suffixes: when `AllOf([p1, p2])` succeeds on a whole parse of `B`,
/// `p1` alone succeeds on `B` leaving the cursor at some `k` at or
/// after the start, and `p2` — given `p1`'s scope — succeeds on
/// `B[k..]` from a fresh cursor.
pub proof fn lemma_all_of_suffix(p1: PatView, p2: PatView, bytes: Seq<u8>)
    requires
        spec_parse(PatView::AllOf(seq![p1, p2]), bytes) is Ok,
    ensures
        ({
            let (r1, st1) = eval_pat(p1, bytes, init_state());
            &&& r1 is Ok
            &&& 0 <= st1.pos <= bytes.len()
            &&& eval_pat(
                p2,
                bytes.subrange(st1.pos, bytes.len() as int),
                CtxView { pos: 0, frames: st1.frames },
            ).0 is Ok
        }),
{
    lemma_all_of_decomposes(p1, p2, bytes, init_state());
    lemma_pos_monotonic(p1, bytes, init_state());
    let (r1, st1) = eval_pat(p1, bytes, init_state());
    lemma_eval_shift(p2, bytes, st1, st1.pos);
}

/// Alternation rewind: when an alternative fails, the next one is
/// tried from the same saved cursor position — the cursor the next
/// alternative sees equals the cursor the failing one saw — while the
/// failing branch's scope writes remain in place.
pub proof fn lemma_any_of_rewind(
    ps: Seq<PatView>,
    bytes: Seq<u8>,
    pos0: int,
    frames: Seq<Map<i64, DataView>>,
)
    requires
        ps.len() >= 2,
        eval_pat(ps[0], bytes, CtxView { pos: pos0, frames }).0 is Err,
    ensures
        eval_alts(ps, bytes, pos0, frames) == eval_alts(
            ps.subrange(1, ps.len() as int),
            bytes,
            pos0,
            eval_pat(ps[0], bytes, CtxView { pos: pos0, frames }).1.frames,
        ),
{
}

/// A non-empty alternation is its alternatives tried from the saved
/// cursor position and the scope as they stand.
pub proof fn lemma_any_of_is_alts(cs: Seq<PatView>, bytes: Seq<u8>, st: CtxView)
    requires
        cs.len() >= 1,
    ensures
        eval_pat(PatView::AnyOf(cs), bytes, st) == eval_alts(cs, bytes, st.pos, st.frames),
{
}

/// The first alternative's success decides the alternation at once:
/// its value and end state are the alternation's, whatever follows.
pub proof fn lemma_any_of_first_success(
    ps: Seq<PatView>,
    bytes: Seq<u8>,
    pos0: int,
    frames: Seq<Map<i64, DataView>>,
)
    requires
        ps.len() >= 1,
        eval_pat(ps[0], bytes, CtxView { pos: pos0, frames }).0 is Ok,
    ensures
        eval_alts(ps, bytes, pos0, frames) == eval_pat(
            ps[0],
            bytes,
            CtxView { pos: pos0, frames },
        ),
{
}

/// Alternation short-circuit: if the alternation restricted to the
/// first `i + 1` alternatives succeeds, the whole alternation returns
/// exactly that success — the alternatives after the first success
/// play no part in the result.
pub proof fn lemma_any_of_short_circuit(
    ps: Seq<PatView>,
    bytes: Seq<u8>,
    pos0: int,
    frames: Seq<Map<i64, DataView>>,
    i: int,
)
    requires
        0 <= i < ps.len(),
        eval_alts(ps.subrange(0, i + 1), bytes, pos0, frames).0 is Ok,
    ensures
        eval_alts(ps, bytes, pos0, frames) == eval_alts(
            ps.subrange(0, i + 1),
            bytes,
            pos0,
            frames,
        ),
    decreases i,
{
    let head = ps.subrange(0, i + 1);
    let start = CtxView { pos: pos0, frames };
    let (r0, st0) = eval_pat(ps[0], bytes, start);
    assert(head[0] == ps[0]);
    if r0 is Ok {
    } else {
        assert(i >= 1) by {
            if i == 0 {
                assert(head.len() == 1);
            }
        }
        let rest = ps.subrange(1, ps.len() as int);
        assert(head.subrange(1, head.len() as int) =~= rest.subrange(0, i));
        lemma_any_of_short_circuit(rest, bytes, pos0, st0.frames, i - 1);
    }
}

/// Store visibility: after `Store(p, k)` succeeds, the current frame
/// maps `k` to the value `p` produced, and inside `AllOf([Store(p, k),
/// q])` the sibling `q` — and so its descendants — is evaluated in
/// exactly that state, where `var(k)` reads the stored value.
#[verifier::rlimit(60)]
pub proof fn lemma_store_visibility(
    p: PatView,
    k: i64,
    q: PatView,
    bytes: Seq<u8>,
    st: CtxView,
)
    requires
        st.frames.len() >= 1,
        eval_pat(p, bytes, st).0 is Ok,
    ensures
        ({
            let (rp, stp) = eval_pat(p, bytes, st);
            let v = rp->Ok_0;
            let stq = with_top(stp, top_frame(stp).insert(k, v));
            &&& eval_pat(PatView::Store(Box::new(p), k), bytes, st) == (Ok::<
                DataView,
                ParseError,
            >(v), stq)
            &&& top_frame(stq) == top_frame(stp).insert(k, v)
            &&& eval_expr(ExprView::Var(k), top_frame(stq)) == Ok::<DataView, ParseError>(v)
            &&& eval_pat(
                PatView::AllOf(seq![PatView::Store(Box::new(p), k), q]),
                bytes,
                st,
            ) == (match eval_pat(q, bytes, stq) {
                (Ok(w), stf) => (Ok::<DataView, ParseError>(DataView::List(seq![v, w])), stf),
                (Err(e), stf) => (Err::<DataView, ParseError>(e), stf),
            })
        }),
{
    let (rp, stp) = eval_pat(p, bytes, st);
    lemma_pos_monotonic(p, bytes, st);
    let v = rp->Ok_0;
    let stq = with_top(stp, top_frame(stp).insert(k, v));
    assert(top_frame(stq) == top_frame(stp).insert(k, v)) by {
        assert(stq.frames.last() == stq.frames[stq.frames.len() - 1]);
    }
    reveal_with_fuel(eval_pat, 3);
    reveal_with_fuel(eval_all, 3);
    let sp = PatView::Store(Box::new(p), k);
    let cs = seq![sp, q];
    assert(cs[0] == sp && cs.len() == 2);
    assert(cs.subrange(1, 2) =~= seq![q]);
    assert(seq![q].subrange(1, 1) =~= Seq::<PatView>::empty());
    assert(eval_pat(sp, bytes, st) == (Ok::<DataView, ParseError>(v), stq));
    assert(top_frame(stq).contains_key(k) && top_frame(stq)[k] == v);
    let (rq, stf) = eval_pat(q, bytes, stq);
    assert(eval_all(seq![q], bytes, stq) == (match rq {
        Ok(w) => (Ok::<Seq<DataView>, ParseError>(seq![w] + Seq::<DataView>::empty()), stf),
        Err(e) => (Err::<Seq<DataView>, ParseError>(e), stf),
    }));
    if rq is Ok {
        assert(eval_all(cs, bytes, st) == (Ok::<Seq<DataView>, ParseError>(
            seq![v] + (seq![rq->Ok_0] + Seq::<DataView>::empty()),
        ), stf));
        assert(seq![v] + (seq![rq->Ok_0] + Seq::<DataView>::empty()) =~= seq![v, rq->Ok_0]);
        assert(eval_pat(PatView::AllOf(cs), bytes, st) == (Ok::<DataView, ParseError>(
            DataView::List(seq![v, rq->Ok_0]),
        ), stf));
    } else {
        assert(eval_all(cs, bytes, st) == (Err::<Seq<DataView>, ParseError>(rq->Err_0), stf));
    }
}

/// Sequencing: a sequence combinator evaluates its first child from
/// the current state and, when it succeeds, the remaining children
/// from exactly the state it left — so every later sibling, and each
/// of its descendants, observes the cursor and the scope writes of
/// all the siblings before it.
pub proof fn lemma_all_of_threads(cs: Seq<PatView>, bytes: Seq<u8>, st: CtxView)
    requires
        cs.len() >= 1,
        eval_pat(cs[0], bytes, st).0 is Ok,
    ensures
        eval_all(cs, bytes, st) == (match eval_all(
            cs.subrange(1, cs.len() as int),
            bytes,
            eval_pat(cs[0], bytes, st).1,
        ) {
            (Ok(vs), stf) => (Ok::<Seq<DataView>, ParseError>(
                seq![eval_pat(cs[0], bytes, st).0->Ok_0] + vs,
            ), stf),
            (Err(e), stf) => (Err::<Seq<DataView>, ParseError>(e), stf),
        }),
{
}

/// Unsigned integer round trip: parsing the `n` bytes of `x` in
/// either byte order yields `Int(x)` (wrapped to a signed 64-bit
/// integer, which changes nothing below the top bit of width 8).
pub proof fn lemma_uint_roundtrip(le: bool, n: nat, x: nat)
    requires
        1 <= n <= 8,
        x < pow256(n),
    ensures
        spec_parse(PatView::UInt(le, n), enc(le, x, n)) == Ok::<DataView, ParseError>(
            DataView::Int(i64_wrap(x as int)),
        ),
        x < pow256(8) / 2 ==> i64_wrap(x as int) == x,
{
    let bytes = enc(le, x, n);
    lemma_enc_len(le, x, n);
    assert(bytes.subrange(0, n as int) =~= bytes);
    lemma_enc_roundtrip(le, x, n);
    lemma_pow256_values();
    if x < pow256(8) / 2 {
        lemma_i64_wrap_in_range(x as int);
    }
}

/// Signed integer round trip: parsing the `n` two's-complement bytes
/// of `v` in either byte order yields `Int(v)`, for every `v` in the
/// width's signed range.
pub proof fn lemma_sint_roundtrip(le: bool, n: nat, v: int)
    requires
        1 <= n <= 8,
        -(pow256(n) as int) / 2 <= v < pow256(n) / 2,
    ensures
        spec_parse(PatView::SInt(le, n), enc(le, tc(v, n), n)) == Ok::<DataView, ParseError>(
            DataView::Int(i64_wrap(v)),
        ),
        i64_wrap(v) == v,
{
    let x = tc(v, n);
    let bytes = enc(le, x, n);
    lemma_enc_len(le, x, n);
    assert(bytes.subrange(0, n as int) =~= bytes);
    lemma_pow256_values();
    lemma_pow256_mono(n, 8);
    lemma_enc_roundtrip(le, x, n);
    assert(uval(le, bytes) == x);
    lemma_i64_wrap_in_range(v);
}

/// Integer round trip through the renderer, every width and byte
/// order at once: parsing what the renderer wrote for an integer leaf
/// yields exactly that integer back (a 64-bit unsigned leaf with the
/// top bit set comes back wrapped to a negative, as the value model
/// fixes).
pub proof fn lemma_render_roundtrip(r: Renderable)
    ensures
        match r {
            Renderable::U8(x) => spec_parse(PatView::UInt(true, 1), rend_spec(r)) == Ok::<
                DataView,
                ParseError,
            >(DataView::Int(x as i64)),
            Renderable::U16(e, x) => spec_parse(PatView::UInt(e is Little, 2), rend_spec(r))
                == Ok::<DataView, ParseError>(DataView::Int(x as i64)),
            Renderable::U32(e, x) => spec_parse(PatView::UInt(e is Little, 4), rend_spec(r))
                == Ok::<DataView, ParseError>(DataView::Int(x as i64)),
            Renderable::U64(e, x) => spec_parse(PatView::UInt(e is Little, 8), rend_spec(r))
                == Ok::<DataView, ParseError>(DataView::Int(i64_wrap(x as int))),
            Renderable::I8(x) => spec_parse(PatView::SInt(true, 1), rend_spec(r)) == Ok::<
                DataView,
                ParseError,
            >(DataView::Int(x as i64)),
            Renderable::I16(e, x) => spec_parse(PatView::SInt(e is Little, 2), rend_spec(r))
                == Ok::<DataView, ParseError>(DataView::Int(x as i64)),
            Renderable::I32(e, x) => spec_parse(PatView::SInt(e is Little, 4), rend_spec(r))
                == Ok::<DataView, ParseError>(DataView::Int(x as i64)),
            Renderable::I64(e, x) => spec_parse(PatView::SInt(e is Little, 8), rend_spec(r))
                == Ok::<DataView, ParseError>(DataView::Int(x)),
            Renderable::List(_) => true,
        },
{
    lemma_pow256_values();
    match r {
        Renderable::U8(x) => {
            lemma_uint_roundtrip(true, 1, x as nat);
            lemma_i64_wrap_in_range(x as int);
        },
        Renderable::U16(e, x) => {
            lemma_uint_roundtrip(e is Little, 2, x as nat);
            lemma_i64_wrap_in_range(x as int);
        },
        Renderable::U32(e, x) => {
            lemma_uint_roundtrip(e is Little, 4, x as nat);
            lemma_i64_wrap_in_range(x as int);
        },
        Renderable::U64(e, x) => {
            lemma_uint_roundtrip(e is Little, 8, x as nat);
        },
        Renderable::I8(x) => {
            lemma_sint_roundtrip(true, 1, x as int);
        },
        Renderable::I16(e, x) => {
            lemma_sint_roundtrip(e is Little, 2, x as int);
        },
        Renderable::I32(e, x) => {
            lemma_sint_roundtrip(e is Little, 4, x as int);
        },
        Renderable::I64(e, x) => {
            lemma_sint_roundtrip(e is Little, 8, x as int);
        },
        Renderable::List(_) => {},
    }
}

/// Float round trip, 64 bits: parsing the 8 bytes of a binary64 bit
/// pattern in either byte order yields exactly that pattern — no bit
/// pattern, NaN payloads included, is disturbed.
pub proof fn lemma_f64_roundtrip(le: bool, bits: u64)
    ensures
        spec_parse(PatView::Flt(le, 8), enc(le, bits as nat, 8)) == Ok::<DataView, ParseError>(
            DataView::Float(bits),
        ),
{
    lemma_pow256_values();
    let bytes = enc(le, bits as nat, 8);
    lemma_enc_len(le, bits as nat, 8);
    assert(bytes.subrange(0, 8) =~= bytes);
    lemma_enc_roundtrip(le, bits as nat, 8);
}

/// Float round trip, 32 bits: parsing the 4 bytes of a binary32 bit
/// pattern in either byte order yields its exact binary64 widening.
pub proof fn lemma_f32_roundtrip(le: bool, bits: u32)
    ensures
        spec_parse(PatView::Flt(le, 4), enc(le, bits as nat, 4)) == Ok::<DataView, ParseError>(
            DataView::Float(widen32(bits)),
        ),
{
    lemma_pow256_values();
    let bytes = enc(le, bits as nat, 4);
    lemma_enc_len(le, bits as nat, 4);
    assert(bytes.subrange(0, 4) =~= bytes);
    lemma_enc_roundtrip(le, bits as nat, 4);
}

/// The 32-bit float read loses nothing: two bit patterns that parse
/// to the same value are the same pattern — the widening to 64 bits
/// is injective, NaN payloads included.
pub proof fn lemma_f32_lossless(le: bool, b1: u32, b2: u32)
    requires
        spec_parse(PatView::Flt(le, 4), enc(le, b1 as nat, 4)) == spec_parse(
            PatView::Flt(le, 4),
            enc(le, b2 as nat, 4),
        ),
    ensures
        b1 == b2,
{
    lemma_f32_roundtrip(le, b1);
    lemma_f32_roundtrip(le, b2);
    crate::fbits::lemma_widen32_injective(b1, b2);
}

/// Array length semantics: a counted array with a literal count `n`
/// behaves exactly like a sequence of `n` copies of the inner
/// pattern — same success, same `Seq` of `n` values, same final
/// state.
pub proof fn lemma_array_all_of(p: PatView, n: nat, bytes: Seq<u8>, st: CtxView)
    requires
        n < 0x8000_0000_0000_0000,
    ensures
        eval_pat(
            PatView::Array(Box::new(p), ExprView::Lit(DataView::Int(n as i64))),
            bytes,
            st,
        ) == eval_pat(PatView::AllOf(Seq::new(n, |i: int| p)), bytes, st),
{
    lemma_rep_is_all(p, n, bytes, st);
}

/// Repeating a pattern `n` times is evaluating a sequence of `n`
/// copies of it.
proof fn lemma_rep_is_all(p: PatView, n: nat, bytes: Seq<u8>, st: CtxView)
    ensures
        eval_rep(p, n, bytes, st) == eval_all(Seq::new(n, |i: int| p), bytes, st),
    decreases n,
{
    let cs = Seq::new(n, |i: int| p);
    if n == 0 {
        assert(cs.len() == 0);
    } else {
        let (r0, st0) = eval_pat(p, bytes, st);
        assert(cs[0] == p);
        if r0 is Ok {
            lemma_rep_is_all(p, (n - 1) as nat, bytes, st0);
            assert(cs.subrange(1, n as int) =~= Seq::new((n - 1) as nat, |i: int| p));
        }
    }
}

/// Exact/magic equivalence: a magic succeeds on a buffer exactly when
/// the corresponding exact byte check does, fails with the same error
/// and leaves the same state, and on success yields the magic's value
/// as `Int`.
pub proof fn lemma_magic_exact(le: bool, n: nat, x: nat, bytes: Seq<u8>, st: CtxView)
    requires
        st.frames.len() >= 1,
    ensures
        ({
            let m = eval_pat(magic_view(le, n, x), bytes, st);
            let e = eval_pat(PatView::Exact(enc(le, x, n)), bytes, st);
            &&& (m.0 is Ok <==> e.0 is Ok)
            &&& m.1 == e.1
            &&& (m.0 is Ok ==> m.0 == Ok::<DataView, ParseError>(
                DataView::Int(i64_wrap(x as int)),
            ))
            &&& (m.0 is Err ==> m.0 == e.0)
        }),
{
}

} // verus!
