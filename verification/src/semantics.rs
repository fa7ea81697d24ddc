//! The mathematical semantics of the pattern language: ghost mirrors
//! of expressions and patterns, and a specification-level interpreter
//! that says, for every pattern, byte buffer and parse state, exactly
//! which value or error comes out and where the cursor and scope end
//! up. The executable evaluator is proved to compute this function.

use vstd::prelude::*;

use crate::context::CtxView;
use crate::data::DataView;
use crate::fbits::widen32;
use crate::num::i64_twos_nat;
use crate::num::sval;
use crate::num::uval;
use crate::parser::ParseError;
use crate::text::utf8_chars;

verus! {

/// The shape of an expression: a literal, a scope reference, or an
/// n-ary addition.
#[verifier::ext_equal]
pub enum ExprView {
    Lit(DataView),
    Var(i64),
    Add(Seq<ExprView>),
}

/// The shape of a value transform attached to a pattern.
#[verifier::ext_equal]
pub enum MapOpView {
    /// Discard the parsed value and yield this one.
    Const(DataView),
    /// Add this value to the parsed one.
    AddVal(DataView),
    /// Yield pairs of (name, scope value) for the listed keys.
    ToPairs(Seq<(i64, Seq<char>)>),
}

/// The shape of a pattern. Primitive integer and float readers are
/// collapsed into families: endianness and width.
#[verifier::ext_equal]
pub enum PatView {
    /// An exact byte sequence.
    Exact(Seq<u8>),
    /// An unsigned integer: little-endian?, width in bytes.
    UInt(bool, nat),
    /// A two's-complement signed integer: little-endian?, width in bytes.
    SInt(bool, nat),
    /// An IEEE-754 float: little-endian?, width in bytes (4 or 8).
    Flt(bool, nat),
    /// Null-terminated UTF-8 text.
    CStr,
    /// A repetition of the inner pattern, counted by the expression.
    Array(Box<PatView>, ExprView),
    /// The first alternative that succeeds, all tried from one spot.
    AnyOf(Seq<PatView>),
    /// Every child in order; the results collected in a sequence.
    AllOf(Seq<PatView>),
    /// The child's result, also bound to the key in the current frame.
    Store(Box<PatView>, i64),
    /// The child's result, transformed.
    Mapped(Box<PatView>, MapOpView),
}

/// A signed 64-bit value with everything above 64 bits wrapped away.
pub open spec fn i64_wrap(x: int) -> i64 {
    let m = x % 0x1_0000_0000_0000_0000;
    if m >= 0x8000_0000_0000_0000 {
        (m - 0x1_0000_0000_0000_0000) as i64
    } else {
        m as i64
    }
}

/// Values already in signed 64-bit range wrap to themselves.
pub proof fn lemma_i64_wrap_in_range(v: int)
    requires
        -0x8000_0000_0000_0000 <= v < 0x8000_0000_0000_0000,
    ensures
        i64_wrap(v) == v,
{
    let m: int = 0x1_0000_0000_0000_0000;
    if v >= 0 {
        vstd::arithmetic::div_mod::lemma_small_mod(v as nat, m as nat);
    } else {
        vstd::arithmetic::div_mod::lemma_mod_multiples_vanish(1, v, m);
        assert(m * 1 + v == v + m);
        vstd::arithmetic::div_mod::lemma_small_mod((v + m) as nat, m as nat);
        assert(v % m == v + m);
    }
}

/// Wrapping ignores whole multiples of 2^64.
pub proof fn lemma_i64_wrap_shift(v: int)
    ensures
        i64_wrap(v + 0x1_0000_0000_0000_0000) == i64_wrap(v),
        i64_wrap(v - 0x1_0000_0000_0000_0000) == i64_wrap(v),
{
    let m: int = 0x1_0000_0000_0000_0000;
    vstd::arithmetic::div_mod::lemma_mod_multiples_vanish(1, v, m);
    assert(m * 1 + v == v + m);
    vstd::arithmetic::div_mod::lemma_mod_multiples_vanish(-1, v, m);
    assert(m * -1 + v == v - m);
}

/// A 64-bit unsigned value wraps to its two's-complement reading.
pub proof fn lemma_i64_wrap_u64(u: u64)
    ensures
        i64_wrap(u as int) as int == i64_twos_nat(u as nat),
{
    if u >= 0x8000_0000_0000_0000 {
        lemma_i64_wrap_shift(u - 0x1_0000_0000_0000_0000);
        lemma_i64_wrap_in_range(u - 0x1_0000_0000_0000_0000);
    } else {
        lemma_i64_wrap_in_range(u as int);
    }
}

/// The wrapping addition of two machine integers is the wrapped
/// mathematical sum.
pub proof fn lemma_wrapping_add_i64(a: i64, b: i64)
    ensures
        a.wrapping_add(b) == i64_wrap(a as int + b as int),
{
    let m: int = 0x1_0000_0000_0000_0000;
    let v = a as int + b as int;
    if v > i64::MAX as int {
        lemma_i64_wrap_shift(v - m);
        lemma_i64_wrap_in_range(v - m);
    } else if v < i64::MIN as int {
        lemma_i64_wrap_shift(v);
        lemma_i64_wrap_in_range(v + m);
    } else {
        lemma_i64_wrap_in_range(v);
    }
}

/// What an expression names over a frame: a literal is itself, a
/// reference is looked up, an addition sums integer parts with
/// 64-bit wrapping; a non-integer part is a type error and a missing
/// key an unbound error.
pub open spec fn eval_expr(e: ExprView, frame: Map<i64, DataView>) -> Result<DataView, ParseError>
    decreases e, 0nat,
{
    match e {
        ExprView::Lit(d) => Ok(d),
        ExprView::Var(k) => if frame.contains_key(k) {
            Ok(frame[k])
        } else {
            Err(ParseError::Unbound)
        },
        ExprView::Add(parts) => match eval_add(parts, frame) {
            Ok(total) => Ok(DataView::Int(i64_wrap(total))),
            Err(e) => Err(e),
        },
    }
}

/// The mathematical sum of the integer values the parts name,
/// left to right; the first failure wins.
pub open spec fn eval_add(parts: Seq<ExprView>, frame: Map<i64, DataView>) -> Result<
    int,
    ParseError,
>
    decreases parts, 1nat,
{
    if parts.len() == 0 {
        Ok(0)
    } else {
        match eval_expr(parts[0], frame) {
            Err(e) => Err(e),
            Ok(DataView::Int(i)) => match eval_add(parts.subrange(1, parts.len() as int), frame) {
                Err(e) => Err(e),
                Ok(rest) => Ok(i + rest),
            },
            Ok(_) => Err(ParseError::TypeError),
        }
    }
}

/// The index of the first zero byte at or after `i`, if any.
pub open spec fn first_zero(bytes: Seq<u8>, i: int) -> Option<int>
    decreases bytes.len() - i,
{
    if i < 0 || i >= bytes.len() {
        None
    } else if bytes[i] == 0 {
        Some(i)
    } else {
        first_zero(bytes, i + 1)
    }
}

/// What a transform yields from the parsed value, over the current
/// frame.
pub open spec fn apply_op(op: MapOpView, frame: Map<i64, DataView>, v: DataView) -> Result<
    DataView,
    ParseError,
>
    decreases op,
{
    match op {
        MapOpView::Const(d) => Ok(d),
        MapOpView::AddVal(rhs) => match (v, rhs) {
            (DataView::Int(a), DataView::Int(b)) => Ok(DataView::Int(i64_wrap(a + b))),
            (DataView::Str(a), DataView::Str(b)) => Ok(DataView::Str(a + b)),
            _ => Err(ParseError::TypeError),
        },
        MapOpView::ToPairs(pairs) => match pairs_of(pairs, frame) {
            Ok(vs) => Ok(DataView::List(vs)),
            Err(e) => Err(e),
        },
    }
}

/// The (name, value) pairs for the listed keys, each value read from
/// the frame; a missing key is an unbound error.
pub open spec fn pairs_of(pairs: Seq<(i64, Seq<char>)>, frame: Map<i64, DataView>) -> Result<
    Seq<DataView>,
    ParseError,
>
    decreases pairs.len(),
{
    if pairs.len() == 0 {
        Ok(Seq::empty())
    } else if !frame.contains_key(pairs[0].0) {
        Err(ParseError::Unbound)
    } else {
        match pairs_of(pairs.subrange(1, pairs.len() as int), frame) {
            Err(e) => Err(e),
            Ok(rest) => Ok(
                seq![
                    DataView::List(seq![DataView::Str(pairs[0].1), frame[pairs[0].0]]),
                ] + rest,
            ),
        }
    }
}

/// The current (topmost) frame of a state.
pub open spec fn top_frame(st: CtxView) -> Map<i64, DataView> {
    st.frames.last()
}

/// A state with the cursor moved to `pos`.
pub open spec fn at_pos(st: CtxView, pos: int) -> CtxView {
    CtxView { pos, frames: st.frames }
}

/// A state with the current frame replaced.
pub open spec fn with_top(st: CtxView, frame: Map<i64, DataView>) -> CtxView {
    CtxView { pos: st.pos, frames: st.frames.update(st.frames.len() - 1, frame) }
}

/// What one pattern yields on `bytes` from state `st`, and the state
/// it leaves. On an error the cursor is wherever the failing read
/// left it — the enclosing alternation restores it — and scope
/// writes made before the failure remain.
pub open spec fn eval_pat(p: PatView, bytes: Seq<u8>, st: CtxView) -> (Result<
    DataView,
    ParseError,
>, CtxView)
    decreases p, 0nat, 0nat,
{
    match p {
        PatView::Exact(bs) => if st.pos + bs.len() > bytes.len() {
            (Err(ParseError::EndOfInput), st)
        } else if bytes.subrange(st.pos, st.pos + bs.len()) == bs {
            (Ok(DataView::Bytes(bs)), at_pos(st, st.pos + bs.len()))
        } else {
            (Err(ParseError::Mismatch), st)
        },
        PatView::UInt(le, n) => if st.pos + n > bytes.len() {
            (Err(ParseError::EndOfInput), st)
        } else {
            (
                Ok(DataView::Int(i64_wrap(uval(le, bytes.subrange(st.pos, st.pos + n)) as int))),
                at_pos(st, st.pos + n),
            )
        },
        PatView::SInt(le, n) => if st.pos + n > bytes.len() {
            (Err(ParseError::EndOfInput), st)
        } else {
            (
                Ok(DataView::Int(i64_wrap(sval(le, bytes.subrange(st.pos, st.pos + n))))),
                at_pos(st, st.pos + n),
            )
        },
        PatView::Flt(le, n) => if st.pos + n > bytes.len() {
            (Err(ParseError::EndOfInput), st)
        } else {
            let bits = uval(le, bytes.subrange(st.pos, st.pos + n));
            let wide = if n == 4 {
                widen32(bits as u32)
            } else {
                bits as u64
            };
            (Ok(DataView::Float(wide)), at_pos(st, st.pos + n))
        },
        PatView::CStr => match first_zero(bytes, st.pos) {
            None => (Err(ParseError::EndOfInput), at_pos(st, bytes.len() as int)),
            Some(z) => match utf8_chars(bytes.subrange(st.pos, z)) {
                Some(cs) => (Ok(DataView::Str(cs)), at_pos(st, z + 1)),
                None => (Err(ParseError::Encoding), at_pos(st, z + 1)),
            },
        },
        PatView::Array(inner, count) => match eval_expr(count, top_frame(st)) {
            Err(e) => (Err(e), st),
            Ok(DataView::Int(i)) => if i < 0 {
                (Err(ParseError::TypeError), st)
            } else {
                let (r, st1) = eval_rep(*inner, i as nat, bytes, st);
                match r {
                    Ok(vs) => (Ok(DataView::List(vs)), st1),
                    Err(e) => (Err(e), st1),
                }
            },
            Ok(_) => (Err(ParseError::TypeError), st),
        },
        PatView::AnyOf(cs) => if cs.len() == 0 {
            (Err(ParseError::Empty), st)
        } else {
            eval_alts(cs, bytes, st.pos, st.frames)
        },
        PatView::AllOf(cs) => {
            let (r, st1) = eval_all(cs, bytes, st);
            match r {
                Ok(vs) => (Ok(DataView::List(vs)), st1),
                Err(e) => (Err(e), st1),
            }
        },
        PatView::Store(inner, k) => {
            let (r, st1) = eval_pat(*inner, bytes, st);
            match r {
                Ok(v) => (Ok(v), with_top(st1, top_frame(st1).insert(k, v))),
                Err(e) => (Err(e), st1),
            }
        },
        PatView::Mapped(inner, op) => {
            let (r, st1) = eval_pat(*inner, bytes, st);
            match r {
                Ok(v) => (apply_op(op, top_frame(st1), v), st1),
                Err(e) => (Err(e), st1),
            }
        },
    }
}

/// The children of a sequence combinator, each from where the last
/// one stopped; the first failure wins.
pub open spec fn eval_all(ps: Seq<PatView>, bytes: Seq<u8>, st: CtxView) -> (Result<
    Seq<DataView>,
    ParseError,
>, CtxView)
    decreases ps, 0nat, 1nat,
{
    if ps.len() == 0 {
        (Ok(Seq::empty()), st)
    } else {
        let (r0, st0) = eval_pat(ps[0], bytes, st);
        match r0 {
            Err(e) => (Err(e), st0),
            Ok(v) => {
                let (rr, st1) = eval_all(ps.subrange(1, ps.len() as int), bytes, st0);
                match rr {
                    Err(e) => (Err(e), st1),
                    Ok(vs) => (Ok(seq![v] + vs), st1),
                }
            },
        }
    }
}

/// The alternatives of an alternation, each tried from the saved
/// position `pos0`; the cursor rewinds between tries, the scope does
/// not; the first success wins, and when all fail the last failure
/// is returned with the cursor back at `pos0`.
pub open spec fn eval_alts(
    ps: Seq<PatView>,
    bytes: Seq<u8>,
    pos0: int,
    frames: Seq<Map<i64, DataView>>,
) -> (Result<DataView, ParseError>, CtxView)
    decreases ps, 0nat, 1nat,
{
    if ps.len() == 0 {
        (Err(ParseError::Empty), CtxView { pos: pos0, frames })
    } else {
        let (r0, st0) = eval_pat(ps[0], bytes, CtxView { pos: pos0, frames });
        match r0 {
            Ok(v) => (Ok(v), st0),
            Err(e) => if ps.len() == 1 {
                (Err(e), CtxView { pos: pos0, frames: st0.frames })
            } else {
                eval_alts(ps.subrange(1, ps.len() as int), bytes, pos0, st0.frames)
            },
        }
    }
}

/// `n` runs of one pattern, back to back; the first failure wins.
pub open spec fn eval_rep(p: PatView, n: nat, bytes: Seq<u8>, st: CtxView) -> (Result<
    Seq<DataView>,
    ParseError,
>, CtxView)
    decreases p, n, 2nat,
{
    if n == 0 {
        (Ok(Seq::empty()), st)
    } else {
        let (r0, st0) = eval_pat(p, bytes, st);
        match r0 {
            Err(e) => (Err(e), st0),
            Ok(v) => {
                let (rr, st1) = eval_rep(p, (n - 1) as nat, bytes, st0);
                match rr {
                    Err(e) => (Err(e), st1),
                    Ok(vs) => (Ok(seq![v] + vs), st1),
                }
            },
        }
    }
}

/// The initial state of a parse: position zero, one empty frame.
pub open spec fn init_state() -> CtxView {
    CtxView { pos: 0, frames: seq![Map::empty()] }
}

/// What a whole parse of `bytes` against `p` returns.
pub open spec fn spec_parse(p: PatView, bytes: Seq<u8>) -> Result<DataView, ParseError> {
    eval_pat(p, bytes, init_state()).0
}

} // verus!
