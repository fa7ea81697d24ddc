//! Patterns — the recursive AST of the parser language — and the
//! evaluator that walks a pattern against a cursor and scope. The
//! evaluator's contract says it computes exactly the function
//! `semantics::eval_pat`.

use vstd::prelude::*;

use crate::context::Context;
use crate::context::CtxView;
use crate::context::Scope;
use crate::data::data_view;
use crate::data::lemma_views_of;
use crate::data::views_of;
use crate::data::Data;
use crate::data::DataView;
use crate::expr::expr_view;
use crate::expr::Expr;
use crate::fbits::widen_bits32;
use crate::num::lemma_pow256_values;
use crate::num::lemma_uval_bound;
use crate::num::sint;
use crate::num::sval;
use crate::num::uint;
use crate::num::wrap_to_i64;
use crate::semantics::apply_op;
use crate::semantics::eval_all;
use crate::semantics::eval_alts;
use crate::semantics::eval_pat;
use crate::semantics::eval_rep;
use crate::semantics::first_zero;
use crate::semantics::init_state;
use crate::semantics::lemma_i64_wrap_in_range;
use crate::semantics::lemma_i64_wrap_u64;
use crate::semantics::lemma_wrapping_add_i64;
use crate::semantics::pairs_of;
use crate::semantics::spec_parse;
use crate::semantics::top_frame;
use crate::semantics::with_top;
use crate::semantics::MapOpView;
use crate::semantics::PatView;
use crate::text::bytes_to_string;
use vstd::string::StringExecFns;

verus! {

/// Why a parse failed.
#[derive(Debug)]
pub enum ParseError {
    /// A read or peek ran past the end of the buffer.
    EndOfInput,
    /// An exact byte or magic check did not match.
    Mismatch,
    /// A combinator received a value of the wrong shape.
    TypeError,
    /// A null-terminated read held invalid UTF-8.
    Encoding,
    /// An expression referenced a key not present in the scope.
    Unbound,
    /// An alternation over no alternatives was attempted.
    Empty,
    /// An escape hatch for failures outside the fixed kinds.
    Other(String),
}

/// A transform applied to a parsed value by a `Mapped` pattern.
pub enum MapOp {
    /// Discard the parsed value and yield this one.
    Const(Data),
    /// Add this value to the parsed one: integers add with 64-bit
    /// wrapping, strings concatenate; anything else is a type error.
    AddVal(Data),
    /// Discard the parsed value; yield (name, scope value) pairs for
    /// the listed keys.
    ToPairs(Vec<(i64, String)>),
}

pub open spec fn pairs_view(s: Seq<(i64, String)>) -> Seq<(i64, Seq<char>)> {
    Seq::new(s.len(), |i: int| (s[i].0, s[i].1@))
}

pub open spec fn mapop_view(op: MapOp) -> MapOpView {
    match op {
        MapOp::Const(d) => MapOpView::Const(data_view(d)),
        MapOp::AddVal(d) => MapOpView::AddVal(data_view(d)),
        MapOp::ToPairs(ps) => MapOpView::ToPairs(pairs_view(ps@)),
    }
}

impl View for MapOp {
    type V = MapOpView;

    open spec fn view(&self) -> MapOpView {
        mapop_view(*self)
    }
}

/// A declarative description of a byte layout: evaluated against a
/// buffer, it produces a `Data` value or a `ParseError`.
pub enum Pattern {
    /// Expects this exact byte sequence.
    Exact(Vec<u8>),
    U8,
    I8,
    LeU16,
    LeU32,
    LeU64,
    BeU16,
    BeU32,
    BeU64,
    LeI16,
    LeI32,
    LeI64,
    BeI16,
    BeI32,
    BeI64,
    LeF32,
    LeF64,
    BeF32,
    BeF64,
    /// Null-terminated UTF-8 text.
    CStr,
    /// Repeats the inner pattern as often as the expression says.
    Array(Box<Pattern>, Expr),
    /// Tries each child at the same start position; first success wins.
    AnyOf(Vec<Pattern>),
    /// Parses each child in order; yields the sequence of results.
    AllOf(Vec<Pattern>),
    /// Parses the child and binds its result to the key.
    Store(Box<Pattern>, i64),
    /// Parses the child and transforms its result.
    Mapped(Box<Pattern>, MapOp),
}

pub open spec fn pattern_view(p: Pattern) -> PatView
    decreases p, 1nat,
{
    match p {
        Pattern::Exact(bs) => PatView::Exact(bs@),
        Pattern::U8 => PatView::UInt(true, 1),
        Pattern::I8 => PatView::SInt(true, 1),
        Pattern::LeU16 => PatView::UInt(true, 2),
        Pattern::LeU32 => PatView::UInt(true, 4),
        Pattern::LeU64 => PatView::UInt(true, 8),
        Pattern::BeU16 => PatView::UInt(false, 2),
        Pattern::BeU32 => PatView::UInt(false, 4),
        Pattern::BeU64 => PatView::UInt(false, 8),
        Pattern::LeI16 => PatView::SInt(true, 2),
        Pattern::LeI32 => PatView::SInt(true, 4),
        Pattern::LeI64 => PatView::SInt(true, 8),
        Pattern::BeI16 => PatView::SInt(false, 2),
        Pattern::BeI32 => PatView::SInt(false, 4),
        Pattern::BeI64 => PatView::SInt(false, 8),
        Pattern::LeF32 => PatView::Flt(true, 4),
        Pattern::LeF64 => PatView::Flt(true, 8),
        Pattern::BeF32 => PatView::Flt(false, 4),
        Pattern::BeF64 => PatView::Flt(false, 8),
        Pattern::CStr => PatView::CStr,
        Pattern::Array(inner, count) => PatView::Array(
            Box::new(pattern_view(*inner)),
            expr_view(count),
        ),
        Pattern::AnyOf(cs) => PatView::AnyOf(patterns_view(cs@)),
        Pattern::AllOf(cs) => PatView::AllOf(patterns_view(cs@)),
        Pattern::Store(inner, k) => PatView::Store(Box::new(pattern_view(*inner)), k),
        Pattern::Mapped(inner, op) => PatView::Mapped(
            Box::new(pattern_view(*inner)),
            mapop_view(op),
        ),
    }
}

/// The views of a list of patterns, element-wise.
pub open spec fn patterns_view(s: Seq<Pattern>) -> Seq<PatView>
    decreases s, 0nat,
{
    if s.len() == 0 {
        Seq::empty()
    } else {
        seq![pattern_view(s[0])] + patterns_view(s.subrange(1, s.len() as int))
    }
}

impl View for Pattern {
    type V = PatView;

    open spec fn view(&self) -> PatView {
        pattern_view(*self)
    }
}

/// `patterns_view` is the element-wise view.
pub proof fn lemma_patterns_view(s: Seq<Pattern>)
    ensures
        patterns_view(s).len() == s.len(),
        forall|i: int| 0 <= i < s.len() ==> #[trigger] patterns_view(s)[i] == pattern_view(s[i]),
    decreases s.len(),
{
    if s.len() > 0 {
        let rest = s.subrange(1, s.len() as int);
        lemma_patterns_view(rest);
        assert forall|i: int| 0 <= i < s.len() implies patterns_view(s)[i] == pattern_view(
            s[i],
        ) by {
            if i > 0 {
                assert(patterns_view(s)[i] == patterns_view(rest)[i - 1]);
                assert(rest[i - 1] == s[i]);
            }
        }
    }
}

/// Whether two byte strings hold the same bytes.
#[verifier::loop_isolation(false)]
fn bytes_match(a: &Vec<u8>, b: &[u8]) -> (r: bool)
    ensures
        r == (a@ == b@),
{
    if a.len() != b.len() {
        return false;
    }
    let n = a.len();
    let mut j: usize = 0;
    while j < n
        invariant
            j <= n,
            n == a@.len() == b@.len(),
            forall|i: int| 0 <= i < j ==> a@[i] == b@[i],
        decreases n - j,
    {
        if a[j] != *vstd::slice::slice_index_get(b, j) {
            return false;
        }
        j = j + 1;
    }
    proof {
        assert(a@ =~= b@);
    }
    true
}

/// A copy of a byte vector.
#[verifier::loop_isolation(false)]
fn bytes_dup(v: &Vec<u8>) -> (r: Vec<u8>)
    ensures
        r@ == v@,
{
    let n = v.len();
    let mut out: Vec<u8> = Vec::new();
    let mut j: usize = 0;
    while j < n
        invariant
            j <= n,
            n == v@.len(),
            out@ =~= v@.subrange(0, j as int),
        decreases n - j,
    {
        out.push(v[j]);
        proof {
            assert(out@ =~= v@.subrange(0, j + 1));
        }
        j = j + 1;
    }
    proof {
        assert(v@.subrange(0, n as int) =~= v@);
    }
    out
}

/// Applies a transform to a parsed value over the current frame:
/// exactly what `apply_op` names.
#[verifier::loop_isolation(false)]
fn run_op(op: &MapOp, scope: &Scope, v: Data) -> (r: Result<Data, ParseError>)
    ensures
        match (r, apply_op(op@, scope@, v@)) {
            (Ok(d), Ok(dv)) => d@ == dv,
            (Err(e), Err(ev)) => e == ev,
            _ => false,
        },
{
    match op {
        MapOp::Const(d) => Ok(d.dup()),
        MapOp::AddVal(rhs) => match (&v, rhs) {
            (Data::Int(a), Data::Int(b)) => {
                proof {
                    lemma_wrapping_add_i64(*a, *b);
                }
                Ok(Data::Int((*a).wrapping_add(*b)))
            },
            (Data::Str(a), Data::Str(b)) => {
                let mut s = a.clone();
                s.append(b.as_str());
                proof {
                    assert(v@ is Str && rhs@ is Str);
                }
                Ok(Data::Str(s))
            },
            _ => {
                proof {
                    let vv = v@;
                    let rv = rhs@;
                    assert(!(vv is Int && rv is Int) && !(vv is Str && rv is Str));
                }
                Err(ParseError::TypeError)
            },
        },
        MapOp::ToPairs(pairs) => {
            let ghost pv = pairs_view(pairs@);
            let n = pairs.len();
            proof {
                assert(pv.subrange(0, n as int) =~= pv);
                if pairs_of(pv, scope@) is Ok {
                    assert(views_of(Seq::<Data>::empty()) + pairs_of(pv, scope@)->Ok_0
                        =~= pairs_of(pv, scope@)->Ok_0);
                }
            }
            let mut out: Vec<Data> = Vec::new();
            let mut j: usize = 0;
            while j < n
                invariant
                    j <= n,
                    n == pairs@.len(),
                    out@.len() == j,
                    (match pairs_of(pv.subrange(j as int, n as int), scope@) {
                        Ok(rest) => pairs_of(pv, scope@) == Ok::<Seq<DataView>, ParseError>(
                            views_of(out@) + rest,
                        ),
                        Err(e) => pairs_of(pv, scope@) == Err::<Seq<DataView>, ParseError>(e),
                    }),
                decreases n - j,
            {
                proof {
                    assert(pv.subrange(j as int, n as int).subrange(1, (n - j) as int)
                        =~= pv.subrange(j + 1, n as int));
                    lemma_views_of(out@);
                }
                let key = pairs[j].0;
                match scope.get(key) {
                    None => {
                        return Err(ParseError::Unbound);
                    },
                    Some(val) => {
                        let name = Data::Str(pairs[j].1.clone());
                        let vcopy = val.dup();
                        let mut pair: Vec<Data> = Vec::new();
                        pair.push(name);
                        pair.push(vcopy);
                        proof {
                            lemma_views_of(pair@);
                            assert(views_of(pair@) =~= seq![
                                DataView::Str(pairs@[j as int].1@),
                                scope@[key],
                            ]);
                        }
                        let ghost before = out@;
                        let ghost pairelem = data_view(Data::List(pair));
                        out.push(Data::List(pair));
                        proof {
                            lemma_views_of(out@);
                            lemma_views_of(before);
                            assert(views_of(out@) =~= views_of(before).push(pairelem));
                            assert(pairelem == DataView::List(
                                seq![DataView::Str(pairs@[j as int].1@), scope@[key]],
                            ));
                            let tail = pv.subrange(j + 1, n as int);
                            assert(pairs_of(pv.subrange(j as int, n as int), scope@) == (
                            match pairs_of(tail, scope@) {
                                Err(e) => Err::<Seq<DataView>, ParseError>(e),
                                Ok(rest) => Ok::<Seq<DataView>, ParseError>(
                                    seq![pairelem] + rest,
                                ),
                            }));
                            if pairs_of(tail, scope@) is Ok {
                                let rest = pairs_of(tail, scope@)->Ok_0;
                                assert(views_of(before) + (seq![pairelem] + rest) =~= views_of(
                                    out@,
                                ) + rest);
                            }
                        }
                        j = j + 1;
                    },
                }
            }
            proof {
                assert(pv.subrange(n as int, n as int) =~= Seq::<(i64, Seq<char>)>::empty());
                lemma_views_of(out@);
                assert(views_of(out@) + Seq::<DataView>::empty() =~= views_of(out@));
            }
            Ok(Data::List(out))
        },
    }
}

/// Reads an unsigned integer primitive: exactly what
/// `eval_pat(PatView::UInt(le, n), ..)` names.
fn read_uint<'a>(ctx: &mut Context<'a>, le: bool, n: usize) -> (r: Result<Data, ParseError>)
    requires
        old(ctx).wf(),
        1 <= n <= 8,
    ensures
        final(ctx).wf(),
        final(ctx).sbytes() == old(ctx).sbytes(),
        ({
            let (sr, st) = eval_pat(PatView::UInt(le, n as nat), old(ctx).sbytes(), old(ctx)@);
            final(ctx)@ == st && (match (r, sr) {
                (Ok(d), Ok(dv)) => d@ == dv,
                (Err(e), Err(ev)) => e == ev,
                _ => false,
            })
        }),
{
    match ctx.read(n) {
        Err(e) => Err(e),
        Ok(s) => {
            proof {
                assert(s@.len() == n);
            }
            let u = uint(le, s);
            proof {
                lemma_i64_wrap_u64(u);
            }
            Ok(Data::Int(wrap_to_i64(u)))
        },
    }
}

/// Reads a signed integer primitive: exactly what
/// `eval_pat(PatView::SInt(le, n), ..)` names.
fn read_sint<'a>(ctx: &mut Context<'a>, le: bool, n: usize) -> (r: Result<Data, ParseError>)
    requires
        old(ctx).wf(),
        1 <= n <= 8,
    ensures
        final(ctx).wf(),
        final(ctx).sbytes() == old(ctx).sbytes(),
        ({
            let (sr, st) = eval_pat(PatView::SInt(le, n as nat), old(ctx).sbytes(), old(ctx)@);
            final(ctx)@ == st && (match (r, sr) {
                (Ok(d), Ok(dv)) => d@ == dv,
                (Err(e), Err(ev)) => e == ev,
                _ => false,
            })
        }),
{
    match ctx.read(n) {
        Err(e) => Err(e),
        Ok(s) => {
            proof {
                assert(s@.len() == n);
            }
            let v = sint(le, s);
            proof {
                lemma_uval_bound(le, s@);
                lemma_pow256_values();
                crate::num::lemma_pow256_mono(s@.len(), 8);
                lemma_i64_wrap_in_range(sval(le, s@));
            }
            Ok(Data::Int(v))
        },
    }
}

/// Reads a float primitive and yields its binary64 bit pattern:
/// exactly what `eval_pat(PatView::Flt(le, n), ..)` names.
fn read_flt<'a>(ctx: &mut Context<'a>, le: bool, n: usize) -> (r: Result<Data, ParseError>)
    requires
        old(ctx).wf(),
        n == 4 || n == 8,
    ensures
        final(ctx).wf(),
        final(ctx).sbytes() == old(ctx).sbytes(),
        ({
            let (sr, st) = eval_pat(PatView::Flt(le, n as nat), old(ctx).sbytes(), old(ctx)@);
            final(ctx)@ == st && (match (r, sr) {
                (Ok(d), Ok(dv)) => d@ == dv,
                (Err(e), Err(ev)) => e == ev,
                _ => false,
            })
        }),
{
    match ctx.read(n) {
        Err(e) => Err(e),
        Ok(s) => {
            proof {
                assert(s@.len() == n);
            }
            let u = uint(le, s);
            if n == 4 {
                proof {
                    lemma_uval_bound(le, s@);
                    lemma_pow256_values();
                }
                Ok(Data::Float(widen_bits32(#[verifier::truncate] (u as u32))))
            } else {
                Ok(Data::Float(u))
            }
        },
    }
}

impl Pattern {
    /// Parses `bytes` against this pattern from a fresh cursor and
    /// scope: exactly the value or error that `spec_parse` names.
    pub fn parse(&self, bytes: &[u8]) -> (r: Result<Data, ParseError>)
        ensures
            match (r, spec_parse(self@, bytes@)) {
                (Ok(d), Ok(dv)) => d@ == dv,
                (Err(e), Err(ev)) => e == ev,
                _ => false,
            },
    {
        let mut ctx = Context::new(bytes);
        proof {
            assert(ctx@ =~= init_state());
        }
        self.parse_ctx(&mut ctx)
    }

    /// Walks this pattern against the cursor and scope: computes the
    /// value, error and final state that `eval_pat` names.
    #[verifier::loop_isolation(false)]
    pub fn parse_ctx<'a>(&self, ctx: &mut Context<'a>) -> (r: Result<Data, ParseError>)
        requires
            old(ctx).wf(),
        ensures
            final(ctx).wf(),
            final(ctx).sbytes() == old(ctx).sbytes(),
            ({
                let (sr, st) = eval_pat(self@, old(ctx).sbytes(), old(ctx)@);
                final(ctx)@ == st && (match (r, sr) {
                    (Ok(d), Ok(dv)) => d@ == dv,
                    (Err(e), Err(ev)) => e == ev,
                    _ => false,
                })
            }),
        decreases self,
    {
        let ghost bytes = old(ctx).sbytes();
        let ghost st0 = old(ctx)@;
        match self {
            Pattern::Exact(bs) => {
                let n = bs.len();
                match ctx.peek(n) {
                    Err(e) => Err(e),
                    Ok(peeked) => {
                        if bytes_match(bs, peeked) {
                            match ctx.read(n) {
                                Ok(_) => Ok(Data::Bytes(bytes_dup(bs))),
                                Err(e) => {
                                    proof {
                                        assert(false);
                                    }
                                    Err(e)
                                },
                            }
                        } else {
                            Err(ParseError::Mismatch)
                        }
                    },
                }
            },
            Pattern::U8 => read_uint(ctx, true, 1),
            Pattern::I8 => read_sint(ctx, true, 1),
            Pattern::LeU16 => read_uint(ctx, true, 2),
            Pattern::LeU32 => read_uint(ctx, true, 4),
            Pattern::LeU64 => read_uint(ctx, true, 8),
            Pattern::BeU16 => read_uint(ctx, false, 2),
            Pattern::BeU32 => read_uint(ctx, false, 4),
            Pattern::BeU64 => read_uint(ctx, false, 8),
            Pattern::LeI16 => read_sint(ctx, true, 2),
            Pattern::LeI32 => read_sint(ctx, true, 4),
            Pattern::LeI64 => read_sint(ctx, true, 8),
            Pattern::BeI16 => read_sint(ctx, false, 2),
            Pattern::BeI32 => read_sint(ctx, false, 4),
            Pattern::BeI64 => read_sint(ctx, false, 8),
            Pattern::LeF32 => read_flt(ctx, true, 4),
            Pattern::LeF64 => read_flt(ctx, true, 8),
            Pattern::BeF32 => read_flt(ctx, false, 4),
            Pattern::BeF64 => read_flt(ctx, false, 8),
            Pattern::CStr => {
                let ghost pos0 = st0.pos;
                let mut buf: Vec<u8> = Vec::new();
                proof {
                    assert(buf@ =~= bytes.subrange(pos0, pos0));
                }
                loop
                    invariant
                        ctx.wf(),
                        ctx.sbytes() == bytes,
                        ctx@.frames == st0.frames,
                        pos0 <= ctx@.pos <= bytes.len(),
                        buf@ == bytes.subrange(pos0, ctx@.pos),
                        first_zero(bytes, pos0) == first_zero(bytes, ctx@.pos),
                    decreases bytes.len() - ctx@.pos,
                {
                    let ghost cur = ctx@.pos;
                    match ctx.peek(1) {
                        Err(_) => {
                            proof {
                                assert(first_zero(bytes, cur) is None);
                            }
                            return Err(ParseError::EndOfInput);
                        },
                        Ok(s) => {
                            proof {
                                assert(s@.len() == 1);
                            }
                            let b = *vstd::slice::slice_index_get(s, 0);
                            if b == 0 {
                                proof {
                                    assert(bytes[cur] == 0);
                                    assert(first_zero(bytes, cur) == Some(cur));
                                }
                                match ctx.read(1) {
                                    Err(e) => {
                                        proof {
                                            assert(false);
                                        }
                                        return Err(e);
                                    },
                                    Ok(_) => {},
                                }
                                match bytes_to_string(buf) {
                                    Some(text) => {
                                        return Ok(Data::Str(text));
                                    },
                                    None => {
                                        return Err(ParseError::Encoding);
                                    },
                                }
                            } else {
                                proof {
                                    assert(bytes[cur] != 0);
                                    assert(first_zero(bytes, cur) == first_zero(bytes, cur + 1));
                                }
                                match ctx.read(1) {
                                    Err(e) => {
                                        proof {
                                            assert(false);
                                        }
                                        return Err(e);
                                    },
                                    Ok(rd) => {
                                        proof {
                                            assert(rd@.len() == 1);
                                        }
                                        buf.push(*vstd::slice::slice_index_get(rd, 0));
                                        proof {
                                            assert(buf@ =~= bytes.subrange(pos0, cur + 1));
                                        }
                                    },
                                }
                            }
                        },
                    }
                }
            },
            Pattern::Array(inner, count) => {
                let ghost iv = pattern_view(**inner);
                let cv = count.eval(ctx.scope());
                match cv {
                    Err(e) => Err(e),
                    Ok(d) => {
                        match d {
                            Data::Int(m) => {
                                if m < 0 {
                                    Err(ParseError::TypeError)
                                } else {
                                    let total = m;
                                    let ghost starr = st0;
                                    let mut out: Vec<Data> = Vec::new();
                                    let mut j: i64 = 0;
                                    proof {
                                        lemma_views_of(out@);
                                        if eval_rep(iv, total as nat, bytes, starr).0 is Ok {
                                            assert(views_of(out@) + eval_rep(
                                                iv,
                                                total as nat,
                                                bytes,
                                                starr,
                                            ).0->Ok_0 =~= eval_rep(
                                                iv,
                                                total as nat,
                                                bytes,
                                                starr,
                                            ).0->Ok_0);
                                        }
                                    }
                                    while j < total
                                        invariant
                                            0 <= j <= total,
                                            ctx.wf(),
                                            ctx.sbytes() == bytes,
                                            out@.len() == j,
                                            ({
                                                let (rr, stf) = eval_rep(
                                                    iv,
                                                    (total - j) as nat,
                                                    bytes,
                                                    ctx@,
                                                );
                                                let (rr0, stf0) = eval_rep(
                                                    iv,
                                                    total as nat,
                                                    bytes,
                                                    starr,
                                                );
                                                stf0 == stf && (match (rr0, rr) {
                                                    (Ok(vs0), Ok(vs)) => vs0 == views_of(out@)
                                                        + vs,
                                                    (Err(e0), Err(e)) => e0 == e,
                                                    _ => false,
                                                })
                                            }),
                                        decreases total - j,
                                    {
                                        proof {
                                            assert(decreases_to!(*self => self->Array_0));
                                        }
                                        match (&**inner).parse_ctx(ctx) {
                                            Err(e) => {
                                                return Err(e);
                                            },
                                            Ok(d2) => {
                                                let ghost before = out@;
                                                out.push(d2);
                                                proof {
                                                    lemma_views_of(out@);
                                                    lemma_views_of(before);
                                                    assert(views_of(out@) =~= views_of(
                                                        before,
                                                    ).push(data_view(d2)));
                                                    let (rr, stf) = eval_rep(
                                                        iv,
                                                        (total - j - 1) as nat,
                                                        bytes,
                                                        ctx@,
                                                    );
                                                    if rr is Ok {
                                                        assert(views_of(before) + (seq![
                                                            data_view(d2),
                                                        ] + rr->Ok_0) =~= views_of(out@)
                                                            + rr->Ok_0);
                                                    }
                                                }
                                            },
                                        }
                                        j = j + 1;
                                    }
                                    proof {
                                        assert(eval_rep(iv, 0nat, bytes, ctx@) == (Ok::<
                                            Seq<DataView>,
                                            ParseError,
                                        >(Seq::empty()), ctx@));
                                        assert(views_of(out@) + Seq::<DataView>::empty()
                                            =~= views_of(out@));
                                    }
                                    Ok(Data::List(out))
                                }
                            },
                            _ => Err(ParseError::TypeError),
                        }
                    },
                }
            },
            Pattern::AnyOf(cs) => {
                let ghost cvs = patterns_view(cs@);
                proof {
                    lemma_patterns_view(cs@);
                }
                let n = cs.len();
                if n == 0 {
                    return Err(ParseError::Empty);
                }
                let pos0 = ctx.save();
                proof {
                    assert(cvs.subrange(0, n as int) =~= cvs);
                }
                let mut j: usize = 0;
                loop
                    invariant
                        j < n,
                        n == cs@.len(),
                        ctx.wf(),
                        ctx.sbytes() == bytes,
                        ctx@.pos == pos0,
                        pos0 == st0.pos,
                        pos0 <= bytes.len(),
                        eval_alts(cvs.subrange(j as int, n as int), bytes, pos0 as int, ctx@.frames)
                            == eval_alts(cvs, bytes, pos0 as int, st0.frames),
                    decreases n - j,
                {
                    proof {
                        assert(decreases_to!(*self => self->AnyOf_0));
                        assert(self->AnyOf_0 == *cs);
                        assert(decreases_to!(*cs => cs@));
                        assert(decreases_to!(cs@ => cs@[j as int]));
                        assert(cvs.subrange(j as int, n as int)[0] == pattern_view(cs@[j as int]));
                        assert(cvs.subrange(j as int, n as int).subrange(1, (n - j) as int)
                            =~= cvs.subrange(j + 1, n as int));
                        assert(ctx@ =~= CtxView { pos: pos0 as int, frames: ctx@.frames });
                    }
                    match (&cs[j]).parse_ctx(ctx) {
                        Ok(d) => {
                            return Ok(d);
                        },
                        Err(e) => {
                            ctx.restore(pos0);
                            if j == n - 1 {
                                return Err(e);
                            }
                        },
                    }
                    j = j + 1;
                }
            },
            Pattern::AllOf(cs) => {
                let ghost cvs = patterns_view(cs@);
                proof {
                    lemma_patterns_view(cs@);
                    assert(cvs.subrange(0, cs@.len() as int) =~= cvs);
                }
                let n = cs.len();
                let mut out: Vec<Data> = Vec::new();
                let mut j: usize = 0;
                proof {
                    lemma_views_of(out@);
                    if eval_all(cvs, bytes, st0).0 is Ok {
                        assert(views_of(out@) + eval_all(cvs, bytes, st0).0->Ok_0 =~= eval_all(
                            cvs,
                            bytes,
                            st0,
                        ).0->Ok_0);
                    }
                }
                while j < n
                    invariant
                        j <= n,
                        n == cs@.len(),
                        ctx.wf(),
                        ctx.sbytes() == bytes,
                        out@.len() == j,
                        ({
                            let (rr, stf) = eval_all(
                                cvs.subrange(j as int, n as int),
                                bytes,
                                ctx@,
                            );
                            let (rr0, stf0) = eval_all(cvs, bytes, st0);
                            stf0 == stf && (match (rr0, rr) {
                                (Ok(vs0), Ok(vs)) => vs0 == views_of(out@) + vs,
                                (Err(e0), Err(e)) => e0 == e,
                                _ => false,
                            })
                        }),
                    decreases n - j,
                {
                    proof {
                        assert(decreases_to!(*self => self->AllOf_0));
                        assert(self->AllOf_0 == *cs);
                        assert(decreases_to!(*cs => cs@));
                        assert(decreases_to!(cs@ => cs@[j as int]));
                        assert(cvs.subrange(j as int, n as int)[0] == pattern_view(cs@[j as int]));
                        assert(cvs.subrange(j as int, n as int).subrange(1, (n - j) as int)
                            =~= cvs.subrange(j + 1, n as int));
                    }
                    match (&cs[j]).parse_ctx(ctx) {
                        Err(e) => {
                            return Err(e);
                        },
                        Ok(d2) => {
                            let ghost before = out@;
                            out.push(d2);
                            proof {
                                lemma_views_of(out@);
                                lemma_views_of(before);
                                assert(views_of(out@) =~= views_of(before).push(data_view(d2)));
                                let (rr, stf) = eval_all(
                                    cvs.subrange(j + 1, n as int),
                                    bytes,
                                    ctx@,
                                );
                                if rr is Ok {
                                    assert(views_of(before) + (seq![data_view(d2)] + rr->Ok_0)
                                        =~= views_of(out@) + rr->Ok_0);
                                }
                            }
                        },
                    }
                    j = j + 1;
                }
                proof {
                    assert(cvs.subrange(n as int, n as int) =~= Seq::<PatView>::empty());
                    assert(views_of(out@) + Seq::<DataView>::empty() =~= views_of(out@));
                }
                Ok(Data::List(out))
            },
            Pattern::Store(inner, k) => {
                proof {
                    assert(decreases_to!(*self => self->Store_0));
                }
                match (&**inner).parse_ctx(ctx) {
                    Err(e) => Err(e),
                    Ok(d) => {
                        let copy = d.dup();
                        let ghost st1 = ctx@;
                        ctx.set_var(*k, copy);
                        proof {
                            assert(ctx@ =~= with_top(st1, top_frame(st1).insert(*k, d@)));
                        }
                        Ok(d)
                    },
                }
            },
            Pattern::Mapped(inner, op) => {
                proof {
                    assert(decreases_to!(*self => self->Mapped_0));
                }
                match (&**inner).parse_ctx(ctx) {
                    Err(e) => Err(e),
                    Ok(d) => run_op(op, ctx.scope(), d),
                }
            },
        }
    }

    /// Wraps this pattern so its parsed value is transformed by `op`.
    pub fn map(self, op: MapOp) -> (r: Pattern)
        ensures
            r@ == PatView::Mapped(Box::new(self@), op@),
    {
        Pattern::Mapped(Box::new(self), op)
    }

    /// Wraps this pattern so a successful parse yields `d` instead of
    /// the parsed value.
    pub fn mapval(self, d: Data) -> (r: Pattern)
        ensures
            r@ == PatView::Mapped(Box::new(self@), MapOpView::Const(d@)),
    {
        Pattern::Mapped(Box::new(self), MapOp::Const(d))
    }

    /// Wraps this pattern so its result is also bound to `key` in the
    /// current scope frame.
    pub fn store(self, key: i64) -> (r: Pattern)
        ensures
            r@ == PatView::Store(Box::new(self@), key),
    {
        Pattern::Store(Box::new(self), key)
    }

    /// Wraps this pattern so `rhs` is added to its result: integers
    /// add with 64-bit wrapping and strings concatenate; anything
    /// else — floats included, whose arithmetic this library does not
    /// perform — is a type error.
    pub fn add(self, rhs: Data) -> (r: Pattern)
        ensures
            r@ == PatView::Mapped(Box::new(self@), MapOpView::AddVal(rhs@)),
    {
        Pattern::Mapped(Box::new(self), MapOp::AddVal(rhs))
    }

    /// Wraps this pattern so a successful parse yields, for each
    /// listed (key, name), the pair of the name and the scope value
    /// under the key.
    pub fn to_map(self, keys: Vec<(i64, String)>) -> (r: Pattern)
        ensures
            r@ == PatView::Mapped(Box::new(self@), MapOpView::ToPairs(pairs_view(keys@))),
    {
        Pattern::Mapped(Box::new(self), MapOp::ToPairs(keys))
    }
}

} // verus!
