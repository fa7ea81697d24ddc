//! Convenience constructors for patterns and expressions: the names a
//! format definition is written with.

use vstd::prelude::*;

use crate::data::Data;
use crate::data::DataView;
use crate::expr::Expr;
use crate::num::enc;
use crate::num::encode_uint;
use crate::parser::patterns_view;
use crate::parser::MapOp;
use crate::parser::Pattern;
use crate::semantics::i64_wrap;
use crate::semantics::lemma_i64_wrap_u64;
use crate::semantics::ExprView;
use crate::semantics::MapOpView;
use crate::semantics::PatView;

verus! {

/// The shape of a magic pattern: the value's bytes are expected
/// literally, and a match yields the value itself, wrapped to a
/// signed 64-bit integer.
pub open spec fn magic_view(little_endian: bool, n: nat, x: nat) -> PatView {
    PatView::Mapped(
        Box::new(PatView::Exact(enc(little_endian, x, n))),
        MapOpView::Const(DataView::Int(i64_wrap(x as int))),
    )
}

/// A pattern expecting exactly these bytes.
pub fn magic(bytes: &[u8]) -> (r: Pattern)
    ensures
        r@ == PatView::Exact(bytes@),
{
    let n = bytes.len();
    let mut v: Vec<u8> = Vec::new();
    let mut j: usize = 0;
    while j < n
        invariant
            j <= n,
            n == bytes@.len(),
            v@ =~= bytes@.subrange(0, j as int),
        decreases n - j,
    {
        v.push(*vstd::slice::slice_index_get(bytes, j));
        proof {
            assert(v@ =~= bytes@.subrange(0, j + 1));
        }
        j = j + 1;
    }
    proof {
        assert(bytes@.subrange(0, n as int) =~= bytes@);
    }
    Pattern::Exact(v)
}

/// A magic over the value's bytes in the given byte order and width.
fn magic_uint(little_endian: bool, n: usize, x: u64) -> (r: Pattern)
    requires
        1 <= n <= 8,
    ensures
        r@ == magic_view(little_endian, n as nat, x as nat),
{
    let bs = encode_uint(little_endian, x, n);
    let w = crate::num::wrap_to_i64(x);
    proof {
        lemma_i64_wrap_u64(x);
        assert(w == i64_wrap(x as int));
        assert(bs@ == enc(little_endian, x as nat, n as nat));
    }
    let r = Pattern::Mapped(Box::new(Pattern::Exact(bs)), MapOp::Const(Data::Int(w)));
    proof {
        reveal_with_fuel(crate::parser::pattern_view, 3);
        assert(r@ =~~= magic_view(little_endian, n as nat, x as nat));
    }
    r
}

/// A little-endian 16-bit magic yielding `Int(x)`.
pub fn le_magic_u16(x: u16) -> (r: Pattern)
    ensures
        r@ == magic_view(true, 2, x as nat),
{
    magic_uint(true, 2, x as u64)
}

/// A little-endian 32-bit magic yielding `Int(x)`.
pub fn le_magic_u32(x: u32) -> (r: Pattern)
    ensures
        r@ == magic_view(true, 4, x as nat),
{
    magic_uint(true, 4, x as u64)
}

/// A little-endian 64-bit magic yielding `Int(x)`, wrapped to i64.
pub fn le_magic_u64(x: u64) -> (r: Pattern)
    ensures
        r@ == magic_view(true, 8, x as nat),
{
    magic_uint(true, 8, x)
}

/// A big-endian 16-bit magic yielding `Int(x)`.
pub fn be_magic_u16(x: u16) -> (r: Pattern)
    ensures
        r@ == magic_view(false, 2, x as nat),
{
    magic_uint(false, 2, x as u64)
}

/// A big-endian 32-bit magic yielding `Int(x)`.
pub fn be_magic_u32(x: u32) -> (r: Pattern)
    ensures
        r@ == magic_view(false, 4, x as nat),
{
    magic_uint(false, 4, x as u64)
}

/// A big-endian 64-bit magic yielding `Int(x)`, wrapped to i64.
pub fn be_magic_u64(x: u64) -> (r: Pattern)
    ensures
        r@ == magic_view(false, 8, x as nat),
{
    magic_uint(false, 8, x)
}

/// As `le_magic_u16`: magics default to little-endian.
pub fn magic_u16(x: u16) -> (r: Pattern)
    ensures
        r@ == magic_view(true, 2, x as nat),
{
    le_magic_u16(x)
}

/// As `le_magic_u32`: magics default to little-endian.
pub fn magic_u32(x: u32) -> (r: Pattern)
    ensures
        r@ == magic_view(true, 4, x as nat),
{
    le_magic_u32(x)
}

/// As `le_magic_u64`: magics default to little-endian.
pub fn magic_u64(x: u64) -> (r: Pattern)
    ensures
        r@ == magic_view(true, 8, x as nat),
{
    le_magic_u64(x)
}

/// The first of the alternatives to succeed, all tried from the same
/// start position.
pub fn any_of(children: Vec<Pattern>) -> (r: Pattern)
    ensures
        r@ == PatView::AnyOf(patterns_view(children@)),
{
    Pattern::AnyOf(children)
}

/// Every child in order; the results collected in a sequence.
pub fn all_of(children: Vec<Pattern>) -> (r: Pattern)
    ensures
        r@ == PatView::AllOf(patterns_view(children@)),
{
    Pattern::AllOf(children)
}

/// A repetition of `p`, counted by the expression.
pub fn array_of(p: Pattern, e: Expr) -> (r: Pattern)
    ensures
        r@ == PatView::Array(Box::new(p@), e@),
{
    Pattern::Array(Box::new(p), e)
}

/// The expression that reads `key` from the current scope frame.
pub fn getvar(key: i64) -> (r: Expr)
    ensures
        r@ == ExprView::Var(key),
{
    Expr::Var(key)
}

} // verus!
