//! Rendering trees of literal integers into bytes, for building test
//! buffers to parse. Integer leaves carry an endianness; plain
//! constructors default to little-endian and `Render` holds the
//! big-endian ones.

use vstd::prelude::*;

use crate::num::enc;
use crate::num::lemma_pow256_values;
use crate::num::pow256;
use crate::num::tc;

verus! {

/// A byte order.
pub enum Endian {
    Little,
    Big,
}

/// A tree of renderable leaves: sized integers with a byte order, or
/// a sequence of renderables, flattened left to right.
pub enum Renderable {
    U8(u8),
    U16(Endian, u16),
    U32(Endian, u32),
    U64(Endian, u64),
    I8(i8),
    I16(Endian, i16),
    I32(Endian, i32),
    I64(Endian, i64),
    List(Vec<Renderable>),
}

/// The bytes a renderable flattens to: each integer leaf contributes
/// its bytes in its byte order, signed leaves as two's complement,
/// and a list contributes its parts in order.
pub open spec fn rend_spec(r: Renderable) -> Seq<u8>
    decreases r, 1nat,
{
    match r {
        Renderable::U8(x) => enc(true, x as nat, 1),
        Renderable::U16(e, x) => enc(e is Little, x as nat, 2),
        Renderable::U32(e, x) => enc(e is Little, x as nat, 4),
        Renderable::U64(e, x) => enc(e is Little, x as nat, 8),
        Renderable::I8(x) => enc(true, tc(x as int, 1), 1),
        Renderable::I16(e, x) => enc(e is Little, tc(x as int, 2), 2),
        Renderable::I32(e, x) => enc(e is Little, tc(x as int, 4), 4),
        Renderable::I64(e, x) => enc(e is Little, tc(x as int, 8), 8),
        Renderable::List(parts) => rends_spec(parts@),
    }
}

/// The concatenation of the bytes of a list of renderables.
pub open spec fn rends_spec(s: Seq<Renderable>) -> Seq<u8>
    decreases s, 0nat,
{
    if s.len() == 0 {
        Seq::empty()
    } else {
        rend_spec(s[0]) + rends_spec(s.subrange(1, s.len() as int))
    }
}

/// Big-endian leaf constructors.
pub struct Render {}

impl Render {
    pub fn be_u16(i: u16) -> (r: Renderable)
        ensures
            r == Renderable::U16(Endian::Big, i),
    {
        Renderable::U16(Endian::Big, i)
    }

    pub fn be_u32(i: u32) -> (r: Renderable)
        ensures
            r == Renderable::U32(Endian::Big, i),
    {
        Renderable::U32(Endian::Big, i)
    }

    pub fn be_u64(i: u64) -> (r: Renderable)
        ensures
            r == Renderable::U64(Endian::Big, i),
    {
        Renderable::U64(Endian::Big, i)
    }

    pub fn be_i16(i: i16) -> (r: Renderable)
        ensures
            r == Renderable::I16(Endian::Big, i),
    {
        Renderable::I16(Endian::Big, i)
    }

    pub fn be_i32(i: i32) -> (r: Renderable)
        ensures
            r == Renderable::I32(Endian::Big, i),
    {
        Renderable::I32(Endian::Big, i)
    }

    pub fn be_i64(i: i64) -> (r: Renderable)
        ensures
            r == Renderable::I64(Endian::Big, i),
    {
        Renderable::I64(Endian::Big, i)
    }
}

/// The two's-complement image of a signed value in `n` bytes, as a
/// machine word.
fn to_tc_u64(x: i64, n: usize) -> (r: u64)
    requires
        1 <= n <= 8,
        -(pow256(n as nat) as int) / 2 <= x,
        n < 8 ==> x < pow256(n as nat) / 2,
    ensures
        r == tc(x as int, n as nat),
{
    proof {
        lemma_pow256_values();
        crate::num::lemma_pow256_mono(n as nat, 8);
    }
    if x >= 0 {
        x as u64
    } else if n == 8 {
        let m1 = x + 0x4000_0000_0000_0000i64 + 0x4000_0000_0000_0000i64;
        (m1 as u64) + 0x8000_0000_0000_0000u64
    } else {
        proof {
            crate::num::lemma_pow256_mono(n as nat, 7);
        }
        let mut p: u64 = 1;
        let mut i: usize = 0;
        while i < n
            invariant
                i <= n <= 7,
                p == pow256(i as nat),
                pow256(7) == 0x100_0000_0000_0000,
            decreases n - i,
        {
            proof {
                crate::num::lemma_pow256_mono(i as nat, 6);
                lemma_pow256_values();
            }
            p = p * 256;
            i = i + 1;
        }
        ((x + (p as i64)) as u64)
    }
}

/// Appends the bytes of `r` to `out`.
#[verifier::loop_isolation(false)]
pub fn rend(r: &Renderable, out: &mut Vec<u8>)
    ensures
        final(out)@ == old(out)@ + rend_spec(*r),
    decreases r,
{
    let ghost base = old(out)@;
    match r {
        Renderable::U8(x) => {
            append_bytes(out, crate::num::encode_uint(true, *x as u64, 1));
        },
        Renderable::U16(e, x) => {
            append_bytes(out, crate::num::encode_uint(matches!(e, Endian::Little), *x as u64, 2));
        },
        Renderable::U32(e, x) => {
            append_bytes(out, crate::num::encode_uint(matches!(e, Endian::Little), *x as u64, 4));
        },
        Renderable::U64(e, x) => {
            append_bytes(out, crate::num::encode_uint(matches!(e, Endian::Little), *x, 8));
        },
        Renderable::I8(x) => {
            proof {
                lemma_pow256_values();
            }
            let u = to_tc_u64(*x as i64, 1);
            append_bytes(out, crate::num::encode_uint(true, u, 1));
        },
        Renderable::I16(e, x) => {
            proof {
                lemma_pow256_values();
            }
            let u = to_tc_u64(*x as i64, 2);
            append_bytes(out, crate::num::encode_uint(matches!(e, Endian::Little), u, 2));
        },
        Renderable::I32(e, x) => {
            proof {
                lemma_pow256_values();
            }
            let u = to_tc_u64(*x as i64, 4);
            append_bytes(out, crate::num::encode_uint(matches!(e, Endian::Little), u, 4));
        },
        Renderable::I64(e, x) => {
            proof {
                lemma_pow256_values();
            }
            let u = to_tc_u64(*x, 8);
            append_bytes(out, crate::num::encode_uint(matches!(e, Endian::Little), u, 8));
        },
        Renderable::List(parts) => {
            let ghost pvs = parts@;
            let n = parts.len();
            proof {
                assert(pvs.subrange(0, n as int) =~= pvs);
                assert(base + rends_spec(Seq::<Renderable>::empty()) =~= base);
            }
            let mut j: usize = 0;
            while j < n
                invariant
                    j <= n,
                    n == parts@.len(),
                    out@ + rends_spec(pvs.subrange(j as int, n as int)) =~= base + rends_spec(pvs),
                decreases n - j,
            {
                proof {
                    assert(decreases_to!(*r => r->List_0));
                    assert(r->List_0 == *parts);
                    assert(decreases_to!(*parts => parts@));
                    assert(decreases_to!(parts@ => parts@[j as int]));
                    assert(pvs.subrange(j as int, n as int)[0] == pvs[j as int]);
                    assert(pvs.subrange(j as int, n as int).subrange(1, (n - j) as int)
                        =~= pvs.subrange(j + 1, n as int));
                }
                let ghost before = out@;
                rend(&parts[j], out);
                proof {
                    assert(out@ + rends_spec(pvs.subrange(j + 1, n as int)) =~= before + (rend_spec(
                        pvs[j as int],
                    ) + rends_spec(pvs.subrange(j + 1, n as int))));
                }
                j = j + 1;
            }
            proof {
                assert(rends_spec(pvs.subrange(n as int, n as int)) =~= Seq::<u8>::empty());
                assert(out@ + Seq::<u8>::empty() =~= out@);
                assert(out@ =~= base + rend_spec(*r));
            }
        },
    }
}

/// Appends every byte of `more` to `out`.
#[verifier::loop_isolation(false)]
fn append_bytes(out: &mut Vec<u8>, more: Vec<u8>)
    ensures
        final(out)@ == old(out)@ + more@,
{
    let ghost base = old(out)@;
    let n = more.len();
    let mut j: usize = 0;
    while j < n
        invariant
            j <= n,
            n == more@.len(),
            out@ =~= base + more@.subrange(0, j as int),
        decreases n - j,
    {
        out.push(more[j]);
        proof {
            assert(out@ =~= base + more@.subrange(0, j + 1));
        }
        j = j + 1;
    }
    proof {
        assert(more@.subrange(0, n as int) =~= more@);
        assert(out@ =~= base + more@);
    }
}

/// The bytes a renderable flattens to.
pub fn render(r: &Renderable) -> (out: Vec<u8>)
    ensures
        out@ == rend_spec(*r),
{
    let mut out: Vec<u8> = Vec::new();
    rend(r, &mut out);
    proof {
        assert(Seq::<u8>::empty() + rend_spec(*r) =~= rend_spec(*r));
    }
    out
}

} // verus!
