//! Byte-level integer decoding: unsigned and two's-complement signed
//! readings of little- and big-endian byte strings, together with the
//! mathematical place-value functions the contracts are stated over.

use vstd::prelude::*;

verus! {

/// 256 to the power `n`: the number of values of an `n`-byte string.
pub open spec fn pow256(n: nat) -> nat
    decreases n,
{
    if n == 0 {
        1
    } else {
        256 * pow256((n - 1) as nat)
    }
}

/// The value of `s` read as a little-endian unsigned integer:
/// byte `i` contributes `s[i] * 256^i`.
pub open spec fn le_val(s: Seq<u8>) -> nat
    decreases s.len(),
{
    if s.len() == 0 {
        0
    } else {
        (s[0] + 256 * le_val(s.subrange(1, s.len() as int))) as nat
    }
}

/// The value of `s` read as a big-endian unsigned integer:
/// the last byte is the least significant.
pub open spec fn be_val(s: Seq<u8>) -> nat
    decreases s.len(),
{
    if s.len() == 0 {
        0
    } else {
        (256 * be_val(s.subrange(0, s.len() - 1)) + s[s.len() - 1]) as nat
    }
}

/// The unsigned value of `s` in the given byte order.
pub open spec fn uval(little_endian: bool, s: Seq<u8>) -> nat {
    if little_endian {
        le_val(s)
    } else {
        be_val(s)
    }
}

/// The two's-complement signed value of `s` in the given byte order:
/// the unsigned value, shifted down by `256^len` when the sign bit is set.
pub open spec fn sval(little_endian: bool, s: Seq<u8>) -> int {
    if uval(little_endian, s) >= pow256(s.len()) / 2 {
        uval(little_endian, s) - pow256(s.len())
    } else {
        uval(little_endian, s) as int
    }
}

/// A 64-bit unsigned value reinterpreted as a signed 64-bit integer
/// (two's complement): values at or above `2^63` wrap to negatives.
pub open spec fn i64_twos(u: u64) -> int {
    if u >= 0x8000_0000_0000_0000 {
        u - 0x1_0000_0000_0000_0000
    } else {
        u as int
    }
}

pub proof fn lemma_pow256_values()
    ensures
        pow256(0) == 1,
        pow256(1) == 0x100,
        pow256(2) == 0x1_0000,
        pow256(3) == 0x100_0000,
        pow256(4) == 0x1_0000_0000,
        pow256(5) == 0x100_0000_0000,
        pow256(6) == 0x1_0000_0000_0000,
        pow256(7) == 0x100_0000_0000_0000,
        pow256(8) == 0x1_0000_0000_0000_0000,
{
    reveal_with_fuel(pow256, 9);
}

/// Every `n`-byte string names a value below `256^n`.
pub proof fn lemma_le_val_bound(s: Seq<u8>)
    ensures
        le_val(s) < pow256(s.len()),
    decreases s.len(),
{
    if s.len() == 0 {
    } else {
        lemma_le_val_bound(s.subrange(1, s.len() as int));
    }
}

pub proof fn lemma_be_val_bound(s: Seq<u8>)
    ensures
        be_val(s) < pow256(s.len()),
    decreases s.len(),
{
    if s.len() == 0 {
    } else {
        lemma_be_val_bound(s.subrange(0, s.len() - 1));
    }
}

pub proof fn lemma_uval_bound(little_endian: bool, s: Seq<u8>)
    ensures
        uval(little_endian, s) < pow256(s.len()),
{
    if little_endian {
        lemma_le_val_bound(s);
    } else {
        lemma_be_val_bound(s);
    }
}

/// Reads `bytes` as an unsigned integer in the given byte order.
pub fn uint(little_endian: bool, bytes: &[u8]) -> (r: u64)
    requires
        bytes@.len() <= 8,
    ensures
        r == uval(little_endian, bytes@),
{
    proof {
        lemma_pow256_values();
    }
    let len = bytes.len();
    let mut acc: u64 = 0;
    if little_endian {
        let mut j: usize = len;
        while j > 0
            invariant
                j <= len,
                len == bytes@.len() <= 8,
                acc == le_val(bytes@.subrange(j as int, len as int)),
                pow256(8) == 0x1_0000_0000_0000_0000,
            decreases j,
        {
            proof {
                lemma_le_val_bound(bytes@.subrange(j as int, len as int));
                lemma_pow256_mono((len - j) as nat, 7);
                lemma_pow256_values();
                assert(bytes@.subrange(j - 1, len as int).subrange(1, (len - (j - 1)) as int)
                    =~= bytes@.subrange(j as int, len as int));
            }
            j = j - 1;
            acc = acc * 256 + (bytes[j] as u64);
        }
        proof {
            assert(bytes@.subrange(0, len as int) =~= bytes@);
        }
    } else {
        let mut j: usize = 0;
        while j < len
            invariant
                j <= len,
                len == bytes@.len() <= 8,
                acc == be_val(bytes@.subrange(0, j as int)),
                pow256(8) == 0x1_0000_0000_0000_0000,
            decreases len - j,
        {
            proof {
                lemma_be_val_bound(bytes@.subrange(0, j as int));
                lemma_pow256_mono(j as nat, 7);
                lemma_pow256_values();
                assert(bytes@.subrange(0, j + 1).subrange(0, j as int)
                    =~= bytes@.subrange(0, j as int));
                assert(bytes@.subrange(0, j + 1)[j as int] == bytes@[j as int]);
            }
            acc = acc * 256 + (bytes[j] as u64);
            j = j + 1;
        }
        proof {
            assert(bytes@.subrange(0, len as int) =~= bytes@);
        }
    }
    acc
}

pub proof fn lemma_pow256_mono(a: nat, b: nat)
    requires
        a <= b,
    ensures
        pow256(a) <= pow256(b),
    decreases b,
{
    if a < b {
        lemma_pow256_mono(a, (b - 1) as nat);
        assert(pow256(b) == 256 * pow256((b - 1) as nat));
    }
}

/// `256^n` as a machine word, for `n` at most 7.
fn pow256_u64(n: usize) -> (r: u64)
    requires
        n <= 7,
    ensures
        r == pow256(n as nat),
{
    proof {
        lemma_pow256_values();
    }
    let mut r: u64 = 1;
    let mut i: usize = 0;
    while i < n
        invariant
            i <= n <= 7,
            r == pow256(i as nat),
            pow256(7) == 0x100_0000_0000_0000,
        decreases n - i,
    {
        proof {
            lemma_pow256_mono(i as nat, 6);
            lemma_pow256_values();
        }
        r = r * 256;
        i = i + 1;
    }
    r
}

/// `256^n / 2`, the smallest `n`-byte value whose sign bit is set,
/// for `n` between 1 and 8.
fn half_pow256_u64(n: usize) -> (r: u64)
    requires
        1 <= n <= 8,
    ensures
        r == pow256(n as nat) / 2,
{
    proof {
        lemma_pow256_values();
    }
    let mut r: u64 = 0x80;
    let mut i: usize = 1;
    while i < n
        invariant
            1 <= i <= n <= 8,
            r == pow256(i as nat) / 2,
            pow256(8) == 0x1_0000_0000_0000_0000,
        decreases n - i,
    {
        proof {
            lemma_pow256_mono(i as nat, 7);
            lemma_pow256_values();
            assert(pow256((i + 1) as nat) == 256 * pow256(i as nat));
        }
        r = r * 256;
        i = i + 1;
    }
    r
}

/// Reads `bytes` as a two's-complement signed integer in the given
/// byte order, with sign extension to 64 bits.
pub fn sint(little_endian: bool, bytes: &[u8]) -> (r: i64)
    requires
        1 <= bytes@.len() <= 8,
    ensures
        r as int == sval(little_endian, bytes@),
{
    proof {
        lemma_pow256_values();
        lemma_uval_bound(little_endian, bytes@);
        lemma_pow256_mono(bytes@.len(), 8);
    }
    let n = bytes.len();
    let u = uint(little_endian, bytes);
    let half = half_pow256_u64(n);
    if u < half {
        u as i64
    } else if n == 8 {
        if u == 0x8000_0000_0000_0000u64 {
            i64::MIN
        } else {
            let m = (u64::MAX - u) + 1;
            -(m as i64)
        }
    } else {
        let m = pow256_u64(n) - u;
        proof {
            lemma_pow256_mono(bytes@.len(), 7);
        }
        -(m as i64)
    }
}

/// Reads `bytes` as an integer in the given byte order, signed or
/// unsigned; an unsigned 64-bit reading with the high bit set wraps
/// to a negative number.
pub fn getint(little_endian: bool, signed: bool, bytes: &[u8]) -> (r: i64)
    requires
        1 <= bytes@.len() <= 8,
    ensures
        signed ==> r as int == sval(little_endian, bytes@),
        !signed ==> r as int == i64_twos_nat(uval(little_endian, bytes@)),
{
    if signed {
        sint(little_endian, bytes)
    } else {
        let u = uint(little_endian, bytes);
        proof {
            lemma_uval_bound(little_endian, bytes@);
            lemma_pow256_mono(bytes@.len(), 8);
            lemma_pow256_values();
        }
        wrap_to_i64(u)
    }
}

/// `i64_twos` stated over a mathematical value below `2^64`.
pub open spec fn i64_twos_nat(u: nat) -> int {
    if u >= 0x8000_0000_0000_0000 {
        u - 0x1_0000_0000_0000_0000
    } else {
        u as int
    }
}

/// Reinterprets a 64-bit unsigned value as a signed one
/// (two's complement).
pub fn wrap_to_i64(u: u64) -> (r: i64)
    ensures
        r as int == i64_twos(u),
{
    if u < 0x8000_0000_0000_0000u64 {
        u as i64
    } else if u == 0x8000_0000_0000_0000u64 {
        i64::MIN
    } else {
        let m = (u64::MAX - u) + 1;
        -(m as i64)
    }
}


/// The `n` little-endian bytes of `v`: byte `i` is `(v / 256^i) % 256`.
pub open spec fn enc_le(v: nat, n: nat) -> Seq<u8>
    decreases n,
{
    if n == 0 {
        Seq::empty()
    } else {
        seq![(v % 256) as u8] + enc_le(v / 256, (n - 1) as nat)
    }
}

/// The `n` big-endian bytes of `v`: the last byte is `v % 256`.
pub open spec fn enc_be(v: nat, n: nat) -> Seq<u8>
    decreases n,
{
    if n == 0 {
        Seq::empty()
    } else {
        enc_be(v / 256, (n - 1) as nat) + seq![(v % 256) as u8]
    }
}

/// The `n` bytes of `v` in the given byte order.
pub open spec fn enc(little_endian: bool, v: nat, n: nat) -> Seq<u8> {
    if little_endian {
        enc_le(v, n)
    } else {
        enc_be(v, n)
    }
}

/// The two's-complement unsigned image of a signed value in `n` bytes.
pub open spec fn tc(v: int, n: nat) -> nat {
    if v < 0 {
        (v + pow256(n)) as nat
    } else {
        v as nat
    }
}

pub proof fn lemma_enc_len(little_endian: bool, v: nat, n: nat)
    ensures
        enc(little_endian, v, n).len() == n,
    decreases n,
{
    if n > 0 {
        lemma_enc_len(little_endian, v / 256, (n - 1) as nat);
    }
}

/// Decoding the little-endian bytes of a value gives it back.
pub proof fn lemma_le_roundtrip(v: nat, n: nat)
    requires
        v < pow256(n),
    ensures
        le_val(enc_le(v, n)) == v,
    decreases n,
{
    if n == 0 {
    } else {
        assert(v / 256 < pow256((n - 1) as nat)) by (nonlinear_arith)
            requires
                v < pow256(n),
                pow256(n) == 256 * pow256((n - 1) as nat),
        ;
        lemma_le_roundtrip(v / 256, (n - 1) as nat);
        let e = enc_le(v, n);
        assert(e.subrange(1, e.len() as int) =~= enc_le(v / 256, (n - 1) as nat)) by {
            lemma_enc_len(true, v / 256, (n - 1) as nat);
        }
        vstd::arithmetic::div_mod::lemma_fundamental_div_mod(v as int, 256);
    }
}

/// Decoding the big-endian bytes of a value gives it back.
pub proof fn lemma_be_roundtrip(v: nat, n: nat)
    requires
        v < pow256(n),
    ensures
        be_val(enc_be(v, n)) == v,
    decreases n,
{
    if n == 0 {
    } else {
        assert(v / 256 < pow256((n - 1) as nat)) by (nonlinear_arith)
            requires
                v < pow256(n),
                pow256(n) == 256 * pow256((n - 1) as nat),
        ;
        lemma_be_roundtrip(v / 256, (n - 1) as nat);
        let e = enc_be(v, n);
        assert(e.subrange(0, e.len() - 1) =~= enc_be(v / 256, (n - 1) as nat)) by {
            lemma_enc_len(false, v / 256, (n - 1) as nat);
        }
        assert(e[e.len() - 1] == (v % 256) as u8) by {
            lemma_enc_len(false, v / 256, (n - 1) as nat);
        }
        vstd::arithmetic::div_mod::lemma_fundamental_div_mod(v as int, 256);
    }
}

/// Decoding the bytes of a value in either byte order gives it back.
pub proof fn lemma_enc_roundtrip(little_endian: bool, v: nat, n: nat)
    requires
        v < pow256(n),
    ensures
        uval(little_endian, enc(little_endian, v, n)) == v,
{
    if little_endian {
        lemma_le_roundtrip(v, n);
    } else {
        lemma_be_roundtrip(v, n);
    }
}

/// Writes the `n` low bytes of `v` in the given byte order.
#[verifier::loop_isolation(false)]
pub fn encode_uint(little_endian: bool, v: u64, n: usize) -> (r: Vec<u8>)
    requires
        n <= 8,
    ensures
        r@ == enc(little_endian, v as nat, n as nat),
{
    let mut le: Vec<u8> = Vec::new();
    let mut cur: u64 = v;
    let mut i: usize = 0;
    while i < n
        invariant
            i <= n,
            le@.len() == i,
            le@ + enc_le(cur as nat, (n - i) as nat) =~= enc_le(v as nat, n as nat),
        decreases n - i,
    {
        let ghost before = le@;
        le.push((cur % 256) as u8);
        proof {
            assert(enc_le(cur as nat, (n - i) as nat) == seq![(cur as nat % 256) as u8] + enc_le(
                cur as nat / 256,
                (n - i - 1) as nat,
            ));
            assert(le@ + enc_le((cur / 256) as nat, (n - (i + 1)) as nat) =~= before + enc_le(
                cur as nat,
                (n - i) as nat,
            ));
        }
        cur = cur / 256;
        i = i + 1;
    }
    proof {
        assert(enc_le(cur as nat, 0) =~= Seq::<u8>::empty());
        assert(le@ + Seq::<u8>::empty() =~= le@);
    }
    if little_endian {
        le
    } else {
        let mut be: Vec<u8> = Vec::new();
        let mut j: usize = le.len();
        proof {
            lemma_enc_rev(v as nat, n as nat);
        }
        while j > 0
            invariant
                j <= le@.len(),
                le@.len() == n,
                be@.len() == n - j,
                forall|i2: int| 0 <= i2 < n - j ==> be@[i2] == le@[n - 1 - i2],
            decreases j,
        {
            j = j - 1;
            be.push(le[j]);
        }
        proof {
            assert(be@ =~= le@.reverse());
        }
        be
    }
}

/// The big-endian bytes are the little-endian bytes reversed.
pub proof fn lemma_enc_rev(v: nat, n: nat)
    ensures
        enc_be(v, n) == enc_le(v, n).reverse(),
    decreases n,
{
    if n > 0 {
        lemma_enc_rev(v / 256, (n - 1) as nat);
        assert((seq![(v % 256) as u8] + enc_le(v / 256, (n - 1) as nat)).reverse() =~= enc_le(
            v / 256,
            (n - 1) as nat,
        ).reverse() + seq![(v % 256) as u8]);
    } else {
        assert(enc_le(v, 0).reverse() =~= Seq::<u8>::empty());
    }
}

} // verus!
