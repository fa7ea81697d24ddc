//! The byte-level integer decoders, on known values, and integer
//! round trips through the renderer for every width and byte order.

use binpat::render;
use binpat::sint;
use binpat::uint;
use binpat::Data;
use binpat::Endian;
use binpat::Pattern;
use binpat::Render;
use binpat::Renderable;

fn le_sint(bytes: &[u8]) -> i64 {
    sint(true, bytes)
}

fn le_uint(bytes: &[u8]) -> u64 {
    uint(true, bytes)
}

fn be_sint(bytes: &[u8]) -> i64 {
    sint(false, bytes)
}

fn be_uint(bytes: &[u8]) -> u64 {
    uint(false, bytes)
}

#[test]
fn int_helpers() {
    assert_eq!(le_uint(&890u64.to_le_bytes()), 890);
    assert_eq!(le_uint(&678u64.to_le_bytes()), 678);
    assert_eq!(le_sint(&123i64.to_le_bytes()), 123);
    assert_eq!(le_sint(&(-456i64).to_le_bytes()), -456);
    assert_eq!(le_sint(&(-0i64).to_le_bytes()), -0);
    assert_eq!(le_sint(&(-1i64).to_le_bytes()), -1);
    assert_eq!(be_uint(&890u64.to_be_bytes()), 890);
    assert_eq!(be_uint(&678u64.to_be_bytes()), 678);
    assert_eq!(be_sint(&123i64.to_be_bytes()), 123);
    assert_eq!(be_sint(&(-456i64).to_be_bytes()), -456);
    assert_eq!(be_sint(&(-0i64).to_be_bytes()), -0);
    assert_eq!(be_sint(&(-1i64).to_be_bytes()), -1);

    assert_eq!(le_uint(&890u32.to_le_bytes()), 890);
    assert_eq!(le_uint(&678u32.to_le_bytes()), 678);
    assert_eq!(le_sint(&123i32.to_le_bytes()), 123);
    assert_eq!(le_sint(&(-456i32).to_le_bytes()), -456);
    assert_eq!(le_sint(&(-0i32).to_le_bytes()), -0);
    assert_eq!(le_sint(&(-1i32).to_le_bytes()), -1);
    assert_eq!(be_uint(&890u32.to_be_bytes()), 890);
    assert_eq!(be_uint(&678u32.to_be_bytes()), 678);
    assert_eq!(be_sint(&123i32.to_be_bytes()), 123);
    assert_eq!(be_sint(&(-456i32).to_be_bytes()), -456);
    assert_eq!(be_sint(&(-0i32).to_be_bytes()), -0);
    assert_eq!(be_sint(&(-1i32).to_be_bytes()), -1);
}

#[test]
fn signed_extremes() {
    assert_eq!(le_sint(&i64::MIN.to_le_bytes()), i64::MIN);
    assert_eq!(be_sint(&i64::MIN.to_be_bytes()), i64::MIN);
    assert_eq!(le_sint(&i64::MAX.to_le_bytes()), i64::MAX);
    assert_eq!(be_sint(&i64::MAX.to_be_bytes()), i64::MAX);
    assert_eq!(le_sint(&i16::MIN.to_le_bytes()), -32768);
    assert_eq!(be_sint(&i16::MIN.to_be_bytes()), -32768);
    assert_eq!(le_uint(&u64::MAX.to_le_bytes()), u64::MAX);
    assert_eq!(be_uint(&u64::MAX.to_be_bytes()), u64::MAX);
}

#[test]
fn be_i16_roundtrip() {
    let bytes = render(&Render::be_i16(-2));
    assert_eq!(bytes, vec![0xFF, 0xFE]);
    let data = Pattern::BeI16.parse(&bytes).unwrap();
    assert_eq!(data, Data::Int(-2));
}

#[test]
fn unsigned_roundtrips_all_widths() {
    let cases: Vec<(Renderable, Pattern, i64)> = vec![
        (Renderable::U8(200), Pattern::U8, 200),
        (Renderable::U16(Endian::Little, 50000), Pattern::LeU16, 50000),
        (Render::be_u16(50000), Pattern::BeU16, 50000),
        (Renderable::U32(Endian::Little, 3_000_000_000), Pattern::LeU32, 3_000_000_000),
        (Render::be_u32(3_000_000_000), Pattern::BeU32, 3_000_000_000),
        (Renderable::U64(Endian::Little, 12_345_678_901), Pattern::LeU64, 12_345_678_901),
        (Render::be_u64(12_345_678_901), Pattern::BeU64, 12_345_678_901),
    ];
    for (leaf, pat, want) in cases {
        let bytes = render(&leaf);
        let data = pat.parse(&bytes).unwrap();
        assert_eq!(data, Data::Int(want));
    }
}

#[test]
fn unsigned_u64_top_bit_wraps() {
    let bytes = render(&Renderable::U64(Endian::Little, u64::MAX));
    let data = Pattern::LeU64.parse(&bytes).unwrap();
    assert_eq!(data, Data::Int(-1));
}

#[test]
fn signed_roundtrips_all_widths() {
    let cases: Vec<(Renderable, Pattern, i64)> = vec![
        (Renderable::I8(-100), Pattern::I8, -100),
        (Renderable::I16(Endian::Little, -2), Pattern::LeI16, -2),
        (Render::be_i16(-30000), Pattern::BeI16, -30000),
        (Renderable::I32(Endian::Little, -2_000_000_000), Pattern::LeI32, -2_000_000_000),
        (Render::be_i32(2_000_000_000), Pattern::BeI32, 2_000_000_000),
        (Renderable::I64(Endian::Little, i64::MIN), Pattern::LeI64, i64::MIN),
        (Render::be_i64(i64::MAX), Pattern::BeI64, i64::MAX),
    ];
    for (leaf, pat, want) in cases {
        let bytes = render(&leaf);
        let data = pat.parse(&bytes).unwrap();
        assert_eq!(data, Data::Int(want));
    }
}
