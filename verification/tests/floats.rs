//! Float patterns: the parsed bit patterns agree with the machine's
//! own float handling, subnormals and infinities included.

use binpat::render;
use binpat::Data;
use binpat::Endian;
use binpat::Pattern;
use binpat::Renderable;

#[test]
fn float64_le_roundtrip() {
    for x in [1.5f64, -0.0, 0.0, -12345.6789, f64::INFINITY, f64::NEG_INFINITY, 5e-324] {
        let bytes = render(&Renderable::U64(Endian::Little, x.to_bits()));
        let data = Pattern::LeF64.parse(&bytes).unwrap();
        assert_eq!(data, Data::Float(x.to_bits()));
    }
}

#[test]
fn float64_be_roundtrip() {
    let x: f64 = 2.5;
    let bytes = x.to_be_bytes().to_vec();
    let data = Pattern::BeF64.parse(&bytes).unwrap();
    assert_eq!(data, Data::Float(x.to_bits()));
}

#[test]
fn float32_widening_matches_hardware() {
    let cases: [f32; 9] = [
        1.5,
        -0.0,
        0.0,
        -12345.678,
        f32::INFINITY,
        f32::NEG_INFINITY,
        f32::MIN_POSITIVE,        // smallest normal
        f32::MIN_POSITIVE / 8.0,  // subnormal
        1e-44,                    // deeply subnormal
    ];
    for x in cases {
        let bytes = x.to_le_bytes().to_vec();
        let data = Pattern::LeF32.parse(&bytes).unwrap();
        assert_eq!(data, Data::Float((x as f64).to_bits()));
    }
}

#[test]
fn float32_be_roundtrip() {
    let x: f32 = -3.25;
    let bytes = x.to_be_bytes().to_vec();
    let data = Pattern::BeF32.parse(&bytes).unwrap();
    assert_eq!(data, Data::Float((x as f64).to_bits()));
}

#[test]
fn float_bits_getter() {
    let x: f64 = 7.75;
    let bytes = x.to_le_bytes().to_vec();
    let data = Pattern::LeF64.parse(&bytes).unwrap();
    assert_eq!(data.float_bits(), Some(x.to_bits()));
    assert_eq!(Data::Int(1).float_bits(), None);
}
