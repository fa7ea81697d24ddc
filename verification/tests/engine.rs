//! End-to-end parses: fixed structs, alternation, length-prefixed
//! arrays, stores and maps.

use binpat::prelude::all_of;
use binpat::prelude::any_of;
use binpat::prelude::array_of;
use binpat::prelude::getvar;
use binpat::prelude::le_magic_u32;
use binpat::prelude::le_magic_u64;
use binpat::prelude::be_magic_u64;
use binpat::prelude::magic_u16;
use binpat::prelude::magic_u64;
use binpat::render;
use binpat::Data;
use binpat::Endian;
use binpat::ParseError;
use binpat::Pattern;
use binpat::Renderable;

fn le_u64(x: u64) -> Renderable {
    Renderable::U64(Endian::Little, x)
}

fn le_u32(x: u32) -> Renderable {
    Renderable::U32(Endian::Little, x)
}

fn le_u16(x: u16) -> Renderable {
    Renderable::U16(Endian::Little, x)
}

#[test]
fn sample() {
    let bytes = render(&Renderable::List(vec![le_u64(1234), le_u16(50000)]));
    let parser = all_of(vec![magic_u64(1234), Pattern::U8, Pattern::U8]);

    let data = parser.parse(&bytes).unwrap();

    assert_eq!(
        data,
        Data::seq(vec![Data::Int(1234), Data::Int(80), Data::Int(195)])
    );
    assert_eq!(50000, (195 << 8) + 80);
}

#[test]
fn alternatives() {
    let bytes = render(&Renderable::List(vec![le_u64(1234), le_u16(50000)]));
    let parser = any_of(vec![
        all_of(vec![
            all_of(vec![]).mapval(Data::Str("big-endian".to_string())),
            be_magic_u64(1234),
            Pattern::BeU16,
        ]),
        all_of(vec![
            all_of(vec![]).mapval(Data::Str("little-endian".to_string())),
            le_magic_u64(1234),
            Pattern::U8,
            Pattern::U8,
        ]),
    ]);

    let data = parser.parse(&bytes).unwrap();

    assert_eq!(
        data,
        Data::seq(vec![
            Data::Str("little-endian".to_string()),
            Data::Int(1234),
            Data::Int(80),
            Data::Int(195),
        ])
    );
    assert_eq!(50000, (195 << 8) + 80);
}

const LENGTH: i64 = 0;

#[test]
fn list() {
    let bytes = render(&Renderable::List(vec![
        le_u32(1234), // magic
        le_u32(3),    // length - 1
        le_u64(777),
        le_u64(888),
        le_u64(999),
        le_u64(444), // data to be parsed
        le_u64(555),
        le_u64(666), // just some extra data
    ]));

    let parser = all_of(vec![
        le_magic_u32(1234),
        // after the magic, the header gives the length of the
        // upcoming array, minus one; store the computed length
        Pattern::LeU32.add(Data::Int(1)).store(LENGTH),
        // an array of u64 whose length is the stored value
        array_of(Pattern::LeU64, getvar(LENGTH)),
    ]);

    let data = parser.parse(&bytes).unwrap();

    assert_eq!(
        data,
        Data::seq(vec![
            Data::Int(1234), // magic
            Data::Int(4),    // length
            Data::seq(vec![
                Data::Int(777),
                Data::Int(888),
                Data::Int(999),
                Data::Int(444),
            ]),
        ])
    );

    // try again, with the length a little longer
    let bytes = render(&Renderable::List(vec![
        le_u32(1234),
        le_u32(4),
        le_u64(777),
        le_u64(888),
        le_u64(999),
        le_u64(444),
        le_u64(555),
        le_u64(666),
    ]));

    let data = parser.parse(&bytes).unwrap();

    assert_eq!(
        data,
        Data::seq(vec![
            Data::Int(1234),
            Data::Int(5),
            Data::seq(vec![
                Data::Int(777),
                Data::Int(888),
                Data::Int(999),
                Data::Int(444),
                Data::Int(555),
            ]),
        ])
    );
}

#[test]
fn magic_matches_exact() {
    // a magic succeeds exactly where the exact byte check does, and
    // yields the value instead of the bytes
    let bytes = 0xDEADBEEFu32.to_be_bytes().to_vec();
    let m = binpat::prelude::be_magic_u32(0xDEADBEEF).parse(&bytes).unwrap();
    assert_eq!(m, Data::Int(0xDEADBEEF));
    let e = binpat::prelude::magic(&bytes).parse(&bytes).unwrap();
    assert_eq!(e, Data::Bytes(bytes.clone()));
    let wrong = vec![0u8; 4];
    assert!(matches!(
        binpat::prelude::be_magic_u32(0xDEADBEEF).parse(&wrong).unwrap_err(),
        ParseError::Mismatch
    ));
    assert!(matches!(
        binpat::prelude::magic(&bytes).parse(&wrong).unwrap_err(),
        ParseError::Mismatch
    ));
}

#[test]
fn magic_u64_top_bit_wraps() {
    let bytes = u64::MAX.to_le_bytes().to_vec();
    let data = binpat::prelude::magic_u64(u64::MAX).parse(&bytes).unwrap();
    assert_eq!(data, Data::Int(-1));
}

#[test]
fn mismatch_is_reported() {
    let bytes = vec![0u8, 0u8];
    let parser = magic_u16(1);
    let err = parser.parse(&bytes).unwrap_err();
    assert!(matches!(err, ParseError::Mismatch));
}

#[test]
fn empty_any_of_fails() {
    let bytes = vec![1u8];
    let parser = any_of(vec![]);
    let err = parser.parse(&bytes).unwrap_err();
    assert!(matches!(err, ParseError::Empty));
}

#[test]
fn unbound_variable_fails() {
    let bytes = vec![1u8, 2u8];
    let parser = array_of(Pattern::U8, getvar(9));
    let err = parser.parse(&bytes).unwrap_err();
    assert!(matches!(err, ParseError::Unbound));
}

#[test]
fn negative_length_fails() {
    let bytes = vec![1u8, 2u8];
    let parser = array_of(Pattern::U8, binpat::Expr::Lit(Data::Int(-1)));
    let err = parser.parse(&bytes).unwrap_err();
    assert!(matches!(err, ParseError::TypeError));
}

#[test]
fn truncated_input_fails() {
    let bytes = vec![1u8];
    let err = Pattern::LeU16.parse(&bytes).unwrap_err();
    assert!(matches!(err, ParseError::EndOfInput));
}

#[test]
fn add_on_floats_is_type_error() {
    let bytes = render(&le_u32(0));
    let parser = Pattern::LeF32.add(Data::Int(1));
    let err = parser.parse(&bytes).unwrap_err();
    assert!(matches!(err, ParseError::TypeError));
}

#[test]
fn add_concatenates_strings() {
    let bytes = vec![b'h', b'i', 0u8];
    let parser = Pattern::CStr.add(Data::Str(" there".to_string()));
    let data = parser.parse(&bytes).unwrap();
    assert_eq!(data, Data::Str("hi there".to_string()));
}

#[test]
fn add_wraps_at_i64_max() {
    let bytes = vec![1u8];
    let parser = Pattern::U8.add(Data::Int(i64::MAX));
    let data = parser.parse(&bytes).unwrap();
    assert_eq!(data, Data::Int(i64::MIN));
}

#[test]
fn store_visible_to_later_siblings() {
    // the first byte names how many of the following bytes to collect
    let bytes = vec![2u8, 7u8, 8u8, 9u8];
    let parser = all_of(vec![
        Pattern::U8.store(5),
        array_of(Pattern::U8, getvar(5)),
    ]);
    let data = parser.parse(&bytes).unwrap();
    assert_eq!(
        data,
        Data::seq(vec![
            Data::Int(2),
            Data::seq(vec![Data::Int(7), Data::Int(8)]),
        ])
    );
}

#[test]
fn scope_writes_survive_backtracking() {
    // the first alternative stores a value and then fails on a magic;
    // the second alternative reads the stored value as an array length
    let bytes = vec![2u8, 9u8, 7u8, 8u8];
    let parser = any_of(vec![
        all_of(vec![Pattern::U8.store(1), magic_u16(0xFFFF)]),
        all_of(vec![Pattern::U8, Pattern::U8, array_of(Pattern::U8, getvar(1))]),
    ]);
    let data = parser.parse(&bytes).unwrap();
    assert_eq!(
        data,
        Data::seq(vec![
            Data::Int(2),
            Data::Int(9),
            Data::seq(vec![Data::Int(7), Data::Int(8)]),
        ])
    );
}

#[test]
fn exact_yields_bytes() {
    let bytes = vec![0xCAu8, 0xFEu8, 1u8];
    let parser = binpat::prelude::magic(&[0xCA, 0xFE]);
    let data = parser.parse(&bytes).unwrap();
    assert_eq!(data, Data::Bytes(vec![0xCA, 0xFE]));
}

#[test]
fn expression_add_sums_parts() {
    let bytes = vec![5u8];
    let parser = all_of(vec![
        Pattern::U8.store(0),
        array_of(
            all_of(vec![]),
            binpat::Expr::Add(vec![
                binpat::Expr::Var(0),
                binpat::Expr::Lit(Data::Int(2)),
            ]),
        ),
    ]);
    let data = parser.parse(&bytes).unwrap();
    assert_eq!(
        data,
        Data::seq(vec![
            Data::Int(5),
            Data::seq(vec![
                Data::seq(vec![]),
                Data::seq(vec![]),
                Data::seq(vec![]),
                Data::seq(vec![]),
                Data::seq(vec![]),
                Data::seq(vec![]),
                Data::seq(vec![]),
            ]),
        ])
    );
}
