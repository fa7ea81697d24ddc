//! The BMP header patterns against a synthesized header carrying the
//! sample's field values.

use binpat::render;
use binpat::samples::bitmap::dib_header;
use binpat::samples::bitmap::file_header;
use binpat::samples::bitmap::Key;
use binpat::Data;
use binpat::Endian;
use binpat::Renderable;

fn le_u32(x: u32) -> Renderable {
    Renderable::U32(Endian::Little, x)
}

fn le_u16(x: u16) -> Renderable {
    Renderable::U16(Endian::Little, x)
}

/// The first 18 bytes of the sample file: magic "BM", file size
/// 49206, two reserved zero fields, pixel data at offset 54.
fn sample_file_header() -> Renderable {
    Renderable::List(vec![
        Renderable::U8(0x42),
        Renderable::U8(0x4D),
        le_u32(49206),
        le_u16(0),
        le_u16(0),
        le_u32(54),
    ])
}

/// The 40-byte DIB header of the sample file: size 40, 256 by 64
/// pixels; the fields the patterns do not store are zero here.
fn sample_dib_header() -> Renderable {
    Renderable::List(vec![
        le_u32(40),
        le_u32(256),
        le_u32(64),
        le_u16(0),
        le_u16(0),
        le_u32(0),
        le_u32(0),
        le_u32(0),
        le_u32(0),
        le_u32(0),
        le_u32(0),
    ])
}

#[test]
fn file_header_with_sample() {
    let bytes = render(&sample_file_header());
    let pat = file_header();
    let data = pat.parse(&bytes).unwrap();
    assert_eq!(
        data,
        Data::seq(vec![
            Data::Bytes(vec![0x42, 0x4D]),
            Data::Int(49206), // size of the file
            Data::Int(0),
            Data::Int(0),
            Data::Int(54),
        ])
    );
}

#[test]
fn dib_header_with_sample() {
    let bytes = render(&Renderable::List(vec![
        sample_file_header(),
        sample_dib_header(),
    ]));
    let pat = binpat::prelude::all_of(vec![file_header(), dib_header()]).to_map(vec![
        (Key::FileSize.code(), "FileSize".to_string()),
        (Key::PixelOffset.code(), "PixelOffset".to_string()),
        (Key::DibHeaderSize.code(), "DibHeaderSize".to_string()),
        (Key::WidthInPixels.code(), "WidthInPixels".to_string()),
        (Key::HeightInPixels.code(), "HeightInPixels".to_string()),
    ]);
    let data = pat.parse(&bytes).unwrap();
    assert_eq!(
        data,
        Data::seq(vec![
            Data::seq(vec![Data::Str("FileSize".to_string()), Data::Int(49206)]),
            Data::seq(vec![Data::Str("PixelOffset".to_string()), Data::Int(54)]),
            Data::seq(vec![Data::Str("DibHeaderSize".to_string()), Data::Int(40)]),
            Data::seq(vec![Data::Str("WidthInPixels".to_string()), Data::Int(256)]),
            Data::seq(vec![Data::Str("HeightInPixels".to_string()), Data::Int(64)]),
        ])
    );
}
