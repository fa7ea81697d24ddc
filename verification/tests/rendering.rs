//! The renderer, on known values.

use binpat::render;
use binpat::Endian;
use binpat::Render;
use binpat::Renderable;

#[test]
fn simple() {
    assert_eq!(&render(&Renderable::I32(Endian::Little, 15)), &[15, 0, 0, 0]);
    assert_eq!(&render(&Renderable::I32(Endian::Little, -1)), &[255, 255, 255, 255]);
    assert_eq!(&render(&Renderable::I32(Endian::Little, -2)), &[254, 255, 255, 255]);

    assert_eq!(&render(&Render::be_i16(-2)), &[255, 254]);

    assert_eq!(
        &render(&Renderable::List(vec![
            Renderable::I32(Endian::Little, 0xAABB),
            Render::be_i16(-8),
        ])),
        &[0xBB, 0xAA, 0, 0, 255, 248],
    );
}

#[test]
fn renders_every_leaf() {
    assert_eq!(render(&Renderable::U8(7)), vec![7]);
    assert_eq!(render(&Renderable::U16(Endian::Little, 0x1234)), vec![0x34, 0x12]);
    assert_eq!(render(&Render::be_u16(0x1234)), vec![0x12, 0x34]);
    assert_eq!(render(&Renderable::U32(Endian::Little, 0x12345678)), vec![0x78, 0x56, 0x34, 0x12]);
    assert_eq!(render(&Render::be_u32(0x12345678)), vec![0x12, 0x34, 0x56, 0x78]);
    assert_eq!(
        render(&Renderable::U64(Endian::Little, 0x0102030405060708)),
        vec![8, 7, 6, 5, 4, 3, 2, 1]
    );
    assert_eq!(
        render(&Render::be_u64(0x0102030405060708)),
        vec![1, 2, 3, 4, 5, 6, 7, 8]
    );
    assert_eq!(render(&Renderable::I8(-1)), vec![0xFF]);
    assert_eq!(render(&Renderable::I64(Endian::Little, -1)), vec![0xFF; 8]);
    assert_eq!(render(&Render::be_i64(i64::MIN)), vec![0x80, 0, 0, 0, 0, 0, 0, 0]);
    assert_eq!(render(&Render::be_i32(-2)), vec![0xFF, 0xFF, 0xFF, 0xFE]);
}
