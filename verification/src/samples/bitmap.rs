//! A BMP file header format, as a pattern.

use vstd::prelude::*;

use crate::parser::patterns_view;
use crate::parser::Pattern;
use crate::semantics::PatView;

verus! {

/// The scope keys the bitmap patterns store parsed fields under.
pub enum Key {
    FileSize,
    PixelOffset,
    DibHeaderSize,
    WidthInPixels,
    HeightInPixels,
}

/// The integer each key stands for in the scope.
pub open spec fn key_code(k: Key) -> i64 {
    match k {
        Key::FileSize => 0,
        Key::PixelOffset => 1,
        Key::DibHeaderSize => 2,
        Key::WidthInPixels => 3,
        Key::HeightInPixels => 4,
    }
}

impl Key {
    /// This key as a scope key.
    pub fn code(&self) -> (r: i64)
        ensures
            r == key_code(*self),
    {
        match self {
            Key::FileSize => 0,
            Key::PixelOffset => 1,
            Key::DibHeaderSize => 2,
            Key::WidthInPixels => 3,
            Key::HeightInPixels => 4,
        }
    }
}

/// The shape of the BMP file header: the two magic bytes `BM`, the
/// file size, two reserved 16-bit fields and the pixel data offset;
/// file size and pixel offset are stored in the scope.
pub open spec fn file_header_view() -> PatView {
    PatView::AllOf(
        seq![
            PatView::Exact(seq![0x42u8, 0x4du8]),
            PatView::Store(Box::new(PatView::UInt(true, 4)), key_code(Key::FileSize)),
            PatView::UInt(true, 2),
            PatView::UInt(true, 2),
            PatView::Store(Box::new(PatView::UInt(true, 4)), key_code(Key::PixelOffset)),
        ],
    )
}

/// The pattern matching a BMP file header.
pub fn file_header() -> (r: Pattern)
    ensures
        r@ == file_header_view(),
{
    let mut m: Vec<u8> = Vec::new();
    m.push(0x42);
    m.push(0x4d);
    let mut cs: Vec<Pattern> = Vec::new();
    cs.push(Pattern::Exact(m));
    cs.push(Pattern::LeU32.store(Key::FileSize.code()));
    cs.push(Pattern::LeU16);
    cs.push(Pattern::LeU16);
    cs.push(Pattern::LeU32.store(Key::PixelOffset.code()));
    let r = Pattern::AllOf(cs);
    proof {
        crate::parser::lemma_patterns_view(r->AllOf_0@);
        assert(patterns_view(r->AllOf_0@) =~~= file_header_view()->AllOf_0);
        assert(r@ =~~= file_header_view());
    }
    r
}

/// The shape of the BMP DIB header (the 40-byte info header): the
/// header size, width and height — each stored in the scope — then
/// color planes, bits per pixel, compression method, raw image size,
/// the two resolutions, palette size and important-color count.
pub open spec fn dib_header_view() -> PatView {
    PatView::AllOf(
        seq![
            PatView::Store(Box::new(PatView::UInt(true, 4)), key_code(Key::DibHeaderSize)),
            PatView::Store(Box::new(PatView::UInt(true, 4)), key_code(Key::WidthInPixels)),
            PatView::Store(Box::new(PatView::UInt(true, 4)), key_code(Key::HeightInPixels)),
            PatView::UInt(true, 2),
            PatView::UInt(true, 2),
            PatView::UInt(true, 4),
            PatView::UInt(true, 4),
            PatView::UInt(true, 4),
            PatView::UInt(true, 4),
            PatView::UInt(true, 4),
            PatView::UInt(true, 4),
        ],
    )
}

/// The pattern matching a BMP DIB header.
pub fn dib_header() -> (r: Pattern)
    ensures
        r@ == dib_header_view(),
{
    let mut cs: Vec<Pattern> = Vec::new();
    cs.push(Pattern::LeU32.store(Key::DibHeaderSize.code()));
    cs.push(Pattern::LeU32.store(Key::WidthInPixels.code()));
    cs.push(Pattern::LeU32.store(Key::HeightInPixels.code()));
    cs.push(Pattern::LeU16);
    cs.push(Pattern::LeU16);
    cs.push(Pattern::LeU32);
    cs.push(Pattern::LeU32);
    cs.push(Pattern::LeU32);
    cs.push(Pattern::LeU32);
    cs.push(Pattern::LeU32);
    cs.push(Pattern::LeU32);
    let r = Pattern::AllOf(cs);
    proof {
        crate::parser::lemma_patterns_view(r->AllOf_0@);
        assert(patterns_view(r->AllOf_0@) =~~= dib_header_view()->AllOf_0);
        assert(r@ =~~= dib_header_view());
    }
    r
}

} // verus!
