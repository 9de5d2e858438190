use vstd::prelude::*;

verus! {

/// An RGB colour with one byte per channel. The default colour is black.
#[derive(Clone, Copy, Debug, PartialEq, Eq, Structural)]
pub struct Color {
    pub r: u8,
    pub g: u8,
    pub b: u8,
}

/// Black: the colour of pixels not yet computed and of interior points.
pub open spec fn black() -> Color {
    Color { r: 0, g: 0, b: 0 }
}

impl Default for Color {
    fn default() -> (c: Color)
        ensures
            c == black(),
    {
        Color { r: 0, g: 0, b: 0 }
    }
}

/// `bytes` holds `pixels` as raw RGB: three bytes per pixel, red, green and
/// blue, in pixel order.
pub open spec fn rgb_encodes(bytes: Seq<u8>, pixels: Seq<Color>) -> bool {
    &&& bytes.len() == 3 * pixels.len()
    &&& forall|i: int|
        0 <= i < pixels.len() ==> #[trigger] pixels[i] == (Color {
            r: bytes[3 * i],
            g: bytes[3 * i + 1],
            b: bytes[3 * i + 2],
        })
}

/// Raw RGB decodes back to the colours it was made from: for bytes that
/// encode `pixels`, their length is a multiple of three and `pixels` is the
/// only sequence of colours that they encode.
pub proof fn lemma_rgb_round_trip(bytes: Seq<u8>, pixels: Seq<Color>, other: Seq<Color>)
    requires
        rgb_encodes(bytes, pixels),
    ensures
        bytes.len() % 3 == 0,
        rgb_encodes(bytes, other) ==> other == pixels,
{
    if rgb_encodes(bytes, other) {
        assert(other =~= pixels);
    }
}

/// A coloured pixel at a position of the image.
#[derive(Clone, Copy, Debug, PartialEq, Eq, Structural)]
pub struct Pixel {
    pub color: Color,
    pub x: u32,
    pub y: u32,
}

/// An image held as a list of positioned pixels.
#[derive(Clone, Debug)]
pub struct RayonImage {
    pub pixels: Vec<Pixel>,
}

} // verus!
