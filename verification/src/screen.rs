use vstd::prelude::*;
use vstd::arithmetic::div_mod::lemma_fundamental_div_mod_converse;

verus! {

/// Width of the frame buffer in pixels.
pub const WIDTH: usize = 800;

/// Height of the frame buffer in pixels.
pub const HEIGHT: usize = 800;

/// Number of pixels in a full frame buffer.
pub const FRAME_LEN: usize = 640000;

/// The index of pixel `(x, y)` in a row-major frame buffer.
pub open spec fn pixel_index(x: int, y: int) -> int {
    y * WIDTH + x
}

/// Gray level `level` (plus the ambient offset of 25) replicated into the
/// red, green and blue bytes of a `0x00RRGGBB` color.
pub open spec fn gray_spec(level: int) -> int {
    (level + 25) * 0x010101
}

/// A gray: for a level whose offset value `level + 25` fits in a byte, the
/// blue, green and red bytes of the color all equal `level + 25` and the top
/// byte is zero.
pub proof fn lemma_gray_bytes(level: int)
    requires
        0 <= level,
        level + 25 <= 255,
    ensures
        gray_spec(level) % 256 == level + 25,
        (gray_spec(level) / 256) % 256 == level + 25,
        (gray_spec(level) / 65536) % 256 == level + 25,
        gray_spec(level) / 16777216 == 0,
        gray_spec(level) == (level + 25) + 256 * (level + 25) + 65536 * (level + 25),
{
    let v = level + 25;
    let c = gray_spec(level);
    assert(c == v + 256 * v + 65536 * v);
    lemma_fundamental_div_mod_converse(c, 256, v + 256 * v, v);
    lemma_fundamental_div_mod_converse(v + 256 * v, 256, v, v);
    lemma_fundamental_div_mod_converse(c, 65536, v, v + 256 * v);
    lemma_fundamental_div_mod_converse(v, 256, 0, v);
    lemma_fundamental_div_mod_converse(c, 16777216, 0, c);
}

/// The color the renderer gives a face lit at intensity `level`: the value
/// `level + 25` repeated in the blue, green and red bytes.
pub fn gray_color(level: u32) -> (color: u32)
    requires
        level + 25 <= 0xff00,
    ensures
        color == gray_spec(level as int),
        color == (level + 25) * 0x010101,
        level + 25 <= 255 ==> color % 256 == level + 25 && (color / 256) % 256 == level + 25 && (
        color / 65536) % 256 == level + 25 && color / 16777216 == 0,
{
    let color = (level + 25) * 0x010101;
    proof {
        if level + 25 <= 255 {
            lemma_gray_bytes(level as int);
        }
    }
    color
}

} // verus!
