//! Textures: flat arrays of packed colors, sampled with bounds checks.

use vstd::prelude::*;
use crate::color::{packed, Color};

verus! {

/// The texel at column `tx` of row `ty` of a texture that claims to be `tw`
/// by `th`, or nothing when the position is outside those dimensions or
/// beyond the end of the array.
pub open spec fn texel(texture: Seq<u32>, tw: int, th: int, tx: int, ty: int) -> Option<u32> {
    if 0 <= tx < tw && 0 <= ty < th && ty * tw + tx < texture.len() {
        Some(texture[ty * tw + tx])
    } else {
        None
    }
}

/// `a * m / n` rounded down: position `a` of `n` stretched onto `m`.
pub open spec fn stretch(a: int, m: int, n: int) -> int {
    a * m / n
}

/// A position below `n` stretches to a position below `m`.
pub proof fn lemma_stretch_bound(a: int, m: int, n: int)
    requires
        0 <= a < n,
        0 <= m,
    ensures
        0 <= stretch(a, m, n),
        m > 0 ==> stretch(a, m, n) < m,
        m == 0 ==> stretch(a, m, n) == 0,
{
    assert(0 <= a * m / n) by (nonlinear_arith)
        requires
            0 <= a,
            0 <= m,
            0 < n,
    ;
    if m > 0 {
        assert(a * m / n < m) by (nonlinear_arith)
            requires
                0 <= a < n,
                0 < m,
        {
            assert(a * m < n * m);
            assert((a * m / n) * n <= a * m);
        }
    } else {
        assert(a * m == 0) by (nonlinear_arith)
            requires
                m == 0,
        ;
    }
}

/// Computes `stretch(a, m, n)` without overflow.
pub fn stretch_index(a: usize, m: usize, n: usize) -> (r: usize)
    requires
        a < n,
    ensures
        r == stretch(a as int, m as int, n as int),
        m > 0 ==> r < m,
        m == 0 ==> r == 0,
{
    proof {
        lemma_stretch_bound(a as int, m as int, n as int);
    }
    let wide_a: u128 = a as u128;
    let wide_m: u128 = m as u128;
    assert(wide_a * wide_m <= 0xFFFF_FFFF_FFFF_FFFF * 0xFFFF_FFFF_FFFF_FFFF) by (nonlinear_arith)
        requires
            wide_a <= 0xFFFF_FFFF_FFFF_FFFF,
            wide_m <= 0xFFFF_FFFF_FFFF_FFFF,
    ;
    (wide_a * wide_m / (n as u128)) as usize
}

/// Reads the texel at `(tx, ty)`, if there is one.
pub fn sample(texture: &[u32], texture_width: usize, texture_height: usize, tx: usize, ty: usize) -> (t:
    Option<u32>)
    ensures
        t == texel(texture@, texture_width as int, texture_height as int, tx as int, ty as int),
{
    if tx < texture_width && ty < texture_height {
        assert(ty * texture_width + tx < 0x1_0000_0000_0000_0000 * 0x1_0000_0000_0000_0000)
            by (nonlinear_arith)
            requires
                ty < 0x1_0000_0000_0000_0000,
                tx < texture_width <= 0x1_0000_0000_0000_0000,
        ;
        let index: u128 = (ty as u128) * (texture_width as u128) + (tx as u128);
        if index < texture.len() as u128 {
            return Some(texture[index as usize]);
        }
    }
    None
}

/// A decoded image of the `image` crate, whatever its pixel format.
#[verifier::external_type_specification]
#[verifier::external_body]
pub struct ExDynamicImage(image::DynamicImage);

/// The width and the height of a decoded image.
pub uninterp spec fn image_dimensions(img: image::DynamicImage) -> (nat, nat);

/// The red, green and blue channels of every pixel of a decoded image, as
/// the image presents them in 8 bits, row by row from the top.
pub uninterp spec fn image_pixels(img: image::DynamicImage) -> Seq<(u8, u8, u8)>;

/// `GenericImageView::dimensions` of `image`, for a `DynamicImage`: the
/// width and the height, in that order. An image has one pixel for every
/// column of every row.
#[verifier::external_body]
fn dimensions_of(img: &image::DynamicImage) -> (dims: (u32, u32))
    ensures
        (dims.0 as nat, dims.1 as nat) == image_dimensions(*img),
        image_pixels(*img).len() == dims.0 * dims.1,
{
    image::GenericImageView::dimensions(img)
}

/// `GenericImageView::get_pixel` of `image`, for a `DynamicImage`: the first
/// three channels of the RGBA pixel at column `x` of row `y`. The call panics
/// outside the image's dimensions, so those positions are excluded.
#[verifier::external_body]
fn pixel_of_image(img: &image::DynamicImage, x: u32, y: u32) -> (rgb: (u8, u8, u8))
    requires
        x < image_dimensions(*img).0,
        y < image_dimensions(*img).1,
    ensures
        rgb == image_pixels(*img)[y * image_dimensions(*img).0 + x],
{
    let pixel = image::GenericImageView::get_pixel(img, x, y);
    (pixel[0], pixel[1], pixel[2])
}

/// The packed color `0xRRGGBB` of three channels.
pub open spec fn packed_rgb(rgb: (u8, u8, u8)) -> u32 {
    packed(rgb.0, rgb.1, rgb.2)
}

/// Turns a decoded image into a texture: its pixels row by row, top row
/// first, each packed as `0xRRGGBB`.
pub fn load_texture(img: &image::DynamicImage) -> (texture: Vec<u32>)
    ensures
        texture@.len() == image_pixels(*img).len(),
        texture@.len() == image_dimensions(*img).0 * image_dimensions(*img).1,
        forall|i: int|
            0 <= i < texture@.len() ==> #[trigger] texture@[i] == packed_rgb(image_pixels(*img)[i]),
{
    let (width, height) = dimensions_of(img);
    let mut texture: Vec<u32> = Vec::new();
    let mut y: u32 = 0;
    while y < height
        invariant
            y <= height,
            (width as nat, height as nat) == image_dimensions(*img),
            texture@.len() == y * width,
            forall|i: int|
                0 <= i < texture@.len() ==> #[trigger] texture@[i] == packed_rgb(
                    image_pixels(*img)[i],
                ),
        decreases height - y,
    {
        let mut x: u32 = 0;
        while x < width
            invariant
                x <= width,
                y < height,
                (width as nat, height as nat) == image_dimensions(*img),
                texture@.len() == y * width + x,
                forall|i: int|
                    0 <= i < texture@.len() ==> #[trigger] texture@[i] == packed_rgb(
                        image_pixels(*img)[i],
                    ),
            decreases width - x,
        {
            let (r, g, b) = pixel_of_image(img, x, y);
            let color: u32 = Color::new(r, g, b).to_hex();
            texture.push(color);
            x += 1;
        }
        assert((y + 1) * width == y * width + width) by (nonlinear_arith);
        y += 1;
    }
    assert(height * width == width * height) by (nonlinear_arith);
    texture
}

} // verus!
