//! Encoding a grid of colors as an uncompressed 24-bit bitmap file.

use vstd::prelude::*;
use crate::color::Color;
use crate::framebuffer::lemma_index_in_range;

verus! {

/// The length of the two headers, which is also where the pixel data starts.
pub const BMP_HEADER_SIZE: usize = 54;

pub const BMP_PIXEL_OFFSET: usize = 54;

pub const BMP_BITS_PER_PIXEL: usize = 24;

/// Pixels per metre, the resolution written into every header.
pub const BMP_RESOLUTION: usize = 2835;

/// The low 16 bits of `n`, least significant byte first.
pub open spec fn le16(n: int) -> Seq<u8> {
    seq![(n % 256) as u8, (n / 256 % 256) as u8]
}

/// The low 32 bits of `n`, least significant byte first.
pub open spec fn le32(n: int) -> Seq<u8> {
    seq![
        (n % 256) as u8,
        (n / 256 % 256) as u8,
        (n / 65536 % 256) as u8,
        (n / 16777216 % 256) as u8,
    ]
}

/// The length in bytes of the pixel data of a `width` by `height` image:
/// `height` rows, each with its padding.
pub open spec fn data_size(width: int, height: int) -> int {
    height * row_stride(width)
}

/// The 54 bytes of the file header and the information header: signature,
/// the length of the whole file, reserved, pixel offset; header size 40,
/// width, height, one plane, 24 bits per pixel, no compression, the length of
/// the pixel data, both resolutions, and two zero palette fields.
pub open spec fn bmp_header(width: int, height: int) -> Seq<u8> {
    seq![0x42u8, 0x4Du8] + le32(BMP_HEADER_SIZE + data_size(width, height)) + le32(0) + le32(
        BMP_PIXEL_OFFSET as int,
    ) + le32(40) + le32(width) + le32(height) + le16(1) + le16(BMP_BITS_PER_PIXEL as int) + le32(0)
        + le32(data_size(width, height)) + le32(BMP_RESOLUTION as int) + le32(
        BMP_RESOLUTION as int,
    ) + le32(0) + le32(0)
}

/// The zero bytes that end a row so that its length is a multiple of four.
pub open spec fn row_padding(width: int) -> int {
    (4 - (width * 3 % 4)) % 4
}

/// The length in bytes of one row with its padding.
pub open spec fn row_stride(width: int) -> int {
    width * 3 + row_padding(width)
}

/// Channel `k` of a pixel as it is stored: blue, green, red.
pub open spec fn channel(c: Color, k: int) -> u8 {
    if k == 0 {
        c.b
    } else if k == 1 {
        c.g
    } else {
        c.r
    }
}

/// Byte `i` of the pixel data: rows are stored bottom row first, each row
/// left to right with three bytes per pixel, followed by its padding.
pub open spec fn data_byte(buffer: Seq<Color>, width: int, height: int, i: int) -> u8 {
    let stride = row_stride(width);
    let y = height - 1 - i / stride;
    let offset = i % stride;
    if offset < width * 3 {
        channel(buffer[y * width + offset / 3], offset % 3)
    } else {
        0
    }
}

/// The pixel data of a `width` by `height` image.
pub open spec fn bmp_pixel_data(buffer: Seq<Color>, width: int, height: int) -> Seq<u8> {
    Seq::new((height * row_stride(width)) as nat, |i: int| data_byte(buffer, width, height, i))
}

/// The whole file: the headers, then the pixel data.
pub open spec fn bmp_file(buffer: Seq<Color>, width: int, height: int) -> Seq<u8> {
    bmp_header(width, height) + bmp_pixel_data(buffer, width, height)
}

fn push_le16(out: &mut Vec<u8>, n: usize)
    ensures
        final(out)@ == old(out)@ + le16(n as int),
{
    out.push((n % 256) as u8);
    out.push((n / 256 % 256) as u8);
    assert(out@ =~= old(out)@ + le16(n as int));
}

fn push_le32(out: &mut Vec<u8>, n: usize)
    ensures
        final(out)@ == old(out)@ + le32(n as int),
{
    out.push((n % 256) as u8);
    out.push((n / 256 % 256) as u8);
    out.push((n / 65536 % 256) as u8);
    out.push((n / 16777216 % 256) as u8);
    assert(out@ =~= old(out)@ + le32(n as int));
}

/// The padding of a row, computed without overflow.
fn padding_of(width: usize) -> (padding: usize)
    ensures
        padding == row_padding(width as int),
        padding < 4,
{
    (4 - ((width % 4) * 3 % 4)) % 4
}

/// Appends the two headers of a `width` by `height` image to `out`.
pub fn write_bmp_header(out: &mut Vec<u8>, width: usize, height: usize)
    requires
        BMP_HEADER_SIZE + data_size(width as int, height as int) <= usize::MAX,
    ensures
        final(out)@ == old(out)@ + bmp_header(width as int, height as int),
        final(out)@.len() == old(out)@.len() + BMP_HEADER_SIZE,
{
    let padding: usize = padding_of(width);
    let pixel_data_size: usize = if height == 0 {
        assert(data_size(width as int, 0) == 0) by (nonlinear_arith)
            requires
                data_size(width as int, 0) == 0 * row_stride(width as int),
        ;
        0
    } else {
        assert(row_stride(width as int) <= data_size(width as int, height as int))
            by (nonlinear_arith)
            requires
                data_size(width as int, height as int) == height * row_stride(width as int),
                height >= 1,
                row_stride(width as int) >= 0,
        ;
        assert((width * 3 + padding) * height == data_size(width as int, height as int))
            by (nonlinear_arith)
            requires
                data_size(width as int, height as int) == height * (width * 3 + padding),
        ;
        (width * 3 + padding) * height
    };
    assert(pixel_data_size == data_size(width as int, height as int)) by (nonlinear_arith)
        requires
            height != 0 ==> pixel_data_size == (width * 3 + padding) * height,
            height == 0 ==> pixel_data_size == 0,
            data_size(width as int, height as int) == height * (width * 3 + padding),
    ;
    let file_size: usize = BMP_HEADER_SIZE + pixel_data_size;
    out.push(0x42);
    out.push(0x4D);
    assert(out@ =~= old(out)@ + seq![0x42u8, 0x4Du8]);
    push_le32(out, file_size);
    push_le32(out, 0);
    push_le32(out, BMP_PIXEL_OFFSET);
    push_le32(out, 40);
    push_le32(out, width);
    push_le32(out, height);
    push_le16(out, 1);
    push_le16(out, BMP_BITS_PER_PIXEL);
    push_le32(out, 0);
    push_le32(out, pixel_data_size);
    push_le32(out, BMP_RESOLUTION);
    push_le32(out, BMP_RESOLUTION);
    push_le32(out, 0);
    push_le32(out, 0);
    assert(out@ =~= old(out)@ + bmp_header(width as int, height as int));
}

/// Byte `r` of row `k` of the data is byte `k * stride + r` of the data.
pub proof fn lemma_row_position(k: int, r: int, stride: int)
    requires
        0 <= k,
        0 <= r < stride,
    ensures
        (k * stride + r) / stride == k,
        (k * stride + r) % stride == r,
        0 <= k * stride + r,
{
    vstd::arithmetic::div_mod::lemma_fundamental_div_mod_converse(k * stride + r, stride, k, r);
    assert(0 <= k * stride) by (nonlinear_arith)
        requires
            0 <= k,
            0 <= stride,
    ;
}

/// Appends the pixel data of a `width` by `height` image to `out`. `buffer`
/// holds the image row by row, top row first.
pub fn write_pixel_data(out: &mut Vec<u8>, buffer: &[Color], width: usize, height: usize)
    requires
        width * height <= buffer@.len(),
    ensures
        final(out)@ == old(out)@ + bmp_pixel_data(buffer@, width as int, height as int),
{
    let padding_size: usize = padding_of(width);
    let ghost stride = row_stride(width as int);
    let ghost base = old(out)@.len() as int;
    let mut done: usize = 0;
    while done < height
        invariant
            done <= height,
            width * height <= buffer@.len(),
            padding_size == row_padding(width as int),
            stride == row_stride(width as int),
            base == old(out)@.len(),
            out@.len() == base + done * stride,
            forall|i: int| 0 <= i < base ==> out@[i] == old(out)@[i],
            forall|i: int|
                0 <= i < done * stride ==> out@[base + i] == data_byte(
                    buffer@,
                    width as int,
                    height as int,
                    i,
                ),
        decreases height - done,
    {
        let y: usize = height - 1 - done;
        let mut x: usize = 0;
        assert(0 <= done * stride) by (nonlinear_arith)
            requires
                0 <= done,
                0 <= stride,
        ;
        while x < width
            invariant
                x <= width,
                done < height,
                y == height - 1 - done,
                width * height <= buffer@.len(),
                stride == row_stride(width as int),
                base == old(out)@.len(),
                0 <= done * stride,
                out@.len() == base + done * stride + 3 * x,
                forall|i: int| 0 <= i < base ==> out@[i] == old(out)@[i],
                forall|i: int|
                    0 <= i < done * stride + 3 * x ==> out@[base + i] == data_byte(
                        buffer@,
                        width as int,
                        height as int,
                        i,
                    ),
            decreases width - x,
        {
            proof {
                lemma_index_in_range(width as int, height as int, x as int, y as int);
                assert(buffer.len() == buffer@.len());
                lemma_row_position(done as int, 3 * x, stride);
                lemma_row_position(done as int, 3 * x + 1, stride);
                lemma_row_position(done as int, 3 * x + 2, stride);
            }
            let pixel: Color = buffer[y * width + x];
            out.push(pixel.b);
            out.push(pixel.g);
            out.push(pixel.r);
            x += 1;
        }
        let mut pad: usize = 0;
        while pad < padding_size
            invariant
                pad <= padding_size,
                done < height,
                padding_size == row_padding(width as int),
                stride == row_stride(width as int),
                base == old(out)@.len(),
                0 <= done * stride,
                out@.len() == base + done * stride + 3 * width + pad,
                forall|i: int| 0 <= i < base ==> out@[i] == old(out)@[i],
                forall|i: int|
                    0 <= i < done * stride + 3 * width + pad ==> out@[base + i] == data_byte(
                        buffer@,
                        width as int,
                        height as int,
                        i,
                    ),
            decreases padding_size - pad,
        {
            proof {
                lemma_row_position(done as int, 3 * width + pad, stride);
            }
            out.push(0);
            pad += 1;
        }
        assert((done + 1) * stride == done * stride + stride) by (nonlinear_arith);
        done += 1;
    }
    assert(out@ =~= old(out)@ + bmp_pixel_data(buffer@, width as int, height as int));
}

/// Whether a `width` by `height` image can be encoded from `buffer`: the
/// buffer holds enough pixels, and the length of the file fits in a `usize`.
pub open spec fn encodable(buffer: Seq<Color>, width: int, height: int) -> bool {
    &&& width * height <= buffer.len()
    &&& BMP_HEADER_SIZE + data_size(width, height) <= usize::MAX
}

/// Decides `encodable`.
pub fn can_encode(buffer: &[Color], width: usize, height: usize) -> (ok: bool)
    ensures
        ok == encodable(buffer@, width as int, height as int),
{
    let padding: usize = padding_of(width);
    let wide_w: u128 = width as u128;
    let wide_h: u128 = height as u128;
    assert(wide_w * wide_h <= 0xFFFF_FFFF_FFFF_FFFF * 0xFFFF_FFFF_FFFF_FFFF) by (nonlinear_arith)
        requires
            wide_w <= 0xFFFF_FFFF_FFFF_FFFF,
            wide_h <= 0xFFFF_FFFF_FFFF_FFFF,
    ;
    if wide_w * wide_h > buffer.len() as u128 {
        return false;
    }
    assert((wide_w * 3 + padding) * wide_h == 3 * (wide_w * wide_h) + padding * wide_h
        && padding * wide_h <= 3 * wide_h) by (nonlinear_arith)
        requires
            0 <= padding <= 3,
            0 <= wide_h,
    ;
    let data: u128 = (wide_w * 3 + padding as u128) * wide_h;
    assert(data == data_size(width as int, height as int)) by (nonlinear_arith)
        requires
            data == (wide_w * 3 + padding) * wide_h,
            wide_w == width,
            wide_h == height,
            data_size(width as int, height as int) == height * (width * 3 + padding),
    ;
    data + 54 <= usize::MAX as u128
}

/// Encodes a `width` by `height` image as a bitmap file. `buffer` holds the
/// image row by row, top row first. The file declares its own length, the
/// width and the height, and a reader that follows the declared layout finds
/// every pixel of the image.
pub fn encode_bmp(buffer: &[Color], width: usize, height: usize) -> (file: Vec<u8>)
    requires
        encodable(buffer@, width as int, height as int),
    ensures
        file@ == bmp_file(buffer@, width as int, height as int),
        file@.len() == BMP_HEADER_SIZE + data_size(width as int, height as int),
        width < 0x1_0000_0000 && height < 0x1_0000_0000 ==> {
            &&& declared_width(file@) == width
            &&& declared_height(file@) == height
            &&& read_le32(file@, 10) == BMP_PIXEL_OFFSET
            &&& forall|x: int, y: int|
                0 <= x < width && 0 <= y < height ==> #[trigger] stored_pixel(file@, x, y)
                    == buffer@[y * width + x]
        },
        file@.len() < 0x1_0000_0000 ==> declared_size(file@) == file@.len(),
{
    let mut file: Vec<u8> = Vec::new();
    write_bmp_header(&mut file, width, height);
    write_pixel_data(&mut file, buffer, width, height);
    proof {
        assert(file@ =~= bmp_file(buffer@, width as int, height as int));
        lemma_bmp_length(buffer@, width as int, height as int);
        if width < 0x1_0000_0000 && height < 0x1_0000_0000 {
            lemma_bmp_round_trip(buffer@, width as int, height as int);
        }
    }
    file
}

/// The unsigned 32-bit number stored least significant byte first at `at`.
pub open spec fn read_le32(bytes: Seq<u8>, at: int) -> int {
    bytes[at] as int + 256 * (bytes[at + 1] as int) + 65536 * (bytes[at + 2] as int) + 16777216 * (
    bytes[at + 3] as int)
}

/// The length that a bitmap file declares for itself.
pub open spec fn declared_size(file: Seq<u8>) -> int {
    read_le32(file, 2)
}

/// The width that a bitmap file declares.
pub open spec fn declared_width(file: Seq<u8>) -> int {
    read_le32(file, 18)
}

/// The height that a bitmap file declares.
pub open spec fn declared_height(file: Seq<u8>) -> int {
    read_le32(file, 22)
}

/// The pixel at column `x` of row `y`, row 0 being the top row, read from a
/// bitmap file by its declared layout: rows bottom-up from the declared pixel
/// offset, each row padded to a multiple of four bytes, each pixel stored
/// blue, green, red.
pub open spec fn stored_pixel(file: Seq<u8>, x: int, y: int) -> Color {
    let stride = row_stride(declared_width(file));
    let at = read_le32(file, 10) + (declared_height(file) - 1 - y) * stride + 3 * x;
    Color { r: file[at + 2], g: file[at + 1], b: file[at] }
}

/// Reading back the bytes written for `n` gives `n`, when `n` fits in 32
/// bits.
pub proof fn lemma_le32_round_trip(n: int)
    requires
        0 <= n < 0x1_0000_0000,
    ensures
        read_le32(le32(n), 0) == n,
        le32(n).len() == 4,
{
}

/// An encoded file is as long as its headers and its padded rows together,
/// and where that length fits in 32 bits, it is the length the file declares.
pub proof fn lemma_bmp_length(buffer: Seq<Color>, width: int, height: int)
    requires
        0 <= width,
        0 <= height,
    ensures
        bmp_file(buffer, width, height).len() == BMP_HEADER_SIZE + data_size(width, height),
        bmp_file(buffer, width, height).len() < 0x1_0000_0000 ==> declared_size(
            bmp_file(buffer, width, height),
        ) == bmp_file(buffer, width, height).len(),
{
    let file = bmp_file(buffer, width, height);
    let header = bmp_header(width, height);
    let size = BMP_HEADER_SIZE + data_size(width, height);
    assert(0 <= height * row_stride(width)) by (nonlinear_arith)
        requires
            0 <= height,
            0 <= row_stride(width),
    ;
    assert(header.len() == 54);
    if size < 0x1_0000_0000 {
        lemma_le32_round_trip(size);
        assert(header[2] == le32(size)[0] && header[3] == le32(size)[1] && header[4] == le32(
            size,
        )[2] && header[5] == le32(size)[3]);
        assert forall|i: int| 0 <= i < 54 implies file[i] == header[i] by {}
    }
}

/// Round trip: a file encoded from an image declares the image's width and
/// height, has the length that its layout requires, and stores every pixel
/// of the image where a reader of the format looks for it.
pub proof fn lemma_bmp_round_trip(buffer: Seq<Color>, width: int, height: int)
    requires
        0 <= width < 0x1_0000_0000,
        0 <= height < 0x1_0000_0000,
        width * height <= buffer.len(),
    ensures
        bmp_file(buffer, width, height).len() == BMP_HEADER_SIZE + height * row_stride(width),
        declared_width(bmp_file(buffer, width, height)) == width,
        declared_height(bmp_file(buffer, width, height)) == height,
        read_le32(bmp_file(buffer, width, height), 10) == BMP_PIXEL_OFFSET,
        forall|x: int, y: int|
            0 <= x < width && 0 <= y < height ==> #[trigger] stored_pixel(
                bmp_file(buffer, width, height),
                x,
                y,
            ) == buffer[y * width + x],
{
    let file = bmp_file(buffer, width, height);
    let header = bmp_header(width, height);
    let data = bmp_pixel_data(buffer, width, height);
    let stride = row_stride(width);
    assert(0 <= height * stride) by (nonlinear_arith)
        requires
            0 <= height,
            0 <= stride,
    ;
    assert(header.len() == 54);
    lemma_le32_round_trip(width);
    lemma_le32_round_trip(height);
    assert(header[18] == le32(width)[0] && header[19] == le32(width)[1] && header[20] == le32(
        width,
    )[2] && header[21] == le32(width)[3]);
    assert(header[22] == le32(height)[0] && header[23] == le32(height)[1] && header[24] == le32(
        height,
    )[2] && header[25] == le32(height)[3]);
    assert(header[10] == 54 && header[11] == 0 && header[12] == 0 && header[13] == 0);
    assert forall|i: int| 0 <= i < 54 implies file[i] == header[i] by {}
    assert(declared_width(file) == width);
    assert(declared_height(file) == height);
    assert forall|x: int, y: int| 0 <= x < width && 0 <= y < height implies #[trigger] stored_pixel(
        file,
        x,
        y,
    ) == buffer[y * width + x] by {
        let k = height - 1 - y;
        lemma_row_position(k, 3 * x, stride);
        lemma_row_position(k, 3 * x + 1, stride);
        lemma_row_position(k, 3 * x + 2, stride);
        assert((k + 1) * stride <= height * stride) by (nonlinear_arith)
            requires
                k + 1 <= height,
                0 <= stride,
        ;
        assert((k + 1) * stride == k * stride + stride) by (nonlinear_arith);
        let at = k * stride + 3 * x;
        assert(file[54 + at] == data[at]);
        assert(file[54 + at + 1] == data[at + 1]);
        assert(file[54 + at + 2] == data[at + 2]);
    }
}

} // verus!
