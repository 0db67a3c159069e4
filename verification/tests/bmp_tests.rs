use raycaster::bmp::{can_encode, encode_bmp, write_bmp_header, write_pixel_data};
use raycaster::color::Color;

fn le32(bytes: &[u8], at: usize) -> u32 {
    u32::from_le_bytes([bytes[at], bytes[at + 1], bytes[at + 2], bytes[at + 3]])
}

fn le16(bytes: &[u8], at: usize) -> u16 {
    u16::from_le_bytes([bytes[at], bytes[at + 1]])
}

/// Reads a file back by the layout its header declares.
fn parse(file: &[u8]) -> (usize, usize, Vec<Color>) {
    assert_eq!(&file[0..2], b"BM");
    let offset = le32(file, 10) as usize;
    let width = le32(file, 18) as usize;
    let height = le32(file, 22) as usize;
    assert_eq!(le16(file, 28), 24);
    let stride = (width * 3 + 3) / 4 * 4;
    let mut pixels = Vec::new();
    for y in 0..height {
        for x in 0..width {
            let at = offset + (height - 1 - y) * stride + 3 * x;
            pixels.push(Color::new(file[at + 2], file[at + 1], file[at]));
        }
    }
    (width, height, pixels)
}

#[test]
fn header_of_a_two_by_two_image() {
    let mut out = Vec::new();
    write_bmp_header(&mut out, 2, 2);
    let expected: Vec<u8> = vec![
        0x42, 0x4D, // signature
        70, 0, 0, 0, // file size: 54 + 2 rows of 6 + 2 bytes
        0, 0, 0, 0, // reserved
        54, 0, 0, 0, // pixel offset
        40, 0, 0, 0, // information header size
        2, 0, 0, 0, // width
        2, 0, 0, 0, // height
        1, 0, // planes
        24, 0, // bits per pixel
        0, 0, 0, 0, // compression
        16, 0, 0, 0, // length of the pixel data
        0x13, 0x0B, 0, 0, // 2835 pixels per metre
        0x13, 0x0B, 0, 0, //
        0, 0, 0, 0, // palette colors
        0, 0, 0, 0, // important colors
    ];
    assert_eq!(out, expected);
}

#[test]
fn header_is_appended_and_fields_are_little_endian() {
    let mut out = vec![9u8, 9];
    write_bmp_header(&mut out, 800, 600);
    assert_eq!(out.len(), 56);
    assert_eq!(&out[..4], &[9, 9, 0x42, 0x4D]);
    let header = &out[2..];
    assert_eq!(le32(header, 2), 54 + 800 * 600 * 3);
    assert_eq!(le32(header, 6), 0);
    assert_eq!(le32(header, 10), 54);
    assert_eq!(le32(header, 14), 40);
    assert_eq!(le32(header, 18), 800);
    assert_eq!(le32(header, 22), 600);
    assert_eq!(le16(header, 26), 1);
    assert_eq!(le16(header, 28), 24);
    assert_eq!(le32(header, 30), 0);
    assert_eq!(le32(header, 34), 800 * 600 * 3);
    assert_eq!(le32(header, 38), 2835);
    assert_eq!(le32(header, 42), 2835);
    assert_eq!(le32(header, 46), 0);
    assert_eq!(le32(header, 50), 0);
}

#[test]
fn pixel_data_is_bottom_up_bgr_with_padded_rows() {
    let buffer = [
        Color::new(1, 2, 3),
        Color::new(4, 5, 6),
        Color::new(7, 8, 9),
        Color::new(10, 11, 12),
    ];
    let mut out = vec![0xEE];
    write_pixel_data(&mut out, &buffer, 2, 2);
    assert_eq!(
        out,
        vec![0xEE, 9, 8, 7, 12, 11, 10, 0, 0, 3, 2, 1, 6, 5, 4, 0, 0]
    );
}

#[test]
fn row_padding_for_each_width() {
    for (width, padding) in [(0usize, 0usize), (1, 1), (2, 2), (3, 3), (4, 0), (5, 1), (8, 0)] {
        let buffer = vec![Color::new(255, 255, 255); width];
        let mut out = Vec::new();
        write_pixel_data(&mut out, &buffer, width, 1);
        assert_eq!(out.len(), width * 3 + padding);
        assert!(out[..width * 3].iter().all(|&b| b == 255));
        assert!(out[width * 3..].iter().all(|&b| b == 0));
    }
}

#[test]
fn bmp_round_trip_reconstructs_the_pixel_grid() {
    for (width, height) in [(1usize, 1usize), (2, 2), (3, 2), (4, 3), (5, 4), (7, 1), (1, 6)] {
        let buffer: Vec<Color> = (0..width * height)
            .map(|i| Color::new(i as u8, (i * 7 + 1) as u8, (255 - i) as u8))
            .collect();
        let file = encode_bmp(&buffer, width, height);
        let stride = (width * 3 + 3) / 4 * 4;
        assert_eq!(file.len(), 54 + stride * height);
        assert_eq!(parse(&file), (width, height, buffer));
    }
}

#[test]
fn encode_uses_the_first_width_times_height_pixels() {
    let buffer = [Color::new(1, 1, 1), Color::new(2, 2, 2), Color::new(3, 3, 3)];
    let file = encode_bmp(&buffer, 1, 2);
    assert_eq!(&file[54..], &[2, 2, 2, 0, 1, 1, 1, 0]);
}

#[test]
fn file_size_field_counts_the_row_padding() {
    // One pixel per row: 3 bytes and 1 of padding, two rows.
    let mut header = Vec::new();
    write_bmp_header(&mut header, 1, 2);
    assert_eq!(le32(&header, 2), 62);
    assert_eq!(le32(&header, 34), 8);
    let file = encode_bmp(&[Color::new(1, 2, 3), Color::new(4, 5, 6)], 1, 2);
    assert_eq!(file.len(), 62);
    assert_eq!(le32(&file, 2), 62);
}

#[test]
fn file_declares_its_own_length() {
    for (width, height) in [(0usize, 0usize), (1, 1), (2, 3), (3, 3), (4, 2), (5, 7), (17, 2)] {
        let buffer = vec![Color::new(9, 8, 7); width * height];
        let file = encode_bmp(&buffer, width, height);
        assert_eq!(le32(&file, 2) as usize, file.len());
        assert_eq!(le32(&file, 34) as usize, file.len() - 54);
    }
}

#[test]
fn can_encode_needs_enough_pixels_and_a_length_that_fits() {
    let buffer = vec![Color::new(0, 0, 0); 6];
    assert!(can_encode(&buffer, 3, 2));
    assert!(can_encode(&buffer, 2, 3));
    assert!(can_encode(&buffer, 1, 1));
    assert!(can_encode(&buffer, 0, 0));
    assert!(can_encode(&buffer, 6, 1));
    assert!(!can_encode(&buffer, 7, 1));
    assert!(!can_encode(&buffer, 4, 2));
    assert!(!can_encode(&buffer, usize::MAX, 2));
    assert!(!can_encode(&buffer, usize::MAX, usize::MAX));
    assert!(can_encode(&[], 0, 7));
    // Without rows there is no data, however wide the image claims to be.
    assert!(can_encode(&[], 5, 0));
    assert!(can_encode(&[], usize::MAX, 0));
    assert_eq!(encode_bmp(&[], usize::MAX, 0).len(), 54);
}

#[test]
fn empty_image_is_a_bare_header() {
    let file = encode_bmp(&[], 0, 0);
    assert_eq!(file.len(), 54);
    assert_eq!(le32(&file, 2), 54);
    assert_eq!(parse(&file), (0, 0, Vec::new()));
    let file = encode_bmp(&[], 3, 0);
    assert_eq!(file.len(), 54);
    assert_eq!(le32(&file, 18), 3);
}
