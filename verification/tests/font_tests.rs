use mikan_os::bdf::{font_bin, Font8x16};
use mikan_os::font;
use mikan_os::font_writer::{self, get_font};
use mikan_os::frame_buffer_config::PixelFormat;
use mikan_os::pixel_color::PixelColor;
use mikan_os::pixel_writer::PixelWriter;

const GLYPH_A: [u8; 16] = [
    0x00, 0x18, 0x18, 0x18, 0x18, 0x3c, 0x24, 0x24, 0x24, 0x7e, 0x42, 0x42, 0x42, 0xe7, 0x00, 0x00,
];

fn writer() -> PixelWriter {
    PixelWriter {
        pixel_format: PixelFormat::PixelRGBResv8BitPerColor,
        vertical_resolution: 20,
        horizontal_resolution: 10,
        pixels_per_scan_line: 10,
    }
}

fn lit(fb: &[u8], x: usize, y: usize) -> bool {
    let off = (y * 10 + x) * 4;
    fb[off] == 1 && fb[off + 1] == 2 && fb[off + 2] == 3
}

fn check_glyph(fb: &[u8], glyph: &[u8; 16], x0: usize, y0: usize) {
    for y in 0..20 {
        for x in 0..10 {
            let inside = x >= x0 && x < x0 + 8 && y >= y0 && y < y0 + 16;
            let expected = inside && glyph[y - y0] & (0x80 >> (x - x0)) != 0;
            assert_eq!(lit(fb, x, y), expected, "pixel ({}, {})", x, y);
        }
    }
}

#[test]
fn builtin_a_draws_its_bits() {
    let w = writer();
    let aw = font::AsciiWriter { pixel_writer: &w };
    let mut fb = vec![0u8; 10 * 20 * 4];
    aw.write_ascii(&mut fb, 1, 2, 'A', &PixelColor { r: 1, g: 2, b: 3 });
    check_glyph(&fb, &GLYPH_A, 1, 2);
    assert!(fb.chunks(4).all(|p| p[3] == 0));
}

#[test]
fn builtin_other_characters_are_blank() {
    let w = writer();
    let aw = font::AsciiWriter { pixel_writer: &w };
    let mut fb = vec![9u8; 10 * 20 * 4];
    aw.write_ascii(&mut fb, 0, 0, 'B', &PixelColor { r: 1, g: 2, b: 3 });
    // a blank glyph writes nothing, even where it would fall outside the buffer
    aw.write_ascii(&mut fb, 1000, 1000, 'z', &PixelColor { r: 1, g: 2, b: 3 });
    assert!(fb.iter().all(|b| *b == 9));
}

fn sample_fonts() -> Vec<Font8x16> {
    let mut other = [0u8; 16];
    for (i, b) in other.iter_mut().enumerate() {
        *b = i as u8 * 17;
    }
    vec![Font8x16 { bitmap: other }, Font8x16 { bitmap: GLYPH_A }]
}

#[test]
fn font_bin_concatenates_bitmaps() {
    let fonts = sample_fonts();
    let bin = font_bin(&fonts);
    assert_eq!(bin.len(), 32);
    assert_eq!(&bin[16..], &GLYPH_A);
    assert_eq!(bin[1], 17);
}

#[test]
fn get_font_counts_codes_from_one() {
    let bin = font_bin(&sample_fonts());
    assert_eq!(get_font(&bin, 2), &GLYPH_A);
    assert_eq!(get_font(&bin, 1)[15], 255);
}

#[test]
fn font_writer_draws_glyph_of_code() {
    let bin = font_bin(&sample_fonts());
    let w = writer();
    let aw = font_writer::AsciiWriter { pixel_writer: &w, font_bin: &bin };
    let mut fb = vec![0u8; 10 * 20 * 4];
    // char code 2 selects the second glyph
    aw.write(&mut fb, 2, 1, '\u{2}', &PixelColor { r: 1, g: 2, b: 3 });
    check_glyph(&fb, &GLYPH_A, 2, 1);
}

#[test]
fn font_writer_uses_low_byte_of_character() {
    let bin = font_bin(&sample_fonts());
    let w = writer();
    let aw = font_writer::AsciiWriter { pixel_writer: &w, font_bin: &bin };
    let mut fb = vec![0u8; 10 * 20 * 4];
    // U+0102 has low byte 2
    aw.write(&mut fb, 0, 0, '\u{102}', &PixelColor { r: 1, g: 2, b: 3 });
    check_glyph(&fb, &GLYPH_A, 0, 0);
}

#[test]
fn moving_the_origin_moves_the_glyph() {
    let w = writer();
    let aw = font::AsciiWriter { pixel_writer: &w };
    let color = PixelColor { r: 1, g: 2, b: 3 };
    let mut at_origin = vec![0u8; 10 * 20 * 4];
    aw.write_ascii(&mut at_origin, 0, 0, 'A', &color);
    let mut moved = vec![0u8; 10 * 20 * 4];
    aw.write_ascii(&mut moved, 1, 2, 'A', &color);
    for y in 0..16 {
        for x in 0..8 {
            assert_eq!(lit(&at_origin, x, y), lit(&moved, x + 1, y + 2));
        }
    }
}

#[test]
fn both_writers_agree_on_a() {
    let mut fonts: Vec<Font8x16> = (0..65).map(|_| Font8x16 { bitmap: [0x5a; 16] }).collect();
    fonts[64] = Font8x16 { bitmap: GLYPH_A };
    let bin = font_bin(&fonts);
    let w = writer();
    let color = PixelColor { r: 1, g: 2, b: 3 };
    let mut builtin = vec![0u8; 10 * 20 * 4];
    font::AsciiWriter { pixel_writer: &w }.write_ascii(&mut builtin, 2, 3, 'A', &color);
    let mut from_file = vec![0u8; 10 * 20 * 4];
    font_writer::AsciiWriter { pixel_writer: &w, font_bin: &bin }.write(&mut from_file, 2, 3, 'A', &color);
    assert_eq!(builtin, from_file);
}
