use mikan_os::frame_buffer_config::{FrameBufferConfig, PixelFormat};
use mikan_os::pixel_color::PixelColor;
use mikan_os::pixel_writer::PixelWriter;

fn config(size: u64, vres: u64) -> FrameBufferConfig {
    FrameBufferConfig {
        frame_buffer: 0x8000_0000,
        frame_buffer_size: size,
        horizontal_resolution: 800,
        vertical_resolution: vres,
        pixels_per_scan_line: 800,
        pixel_format: PixelFormat::PixelBGRResv8BitPerColor,
    }
}

#[test]
fn pixels_per_scan_line_divides_size_by_lines() {
    assert_eq!(config(800 * 600 * 4, 600).pixels_per_scan_line(), 3200);
    assert_eq!(config(1000, 3).pixels_per_scan_line(), 333);
    assert_eq!(config(0, 7).pixels_per_scan_line(), 0);
}

fn writer(format: PixelFormat, pps: u64) -> PixelWriter {
    PixelWriter {
        pixel_format: format,
        vertical_resolution: 4,
        horizontal_resolution: pps,
        pixels_per_scan_line: pps,
    }
}

#[test]
fn rgb_pixel_bytes_in_order() {
    let w = writer(PixelFormat::PixelRGBResv8BitPerColor, 4);
    let mut fb = vec![7u8; 4 * 4 * 4];
    w.write(&mut fb, 1, 2, &PixelColor { r: 10, g: 20, b: 30 });
    let off = (4 * 2 + 1) * 4;
    assert_eq!(&fb[off..off + 4], &[10, 20, 30, 7]);
    for (k, b) in fb.iter().enumerate() {
        if k < off || k >= off + 3 {
            assert_eq!(*b, 7, "byte {} changed", k);
        }
    }
}

#[test]
fn bgr_pixel_bytes_reversed() {
    let w = writer(PixelFormat::PixelBGRResv8BitPerColor, 4);
    let mut fb = vec![0u8; 64];
    w.write(&mut fb, 0, 0, &PixelColor { r: 1, g: 2, b: 3 });
    assert_eq!(&fb[0..4], &[3, 2, 1, 0]);
    assert!(fb[4..].iter().all(|b| *b == 0));
}

#[test]
fn last_write_to_a_pixel_wins() {
    let w = writer(PixelFormat::PixelRGBResv8BitPerColor, 2);
    let mut fb = vec![0u8; 16];
    w.write(&mut fb, 1, 1, &PixelColor { r: 1, g: 1, b: 1 });
    w.write(&mut fb, 1, 1, &PixelColor { r: 9, g: 8, b: 7 });
    assert_eq!(&fb[12..16], &[9, 8, 7, 0]);
}

#[test]
fn writes_to_different_pixels_commute() {
    let w = writer(PixelFormat::PixelRGBResv8BitPerColor, 2);
    let a = PixelColor { r: 1, g: 2, b: 3 };
    let b = PixelColor { r: 4, g: 5, b: 6 };
    let mut one = vec![0u8; 16];
    w.write(&mut one, 0, 1, &a);
    w.write(&mut one, 1, 0, &b);
    let mut two = vec![0u8; 16];
    w.write(&mut two, 1, 0, &b);
    w.write(&mut two, 0, 1, &a);
    assert_eq!(one, two);
}

#[test]
fn negative_column_reaches_previous_line() {
    let w = writer(PixelFormat::PixelRGBResv8BitPerColor, 4);
    let mut fb = vec![0u8; 64];
    w.write(&mut fb, -1, 1, &PixelColor { r: 5, g: 6, b: 7 });
    assert_eq!(&fb[12..16], &[5, 6, 7, 0]);
}
