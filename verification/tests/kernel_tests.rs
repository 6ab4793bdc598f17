use mikan_os::frame_buffer_config::{FrameBufferConfig, PixelFormat};
use mikan_os::kernel::kernel_main;

fn pixel(fb: &[u8], pps: usize, x: usize, y: usize) -> [u8; 4] {
    let off = (y * pps + x) * 4;
    [fb[off], fb[off + 1], fb[off + 2], fb[off + 3]]
}

#[test]
fn boot_screen_layout() {
    let (w, h, pps) = (240usize, 120usize, 256usize);
    let config = FrameBufferConfig {
        frame_buffer: 0,
        frame_buffer_size: (pps * h * 4) as u64,
        horizontal_resolution: w as u64,
        vertical_resolution: h as u64,
        pixels_per_scan_line: pps as u64,
        pixel_format: PixelFormat::PixelBGRResv8BitPerColor,
    };
    let mut fb = vec![0x11u8; pps * h * 4];
    kernel_main(&config, &mut fb);
    // outside the panel: white
    assert_eq!(pixel(&fb, pps, 239, 119), [255, 255, 255, 0x11]);
    assert_eq!(pixel(&fb, pps, 200, 0), [255, 255, 255, 0x11]);
    // beyond the visible width but inside the scan line: untouched
    assert_eq!(pixel(&fb, pps, 250, 5), [0x11, 0x11, 0x11, 0x11]);
    // the panel: green
    assert_eq!(pixel(&fb, pps, 0, 0), [0, 255, 0, 0x11]);
    assert_eq!(pixel(&fb, pps, 199, 99), [0, 255, 0, 0x11]);
    // where 'H' would be: blank glyph, stays green
    assert_eq!(pixel(&fb, pps, 53, 52), [0, 255, 0, 0x11]);
    // the 'A' at column 58: row 1 is 0b00011000, so columns 61 and 62 of line 51 are black
    assert_eq!(pixel(&fb, pps, 61, 51), [0, 0, 0, 0x11]);
    assert_eq!(pixel(&fb, pps, 62, 51), [0, 0, 0, 0x11]);
    assert_eq!(pixel(&fb, pps, 60, 51), [0, 255, 0, 0x11]);
    // the second 'A' at column 146: row 13 is 0b11100111
    assert_eq!(pixel(&fb, pps, 146, 63), [0, 0, 0, 0x11]);
    assert_eq!(pixel(&fb, pps, 149, 63), [0, 255, 0, 0x11]);
    assert_eq!(pixel(&fb, pps, 153, 63), [0, 0, 0, 0x11]);
}
