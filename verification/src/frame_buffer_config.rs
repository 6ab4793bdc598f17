use vstd::prelude::*;

verus! {

/// How the three colour bytes of a pixel are laid out in the frame buffer.
/// Every pixel takes four bytes; the fourth is reserved.
#[derive(Clone, Copy, PartialEq, Eq, Structural, Debug)]
pub enum PixelFormat {
    /// Red, green, blue, reserved.
    PixelRGBResv8BitPerColor,
    /// Blue, green, red, reserved.
    PixelBGRResv8BitPerColor,
}

/// What the boot loader learns of the graphics output and hands to the kernel.
pub struct FrameBufferConfig {
    /// Physical address of the first byte of the frame buffer.
    pub frame_buffer: u64,
    /// Size of the frame buffer in bytes.
    pub frame_buffer_size: u64,
    pub horizontal_resolution: u64,
    pub vertical_resolution: u64,
    /// Pixels from the start of one scan line to the start of the next, as the firmware reports it.
    pub pixels_per_scan_line: u64,
    pub pixel_format: PixelFormat,
}

impl FrameBufferConfig {
    /// The length of a scan line derived from the buffer's size: the size divided
    /// by the number of lines. Division by zero is left out.
    pub fn pixels_per_scan_line(&self) -> (r: u64)
        requires
            self.vertical_resolution > 0,
        ensures
            r == self.frame_buffer_size / self.vertical_resolution,
    {
        self.frame_buffer_size / self.vertical_resolution
    }
}

} // verus!
