use vstd::prelude::*;
use crate::frame_buffer_config::PixelFormat;
use crate::pixel_color::PixelColor;

verus! {

/// The byte that a pixel of `color` holds at channel `c` (0, 1 or 2) under `format`.
pub open spec fn channel_byte(format: PixelFormat, color: PixelColor, c: int) -> u8 {
    match format {
        PixelFormat::PixelRGBResv8BitPerColor => if c == 0 {
            color.r
        } else if c == 1 {
            color.g
        } else {
            color.b
        },
        PixelFormat::PixelBGRResv8BitPerColor => if c == 0 {
            color.b
        } else if c == 1 {
            color.g
        } else {
            color.r
        },
    }
}

/// The index of the pixel at column `x` of scan line `y`, counted in pixels
/// from the start of the frame buffer.
pub open spec fn pixel_index(pixels_per_scan_line: int, x: int, y: int) -> int {
    pixels_per_scan_line * y + x
}

/// The frame buffer `buf` after every pixel whose index is in `pixels` has been
/// given `color`: the three colour bytes of such a pixel change, all other bytes
/// (the reserved fourth byte of each pixel among them) stay.
pub open spec fn paint(buf: Seq<u8>, format: PixelFormat, pixels: Set<int>, color: PixelColor) -> Seq<u8> {
    Seq::new(
        buf.len(),
        |k: int|
            if pixels.contains(k / 4) && k % 4 < 3 {
                channel_byte(format, color, k % 4)
            } else {
                buf[k]
            },
    )
}

/// The colour that pixel `p` of `buf` holds under `format`.
pub open spec fn pixel_at(buf: Seq<u8>, format: PixelFormat, p: int) -> PixelColor {
    match format {
        PixelFormat::PixelRGBResv8BitPerColor => PixelColor {
            r: buf[4 * p],
            g: buf[4 * p + 1],
            b: buf[4 * p + 2],
        },
        PixelFormat::PixelBGRResv8BitPerColor => PixelColor {
            r: buf[4 * p + 2],
            g: buf[4 * p + 1],
            b: buf[4 * p],
        },
    }
}

/// Byte `k` belongs to pixel `p` as one of its colour bytes exactly when it
/// lies in `4 * p .. 4 * p + 3`, and then it is colour byte `k - 4 * p`.
pub proof fn lemma_byte_of_pixel(k: int, p: int)
    ensures
        (k / 4 == p && k % 4 < 3) <==> (4 * p <= k < 4 * p + 3),
        k / 4 == p ==> k % 4 == k - 4 * p,
        0 <= k % 4 < 4,
        4 * (k / 4) <= k < 4 * (k / 4) + 4,
{
    assert(k == 4 * (k / 4) + k % 4 && 0 <= k % 4 < 4) by (nonlinear_arith);
}

/// Reading a pixel back after it was painted gives the colour that was painted,
/// whatever the pixel format.
pub proof fn lemma_read_after_paint(buf: Seq<u8>, format: PixelFormat, pixels: Set<int>, color: PixelColor, p: int)
    requires
        pixels.contains(p),
        0 <= p,
        4 * p + 3 <= buf.len(),
    ensures
        pixel_at(paint(buf, format, pixels, color), format, p) == color,
{
    lemma_byte_of_pixel(4 * p, p);
    lemma_byte_of_pixel(4 * p + 1, p);
    lemma_byte_of_pixel(4 * p + 2, p);
}

/// Painting leaves every pixel outside the painted set as it was, and the
/// reserved fourth byte of every pixel as it was.
pub proof fn lemma_paint_frame(buf: Seq<u8>, format: PixelFormat, pixels: Set<int>, color: PixelColor, p: int)
    requires
        0 <= p,
        4 * p + 3 < buf.len(),
    ensures
        paint(buf, format, pixels, color).len() == buf.len(),
        !pixels.contains(p) ==> pixel_at(paint(buf, format, pixels, color), format, p) == pixel_at(buf, format, p),
        paint(buf, format, pixels, color)[4 * p + 3] == buf[4 * p + 3],
{
    lemma_byte_of_pixel(4 * p, p);
    lemma_byte_of_pixel(4 * p + 1, p);
    lemma_byte_of_pixel(4 * p + 2, p);
    lemma_byte_of_pixel(4 * p + 3, p);
}

/// A later paint over a superset of the pixels hides an earlier one: the last
/// write wins.
pub proof fn lemma_paint_overwrite(
    buf: Seq<u8>,
    format: PixelFormat,
    first: Set<int>,
    second: Set<int>,
    c1: PixelColor,
    c2: PixelColor,
)
    requires
        first.subset_of(second),
    ensures
        paint(paint(buf, format, first, c1), format, second, c2) == paint(buf, format, second, c2),
{
    assert(paint(paint(buf, format, first, c1), format, second, c2) =~= paint(buf, format, second, c2));
}

/// Paints of disjoint pixel sets commute.
pub proof fn lemma_paint_commute(
    buf: Seq<u8>,
    format: PixelFormat,
    a: Set<int>,
    b: Set<int>,
    ca: PixelColor,
    cb: PixelColor,
)
    requires
        a.disjoint(b),
    ensures
        paint(paint(buf, format, a, ca), format, b, cb) == paint(paint(buf, format, b, cb), format, a, ca),
{
    assert(paint(paint(buf, format, a, ca), format, b, cb) =~= paint(paint(buf, format, b, cb), format, a, ca));
}

/// Two paints in the same colour are one paint of the union of their pixels.
pub proof fn lemma_paint_union(buf: Seq<u8>, format: PixelFormat, a: Set<int>, b: Set<int>, color: PixelColor)
    ensures
        paint(paint(buf, format, a, color), format, b, color) == paint(buf, format, a.union(b), color),
{
    assert(paint(paint(buf, format, a, color), format, b, color) =~= paint(buf, format, a.union(b), color));
}

/// Painting no pixel changes nothing.
pub proof fn lemma_paint_empty(buf: Seq<u8>, format: PixelFormat, color: PixelColor)
    ensures
        paint(buf, format, Set::empty(), color) == buf,
{
    assert(paint(buf, format, Set::empty(), color) =~= buf);
}

/// Two different pixels never share a byte, so writes to different pixels commute.
pub proof fn lemma_distinct_pixels_commute(
    buf: Seq<u8>,
    format: PixelFormat,
    p: int,
    q: int,
    cp: PixelColor,
    cq: PixelColor,
)
    requires
        p != q,
    ensures
        paint(paint(buf, format, set![p], cp), format, set![q], cq)
            == paint(paint(buf, format, set![q], cq), format, set![p], cp),
{
    lemma_paint_commute(buf, format, set![p], set![q], cp, cq);
}

/// Painting one pixel at column `x` of scan line `y` writes its colour into
/// bytes `4 * (pps * y + x)` to `4 * (pps * y + x) + 2`: red, green, blue for
/// the RGB layout and blue, green, red for the BGR layout. Every other byte
/// keeps its value.
pub proof fn lemma_write_bytes(buf: Seq<u8>, format: PixelFormat, pps: int, x: int, y: int, color: PixelColor)
    requires
        0 <= pps * y + x,
        4 * (pps * y + x) + 3 <= buf.len(),
    ensures
        ({
            let out = paint(buf, format, set![pixel_index(pps, x, y)], color);
            let o = 4 * (pps * y + x);
            &&& out.len() == buf.len()
            &&& format == PixelFormat::PixelRGBResv8BitPerColor ==> out[o] == color.r && out[o + 1] == color.g
                && out[o + 2] == color.b
            &&& format == PixelFormat::PixelBGRResv8BitPerColor ==> out[o] == color.b && out[o + 1] == color.g
                && out[o + 2] == color.r
            &&& forall|k: int| 0 <= k < buf.len() && !(o <= k < o + 3) ==> out[k] == buf[k]
        }),
{
    let p = pps * y + x;
    lemma_byte_of_pixel(4 * p, p);
    lemma_byte_of_pixel(4 * p + 1, p);
    lemma_byte_of_pixel(4 * p + 2, p);
    assert forall|k: int| 0 <= k < buf.len() && !(4 * p <= k < 4 * p + 3) implies paint(
        buf,
        format,
        set![pixel_index(pps, x, y)],
        color,
    )[k] == buf[k] by {
        lemma_byte_of_pixel(k, p);
    }
}

/// The next column is the next pixel, and the next scan line is
/// `pixels_per_scan_line` pixels on; the top left pixel is the first.
pub proof fn lemma_pixel_index_steps(pps: int, x: int, y: int)
    ensures
        pixel_index(pps, 0, 0) == 0,
        pixel_index(pps, x + 1, y) == pixel_index(pps, x, y) + 1,
        pixel_index(pps, x, y + 1) == pixel_index(pps, x, y) + pps,
{
    assert(pps * (y + 1) == pps * y + pps) by (nonlinear_arith);
    assert(pps * 0 == 0) by (nonlinear_arith);
}

/// Writes single pixels into a linear frame buffer of four bytes per pixel.
pub struct PixelWriter {
    pub pixel_format: PixelFormat,
    pub vertical_resolution: u64,
    pub horizontal_resolution: u64,
    pub pixels_per_scan_line: u64,
}

impl PixelWriter {
    /// The pixel at (`x`, `y`) lies wholly inside a frame buffer of `len` bytes,
    /// and its byte offset can be computed in `isize` without overflow.
    pub open spec fn can_write(&self, len: int, x: int, y: int) -> bool {
        let p = pixel_index(self.pixels_per_scan_line as int, x, y);
        &&& isize::MIN <= x <= isize::MAX
        &&& isize::MIN <= y <= isize::MAX
        &&& self.pixels_per_scan_line <= isize::MAX
        &&& isize::MIN <= self.pixels_per_scan_line * y <= isize::MAX
        &&& 0 <= p
        &&& 4 * p + 3 <= len <= isize::MAX
    }

    /// Gives the pixel at column `x` of scan line `y` the colour `color`.
    pub fn write(&self, frame_buffer: &mut [u8], x: isize, y: isize, color: &PixelColor)
        requires
            self.can_write(old(frame_buffer)@.len() as int, x as int, y as int),
        ensures
            final(frame_buffer)@ == paint(
                old(frame_buffer)@,
                self.pixel_format,
                set![pixel_index(self.pixels_per_scan_line as int, x as int, y as int)],
                *color,
            ),
    {
        let ghost p = pixel_index(self.pixels_per_scan_line as int, x as int, y as int);
        let pixel_position = (self.pixels_per_scan_line as isize) * y + x;
        let position = (pixel_position * 4) as usize;
        match self.pixel_format {
            PixelFormat::PixelRGBResv8BitPerColor => {
                frame_buffer[position] = color.r;
                frame_buffer[position + 1] = color.g;
                frame_buffer[position + 2] = color.b;
            },
            PixelFormat::PixelBGRResv8BitPerColor => {
                frame_buffer[position] = color.b;
                frame_buffer[position + 1] = color.g;
                frame_buffer[position + 2] = color.r;
            },
        }
        proof {
            let expect = paint(old(frame_buffer)@, self.pixel_format, set![p], *color);
            assert forall|k: int| 0 <= k < frame_buffer@.len() implies frame_buffer@[k] == expect[k] by {
                lemma_byte_of_pixel(k, p);
            }
            assert(frame_buffer@ =~= expect);
        }
    }
}

} // verus!
