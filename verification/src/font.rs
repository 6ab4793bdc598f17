use vstd::prelude::*;
use crate::pixel_color::PixelColor;
use crate::pixel_writer::{PixelWriter, paint, pixel_index, lemma_paint_union};

verus! {

/// Rows of the 8x16 glyph of 'A', top row first; the most significant bit of
/// a row is its leftmost pixel.
pub open spec fn font_a_glyph() -> Seq<u8> {
    seq![
        0b00000000u8,
        0b00011000u8,
        0b00011000u8,
        0b00011000u8,
        0b00011000u8,
        0b00111100u8,
        0b00100100u8,
        0b00100100u8,
        0b00100100u8,
        0b01111110u8,
        0b01000010u8,
        0b01000010u8,
        0b01000010u8,
        0b11100111u8,
        0b00000000u8,
        0b00000000u8,
    ]
}

/// The built-in glyph of `c`: 'A' has one, every other character is blank.
pub open spec fn builtin_glyph(c: char) -> Seq<u8> {
    if c == 'A' {
        font_a_glyph()
    } else {
        Seq::new(16, |i: int| 0u8)
    }
}

/// Column `dx` (0 is leftmost) of glyph row `row` is set.
pub open spec fn glyph_bit(row: u8, dx: int) -> bool {
    row & (0x80u8 >> (dx as u8)) != 0u8
}

/// The pixels that drawing the 8x16 glyph `glyph` with its top left corner at
/// (`x`, `y`) colours, among the first `n` cells in row order (row `dy`,
/// column `dx` is cell `8 * dy + dx`).
pub open spec fn glyph_pixels_upto(pps: int, glyph: Seq<u8>, x: int, y: int, n: int) -> Set<int> {
    Set::new(
        |p: int|
            exists|dy: int, dx: int|
                0 <= dy < 16 && 0 <= dx < 8 && dy * 8 + dx < n && #[trigger] glyph_bit(glyph[dy], dx) && p
                    == pixel_index(pps, x + dx, y + dy),
    )
}

/// All the pixels that drawing `glyph` at (`x`, `y`) colours.
pub open spec fn glyph_pixels(pps: int, glyph: Seq<u8>, x: int, y: int) -> Set<int> {
    glyph_pixels_upto(pps, glyph, x, y, 128)
}

/// Every pixel that drawing `glyph` at (`x`, `y`) colours can be written.
pub open spec fn glyph_writable(writer: PixelWriter, len: int, glyph: Seq<u8>, x: int, y: int) -> bool {
    forall|dy: int, dx: int|
        0 <= dy < 16 && 0 <= dx < 8 && #[trigger] glyph_bit(glyph[dy], dx) ==> writer.can_write(
            len,
            x + dx,
            y + dy,
        )
}

/// Shifting a row left by `dx` and testing the top bit tests column `dx`.
pub proof fn lemma_shifted_top_bit(row: u8, dx: u32)
    requires
        dx < 8,
    ensures
        (((row << dx) & 0x80u8) != 0u8) == glyph_bit(row, dx as int),
{
    let d = dx as u8;
    assert(d as u32 == dx);
    assert((((row << dx) & 0x80u8) != 0u8) == ((row & (0x80u8 >> d)) != 0u8)) by (bit_vector)
        requires
            dx < 8,
            d as u32 == dx,
    ;
}

/// Columns count from the most significant bit: column `dx` of a row is
/// bit `7 - dx`.
pub proof fn lemma_glyph_bit_order(row: u8, dx: u8)
    requires
        dx < 8,
    ensures
        glyph_bit(row, dx as int) <==> (row >> ((7 - dx) as u8)) & 1u8 == 1u8,
{
    assert(dx as int as u8 == dx);
    let s: u8 = (7 - dx) as u8;
    assert((row & (0x80u8 >> dx) != 0u8) <==> (row >> s) & 1u8 == 1u8) by (bit_vector)
        requires
            dx < 8,
            s == 7 - dx,
    ;
}

/// A blank row has no column set.
pub proof fn lemma_blank_row(dx: int)
    requires
        0 <= dx < 8,
    ensures
        !glyph_bit(0u8, dx),
{
    let d = dx as u8;
    assert(0u8 & (0x80u8 >> d) == 0u8) by (bit_vector);
}

/// Adding cell `n` (row `dy`, column `dx`) to the cells drawn so far adds its
/// pixel where its bit is set, and nothing otherwise.
pub proof fn lemma_glyph_pixels_step(pps: int, glyph: Seq<u8>, x: int, y: int, dy: int, dx: int)
    requires
        0 <= dy < 16,
        0 <= dx < 8,
    ensures
        glyph_pixels_upto(pps, glyph, x, y, dy * 8 + dx + 1) == if glyph_bit(glyph[dy], dx) {
            glyph_pixels_upto(pps, glyph, x, y, dy * 8 + dx).union(set![pixel_index(pps, x + dx, y + dy)])
        } else {
            glyph_pixels_upto(pps, glyph, x, y, dy * 8 + dx)
        },
{
    let n = dy * 8 + dx;
    let before = glyph_pixels_upto(pps, glyph, x, y, n);
    let after = glyph_pixels_upto(pps, glyph, x, y, n + 1);
    let expect = if glyph_bit(glyph[dy], dx) {
        before.union(set![pixel_index(pps, x + dx, y + dy)])
    } else {
        before
    };
    assert forall|p: int| after.contains(p) implies expect.contains(p) by {
        let (ey, ex) = choose|ey: int, ex: int|
            0 <= ey < 16 && 0 <= ex < 8 && ey * 8 + ex < n + 1 && #[trigger] glyph_bit(glyph[ey], ex) && p
                == pixel_index(pps, x + ex, y + ey);
        if ey * 8 + ex < n {
            assert(before.contains(p));
        } else {
            assert(ey == dy && ex == dx);
        }
    }
    assert forall|p: int| expect.contains(p) implies after.contains(p) by {
        if before.contains(p) {
            let (ey, ex) = choose|ey: int, ex: int|
                0 <= ey < 16 && 0 <= ex < 8 && ey * 8 + ex < n && #[trigger] glyph_bit(glyph[ey], ex) && p
                    == pixel_index(pps, x + ex, y + ey);
            assert(glyph_bit(glyph[ey], ex));
        } else {
            assert(glyph_bit(glyph[dy], dx));
        }
    }
    assert(after =~= expect);
}

/// No pixel is among the first zero cells.
pub proof fn lemma_glyph_pixels_none(pps: int, glyph: Seq<u8>, x: int, y: int)
    ensures
        glyph_pixels_upto(pps, glyph, x, y, 0) == Set::<int>::empty(),
{
    assert(glyph_pixels_upto(pps, glyph, x, y, 0) =~= Set::<int>::empty());
}

/// Only 'A' has a built-in glyph: drawing any other character colours no pixel.
pub proof fn lemma_blank_glyph_draws_nothing(pps: int, c: char, x: int, y: int)
    requires
        c != 'A',
    ensures
        glyph_pixels(pps, builtin_glyph(c), x, y) == Set::<int>::empty(),
{
    let g = builtin_glyph(c);
    assert forall|p: int| !glyph_pixels(pps, g, x, y).contains(p) by {
        if glyph_pixels(pps, g, x, y).contains(p) {
            let (dy, dx) = choose|dy: int, dx: int|
                0 <= dy < 16 && 0 <= dx < 8 && dy * 8 + dx < 128 && #[trigger] glyph_bit(g[dy], dx) && p
                    == pixel_index(pps, x + dx, y + dy);
            lemma_blank_row(dx);
        }
    }
    assert(glyph_pixels(pps, g, x, y) =~= Set::<int>::empty());
}

/// Moving the origin moves the glyph: pixel `p` is coloured when drawing at
/// (`x`, `y`) exactly when pixel `p + pps * b + a` is coloured when drawing at
/// (`x + a`, `y + b`).
pub proof fn lemma_glyph_pixels_shift(pps: int, glyph: Seq<u8>, x: int, y: int, a: int, b: int, p: int)
    ensures
        glyph_pixels(pps, glyph, x, y).contains(p) <==> glyph_pixels(pps, glyph, x + a, y + b).contains(
            p + pps * b + a,
        ),
{
    let q = p + pps * b + a;
    if glyph_pixels(pps, glyph, x, y).contains(p) {
        let (dy, dx) = choose|dy: int, dx: int|
            0 <= dy < 16 && 0 <= dx < 8 && dy * 8 + dx < 128 && #[trigger] glyph_bit(glyph[dy], dx) && p
                == pixel_index(pps, x + dx, y + dy);
        assert(pps * (y + b + dy) == pps * (y + dy) + pps * b) by (nonlinear_arith);
        assert(q == pixel_index(pps, x + a + dx, y + b + dy));
    }
    if glyph_pixels(pps, glyph, x + a, y + b).contains(q) {
        let (dy, dx) = choose|dy: int, dx: int|
            0 <= dy < 16 && 0 <= dx < 8 && dy * 8 + dx < 128 && #[trigger] glyph_bit(glyph[dy], dx) && q
                == pixel_index(pps, x + a + dx, y + b + dy);
        assert(pps * (y + b + dy) == pps * (y + dy) + pps * b) by (nonlinear_arith);
        assert(p == pixel_index(pps, x + dx, y + dy));
    }
}

/// Drawing a glyph at an origin moved by (`a`, `b`) colours exactly the
/// pixels that drawing it at the first origin colours, each moved by
/// `pps * b + a`.
pub proof fn lemma_glyph_pixels_moved(pps: int, glyph: Seq<u8>, x: int, y: int, a: int, b: int)
    ensures
        glyph_pixels(pps, glyph, x + a, y + b) == glyph_pixels(pps, glyph, x, y).map(|p: int| p + pps * b + a),
{
    let moved = glyph_pixels(pps, glyph, x, y).map(|p: int| p + pps * b + a);
    let target = glyph_pixels(pps, glyph, x + a, y + b);
    assert forall|q: int| target.contains(q) implies moved.contains(q) by {
        let p = q - pps * b - a;
        lemma_glyph_pixels_shift(pps, glyph, x, y, a, b, p);
        assert(p + pps * b + a == q);
    }
    assert forall|q: int| moved.contains(q) implies target.contains(q) by {
        let p = choose|p: int| glyph_pixels(pps, glyph, x, y).contains(p) && q == p + pps * b + a;
        lemma_glyph_pixels_shift(pps, glyph, x, y, a, b, p);
    }
    assert(target =~= moved);
}

fn font_a() -> (r: [u8; 16])
    ensures
        r@ == font_a_glyph(),
{
    let r: [u8; 16] = [
        0b00000000,
        0b00011000,
        0b00011000,
        0b00011000,
        0b00011000,
        0b00111100,
        0b00100100,
        0b00100100,
        0b00100100,
        0b01111110,
        0b01000010,
        0b01000010,
        0b01000010,
        0b11100111,
        0b00000000,
        0b00000000,
    ];
    assert(r@ =~= font_a_glyph());
    r
}

/// Draws characters from the built-in glyphs.
pub struct AsciiWriter<'a> {
    pub pixel_writer: &'a PixelWriter,
}

impl<'a> AsciiWriter<'a> {
    /// Draws `c` in `color` with the top left corner of its 8x16 cell at
    /// (`x`, `y`): the pixels of its set glyph bits take the colour, all
    /// others stay.
    pub fn write_ascii(&self, frame_buffer: &mut [u8], x: isize, y: isize, c: char, color: &PixelColor)
        requires
            glyph_writable(*self.pixel_writer, old(frame_buffer)@.len() as int, builtin_glyph(c), x as int, y as int),
        ensures
            final(frame_buffer)@ == paint(
                old(frame_buffer)@,
                self.pixel_writer.pixel_format,
                glyph_pixels(self.pixel_writer.pixels_per_scan_line as int, builtin_glyph(c), x as int, y as int),
                *color,
            ),
    {
        let font: [u8; 16] = if c == 'A' {
            font_a()
        } else {
            [0u8; 16]
        };
        let ghost glyph = builtin_glyph(c);
        proof {
            assert(font@ =~= glyph);
        }
        let ghost orig = frame_buffer@;
        let ghost pps = self.pixel_writer.pixels_per_scan_line as int;
        let ghost format = self.pixel_writer.pixel_format;
        proof {
            lemma_glyph_pixels_none(pps, glyph, x as int, y as int);
            crate::pixel_writer::lemma_paint_empty(orig, format, *color);
        }
        let mut dy: usize = 0;
        while dy < 16
            invariant
                0 <= dy <= 16,
                font@ == glyph,
                pps == self.pixel_writer.pixels_per_scan_line as int,
                format == self.pixel_writer.pixel_format,
                orig.len() == frame_buffer@.len(),
                glyph_writable(*self.pixel_writer, orig.len() as int, glyph, x as int, y as int),
                frame_buffer@ == paint(orig, format, glyph_pixels_upto(pps, glyph, x as int, y as int, dy * 8), *color),
            decreases 16 - dy,
        {
            let mut dx: u32 = 0;
            while dx < 8
                invariant
                    0 <= dy < 16,
                    0 <= dx <= 8,
                    font@ == glyph,
                    pps == self.pixel_writer.pixels_per_scan_line as int,
                    format == self.pixel_writer.pixel_format,
                    orig.len() == frame_buffer@.len(),
                    glyph_writable(*self.pixel_writer, orig.len() as int, glyph, x as int, y as int),
                    frame_buffer@ == paint(
                        orig,
                        format,
                        glyph_pixels_upto(pps, glyph, x as int, y as int, dy * 8 + dx),
                        *color,
                    ),
                decreases 8 - dx,
            {
                let row = font[dy];
                proof {
                    lemma_shifted_top_bit(row, dx);
                    lemma_glyph_pixels_step(pps, glyph, x as int, y as int, dy as int, dx as int);
                }
                if ((row << dx) & 0x80) != 0 {
                    proof {
                        assert(glyph_bit(glyph[dy as int], dx as int));
                    }
                    let px: isize = x + dx as isize;
                    let py: isize = y + dy as isize;
                    self.pixel_writer.write(frame_buffer, px, py, color);
                    proof {
                        lemma_paint_union(
                            orig,
                            format,
                            glyph_pixels_upto(pps, glyph, x as int, y as int, dy * 8 + dx),
                            set![pixel_index(pps, x + dx, y + dy)],
                            *color,
                        );
                    }
                }
                dx = dx + 1;
            }
            dy = dy + 1;
        }
    }
}

} // verus!
