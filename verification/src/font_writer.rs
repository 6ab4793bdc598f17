use vstd::prelude::*;
use crate::pixel_color::PixelColor;
use crate::pixel_writer::{PixelWriter, paint, pixel_index, lemma_paint_union, lemma_paint_empty};
use crate::bdf::{Font8x16, concat_bitmaps, fonts_view};
use crate::font::{builtin_glyph, font_a_glyph, glyph_bit, glyph_pixels, glyph_pixels_upto, glyph_writable, lemma_glyph_pixels_step, lemma_glyph_pixels_none};

verus! {

/// Bytes of one 8x16 glyph in a font file.
pub const BYTES_PER_CHAR: usize = 16;

/// Where the glyph of `char_code` starts in a font file: glyphs are stored in
/// code order starting with code 1.
pub open spec fn glyph_start(char_code: u8) -> int {
    (char_code - 1) * 16
}

/// The font file holds a glyph for `char_code`.
pub open spec fn has_glyph(font_bin: Seq<u8>, char_code: u8) -> bool {
    1 <= char_code && glyph_start(char_code) + 16 <= font_bin.len()
}

/// The glyph of `char_code` in the font file.
pub open spec fn glyph_of(font_bin: Seq<u8>, char_code: u8) -> Seq<u8> {
    font_bin.subrange(glyph_start(char_code), glyph_start(char_code) + 16)
}

/// The code under which a character's glyph is looked up: its low eight bits.
pub open spec fn char_code(c: char) -> u8 {
    #[verifier::truncate] ((c as u32) as u8)
}

/// A character's glyph is looked up under its scalar value modulo 256:
/// `write` of `c` has a glyph exactly when that code is at least 1 and the
/// file holds 16 times as many bytes, and draws the 16 bytes ending there.
pub proof fn lemma_glyph_of_char(font_bin: Seq<u8>, c: char)
    ensures
        char_code(c) as int == (c as u32) % 256,
        has_glyph(font_bin, char_code(c)) <==> 1 <= (c as u32) % 256 && 16 * ((c as u32) % 256) <= font_bin.len(),
        has_glyph(font_bin, char_code(c)) ==> glyph_of(font_bin, char_code(c)) == font_bin.subrange(
            16 * ((c as u32) % 256 - 1),
            16 * ((c as u32) % 256),
        ),
{
    let a = c as u32;
    assert((a as u8) as u32 == a % 256) by (bit_vector);
}

/// Only the low byte of a character selects its glyph: characters whose
/// scalar values agree modulo 256 have the same code, so `AsciiWriter::write`
/// accepts the one where it accepts the other and leaves the same buffer.
pub proof fn lemma_char_code_low_byte(
    c1: char,
    c2: char,
    font_bin: Seq<u8>,
    writer: PixelWriter,
    buf: Seq<u8>,
    x: int,
    y: int,
    color: PixelColor,
)
    requires
        (c1 as u32) % 256 == (c2 as u32) % 256,
    ensures
        char_code(c1) == char_code(c2),
        has_glyph(font_bin, char_code(c1)) == has_glyph(font_bin, char_code(c2)),
        glyph_writable(writer, buf.len() as int, glyph_of(font_bin, char_code(c1)), x, y) == glyph_writable(
            writer,
            buf.len() as int,
            glyph_of(font_bin, char_code(c2)),
            x,
            y,
        ),
        paint(
            buf,
            writer.pixel_format,
            glyph_pixels(writer.pixels_per_scan_line as int, glyph_of(font_bin, char_code(c1)), x, y),
            color,
        ) == paint(
            buf,
            writer.pixel_format,
            glyph_pixels(writer.pixels_per_scan_line as int, glyph_of(font_bin, char_code(c2)), x, y),
            color,
        ),
{
    let a = c1 as u32;
    let b = c2 as u32;
    assert(a % 256 == b % 256 ==> a as u8 == b as u8) by (bit_vector);
}

/// The code of 'A' is 65, and where a font file's glyph 65 is the built-in
/// glyph of 'A', both writers accept 'A' on the same buffers and leave the
/// same buffer.
pub proof fn lemma_writers_agree_on_a(
    font_bin: Seq<u8>,
    writer: PixelWriter,
    buf: Seq<u8>,
    x: int,
    y: int,
    color: PixelColor,
)
    requires
        has_glyph(font_bin, 65),
        glyph_of(font_bin, 65) == font_a_glyph(),
    ensures
        char_code('A') == 65,
        has_glyph(font_bin, char_code('A')),
        glyph_writable(writer, buf.len() as int, glyph_of(font_bin, char_code('A')), x, y) == glyph_writable(
            writer,
            buf.len() as int,
            builtin_glyph('A'),
            x,
            y,
        ),
        paint(
            buf,
            writer.pixel_format,
            glyph_pixels(writer.pixels_per_scan_line as int, glyph_of(font_bin, char_code('A')), x, y),
            color,
        ) == paint(
            buf,
            writer.pixel_format,
            glyph_pixels(writer.pixels_per_scan_line as int, builtin_glyph('A'), x, y),
            color,
        ),
{
    let a = 'A' as u32;
    assert(a == 65);
    assert(a == 65 ==> a as u8 == 65u8) by (bit_vector);
}

/// Returns the 16 bytes of the glyph of `char_code` in `font_bin`. Code 0 and
/// codes past the end of the file are left out.
pub fn get_font(font_bin: &[u8], char_code: u8) -> (r: &[u8])
    requires
        has_glyph(font_bin@, char_code),
    ensures
        r@ == glyph_of(font_bin@, char_code),
{
    let bytes_per_char = BYTES_PER_CHAR;
    let start = (char_code - 1) as usize * bytes_per_char;
    let end = start + bytes_per_char;
    vstd::slice::slice_subrange(font_bin, start, end)
}

/// Testing a row against the mask of column `dx` tests column `dx`.
pub proof fn lemma_mask_bit(row: u8, dx: u32)
    requires
        dx < 8,
    ensures
        ((row & (0x80u8 >> dx)) != 0u8) == glyph_bit(row, dx as int),
{
    let d = dx as u8;
    assert(d as u32 == dx);
    assert(((row & (0x80u8 >> dx)) != 0u8) == ((row & (0x80u8 >> d)) != 0u8)) by (bit_vector)
        requires
            dx < 8,
            d as u32 == dx,
    ;
}

/// Each glyph of a font file made of 16-byte bitmaps sits at 16 times its
/// position.
proof fn lemma_concat_bitmaps(bitmaps: Seq<Seq<u8>>)
    requires
        forall|k: int| 0 <= k < bitmaps.len() ==> (#[trigger] bitmaps[k]).len() == 16,
    ensures
        concat_bitmaps(bitmaps).len() == 16 * bitmaps.len(),
        forall|k: int|
            0 <= k < bitmaps.len() ==> #[trigger] concat_bitmaps(bitmaps).subrange(16 * k, 16 * k + 16)
                == bitmaps[k],
    decreases bitmaps.len(),
{
    if bitmaps.len() > 0 {
        let rest = bitmaps.drop_last();
        assert forall|k: int| 0 <= k < rest.len() implies (#[trigger] rest[k]).len() == 16 by {
            assert(rest[k] == bitmaps[k]);
        }
        lemma_concat_bitmaps(rest);
        let whole = concat_bitmaps(bitmaps);
        let front = concat_bitmaps(rest);
        assert(whole == front + bitmaps.last());
        assert forall|k: int| 0 <= k < bitmaps.len() implies #[trigger] whole.subrange(16 * k, 16 * k + 16)
            == bitmaps[k] by {
            if k < rest.len() {
                assert(whole.subrange(16 * k, 16 * k + 16) =~= front.subrange(16 * k, 16 * k + 16));
                assert(rest[k] == bitmaps[k]);
            } else {
                assert(whole.subrange(16 * k, 16 * k + 16) =~= bitmaps.last());
            }
        }
    }
}

/// A font file written from BDF glyphs gives back, for every code from 1 to
/// the number of glyphs (at most 255), the glyph at that position, counting
/// from 1: what the converter writes is what the kernel reads.
pub proof fn lemma_font_bin_round_trip(fonts: Seq<Font8x16>, char_code: u8)
    requires
        1 <= char_code <= fonts.len(),
    ensures
        has_glyph(concat_bitmaps(fonts_view(fonts)), char_code),
        glyph_of(concat_bitmaps(fonts_view(fonts)), char_code) == fonts[char_code - 1].bitmap@,
{
    let bitmaps = fonts_view(fonts);
    assert forall|k: int| 0 <= k < bitmaps.len() implies (#[trigger] bitmaps[k]).len() == 16 by {}
    lemma_concat_bitmaps(bitmaps);
    let k = char_code - 1;
    assert(glyph_start(char_code) == 16 * k);
    assert(concat_bitmaps(bitmaps).subrange(16 * k, 16 * k + 16) == bitmaps[k]);
}

/// Draws characters from a font file of 8x16 glyphs.
pub struct AsciiWriter<'a> {
    pub pixel_writer: &'a PixelWriter,
    pub font_bin: &'a [u8],
}

impl<'a> AsciiWriter<'a> {
    /// Draws `c` in `color` with the top left corner of its 8x16 cell at
    /// (`x`, `y`), taking its glyph from the font file: the pixels of its set
    /// glyph bits take the colour, all others stay.
    pub fn write(&self, frame_buffer: &mut [u8], x: isize, y: isize, c: char, color: &PixelColor)
        requires
            has_glyph(self.font_bin@, char_code(c)),
            glyph_writable(
                *self.pixel_writer,
                old(frame_buffer)@.len() as int,
                glyph_of(self.font_bin@, char_code(c)),
                x as int,
                y as int,
            ),
        ensures
            final(frame_buffer)@ == paint(
                old(frame_buffer)@,
                self.pixel_writer.pixel_format,
                glyph_pixels(
                    self.pixel_writer.pixels_per_scan_line as int,
                    glyph_of(self.font_bin@, char_code(c)),
                    x as int,
                    y as int,
                ),
                *color,
            ),
    {
        let font = get_font(self.font_bin, #[verifier::truncate] ((c as u32) as u8));
        let ghost glyph = glyph_of(self.font_bin@, char_code(c));
        let ghost orig = frame_buffer@;
        let ghost pps = self.pixel_writer.pixels_per_scan_line as int;
        let ghost format = self.pixel_writer.pixel_format;
        proof {
            lemma_glyph_pixels_none(pps, glyph, x as int, y as int);
            lemma_paint_empty(orig, format, *color);
        }
        let mut dy: usize = 0;
        while dy < 16
            invariant
                0 <= dy <= 16,
                font@ == glyph,
                glyph.len() == 16,
                pps == self.pixel_writer.pixels_per_scan_line as int,
                format == self.pixel_writer.pixel_format,
                orig.len() == frame_buffer@.len(),
                glyph_writable(*self.pixel_writer, orig.len() as int, glyph, x as int, y as int),
                frame_buffer@ == paint(orig, format, glyph_pixels_upto(pps, glyph, x as int, y as int, dy * 8), *color),
            decreases 16 - dy,
        {
            let mut dx: u32 = 0;
            while dx < 8
                invariant
                    0 <= dy < 16,
                    0 <= dx <= 8,
                    font@ == glyph,
                    glyph.len() == 16,
                    pps == self.pixel_writer.pixels_per_scan_line as int,
                    format == self.pixel_writer.pixel_format,
                    orig.len() == frame_buffer@.len(),
                    glyph_writable(*self.pixel_writer, orig.len() as int, glyph, x as int, y as int),
                    frame_buffer@ == paint(
                        orig,
                        format,
                        glyph_pixels_upto(pps, glyph, x as int, y as int, dy * 8 + dx),
                        *color,
                    ),
                decreases 8 - dx,
            {
                let row = font[dy];
                proof {
                    lemma_mask_bit(row, dx);
                    lemma_glyph_pixels_step(pps, glyph, x as int, y as int, dy as int, dx as int);
                }
                if (row & (0x80 >> dx)) == 0 {
                    dx = dx + 1;
                    continue;
                }
                proof {
                    assert(glyph_bit(glyph[dy as int], dx as int));
                }
                let px: isize = x + dx as isize;
                let py: isize = y + dy as isize;
                self.pixel_writer.write(frame_buffer, px, py, color);
                proof {
                    lemma_paint_union(
                        orig,
                        format,
                        glyph_pixels_upto(pps, glyph, x as int, y as int, dy * 8 + dx),
                        set![pixel_index(pps, x + dx, y + dy)],
                        *color,
                    );
                }
                dx = dx + 1;
            }
            dy = dy + 1;
        }
    }
}

} // verus!
