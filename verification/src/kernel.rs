use vstd::prelude::*;
use crate::frame_buffer_config::{FrameBufferConfig, PixelFormat};
use crate::pixel_color::PixelColor;
use crate::pixel_writer::{PixelWriter, paint, pixel_index, lemma_paint_union, lemma_paint_empty};
use crate::font::{
    AsciiWriter, builtin_glyph, font_a_glyph, glyph_bit, glyph_pixels, glyph_writable, lemma_blank_glyph_draws_nothing,
    lemma_blank_row,
};

verus! {

/// The pixels of the rectangle of `width` columns and `height` scan lines at
/// the top left corner, among the cells that a column by column walk has
/// reached: all of the first `cols` columns and the first `rows` cells of
/// column `cols`.
pub open spec fn rect_pixels_upto(pps: int, width: int, height: int, cols: int, rows: int) -> Set<int> {
    Set::new(
        |p: int|
            exists|x: int, y: int|
                0 <= x < width && 0 <= y < height && (x < cols || (x == cols && y < rows)) && p
                    == #[trigger] pixel_index(pps, x, y),
    )
}

/// The pixels of the rectangle of `width` columns and `height` scan lines at
/// the top left corner.
pub open spec fn rect_pixels(pps: int, width: int, height: int) -> Set<int> {
    rect_pixels_upto(pps, width, height, width, 0)
}

/// Every pixel of the rectangle of `width` columns and `height` scan lines at
/// the top left corner can be written.
pub open spec fn rect_writable(writer: PixelWriter, len: int, width: int, height: int) -> bool {
    forall|x: int, y: int| 0 <= x < width && 0 <= y < height ==> #[trigger] writer.can_write(len, x, y)
}

proof fn lemma_rect_step(pps: int, width: int, height: int, cols: int, rows: int)
    requires
        0 <= cols < width,
        0 <= rows < height,
    ensures
        rect_pixels_upto(pps, width, height, cols, rows + 1) == rect_pixels_upto(pps, width, height, cols, rows).union(
            set![pixel_index(pps, cols, rows)],
        ),
{
    let a = rect_pixels_upto(pps, width, height, cols, rows + 1);
    let b = rect_pixels_upto(pps, width, height, cols, rows).union(set![pixel_index(pps, cols, rows)]);
    assert forall|p: int| a.contains(p) implies b.contains(p) by {
        let (x, y) = choose|x: int, y: int|
            0 <= x < width && 0 <= y < height && (x < cols || (x == cols && y < rows + 1)) && p
                == #[trigger] pixel_index(pps, x, y);
        if x < cols || y < rows {
            assert(rect_pixels_upto(pps, width, height, cols, rows).contains(p));
        }
    }
    assert forall|p: int| b.contains(p) implies a.contains(p) by {
        if rect_pixels_upto(pps, width, height, cols, rows).contains(p) {
            let (x, y) = choose|x: int, y: int|
                0 <= x < width && 0 <= y < height && (x < cols || (x == cols && y < rows)) && p
                    == #[trigger] pixel_index(pps, x, y);
            assert(p == pixel_index(pps, x, y));
        } else {
            assert(p == pixel_index(pps, cols, rows));
        }
    }
    assert(a =~= b);
}

proof fn lemma_rect_next_column(pps: int, width: int, height: int, cols: int)
    requires
        0 <= height,
    ensures
        rect_pixels_upto(pps, width, height, cols, height) == rect_pixels_upto(pps, width, height, cols + 1, 0),
{
    let a = rect_pixels_upto(pps, width, height, cols, height);
    let b = rect_pixels_upto(pps, width, height, cols + 1, 0);
    assert forall|p: int| a.contains(p) implies b.contains(p) by {
        let (x, y) = choose|x: int, y: int|
            0 <= x < width && 0 <= y < height && (x < cols || (x == cols && y < height)) && p
                == #[trigger] pixel_index(pps, x, y);
        assert(p == pixel_index(pps, x, y));
    }
    assert forall|p: int| b.contains(p) implies a.contains(p) by {
        let (x, y) = choose|x: int, y: int|
            0 <= x < width && 0 <= y < height && (x < cols + 1 || (x == cols + 1 && y < 0)) && p
                == #[trigger] pixel_index(pps, x, y);
        assert(p == pixel_index(pps, x, y));
    }
    assert(a =~= b);
}

/// Paints the rectangle of `width` columns and `height` scan lines at the top
/// left corner, column by column.
fn fill_rect(writer: &PixelWriter, frame_buffer: &mut [u8], width: u64, height: u64, color: &PixelColor)
    requires
        rect_writable(*writer, old(frame_buffer)@.len() as int, width as int, height as int),
    ensures
        final(frame_buffer)@ == paint(
            old(frame_buffer)@,
            writer.pixel_format,
            rect_pixels(writer.pixels_per_scan_line as int, width as int, height as int),
            *color,
        ),
{
    let ghost orig = frame_buffer@;
    let ghost pps = writer.pixels_per_scan_line as int;
    proof {
        assert(rect_pixels_upto(pps, width as int, height as int, 0, 0) =~= Set::<int>::empty());
        lemma_paint_empty(orig, writer.pixel_format, *color);
    }
    let mut i: u64 = 0;
    while i < width
        invariant
            0 <= i <= width,
            pps == writer.pixels_per_scan_line as int,
            orig.len() == frame_buffer@.len(),
            rect_writable(*writer, orig.len() as int, width as int, height as int),
            frame_buffer@ == paint(
                orig,
                writer.pixel_format,
                rect_pixels_upto(pps, width as int, height as int, i as int, 0),
                *color,
            ),
        decreases width - i,
    {
        let mut j: u64 = 0;
        while j < height
            invariant
                0 <= i < width,
                0 <= j <= height,
                pps == writer.pixels_per_scan_line as int,
                orig.len() == frame_buffer@.len(),
                rect_writable(*writer, orig.len() as int, width as int, height as int),
                frame_buffer@ == paint(
                    orig,
                    writer.pixel_format,
                    rect_pixels_upto(pps, width as int, height as int, i as int, j as int),
                    *color,
                ),
            decreases height - j,
        {
            proof {
                assert(writer.can_write(orig.len() as int, i as int, j as int));
                lemma_rect_step(pps, width as int, height as int, i as int, j as int);
                lemma_paint_union(
                    orig,
                    writer.pixel_format,
                    rect_pixels_upto(pps, width as int, height as int, i as int, j as int),
                    set![pixel_index(pps, i as int, j as int)],
                    *color,
                );
            }
            writer.write(frame_buffer, i as isize, j as isize, color);
            j = j + 1;
        }
        proof {
            lemma_rect_next_column(pps, width as int, height as int, i as int);
        }
        i = i + 1;
    }
}

/// The text of the boot screen: the column of each character and the character.
pub open spec fn greeting() -> Seq<(isize, char)> {
    seq![
        (50isize, 'H'),
        (58isize, 'A'),
        (66isize, 'P'),
        (74isize, 'P'),
        (82isize, 'Y'),
        (98isize, 'N'),
        (106isize, 'E'),
        (114isize, 'W'),
        (130isize, 'Y'),
        (138isize, 'E'),
        (146isize, 'A'),
        (154isize, 'R'),
        (170isize, '2'),
        (178isize, '0'),
        (186isize, '2'),
        (194isize, '5'),
    ]
}

/// The scan line at which the boot screen's text starts.
pub const GREETING_ROW: isize = 50;

/// `buf` after drawing the characters of `text` in order, each at its column
/// and scan line `y`, with the built-in glyphs.
pub open spec fn paint_text(
    buf: Seq<u8>,
    format: PixelFormat,
    pps: int,
    text: Seq<(isize, char)>,
    y: int,
    color: PixelColor,
) -> Seq<u8>
    decreases text.len(),
{
    if text.len() == 0 {
        buf
    } else {
        paint(
            paint_text(buf, format, pps, text.drop_last(), y, color),
            format,
            glyph_pixels(pps, builtin_glyph(text.last().1), text.last().0 as int, y),
            color,
        )
    }
}

pub open spec fn white() -> PixelColor {
    PixelColor { r: 255, g: 255, b: 255 }
}

pub open spec fn green() -> PixelColor {
    PixelColor { r: 0, g: 255, b: 0 }
}

pub open spec fn black() -> PixelColor {
    PixelColor { r: 0, g: 0, b: 0 }
}

/// The pixel writer that the kernel builds from the boot loader's description.
pub open spec fn writer_of(config: FrameBufferConfig) -> PixelWriter {
    PixelWriter {
        pixel_format: config.pixel_format,
        vertical_resolution: config.vertical_resolution,
        horizontal_resolution: config.horizontal_resolution,
        pixels_per_scan_line: config.pixels_per_scan_line,
    }
}

/// The boot screen drawn over `buf`: the whole screen white, a green
/// rectangle of 200 columns and 100 scan lines at the top left corner, and
/// the greeting in black on scan line 50.
pub open spec fn boot_screen(buf: Seq<u8>, config: FrameBufferConfig) -> Seq<u8> {
    let format = config.pixel_format;
    let pps = config.pixels_per_scan_line as int;
    let background = paint(
        buf,
        format,
        rect_pixels(pps, config.horizontal_resolution as int, config.vertical_resolution as int),
        white(),
    );
    let panel = paint(background, format, rect_pixels(pps, 200, 100), green());
    paint_text(panel, format, pps, greeting(), GREETING_ROW as int, black())
}

/// The characters of the greeting whose glyph is not blank fit in the green panel.
proof fn lemma_greeting_fits(writer: PixelWriter, len: int, k: int)
    requires
        0 <= k < 16,
        rect_writable(writer, len, 200, 100),
    ensures
        glyph_writable(writer, len, builtin_glyph(greeting()[k].1), greeting()[k].0 as int, GREETING_ROW as int),
{
    let (x, c) = greeting()[k];
    assert(c == 'A' ==> 50 <= x <= 146) by {
        if k == 0 {
        } else if k == 1 {
        } else if k == 2 {
        } else if k == 3 {
        } else if k == 4 {
        } else if k == 5 {
        } else if k == 6 {
        } else if k == 7 {
        } else if k == 8 {
        } else if k == 9 {
        } else if k == 10 {
        } else if k == 11 {
        } else if k == 12 {
        } else if k == 13 {
        } else if k == 14 {
        } else {
        }
    }
    assert forall|dy: int, dx: int|
        0 <= dy < 16 && 0 <= dx < 8 && #[trigger] glyph_bit(builtin_glyph(c)[dy], dx) implies writer.can_write(
        len,
        x + dx,
        GREETING_ROW + dy,
    ) by {
        if c != 'A' {
            lemma_blank_row(dx);
        } else {
            assert(writer.can_write(len, x + dx, GREETING_ROW + dy));
        }
    }
}

/// Draws the boot screen into the frame buffer that `config` describes.
pub fn kernel_main(config: &FrameBufferConfig, frame_buffer: &mut [u8])
    requires
        rect_writable(
            writer_of(*config),
            old(frame_buffer)@.len() as int,
            config.horizontal_resolution as int,
            config.vertical_resolution as int,
        ),
        rect_writable(writer_of(*config), old(frame_buffer)@.len() as int, 200, 100),
    ensures
        final(frame_buffer)@ == boot_screen(old(frame_buffer)@, *config),
{
    let pixel_writer = PixelWriter {
        pixel_format: config.pixel_format,
        vertical_resolution: config.vertical_resolution,
        horizontal_resolution: config.horizontal_resolution,
        pixels_per_scan_line: config.pixels_per_scan_line,
    };
    let ascii_writer = AsciiWriter { pixel_writer: &pixel_writer };
    let ghost orig = frame_buffer@;
    let ghost format = config.pixel_format;
    let ghost pps = config.pixels_per_scan_line as int;

    fill_rect(
        &pixel_writer,
        frame_buffer,
        pixel_writer.horizontal_resolution,
        pixel_writer.vertical_resolution,
        &PixelColor { r: 255, g: 255, b: 255 },
    );
    fill_rect(&pixel_writer, frame_buffer, 200, 100, &PixelColor { r: 0, g: 255, b: 0 });
    let ghost panel = frame_buffer@;

    let text: [(isize, char); 16] = [
        (50, 'H'),
        (58, 'A'),
        (66, 'P'),
        (74, 'P'),
        (82, 'Y'),
        (98, 'N'),
        (106, 'E'),
        (114, 'W'),
        (130, 'Y'),
        (138, 'E'),
        (146, 'A'),
        (154, 'R'),
        (170, '2'),
        (178, '0'),
        (186, '2'),
        (194, '5'),
    ];
    proof {
        assert(text@ =~= greeting());
        assert(greeting().take(0) =~= Seq::<(isize, char)>::empty());
    }
    let black_color = PixelColor { r: 0, g: 0, b: 0 };
    let mut k: usize = 0;
    while k < 16
        invariant
            0 <= k <= 16,
            text@ == greeting(),
            ascii_writer.pixel_writer == writer_of(*config),
            format == config.pixel_format,
            pps == config.pixels_per_scan_line as int,
            black_color == black(),
            frame_buffer@.len() == orig.len(),
            rect_writable(writer_of(*config), orig.len() as int, 200, 100),
            frame_buffer@ == paint_text(panel, format, pps, greeting().take(k as int), GREETING_ROW as int, black()),
        decreases 16 - k,
    {
        let (x, c) = text[k];
        proof {
            lemma_greeting_fits(writer_of(*config), orig.len() as int, k as int);
            assert(greeting().take(k as int + 1).drop_last() =~= greeting().take(k as int));
        }
        ascii_writer.write_ascii(frame_buffer, x, GREETING_ROW, c, &black_color);
        k = k + 1;
    }
    proof {
        assert(greeting().take(16) =~= greeting());
    }
}

/// The pixels that drawing the characters of `text` colours.
pub open spec fn text_pixels(pps: int, text: Seq<(isize, char)>, y: int) -> Set<int>
    decreases text.len(),
{
    if text.len() == 0 {
        Set::empty()
    } else {
        text_pixels(pps, text.drop_last(), y).union(
            glyph_pixels(pps, builtin_glyph(text.last().1), text.last().0 as int, y),
        )
    }
}

/// The pixels that drawing the first `k` characters of `text` colours,
/// counted by position.
spec fn text_pixels_upto(pps: int, text: Seq<(isize, char)>, y: int, k: int) -> Set<int>
    decreases k,
{
    if k <= 0 {
        Set::empty()
    } else {
        text_pixels_upto(pps, text, y, k - 1).union(
            glyph_pixels(pps, builtin_glyph(text[k - 1].1), text[k - 1].0 as int, y),
        )
    }
}

proof fn lemma_text_pixels_upto(pps: int, text: Seq<(isize, char)>, y: int, k: int)
    requires
        0 <= k <= text.len(),
    ensures
        text_pixels(pps, text.take(k), y) == text_pixels_upto(pps, text, y, k),
    decreases k,
{
    if k > 0 {
        lemma_text_pixels_upto(pps, text, y, k - 1);
        assert(text.take(k).drop_last() =~= text.take(k - 1));
    } else {
        assert(text.take(0).len() == 0);
    }
}

/// Drawing text in one colour is one paint of all its characters' pixels.
pub proof fn lemma_paint_text_one_paint(
    buf: Seq<u8>,
    format: PixelFormat,
    pps: int,
    text: Seq<(isize, char)>,
    y: int,
    color: PixelColor,
)
    ensures
        paint_text(buf, format, pps, text, y, color) == paint(buf, format, text_pixels(pps, text, y), color),
    decreases text.len(),
{
    if text.len() == 0 {
        lemma_paint_empty(buf, format, color);
    } else {
        lemma_paint_text_one_paint(buf, format, pps, text.drop_last(), y, color);
        lemma_paint_union(
            buf,
            format,
            text_pixels(pps, text.drop_last(), y),
            glyph_pixels(pps, builtin_glyph(text.last().1), text.last().0 as int, y),
            color,
        );
    }
}

/// The greeting's characters colour exactly the pixels of the two 'A's, at
/// columns 58 and 146 of scan line 50: all its other characters are blank.
pub proof fn lemma_greeting_pixels(pps: int)
    ensures
        text_pixels(pps, greeting(), 50) == glyph_pixels(pps, font_a_glyph(), 58, 50).union(
            glyph_pixels(pps, font_a_glyph(), 146, 50),
        ),
{
    let g = greeting();
    assert(g.take(16) =~= g);
    lemma_text_pixels_upto(pps, g, 50, 16);
    reveal_with_fuel(text_pixels_upto, 17);
    lemma_blank_glyph_draws_nothing(pps, 'H', 50, 50);
    lemma_blank_glyph_draws_nothing(pps, 'P', 66, 50);
    lemma_blank_glyph_draws_nothing(pps, 'P', 74, 50);
    lemma_blank_glyph_draws_nothing(pps, 'Y', 82, 50);
    lemma_blank_glyph_draws_nothing(pps, 'N', 98, 50);
    lemma_blank_glyph_draws_nothing(pps, 'E', 106, 50);
    lemma_blank_glyph_draws_nothing(pps, 'W', 114, 50);
    lemma_blank_glyph_draws_nothing(pps, 'Y', 130, 50);
    lemma_blank_glyph_draws_nothing(pps, 'E', 138, 50);
    lemma_blank_glyph_draws_nothing(pps, 'R', 154, 50);
    lemma_blank_glyph_draws_nothing(pps, '2', 170, 50);
    lemma_blank_glyph_draws_nothing(pps, '0', 178, 50);
    lemma_blank_glyph_draws_nothing(pps, '2', 186, 50);
    lemma_blank_glyph_draws_nothing(pps, '5', 194, 50);
    assert(text_pixels_upto(pps, g, 50, 16) =~= glyph_pixels(pps, font_a_glyph(), 58, 50).union(
        glyph_pixels(pps, font_a_glyph(), 146, 50),
    ));
}

/// The boot screen is the white screen, then the green 200x100 panel, then
/// black exactly on the pixels of an 'A' at column 58 and one at column 146
/// of scan line 50; nothing else of the text shows.
pub proof fn lemma_boot_screen_layout(buf: Seq<u8>, config: FrameBufferConfig)
    ensures
        boot_screen(buf, config) == paint(
            paint(
                paint(
                    buf,
                    config.pixel_format,
                    rect_pixels(
                        config.pixels_per_scan_line as int,
                        config.horizontal_resolution as int,
                        config.vertical_resolution as int,
                    ),
                    PixelColor { r: 255, g: 255, b: 255 },
                ),
                config.pixel_format,
                rect_pixels(config.pixels_per_scan_line as int, 200, 100),
                PixelColor { r: 0, g: 255, b: 0 },
            ),
            config.pixel_format,
            glyph_pixels(config.pixels_per_scan_line as int, font_a_glyph(), 58, 50).union(
                glyph_pixels(config.pixels_per_scan_line as int, font_a_glyph(), 146, 50),
            ),
            PixelColor { r: 0, g: 0, b: 0 },
        ),
{
    let pps = config.pixels_per_scan_line as int;
    let format = config.pixel_format;
    let background = paint(
        buf,
        format,
        rect_pixels(pps, config.horizontal_resolution as int, config.vertical_resolution as int),
        white(),
    );
    let panel = paint(background, format, rect_pixels(pps, 200, 100), green());
    lemma_paint_text_one_paint(panel, format, pps, greeting(), GREETING_ROW as int, black());
    lemma_greeting_pixels(pps);
}

} // verus!
