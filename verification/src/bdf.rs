use vstd::prelude::*;
use vstd::utf8::{valid_utf8, valid_first_scalar, length_of_first_scalar, decode_first_codepoint, pop_first_scalar};

verus! {

/// Byte of a line feed.
pub const LF: u8 = 10;

/// Byte of a carriage return.
pub const CR: u8 = 13;

/// Byte of a plus sign.
pub const PLUS: u8 = 43;

// ---------------------------------------------------------------------------
// Lines

/// The index of the first line feed at or after `start`, or the text's length
/// where there is none.
pub open spec fn next_line_feed(text: Seq<u8>, start: int) -> int
    decreases text.len() - start,
{
    if start >= text.len() {
        text.len() as int
    } else if text[start] == LF {
        start
    } else {
        next_line_feed(text, start + 1)
    }
}

/// A line that ended in a line feed loses a carriage return before it.
pub open spec fn strip_cr(line: Seq<u8>) -> Seq<u8> {
    if line.len() > 0 && line.last() == CR {
        line.drop_last()
    } else {
        line
    }
}

/// The lines of `text` from byte `start` on, as a buffered reader yields
/// them: split at line feeds, without the line feed and a carriage return
/// just before it; a last line without a line feed is kept as it is, and no
/// empty line follows a final line feed.
pub open spec fn lines_from(text: Seq<u8>, start: int) -> Seq<Seq<u8>>
    decreases text.len() - start,
{
    if start < 0 || start >= text.len() {
        Seq::empty()
    } else {
        let e = next_line_feed(text, start);
        if e < text.len() {
            proof {
                lemma_next_line_feed(text, start);
            }
            seq![strip_cr(text.subrange(start, e))] + lines_from(text, e + 1)
        } else {
            seq![text.subrange(start, text.len() as int)]
        }
    }
}

/// The lines of `text`.
pub open spec fn text_lines(text: Seq<u8>) -> Seq<Seq<u8>> {
    lines_from(text, 0)
}

/// The bytes of `text` that a line range covers.
pub open spec fn range_bytes(text: Seq<u8>, r: (usize, usize)) -> Seq<u8> {
    text.subrange(r.0 as int, r.1 as int)
}

/// The next line feed is at or after `start`, and no line feed lies before it.
pub proof fn lemma_next_line_feed(text: Seq<u8>, start: int)
    requires
        0 <= start <= text.len(),
    ensures
        start <= next_line_feed(text, start) <= text.len(),
        next_line_feed(text, start) < text.len() ==> text[next_line_feed(text, start)] == LF,
        forall|i: int| start <= i < next_line_feed(text, start) ==> text[i] != LF,
    decreases text.len() - start,
{
    if start < text.len() && text[start] != LF {
        lemma_next_line_feed(text, start + 1);
    }
}

/// The next line feed at or after `start` is at `e` where `e` is a line feed (or the end) with none before it.
pub proof fn lemma_next_line_feed_at(text: Seq<u8>, start: int, e: int)
    requires
        0 <= start <= e <= text.len(),
        e < text.len() ==> text[e] == LF,
        forall|i: int| start <= i < e ==> text[i] != LF,
    ensures
        next_line_feed(text, start) == e,
    decreases e - start,
{
    if start < e {
        lemma_next_line_feed_at(text, start + 1, e);
    }
}

/// Splits `text` into lines, as byte ranges.
pub fn split_lines(text: &[u8]) -> (r: Vec<(usize, usize)>)
    ensures
        r@.map_values(|rg: (usize, usize)| range_bytes(text@, rg)) == text_lines(text@),
        forall|i: int| 0 <= i < r@.len() ==> (#[trigger] r@[i]).0 <= r@[i].1 <= text@.len(),
{
    let mut ranges: Vec<(usize, usize)> = Vec::new();
    let mut start: usize = 0;
    let n = text.len();
    while start < n
        invariant
            n == text@.len(),
            0 <= start <= n,
            ranges@.map_values(|rg: (usize, usize)| range_bytes(text@, rg)) + lines_from(text@, start as int)
                == text_lines(text@),
            forall|i: int| 0 <= i < ranges@.len() ==> (#[trigger] ranges@[i]).0 <= ranges@[i].1 <= text@.len(),
        decreases n - start,
    {
        let mut e = start;
        while e < n && text[e] != LF
            invariant
                n == text@.len(),
                start <= e <= n,
                forall|i: int| start <= i < e ==> text@[i] != LF,
            decreases n - e,
        {
            e = e + 1;
        }
        proof {
            lemma_next_line_feed_at(text@, start as int, e as int);
        }
        let ghost old_ranges = ranges@;
        if e < n {
            let mut end = e;
            if e > start && text[e - 1] == CR {
                end = e - 1;
            }
            ranges.push((start, end));
            proof {
                let line = text@.subrange(start as int, e as int);
                assert(range_bytes(text@, (start, end)) =~= strip_cr(line));
                assert(ranges@.map_values(|rg: (usize, usize)| range_bytes(text@, rg)) =~= old_ranges.map_values(
                    |rg: (usize, usize)| range_bytes(text@, rg),
                ).push(strip_cr(line)));
                assert(lines_from(text@, start as int) =~= seq![strip_cr(line)] + lines_from(text@, e + 1));
            }
            start = e + 1;
        } else {
            ranges.push((start, n));
            proof {
                assert(ranges@.map_values(|rg: (usize, usize)| range_bytes(text@, rg)) =~= old_ranges.map_values(
                    |rg: (usize, usize)| range_bytes(text@, rg),
                ).push(text@.subrange(start as int, n as int)));
                assert(lines_from(text@, n as int) =~= Seq::<Seq<u8>>::empty());
            }
            start = n;
        }
    }
    proof {
        assert(lines_from(text@, start as int) =~= Seq::<Seq<u8>>::empty());
    }
    ranges
}

// ---------------------------------------------------------------------------
// UTF-8

/// Whether `text[i..end]` starts with the UTF-8 encoding of one scalar value,
/// and if so how many bytes that encoding takes.
fn first_scalar_len(text: &[u8], i: usize, end: usize) -> (r: Option<usize>)
    requires
        i < end <= text@.len(),
    ensures
        match r {
            Some(n) => valid_first_scalar(text@.subrange(i as int, end as int)) && n == length_of_first_scalar(
                text@.subrange(i as int, end as int),
            ),
            None => !valid_first_scalar(text@.subrange(i as int, end as int)),
        },
{
    let ghost s = text@.subrange(i as int, end as int);
    let rem = end - i;
    let b0 = text[i];
    assert(s[0] == b0);
    if b0 <= 0x7f {
        return Some(1);
    }
    if b0 < 0xc0 || b0 > 0xf7 {
        return None;
    }
    if rem < 2 {
        return None;
    }
    let b1 = text[i + 1];
    assert(s[1] == b1);
    if b1 < 0x80 || b1 > 0xbf {
        return None;
    }
    if b0 <= 0xdf {
        let cp: u32 = (((b0 & 0x1F) as u32) << 6) | ((b1 & 0x3f) as u32);
        assert(cp == decode_first_codepoint(s));
        if cp < 0x80 {
            return None;
        }
        assert(cp <= 0x7ff) by (bit_vector)
            requires
                cp == (((b0 & 0x1F) as u32) << 6) | ((b1 & 0x3f) as u32),
        ;
        return Some(2);
    }
    if rem < 3 {
        return None;
    }
    let b2 = text[i + 2];
    assert(s[2] == b2);
    if b2 < 0x80 || b2 > 0xbf {
        return None;
    }
    if b0 <= 0xef {
        let cp: u32 = (((b0 & 0x0F) as u32) << 12) | (((b1 & 0x3f) as u32) << 6) | ((b2 & 0x3f) as u32);
        assert(cp == decode_first_codepoint(s));
        if cp < 0x800 || (0xD800 <= cp && cp <= 0xDFFF) {
            return None;
        }
        return Some(3);
    }
    if rem < 4 {
        return None;
    }
    let b3 = text[i + 3];
    assert(s[3] == b3);
    if b3 < 0x80 || b3 > 0xbf {
        return None;
    }
    let cp: u32 = (((b0 & 0x07) as u32) << 18) | (((b1 & 0x3f) as u32) << 12) | (((b2 & 0x3f) as u32) << 6) | ((
    b3 & 0x3f) as u32);
    assert(cp == decode_first_codepoint(s));
    if cp < 0x10000 || cp > 0x10ffff {
        return None;
    }
    assert(!(0xD800 <= cp && cp <= 0xDFFF));
    Some(4)
}

/// Whether `text[start..end]` is valid UTF-8.
pub fn range_is_utf8(text: &[u8], start: usize, end: usize) -> (r: bool)
    requires
        start <= end <= text@.len(),
    ensures
        r == valid_utf8(text@.subrange(start as int, end as int)),
{
    let mut i = start;
    while i < end
        invariant
            start <= i <= end <= text@.len(),
            valid_utf8(text@.subrange(start as int, end as int)) == valid_utf8(text@.subrange(i as int, end as int)),
        decreases end - i,
    {
        let ghost s = text@.subrange(i as int, end as int);
        match first_scalar_len(text, i, end) {
            None => {
                return false;
            },
            Some(n) => {
                assert(pop_first_scalar(s) =~= text@.subrange(i + n, end as int));
                i = i + n;
            },
        }
    }
    assert(text@.subrange(i as int, end as int).len() == 0);
    true
}

// ---------------------------------------------------------------------------
// Hexadecimal bytes

/// The value of a hexadecimal digit, in either case.
pub open spec fn hex_digit(b: u8) -> Option<int> {
    if 48 <= b <= 57 {
        Some(b - 48)
    } else if 97 <= b <= 102 {
        Some(b - 87)
    } else if 65 <= b <= 70 {
        Some(b - 55)
    } else {
        None
    }
}

pub open spec fn all_hex_digits(ds: Seq<u8>) -> bool {
    forall|i: int| 0 <= i < ds.len() ==> #[trigger] hex_digit(ds[i]) is Some
}

/// The value of a string of hexadecimal digits.
pub open spec fn hex_value(ds: Seq<u8>) -> int
    decreases ds.len(),
{
    if ds.len() == 0 {
        0
    } else {
        hex_value(ds.drop_last()) * 16 + match hex_digit(ds.last()) {
            Some(v) => v,
            None => 0,
        }
    }
}

/// What `u8::from_str_radix(s, 16)` accepts: an optional plus sign, then at
/// least one hexadecimal digit, of value at most 255.
pub open spec fn hex_u8(s: Seq<u8>) -> Option<u8> {
    let ds = if s.len() > 0 && s[0] == PLUS {
        s.drop_first()
    } else {
        s
    };
    if ds.len() > 0 && all_hex_digits(ds) && hex_value(ds) <= 255 {
        Some(hex_value(ds) as u8)
    } else {
        None
    }
}

/// More digits never make a value smaller.
proof fn lemma_hex_value_grows(ds: Seq<u8>, i: int, j: int)
    requires
        0 <= i <= j <= ds.len(),
        all_hex_digits(ds),
    ensures
        0 <= hex_value(ds.take(i)) <= hex_value(ds.take(j)),
    decreases j - i,
{
    if i < j {
        lemma_hex_value_grows(ds, i, j - 1);
        assert(ds.take(j).drop_last() =~= ds.take(j - 1));
        assert(hex_digit(ds[j - 1]) is Some);
    } else {
        lemma_hex_value_nonneg(ds.take(i));
    }
}

proof fn lemma_hex_value_nonneg(ds: Seq<u8>)
    ensures
        hex_value(ds) >= 0,
    decreases ds.len(),
{
    if ds.len() > 0 {
        lemma_hex_value_nonneg(ds.drop_last());
    }
}

fn hex_digit_exec(b: u8) -> (r: Option<u8>)
    ensures
        match hex_digit(b) {
            Some(v) => r == Some(v as u8),
            None => r is None,
        },
{
    if b >= 48 && b <= 57 {
        Some(b - 48)
    } else if b >= 97 && b <= 102 {
        Some(b - 87)
    } else if b >= 65 && b <= 70 {
        Some(b - 55)
    } else {
        None
    }
}

/// Reads the bytes `text[start..end]` as `u8::from_str_radix(.., 16)` does.
pub fn parse_hex_u8(text: &[u8], start: usize, end: usize) -> (r: Option<u8>)
    requires
        start <= end <= text@.len(),
    ensures
        r == hex_u8(text@.subrange(start as int, end as int)),
{
    let ghost s = text@.subrange(start as int, end as int);
    let mut i = start;
    if i < end && text[i] == PLUS {
        i = i + 1;
    }
    let ghost ds = text@.subrange(i as int, end as int);
    proof {
        if s.len() > 0 && s[0] == PLUS {
            assert(ds =~= s.drop_first());
        } else {
            assert(ds =~= s);
        }
    }
    if i == end {
        return None;
    }
    let first = i;
    let mut acc: u32 = 0;
    while i < end
        invariant
            start <= first <= i <= end <= text@.len(),
            ds == text@.subrange(first as int, end as int),
            s == text@.subrange(start as int, end as int),
            ds == (if s.len() > 0 && s[0] == PLUS {
                s.drop_first()
            } else {
                s
            }),
            ds.len() > 0,
            all_hex_digits(ds.take(i - first)),
            acc == hex_value(ds.take(i - first)),
            acc <= 255,
        decreases end - i,
    {
        let d = hex_digit_exec(text[i]);
        let ghost k = i - first;
        proof {
            assert(ds[k] == text@[i as int]);
            assert(ds.take(k + 1).drop_last() =~= ds.take(k));
        }
        match d {
            None => {
                proof {
                    assert(hex_digit(ds[k]) is None);
                }
                return None;
            },
            Some(v) => {
                acc = acc * 16 + v as u32;
                proof {
                    assert forall|j: int| 0 <= j < k + 1 implies #[trigger] hex_digit(ds.take(k + 1)[j]) is Some by {
                        if j < k {
                            assert(ds.take(k + 1)[j] == ds.take(k)[j]);
                        }
                    }
                }
                proof {
                    assert(ds.take(k + 1).last() == ds[k]);
                }
                if acc > 255 {
                    proof {
                        if all_hex_digits(ds) {
                            lemma_hex_value_grows(ds, k + 1, ds.len() as int);
                            assert(ds.take(ds.len() as int) =~= ds);
                        }
                    }
                    return None;
                }
            },
        }
        i = i + 1;
    }
    proof {
        assert(ds.take(ds.len() as int) =~= ds);
    }
    Some(acc as u8)
}

// ---------------------------------------------------------------------------
// BDF fonts

/// `STARTCHAR`, which opens a character.
pub open spec fn kw_startchar() -> Seq<u8> {
    seq![83u8, 84u8, 65u8, 82u8, 84u8, 67u8, 72u8, 65u8, 82u8]
}

/// `ENDCHAR`, which closes a character.
pub open spec fn kw_endchar() -> Seq<u8> {
    seq![69u8, 78u8, 68u8, 67u8, 72u8, 65u8, 82u8]
}

/// `BITMAP`, which the rows of a glyph follow.
pub open spec fn kw_bitmap() -> Seq<u8> {
    seq![66u8, 73u8, 84u8, 77u8, 65u8, 80u8]
}

fn startchar() -> (r: [u8; 9])
    ensures
        r@ == kw_startchar(),
{
    let r: [u8; 9] = [83, 84, 65, 82, 84, 67, 72, 65, 82];
    assert(r@ =~= kw_startchar());
    r
}

fn endchar() -> (r: [u8; 7])
    ensures
        r@ == kw_endchar(),
{
    let r: [u8; 7] = [69, 78, 68, 67, 72, 65, 82];
    assert(r@ =~= kw_endchar());
    r
}

fn bitmap_keyword() -> (r: [u8; 6])
    ensures
        r@ == kw_bitmap(),
{
    let r: [u8; 6] = [66, 73, 84, 77, 65, 80];
    assert(r@ =~= kw_bitmap());
    r
}

pub open spec fn starts_with(line: Seq<u8>, prefix: Seq<u8>) -> bool {
    prefix.len() <= line.len() && line.subrange(0, prefix.len() as int) == prefix
}

/// Whether `text[start..end]` starts with `prefix`.
fn range_starts_with(text: &[u8], start: usize, end: usize, prefix: &[u8]) -> (r: bool)
    requires
        start <= end <= text@.len(),
    ensures
        r == starts_with(text@.subrange(start as int, end as int), prefix@),
{
    let ghost line = text@.subrange(start as int, end as int);
    if prefix.len() > end - start {
        return false;
    }
    let mut k: usize = 0;
    while k < prefix.len()
        invariant
            start <= end <= text@.len(),
            line == text@.subrange(start as int, end as int),
            prefix@.len() <= end - start,
            0 <= k <= prefix@.len(),
            forall|j: int| 0 <= j < k ==> line[j] == prefix@[j],
        decreases prefix@.len() - k,
    {
        if text[start + k] != prefix[k] {
            proof {
                assert(line.subrange(0, prefix@.len() as int)[k as int] != prefix@[k as int]);
            }
            return false;
        }
        k = k + 1;
    }
    assert(line.subrange(0, prefix@.len() as int) =~= prefix@);
    true
}

/// Why a BDF file cannot be converted.
#[derive(Clone, Copy, PartialEq, Eq, Structural, Debug)]
pub enum BdfError {
    /// A line that the reader reaches is not valid UTF-8.
    InvalidUtf8,
    /// The file ends before the 16th row of a bitmap. The parse does not
    /// return this: it names inputs that `BDFParser::parse` leaves out.
    MissingBitmapRow,
    /// A bitmap row is not a hexadecimal byte. The parse does not return
    /// this: it names inputs that `BDFParser::parse` leaves out.
    BadBitmapRow,
}

/// Puts `prefix` in front of a successful outcome.
pub open spec fn prepend_ok<T>(prefix: Seq<T>, r: Result<Seq<T>, BdfError>) -> Result<Seq<T>, BdfError> {
    match r {
        Ok(s) => Ok(prefix + s),
        Err(e) => Err(e),
    }
}

/// The bitmap rows `r..16` that follow line `start - 1`: each the next line,
/// read as a hexadecimal byte.
pub open spec fn bitmap_rows(lines: Seq<Seq<u8>>, start: int, r: int) -> Result<Seq<u8>, BdfError>
    decreases 16 - r,
{
    if r >= 16 {
        Ok(Seq::empty())
    } else if start + r >= lines.len() {
        Err(BdfError::MissingBitmapRow)
    } else {
        match hex_u8(lines[start + r]) {
            None => Err(BdfError::BadBitmapRow),
            Some(b) => prepend_ok(seq![b], bitmap_rows(lines, start, r + 1)),
        }
    }
}

/// The glyph bitmaps of `lines` from line `i` on, `in_char` telling whether
/// a character has been opened and not closed. Outside a character every line
/// but `STARTCHAR` is skipped; inside one, `ENDCHAR` closes it, `BITMAP` is
/// followed by 16 rows that make a bitmap, and other lines are skipped. A line
/// that is read as a line and is not valid UTF-8 stops the parse.
pub open spec fn parse_lines(lines: Seq<Seq<u8>>, i: int, in_char: bool) -> Result<Seq<Seq<u8>>, BdfError>
    decreases lines.len() + 17 - i,
{
    if i < 0 || i >= lines.len() {
        Ok(Seq::empty())
    } else if !valid_utf8(lines[i]) {
        Err(BdfError::InvalidUtf8)
    } else if !in_char {
        parse_lines(lines, i + 1, starts_with(lines[i], kw_startchar()))
    } else if starts_with(lines[i], kw_endchar()) {
        parse_lines(lines, i + 1, false)
    } else if !starts_with(lines[i], kw_bitmap()) {
        parse_lines(lines, i + 1, true)
    } else {
        match bitmap_rows(lines, i + 1, 0) {
            Err(e) => Err(e),
            Ok(bm) => prepend_ok(seq![bm], parse_lines(lines, i + 17, true)),
        }
    }
}

/// The glyph bitmaps of a BDF file, in file order.
pub open spec fn parse_bdf(text: Seq<u8>) -> Result<Seq<Seq<u8>>, BdfError> {
    parse_lines(text_lines(text), 0, false)
}

/// An 8x16 glyph: one byte per row, top row first, leftmost pixel in the
/// most significant bit.
pub struct Font8x16 {
    pub bitmap: [u8; 16],
}

pub open spec fn fonts_view(fonts: Seq<Font8x16>) -> Seq<Seq<u8>> {
    fonts.map_values(|f: Font8x16| f.bitmap@)
}

/// Putting two prefixes in front one after the other puts their concatenation in front.
pub proof fn lemma_prepend_assoc<T>(a: Seq<T>, b: Seq<T>, r: Result<Seq<T>, BdfError>)
    ensures
        prepend_ok(a, prepend_ok(b, r)) == prepend_ok(a + b, r),
{
    if let Ok(s) = r {
        assert(a + (b + s) =~= (a + b) + s);
    }
}

/// The glyphs one after another: the contents of a font file.
pub open spec fn concat_bitmaps(bitmaps: Seq<Seq<u8>>) -> Seq<u8>
    decreases bitmaps.len(),
{
    if bitmaps.len() == 0 {
        Seq::empty()
    } else {
        concat_bitmaps(bitmaps.drop_last()) + bitmaps.last()
    }
}

/// The font file of `fonts`: their bitmaps one after another, in order.
pub fn font_bin(fonts: &[Font8x16]) -> (r: Vec<u8>)
    ensures
        r@ == concat_bitmaps(fonts_view(fonts@)),
{
    let mut out: Vec<u8> = Vec::new();
    let mut i: usize = 0;
    while i < fonts.len()
        invariant
            0 <= i <= fonts@.len(),
            out@ == concat_bitmaps(fonts_view(fonts@.take(i as int))),
        decreases fonts@.len() - i,
    {
        let bitmap = fonts[i].bitmap;
        let ghost before = out@;
        let mut k: usize = 0;
        while k < 16
            invariant
                0 <= k <= 16,
                out@ == before + bitmap@.take(k as int),
            decreases 16 - k,
        {
            out.push(bitmap[k]);
            proof {
                assert(out@ =~= before + bitmap@.take(k + 1));
            }
            k = k + 1;
        }
        proof {
            assert(bitmap@.take(16) =~= bitmap@);
            assert(fonts_view(fonts@.take(i + 1)).drop_last() =~= fonts_view(fonts@.take(i as int)));
            assert(fonts_view(fonts@.take(i + 1)).last() == bitmap@);
        }
        i = i + 1;
    }
    proof {
        assert(fonts@.take(fonts@.len() as int) =~= fonts@);
    }
    out
}

/// Reads the BDF font in `text`.
pub struct BDFParser;

/// Every bitmap that the parse of `text` reaches, before any line that is
/// not UTF-8, has its 16 rows, each a hexadecimal byte.
pub open spec fn bitmaps_complete(text: Seq<u8>) -> bool {
    &&& parse_bdf(text) != Err::<Seq<Seq<u8>>, BdfError>(BdfError::MissingBitmapRow)
    &&& parse_bdf(text) != Err::<Seq<Seq<u8>>, BdfError>(BdfError::BadBitmapRow)
}

impl BDFParser {
    /// Reads the glyph bitmaps of the BDF font in `text`, in file order. A
    /// line (other than a bitmap row) that is not valid UTF-8 gives
    /// `InvalidUtf8`. Fonts with a bitmap cut short or a row that is not a
    /// hexadecimal byte are left out; `check_bitmaps` tells them apart.
    pub fn parse(text: &[u8]) -> (r: Result<Vec<Font8x16>, BdfError>)
        requires
            bitmaps_complete(text@),
        ensures
            match r {
                Ok(v) => parse_bdf(text@) == Ok::<Seq<Seq<u8>>, BdfError>(fonts_view(v@)),
                Err(e) => e == BdfError::InvalidUtf8 && parse_bdf(text@) == Err::<Seq<Seq<u8>>, BdfError>(e),
            },
    {
        Self::read_bitmaps(text)
    }

    /// Whether every bitmap of the font in `text` that the parse reaches is
    /// whole, so that `parse` takes it.
    pub fn check_bitmaps(text: &[u8]) -> (r: bool)
        ensures
            r == bitmaps_complete(text@),
    {
        match Self::read_bitmaps(text) {
            Err(BdfError::MissingBitmapRow) => false,
            Err(BdfError::BadBitmapRow) => false,
            _ => true,
        }
    }

    fn read_bitmaps(text: &[u8]) -> (r: Result<Vec<Font8x16>, BdfError>)
        ensures
            match r {
                Ok(v) => parse_bdf(text@) == Ok::<Seq<Seq<u8>>, BdfError>(fonts_view(v@)),
                Err(e) => parse_bdf(text@) == Err::<Seq<Seq<u8>>, BdfError>(e),
            },
    {
        let ranges = split_lines(text);
        let ghost lines = text_lines(text@);
        let kw_start = startchar();
        let kw_end = endchar();
        let kw_bm = bitmap_keyword();
        let mut fonts: Vec<Font8x16> = Vec::new();
        let n = ranges.len();
        let mut i: usize = 0;
        let mut in_char = false;
        proof {
            assert(fonts_view(fonts@) =~= Seq::<Seq<u8>>::empty());
            assert(prepend_ok(Seq::<Seq<u8>>::empty(), parse_lines(lines, 0, false)) == parse_lines(lines, 0, false)) by {
                if let Ok(s) = parse_lines(lines, 0, false) {
                    assert(Seq::<Seq<u8>>::empty() + s =~= s);
                }
            }
        }
        while i < n
            invariant
                n == ranges@.len() == lines.len(),
                lines == text_lines(text@),
                forall|j: int| 0 <= j < n ==> #[trigger] lines[j] == range_bytes(text@, ranges@[j]),
                forall|j: int| 0 <= j < n ==> (#[trigger] ranges@[j]).0 <= ranges@[j].1 <= text@.len(),
                kw_start@ == kw_startchar(),
                kw_end@ == kw_endchar(),
                kw_bm@ == kw_bitmap(),
                0 <= i <= n,
                parse_bdf(text@) == prepend_ok(fonts_view(fonts@), parse_lines(lines, i as int, in_char)),
            decreases n - i,
        {
            let (ls, le) = ranges[i];
            proof {
                assert(lines[i as int] == range_bytes(text@, ranges@[i as int]));
            }
            if !range_is_utf8(text, ls, le) {
                return Err(BdfError::InvalidUtf8);
            }
            if !in_char {
                in_char = range_starts_with(text, ls, le, kw_start.as_slice());
                i = i + 1;
            } else if range_starts_with(text, ls, le, kw_end.as_slice()) {
                in_char = false;
                i = i + 1;
            } else if !range_starts_with(text, ls, le, kw_bm.as_slice()) {
                i = i + 1;
            } else {
                let ghost start = i + 1;
                let mut bitmap: [u8; 16] = [0u8; 16];
                let mut r: usize = 0;
                proof {
                    assert(bitmap@.take(0) =~= Seq::<u8>::empty());
                    assert(prepend_ok(Seq::<u8>::empty(), bitmap_rows(lines, start, 0)) == bitmap_rows(lines, start, 0)) by {
                        if let Ok(s) = bitmap_rows(lines, start, 0) {
                            assert(Seq::<u8>::empty() + s =~= s);
                        }
                    }
                }
                while r < 16
                    invariant
                        n == ranges@.len() == lines.len(),
                        forall|j: int| 0 <= j < n ==> #[trigger] lines[j] == range_bytes(text@, ranges@[j]),
                        forall|j: int| 0 <= j < n ==> (#[trigger] ranges@[j]).0 <= ranges@[j].1 <= text@.len(),
                        start == i + 1,
                        i < n,
                        i + 1 + r <= n,
                        in_char,
                        lines == text_lines(text@),
                        !starts_with(lines[i as int], kw_endchar()),
                        valid_utf8(lines[i as int]),
                        starts_with(lines[i as int], kw_bitmap()),
                        parse_bdf(text@) == prepend_ok(fonts_view(fonts@), parse_lines(lines, i as int, in_char)),
                        0 <= r <= 16,
                        bitmap_rows(lines, start, 0) == prepend_ok(bitmap@.take(r as int), bitmap_rows(lines, start, r as int)),
                    decreases 16 - r,
                {
                    if r >= n - i - 1 {
                        return Err(BdfError::MissingBitmapRow);
                    }
                    let (rs, re) = ranges[i + 1 + r];
                    proof {
                        assert(lines[start + r] == range_bytes(text@, ranges@[start + r]));
                    }
                    match parse_hex_u8(text, rs, re) {
                        None => {
                            return Err(BdfError::BadBitmapRow);
                        },
                        Some(b) => {
                            let ghost before = bitmap@;
                            bitmap[r] = b;
                            proof {
                                lemma_prepend_assoc(before.take(r as int), seq![b], bitmap_rows(lines, start, r + 1));
                                assert(before.take(r as int) + seq![b] =~= bitmap@.take(r + 1));
                            }
                        },
                    }
                    r = r + 1;
                }
                proof {
                    assert(bitmap@.take(16) =~= bitmap@);
                    if let Ok(s) = bitmap_rows(lines, start, 16) {
                        assert(bitmap@ + s =~= bitmap@);
                    }
                    let ghost before = fonts_view(fonts@);
                    lemma_prepend_assoc(before, seq![bitmap@], parse_lines(lines, i + 17, true));
                }
                let ghost before_fonts = fonts@;
                fonts.push(Font8x16 { bitmap });
                proof {
                    assert(fonts_view(fonts@) =~= fonts_view(before_fonts) + seq![bitmap@]);
                }
                i = i + 17;
            }
        }
        proof {
            if let Ok(s) = parse_lines(lines, i as int, in_char) {
                assert(fonts_view(fonts@) + s =~= fonts_view(fonts@));
            }
        }
        Ok(fonts)
    }
}

} // verus!
