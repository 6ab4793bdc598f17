use vstd::prelude::*;
use vstd::utf8::valid_utf8;
use crate::bdf::{
    BdfError, CR, LF, PLUS, hex_u8, hex_value, all_hex_digits, parse_hex_u8, hex_digit, bitmap_rows, kw_bitmap, kw_endchar, kw_startchar, lemma_next_line_feed, lemma_next_line_feed_at, lemma_prepend_assoc,
    lines_from, next_line_feed, parse_bdf, parse_lines, prepend_ok, starts_with, strip_cr, text_lines,
};

verus! {

// ---------------------------------------------------------------------------
// The parse depends only on the lines it reads

/// Row `m` of a bitmap starting at line `sa` of `a` and at line `sb` of `b`
/// is there in both or in neither, and is the same line.
pub open spec fn row_matches(a: Seq<Seq<u8>>, sa: int, b: Seq<Seq<u8>>, sb: int, m: int) -> bool {
    &&& (sa + m < a.len() <==> sb + m < b.len())
    &&& (sa + m < a.len() ==> a[sa + m] == b[sb + m])
}

/// Bitmap rows read from lines that agree give the same outcome.
proof fn lemma_rows_agree(a: Seq<Seq<u8>>, sa: int, b: Seq<Seq<u8>>, sb: int, r: int)
    requires
        0 <= r,
        forall|m: int| r <= m < 16 ==> #[trigger] row_matches(a, sa, b, sb, m),
    ensures
        bitmap_rows(a, sa, r) == bitmap_rows(b, sb, r),
    decreases 16 - r,
{
    if r < 16 {
        assert(row_matches(a, sa, b, sb, r));
        lemma_rows_agree(a, sa, b, sb, r + 1);
    }
}

/// A bitmap that is read in full lies wholly inside the lines.
proof fn lemma_rows_ok_inside(a: Seq<Seq<u8>>, st: int, r: int)
    requires
        0 <= r,
        bitmap_rows(a, st, r) is Ok,
    ensures
        r < 16 ==> st + 16 <= a.len(),
    decreases 16 - r,
{
    if r < 16 {
        lemma_rows_ok_inside(a, st, r + 1);
    }
}

/// Parsing from line `i` of `a` and from line `j` of `b` agree where the
/// lines from there on are the same.
pub proof fn lemma_parse_suffix(a: Seq<Seq<u8>>, i: int, b: Seq<Seq<u8>>, j: int, in_char: bool)
    requires
        0 <= i <= a.len(),
        0 <= j <= b.len(),
        a.subrange(i, a.len() as int) == b.subrange(j, b.len() as int),
    ensures
        parse_lines(a, i, in_char) == parse_lines(b, j, in_char),
    decreases a.len() + 17 - i,
{
    let sa = a.subrange(i, a.len() as int);
    let sb = b.subrange(j, b.len() as int);
    assert(sa.len() == sb.len());
    if i < a.len() {
        assert(a[i] == sa[0] && b[j] == sb[0]);
        assert forall|m: int| 0 <= m < 16 implies #[trigger] row_matches(a, i + 1, b, j + 1, m) by {
            if i + 1 + m < a.len() {
                assert(a[i + 1 + m] == sa[1 + m] && b[j + 1 + m] == sb[1 + m]);
            }
        }
        lemma_rows_agree(a, i + 1, b, j + 1, 0);
        assert(a.subrange(i + 1, a.len() as int) =~= sa.subrange(1, sa.len() as int));
        assert(b.subrange(j + 1, b.len() as int) =~= sb.subrange(1, sb.len() as int));
        lemma_parse_suffix(a, i + 1, b, j + 1, false);
        lemma_parse_suffix(a, i + 1, b, j + 1, true);
        if i + 17 <= a.len() {
            assert(a.subrange(i + 17, a.len() as int) =~= sa.subrange(17, sa.len() as int));
            assert(b.subrange(j + 17, b.len() as int) =~= sb.subrange(17, sb.len() as int));
            lemma_parse_suffix(a, i + 17, b, j + 17, true);
        } else if bitmap_rows(a, i + 1, 0) is Ok {
            lemma_rows_ok_inside(a, i + 1, 0);
        }
    }
}

// ---------------------------------------------------------------------------
// Ignorable lines

/// The parser, started at line `i` with `in_char`, comes to line `k` (not
/// inside a bitmap) with `s` telling whether a character is open there.
pub open spec fn reaches(lines: Seq<Seq<u8>>, i: int, in_char: bool, k: int, s: bool) -> bool
    decreases lines.len() + 17 - i,
{
    if i == k {
        in_char == s
    } else if i > k || i < 0 || i >= lines.len() {
        false
    } else if !valid_utf8(lines[i]) {
        false
    } else if !in_char {
        reaches(lines, i + 1, starts_with(lines[i], kw_startchar()), k, s)
    } else if starts_with(lines[i], kw_endchar()) {
        reaches(lines, i + 1, false, k, s)
    } else if !starts_with(lines[i], kw_bitmap()) {
        reaches(lines, i + 1, true, k, s)
    } else if bitmap_rows(lines, i + 1, 0) is Ok {
        reaches(lines, i + 17, true, k, s)
    } else {
        false
    }
}

/// A line that the parser skips in state `s`: outside a character one that
/// does not open one, inside a character one that neither closes it nor
/// starts a bitmap.
pub open spec fn ignorable(line: Seq<u8>, s: bool) -> bool {
    &&& valid_utf8(line)
    &&& if s {
        !starts_with(line, kw_endchar()) && !starts_with(line, kw_bitmap())
    } else {
        !starts_with(line, kw_startchar())
    }
}

proof fn lemma_insert_from(lines: Seq<Seq<u8>>, x: Seq<u8>, k: int, s: bool, i: int, in_char: bool)
    requires
        0 <= i <= k <= lines.len(),
        reaches(lines, i, in_char, k, s),
        ignorable(x, s),
    ensures
        parse_lines(lines.insert(k, x), i, in_char) == parse_lines(lines, i, in_char),
    decreases k - i,
{
    let l2 = lines.insert(k, x);
    reveal_with_fuel(reaches, 2);
    if i == k {
        assert(l2[k] == x);
        assert(l2.subrange(k + 1, l2.len() as int) =~= lines.subrange(k, lines.len() as int));
        lemma_parse_suffix(l2, k + 1, lines, k, s);
    } else {
        assert(l2[i] == lines[i]);
        if bitmap_rows(lines, i + 1, 0) is Ok && in_char && starts_with(lines[i], kw_bitmap()) && !starts_with(
            lines[i],
            kw_endchar(),
        ) {
            lemma_rows_ok_inside(lines, i + 1, 0);
        }
        if in_char && starts_with(lines[i], kw_bitmap()) && !starts_with(lines[i], kw_endchar()) && valid_utf8(
            lines[i],
        ) {
            if bitmap_rows(lines, i + 1, 0) is Ok {
                assert forall|m: int| 0 <= m < 16 implies #[trigger] row_matches(l2, i + 1, lines, i + 1, m) by {
                    assert(i + 17 <= k);
                }
                lemma_rows_agree(l2, i + 1, lines, i + 1, 0);
                lemma_insert_from(lines, x, k, s, i + 17, true);
            }
        } else if valid_utf8(lines[i]) {
            if !in_char {
                lemma_insert_from(lines, x, k, s, i + 1, starts_with(lines[i], kw_startchar()));
            } else if starts_with(lines[i], kw_endchar()) {
                lemma_insert_from(lines, x, k, s, i + 1, false);
            } else {
                lemma_insert_from(lines, x, k, s, i + 1, true);
            }
        }
    }
}

/// Inserting a line that the parser skips where it stands leaves the parse
/// unchanged: with a character open, any line that neither closes it nor
/// starts a bitmap; with none open, any line that does not open one.
pub proof fn lemma_parse_ignores_skipped_line(lines: Seq<Seq<u8>>, k: int, s: bool, x: Seq<u8>)
    requires
        0 <= k <= lines.len(),
        reaches(lines, 0, false, k, s),
        ignorable(x, s),
    ensures
        parse_lines(lines.insert(k, x), 0, false) == parse_lines(lines, 0, false),
{
    lemma_insert_from(lines, x, k, s, 0, false);
}

// ---------------------------------------------------------------------------
// Concatenated fonts

/// Where the parse from line `i` succeeds, whether a character is still open
/// after the last line.
pub open spec fn end_state(lines: Seq<Seq<u8>>, i: int, in_char: bool) -> bool
    decreases lines.len() + 17 - i,
{
    if i < 0 || i >= lines.len() {
        in_char
    } else if !valid_utf8(lines[i]) {
        in_char
    } else if !in_char {
        end_state(lines, i + 1, starts_with(lines[i], kw_startchar()))
    } else if starts_with(lines[i], kw_endchar()) {
        end_state(lines, i + 1, false)
    } else if !starts_with(lines[i], kw_bitmap()) {
        end_state(lines, i + 1, true)
    } else if bitmap_rows(lines, i + 1, 0) is Ok {
        end_state(lines, i + 17, true)
    } else {
        in_char
    }
}

/// A line that starts with `ENDCHAR` is no bitmap row.
proof fn lemma_endchar_not_hex(line: Seq<u8>)
    requires
        starts_with(line, kw_endchar()),
    ensures
        hex_u8(line) is None,
{
    assert(line[0] == line.subrange(0, 7)[0]);
    assert(line[1] == line.subrange(0, 7)[1]);
    assert(hex_digit(line[1]) is None);
    if line.len() > 0 && line[0] == 43u8 {
    } else {
        assert(!crate::bdf::all_hex_digits(line));
    }
}

/// A font whose last line starts with `ENDCHAR` and that parses leaves no
/// character open.
pub proof fn lemma_endchar_ends_outside(lines: Seq<Seq<u8>>, i: int, in_char: bool)
    requires
        0 <= i < lines.len(),
        parse_lines(lines, i, in_char) is Ok,
        starts_with(lines.last(), kw_endchar()),
    ensures
        end_state(lines, i, in_char) == false,
    decreases lines.len() - i,
{
    let n = lines.len() - 1;
    let last = lines[n];
    assert(last[0] == last.subrange(0, 7)[0]);
    if starts_with(last, kw_startchar()) {
        assert(last[0] == last.subrange(0, 9)[0]);
    }
    if i < n {
        if valid_utf8(lines[i]) && in_char && !starts_with(lines[i], kw_endchar()) && starts_with(
            lines[i],
            kw_bitmap(),
        ) {
            lemma_rows_ok_inside(lines, i + 1, 0);
            if i + 17 == lines.len() {
                lemma_endchar_not_hex(last);
                lemma_row_fails(lines, i + 1, 0, 15);
            } else {
                lemma_endchar_ends_outside(lines, i + 17, true);
            }
        } else if valid_utf8(lines[i]) {
            if !in_char {
                lemma_endchar_ends_outside(lines, i + 1, starts_with(lines[i], kw_startchar()));
            } else if starts_with(lines[i], kw_endchar()) {
                lemma_endchar_ends_outside(lines, i + 1, false);
            } else {
                lemma_endchar_ends_outside(lines, i + 1, true);
            }
        }
    } else {
        assert(lines.last() == last);
        assert(valid_utf8(last));
        assert(!starts_with(last, kw_startchar()));
        assert(end_state(lines, i + 1, false) == false);
    }
}

/// A bitmap one of whose rows is no hexadecimal byte is not read.
proof fn lemma_row_fails(lines: Seq<Seq<u8>>, st: int, r: int, bad: int)
    requires
        0 <= r <= bad < 16,
        st + bad < lines.len(),
        hex_u8(lines[st + bad]) is None,
    ensures
        bitmap_rows(lines, st, r) is Err,
    decreases 16 - r,
{
    if r < bad {
        lemma_row_fails(lines, st, r + 1, bad);
    }
}

proof fn lemma_prepend_empty(r: Result<Seq<Seq<u8>>, BdfError>)
    ensures
        prepend_ok(Seq::<Seq<u8>>::empty(), r) == r,
{
    if let Ok(x) = r {
        assert(Seq::<Seq<u8>>::empty() + x =~= x);
    }
}

/// Lines after a successfully parsed part are parsed as if they stood alone,
/// in the state that the part ends in.
proof fn lemma_parse_prefix(a: Seq<Seq<u8>>, b: Seq<Seq<u8>>, i: int, in_char: bool)
    requires
        0 <= i <= a.len(),
        parse_lines(a, i, in_char) is Ok,
    ensures
        parse_lines(a + b, i, in_char) == prepend_ok(
            parse_lines(a, i, in_char)->Ok_0,
            parse_lines(b, 0, end_state(a, i, in_char)),
        ),
    decreases a.len() + 17 - i,
{
    let ab = a + b;
    if i == a.len() {
        assert(ab.subrange(a.len() as int, ab.len() as int) =~= b.subrange(0, b.len() as int));
        lemma_parse_suffix(ab, a.len() as int, b, 0, in_char);
        lemma_prepend_empty(parse_lines(b, 0, in_char));
    } else {
        assert(ab[i] == a[i]);
        if valid_utf8(a[i]) {
            if !in_char {
                lemma_parse_prefix(a, b, i + 1, starts_with(a[i], kw_startchar()));
            } else if starts_with(a[i], kw_endchar()) {
                lemma_parse_prefix(a, b, i + 1, false);
            } else if !starts_with(a[i], kw_bitmap()) {
                lemma_parse_prefix(a, b, i + 1, true);
            } else {
                lemma_rows_ok_inside(a, i + 1, 0);
                assert forall|m: int| 0 <= m < 16 implies #[trigger] row_matches(ab, i + 1, a, i + 1, m) by {}
                lemma_rows_agree(ab, i + 1, a, i + 1, 0);
                lemma_parse_prefix(a, b, i + 17, true);
                let bm = bitmap_rows(a, i + 1, 0)->Ok_0;
                lemma_prepend_assoc(
                    seq![bm],
                    parse_lines(a, i + 17, true)->Ok_0,
                    parse_lines(b, 0, end_state(a, i + 17, true)),
                );
            }
        }
    }
}

proof fn lemma_next_line_feed_shift(p: Seq<u8>, t: Seq<u8>, m: int)
    requires
        0 <= m <= t.len(),
    ensures
        next_line_feed(p + t, p.len() + m) == p.len() + next_line_feed(t, m),
    decreases t.len() - m,
{
    let pt = p + t;
    if m < t.len() {
        assert(pt[p.len() + m] == t[m]);
        if t[m] != LF {
            lemma_next_line_feed_shift(p, t, m + 1);
        }
    }
}

proof fn lemma_lines_shift(p: Seq<u8>, t: Seq<u8>, m: int)
    requires
        0 <= m <= t.len(),
    ensures
        lines_from(p + t, p.len() + m) == lines_from(t, m),
    decreases t.len() - m,
{
    let pt = p + t;
    if m < t.len() {
        lemma_next_line_feed_shift(p, t, m);
        lemma_next_line_feed(t, m);
        let e = next_line_feed(t, m);
        assert(pt.subrange(p.len() + m, p.len() + e) =~= t.subrange(m, e));
        assert(pt.subrange(p.len() + m, pt.len() as int) =~= t.subrange(m, t.len() as int));
        if e < t.len() {
            lemma_lines_shift(p, t, e + 1);
        }
    }
}

proof fn lemma_lines_prefix(t1: Seq<u8>, t2: Seq<u8>, k: int)
    requires
        0 <= k <= t1.len(),
        k < t1.len() ==> t1.last() == LF,
    ensures
        lines_from(t1 + t2, k) == lines_from(t1, k) + lines_from(t2, 0),
    decreases t1.len() - k,
{
    let t = t1 + t2;
    if k == t1.len() {
        lemma_lines_shift(t1, t2, 0);
        assert(lines_from(t1, k) =~= Seq::<Seq<u8>>::empty());
        assert(lines_from(t1, k) + lines_from(t2, 0) =~= lines_from(t2, 0));
    } else {
        lemma_next_line_feed(t1, k);
        let e = next_line_feed(t1, k);
        if e == t1.len() {
            assert(t1[t1.len() - 1] == LF);
            assert(false);
        }
        assert forall|j: int| k <= j < e implies t[j] != LF by {
            assert(t[j] == t1[j]);
        }
        assert(t[e] == t1[e]);
        lemma_next_line_feed_at(t, k, e);
        assert(t.subrange(k, e) =~= t1.subrange(k, e));
        lemma_lines_prefix(t1, t2, e + 1);
        let line = seq![strip_cr(t1.subrange(k, e))];
        assert(line + (lines_from(t1, e + 1) + lines_from(t2, 0)) =~= (line + lines_from(t1, e + 1)) + lines_from(
            t2,
            0,
        ));
    }
}

/// A text that is empty or ends with a line feed, followed by another, has
/// the lines of the first followed by the lines of the second.
pub proof fn lemma_lines_concat(t1: Seq<u8>, t2: Seq<u8>)
    requires
        t1.len() == 0 || t1.last() == LF,
    ensures
        text_lines(t1 + t2) == text_lines(t1) + text_lines(t2),
{
    lemma_lines_prefix(t1, t2, 0);
}

/// Parsing two fonts one after the other, the first ending with a line feed
/// and leaving no character open (as one whose last line is `ENDCHAR` does,
/// `lemma_endchar_ends_outside`), gives the glyphs of the first followed by
/// those of the second.
pub proof fn lemma_parse_concat(t1: Seq<u8>, t2: Seq<u8>)
    requires
        t1.len() == 0 || t1.last() == LF,
        parse_bdf(t1) is Ok,
        end_state(text_lines(t1), 0, false) == false,
        parse_bdf(t2) is Ok,
    ensures
        parse_bdf(t1 + t2) == Ok::<Seq<Seq<u8>>, BdfError>(parse_bdf(t1)->Ok_0 + parse_bdf(t2)->Ok_0),
{
    lemma_lines_concat(t1, t2);
    lemma_parse_prefix(text_lines(t1), text_lines(t2), 0, false);
}


// ---------------------------------------------------------------------------
// Ignorable lines in a file

/// A line without line feeds and without a carriage return at its end,
/// followed by a line feed, is that one line.
proof fn lemma_single_line(x: Seq<u8>)
    requires
        forall|i: int| 0 <= i < x.len() ==> x[i] != LF,
        x.len() == 0 || x.last() != CR,
    ensures
        text_lines(x.push(LF)) == seq![x],
{
    let t = x.push(LF);
    assert forall|i: int| 0 <= i < x.len() implies t[i] != LF by {
        assert(t[i] == x[i]);
    }
    lemma_next_line_feed_at(t, 0, x.len() as int);
    assert(t.subrange(0, x.len() as int) =~= x);
    assert(lines_from(t, x.len() as int + 1) =~= Seq::<Seq<u8>>::empty());
    assert(text_lines(t) =~= seq![x]);
}

/// Writing into a font file, at the start of a line where the parser stands
/// in state `s`, a line that it skips in that state (valid UTF-8; with a
/// character open, starting with neither `ENDCHAR` nor `BITMAP`; with none
/// open, not starting with `STARTCHAR`) followed by a line feed leaves the
/// parse unchanged.
pub proof fn lemma_parse_ignores_inserted_line(p: Seq<u8>, q: Seq<u8>, x: Seq<u8>, s: bool)
    requires
        p.len() == 0 || p.last() == LF,
        forall|i: int| 0 <= i < x.len() ==> x[i] != LF,
        x.len() == 0 || x.last() != CR,
        reaches(text_lines(p + q), 0, false, text_lines(p).len() as int, s),
        ignorable(x, s),
    ensures
        parse_bdf(p + (x.push(LF) + q)) == parse_bdf(p + q),
{
    let xl = x.push(LF);
    lemma_lines_concat(p, q);
    lemma_lines_concat(xl, q);
    lemma_lines_concat(p, xl + q);
    lemma_single_line(x);
    let lp = text_lines(p);
    let lq = text_lines(q);
    assert(lp + (seq![x] + lq) =~= (lp + lq).insert(lp.len() as int, x));
    lemma_parse_ignores_skipped_line(lp + lq, lp.len() as int, s, x);
}

// ---------------------------------------------------------------------------
// Hexadecimal rows

/// The lowercase hexadecimal digits, in order of value.
pub open spec fn lower_hex_digits() -> Seq<u8> {
    seq![48u8, 49u8, 50u8, 51u8, 52u8, 53u8, 54u8, 55u8, 56u8, 57u8, 97u8, 98u8, 99u8, 100u8, 101u8, 102u8]
}

/// The uppercase hexadecimal digits, in order of value.
pub open spec fn upper_hex_digits() -> Seq<u8> {
    seq![48u8, 49u8, 50u8, 51u8, 52u8, 53u8, 54u8, 55u8, 56u8, 57u8, 65u8, 66u8, 67u8, 68u8, 69u8, 70u8]
}

/// Each digit, in either case, has its place in "0123456789abcdef" as value.
pub proof fn lemma_hex_digit_values(v: int)
    requires
        0 <= v < 16,
    ensures
        hex_digit(lower_hex_digits()[v]) == Some(v),
        hex_digit(upper_hex_digits()[v]) == Some(v),
{
    let lo = lower_hex_digits();
    let up = upper_hex_digits();
    if v == 0 {
        assert(lo[0] == 48u8 && up[0] == 48u8);
    } else if v == 1 {
        assert(lo[1] == 49u8 && up[1] == 49u8);
    } else if v == 2 {
        assert(lo[2] == 50u8 && up[2] == 50u8);
    } else if v == 3 {
        assert(lo[3] == 51u8 && up[3] == 51u8);
    } else if v == 4 {
        assert(lo[4] == 52u8 && up[4] == 52u8);
    } else if v == 5 {
        assert(lo[5] == 53u8 && up[5] == 53u8);
    } else if v == 6 {
        assert(lo[6] == 54u8 && up[6] == 54u8);
    } else if v == 7 {
        assert(lo[7] == 55u8 && up[7] == 55u8);
    } else if v == 8 {
        assert(lo[8] == 56u8 && up[8] == 56u8);
    } else if v == 9 {
        assert(lo[9] == 57u8 && up[9] == 57u8);
    } else if v == 10 {
        assert(lo[10] == 97u8 && up[10] == 65u8);
    } else if v == 11 {
        assert(lo[11] == 98u8 && up[11] == 66u8);
    } else if v == 12 {
        assert(lo[12] == 99u8 && up[12] == 67u8);
    } else if v == 13 {
        assert(lo[13] == 100u8 && up[13] == 68u8);
    } else if v == 14 {
        assert(lo[14] == 101u8 && up[14] == 69u8);
    } else {
        assert(lo[15] == 102u8 && up[15] == 70u8);
    }
}

/// A bitmap row of two hexadecimal digits, high digit first, reads as sixteen
/// times the high digit's value plus the low digit's value, in either case;
/// so does `parse_hex_u8`, which reads rows.
pub proof fn lemma_two_digit_row(h: int, l: int, upper: bool)
    requires
        0 <= h < 16,
        0 <= l < 16,
    ensures
        ({
            let digits = if upper { upper_hex_digits() } else { lower_hex_digits() };
            hex_u8(seq![digits[h], digits[l]]) == Some((16 * h + l) as u8)
        }),
{
    let digits = if upper { upper_hex_digits() } else { lower_hex_digits() };
    lemma_hex_digit_values(h);
    lemma_hex_digit_values(l);
    let row = seq![digits[h], digits[l]];
    assert(row[0] != PLUS) by {
        assert(hex_digit(PLUS) is None);
    }
    assert(row.drop_last() =~= seq![digits[h]]);
    assert(seq![digits[h]].drop_last() =~= Seq::<u8>::empty());
    assert(all_hex_digits(row));
    assert(row.last() == digits[l]);
    assert(seq![digits[h]].last() == digits[h]);
    assert(hex_value(Seq::<u8>::empty()) == 0);
    assert(hex_value(seq![digits[h]]) == h);
    assert(hex_value(row) == 16 * h + l);
}

/// The keywords are the ASCII words `STARTCHAR`, `ENDCHAR` and `BITMAP`.
pub proof fn lemma_keywords_spell()
    ensures
        kw_startchar().len() == "STARTCHAR"@.len(),
        forall|i: int| 0 <= i < kw_startchar().len() ==> kw_startchar()[i] as u32 == "STARTCHAR"@[i] as u32,
        kw_endchar().len() == "ENDCHAR"@.len(),
        forall|i: int| 0 <= i < kw_endchar().len() ==> kw_endchar()[i] as u32 == "ENDCHAR"@[i] as u32,
        kw_bitmap().len() == "BITMAP"@.len(),
        forall|i: int| 0 <= i < kw_bitmap().len() ==> kw_bitmap()[i] as u32 == "BITMAP"@[i] as u32,
{
    reveal_strlit("STARTCHAR");
    reveal_strlit("ENDCHAR");
    reveal_strlit("BITMAP");
}

/// A line ended by a carriage return and a line feed loses both; a last line
/// without a line feed keeps a carriage return at its end.
pub proof fn lemma_crlf_line(x: Seq<u8>)
    requires
        forall|i: int| 0 <= i < x.len() ==> x[i] != LF,
    ensures
        text_lines(x.push(CR).push(LF)) == seq![x],
        text_lines(x.push(CR)) == seq![x.push(CR)],
{
    let t = x.push(CR).push(LF);
    assert forall|i: int| 0 <= i < x.len() + 1 implies t[i] != LF by {
        if i < x.len() {
            assert(t[i] == x[i]);
        }
    }
    lemma_next_line_feed_at(t, 0, x.len() as int + 1);
    assert(t.subrange(0, x.len() as int + 1) =~= x.push(CR));
    assert(x.push(CR).drop_last() =~= x);
    assert(lines_from(t, x.len() as int + 2) =~= Seq::<Seq<u8>>::empty());
    assert(text_lines(t) =~= seq![x]);
    let u = x.push(CR);
    assert forall|i: int| 0 <= i < u.len() implies u[i] != LF by {
        if i < x.len() {
            assert(u[i] == x[i]);
        }
    }
    lemma_next_line_feed_at(u, 0, u.len() as int);
    assert(u.subrange(0, u.len() as int) =~= u);
    assert(text_lines(u) =~= seq![u]);
}

/// A plus sign before the digits of a row is allowed and changes nothing;
/// a row of a plus sign alone, or of nothing, is no byte.
pub proof fn lemma_hex_plus_sign(ds: Seq<u8>)
    requires
        ds.len() > 0,
        ds[0] != PLUS,
    ensures
        hex_u8(seq![PLUS] + ds) == hex_u8(ds),
        hex_u8(seq![PLUS]) is None,
        hex_u8(Seq::<u8>::empty()) is None,
{
    assert((seq![PLUS] + ds).drop_first() =~= ds);
    assert(seq![PLUS].drop_first() =~= Seq::<u8>::empty());
}

proof fn lemma_rows_read(lines: Seq<Seq<u8>>, st: int, v: Seq<u8>, r: int)
    requires
        0 <= r <= 16,
        v.len() == 16,
        st + 16 <= lines.len(),
        forall|m: int| 0 <= m < 16 ==> hex_u8(#[trigger] lines[st + m]) == Some(v[m]),
    ensures
        bitmap_rows(lines, st, r) == Ok::<Seq<u8>, BdfError>(v.subrange(r, 16)),
    decreases 16 - r,
{
    if r < 16 {
        lemma_rows_read(lines, st, v, r + 1);
        assert(hex_u8(lines[st + r]) == Some(v[r]));
        assert(seq![v[r]] + v.subrange(r + 1, 16) =~= v.subrange(r, 16));
    } else {
        assert(v.subrange(16, 16) =~= Seq::<u8>::empty());
    }
}

/// One character: a `STARTCHAR` line, a `BITMAP` line, 16 rows that read as
/// the bytes `v`, and an `ENDCHAR` line, gives one glyph, the bytes `v` in
/// row order.
pub proof fn lemma_one_character(start: Seq<u8>, bitmap: Seq<u8>, rows: Seq<Seq<u8>>, end: Seq<u8>, v: Seq<u8>)
    requires
        starts_with(start, kw_startchar()),
        starts_with(bitmap, kw_bitmap()),
        starts_with(end, kw_endchar()),
        valid_utf8(start),
        valid_utf8(bitmap),
        valid_utf8(end),
        rows.len() == 16,
        v.len() == 16,
        forall|m: int| 0 <= m < 16 ==> hex_u8(#[trigger] rows[m]) == Some(v[m]),
    ensures
        parse_lines(seq![start, bitmap] + rows + seq![end], 0, false) == Ok::<Seq<Seq<u8>>, BdfError>(seq![v]),
{
    let lines = seq![start, bitmap] + rows + seq![end];
    assert(lines[0] == start && lines[1] == bitmap && lines[18] == end);
    assert(bitmap[0] == bitmap.subrange(0, 6)[0]);
    assert(!starts_with(bitmap, kw_endchar())) by {
        if starts_with(bitmap, kw_endchar()) {
            assert(bitmap[0] == bitmap.subrange(0, 7)[0]);
        }
    }
    assert forall|m: int| 0 <= m < 16 implies hex_u8(#[trigger] lines[2 + m]) == Some(v[m]) by {
        assert(lines[2 + m] == rows[m]);
    }
    lemma_rows_read(lines, 2, v, 0);
    assert(v.subrange(0, 16) =~= v);
    assert(parse_lines(lines, 19, false) == Ok::<Seq<Seq<u8>>, BdfError>(Seq::empty()));
    assert(parse_lines(lines, 18, true) == Ok::<Seq<Seq<u8>>, BdfError>(Seq::empty()));
    assert(seq![v] + Seq::<Seq<u8>>::empty() =~= seq![v]);
    assert(parse_lines(lines, 1, true) == Ok::<Seq<Seq<u8>>, BdfError>(seq![v]));
}

} // verus!
