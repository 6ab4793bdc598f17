use mikan_os::bdf::{parse_hex_u8, split_lines, BDFParser, BdfError};

fn hex(s: &str) -> Option<u8> {
    parse_hex_u8(s.as_bytes(), 0, s.len())
}

#[test]
fn hex_bytes_as_from_str_radix() {
    for s in ["", "+", "-1", "0", "ff", "FF", "+7f", "00ff", "100", "g1", " 1", "1 ", "fF", "0000000000000a"] {
        assert_eq!(hex(s), u8::from_str_radix(s, 16).ok(), "{:?}", s);
    }
}

fn lines(s: &str) -> Vec<String> {
    split_lines(s.as_bytes())
        .into_iter()
        .map(|(a, b)| String::from_utf8(s.as_bytes()[a..b].to_vec()).unwrap())
        .collect()
}

#[test]
fn lines_as_a_buffered_reader_gives_them() {
    for s in ["", "a", "a\n", "a\r\nb", "a\n\nb\r", "\n", "\r\n\r\n", "x\ry\n"] {
        let expected: Vec<String> = std::io::BufRead::lines(s.as_bytes()).map(|l| l.unwrap()).collect();
        assert_eq!(lines(s), expected, "{:?}", s);
    }
}

fn rows(values: &[&str]) -> String {
    values.iter().map(|v| format!("{}\n", v)).collect()
}

const ROWS_A: [&str; 16] = ["00", "18", "18", "18", "18", "3c", "24", "24", "24", "7e", "42", "42", "42", "e7", "00", "00"];

#[test]
fn parses_glyphs_in_order() {
    let mut text = String::from("STARTFONT 2.1\nFONT test\nCHARS 2\n");
    text += "STARTCHAR A\nENCODING 65\nBITMAP\n";
    text += &rows(&ROWS_A);
    text += "ENDCHAR\nSTARTCHAR B\r\nBITMAP\r\n";
    for i in 0..16 {
        text += &format!("{:02X}\r\n", i);
    }
    text += "ENDCHAR\nENDFONT\n";
    let fonts = BDFParser::parse(text.as_bytes()).unwrap();
    assert_eq!(fonts.len(), 2);
    assert_eq!(fonts[0].bitmap, [0x00, 0x18, 0x18, 0x18, 0x18, 0x3c, 0x24, 0x24, 0x24, 0x7e, 0x42, 0x42, 0x42, 0xe7, 0x00, 0x00]);
    let mut b = [0u8; 16];
    for i in 0..16 {
        b[i] = i as u8;
    }
    assert_eq!(fonts[1].bitmap, b);
}

#[test]
fn bitmap_outside_a_character_is_skipped() {
    let mut text = String::from("BITMAP\n");
    text += &rows(&ROWS_A);
    let fonts = BDFParser::parse(text.as_bytes()).unwrap();
    assert!(fonts.is_empty());
}

#[test]
fn empty_input_has_no_glyphs() {
    assert!(BDFParser::parse(b"").unwrap().is_empty());
}

#[test]
fn missing_bitmap_row_is_refused() {
    let mut text = String::from("STARTCHAR A\nBITMAP\n");
    text += &rows(&ROWS_A[..15]);
    assert!(!BDFParser::check_bitmaps(text.as_bytes()));
}

#[test]
fn bad_bitmap_row_is_refused() {
    let mut text = String::from("STARTCHAR A\nBITMAP\n");
    let mut bad = ROWS_A;
    bad[3] = "1ff";
    text += &rows(&bad);
    text += "ENDCHAR\n";
    assert!(!BDFParser::check_bitmaps(text.as_bytes()));
    // a complete font passes the check
    assert!(BDFParser::check_bitmaps(glyph_text(&ROWS_A).as_bytes()));
}

#[test]
fn lines_after_bitmap_stay_in_character() {
    // after the 16 rows, a second BITMAP before ENDCHAR gives a second glyph
    let mut text = String::from("STARTCHAR A\nBITMAP\n");
    text += &rows(&ROWS_A);
    text += "BITMAP\n";
    text += &rows(&ROWS_A);
    text += "ENDCHAR\n";
    assert_eq!(BDFParser::parse(text.as_bytes()).unwrap().len(), 2);
}

#[test]
fn line_not_utf8_is_refused() {
    let mut text = b"STARTFONT 2.1\nCOMMENT caf\xe9\n".to_vec();
    text.extend_from_slice(b"STARTCHAR A\nBITMAP\n");
    // the line that is not UTF-8 stops the parse before the bitmap cut short
    assert!(BDFParser::check_bitmaps(&text));
    assert_eq!(BDFParser::parse(&text).err(), Some(BdfError::InvalidUtf8));
    // valid multi-byte characters are fine
    let ok = "COMMENT caf\u{e9} \u{1F600}\n".as_bytes().to_vec();
    assert!(BDFParser::parse(&ok).unwrap().is_empty());
}

#[test]
fn utf8_check_matches_std() {
    let samples: [&[u8]; 10] = [
        b"", b"abc", b"\xc3\xa9", b"\xc0\x80", b"\xed\xa0\x80", b"\xf4\x90\x80\x80", b"\xf0\x9f\x98\x80", b"\xe2\x82", b"\x80", b"\xef\xbf\xbf",
    ];
    for s in samples {
        assert_eq!(mikan_os::bdf::range_is_utf8(s, 0, s.len()), std::str::from_utf8(s).is_ok(), "{:?}", s);
    }
}

fn glyph_text(rows_hex: &[&str]) -> String {
    let mut t = String::from("STARTCHAR x\nBITMAP\n");
    t += &rows(rows_hex);
    t += "ENDCHAR\n";
    t
}

#[test]
fn concatenated_fonts_concatenate_glyphs() {
    let t1 = glyph_text(&ROWS_A);
    let t2 = glyph_text(&["01"; 16]) + &glyph_text(&["ff"; 16]);
    let f1 = BDFParser::parse(t1.as_bytes()).unwrap();
    let f2 = BDFParser::parse(t2.as_bytes()).unwrap();
    let f = BDFParser::parse((t1.clone() + &t2).as_bytes()).unwrap();
    let expected: Vec<[u8; 16]> = f1.iter().chain(f2.iter()).map(|g| g.bitmap).collect();
    assert_eq!(f.iter().map(|g| g.bitmap).collect::<Vec<_>>(), expected);
}

#[test]
fn skipped_lines_do_not_change_the_parse() {
    let plain = glyph_text(&ROWS_A);
    let mut padded = String::from("COMMENT x\nSWIDTH 500 0\nSTARTCHAR x\nENCODING 65\nBBX 8 16 0 -2\nBITMAP\n");
    padded += &rows(&ROWS_A);
    padded += "DWIDTH 8 0\nENDCHAR\nENDFONT\n";
    let a = BDFParser::parse(plain.as_bytes()).unwrap();
    let b = BDFParser::parse(padded.as_bytes()).unwrap();
    assert_eq!(a.iter().map(|g| g.bitmap).collect::<Vec<_>>(), b.iter().map(|g| g.bitmap).collect::<Vec<_>>());
}
