use engine::text::{
    add_font, font_bytes, font_id, fonts, line_of, source, syllables, typeface, FontSet,
    GlyphSource, Lang, MISSING,
};

fn g(cluster: usize, hyphen: bool) -> GlyphSource {
    GlyphSource { cluster, hyphen }
}

fn u16be(out: &mut Vec<u8>, v: u16) {
    out.extend_from_slice(&v.to_be_bytes());
}

fn u32be(out: &mut Vec<u8>, v: u32) {
    out.extend_from_slice(&v.to_be_bytes());
}

/// A font file with only a character map and the full name `name`.
fn font(name: &str) -> Vec<u8> {
    let mut cmap = Vec::new();
    u16be(&mut cmap, 0);
    u16be(&mut cmap, 1);
    u16be(&mut cmap, 3);
    u16be(&mut cmap, 1);
    u32be(&mut cmap, 12);
    // format 4 with the closing segment only
    for v in [4u16, 24, 0, 2, 2, 0, 0, 0xffff, 0, 0xffff, 1, 0] {
        u16be(&mut cmap, v);
    }
    let text: Vec<u8> = name.encode_utf16().flat_map(|u| u.to_be_bytes()).collect();
    let mut names = Vec::new();
    for v in [0u16, 1, 18, 3, 1, 0x409, 4, text.len() as u16, 0] {
        u16be(&mut names, v);
    }
    names.extend_from_slice(&text);
    while names.len() % 4 != 0 {
        names.push(0);
    }
    let mut out = Vec::new();
    u32be(&mut out, 0x00010000);
    for v in [2u16, 32, 1, 0] {
        u16be(&mut out, v);
    }
    let start = 12 + 2 * 16;
    for (tag, at, len) in [(b"cmap", start, cmap.len()), (b"name", start + cmap.len(), names.len())] {
        out.extend_from_slice(tag);
        u32be(&mut out, 0);
        u32be(&mut out, at as u32);
        u32be(&mut out, len as u32);
    }
    out.extend_from_slice(&cmap);
    out.extend_from_slice(&names);
    out
}

#[test]
fn a_font_is_named_by_its_full_name_and_hashed_by_its_bytes() {
    let bytes = font("Test Serif");
    let face = typeface(&bytes).unwrap();
    assert_eq!(face.name, "Test Serif");
    assert_eq!(face.hash, engine::content_hash(&bytes));
}

#[test]
fn other_files_are_not_fonts() {
    let not = Err("not a TrueType or OpenType font".to_string());
    assert_eq!(typeface(b"GIF89a"), not);
    assert_eq!(typeface(&[]), not);
}

#[test]
fn fonts_are_added_once_and_found_by_their_hash() {
    let mut set = FontSet::with_bundled(&font("Bundled")).unwrap();
    let serif = add_font(&mut set, &font("Serif")).unwrap();
    add_font(&mut set, &font("Serif")).unwrap();
    assert!(add_font(&mut set, b"not a font").is_err());
    let names: Vec<String> = fonts(&set).into_iter().map(|t| t.name).collect();
    assert_eq!(names, vec!["Bundled".to_string(), "Serif".to_string()]);
    assert_eq!(font_id(&set, &None), 0);
    assert_eq!(font_id(&set, &Some(serif)), 1);
    let gone = typeface(&font("Gone")).unwrap();
    assert_eq!(font_id(&set, &Some(gone)), MISSING);
}

#[test]
fn a_missing_font_draws_in_the_bundled_one() {
    let mut set = FontSet::with_bundled(&font("Bundled")).unwrap();
    add_font(&mut set, &font("Serif")).unwrap();
    assert_eq!(font_bytes(&set, 1), &font("Serif")[..]);
    assert_eq!(font_bytes(&set, 1 | MISSING), &font("Serif")[..]);
    assert_eq!(font_bytes(&set, MISSING), &font("Bundled")[..]);
    assert_eq!(font_bytes(&set, 9), &font("Bundled")[..]);
}

#[test]
fn hyphens_go_between_the_syllables_of_each_word() {
    // hypher splits "extensive" into ex-ten-sive
    assert_eq!(syllables("extensive", Lang::En), vec![2, 5]);
    assert_eq!(syllables("an extensive, extensive", Lang::En), vec![5, 8, 16, 19]);
    assert_eq!(syllables("12 ... ", Lang::En), Vec::<usize>::new());
}

#[test]
fn english_and_german_break_words_differently() {
    let en = syllables("hyphenation", Lang::En);
    let de = syllables("hyphenation", Lang::De);
    assert_ne!(en, de);
    assert!(de.windows(2).all(|w| w[0] < w[1]));
}

#[test]
fn syllables_count_bytes_of_wide_characters() {
    // "é" takes two bytes before the word
    let plain = syllables("extensive", Lang::En);
    let shifted = syllables("é extensive", Lang::En);
    assert_eq!(shifted, plain.iter().map(|b| b + 3).collect::<Vec<_>>());
}

#[test]
fn a_line_holds_the_bytes_up_to_its_end_unless_the_next_starts_there() {
    let lines = [(0, 5), (5, 9), (10, 14)];
    assert_eq!(line_of(&lines, 0), 0);
    assert_eq!(line_of(&lines, 4), 0);
    assert_eq!(line_of(&lines, 5), 1);
    assert_eq!(line_of(&lines, 9), 1);
    assert_eq!(line_of(&lines, 14), 2);
    assert_eq!(line_of(&lines, 99), 2);
    assert_eq!(line_of(&[], 3), 0);
}

#[test]
fn a_ligature_stands_for_all_its_letters_up_to_the_space() {
    let line = [g(0, false), g(3, false)];
    assert_eq!(source("fi x", &line, 0..2, "7"), ("fix".to_string(), vec![0..2, 2..3]));
    let line = [g(0, false), g(0, false)];
    assert_eq!(source("ab", &line, 0..2, ""), ("ab".to_string(), vec![0..2, 2..2]));
}

#[test]
fn an_inserted_hyphen_stands_for_a_hyphen() {
    let line = [g(0, false), g(1, false), g(2, true)];
    assert_eq!(source("extensive", &line, 0..3, ""), ("ex-".to_string(), vec![0..1, 1..2, 2..3]));
    assert_eq!(source("extensive", &line, 1..3, ""), ("x-".to_string(), vec![0..1, 1..2]));
}

#[test]
fn a_page_number_marker_stands_for_the_number() {
    let line = [g(0, false), g(1, false), g(3, false)];
    assert_eq!(
        source("p. \u{18}", &line, 0..3, "12"),
        ("p.12".to_string(), vec![0..1, 1..2, 2..4])
    );
}

#[test]
fn a_glyph_stops_at_unicode_white_space() {
    // a no-break space, an ideographic space and a line feed end the text of a glyph
    let line = [g(0, false), g(4, false)];
    assert_eq!(
        source("ab\u{a0}cd", &line, 0..2, ""),
        ("abcd".to_string(), vec![0..2, 2..4])
    );
    let line = [g(0, false)];
    assert_eq!(source("x\u{3000}y", &line, 0..1, ""), ("x".to_string(), vec![0..1]));
    assert_eq!(source("x\ny", &line, 0..1, ""), ("x".to_string(), vec![0..1]));
    // a zero width space is no white space
    assert_eq!(source("x\u{200b}y", &line, 0..1, ""), ("x\u{200b}y".to_string(), vec![0..5]));
}
