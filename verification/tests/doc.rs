use engine::doc::{byte_of, paragraphs, places, prefix, spreads, utf16_of, Side};

#[test]
fn facing_pages_pair_after_the_first_right_page() {
    assert_eq!(spreads(4, true), vec![vec![0], vec![1, 2], vec![3]]);
    assert_eq!(spreads(3, true), vec![vec![0], vec![1, 2]]);
    assert_eq!(spreads(0, true), Vec::<Vec<usize>>::new());
    assert_eq!(spreads(3, false), vec![vec![0], vec![1], vec![2]]);
}

#[test]
fn a_master_prefix_is_the_part_before_the_hyphen_or_the_first_letter() {
    assert_eq!(prefix("A-Master"), "A");
    assert_eq!(prefix("b2_-Cover"), "B2_");
    assert_eq!(prefix("Body"), "B");
    assert_eq!(prefix("long-name"), "L");
    assert_eq!(prefix("-x"), "-");
    assert_eq!(prefix(""), "");
    assert_eq!(prefix("ß-Seite"), "SS");
}

#[test]
fn utf16_indices_and_bytes_convert_at_character_boundaries() {
    let s = "aé😀b";
    assert_eq!(byte_of(s, 0), Ok(0));
    assert_eq!(byte_of(s, 1), Ok(1));
    assert_eq!(byte_of(s, 2), Ok(3));
    assert_eq!(byte_of(s, 3), Ok(7));
    assert_eq!(byte_of(s, 4), Ok(7));
    assert_eq!(byte_of(s, 5), Ok(8));
    assert_eq!(byte_of(s, 6), Err("index outside the text".to_string()));
    assert_eq!(utf16_of(s, 0), 0);
    assert_eq!(utf16_of(s, 3), 2);
    assert_eq!(utf16_of(s, 7), 4);
    assert_eq!(utf16_of(s, 8), 5);
    assert_eq!(utf16_of(s, 100), 5);
}

#[test]
fn paragraph_ranges_cover_the_whole_paragraphs_a_range_touches() {
    let text = "one\ntwo\nthree";
    assert_eq!(paragraphs(text, &(5..6)), 4..8);
    assert_eq!(paragraphs(text, &(2..5)), 0..8);
    assert_eq!(paragraphs(text, &(4..4)), 4..8);
    assert_eq!(paragraphs(text, &(8..13)), 8..13);
    assert_eq!(paragraphs(text, &(3..4)), 0..4);
    assert_eq!(paragraphs("", &(0..0)), 0..0);
}

#[test]
fn facing_pages_start_on_the_right_and_then_alternate() {
    assert_eq!(
        places(4, true),
        vec![
            (0, Some(Side::Right)),
            (1, Some(Side::Left)),
            (1, Some(Side::Right)),
            (2, Some(Side::Left)),
        ]
    );
    assert_eq!(places(2, false), vec![(0, None), (1, None)]);
    assert_eq!(places(0, true), vec![]);
}
