use nxtpdf::pdf::text::{encode_win_ansi, glyph_name_to_char, parse_cmap};

#[test]
fn bfchar_entries_are_read() {
    let map = parse_cmap("beginbfchar <0041> <0061> <0042> <0062> endbfchar");
    assert_eq!(map.get(&0x41).map(String::as_str), Some("a"));
    assert_eq!(map.get(&0x42).map(String::as_str), Some("b"));
}

#[test]
fn a_bfrange_walks_its_destination() {
    let map = parse_cmap("beginbfrange <0003> <0005> <0041> endbfrange");
    assert_eq!(map.get(&3).map(String::as_str), Some("A"));
    assert_eq!(map.get(&4).map(String::as_str), Some("B"));
    assert_eq!(map.get(&5).map(String::as_str), Some("C"));
}

#[test]
fn a_bfrange_list_maps_each_entry_and_keeps_its_place() {
    let map = parse_cmap(
        "beginbfrange <0003> <0005> [<0058> <0059> <005A>] <0010> <0011> <0041> endbfrange",
    );

    assert_eq!(map.get(&3).map(String::as_str), Some("X"));
    assert_eq!(map.get(&4).map(String::as_str), Some("Y"));
    assert_eq!(map.get(&5).map(String::as_str), Some("Z"));
    assert_eq!(map.get(&0x10).map(String::as_str), Some("A"));
    assert_eq!(map.get(&0x11).map(String::as_str), Some("B"));
}

#[test]
fn glyph_names_resolve_to_characters() {
    assert_eq!(glyph_name_to_char(b"space"), Some(' '));
    assert_eq!(glyph_name_to_char(b"A"), Some('A'));
    assert_eq!(glyph_name_to_char(b"seven"), Some('7'));
    assert_eq!(glyph_name_to_char(b"uni20AC"), Some('\u{20AC}'));
    assert_eq!(glyph_name_to_char(b"nosuchglyph"), None);
}

// --- Further cases -------------------------------------------------------

#[test]
fn a_cmap_without_sections_maps_nothing() {
    assert!(parse_cmap("begincmap endcmap").is_empty());
}

#[test]
fn a_later_entry_for_the_same_code_wins() {
    let map = parse_cmap("beginbfchar <0041> <0061> endbfchar beginbfchar <0041> <0062> endbfchar");
    assert_eq!(map.get(&0x41).map(String::as_str), Some("b"));
    assert_eq!(map.len(), 1);
}

#[test]
fn a_surrogate_pair_destination_decodes_to_one_character() {
    let map = parse_cmap("beginbfchar <0001> <D83DDE00> endbfchar");
    assert_eq!(map.get(&1).map(String::as_str), Some("\u{1F600}"));
}

#[test]
fn a_multi_character_destination_is_kept_whole() {
    let map = parse_cmap("beginbfchar <0005> <00660069> endbfchar");
    assert_eq!(map.get(&5).map(String::as_str), Some("fi"));
}

#[test]
fn a_bfrange_walks_the_last_unit_of_a_longer_destination() {
    let map = parse_cmap("beginbfrange <0001> <0002> <00660069> endbfrange");
    assert_eq!(map.get(&1).map(String::as_str), Some("fi"));
    assert_eq!(map.get(&2).map(String::as_str), Some("fj"));
}

#[test]
fn glyph_names_cover_hex_spellings_and_digits() {
    assert_eq!(glyph_name_to_char(b"a.sc"), None);
    assert_eq!(glyph_name_to_char(b"u1F600"), Some('\u{1F600}'));
    assert_eq!(glyph_name_to_char(b"uni0041"), Some('A'));
    assert_eq!(glyph_name_to_char(b"zero"), Some('0'));
    assert_eq!(glyph_name_to_char(b""), None);
}

#[test]
fn win_ansi_keeps_latin1_and_replaces_the_rest() {
    assert_eq!(encode_win_ansi("Hié"), vec![b'H', b'i', 0xE9]);
    assert_eq!(encode_win_ansi("€"), vec![b'?']);
}
