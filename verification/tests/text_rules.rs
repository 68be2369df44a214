use musee::strings::{to_lower_text, to_unix_lines, trimmed, trimmed_end, CharSet};
use musee::text::{
    canonical_primary_artist, clean_whitespace, normalize_text, safe_name, split_primary_artist,
    starts_word, track_prefix,
};

#[test]
fn trims_single_leading_underscore_artifact() {
    assert_eq!(normalize_text("_Name", false), "Name");
}

#[test]
fn trims_single_trailing_underscore_artifact() {
    assert_eq!(normalize_text("Name_", false), "Name");
}

#[test]
fn preserves_inner_underscores() {
    assert_eq!(normalize_text("A_B", false), "A_B");
}

#[test]
fn collapses_whitespace_without_regex() {
    assert_eq!(normalize_text(" A   B \t C ", false), "A B C");
}

#[test]
fn splits_primary_artist_on_feat_words() {
    assert_eq!(split_primary_artist("Artist feat. Guest"), "Artist");
}

#[test]
fn cleans_every_kind_of_white_space() {
    assert_eq!(clean_whitespace("\u{3000}a\u{a0}\t b\u{2028}"), "a b");
    assert_eq!(clean_whitespace(" \n "), "");
    let once = clean_whitespace("  x \u{85} y ");
    assert_eq!(once, "x y");
    assert_eq!(clean_whitespace(&once), once);
}

#[test]
fn normal_forms_have_no_loose_ends() {
    assert_eq!(normalize_text("", false), "Unknown");
    assert_eq!(normalize_text(" . . ", false), "Unknown");
    assert_eq!(normalize_text("Name...", false), "Name");
    assert_eq!(normalize_text("A\0B", false), "A B");
    assert_eq!(normalize_text("a__b", false), "a_b");
    assert_eq!(normalize_text("a_ _b", false), "a_ b");
    assert_eq!(normalize_text("a _ b", false), "a b");
    assert_eq!(normalize_text("a _", false), "a _");
    assert_eq!(normalize_text("__a", false), "_a");
    assert_eq!(normalize_text("\u{e9}_", false), "\u{e9}");
    assert_eq!(normalize_text("_\u{e9}", false), "\u{e9}");
    assert_eq!(normalize_text("_!", false), "_!");
    assert_eq!(normalize_text("AC/DC", false), "AC/DC");
}

#[test]
fn safe_names_hold_no_separators() {
    assert_eq!(safe_name("AC/DC"), "AC-DC");
    assert_eq!(safe_name("a\\b"), "a-b");
    assert_eq!(safe_name(".."), "Unknown");
    assert_eq!(safe_name("/"), "-");
}

#[test]
fn primary_artist_ends_at_the_first_separator() {
    assert_eq!(split_primary_artist("A; B"), "A");
    assert_eq!(split_primary_artist("A & B"), "A");
    assert_eq!(split_primary_artist("A, B"), "A");
    assert_eq!(split_primary_artist("A and B"), "A");
    assert_eq!(split_primary_artist("A WITH B"), "A");
    assert_eq!(split_primary_artist("A (Featuring B)"), "A (");
    assert_eq!(split_primary_artist("Anderson Featherstone"), "Anderson Featherstone");
    assert_eq!(split_primary_artist("\u{e9}and"), "\u{e9}");
    assert_eq!(split_primary_artist("  Solo   Artist "), "Solo Artist");
}

#[test]
fn both_names_of_one_artist_become_one() {
    assert_eq!(canonical_primary_artist("Kanye West feat. X"), "Ye");
    assert_eq!(canonical_primary_artist("YE"), "Ye");
    assert_eq!(canonical_primary_artist("Yes"), "Yes");
    assert_eq!(canonical_primary_artist(""), "Unknown");
}

#[test]
fn track_labels_have_two_digits() {
    assert_eq!(track_prefix(None), None);
    assert_eq!(track_prefix(Some("")), None);
    assert_eq!(track_prefix(Some("x")), None);
    assert_eq!(track_prefix(Some("0")).as_deref(), Some("00"));
    assert_eq!(track_prefix(Some("7")).as_deref(), Some("07"));
    assert_eq!(track_prefix(Some("007")).as_deref(), Some("07"));
    assert_eq!(track_prefix(Some("12")).as_deref(), Some("12"));
    assert_eq!(track_prefix(Some("3/12")).as_deref(), Some("312"));
    assert_eq!(track_prefix(Some("4294967295")).as_deref(), Some("4294967295"));
    assert_eq!(track_prefix(Some("4294967296")), None);
    assert_eq!(track_prefix(Some("\u{661}")), None);
}

#[test]
fn words_are_bounded_by_other_characters() {
    let text: Vec<char> = "band and".chars().collect();
    assert!(!starts_word(&text, 1, "and"));
    assert!(starts_word(&text, 5, "and"));
    assert!(!starts_word(&text, 8, "and"));
}

#[test]
fn texts_are_trimmed_at_their_ends() {
    assert_eq!(trimmed("\u{3000} a b\t", CharSet::Space), "a b");
    assert_eq!(trimmed("\r\n a\r", CharSet::LineBreak), " a");
    assert_eq!(trimmed("\n\ra\n", CharSet::LineFeed), "\ra");
    assert_eq!(trimmed(" \t ", CharSet::Space), "");
    assert_eq!(trimmed_end("\na\n\r", CharSet::LineBreak), "\na");
    assert_eq!(to_unix_lines("a\r\nb\rc\n\r"), "a\nb\nc\n\n");
    assert_eq!(to_lower_text("\u{c9}A"), "\u{c9}a");
}

#[test]
fn safe_forms_differ_in_separators_only() {
    for text in ["a/_", "a\\_b", "_/x_", "/ . /", "plain"] {
        let plain = normalize_text(text, false);
        assert_eq!(safe_name(text), plain.replace('/', "-").replace('\\', "-"));
    }
    assert_eq!(normalize_text("a/_", false), "a/_");
    assert_eq!(safe_name("a/_"), "a-_");
    assert_eq!(normalize_text("a___b", false), "a_b");
}

#[test]
fn forms_without_underscores_settle() {
    for text in [" A \0 B.. ", "x. .", "", "a/b\\ c."] {
        let form = normalize_text(text, true);
        assert_eq!(normalize_text(&form, true), form);
    }
    assert_eq!(normalize_text(" A \0 B.. ", false), "A B");
}

#[test]
fn the_first_artist_is_one_artist() {
    for text in ["A and B", "x\0and y", "Band with Me", "Kanye  West, Z", "feat", "A. & B"] {
        let first = split_primary_artist(text);
        assert_eq!(split_primary_artist(&first), first);
        let name = canonical_primary_artist(text);
        assert_eq!(canonical_primary_artist(&name), name);
        assert_eq!(split_primary_artist(&name), name);
    }
    assert_eq!(canonical_primary_artist("Kanye  West, Z"), "Ye");
    assert_eq!(canonical_primary_artist("feat"), "Unknown");
}
