use hegel::native::schema::special::{days_in_month, format_time, uuid_string};
use hegel::native::schema::text::{build_intervals, is_valid_category, validate_text_schema, TextSchemaError};
use hegel::native::unicodedata::{Category, CategoryTable};
use hegel::native::schema::{
    build_string_alphabet, char_in_category, codepoint_at_index, count_valid_codepoints,
    is_surrogate, is_surrogate_cp, StringAlphabet, StringSchema,
};

#[test]
fn counts_codepoints_outside_the_surrogate_block() {
    assert_eq!(count_valid_codepoints(0, 0x7F), 0x80);
    assert_eq!(count_valid_codepoints(0, 0x10FFFF), 0x110000 - 0x800);
    assert_eq!(count_valid_codepoints(0xD800, 0xDFFF), 0);
    assert_eq!(count_valid_codepoints(0xD7FF, 0xE000), 2);
    assert_eq!(count_valid_codepoints(5, 4), 0);
}

#[test]
fn indexes_skip_the_surrogate_block() {
    assert_eq!(codepoint_at_index(0x41, 0x5A, 0), 'A');
    assert_eq!(codepoint_at_index(0x41, 0x5A, 25), 'Z');
    assert_eq!(codepoint_at_index(0xD7FE, 0xE001, 1), '\u{D7FF}');
    assert_eq!(codepoint_at_index(0xD7FE, 0xE001, 2), '\u{E000}');
    assert_eq!(codepoint_at_index(0xD900, 0xE005, 3), '\u{E003}');
}

#[test]
fn surrogates_are_only_codepoints() {
    assert!(is_surrogate_cp(0xD800));
    assert!(is_surrogate_cp(0xDFFF));
    assert!(!is_surrogate_cp(0xE000));
    assert!(!is_surrogate('a'));
    assert!(!hegel::native::schema::text::is_surrogate('\u{FFFD}'));
}

#[test]
fn category_membership_follows_character_properties() {
    assert!(char_in_category('A', "Lu"));
    assert!(!char_in_category('a', "Lu"));
    assert!(char_in_category('a', "Ll"));
    assert!(char_in_category('a', "L"));
    assert!(char_in_category('7', "Nd"));
    assert!(char_in_category(' ', "Zs"));
    assert!(char_in_category('\t', "Z"));
    assert!(char_in_category('_', "Pc"));
    assert!(char_in_category('!', "P"));
    assert!(char_in_category('+', "Sm"));
    assert!(char_in_category('$', "Sc"));
    assert!(char_in_category('\u{7}', "Cc"));
    assert!(!char_in_category('a', "Cs"));
    assert!(!char_in_category('a', "Xx"));
}

#[test]
fn category_names_are_majors_or_codes() {
    for name in ["L", "M", "N", "P", "S", "Z", "C", "Lu", "Nd", "Zs", "Cn", "Co"] {
        assert!(is_valid_category(name), "{name}");
    }
    for name in ["", "X", "Lx", "LU", "Lul", "l"] {
        assert!(!is_valid_category(name), "{name}");
    }
}

#[test]
fn months_have_their_gregorian_lengths() {
    assert_eq!(days_in_month(2023, 1), 31);
    assert_eq!(days_in_month(2023, 2), 28);
    assert_eq!(days_in_month(2024, 2), 29);
    assert_eq!(days_in_month(1900, 2), 28);
    assert_eq!(days_in_month(2000, 2), 29);
    assert_eq!(days_in_month(-4, 2), 29);
    assert_eq!(days_in_month(-100, 2), 28);
    assert_eq!(days_in_month(2023, 4), 30);
    assert_eq!(days_in_month(2023, 12), 31);
}

#[test]
fn times_print_in_iso_form() {
    assert_eq!(format_time(9, 5, 3, 0), "09:05:03");
    assert_eq!(format_time(23, 59, 59, 1), "23:59:59.000001");
    assert_eq!(format_time(0, 0, 0, 999_999), "00:00:00.999999");
    assert_eq!(format_time(-1, 100, 7, -5), format!("{:02}:{:02}:{:02}.{:06}", -1, 100, 7, -5));
    assert_eq!(format_time(i128::MIN, 0, 0, 0), format!("{:02}:00:00", i128::MIN));
}

fn plain_schema() -> StringSchema {
    StringSchema {
        codec: None,
        min_codepoint: None,
        max_codepoint: None,
        categories: None,
        exclude_categories: None,
        include_characters: None,
        exclude_characters: None,
    }
}

fn explicit(a: &StringAlphabet) -> Vec<char> {
    match a {
        StringAlphabet::Explicit(v) => v.clone(),
        StringAlphabet::Range { .. } => panic!("expected an explicit alphabet"),
    }
}

#[test]
fn unfiltered_schema_is_a_range() {
    let a = build_string_alphabet(&plain_schema());
    assert!(matches!(a, StringAlphabet::Range { min: 0, max: 0x10FFFF }));
    assert_eq!(a.len(), 0x110000 - 0x800);
    assert_eq!(a.char_at(0), '\0');
    assert_eq!(a.char_at(0xD800), '\u{E000}');

    let mut s = plain_schema();
    s.codec = Some("ascii".to_string());
    s.min_codepoint = Some(65);
    s.max_codepoint = Some(70);
    let a = build_string_alphabet(&s);
    assert!(matches!(a, StringAlphabet::Range { min: 65, max: 70 }));
    assert_eq!(a.len(), 6);
    assert_eq!(a.char_at(5), 'F');

    // Excluding only surrogates filters nothing.
    let mut s = plain_schema();
    s.codec = Some("latin-1".to_string());
    s.exclude_categories = Some(vec!["Cs".to_string()]);
    assert!(matches!(build_string_alphabet(&s), StringAlphabet::Range { min: 0, max: 255 }));
}

#[test]
fn excluded_characters_are_left_out() {
    let mut s = plain_schema();
    s.codec = Some("ascii".to_string());
    s.exclude_characters = Some("ab".to_string());
    let v = explicit(&build_string_alphabet(&s));
    let expected: Vec<char> = (0u8..=127).map(char::from).filter(|c| *c != 'a' && *c != 'b').collect();
    assert_eq!(v, expected);
}

#[test]
fn included_characters_come_after_the_scan() {
    let mut s = plain_schema();
    s.codec = Some("ascii".to_string());
    s.min_codepoint = Some(0x30);
    s.max_codepoint = Some(0x39);
    s.exclude_characters = Some("5".to_string());
    s.include_characters = Some("5z0é".to_string());
    let v = explicit(&build_string_alphabet(&s));
    assert_eq!(v, vec!['0', '1', '2', '3', '4', '6', '7', '8', '9', '5']);
}

#[test]
fn category_filters_scan_the_basic_plane() {
    let mut s = plain_schema();
    s.codec = Some("ascii".to_string());
    s.categories = Some(vec!["Nd".to_string()]);
    let v = explicit(&build_string_alphabet(&s));
    assert_eq!(v, ('0'..='9').collect::<Vec<char>>());

    let mut s = plain_schema();
    s.codec = Some("ascii".to_string());
    s.exclude_categories = Some(vec!["Cc".to_string(), "Cs".to_string()]);
    let v = explicit(&build_string_alphabet(&s));
    assert_eq!(v, (0x20u8..=0x7E).map(char::from).collect::<Vec<char>>());
}

#[test]
fn empty_categories_keep_included_characters_only() {
    let mut s = plain_schema();
    s.categories = Some(Vec::new());
    s.max_codepoint = Some(0x7F);
    s.include_characters = Some("xyé".to_string());
    s.exclude_characters = Some("y".to_string());
    let v = explicit(&build_string_alphabet(&s));
    assert_eq!(v, vec!['x']);
}

#[test]
fn uuids_print_as_grouped_hex() {
    assert_eq!(uuid_string(0, 0, None), "00000000-0000-0000-0000-000000000001");
    assert_eq!(
        uuid_string(0x0123456789abcdef, 0xfedcba9876543210, None),
        "01234567-89ab-cdef-fedc-ba9876543210"
    );
    assert_eq!(uuid_string(u64::MAX, u64::MAX, Some(4)), "ffffffff-ffff-4fff-bfff-ffffffffffff");
    assert_eq!(uuid_string(0, 0, Some(1)), "00000000-0000-1000-8000-000000000000");
}

fn digits_table() -> CategoryTable {
    CategoryTable {
        ranges: vec![
            (0x2F, Category::Po),
            (0x39, Category::Nd),
            (0x40, Category::Po),
            (0x5A, Category::Lu),
            (0x60, Category::Po),
            (0x7A, Category::Ll),
            (0x10FFFF, Category::Cn),
        ],
    }
}

#[test]
fn unfiltered_intervals_skip_the_surrogates() {
    let runs = build_intervals(&plain_schema(), &digits_table());
    assert_eq!(runs, vec![(0, 0xD7FF), (0xE000, 0x10FFFF)]);
}

#[test]
fn intervals_drop_excluded_and_add_included_characters() {
    let mut s = plain_schema();
    s.codec = Some("ascii".to_string());
    s.exclude_characters = Some("b".to_string());
    s.include_characters = Some("\u{e9}".to_string());
    assert_eq!(validate_text_schema(&s), Ok(()));
    let runs = build_intervals(&s, &digits_table());
    assert_eq!(runs, vec![(0, 0x61), (0x63, 0x7F), (0xE9, 0xE9)]);
}

#[test]
fn category_intervals_cover_the_named_categories() {
    let mut s = plain_schema();
    s.categories = Some(vec!["Nd".to_string(), "Lu".to_string()]);
    assert_eq!(build_intervals(&s, &digits_table()), vec![(0x30, 0x39), (0x41, 0x5A)]);

    // Excluding a category leaves the astral planes alone.
    let mut s = plain_schema();
    s.exclude_categories = Some(vec!["Cn".to_string(), "Cs".to_string()]);
    assert_eq!(build_intervals(&s, &digits_table()), vec![(0, 0x7A), (0x10000, 0x10FFFF)]);

    // Excluding only surrogates filters nothing.
    let mut s = plain_schema();
    s.codec = Some("latin-1".to_string());
    s.exclude_categories = Some(vec!["Cs".to_string()]);
    assert_eq!(build_intervals(&s, &digits_table()), vec![(0, 0xFF)]);
}

#[test]
fn empty_categories_allow_the_included_characters_only() {
    let mut s = plain_schema();
    s.categories = Some(Vec::new());
    s.include_characters = Some("cab".to_string());
    assert_eq!(build_intervals(&s, &digits_table()), vec![(0x61, 0x63)]);
}

#[test]
fn invalid_text_schemas_are_refused_in_order() {
    let mut s = plain_schema();
    s.codec = Some("utf-16".to_string());
    s.categories = Some(vec!["Xx".to_string()]);
    assert_eq!(validate_text_schema(&s), Err(TextSchemaError::InvalidCodec));
    s.codec = Some("utf-8".to_string());
    assert_eq!(validate_text_schema(&s), Err(TextSchemaError::InvalidCategory));
    s.categories = Some(vec!["L".to_string()]);
    s.include_characters = Some("xy".to_string());
    s.exclude_characters = Some("zy".to_string());
    assert_eq!(validate_text_schema(&s), Err(TextSchemaError::Overlap));
    s.exclude_characters = Some("z".to_string());
    assert_eq!(validate_text_schema(&s), Ok(()));
}
