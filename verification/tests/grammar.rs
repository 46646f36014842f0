use host_grammar::{format_number, is_numeral, is_valid_name, is_valid_slug, PAD_WIDTH};

#[test]
fn pads_to_width() {
    assert_eq!(format_number(1), "0001");
    assert_eq!(format_number(42), "0042");
    assert_eq!(format_number(1234), "1234");
    assert_eq!(format_number(10000), "10000"); // overflow: minimum width, no truncation
}

#[test]
fn accepts_well_formed_names() {
    assert!(is_valid_name("0000-use-markdown-decision-records"));
    assert!(is_valid_name("0001-example-milestone"));
    // The checker accepts exactly what the generator emits, including overflow.
    assert!(is_valid_name("10000-overflow")); // five-digit overflow, no leading zero
}

#[test]
fn rejects_malformed_names() {
    assert!(!is_valid_name("1-x")); // unpadded number
    assert!(!is_valid_name("0001-Bad_Slug")); // uppercase + underscore
    assert!(!is_valid_name("0001-")); // empty slug
    assert!(!is_valid_name("0001--double")); // doubled hyphen
    assert!(!is_valid_name("example")); // no number
    assert!(!is_valid_name("00001-overpadded")); // over-padded, never generated
}

#[test]
fn name_round_trips_through_generator() {
    // What the generator emits, the checker accepts, across the pad boundary.
    for n in [0u32, 1, 42, 9999, 10000, 12345] {
        assert!(is_valid_name(&format!("{}-slug", format_number(n))), "n={n}");
    }
}

#[test]
fn numerals() {
    assert!(is_numeral("5"));
    assert!(is_numeral("5.5")); // single decimal
    assert!(is_numeral("II")); // roman
    assert!(is_numeral("IV")); // subtractive roman
    assert!(is_numeral("MMM")); // 3000
    assert!(!is_numeral("1.2.3")); // version string, not a numeral
    assert!(!is_numeral("first")); // ordinal word
    assert!(!is_numeral("")); // empty
    // The Roman arm validates canonically, not by charset alone.
    assert!(!is_numeral("lid")); // ordinary word built from roman letters
    assert!(!is_numeral("mid"));
    assert!(!is_numeral("mild"));
    assert!(!is_numeral("IIII")); // non-canonical (should be IV)
    assert!(!is_numeral("VV")); // non-canonical
    assert!(!is_numeral("MMMM")); // 4000, out of canonical range
}

#[test]
fn pad_width_is_four() {
    assert_eq!(PAD_WIDTH, 4);
    assert_eq!(format_number(0), "0000");
    assert_eq!(format_number(9999), "9999");
    assert_eq!(format_number(u32::MAX), "4294967295");
}

#[test]
fn slugs() {
    assert!(is_valid_slug("a"));
    assert!(is_valid_slug("use-markdown-2"));
    assert!(!is_valid_slug(""));
    assert!(!is_valid_slug("-lead"));
    assert!(!is_valid_slug("trail-"));
    assert!(!is_valid_slug("a--b"));
    assert!(!is_valid_slug("Upper"));
    assert!(!is_valid_slug("under_score"));
    assert!(!is_valid_slug("caf\u{e9}"));
}

#[test]
fn names_split_at_first_hyphen() {
    assert!(is_valid_name("0042-a-b-c"));
    assert!(!is_valid_name("0042"));
    assert!(!is_valid_name("-0042-x"));
    assert!(!is_valid_name("004a-x"));
    assert!(!is_valid_name("0042-x y"));
    assert!(is_valid_name("99999999999-beyond-u32")); // accepted, though no u32 formats to it
}

#[test]
fn generated_number_is_exactly_what_is_accepted() {
    // law: a valid number whose value fits u32 is the formatting of its value
    for s in ["0000", "0007", "0420", "1234", "10000", "4294967295"] {
        let v: u32 = s.parse().unwrap();
        assert!(is_valid_name(&format!("{s}-x")));
        assert_eq!(format_number(v), s);
    }
}

#[test]
fn numeral_edges() {
    assert!(is_numeral("0"));
    assert!(is_numeral("12.75"));
    assert!(!is_numeral("."));
    assert!(!is_numeral("5."));
    assert!(!is_numeral(".5"));
    assert!(!is_numeral("1..2"));
    assert!(is_numeral("mmmcmxcix")); // 3999 in any case
    assert!(is_numeral("xlii"));
    assert!(is_numeral("I"));
    assert!(!is_numeral("IM")); // not canonical (999 is CMXCIX)
    assert!(!is_numeral("XM"));
    assert!(!is_numeral("ABC"));
    // case mapping goes through the full Unicode uppercase: dotless i uppercases to I
    assert!(is_numeral("\u{131}\u{131}"));
}
