use unic_locale_impl::extensions::UnicodeExtensionKey;
use unic_locale_impl::parser::{parse_extension_tail, parse_locale};
use unic_locale_impl::{
    ExtensionType, ExtensionsMap, LanguageIdentifier, Locale, LocaleError, ParserError,
};

fn bad(position: usize) -> LocaleError {
    LocaleError::ParserError(ParserError::InvalidExtension(position))
}

fn canonical(input: &str) -> String {
    parse_locale(input.as_bytes()).unwrap().to_string()
}

#[test]
fn default_map_is_empty_and_has_empty_text() {
    let map = ExtensionsMap::default();
    assert!(map.is_empty());
    assert_eq!(map.to_string(), "");
    assert_eq!(map.to_bytes(), Vec::<u8>::new());
    assert!(!map.has_unicode());
    assert!(!map.has_transform());
    assert!(!map.has_private());
}

#[test]
fn empty_tail_is_an_empty_map() {
    let map = parse_extension_tail(b"").unwrap();
    assert!(map.is_empty());
    assert_eq!(map, ExtensionsMap::default());
}

#[test]
fn text_of_a_map_has_no_leading_separator() {
    let loc = parse_locale(b"en-x-foo-u-hc-h12").unwrap();
    assert_eq!(loc.extensions.to_string(), "u-hc-h12-x-foo");
    assert_eq!(loc.extensions.to_bytes(), b"u-hc-h12-x-foo".to_vec());
    assert_eq!(loc.to_string(), "en-u-hc-h12-x-foo");
    let mut out = b"en".to_vec();
    loc.extensions.push_tail(&mut out);
    assert_eq!(out, b"en-u-hc-h12-x-foo".to_vec());
    let mut out = b"en".to_vec();
    ExtensionsMap::default().push_tail(&mut out);
    assert_eq!(out, b"en".to_vec());
    let again = parse_extension_tail(loc.extensions.to_bytes().as_slice()).unwrap();
    assert_eq!(again, loc.extensions);
}

#[test]
fn tail_is_read_on_its_own() {
    let map = parse_extension_tail(b"u-hc-h12-x-foo").unwrap();
    assert_eq!(map.to_string(), "u-hc-h12-x-foo");
    assert_eq!(parse_extension_tail(b"hc-h12"), Err(ParserError::InvalidExtension(0)));
    assert_eq!(parse_extension_tail(b"-"), Err(ParserError::InvalidExtension(0)));
}

#[test]
fn extensions_are_written_in_canonical_order() {
    assert_eq!(canonical("en-x-foo-u-hc-h12"), "en-u-hc-h12-x-foo");
    assert_eq!(canonical("en-u-hc-h12-t-de-h0-hybrid"), "en-t-de-h0-hybrid-u-hc-h12");
    assert_eq!(canonical("en-b-foo-a-bar-x-zzz"), "en-a-bar-b-foo-x-zzz");
    assert_eq!(
        canonical("en-x-foo-u-nu-latn-z-ab-t-en-a-cd"),
        "en-t-en-u-nu-latn-a-cd-z-ab-x-foo"
    );
}

#[test]
fn order_of_sequences_does_not_matter() {
    let expected = "en-t-de-h0-hybrid-u-hc-h12-a-foo-b-bar-x-baz";
    for text in [
        "en-t-de-h0-hybrid-u-hc-h12-a-foo-b-bar-x-baz",
        "en-x-baz-u-hc-h12-t-de-h0-hybrid-b-bar-a-foo",
        "en-b-bar-a-foo-x-baz-t-de-h0-hybrid-u-hc-h12",
        "en-a-foo-u-hc-h12-b-bar-x-baz-t-de-h0-hybrid",
        "en-u-hc-h12-b-bar-t-de-h0-hybrid-a-foo-x-baz",
    ] {
        assert_eq!(canonical(text), expected);
        assert_eq!(parse_locale(text.as_bytes()).unwrap(), parse_locale(expected.as_bytes()).unwrap());
    }
}

#[test]
fn private_sequence_takes_the_letters_that_follow_it_unless_they_are_known() {
    assert_eq!(canonical("en-a-bar-x-foo"), "en-a-bar-x-foo");
    assert_eq!(canonical("en-x-foo-a-bar"), "en-x-a-bar-foo");
}

#[test]
fn private_tokens_are_sorted_and_lower_case() {
    assert_eq!(canonical("en-x-Foo-a-BAR"), "en-x-a-bar-foo");
    assert_eq!(canonical("und-x-9-1"), "und-x-1-9");
}

#[test]
fn private_sequence_ends_only_at_a_known_letter() {
    let loc = parse_locale(b"en-x-a-b-u-hc").unwrap();
    assert!(loc.extensions.has_private_value(b"a"));
    assert!(loc.extensions.has_private_value(b"b"));
    assert!(loc.extensions.has_unicode_key(b"hc"));
    assert!(!loc.extensions.has_other(b'a'));
    assert_eq!(loc.to_string(), "en-u-hc-x-a-b");
}

#[test]
fn unicode_attributes_come_before_keywords() {
    assert_eq!(canonical("en-u-nu-latn-hc-h12-foo"), "en-u-foo-hc-h12-nu-latn");
    assert_eq!(canonical("en-u-zeta-alpha"), "en-u-alpha-zeta");
    assert_eq!(canonical("en-u-hc-nu-latn"), "en-u-hc-nu-latn");
    assert_eq!(canonical("en-U-HC-H12"), "en-u-hc-h12");
}

#[test]
fn keyword_takes_the_next_segment_as_its_value() {
    let loc = parse_locale(b"en-u-hc-foo").unwrap();
    assert!(loc.extensions.has_unicode_key(b"hc"));
    assert!(!loc.extensions.has_unicode_attribute(b"foo"));
    let loc = parse_locale(b"en-u-foo-hc").unwrap();
    assert!(loc.extensions.has_unicode_attribute(b"foo"));
    assert_eq!(loc.to_string(), "en-u-foo-hc");
}

#[test]
fn duplicate_keyword_is_rejected() {
    assert_eq!(parse_locale(b"en-u-hc-h12-hc-h24").err(), Some(bad(4)));
}

#[test]
fn duplicate_attribute_is_rejected() {
    assert_eq!(parse_locale(b"en-u-foo-bar-foo").err(), Some(bad(4)));
}

#[test]
fn duplicate_private_token_is_rejected() {
    assert_eq!(parse_locale(b"en-x-foo-FOO").err(), Some(bad(3)));
}

#[test]
fn duplicate_extension_letter_is_rejected() {
    assert_eq!(parse_locale(b"en-u-hc-h12-u-nu-latn").err(), Some(bad(4)));
    assert_eq!(parse_locale(b"en-a-bb-a-cc").err(), Some(bad(3)));
    assert_eq!(parse_locale(b"en-x-foo-x-bar").err(), Some(bad(3)));
    assert_eq!(parse_locale(b"en-t-de-t-fr").err(), Some(bad(3)));
}

#[test]
fn unknown_keyword_is_rejected() {
    assert_eq!(parse_locale(b"en-u-zz-foo").err(), Some(bad(2)));
    assert_eq!(parse_locale(b"en-u-h!").err(), Some(bad(2)));
}

#[test]
fn sequence_without_segment_is_rejected() {
    assert_eq!(parse_locale(b"en-u").err(), Some(bad(2)));
    assert_eq!(parse_locale(b"en-u-x-foo").err(), Some(bad(2)));
    assert_eq!(parse_locale(b"en-x").err(), Some(bad(2)));
    assert_eq!(parse_locale(b"en-a").err(), Some(bad(2)));
}

#[test]
fn malformed_segments_are_rejected() {
    assert_eq!(parse_locale(b"en-u-toolongsegment").err(), Some(bad(2)));
    assert_eq!(parse_locale(b"en-u-1").err(), Some(bad(2)));
    assert_eq!(parse_locale(b"en-u-hc-h12-").err(), Some(bad(4)));
    assert_eq!(parse_locale(b"en--u-hc").err(), Some(bad(1)));
    assert_eq!(parse_locale(b"en-x-foo!").err(), Some(bad(2)));
    assert_eq!(parse_locale(b"en-x-ninechars").err(), Some(bad(2)));
    assert_eq!(parse_locale(b"en-a-b1-c").err(), Some(bad(4)));
    assert_eq!(parse_locale(b"en-a-1").err(), Some(bad(2)));
    assert_eq!(parse_locale("en-x-é".as_bytes()).err(), Some(bad(2)));
}

#[test]
fn other_extension_keeps_its_subtags_as_written() {
    assert_eq!(canonical("en-A-Foo-BAR"), "en-a-Foo-BAR");
    let loc = parse_locale(b"en-a-foo").unwrap();
    assert!(loc.extensions.has_other(b'a'));
    assert!(!loc.extensions.has_other(b'b'));
    assert!(!loc.extensions.is_empty());
}

#[test]
fn transform_extension_has_a_language_and_fields() {
    assert_eq!(canonical("en-t-DE-latn-at-h0-Hybrid"), "en-t-de-Latn-AT-h0-hybrid");
    assert_eq!(canonical("en-t-m0-names-h0-hybrid"), "en-t-h0-hybrid-m0-names");
    assert_eq!(canonical("en-t-de"), "en-t-de");
    assert_eq!(canonical("en-t-und-h0-hybrid"), "en-t-und-h0-hybrid");
    assert_eq!(parse_locale(b"en-t-h0").err(), Some(bad(3)));
    assert_eq!(parse_locale(b"en-t-de-h0-hybrid-h0-other").err(), Some(bad(5)));
    assert_eq!(parse_locale(b"en-t-de-foo").err(), Some(bad(3)));
    assert_eq!(parse_locale(b"en-t-h0-xy").err(), Some(bad(3)));
}

#[test]
fn set_unicode_value_checks_and_overwrites() {
    let mut map = ExtensionsMap::default();
    assert_eq!(map.set_unicode_value(UnicodeExtensionKey::HourCycle, Some(b"H12")), Ok(()));
    assert_eq!(map.to_string(), "u-hc-h12");
    assert_eq!(map.set_unicode_value(UnicodeExtensionKey::HourCycle, Some(b"h24")), Ok(()));
    assert_eq!(map.to_string(), "u-hc-h24");
    assert_eq!(map.set_unicode_value(UnicodeExtensionKey::Calendar, None), Ok(()));
    assert_eq!(map.to_string(), "u-ca-hc-h24");
    assert_eq!(map.set_unicode_value(UnicodeExtensionKey::Calendar, Some(b"ab")), Err(bad(1)));
    assert_eq!(map.set_unicode_value(UnicodeExtensionKey::Calendar, Some(b"a_cde")), Err(bad(1)));
    assert_eq!(map.to_string(), "u-ca-hc-h24");
    assert!(map.has_unicode());
}

#[test]
fn set_and_remove_unicode_attribute() {
    let mut map = ExtensionsMap::default();
    assert_eq!(map.set_unicode_attribute(b"Zeta"), Ok(()));
    assert_eq!(map.set_unicode_attribute(b"alpha"), Ok(()));
    assert_eq!(map.set_unicode_attribute(b"ALPHA"), Err(bad(0)));
    assert_eq!(map.set_unicode_attribute(b"ab"), Err(bad(0)));
    assert_eq!(map.to_string(), "u-alpha-zeta");
    assert!(map.remove_unicode_attribute(b"ZETA"));
    assert!(!map.remove_unicode_attribute(b"zeta"));
    assert_eq!(map.to_string(), "u-alpha");
    assert!(map.remove_unicode_attribute(b"alpha"));
    assert!(map.is_empty());
}

#[test]
fn set_and_remove_private_value() {
    let mut map = ExtensionsMap::default();
    assert_eq!(map.set_private_value(b"testing", Some(b"ignored")), Ok(()));
    assert_eq!(map.set_private_value(b"a", None), Ok(()));
    assert_eq!(map.set_private_value(b"testing", None), Err(bad(0)));
    assert_eq!(map.set_private_value(b"", None), Err(bad(0)));
    assert_eq!(map.set_private_value(b"ninechars", None), Err(bad(0)));
    assert_eq!(map.set_private_value(b"a-b", None), Err(bad(0)));
    assert_eq!(map.to_string(), "x-a-testing");
    assert!(map.has_private());
    assert!(map.remove_private_value(b"A"));
    assert!(!map.remove_private_value(b"a"));
    assert!(map.remove_private_value(b"testing"));
    assert!(!map.has_private());
    assert!(map.is_empty());
}

#[test]
fn set_transform_lang_and_field() {
    let mut map = ExtensionsMap::default();
    let lang = LanguageIdentifier::from_bytes(b"de-AT").unwrap();
    assert_eq!(map.set_transform_lang(lang), Ok(()));
    assert_eq!(map.to_string(), "t-de-AT");
    assert_eq!(map.set_transform_field(b"M0", b"Names"), Ok(()));
    assert_eq!(map.set_transform_field(b"h0", b"hybrid"), Ok(()));
    assert_eq!(map.to_string(), "t-de-AT-h0-hybrid-m0-names");
    assert_eq!(map.set_transform_field(b"h0", b"other"), Ok(()));
    assert_eq!(map.to_string(), "t-de-AT-h0-other-m0-names");
    assert_eq!(map.set_transform_field(b"h", b"other"), Err(bad(0)));
    assert_eq!(map.set_transform_field(b"h-", b"other"), Err(bad(0)));
    assert_eq!(map.set_transform_field(b"h01", b"other"), Err(bad(0)));
    assert_eq!(map.set_transform_field(b"h0", b"ab"), Err(bad(1)));
    assert!(map.has_transform());
    assert!(map.has_transform_field(b"m0"));
    assert!(!map.has_transform_field(b"k0"));
}

#[test]
fn letter_alone_can_be_a_private_token_but_starts_an_extension_in_a_text() {
    let mut map = ExtensionsMap::default();
    assert_eq!(map.set_private_value(b"U", None), Ok(()));
    assert_eq!(map.get_private_values(), vec!["u".to_string()]);
    assert_eq!(map.to_string(), "x-u");
    assert_eq!(parse_extension_tail(b"x-u").err(), Some(ParserError::InvalidExtension(1)));
    assert_eq!(map.set_private_value(b"foo", None), Ok(()));
    assert_eq!(map.to_string(), "x-foo-u");
    assert_eq!(parse_extension_tail(b"x-foo-u").err(), Some(ParserError::InvalidExtension(3)));
}

#[test]
fn field_key_of_two_letters_is_read_back_as_a_region() {
    let first = parse_locale(b"en-t-de-h0-hybrid-ab-names").unwrap();
    assert_eq!(first.extensions.get_transform_field(b"ab"), Some("names".to_string()));
    assert_eq!(first.to_string(), "en-t-de-ab-names-h0-hybrid");
    let second = parse_locale(b"en-t-de-ab-names-h0-hybrid").unwrap();
    assert_eq!(second.extensions.get_transform_field(b"ab"), None);
    assert_eq!(second.to_string(), "en-t-de-AB-names-h0-hybrid");
}

#[test]
fn set_other_checks_letter_and_subtags() {
    let mut map = ExtensionsMap::default();
    assert_eq!(map.set_other(b'B', &vec![b"foo".to_vec(), b"B4R".to_vec()]), Ok(()));
    assert_eq!(map.to_string(), "b-foo-B4R");
    assert_eq!(map.set_other(b'a', &vec![b"zz".to_vec()]), Ok(()));
    assert_eq!(map.to_string(), "a-zz-b-foo-B4R");
    assert_eq!(map.set_other(b'b', &vec![b"zz".to_vec(), b"foo".to_vec()]), Ok(()));
    assert_eq!(map.to_string(), "a-zz-b-zz-foo");
    assert_eq!(map.set_other(b'u', &vec![b"zz".to_vec()]), Err(bad(0)));
    assert_eq!(map.set_other(b'1', &vec![b"zz".to_vec()]), Err(bad(0)));
    assert_eq!(map.set_other(b'c', &Vec::new()), Err(bad(1)));
    assert_eq!(
        map.set_other(b'c', &vec![b"foo".to_vec(), b"B4R".to_vec(), b"x".to_vec()]),
        Err(bad(3))
    );
    assert_eq!(map.to_string(), "a-zz-b-zz-foo");
}

#[test]
fn maps_are_equal_however_they_were_filled() {
    let mut a = ExtensionsMap::default();
    a.set_private_value(b"foo", None).unwrap();
    a.set_private_value(b"bar", None).unwrap();
    a.set_unicode_value(UnicodeExtensionKey::NumberingSystem, Some(b"latn")).unwrap();
    a.set_unicode_value(UnicodeExtensionKey::HourCycle, Some(b"h12")).unwrap();
    let mut b = ExtensionsMap::default();
    b.set_unicode_value(UnicodeExtensionKey::HourCycle, Some(b"h12")).unwrap();
    b.set_unicode_value(UnicodeExtensionKey::NumberingSystem, Some(b"latn")).unwrap();
    b.set_private_value(b"bar", None).unwrap();
    b.set_private_value(b"foo", None).unwrap();
    assert_eq!(a, b);
    assert_eq!(a.clone(), a);
    let parsed = parse_locale(b"en-x-foo-bar-u-nu-latn-hc-h12").unwrap();
    assert_eq!(parsed.extensions, a);
    b.remove_private_value(b"bar");
    assert_ne!(a, b);
}

#[test]
fn unicode_keys_have_their_letters() {
    let keys = [
        (UnicodeExtensionKey::Calendar, "ca"),
        (UnicodeExtensionKey::CurrencyFormat, "cf"),
        (UnicodeExtensionKey::Collation, "co"),
        (UnicodeExtensionKey::Currency, "cu"),
        (UnicodeExtensionKey::Emoji, "em"),
        (UnicodeExtensionKey::FirstDay, "fw"),
        (UnicodeExtensionKey::HourCycle, "hc"),
        (UnicodeExtensionKey::LineBreak, "lb"),
        (UnicodeExtensionKey::LineBreakWord, "lw"),
        (UnicodeExtensionKey::MeasurementSystem, "ms"),
        (UnicodeExtensionKey::NumberingSystem, "nu"),
        (UnicodeExtensionKey::Region, "rg"),
        (UnicodeExtensionKey::RegionSubdivision, "sd"),
        (UnicodeExtensionKey::SentenceBreak, "ss"),
        (UnicodeExtensionKey::TimeZone, "tz"),
        (UnicodeExtensionKey::CommonVariantType, "va"),
    ];
    for (key, code) in keys.iter() {
        assert_eq!(key.to_bytes(), code.as_bytes().to_vec());
        assert_eq!(UnicodeExtensionKey::from_bytes(code.as_bytes()), Some(*key));
    }
    assert_eq!(UnicodeExtensionKey::from_bytes(b"zz"), None);
    assert_eq!(UnicodeExtensionKey::from_bytes(b"HC"), None);
    assert_eq!(UnicodeExtensionKey::from_bytes(b"h"), None);
    assert_eq!(UnicodeExtensionKey::from_bytes(b"hcc"), None);
}

#[test]
fn extension_type_of_a_byte() {
    assert_eq!(ExtensionType::from_byte(b'u'), Some(ExtensionType::Unicode));
    assert_eq!(ExtensionType::from_byte(b'T'), Some(ExtensionType::Transform));
    assert_eq!(ExtensionType::from_byte(b'x'), Some(ExtensionType::Private));
    assert_eq!(ExtensionType::from_byte(b'A'), Some(ExtensionType::Other(b'a')));
    assert_eq!(ExtensionType::from_byte(b'1'), None);
    assert_eq!(ExtensionType::from_byte(b'-'), None);
}

#[test]
fn lookups_give_what_was_set() {
    let loc = parse_locale(b"en-u-foo-bar-hc-H12-ca-t-de-AT-h0-hybrid-a-Xy-zz9-x-b-a").unwrap();
    let map = &loc.extensions;
    assert_eq!(map.get_unicode_attributes(), vec!["bar".to_string(), "foo".to_string()]);
    assert_eq!(map.get_unicode_value(UnicodeExtensionKey::HourCycle), Some(Some("h12".to_string())));
    assert_eq!(map.get_unicode_value(UnicodeExtensionKey::Calendar), Some(None));
    assert_eq!(map.get_unicode_value(UnicodeExtensionKey::Currency), None);
    assert_eq!(map.get_transform_lang().map(|l| l.to_string()), Some("de-AT".to_string()));
    assert_eq!(map.get_transform_field(b"h0"), Some("hybrid".to_string()));
    assert_eq!(map.get_transform_field(b"m0"), None);
    assert_eq!(map.get_private_values(), vec!["a".to_string(), "b".to_string()]);
    assert_eq!(map.get_other(b'a'), Some(vec!["Xy".to_string(), "zz9".to_string()]));
    assert_eq!(map.get_other(b'b'), None);
    let empty = ExtensionsMap::default();
    assert_eq!(empty.get_unicode_attributes(), Vec::<String>::new());
    assert_eq!(empty.get_private_values(), Vec::<String>::new());
    assert!(empty.get_transform_lang().is_none());
}

#[test]
fn extensions_of_a_locale_can_be_edited_in_place() {
    let mut loc: Locale = "en-US".parse().unwrap();
    loc.extensions.set_unicode_value(UnicodeExtensionKey::Calendar, Some(b"buddhist")).unwrap();
    assert_eq!(loc.to_string(), "en-US-u-ca-buddhist");
}
