use unic_locale_impl::text::{split_segments, to_lower};
use unic_locale_impl::{
    canonicalize, CharacterDirection, ExtensionsMap, LanguageIdentifier, Locale, LocaleError,
    ParserError,
};

fn locale(input: &str) -> Locale {
    Locale::from_bytes(input.as_bytes()).unwrap()
}

#[test]
fn canonicalize_is_parse_then_write() {
    for text in [
        "en",
        "EN_us",
        "en-x-foo-u-hc-h12",
        "de-Latn-AT-macos-t-en-h0-hybrid",
        "und-x-testing",
        "sr-cyrl-rs-u-CA-gregory-attr",
    ] {
        let parsed = locale(text);
        assert_eq!(Ok(parsed.to_string()), canonicalize(text.as_bytes()));
    }
    assert_eq!(canonicalize(b"PL_latn_pl-U-hc-H12"), Ok("pl-Latn-PL-u-hc-h12".to_string()));
}

#[test]
fn parsing_the_canonical_text_gives_the_same_locale() {
    for text in [
        "en",
        "EN_us",
        "en-x-foo-u-hc-h12",
        "de-Latn-AT-macos-t-en-h0-hybrid",
        "und-x-testing",
        "sr-cyrl-rs-u-CA-gregory-attr",
        "en-b-foo-a-bar-x-u1-t-h0-hybrid-m0-names",
        "ca-ES-valencia-u-co-trad-x-1",
    ] {
        let first = locale(text);
        let written = first.to_string();
        let second = locale(&written);
        assert_eq!(first, second);
        assert_eq!(second.to_string(), written);
    }
}

#[test]
fn four_letter_variant_that_sorts_first_is_read_back_as_a_script() {
    let first = locale("en-zzzzz-abcd");
    assert_eq!(first.get_script(), None);
    assert_eq!(first.get_variants(), vec!["abcd".to_string(), "zzzzz".to_string()]);
    assert_eq!(first.to_string(), "en-abcd-zzzzz");
    let second = locale("en-abcd-zzzzz");
    assert_eq!(second.get_script(), Some("Abcd".to_string()));
    assert_eq!(second.to_string(), "en-Abcd-zzzzz");
}

#[test]
fn parses_back_tells_whether_the_canonical_text_gives_the_locale_back() {
    for text in ["en", "de-Latn-AT-macos-t-en-h0-hybrid", "und-x-testing", "en-a-bb-u-hc-x-1"] {
        assert!(locale(text).parses_back());
    }
    assert!(!locale("en-zzzzz-abcd").parses_back());
    assert!(!locale("en-t-de-h0-hybrid-ab-names").parses_back());
    let mut loc = locale("en");
    loc.extensions.set_private_value(b"u", None).unwrap();
    assert!(!loc.parses_back());
    let mut loc = locale("en-AT-abcd");
    assert!(loc.parses_back());
    loc.clear_region();
    assert!(!loc.parses_back());
}

#[test]
fn canonicalize_reports_the_error_of_the_parser() {
    assert_eq!(
        canonicalize(b"en-u-hc-h12-hc-h24"),
        Err(LocaleError::ParserError(ParserError::InvalidExtension(4)))
    );
    assert_eq!(canonicalize(b""), Err(LocaleError::ParserError(ParserError::InvalidLanguage)));
    assert_eq!(canonicalize(b"x-foo"), Err(LocaleError::ParserError(ParserError::InvalidLanguage)));
    assert_eq!(
        canonicalize(b"en-toolongsubtag"),
        Err(LocaleError::ParserError(ParserError::InvalidExtension(1)))
    );
}

#[test]
fn private_use_never_matches() {
    let a = locale("en-x-a");
    let b = locale("en-x-b");
    let plain = locale("en");
    for (x, y) in [(false, false), (false, true), (true, false), (true, true)] {
        assert!(!a.matches(&b, x, y));
        assert!(!a.matches(&a, x, y));
        assert!(!a.matches(&plain, x, y));
        assert!(!plain.matches(&a, x, y));
        assert!(plain.matches(&plain, x, y));
    }
}

#[test]
fn range_matching() {
    let en = locale("en");
    let en_us = locale("en-US");
    assert!(en.matches(&en_us, true, false));
    assert!(!en.matches(&en_us, false, false));
    assert!(!en.matches(&en_us, false, true));
    assert!(en.matches(&en_us, true, true));
    assert!(en_us.matches(&en, false, true));
    let und = locale("und");
    assert!(und.matches(&en_us, true, false));
    assert!(!und.matches(&en_us, false, false));
    let valencia = locale("ca-ES-valencia");
    let ca_es = locale("ca-ES");
    assert!(ca_es.matches(&valencia, true, false));
    assert!(!ca_es.matches(&valencia, false, false));
    assert!(!locale("ca-FR").matches(&valencia, true, true));
}

#[test]
fn matching_ignores_unicode_transform_and_other_extensions() {
    let plain = locale("en-US");
    assert!(plain.matches(&locale("en-US-u-hc-h24"), false, false));
    assert!(plain.matches(&locale("en-US-t-de-h0-hybrid"), false, false));
    assert!(plain.matches(&locale("en-US-a-foo"), false, false));
    assert!(locale("en-US-u-hc-h12").matches(&locale("en-US-u-hc-h24"), false, false));
    assert!(!plain.matches(&locale("en-GB-u-hc-h24"), false, false));
}

#[test]
fn clearing_fields() {
    let mut loc = locale("de-Latn-AT-macos");
    loc.clear_script();
    assert_eq!(loc.to_string(), "de-AT-macos");
    loc.clear_language();
    assert_eq!(loc.to_string(), "und-AT-macos");
    loc.clear_region();
    assert_eq!(loc.to_string(), "und-macos");
    loc.clear_variants();
    assert_eq!(loc.to_string(), "und");
    assert_eq!(loc, Locale::default());
}

#[test]
fn clearing_fields_keeps_the_extensions() {
    let mut loc = locale("de-Latn-AT-macos-u-hc-h12");
    loc.clear_script();
    loc.clear_variants();
    assert_eq!(loc.to_string(), "de-AT-u-hc-h12");
}

#[test]
fn getters_give_the_subtags() {
    let loc = locale("DE-latn-at-MacOS-windows");
    assert_eq!(loc.get_language(), "de");
    assert_eq!(loc.get_script(), Some("Latn".to_string()));
    assert_eq!(loc.get_region(), Some("AT".to_string()));
    assert_eq!(loc.get_variants(), vec!["macos".to_string(), "windows".to_string()]);
    let und = locale("und");
    assert_eq!(und.get_language(), "und");
    assert_eq!(und.get_script(), None);
    assert_eq!(und.get_region(), None);
    assert_eq!(und.get_variants(), Vec::<String>::new());
}

#[test]
fn setters_check_and_normalise() {
    let mut loc = Locale::default();
    assert_eq!(loc.set_language(b"EN"), Ok(()));
    assert_eq!(loc.set_script(b"latn"), Ok(()));
    assert_eq!(loc.set_region(b"us"), Ok(()));
    assert_eq!(loc.set_variants(&[b"Windows", b"macos", b"macos"]), Ok(()));
    assert_eq!(loc.to_string(), "en-Latn-US-macos-windows");
    assert_eq!(loc.set_language(b"e"), Err(LocaleError::ParserError(ParserError::InvalidLanguage)));
    assert_eq!(loc.set_script(b"lat"), Err(LocaleError::ParserError(ParserError::InvalidSubtag)));
    assert_eq!(loc.set_region(b"usa"), Err(LocaleError::ParserError(ParserError::InvalidSubtag)));
    assert_eq!(
        loc.set_variants(&[b"ok123", b"no"]),
        Err(LocaleError::ParserError(ParserError::InvalidSubtag))
    );
    assert_eq!(loc.to_string(), "en-Latn-US-macos-windows");
    assert_eq!(loc.set_language(b"und"), Ok(()));
    assert_eq!(loc.to_string(), "und-Latn-US-macos-windows");
    assert_eq!(loc.set_region(b"419"), Ok(()));
    assert_eq!(loc.get_region(), Some("419".to_string()));
}

#[test]
fn from_parts_checks_every_part() {
    let loc = Locale::from_parts(
        Some(b"EN"),
        Some(b"latn"),
        Some(b"us"),
        &[b"Valencia"],
        None,
    )
    .unwrap();
    assert_eq!(loc.to_string(), "en-Latn-US-valencia");
    assert!(loc.extensions.is_empty());
    let mut map = ExtensionsMap::default();
    map.set_private_value(b"foo", None).unwrap();
    let loc = Locale::from_parts(None, None, Some(b"PL"), &[], Some(map)).unwrap();
    assert_eq!(loc.to_string(), "und-PL-x-foo");
    assert_eq!(
        Locale::from_parts(Some(b"e"), None, None, &[], None).err(),
        Some(LocaleError::ParserError(ParserError::InvalidLanguage))
    );
    assert_eq!(
        Locale::from_parts(Some(b"en"), Some(b"x"), None, &[], None).err(),
        Some(LocaleError::ParserError(ParserError::InvalidSubtag))
    );
}

#[test]
fn language_identifier_takes_no_extension() {
    assert_eq!(
        LanguageIdentifier::from_bytes(b"en-u-hc-h12").err(),
        Some(LocaleError::ParserError(ParserError::InvalidSubtag))
    );
    assert_eq!(
        LanguageIdentifier::from_bytes(b"").err(),
        Some(LocaleError::ParserError(ParserError::InvalidLanguage))
    );
    let id = LanguageIdentifier::from_bytes(b"sr_cyrl_RS").unwrap();
    assert_eq!(id.to_string(), "sr-Cyrl-RS");
    assert_eq!(id.to_bytes(), b"sr-Cyrl-RS".to_vec());
    assert_eq!(id.clone(), id);
    assert_eq!(LanguageIdentifier::default().to_string(), "und");
}

#[test]
fn character_direction() {
    for rtl in ["ar", "fa", "he", "ps", "sd", "ur", "ar-EG-u-nu-arab"] {
        assert_eq!(locale(rtl).get_character_direction(), CharacterDirection::RTL);
    }
    for ltr in ["en", "es-AR", "und", "arn", "ff"] {
        assert_eq!(locale(ltr).get_character_direction(), CharacterDirection::LTR);
    }
}

#[test]
fn likely_subtags() {
    let mut loc = locale("en-US-u-hc-h12");
    assert!(loc.add_likely_subtags());
    assert_eq!(loc.to_string(), "en-Latn-US-u-hc-h12");
    assert!(!loc.add_likely_subtags());
    assert_eq!(loc.to_string(), "en-Latn-US-u-hc-h12");
    assert!(loc.remove_likely_subtags());
    assert_eq!(loc.to_string(), "en-u-hc-h12");
    let mut loc = locale("zh-macos");
    assert!(loc.add_likely_subtags());
    assert_eq!(loc.to_string(), "zh-Hans-CN-macos");
    let mut loc = locale("zh-Hans-CN");
    assert!(loc.remove_likely_subtags());
    assert_eq!(loc.to_string(), "zh");
}

#[test]
fn raw_parts() {
    let loc = locale("en-Latn-US-macos-valencia-u-hc-h12");
    let (language, script, region, variants, extensions) = loc.into_raw_parts();
    assert_eq!(language, Some(28261));
    assert_eq!(script, Some(1853120844));
    assert_eq!(region, Some(21333));
    assert_eq!(variants, Some(vec![495790023021, 7019250820032782710]));
    assert_eq!(extensions, "u-hc-h12");
    let (language, script, region, variants, extensions) = locale("und").into_raw_parts();
    assert_eq!((language, script, region, variants), (None, None, None, None));
    assert_eq!(extensions, "");
    let (language, _, region, _) = LanguageIdentifier::from_bytes(b"pl-419").unwrap().into_raw_parts();
    assert_eq!(language, Some(27760));
    assert_eq!(region, Some(3748148));
}

#[test]
fn unchecked_constructor_takes_the_parts_as_they_are() {
    let mut map = ExtensionsMap::default();
    map.set_private_value(b"foo", None).unwrap();
    let loc = Locale::from_raw_parts_unchecked(
        Some(b"de".to_vec()),
        Some(b"Latn".to_vec()),
        None,
        vec![b"macos".to_vec()],
        map,
    );
    assert_eq!(loc.to_string(), "de-Latn-macos-x-foo");
    assert_eq!(loc, locale("de-Latn-macos-x-foo"));
}

#[test]
fn locale_of_a_language_identifier_has_no_extension() {
    let id = LanguageIdentifier::from_bytes(b"en-US").unwrap();
    let loc = Locale::from(id.clone());
    assert_eq!(loc.langid, id);
    assert!(loc.extensions.is_empty());
    assert_eq!(loc.extensions, ExtensionsMap::default());
    assert_eq!(loc.to_string(), "en-US");
}

#[test]
fn locale_and_language_identifier_convert() {
    let id = LanguageIdentifier::from_bytes(b"en-US").unwrap();
    let loc = Locale::from_langid(id.clone());
    assert_eq!(loc, locale("en-US"));
    let back: &LanguageIdentifier = loc.as_ref();
    assert_eq!(back, &id);
    assert_eq!(LanguageIdentifier::from(locale("en-US-x-foo")), id);
}

#[test]
fn text_helpers() {
    assert_eq!(split_segments(b""), vec![Vec::<u8>::new()]);
    assert_eq!(split_segments(b"a-b_c"), vec![b"a".to_vec(), b"b".to_vec(), b"c".to_vec()]);
    assert_eq!(split_segments(b"a--"), vec![b"a".to_vec(), Vec::new(), Vec::new()]);
    assert_eq!(to_lower(b"AbC-1z_Z"), b"abc-1z_z".to_vec());
}

#[test]
fn underscore_is_a_separator_on_input() {
    assert_eq!(locale("en_US_u_hc_h12").to_string(), "en-US-u-hc-h12");
}

#[test]
fn default_locale_is_und() {
    let loc = Locale::default();
    assert_eq!(loc.to_string(), "und");
    assert_eq!(loc.to_bytes(), b"und".to_vec());
    assert!(loc.extensions.is_empty());
    assert_eq!(loc.clone(), loc);
}
