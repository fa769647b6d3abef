use unic_locale_impl::{CharacterDirection, LanguageIdentifier, Locale};

const TEXTS: [&str; 24] = [
    "en",
    "en-US",
    "EN_latn_us",
    "und",
    "und-Latn",
    "und-419",
    "de-Latn-AT-macos",
    "ca-ES-valencia",
    "ca-ES-valencia-1996",
    "sl-rozaj-biske-1994",
    "sl-1994-biske-rozaj",
    "en-zzzzz-abcd",
    "en-AT-abcd",
    "en-1abc",
    "zh-Hans-CN",
    "zh",
    "sr-Cyrl",
    "ar",
    "ar-EG",
    "fa-IR",
    "he",
    "ur-PK",
    "pl-PL",
    "arn",
];

fn theirs(text: &str) -> unic_langid_impl::LanguageIdentifier {
    unic_langid_impl::LanguageIdentifier::from_bytes(text.as_bytes()).unwrap()
}

fn ours(text: &str) -> LanguageIdentifier {
    LanguageIdentifier::from_bytes(text.as_bytes()).unwrap()
}

#[test]
fn text_and_subtags_agree_with_the_grammar_crate() {
    for text in TEXTS.iter() {
        let a = ours(text);
        let b = theirs(text);
        assert_eq!(a.to_string(), b.to_string());
        assert_eq!(a.to_bytes(), b.to_string().into_bytes());
        assert_eq!(a.language(), b.language());
        assert_eq!(a.script(), b.script().map(|s| s.to_string()));
        assert_eq!(a.region(), b.region().map(|s| s.to_string()));
        assert_eq!(a.variants(), b.variants().map(|s| s.to_string()).collect::<Vec<_>>());
    }
}

#[test]
fn matching_agrees_with_the_grammar_crate() {
    for x in TEXTS.iter() {
        for y in TEXTS.iter() {
            for (p, q) in [(false, false), (false, true), (true, false), (true, true)] {
                let expected = theirs(x).matches(&theirs(y), p, q);
                assert_eq!(ours(x).matches(&ours(y), p, q), expected);
                let a = Locale::from_langid(ours(x));
                let b = Locale::from_langid(ours(y));
                assert_eq!(a.matches(&b, p, q), expected);
            }
        }
    }
}

#[test]
fn direction_agrees_with_the_grammar_crate() {
    for text in TEXTS.iter() {
        let expected = match theirs(text).character_direction() {
            unic_langid_impl::CharacterDirection::RTL => CharacterDirection::RTL,
            unic_langid_impl::CharacterDirection::LTR => CharacterDirection::LTR,
        };
        assert_eq!(ours(text).character_direction(), expected);
    }
}

#[test]
fn likely_subtags_agree_with_the_grammar_crate() {
    for text in TEXTS.iter() {
        let mut a = ours(text);
        let mut b = theirs(text);
        assert_eq!(a.maximize(), b.maximize());
        assert_eq!(a.to_string(), b.to_string());
        let mut a = ours(text);
        let mut b = theirs(text);
        assert_eq!(a.minimize(), b.minimize());
        assert_eq!(a.to_string(), b.to_string());
    }
}

#[test]
fn raw_parts_agree_with_the_grammar_crate() {
    for text in TEXTS.iter() {
        let (language, script, region, variants) = ours(text).into_raw_parts();
        let (l, s, r, v) = theirs(text).into_raw_parts();
        assert_eq!(language, l);
        assert_eq!(script, s);
        assert_eq!(region, r);
        assert_eq!(variants, v.map(|list| list.to_vec()));
    }
}

#[test]
fn setters_agree_with_the_grammar_crate() {
    for part in ["en", "EN", "und", "e", "toolongsubtag", "Latn", "latn", "lat", "US", "us", "419", "41", "macos", "1abc", "ab-c"]
    {
        let mut a = LanguageIdentifier::default();
        let mut b = unic_langid_impl::LanguageIdentifier::default();
        assert_eq!(a.set_language(part.as_bytes()).is_ok(), b.set_language(part).is_ok());
        assert_eq!(a.to_string(), b.to_string());
        assert_eq!(a.set_script(part.as_bytes()).is_ok(), b.set_script(part).is_ok());
        assert_eq!(a.to_string(), b.to_string());
        assert_eq!(a.set_region(part.as_bytes()).is_ok(), b.set_region(part).is_ok());
        assert_eq!(a.to_string(), b.to_string());
        assert_eq!(a.set_variants(&[part.as_bytes(), b"zzzzz"]).is_ok(), b.set_variants(&[part, "zzzzz"]).is_ok());
        assert_eq!(a.to_string(), b.to_string());
        a.clear_script();
        b.clear_script();
        assert_eq!(a.to_string(), b.to_string());
        a.clear_language();
        b.clear_language();
        a.clear_region();
        b.clear_region();
        a.clear_variants();
        b.clear_variants();
        assert_eq!(a.to_string(), b.to_string());
    }
}

#[test]
fn rejection_agrees_with_the_grammar_crate() {
    for text in ["", "e", "en-", "en--US", "en-US-u-hc", "en-toolongsubtag", "1234", "en-Latn-Cyrl", "ca-valencia-ES"] {
        assert_eq!(
            LanguageIdentifier::from_bytes(text.as_bytes()).is_ok(),
            unic_langid_impl::LanguageIdentifier::from_bytes(text.as_bytes()).is_ok()
        );
    }
}
