//! Locale identifiers: a language identifier followed by extension sequences,
//! with a canonical text form, parsing, matching and field-level editing.

pub mod canonical;
pub mod entries;
pub mod errors;
pub mod extensions;
pub mod langid;
pub mod order;
pub mod parser;
pub mod text;

pub use errors::{LocaleError, ParserError};
pub use extensions::{ExtensionType, ExtensionsMap, UnicodeExtensionKey};
pub use langid::{CharacterDirection, LanguageIdentifier};

use extensions::{lemma_empty_text, lemma_extensions_ascii, lemma_tail_text, Extensions};
use langid::{
    check_parts, is_raw4, is_raw8, is_rtl_language, le_value, lemma_text_is_ascii, likely_applied,
    likely_maximized, likely_minimized, opt_slice_view, opt_view, slices, Subtags,
};
use parser::{locale_result, parse, parse_locale};
use text::{all_ascii, ascii_chars, ascii_string, views, HYPHEN};
use vstd::prelude::*;
use vstd::std_specs::cmp::PartialEqSpecImpl;
use vstd::std_specs::convert::FromSpecImpl;
use vstd::string::StringSliceAdditionalSpecFns;

verus! {

/// What a locale holds, as mathematical values.
pub struct LocaleView {
    pub langid: Subtags,
    pub extensions: Extensions,
}

impl LocaleView {
    /// The segments of the canonical text: those of the language
    /// identifier, then those of the extensions.
    pub open spec fn segments(self) -> Seq<Seq<u8>> {
        self.langid.segments() + self.extensions.segments()
    }

    /// The canonical text: that of the language identifier, and then,
    /// where an extension is present, a hyphen and the text of the
    /// extensions.
    pub open spec fn text(self) -> Seq<u8> {
        if self.extensions.is_empty() {
            self.langid.text()
        } else {
            self.langid.text() + seq![HYPHEN] + self.extensions.text()
        }
    }

    /// Two locales match if neither has a private-use extension and their
    /// language identifiers match. No other extension counts.
    pub open spec fn matches(self, other: LocaleView, self_as_range: bool, other_as_range: bool) -> bool {
        &&& !self.extensions.has_private()
        &&& !other.extensions.has_private()
        &&& self.langid.matches(other.langid, self_as_range, other_as_range)
    }
}

/// A locale: a language identifier and its extensions.
#[derive(Debug)]
pub struct Locale {
    pub langid: LanguageIdentifier,
    pub extensions: ExtensionsMap,
}

impl View for Locale {
    type V = LocaleView;

    open spec fn view(&self) -> LocaleView {
        LocaleView { langid: self.langid@, extensions: self.extensions@ }
    }
}

/// The extensions that an optional map stands for: none where it is absent.
pub open spec fn extensions_or_empty(extensions: Option<ExtensionsMap>) -> Extensions {
    match extensions {
        Some(map) => map@,
        None => Extensions::empty(),
    }
}

impl Locale {
    /// Reads a text as a locale.
    pub fn from_bytes(v: &[u8]) -> (r: Result<Locale, LocaleError>)
        ensures
            locale_result(r) == parse(v@),
    {
        parse_locale(v)
    }

    /// Makes a locale of the given parts, which are checked, and of the
    /// given extensions, or of none.
    pub fn from_parts(
        language: Option<&[u8]>,
        script: Option<&[u8]>,
        region: Option<&[u8]>,
        variants: &[&[u8]],
        extensions: Option<ExtensionsMap>,
    ) -> (r: Result<Locale, LocaleError>)
        ensures
            match check_parts(
                opt_slice_view(language),
                opt_slice_view(script),
                opt_slice_view(region),
                slices(variants@),
            ) {
                Ok(subtags) => r matches Ok(locale) && locale@ == (LocaleView {
                    langid: subtags,
                    extensions: extensions_or_empty(extensions),
                }),
                Err(e) => r matches Err(f) && f == e,
            },
    {
        match LanguageIdentifier::from_parts(language, script, region, variants) {
            Ok(langid) => Ok(
                Locale {
                    langid,
                    extensions: match extensions {
                        Some(map) => map,
                        None => ExtensionsMap::default(),
                    },
                },
            ),
            Err(e) => Err(e),
        }
    }

    /// The subtags of the language identifier as numbers, the first byte of
    /// each counting least, and the text of the extensions.
    pub fn into_raw_parts(self) -> (r: (Option<u64>, Option<u32>, Option<u32>, Option<Vec<u64>>, String))
        ensures
            is_raw8(r.0, self@.langid.language),
            is_raw4(r.1, self@.langid.script),
            is_raw4(r.2, self@.langid.region),
            match r.3 {
                Some(list) => self@.langid.variants.len() > 0 && list@.len() == self@.langid.variants.len()
                    && forall|i: int|
                    0 <= i < list@.len() ==> #[trigger] list@[i] == le_value(self@.langid.variants[i]),
                None => self@.langid.variants.len() == 0,
            },
            r.4@ == ascii_chars(self@.extensions.text()),
    {
        let text = self.extensions.to_string();
        let (language, script, region, variants) = self.langid.into_raw_parts();
        (language, script, region, variants, text)
    }

    /// Makes a locale of parts that the caller has validated before.
    pub fn from_raw_parts_unchecked(
        language: Option<Vec<u8>>,
        script: Option<Vec<u8>>,
        region: Option<Vec<u8>>,
        variants: Vec<Vec<u8>>,
        extensions: ExtensionsMap,
    ) -> (r: Locale)
        requires
            (Subtags {
                language: opt_view(language),
                script: opt_view(script),
                region: opt_view(region),
                variants: views(variants@),
            }).well_formed(),
        ensures
            r@ == (LocaleView {
                langid: Subtags {
                    language: opt_view(language),
                    script: opt_view(script),
                    region: opt_view(region),
                    variants: views(variants@),
                },
                extensions: extensions@,
            }),
    {
        Locale {
            langid: LanguageIdentifier::from_raw_parts_unchecked(language, script, region, variants),
            extensions,
        }
    }

    /// Tells whether two locales match. A private-use extension on either
    /// side rules a match out; otherwise the language identifiers decide,
    /// a side taken as a range matching any subtag where it has none.
    pub fn matches(&self, other: &Locale, self_as_range: bool, other_as_range: bool) -> (r: bool)
        ensures
            r == self@.matches(other@, self_as_range, other_as_range),
    {
        if self.extensions.has_private() || other.extensions.has_private() {
            return false;
        }
        self.langid.matches(&other.langid, self_as_range, other_as_range)
    }

    /// The language, `und` where there is none.
    pub fn get_language(&self) -> (r: String)
        ensures
            r@ == ascii_chars(self@.langid.language_text()),
    {
        self.langid.language()
    }

    /// Replaces the language by the checked form of the given one.
    pub fn set_language(&mut self, language: &[u8]) -> (r: Result<(), LocaleError>)
        ensures
            final(self)@.extensions == old(self)@.extensions,
            match check_parts(Some(language@), None, None, Seq::empty()) {
                Ok(checked) => r is Ok && final(self)@.langid == (Subtags {
                    language: checked.language,
                    ..old(self)@.langid
                }),
                Err(e) => r == Err::<(), _>(e) && final(self)@.langid == old(self)@.langid,
            },
    {
        self.langid.set_language(language)
    }

    /// Removes the language.
    pub fn clear_language(&mut self)
        ensures
            final(self)@ == (LocaleView {
                langid: Subtags { language: None, ..old(self)@.langid },
                ..old(self)@
            }),
    {
        self.langid.clear_language()
    }

    /// The script, if there is one.
    pub fn get_script(&self) -> (r: Option<String>)
        ensures
            match self@.langid.script {
                Some(s) => r matches Some(t) && t@ == ascii_chars(s),
                None => r is None,
            },
    {
        self.langid.script()
    }

    /// Replaces the script by the checked form of the given one.
    pub fn set_script(&mut self, script: &[u8]) -> (r: Result<(), LocaleError>)
        ensures
            final(self)@.extensions == old(self)@.extensions,
            match check_parts(None, Some(script@), None, Seq::empty()) {
                Ok(checked) => r is Ok && final(self)@.langid == (Subtags {
                    script: checked.script,
                    ..old(self)@.langid
                }),
                Err(e) => r == Err::<(), _>(e) && final(self)@.langid == old(self)@.langid,
            },
    {
        self.langid.set_script(script)
    }

    /// Removes the script.
    pub fn clear_script(&mut self)
        ensures
            final(self)@ == (LocaleView {
                langid: Subtags { script: None, ..old(self)@.langid },
                ..old(self)@
            }),
    {
        self.langid.clear_script()
    }

    /// The region, if there is one.
    pub fn get_region(&self) -> (r: Option<String>)
        ensures
            match self@.langid.region {
                Some(s) => r matches Some(t) && t@ == ascii_chars(s),
                None => r is None,
            },
    {
        self.langid.region()
    }

    /// Replaces the region by the checked form of the given one.
    pub fn set_region(&mut self, region: &[u8]) -> (r: Result<(), LocaleError>)
        ensures
            final(self)@.extensions == old(self)@.extensions,
            match check_parts(None, None, Some(region@), Seq::empty()) {
                Ok(checked) => r is Ok && final(self)@.langid == (Subtags {
                    region: checked.region,
                    ..old(self)@.langid
                }),
                Err(e) => r == Err::<(), _>(e) && final(self)@.langid == old(self)@.langid,
            },
    {
        self.langid.set_region(region)
    }

    /// Removes the region.
    pub fn clear_region(&mut self)
        ensures
            final(self)@ == (LocaleView {
                langid: Subtags { region: None, ..old(self)@.langid },
                ..old(self)@
            }),
    {
        self.langid.clear_region()
    }

    /// The variants, in their order.
    pub fn get_variants(&self) -> (r: Vec<String>)
        ensures
            r.len() == self@.langid.variants.len(),
            forall|i: int| 0 <= i < r.len() ==> (#[trigger] r[i])@ == ascii_chars(self@.langid.variants[i]),
    {
        self.langid.variants()
    }

    /// Replaces the variants by the checked form of the given ones.
    pub fn set_variants(&mut self, variants: &[&[u8]]) -> (r: Result<(), LocaleError>)
        ensures
            final(self)@.extensions == old(self)@.extensions,
            match check_parts(None, None, None, slices(variants@)) {
                Ok(checked) => r is Ok && final(self)@.langid == (Subtags {
                    variants: checked.variants,
                    ..old(self)@.langid
                }),
                Err(e) => r == Err::<(), _>(e) && final(self)@.langid == old(self)@.langid,
            },
    {
        self.langid.set_variants(variants)
    }

    /// Removes the variants.
    pub fn clear_variants(&mut self)
        ensures
            final(self)@ == (LocaleView {
                langid: Subtags { variants: Seq::empty(), ..old(self)@.langid },
                ..old(self)@
            }),
    {
        self.langid.clear_variants()
    }

    /// Adds the subtags that are likely for the language identifier, and
    /// tells whether anything changed. The extensions stay.
    pub fn add_likely_subtags(&mut self) -> (changed: bool)
        ensures
            changed == likely_maximized(
                old(self)@.langid.language,
                old(self)@.langid.script,
                old(self)@.langid.region,
            ).0,
            final(self)@ == (LocaleView {
                langid: likely_applied(
                    old(self)@.langid,
                    likely_maximized(
                        old(self)@.langid.language,
                        old(self)@.langid.script,
                        old(self)@.langid.region,
                    ),
                ),
                extensions: old(self)@.extensions,
            }),
    {
        self.langid.maximize()
    }

    /// Removes the subtags that are likely anyway, and tells whether
    /// anything changed. The extensions stay.
    pub fn remove_likely_subtags(&mut self) -> (changed: bool)
        ensures
            changed == likely_minimized(
                old(self)@.langid.language,
                old(self)@.langid.script,
                old(self)@.langid.region,
            ).0,
            final(self)@ == (LocaleView {
                langid: likely_applied(
                    old(self)@.langid,
                    likely_minimized(
                        old(self)@.langid.language,
                        old(self)@.langid.script,
                        old(self)@.langid.region,
                    ),
                ),
                extensions: old(self)@.extensions,
            }),
    {
        self.langid.minimize()
    }

    /// The direction in which the language is written.
    pub fn get_character_direction(&self) -> (r: CharacterDirection)
        ensures
            r == (if self@.langid.language matches Some(l) && is_rtl_language(l) {
                CharacterDirection::RTL
            } else {
                CharacterDirection::LTR
            }),
    {
        self.langid.character_direction()
    }

    /// The canonical text, as bytes.
    pub fn to_bytes(&self) -> (r: Vec<u8>)
        ensures
            r@ == self@.text(),
            all_ascii(r@),
    {
        let mut out = self.langid.to_bytes();
        self.extensions.push_tail(&mut out);
        self.langid.well_formed();
        self.extensions.well_formed();
        proof {
            lemma_text_is_ascii(self@.langid);
            lemma_extensions_ascii(self@.extensions);
            lemma_empty_text(self@.extensions);
            lemma_tail_text(self@.extensions);
            assert(out@ =~= self@.text());
        }
        out
    }

    /// The canonical text.
    pub fn to_string(&self) -> (r: String)
        ensures
            r@ == ascii_chars(self@.text()),
    {
        ascii_string(self.to_bytes())
    }

    /// Tells whether parsing the canonical text of the locale gives the
    /// locale back.
    pub fn parses_back(&self) -> (r: bool)
        ensures
            r == (parse(self@.text()) == Ok::<LocaleView, LocaleError>(self@)),
    {
        let text = self.to_bytes();
        match parse_locale(text.as_slice()) {
            Ok(again) => again.eq(self),
            Err(_) => false,
        }
    }

    /// The locale of a language identifier, without extensions.
    pub fn from_langid(langid: LanguageIdentifier) -> (r: Locale)
        ensures
            r@ == (LocaleView { langid: langid@, extensions: Extensions::empty() }),
    {
        Locale { langid, extensions: ExtensionsMap::default() }
    }
}

impl Default for Locale {
    fn default() -> (r: Locale)
        ensures
            r@ == (LocaleView { langid: Subtags::empty(), extensions: Extensions::empty() }),
    {
        Locale { langid: LanguageIdentifier::default(), extensions: ExtensionsMap::default() }
    }
}

impl Clone for Locale {
    fn clone(&self) -> (r: Locale)
        ensures
            r@ == self@,
    {
        Locale { langid: self.langid.clone(), extensions: self.extensions.clone() }
    }
}

impl PartialEq for Locale {
    fn eq(&self, other: &Locale) -> (r: bool) {
        self.langid.eq(&other.langid) && self.extensions.eq(&other.extensions)
    }
}

impl PartialEqSpecImpl for Locale {
    open spec fn obeys_eq_spec() -> bool {
        true
    }

    open spec fn eq_spec(&self, other: &Locale) -> bool {
        self@ == other@
    }
}

impl std::str::FromStr for Locale {
    type Err = LocaleError;

    fn from_str(source: &str) -> (r: Result<Locale, LocaleError>)
        ensures
            locale_result(r) == parse(source.spec_bytes()),
    {
        parse_locale(source.as_bytes())
    }
}

impl From<LanguageIdentifier> for Locale {
    /// The locale of a language identifier, without extensions.
    fn from(langid: LanguageIdentifier) -> (r: Locale)
        ensures
            r@ == (LocaleView { langid: langid@, extensions: Extensions::empty() }),
    {
        Locale::from_langid(langid)
    }
}

impl FromSpecImpl<LanguageIdentifier> for Locale {
    open spec fn obeys_from_spec() -> bool {
        false
    }

    open spec fn from_spec(langid: LanguageIdentifier) -> Locale {
        arbitrary()
    }
}

impl From<Locale> for LanguageIdentifier {
    fn from(locale: Locale) -> (r: LanguageIdentifier) {
        locale.langid
    }
}

impl FromSpecImpl<Locale> for LanguageIdentifier {
    open spec fn obeys_from_spec() -> bool {
        true
    }

    open spec fn from_spec(locale: Locale) -> LanguageIdentifier {
        locale.langid
    }
}

impl AsRef<LanguageIdentifier> for Locale {
    fn as_ref(&self) -> (r: &LanguageIdentifier)
        ensures
            *r == self.langid,
    {
        &self.langid
    }
}

/// A private-use extension on either side rules a match out, whatever the
/// language identifiers and the flags are.
pub proof fn lemma_private_use_never_matches(
    a: LocaleView,
    b: LocaleView,
    a_as_range: bool,
    b_as_range: bool,
)
    requires
        a.extensions.has_private() || b.extensions.has_private(),
    ensures
        !a.matches(b, a_as_range, b_as_range),
{
}

/// Matching looks at no extension but the private-use one: two pairs of
/// locales with the same language identifiers, in which the same sides have
/// a private-use extension, match alike.
pub proof fn lemma_matches_ignores_other_extensions(
    a: LocaleView,
    b: LocaleView,
    c: LocaleView,
    d: LocaleView,
    a_as_range: bool,
    b_as_range: bool,
)
    requires
        a.langid == c.langid,
        b.langid == d.langid,
        a.extensions.has_private() == c.extensions.has_private(),
        b.extensions.has_private() == d.extensions.has_private(),
    ensures
        a.matches(b, a_as_range, b_as_range) == c.matches(d, a_as_range, b_as_range),
{
}

/// The canonical text of a locale text: what it is parsed as, written out.
pub fn canonicalize(input: &[u8]) -> (r: Result<String, LocaleError>)
    ensures
        match parse(input@) {
            Ok(locale) => r matches Ok(s) && s@ == ascii_chars(locale.text()),
            Err(e) => r matches Err(f) && f == e,
        },
{
    match Locale::from_bytes(input) {
        Ok(locale) => Ok(locale.to_string()),
        Err(e) => Err(e),
    }
}

} // verus!
