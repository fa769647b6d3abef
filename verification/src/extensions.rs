//! The extension sequences of a locale: the unicode extension `u`, the
//! transform extension `t`, the private-use extension `x`, and the
//! extensions of other letters, with their canonical text.

use crate::entries::{
    copy_entries, entries_eq, Entry, entry_all, entry_views, EntryView, find_slot, has_key,
    lemma_list_segments_all, lemma_put, lemma_slot_sorted, lemma_without, list_segments, lookup,
    push_entries, put, put_entry, remove_entry, sorted, without,
};
use crate::errors::{LocaleError, ParserError};
use crate::langid::{LanguageIdentifier, Subtags};
use crate::text::{
    all_alnum, all_ascii, ascii_chars, ascii_string, check_token, copy_bytes, find_rejected,
    first_rejected, hyphenated, is_alnum, is_alpha, is_lowered, is_token, joined,
    lemma_first_rejected, lemma_hyphenated_ascii, lemma_hyphenated_concat, lemma_hyphenated_joined,
    lemma_hyphenated_one, lemma_joined_ascii, lemma_lowered, lower, lowered, push_bytes, to_lower,
    views, HYPHEN,
};
use vstd::prelude::*;
use vstd::std_specs::cmp::PartialEqSpecImpl;

verus! {

/// The letter `t`.
pub const LETTER_T: u8 = 0x74;

/// The letter `u`.
pub const LETTER_U: u8 = 0x75;

/// The letter `x`.
pub const LETTER_X: u8 = 0x78;

/// The kind of an extension sequence, by the letter that starts it.
#[derive(Debug, Clone, Copy, PartialEq, Eq, Structural)]
pub enum ExtensionType {
    /// The unicode extension, letter `u`.
    Unicode,
    /// The transform extension, letter `t`.
    Transform,
    /// The private-use extension, letter `x`.
    Private,
    /// The extension of another letter, held in lower case.
    Other(u8),
}

impl ExtensionType {
    /// The kind that a letter stands for, whatever its case.
    pub open spec fn of_letter(letter: u8) -> ExtensionType {
        if lower(letter) == LETTER_U {
            ExtensionType::Unicode
        } else if lower(letter) == LETTER_T {
            ExtensionType::Transform
        } else if lower(letter) == LETTER_X {
            ExtensionType::Private
        } else {
            ExtensionType::Other(lower(letter))
        }
    }

    /// The kind that a byte stands for: none unless the byte is a letter.
    pub fn from_byte(letter: u8) -> (r: Option<ExtensionType>)
        ensures
            r == (if is_alpha(letter) {
                Some(ExtensionType::of_letter(letter))
            } else {
                None
            }),
    {
        if !crate::text::byte_is_alpha(letter) {
            return None;
        }
        let l = crate::text::byte_lower(letter);
        if l == LETTER_U {
            Some(ExtensionType::Unicode)
        } else if l == LETTER_T {
            Some(ExtensionType::Transform)
        } else if l == LETTER_X {
            Some(ExtensionType::Private)
        } else {
            Some(ExtensionType::Other(l))
        }
    }
}

/// The keys of the unicode extension.
#[derive(Debug, Clone, Copy, PartialEq, Eq, Structural)]
pub enum UnicodeExtensionKey {
    /// `ca`
    Calendar,
    /// `cf`
    CurrencyFormat,
    /// `co`
    Collation,
    /// `cu`
    Currency,
    /// `em`
    Emoji,
    /// `fw`
    FirstDay,
    /// `hc`
    HourCycle,
    /// `lb`
    LineBreak,
    /// `lw`
    LineBreakWord,
    /// `ms`
    MeasurementSystem,
    /// `nu`
    NumberingSystem,
    /// `rg`
    Region,
    /// `sd`
    RegionSubdivision,
    /// `ss`
    SentenceBreak,
    /// `tz`
    TimeZone,
    /// `va`
    CommonVariantType,
}

impl UnicodeExtensionKey {
    /// The two letters of the key.
    pub open spec fn code(self) -> (u8, u8) {
        match self {
            UnicodeExtensionKey::Calendar => (0x63u8, 0x61u8),
            UnicodeExtensionKey::CurrencyFormat => (0x63u8, 0x66u8),
            UnicodeExtensionKey::Collation => (0x63u8, 0x6fu8),
            UnicodeExtensionKey::Currency => (0x63u8, 0x75u8),
            UnicodeExtensionKey::Emoji => (0x65u8, 0x6du8),
            UnicodeExtensionKey::FirstDay => (0x66u8, 0x77u8),
            UnicodeExtensionKey::HourCycle => (0x68u8, 0x63u8),
            UnicodeExtensionKey::LineBreak => (0x6cu8, 0x62u8),
            UnicodeExtensionKey::LineBreakWord => (0x6cu8, 0x77u8),
            UnicodeExtensionKey::MeasurementSystem => (0x6du8, 0x73u8),
            UnicodeExtensionKey::NumberingSystem => (0x6eu8, 0x75u8),
            UnicodeExtensionKey::Region => (0x72u8, 0x67u8),
            UnicodeExtensionKey::RegionSubdivision => (0x73u8, 0x64u8),
            UnicodeExtensionKey::SentenceBreak => (0x73u8, 0x73u8),
            UnicodeExtensionKey::TimeZone => (0x74u8, 0x7au8),
            UnicodeExtensionKey::CommonVariantType => (0x76u8, 0x61u8),
        }
    }

    /// The key as a segment.
    pub open spec fn segment(self) -> Seq<u8> {
        seq![self.code().0, self.code().1]
    }

    /// The key that two letters spell, if they spell one.
    pub open spec fn of_code(a: u8, b: u8) -> Option<UnicodeExtensionKey> {
        if a == 0x63 && b == 0x61 {
            Some(UnicodeExtensionKey::Calendar)
        } else if a == 0x63 && b == 0x66 {
            Some(UnicodeExtensionKey::CurrencyFormat)
        } else if a == 0x63 && b == 0x6f {
            Some(UnicodeExtensionKey::Collation)
        } else if a == 0x63 && b == 0x75 {
            Some(UnicodeExtensionKey::Currency)
        } else if a == 0x65 && b == 0x6d {
            Some(UnicodeExtensionKey::Emoji)
        } else if a == 0x66 && b == 0x77 {
            Some(UnicodeExtensionKey::FirstDay)
        } else if a == 0x68 && b == 0x63 {
            Some(UnicodeExtensionKey::HourCycle)
        } else if a == 0x6c && b == 0x62 {
            Some(UnicodeExtensionKey::LineBreak)
        } else if a == 0x6c && b == 0x77 {
            Some(UnicodeExtensionKey::LineBreakWord)
        } else if a == 0x6d && b == 0x73 {
            Some(UnicodeExtensionKey::MeasurementSystem)
        } else if a == 0x6e && b == 0x75 {
            Some(UnicodeExtensionKey::NumberingSystem)
        } else if a == 0x72 && b == 0x67 {
            Some(UnicodeExtensionKey::Region)
        } else if a == 0x73 && b == 0x64 {
            Some(UnicodeExtensionKey::RegionSubdivision)
        } else if a == 0x73 && b == 0x73 {
            Some(UnicodeExtensionKey::SentenceBreak)
        } else if a == 0x74 && b == 0x7a {
            Some(UnicodeExtensionKey::TimeZone)
        } else if a == 0x76 && b == 0x61 {
            Some(UnicodeExtensionKey::CommonVariantType)
        } else {
            None
        }
    }

    /// Every key is the key of its own letters.
    pub proof fn lemma_code(self)
        ensures
            UnicodeExtensionKey::of_code(self.code().0, self.code().1) == Some(self),
            is_unicode_key(self.segment()),
    {
    }

    /// The key as a segment.
    pub fn to_bytes(&self) -> (r: Vec<u8>)
        ensures
            r@ == self.segment(),
    {
        let (a, b): (u8, u8) = match self {
            UnicodeExtensionKey::Calendar => (0x63u8, 0x61u8),
            UnicodeExtensionKey::CurrencyFormat => (0x63u8, 0x66u8),
            UnicodeExtensionKey::Collation => (0x63u8, 0x6fu8),
            UnicodeExtensionKey::Currency => (0x63u8, 0x75u8),
            UnicodeExtensionKey::Emoji => (0x65u8, 0x6du8),
            UnicodeExtensionKey::FirstDay => (0x66u8, 0x77u8),
            UnicodeExtensionKey::HourCycle => (0x68u8, 0x63u8),
            UnicodeExtensionKey::LineBreak => (0x6cu8, 0x62u8),
            UnicodeExtensionKey::LineBreakWord => (0x6cu8, 0x77u8),
            UnicodeExtensionKey::MeasurementSystem => (0x6du8, 0x73u8),
            UnicodeExtensionKey::NumberingSystem => (0x6eu8, 0x75u8),
            UnicodeExtensionKey::Region => (0x72u8, 0x67u8),
            UnicodeExtensionKey::RegionSubdivision => (0x73u8, 0x64u8),
            UnicodeExtensionKey::SentenceBreak => (0x73u8, 0x73u8),
            UnicodeExtensionKey::TimeZone => (0x74u8, 0x7au8),
            UnicodeExtensionKey::CommonVariantType => (0x76u8, 0x61u8),
        };
        let mut out: Vec<u8> = Vec::new();
        out.push(a);
        out.push(b);
        assert(out@ =~= self.segment());
        out
    }

    /// The key that a segment spells in lower case, if it spells one.
    pub fn from_bytes(segment: &[u8]) -> (r: Option<UnicodeExtensionKey>)
        ensures
            r == (if segment@.len() == 2 {
                UnicodeExtensionKey::of_code(segment@[0], segment@[1])
            } else {
                None
            }),
    {
        if segment.len() != 2 {
            return None;
        }
        let a = segment[0];
        let b = segment[1];
        if a == 0x63 && b == 0x61 {
            Some(UnicodeExtensionKey::Calendar)
        } else if a == 0x63 && b == 0x66 {
            Some(UnicodeExtensionKey::CurrencyFormat)
        } else if a == 0x63 && b == 0x6f {
            Some(UnicodeExtensionKey::Collation)
        } else if a == 0x63 && b == 0x75 {
            Some(UnicodeExtensionKey::Currency)
        } else if a == 0x65 && b == 0x6d {
            Some(UnicodeExtensionKey::Emoji)
        } else if a == 0x66 && b == 0x77 {
            Some(UnicodeExtensionKey::FirstDay)
        } else if a == 0x68 && b == 0x63 {
            Some(UnicodeExtensionKey::HourCycle)
        } else if a == 0x6c && b == 0x62 {
            Some(UnicodeExtensionKey::LineBreak)
        } else if a == 0x6c && b == 0x77 {
            Some(UnicodeExtensionKey::LineBreakWord)
        } else if a == 0x6d && b == 0x73 {
            Some(UnicodeExtensionKey::MeasurementSystem)
        } else if a == 0x6e && b == 0x75 {
            Some(UnicodeExtensionKey::NumberingSystem)
        } else if a == 0x72 && b == 0x67 {
            Some(UnicodeExtensionKey::Region)
        } else if a == 0x73 && b == 0x64 {
            Some(UnicodeExtensionKey::RegionSubdivision)
        } else if a == 0x73 && b == 0x73 {
            Some(UnicodeExtensionKey::SentenceBreak)
        } else if a == 0x74 && b == 0x7a {
            Some(UnicodeExtensionKey::TimeZone)
        } else if a == 0x76 && b == 0x61 {
            Some(UnicodeExtensionKey::CommonVariantType)
        } else {
            None
        }
    }
}

/// A segment that spells a key of the unicode extension.
pub open spec fn is_unicode_key(key: Seq<u8>) -> bool {
    key.len() == 2 && UnicodeExtensionKey::of_code(key[0], key[1]) is Some
}

/// An attribute of the unicode extension, and a value of a keyword or of a
/// transform field: three to eight letters and digits, in lower case.
pub open spec fn is_value(s: Seq<u8>) -> bool {
    is_token(s, 3, 8) && is_lowered(s)
}

/// The key of a transform field: two letters or digits, in lower case.
pub open spec fn is_field_key(key: Seq<u8>) -> bool {
    is_token(key, 2, 2) && is_lowered(key)
}

/// One of the letters `u`, `t` and `x`, which start the extensions that
/// this library knows.
pub open spec fn is_known_letter(b: u8) -> bool {
    b == LETTER_U || b == LETTER_T || b == LETTER_X
}

/// A private-use token: one to eight letters and digits, in lower case.
pub open spec fn is_private_token(s: Seq<u8>) -> bool {
    is_token(s, 1, 8) && is_lowered(s)
}

/// A segment that is one of the letters `u`, `t` and `x` alone.
pub open spec fn is_known_segment(s: Seq<u8>) -> bool {
    s.len() == 1 && is_known_letter(s[0])
}

/// The letter of an extension other than `u`, `t` and `x`, in lower case.
pub open spec fn is_other_letter(key: Seq<u8>) -> bool {
    key.len() == 1 && 0x61 <= key[0] <= 0x7a && !is_known_letter(key[0])
}

/// A subtag of an extension of another letter: two to eight letters and
/// digits, kept as written.
pub open spec fn is_other_value(s: Seq<u8>) -> bool {
    is_token(s, 2, 8)
}

/// Every segment of a list is a subtag of an extension of another letter.
pub open spec fn all_other_values(values: Seq<Seq<u8>>) -> bool {
    forall|i: int| 0 <= i < values.len() ==> is_other_value(#[trigger] values[i])
}

/// An attribute stands alone.
pub open spec fn is_attribute_entry(e: EntryView) -> bool {
    is_value(e.key) && e.values.len() == 0
}

/// A keyword has a known key and at most one value.
pub open spec fn is_keyword_entry(e: EntryView) -> bool {
    &&& is_unicode_key(e.key)
    &&& e.values.len() <= 1
    &&& e.values.len() == 1 ==> is_value(e.values[0])
}

/// A transform field has a key and one value.
pub open spec fn is_field_entry(e: EntryView) -> bool {
    is_field_key(e.key) && e.values.len() == 1 && is_value(e.values[0])
}

/// A private-use token stands alone.
pub open spec fn is_private_entry(e: EntryView) -> bool {
    is_private_token(e.key) && e.values.len() == 0
}

/// An extension of another letter has its letter and at least one subtag.
pub open spec fn is_other_entry(e: EntryView) -> bool {
    is_other_letter(e.key) && e.values.len() >= 1 && all_other_values(e.values)
}

/// An entry that stands alone under the given key.
pub open spec fn lone(key: Seq<u8>) -> EntryView {
    EntryView { key, values: Seq::empty() }
}

/// An entry with one value, or none.
pub open spec fn keyed(key: Seq<u8>, value: Option<Seq<u8>>) -> EntryView {
    EntryView {
        key,
        values: match value {
            Some(v) => seq![v],
            None => Seq::empty(),
        },
    }
}

/// What an extensions map holds, as mathematical values. Each list is
/// sorted by key and holds each key once.
pub struct Extensions {
    /// The attributes of the unicode extension.
    pub attributes: Seq<EntryView>,
    /// The keywords of the unicode extension, each with its value if it has one.
    pub keywords: Seq<EntryView>,
    /// The language identifier that the content was transformed from.
    pub transform_lang: Option<Subtags>,
    /// The fields of the transform extension, each with its value.
    pub fields: Seq<EntryView>,
    /// The private-use tokens.
    pub private: Seq<EntryView>,
    /// The extensions of other letters, each letter with its subtags.
    pub other: Seq<EntryView>,
}

impl Extensions {
    /// The map that holds nothing.
    pub open spec fn empty() -> Extensions {
        Extensions {
            attributes: Seq::empty(),
            keywords: Seq::empty(),
            transform_lang: None,
            fields: Seq::empty(),
            private: Seq::empty(),
            other: Seq::empty(),
        }
    }

    /// A unicode extension is present.
    pub open spec fn has_unicode(self) -> bool {
        self.attributes.len() > 0 || self.keywords.len() > 0
    }

    /// A transform extension is present.
    pub open spec fn has_transform(self) -> bool {
        self.transform_lang is Some || self.fields.len() > 0
    }

    /// A private-use extension is present.
    pub open spec fn has_private(self) -> bool {
        self.private.len() > 0
    }

    /// No extension is present.
    pub open spec fn is_empty(self) -> bool {
        !self.has_unicode() && !self.has_transform() && !self.has_private() && self.other.len() == 0
    }

    /// Every list is sorted and every entry has the shape of its list.
    pub open spec fn lists_well_formed(self) -> bool {
        &&& sorted(self.attributes)
        &&& forall|i: int| 0 <= i < self.attributes.len() ==> is_attribute_entry(#[trigger] self.attributes[i])
        &&& sorted(self.keywords)
        &&& forall|i: int| 0 <= i < self.keywords.len() ==> is_keyword_entry(#[trigger] self.keywords[i])
        &&& sorted(self.fields)
        &&& forall|i: int| 0 <= i < self.fields.len() ==> is_field_entry(#[trigger] self.fields[i])
        &&& sorted(self.private)
        &&& forall|i: int| 0 <= i < self.private.len() ==> is_private_entry(#[trigger] self.private[i])
        &&& sorted(self.other)
        &&& forall|i: int| 0 <= i < self.other.len() ==> is_other_entry(#[trigger] self.other[i])
    }

    /// No private-use token is one of the letters `u`, `t` and `x` alone.
    /// Such a token can be set, but in a text it starts an extension.
    pub open spec fn private_is_plain(self) -> bool {
        forall|i: int| 0 <= i < self.private.len() ==> !is_known_segment(#[trigger] self.private[i].key)
    }

    /// The lists are well formed, and so is the language identifier of the
    /// transform extension.
    pub open spec fn well_formed(self) -> bool {
        &&& self.lists_well_formed()
        &&& (self.transform_lang matches Some(lang) ==> lang.well_formed())
    }

    /// The segments of the transform extension.
    pub open spec fn transform_segments(self) -> Seq<Seq<u8>> {
        if self.has_transform() {
            seq![seq![LETTER_T]] + (match self.transform_lang {
                Some(lang) => lang.segments(),
                None => Seq::<Seq<u8>>::empty(),
            }) + list_segments(self.fields)
        } else {
            Seq::<Seq<u8>>::empty()
        }
    }

    /// The segments of the unicode extension: attributes, then keywords.
    pub open spec fn unicode_segments(self) -> Seq<Seq<u8>> {
        if self.has_unicode() {
            seq![seq![LETTER_U]] + list_segments(self.attributes) + list_segments(self.keywords)
        } else {
            Seq::<Seq<u8>>::empty()
        }
    }

    /// The segments of the private-use extension.
    pub open spec fn private_segments(self) -> Seq<Seq<u8>> {
        if self.has_private() {
            seq![seq![LETTER_X]] + list_segments(self.private)
        } else {
            Seq::<Seq<u8>>::empty()
        }
    }

    /// The segments of the canonical text: `t`, then `u`, then the other
    /// letters in ascending order, then `x`.
    pub open spec fn segments(self) -> Seq<Seq<u8>> {
        self.transform_segments() + self.unicode_segments() + list_segments(self.other)
            + self.private_segments()
    }

    /// The canonical text: the segments with a hyphen between neighbours,
    /// and nothing where no extension is present.
    pub open spec fn text(self) -> Seq<u8> {
        if self.segments().len() == 0 {
            Seq::<u8>::empty()
        } else {
            joined(self.segments())
        }
    }
}

/// The extension sequences of a locale.
#[derive(Debug)]
pub struct ExtensionsMap {
    attributes: Vec<Entry>,
    keywords: Vec<Entry>,
    transform_lang: Option<LanguageIdentifier>,
    fields: Vec<Entry>,
    private: Vec<Entry>,
    other: Vec<Entry>,
}

impl View for ExtensionsMap {
    type V = Extensions;

    closed spec fn view(&self) -> Extensions {
        Extensions {
            attributes: entry_views(self.attributes@),
            keywords: entry_views(self.keywords@),
            transform_lang: match self.transform_lang {
                Some(lang) => Some(lang@),
                None => None,
            },
            fields: entry_views(self.fields@),
            private: entry_views(self.private@),
            other: entry_views(self.other@),
        }
    }
}

/// The error of a setter: the position of the part that it rejected.
pub open spec fn rejected(position: usize) -> LocaleError {
    LocaleError::ParserError(ParserError::InvalidExtension(position))
}

impl ExtensionsMap {
    #[verifier::type_invariant]
    spec fn inv(self) -> bool {
        self@.well_formed()
    }

    /// Every value of this type is well formed.
    pub fn well_formed(&self)
        ensures
            self@.well_formed(),
    {
        proof {
            use_type_invariant(self);
        }
    }

    /// Tells whether no extension is present.
    pub fn is_empty(&self) -> (r: bool)
        ensures
            r == self@.is_empty(),
    {
        self.attributes.len() == 0 && self.keywords.len() == 0 && self.transform_lang.is_none()
            && self.fields.len() == 0 && self.private.len() == 0 && self.other.len() == 0
    }

    /// Tells whether a unicode extension is present.
    pub fn has_unicode(&self) -> (r: bool)
        ensures
            r == self@.has_unicode(),
    {
        self.attributes.len() > 0 || self.keywords.len() > 0
    }

    /// Tells whether a transform extension is present.
    pub fn has_transform(&self) -> (r: bool)
        ensures
            r == self@.has_transform(),
    {
        self.transform_lang.is_some() || self.fields.len() > 0
    }

    /// Tells whether a private-use extension is present.
    pub fn has_private(&self) -> (r: bool)
        ensures
            r == self@.has_private(),
    {
        self.private.len() > 0
    }

    /// Tells whether the unicode extension has this attribute.
    pub fn has_unicode_attribute(&self, attribute: &[u8]) -> (r: bool)
        ensures
            r == has_key(self@.attributes, attribute@),
    {
        proof {
            use_type_invariant(self);
            lemma_slot_sorted(self@.attributes, attribute@);
        }
        find_slot(&self.attributes, attribute).1
    }

    /// Tells whether the unicode extension has a keyword of this key.
    pub fn has_unicode_key(&self, key: &[u8]) -> (r: bool)
        ensures
            r == has_key(self@.keywords, key@),
    {
        proof {
            use_type_invariant(self);
            lemma_slot_sorted(self@.keywords, key@);
        }
        find_slot(&self.keywords, key).1
    }

    /// Tells whether the transform extension has a field of this key.
    pub fn has_transform_field(&self, key: &[u8]) -> (r: bool)
        ensures
            r == has_key(self@.fields, key@),
    {
        proof {
            use_type_invariant(self);
            lemma_slot_sorted(self@.fields, key@);
        }
        find_slot(&self.fields, key).1
    }

    /// Tells whether the private-use extension has this token.
    pub fn has_private_value(&self, token: &[u8]) -> (r: bool)
        ensures
            r == has_key(self@.private, token@),
    {
        proof {
            use_type_invariant(self);
            lemma_slot_sorted(self@.private, token@);
        }
        find_slot(&self.private, token).1
    }

    /// Tells whether there is an extension of this letter.
    pub fn has_other(&self, letter: u8) -> (r: bool)
        ensures
            r == has_key(self@.other, seq![letter]),
    {
        proof {
            use_type_invariant(self);
            lemma_slot_sorted(self@.other, seq![letter]);
        }
        let mut key: Vec<u8> = Vec::new();
        key.push(letter);
        assert(key@ =~= seq![letter]);
        find_slot(&self.other, key.as_slice()).1
    }
}

impl ExtensionsMap {
    /// Adds an attribute to the unicode extension, in lower case. An
    /// attribute is three to eight letters and digits; one that the
    /// extension has already is rejected.
    pub fn set_unicode_attribute(&mut self, attribute: &[u8]) -> (r: Result<(), LocaleError>)
        ensures
            is_value(lowered(attribute@)) && !has_key(old(self)@.attributes, lowered(attribute@)) ==> r is Ok
                && final(self)@ == (Extensions {
                attributes: put(old(self)@.attributes, lone(lowered(attribute@))),
                ..old(self)@
            }),
            !(is_value(lowered(attribute@)) && !has_key(old(self)@.attributes, lowered(attribute@))) ==> r
                == Err::<(), _>(rejected(0)) && final(self)@ == old(self)@,
    {
        proof {
            use_type_invariant(&*self);
            lemma_lowered(attribute@);
        }
        let key = to_lower(attribute);
        if !check_token(key.as_slice(), 3, 8) {
            return Err(LocaleError::ParserError(ParserError::InvalidExtension(0)));
        }
        let found = find_slot(&self.attributes, key.as_slice()).1;
        proof {
            lemma_slot_sorted(self@.attributes, key@);
        }
        if found {
            return Err(LocaleError::ParserError(ParserError::InvalidExtension(0)));
        }
        let entry = Entry { key, values: Vec::new() };
        proof {
            assert(entry@.values =~= Seq::<Seq<u8>>::empty());
            lemma_put(self@.attributes, entry@);
        }
        let mut list = copy_entries(&self.attributes);
        put_entry(&mut list, entry);
        self.attributes = list;
        Ok(())
    }

    /// Takes an attribute out of the unicode extension, and tells whether
    /// it was there.
    pub fn remove_unicode_attribute(&mut self, attribute: &[u8]) -> (r: bool)
        ensures
            r == has_key(old(self)@.attributes, lowered(attribute@)),
            final(self)@ == (Extensions {
                attributes: without(old(self)@.attributes, lowered(attribute@)),
                ..old(self)@
            }),
    {
        proof {
            use_type_invariant(&*self);
        }
        let key = to_lower(attribute);
        proof {
            lemma_slot_sorted(self@.attributes, key@);
            lemma_without(self@.attributes, key@);
        }
        let mut list = copy_entries(&self.attributes);
        let found = remove_entry(&mut list, key.as_slice());
        self.attributes = list;
        found
    }

    /// Sets a keyword of the unicode extension, over the one of the same
    /// key if there is one. With no value the keyword stands alone; a value
    /// is three to eight letters and digits, and is kept in lower case.
    pub fn set_unicode_value(&mut self, key: UnicodeExtensionKey, value: Option<&[u8]>) -> (r: Result<
        (),
        LocaleError,
    >)
        ensures
            match value {
                Some(v) => if is_value(lowered(v@)) {
                    r is Ok && final(self)@ == (Extensions {
                        keywords: put(old(self)@.keywords, keyed(key.segment(), Some(lowered(v@)))),
                        ..old(self)@
                    })
                } else {
                    r == Err::<(), _>(rejected(1)) && final(self)@ == old(self)@
                },
                None => r is Ok && final(self)@ == (Extensions {
                    keywords: put(old(self)@.keywords, keyed(key.segment(), None)),
                    ..old(self)@
                }),
            },
    {
        proof {
            use_type_invariant(&*self);
            key.lemma_code();
        }
        let mut values: Vec<Vec<u8>> = Vec::new();
        match value {
            Some(v) => {
                proof {
                    lemma_lowered(v@);
                }
                let low = to_lower(v);
                if !check_token(low.as_slice(), 3, 8) {
                    return Err(LocaleError::ParserError(ParserError::InvalidExtension(1)));
                }
                values.push(low);
                assert(views(values@) =~= seq![lowered(v@)]);
            },
            None => {
                assert(views(values@) =~= Seq::<Seq<u8>>::empty());
            },
        }
        let entry = Entry { key: key.to_bytes(), values };
        proof {
            lemma_put(self@.keywords, entry@);
        }
        let mut list = copy_entries(&self.keywords);
        put_entry(&mut list, entry);
        self.keywords = list;
        Ok(())
    }

    /// Sets the language identifier that the content was transformed from.
    pub fn set_transform_lang(&mut self, lang: LanguageIdentifier) -> (r: Result<(), LocaleError>)
        ensures
            r is Ok,
            final(self)@ == (Extensions { transform_lang: Some(lang@), ..old(self)@ }),
    {
        proof {
            use_type_invariant(&*self);
        }
        lang.well_formed();
        self.transform_lang = Some(lang);
        Ok(())
    }

    /// Sets a field of the transform extension, over the one of the same
    /// key if there is one. A key is two letters or digits, a value three
    /// to eight; both are kept in lower case.
    pub fn set_transform_field(&mut self, key: &[u8], value: &[u8]) -> (r: Result<(), LocaleError>)
        ensures
            !is_field_key(lowered(key@)) ==> r == Err::<(), _>(rejected(0)) && final(self)@ == old(self)@,
            is_field_key(lowered(key@)) && !is_value(lowered(value@)) ==> r == Err::<(), _>(rejected(1))
                && final(self)@ == old(self)@,
            is_field_key(lowered(key@)) && is_value(lowered(value@)) ==> r is Ok && final(self)@ == (Extensions {
                fields: put(old(self)@.fields, keyed(lowered(key@), Some(lowered(value@)))),
                ..old(self)@
            }),
    {
        proof {
            use_type_invariant(&*self);
            lemma_lowered(key@);
            lemma_lowered(value@);
        }
        let k = to_lower(key);
        if !check_token(k.as_slice(), 2, 2) {
            return Err(LocaleError::ParserError(ParserError::InvalidExtension(0)));
        }
        let v = to_lower(value);
        if !check_token(v.as_slice(), 3, 8) {
            return Err(LocaleError::ParserError(ParserError::InvalidExtension(1)));
        }
        let mut values: Vec<Vec<u8>> = Vec::new();
        values.push(v);
        assert(views(values@) =~= seq![lowered(value@)]);
        let entry = Entry { key: k, values };
        proof {
            lemma_put(self@.fields, entry@);
        }
        let mut list = copy_entries(&self.fields);
        put_entry(&mut list, entry);
        self.fields = list;
        Ok(())
    }

    /// Adds a private-use token, in lower case. A token is one to eight
    /// letters and digits; one that the extension has already is rejected.
    /// The second argument is ignored.
    pub fn set_private_value(&mut self, token: &[u8], value: Option<&[u8]>) -> (r: Result<(), LocaleError>)
        ensures
            is_private_token(lowered(token@)) && !has_key(old(self)@.private, lowered(token@)) ==> r is Ok
                && final(self)@ == (Extensions {
                private: put(old(self)@.private, lone(lowered(token@))),
                ..old(self)@
            }),
            !(is_private_token(lowered(token@)) && !has_key(old(self)@.private, lowered(token@))) ==> r
                == Err::<(), _>(rejected(0)) && final(self)@ == old(self)@,
    {
        proof {
            use_type_invariant(&*self);
            lemma_lowered(token@);
        }
        let key = to_lower(token);
        if !check_token(key.as_slice(), 1, 8) {
            return Err(LocaleError::ParserError(ParserError::InvalidExtension(0)));
        }
        let found = find_slot(&self.private, key.as_slice()).1;
        proof {
            lemma_slot_sorted(self@.private, key@);
        }
        if found {
            return Err(LocaleError::ParserError(ParserError::InvalidExtension(0)));
        }
        let entry = Entry { key, values: Vec::new() };
        proof {
            assert(entry@.values =~= Seq::<Seq<u8>>::empty());
            lemma_put(self@.private, entry@);
        }
        let mut list = copy_entries(&self.private);
        put_entry(&mut list, entry);
        self.private = list;
        Ok(())
    }

    /// Takes a private-use token out, and tells whether it was there.
    pub fn remove_private_value(&mut self, token: &[u8]) -> (r: bool)
        ensures
            r == has_key(old(self)@.private, lowered(token@)),
            final(self)@ == (Extensions {
                private: without(old(self)@.private, lowered(token@)),
                ..old(self)@
            }),
    {
        proof {
            use_type_invariant(&*self);
        }
        let key = to_lower(token);
        proof {
            lemma_slot_sorted(self@.private, key@);
            lemma_without(self@.private, key@);
        }
        let mut list = copy_entries(&self.private);
        let found = remove_entry(&mut list, key.as_slice());
        self.private = list;
        found
    }

    /// Sets the extension of a letter other than `u`, `t` and `x`, over the
    /// one of the same letter if there is one. There must be a subtag; each
    /// is two to eight letters and digits and is kept as written.
    pub fn set_other(&mut self, letter: u8, values: &Vec<Vec<u8>>) -> (r: Result<(), LocaleError>)
        ensures
            ({
                let bad = first_rejected(views(values@), 2, 8);
                if !is_other_letter(seq![lower(letter)]) {
                    r == Err::<(), _>(rejected(0)) && final(self)@ == old(self)@
                } else if bad < values.len() || values.len() == 0 {
                    r == Err::<(), _>(rejected((1 + bad) as usize)) && final(self)@ == old(self)@
                } else {
                    r is Ok && final(self)@ == (Extensions {
                        other: put(
                            old(self)@.other,
                            EntryView { key: seq![lower(letter)], values: views(values@) },
                        ),
                        ..old(self)@
                    })
                }
            }),
    {
        assert(views(values@).subrange(0, values.len() as int) =~= views(values@));
        self.set_other_range(letter, values, 0, values.len())
    }

    /// Sets the extension of a letter to the subtags from `from` up to `to`
    /// of the list, as `set_other` does with a whole list.
    pub(crate) fn set_other_range(&mut self, letter: u8, values: &Vec<Vec<u8>>, from: usize, to: usize) -> (r: Result<
        (),
        LocaleError,
    >)
        requires
            from <= to <= values.len(),
        ensures
            ({
                let part = views(values@).subrange(from as int, to as int);
                let bad = first_rejected(part, 2, 8);
                if !is_other_letter(seq![lower(letter)]) {
                    r == Err::<(), _>(rejected(0)) && final(self)@ == old(self)@
                } else if bad < part.len() || part.len() == 0 {
                    r == Err::<(), _>(rejected((1 + bad) as usize)) && final(self)@ == old(self)@
                } else {
                    r is Ok && final(self)@ == (Extensions {
                        other: put(old(self)@.other, EntryView { key: seq![lower(letter)], values: part }),
                        ..old(self)@
                    })
                }
            }),
    {
        proof {
            use_type_invariant(&*self);
        }
        let l = crate::text::byte_lower(letter);
        if !(0x61 <= l && l <= 0x7a) || l == LETTER_U || l == LETTER_T || l == LETTER_X {
            return Err(LocaleError::ParserError(ParserError::InvalidExtension(0)));
        }
        let ghost part = views(values@).subrange(from as int, to as int);
        let bad = find_rejected(values, from, to, 2, 8);
        proof {
            lemma_first_rejected(part, 2, 8);
        }
        if bad < to || from == to {
            return Err(LocaleError::ParserError(ParserError::InvalidExtension(1 + (bad - from))));
        }
        let mut key: Vec<u8> = Vec::new();
        key.push(l);
        assert(key@ =~= seq![lower(letter)]);
        let mut list: Vec<Vec<u8>> = Vec::new();
        let mut i: usize = from;
        while i < to
            invariant
                from <= i <= to <= values.len(),
                list.len() == i - from,
                forall|j: int| 0 <= j < i - from ==> list@[j]@ == values@[from + j]@,
            decreases to - i,
        {
            list.push(copy_bytes(values[i].as_slice()));
            i += 1;
        }
        assert(views(list@) =~= part);
        let entry = Entry { key, values: list };
        proof {
            assert(all_other_values(part));
            lemma_put(self@.other, entry@);
        }
        let mut all = copy_entries(&self.other);
        put_entry(&mut all, entry);
        self.other = all;
        Ok(())
    }
}

impl ExtensionsMap {
    /// Appends the text of the transform extension.
    fn push_transform(&self, out: &mut Vec<u8>)
        ensures
            final(out)@ == old(out)@ + hyphenated(self@.transform_segments()),
    {
        if self.has_transform() {
            let ghost lang_part = match self@.transform_lang {
                Some(lang) => lang.segments(),
                None => Seq::<Seq<u8>>::empty(),
            };
            out.push(HYPHEN);
            out.push(LETTER_T);
            proof {
                lemma_hyphenated_one(seq![LETTER_T]);
                assert(out@ =~= old(out)@ + hyphenated(seq![seq![LETTER_T]]));
            }
            let ghost with_letter = out@;
            match &self.transform_lang {
                Some(lang) => {
                    out.push(HYPHEN);
                    let text = lang.to_bytes();
                    push_bytes(out, text.as_slice());
                    proof {
                        lemma_hyphenated_joined(lang@.segments());
                        assert(out@ =~= with_letter + hyphenated(lang_part));
                    }
                },
                None => {
                    assert(hyphenated(lang_part) =~= Seq::<u8>::empty());
                    assert(out@ =~= with_letter + hyphenated(lang_part));
                },
            }
            push_entries(out, &self.fields);
            proof {
                lemma_hyphenated_concat(seq![seq![LETTER_T]], lang_part);
                lemma_hyphenated_concat(seq![seq![LETTER_T]] + lang_part, list_segments(self@.fields));
            }
        } else {
            assert(hyphenated(self@.transform_segments()) =~= Seq::<u8>::empty());
            assert(out@ =~= old(out)@ + hyphenated(self@.transform_segments()));
        }
    }

    /// Appends the text of the unicode extension.
    fn push_unicode(&self, out: &mut Vec<u8>)
        ensures
            final(out)@ == old(out)@ + hyphenated(self@.unicode_segments()),
    {
        if self.has_unicode() {
            out.push(HYPHEN);
            out.push(LETTER_U);
            proof {
                lemma_hyphenated_one(seq![LETTER_U]);
                assert(out@ =~= old(out)@ + hyphenated(seq![seq![LETTER_U]]));
            }
            push_entries(out, &self.attributes);
            push_entries(out, &self.keywords);
            proof {
                lemma_hyphenated_concat(seq![seq![LETTER_U]], list_segments(self@.attributes));
                lemma_hyphenated_concat(
                    seq![seq![LETTER_U]] + list_segments(self@.attributes),
                    list_segments(self@.keywords),
                );
            }
        } else {
            assert(hyphenated(self@.unicode_segments()) =~= Seq::<u8>::empty());
            assert(out@ =~= old(out)@ + hyphenated(self@.unicode_segments()));
        }
    }

    /// Appends the text of the private-use extension.
    fn push_private(&self, out: &mut Vec<u8>)
        ensures
            final(out)@ == old(out)@ + hyphenated(self@.private_segments()),
    {
        if self.has_private() {
            out.push(HYPHEN);
            out.push(LETTER_X);
            proof {
                lemma_hyphenated_one(seq![LETTER_X]);
                assert(out@ =~= old(out)@ + hyphenated(seq![seq![LETTER_X]]));
            }
            push_entries(out, &self.private);
            proof {
                lemma_hyphenated_concat(seq![seq![LETTER_X]], list_segments(self@.private));
            }
        } else {
            assert(hyphenated(self@.private_segments()) =~= Seq::<u8>::empty());
            assert(out@ =~= old(out)@ + hyphenated(self@.private_segments()));
        }
    }

    /// Appends every segment of the canonical text, each with a hyphen
    /// before it: the form in which the text stands behind a language
    /// identifier.
    pub fn push_tail(&self, out: &mut Vec<u8>)
        ensures
            final(out)@ == old(out)@ + hyphenated(self@.segments()),
    {
        self.push_transform(out);
        self.push_unicode(out);
        push_entries(out, &self.other);
        self.push_private(out);
        proof {
            lemma_text_order(self@);
            assert(out@ =~= old(out)@ + (hyphenated(self@.transform_segments()) + hyphenated(
                self@.unicode_segments(),
            ) + hyphenated(list_segments(self@.other)) + hyphenated(self@.private_segments())));
        }
    }

    /// The canonical text, as bytes: empty where no extension is present.
    pub fn to_bytes(&self) -> (r: Vec<u8>)
        ensures
            r@ == self@.text(),
    {
        let mut out: Vec<u8> = Vec::new();
        self.push_tail(&mut out);
        assert(out@ =~= hyphenated(self@.segments()));
        proof {
            lemma_tail_text(self@);
            lemma_empty_text(self@);
        }
        if out.len() > 0 {
            let hyphen = out.remove(0);
            assert(out@ =~= self@.text());
        }
        out
    }

    /// The canonical text: empty where no extension is present.
    pub fn to_string(&self) -> (r: String)
        ensures
            r@ == ascii_chars(self@.text()),
    {
        let bytes = self.to_bytes();
        proof {
            use_type_invariant(self);
            lemma_extensions_ascii(self@);
        }
        ascii_string(bytes)
    }
}

/// Behind a hyphen, the canonical text of a map that is not empty is the
/// text in which a hyphen stands before every segment.
pub proof fn lemma_tail_text(map: Extensions)
    ensures
        map.segments().len() == 0 ==> hyphenated(map.segments()) == Seq::<u8>::empty(),
        map.segments().len() > 0 ==> hyphenated(map.segments()) == seq![HYPHEN] + map.text(),
{
    if map.segments().len() > 0 {
        lemma_hyphenated_joined(map.segments());
    } else {
        assert(hyphenated(map.segments()) =~= Seq::<u8>::empty());
    }
}

/// The canonical text has the transform extension first, then the unicode
/// extension, then the extensions of other letters, and the private-use
/// extension last: with a hyphen before every segment, it is the texts of
/// the four, one after the other.
pub proof fn lemma_text_order(map: Extensions)
    ensures
        hyphenated(map.segments()) == hyphenated(map.transform_segments()) + hyphenated(
            map.unicode_segments(),
        ) + hyphenated(list_segments(map.other)) + hyphenated(map.private_segments()),
        map.segments().len() > 0 ==> seq![HYPHEN] + map.text() == hyphenated(map.segments()),
{
    lemma_tail_text(map);
    let t_part = map.transform_segments();
    let u_part = map.unicode_segments();
    let o_part = list_segments(map.other);
    let x_part = map.private_segments();
    lemma_hyphenated_concat(t_part, u_part);
    lemma_hyphenated_concat(t_part + u_part, o_part);
    lemma_hyphenated_concat(t_part + u_part + o_part, x_part);
}

/// A map without extension has no segment and the empty text, and among
/// the maps with well-formed lists only such a map has.
pub proof fn lemma_empty_text(map: Extensions)
    ensures
        map.is_empty() <==> map.segments().len() == 0,
        map.is_empty() ==> map.text() == Seq::<u8>::empty(),
        map.lists_well_formed() && map.text().len() == 0 ==> map.is_empty(),
        Extensions::empty().is_empty(),
{
    crate::entries::lemma_list_segments_len(map.other);
    let segments = map.segments();
    if segments.len() > 0 && map.lists_well_formed() {
        if !map.has_transform() && !map.has_unicode() && map.other.len() > 0 {
            crate::entries::lemma_list_segments_front(map.other);
            assert(is_other_entry(map.other[0]));
            assert(segments[0] == map.other[0].key);
        }
        assert(segments[0].len() == 1);
        assert(joined(segments).len() >= 1);
    }
}

/// Every segment of a map with well-formed lists has a property that
/// every segment of letters and digits has, provided that the segments of
/// the language identifier of the transform extension have it.
pub proof fn lemma_segments_all(map: Extensions, p: spec_fn(Seq<u8>) -> bool)
    requires
        map.lists_well_formed(),
        forall|s: Seq<u8>| all_alnum(s) ==> #[trigger] p(s),
        map.transform_lang matches Some(lang) ==> forall|i: int|
            0 <= i < lang.segments().len() ==> p(#[trigger] lang.segments()[i]),
    ensures
        forall|k: int| 0 <= k < map.segments().len() ==> p(#[trigger] map.segments()[k]),
{
    assert forall|i: int| 0 <= i < map.attributes.len() implies entry_all(#[trigger] map.attributes[i], p) by {
        assert(is_attribute_entry(map.attributes[i]));
    }
    assert forall|i: int| 0 <= i < map.keywords.len() implies entry_all(#[trigger] map.keywords[i], p) by {
        let e = map.keywords[i];
        assert(is_keyword_entry(e));
        assert(UnicodeExtensionKey::of_code(e.key[0], e.key[1]) is Some);
        assert(all_alnum(e.key));
    }
    assert forall|i: int| 0 <= i < map.fields.len() implies entry_all(#[trigger] map.fields[i], p) by {
        assert(is_field_entry(map.fields[i]));
    }
    assert forall|i: int| 0 <= i < map.private.len() implies entry_all(#[trigger] map.private[i], p) by {
        assert(is_private_entry(map.private[i]));
    }
    assert forall|i: int| 0 <= i < map.other.len() implies entry_all(#[trigger] map.other[i], p) by {
        let e = map.other[i];
        assert(is_other_entry(e));
        assert(all_alnum(e.key));
        assert forall|j: int| 0 <= j < e.values.len() implies p(#[trigger] e.values[j]) by {
            assert(is_other_value(e.values[j]));
        }
    }
    lemma_list_segments_all(map.attributes, p);
    lemma_list_segments_all(map.keywords, p);
    lemma_list_segments_all(map.fields, p);
    lemma_list_segments_all(map.private, p);
    lemma_list_segments_all(map.other, p);
    assert(all_alnum(seq![LETTER_T]) && all_alnum(seq![LETTER_U]) && all_alnum(seq![LETTER_X]));
    let t_part = map.transform_segments();
    let u_part = map.unicode_segments();
    let o_part = list_segments(map.other);
    let x_part = map.private_segments();
    assert forall|k: int| 0 <= k < t_part.len() implies p(#[trigger] t_part[k]) by {
        let lang_part = match map.transform_lang {
            Some(lang) => lang.segments(),
            None => Seq::<Seq<u8>>::empty(),
        };
        let f_part = list_segments(map.fields);
        if k == 0 {
        } else if k < 1 + lang_part.len() {
            assert(t_part[k] == lang_part[k - 1]);
        } else {
            assert(t_part[k] == f_part[k - 1 - lang_part.len()]);
        }
    }
    assert forall|k: int| 0 <= k < u_part.len() implies p(#[trigger] u_part[k]) by {
        let a_part = list_segments(map.attributes);
        let k_part = list_segments(map.keywords);
        if k == 0 {
        } else if k < 1 + a_part.len() {
            assert(u_part[k] == a_part[k - 1]);
        } else {
            assert(u_part[k] == k_part[k - 1 - a_part.len()]);
        }
    }
    assert forall|k: int| 0 <= k < x_part.len() implies p(#[trigger] x_part[k]) by {
        let p_part = list_segments(map.private);
        if k > 0 {
            assert(x_part[k] == p_part[k - 1]);
        }
    }
    let all = map.segments();
    assert forall|k: int| 0 <= k < all.len() implies p(#[trigger] all[k]) by {
        if k < t_part.len() {
            assert(all[k] == t_part[k]);
        } else if k < t_part.len() + u_part.len() {
            assert(all[k] == u_part[k - t_part.len()]);
        } else if k < t_part.len() + u_part.len() + o_part.len() {
            assert(all[k] == o_part[k - t_part.len() - u_part.len()]);
        } else {
            assert(all[k] == x_part[k - t_part.len() - u_part.len() - o_part.len()]);
        }
    }
}

/// The text of a well-formed map is ASCII, with or without a hyphen
/// before the first segment.
pub proof fn lemma_extensions_ascii(map: Extensions)
    requires
        map.well_formed(),
    ensures
        all_ascii(map.text()),
        all_ascii(hyphenated(map.segments())),
{
    let ascii = |s: Seq<u8>| all_ascii(s);
    assert forall|s: Seq<u8>| all_alnum(s) implies #[trigger] ascii(s) by {
        assert forall|i: int| 0 <= i < s.len() implies #[trigger] s[i] < 0x80 by {
            assert(is_alnum(s[i]));
        }
    }
    if let Some(lang) = map.transform_lang {
        crate::langid::lemma_segments_ascii(lang);
    }
    lemma_segments_all(map, ascii);
    assert forall|i: int| 0 <= i < map.segments().len() implies all_ascii(#[trigger] map.segments()[i]) by {
        assert(ascii(map.segments()[i]));
    }
    lemma_hyphenated_ascii(map.segments());
    if map.segments().len() > 0 {
        lemma_joined_ascii(map.segments());
    }
}

impl Clone for ExtensionsMap {
    fn clone(&self) -> (r: ExtensionsMap)
        ensures
            r@ == self@,
    {
        proof {
            use_type_invariant(self);
        }
        ExtensionsMap {
            attributes: copy_entries(&self.attributes),
            keywords: copy_entries(&self.keywords),
            transform_lang: match &self.transform_lang {
                Some(lang) => Some(lang.clone()),
                None => None,
            },
            fields: copy_entries(&self.fields),
            private: copy_entries(&self.private),
            other: copy_entries(&self.other),
        }
    }
}

impl PartialEq for ExtensionsMap {
    fn eq(&self, other: &ExtensionsMap) -> (r: bool) {
        let same_lang = match (&self.transform_lang, &other.transform_lang) {
            (Some(a), Some(b)) => a.eq(b),
            (None, None) => true,
            _ => false,
        };
        same_lang && entries_eq(&self.attributes, &other.attributes) && entries_eq(
            &self.keywords,
            &other.keywords,
        ) && entries_eq(&self.fields, &other.fields) && entries_eq(&self.private, &other.private)
            && entries_eq(&self.other, &other.other)
    }
}

impl PartialEqSpecImpl for ExtensionsMap {
    open spec fn obeys_eq_spec() -> bool {
        true
    }

    open spec fn eq_spec(&self, other: &ExtensionsMap) -> bool {
        self@ == other@
    }
}

/// The strings of a list of segments.
pub open spec fn is_text_of(strings: Seq<String>, segments: Seq<Seq<u8>>) -> bool {
    &&& strings.len() == segments.len()
    &&& forall|i: int| 0 <= i < strings.len() ==> (#[trigger] strings[i])@ == ascii_chars(segments[i])
}

/// The keys of a list of entries.
pub open spec fn keys(list: Seq<EntryView>) -> Seq<Seq<u8>> {
    Seq::new(list.len(), |i: int| list[i].key)
}

/// The strings of ASCII segments.
fn strings_of(segments: &Vec<Vec<u8>>) -> (r: Vec<String>)
    requires
        forall|i: int| 0 <= i < segments.len() ==> all_ascii(#[trigger] segments@[i]@),
    ensures
        is_text_of(r@, views(segments@)),
{
    let mut out: Vec<String> = Vec::new();
    let mut i: usize = 0;
    while i < segments.len()
        invariant
            i <= segments.len(),
            out.len() == i,
            forall|j: int| 0 <= j < segments.len() ==> all_ascii(#[trigger] segments@[j]@),
            forall|j: int| 0 <= j < i ==> (#[trigger] out@[j])@ == ascii_chars(segments@[j]@),
        decreases segments.len() - i,
    {
        out.push(ascii_string(copy_bytes(segments[i].as_slice())));
        i += 1;
    }
    out
}

/// The keys of entries whose keys are ASCII, as strings.
fn key_strings(list: &Vec<Entry>) -> (r: Vec<String>)
    requires
        forall|i: int| 0 <= i < list.len() ==> all_ascii(#[trigger] list@[i].key@),
    ensures
        is_text_of(r@, keys(entry_views(list@))),
{
    let mut out: Vec<String> = Vec::new();
    let mut i: usize = 0;
    while i < list.len()
        invariant
            i <= list.len(),
            out.len() == i,
            forall|j: int| 0 <= j < list.len() ==> all_ascii(#[trigger] list@[j].key@),
            forall|j: int| 0 <= j < i ==> (#[trigger] out@[j])@ == ascii_chars(list@[j].key@),
        decreases list.len() - i,
    {
        out.push(ascii_string(copy_bytes(list[i].key.as_slice())));
        i += 1;
    }
    out
}

impl ExtensionsMap {
    /// The attributes of the unicode extension, in ascending order.
    pub fn get_unicode_attributes(&self) -> (r: Vec<String>)
        ensures
            is_text_of(r@, keys(self@.attributes)),
    {
        proof {
            use_type_invariant(self);
            assert forall|i: int| 0 <= i < self.attributes.len() implies all_ascii(
                #[trigger] self.attributes@[i].key@,
            ) by {
                assert(is_attribute_entry(self@.attributes[i]));
                lemma_alnum_ascii(self.attributes@[i].key@);
            }
        }
        key_strings(&self.attributes)
    }

    /// The value of a keyword of the unicode extension: none where the
    /// extension lacks the keyword, and no value where the keyword stands
    /// alone.
    pub fn get_unicode_value(&self, key: UnicodeExtensionKey) -> (r: Option<Option<String>>)
        ensures
            match lookup(self@.keywords, key.segment()) {
                Some(entry) => r matches Some(value) && (if entry.values.len() == 1 {
                    value matches Some(v) && v@ == ascii_chars(entry.values[0])
                } else {
                    value is None
                }),
                None => r is None,
            },
    {
        proof {
            use_type_invariant(self);
        }
        let code = key.to_bytes();
        let (at, found) = find_slot(&self.keywords, code.as_slice());
        if !found {
            return None;
        }
        let entry = &self.keywords[at];
        assert(is_keyword_entry(self@.keywords[at as int]));
        if entry.values.len() == 1 {
            proof {
                lemma_alnum_ascii(entry.values@[0]@);
            }
            Some(Some(ascii_string(copy_bytes(entry.values[0].as_slice()))))
        } else {
            Some(None)
        }
    }

    /// The language identifier that the content was transformed from.
    pub fn get_transform_lang(&self) -> (r: Option<&LanguageIdentifier>)
        ensures
            match self@.transform_lang {
                Some(lang) => r matches Some(id) && id@ == lang,
                None => r is None,
            },
    {
        match &self.transform_lang {
            Some(lang) => Some(lang),
            None => None,
        }
    }

    /// The value of a field of the transform extension, whose key is given
    /// in lower case.
    pub fn get_transform_field(&self, key: &[u8]) -> (r: Option<String>)
        ensures
            match lookup(self@.fields, key@) {
                Some(entry) => r matches Some(v) && v@ == ascii_chars(entry.values[0]),
                None => r is None,
            },
    {
        proof {
            use_type_invariant(self);
        }
        let (at, found) = find_slot(&self.fields, key);
        if !found {
            return None;
        }
        let entry = &self.fields[at];
        assert(is_field_entry(self@.fields[at as int]));
        proof {
            lemma_alnum_ascii(entry.values@[0]@);
        }
        Some(ascii_string(copy_bytes(entry.values[0].as_slice())))
    }

    /// The private-use tokens, in ascending order.
    pub fn get_private_values(&self) -> (r: Vec<String>)
        ensures
            is_text_of(r@, keys(self@.private)),
    {
        proof {
            use_type_invariant(self);
            assert forall|i: int| 0 <= i < self.private.len() implies all_ascii(
                #[trigger] self.private@[i].key@,
            ) by {
                assert(is_private_entry(self@.private[i]));
                lemma_alnum_ascii(self.private@[i].key@);
            }
        }
        key_strings(&self.private)
    }

    /// The subtags of the extension of a letter, which is given in lower
    /// case.
    pub fn get_other(&self, letter: u8) -> (r: Option<Vec<String>>)
        ensures
            match lookup(self@.other, seq![letter]) {
                Some(entry) => r matches Some(list) && is_text_of(list@, entry.values),
                None => r is None,
            },
    {
        proof {
            use_type_invariant(self);
        }
        let mut key: Vec<u8> = Vec::new();
        key.push(letter);
        assert(key@ =~= seq![letter]);
        let (at, found) = find_slot(&self.other, key.as_slice());
        if !found {
            return None;
        }
        let entry = &self.other[at];
        proof {
            assert(is_other_entry(self@.other[at as int]));
            assert forall|i: int| 0 <= i < entry.values.len() implies all_ascii(
                #[trigger] entry.values@[i]@,
            ) by {
                assert(is_other_value(self@.other[at as int].values[i]));
                lemma_alnum_ascii(entry.values@[i]@);
            }
        }
        Some(strings_of(&entry.values))
    }
}

/// Letters and digits are ASCII.
pub proof fn lemma_alnum_ascii(s: Seq<u8>)
    requires
        all_alnum(s),
    ensures
        all_ascii(s),
{
    assert forall|i: int| 0 <= i < s.len() implies #[trigger] s[i] < 0x80 by {
        assert(is_alnum(s[i]));
    }
}

impl Default for ExtensionsMap {
    fn default() -> (r: ExtensionsMap)
        ensures
            r@ == Extensions::empty(),
            r@.is_empty(),
    {
        let r = ExtensionsMap {
            attributes: Vec::new(),
            keywords: Vec::new(),
            transform_lang: None,
            fields: Vec::new(),
            private: Vec::new(),
            other: Vec::new(),
        };
        assert(r@.attributes =~= Seq::<EntryView>::empty());
        assert(r@.keywords =~= Seq::<EntryView>::empty());
        assert(r@.fields =~= Seq::<EntryView>::empty());
        assert(r@.private =~= Seq::<EntryView>::empty());
        assert(r@.other =~= Seq::<EntryView>::empty());
        r
    }
}

} // verus!
