//! The language identifier at the head of a locale: language, script, region
//! and variants. Their grammar is that of the `unic-langid-impl` crate, which
//! checks and normalises every subtag that enters a value of this module.

use crate::errors::{LocaleError, ParserError};
use crate::text::{
    all_ascii, ascii_chars, ascii_string, bytes_eq, copy_bytes, copy_list, hyphenated, joined,
    lemma_hyphenated_concat, lemma_joined_ascii, list_eq, no_separator, push_segment,
    push_segments, split, split_segments, views,
};
use tinystr::{TinyStr4, TinyStr8};
use unic_langid_impl::parser::ParserError as GrammarError;
use unic_langid_impl::LanguageIdentifierError;
use vstd::prelude::*;
use vstd::std_specs::cmp::PartialEqSpecImpl;
use vstd::string::StringSliceAdditionalSpecFns;

verus! {

/// The direction in which the characters of a language are written.
#[derive(Debug, Clone, Copy, PartialEq, Eq, Structural)]
pub enum CharacterDirection {
    /// Right to left.
    RTL,
    /// Left to right.
    LTR,
}

/// What a language identifier holds, as mathematical values. An absent
/// language is the undetermined language, written `und`.
pub struct Subtags {
    pub language: Option<Seq<u8>>,
    pub script: Option<Seq<u8>>,
    pub region: Option<Seq<u8>>,
    pub variants: Seq<Seq<u8>>,
}

/// The text `und`.
pub open spec fn und() -> Seq<u8> {
    seq![0x75u8, 0x6eu8, 0x64u8]
}

/// A subtag that a tiny string of at most `max` bytes can hold: between one
/// and `max` ASCII bytes, none of them zero.
pub open spec fn is_tiny(s: Seq<u8>, max: int) -> bool {
    &&& 1 <= s.len() <= max
    &&& forall|i: int| 0 <= i < s.len() ==> 0 < #[trigger] s[i] < 0x80
}

/// An optional subtag is absent or tiny.
pub open spec fn is_tiny_or_absent(s: Option<Seq<u8>>, max: int) -> bool {
    s matches Some(bytes) ==> is_tiny(bytes, max)
}

/// Every subtag of a list is tiny.
pub open spec fn all_tiny(list: Seq<Seq<u8>>, max: int) -> bool {
    forall|i: int| 0 <= i < list.len() ==> is_tiny(#[trigger] list[i], max)
}

/// The language that a language text stands for: none for `und`.
pub open spec fn language_of(text: Seq<u8>) -> Option<Seq<u8>> {
    if text == und() {
        None
    } else {
        Some(text)
    }
}

/// One optional subtag matches another: a side taken as a range matches
/// anything where it is absent, and otherwise the two must be equal.
pub open spec fn subtag_matches(
    a: Option<Seq<u8>>,
    b: Option<Seq<u8>>,
    a_as_range: bool,
    b_as_range: bool,
) -> bool {
    (a_as_range && a is None) || (b_as_range && b is None) || a == b
}

/// One list of variants matches another, an empty list standing for absence.
pub open spec fn variants_match(
    a: Seq<Seq<u8>>,
    b: Seq<Seq<u8>>,
    a_as_range: bool,
    b_as_range: bool,
) -> bool {
    (a_as_range && a.len() == 0) || (b_as_range && b.len() == 0) || a == b
}

impl Subtags {
    /// Every subtag fits the tiny string that the grammar crate keeps it in.
    pub open spec fn well_formed(self) -> bool {
        &&& is_tiny_or_absent(self.language, 8)
        &&& self.language != Some(und())
        &&& is_tiny_or_absent(self.script, 4)
        &&& is_tiny_or_absent(self.region, 4)
        &&& all_tiny(self.variants, 8)
    }

    /// The language as written: `und` where there is none.
    pub open spec fn language_text(self) -> Seq<u8> {
        match self.language {
            Some(l) => l,
            None => und(),
        }
    }

    /// The segments of the canonical text: language, script, region, variants.
    pub open spec fn segments(self) -> Seq<Seq<u8>> {
        seq![self.language_text()] + (match self.script {
            Some(s) => seq![s],
            None => Seq::<Seq<u8>>::empty(),
        }) + (match self.region {
            Some(r) => seq![r],
            None => Seq::<Seq<u8>>::empty(),
        }) + self.variants
    }

    /// The canonical text.
    pub open spec fn text(self) -> Seq<u8> {
        joined(self.segments())
    }

    /// Range-aware matching, subtag by subtag.
    pub open spec fn matches(self, other: Subtags, self_as_range: bool, other_as_range: bool) -> bool {
        &&& subtag_matches(self.language, other.language, self_as_range, other_as_range)
        &&& subtag_matches(self.script, other.script, self_as_range, other_as_range)
        &&& subtag_matches(self.region, other.region, self_as_range, other_as_range)
        &&& variants_match(self.variants, other.variants, self_as_range, other_as_range)
    }

    /// Every segment of the canonical text has at least two bytes and no
    /// separator, as every subtag has that was read from a text.
    pub open spec fn is_plain(self) -> bool {
        forall|i: int|
            0 <= i < self.segments().len() ==> (#[trigger] self.segments()[i]).len() >= 2
                && no_separator(self.segments()[i])
    }

    /// The identifier with no subtag at all.
    pub open spec fn empty() -> Subtags {
        Subtags { language: None, script: None, region: None, variants: Seq::empty() }
    }
}

/// The bytes of an optional vector.
pub open spec fn opt_view(o: Option<Vec<u8>>) -> Option<Seq<u8>> {
    match o {
        Some(v) => Some(v@),
        None => None,
    }
}

/// The byte sequences held by a slice of slices.
pub open spec fn slices(v: Seq<&[u8]>) -> Seq<Seq<u8>> {
    Seq::new(v.len(), |i: int| v[i]@)
}

/// The bytes of an optional slice.
pub open spec fn opt_slice_view(o: Option<&[u8]>) -> Option<Seq<u8>> {
    match o {
        Some(v) => Some(v@),
        None => None,
    }
}

/// What `unic_langid_impl::LanguageIdentifier::try_from_iter` makes of a list
/// of segments when extensions may follow: the language as written, script,
/// region, variants, and the number of segments that it took; or its error.
pub uninterp spec fn subtags_read(segments: Seq<Seq<u8>>) -> Result<
    (Seq<u8>, Option<Seq<u8>>, Option<Seq<u8>>, Seq<Seq<u8>>, nat),
    LocaleError,
>;

/// What `unic_langid_impl::LanguageIdentifier::from_parts` makes of the given
/// parts: the language as written, script, region and variants; or its error.
pub uninterp spec fn subtags_checked(
    language: Option<Seq<u8>>,
    script: Option<Seq<u8>>,
    region: Option<Seq<u8>>,
    variants: Seq<Seq<u8>>,
) -> Result<(Seq<u8>, Option<Seq<u8>>, Option<Seq<u8>>, Seq<Seq<u8>>), LocaleError>;

/// The subtags that a reading or a check produced.
pub open spec fn subtags_of(
    language: Seq<u8>,
    script: Option<Seq<u8>>,
    region: Option<Seq<u8>>,
    variants: Seq<Seq<u8>>,
) -> Subtags {
    Subtags { language: language_of(language), script, region, variants }
}

/// What reading a list of segments as a prefix gives: the subtags and the
/// number of segments taken.
pub open spec fn read_prefix(segments: Seq<Seq<u8>>) -> Result<(Subtags, nat), LocaleError> {
    match subtags_read(segments) {
        Ok((l, s, r, v, n)) => Ok((subtags_of(l, s, r, v), n)),
        Err(e) => Err(e),
    }
}

/// The segments of the subtags, with `rest` after them, are read as these
/// subtags and nothing more.
pub open spec fn reads_back(subtags: Subtags, rest: Seq<Seq<u8>>) -> bool {
    read_prefix(subtags.segments() + rest) == Ok::<(Subtags, nat), LocaleError>(
        (subtags, subtags.segments().len()),
    )
}

/// What checking the given parts gives.
pub open spec fn check_parts(
    language: Option<Seq<u8>>,
    script: Option<Seq<u8>>,
    region: Option<Seq<u8>>,
    variants: Seq<Seq<u8>>,
) -> Result<Subtags, LocaleError> {
    match subtags_checked(language, script, region, variants) {
        Ok((l, s, r, v)) => Ok(subtags_of(l, s, r, v)),
        Err(e) => Err(e),
    }
}

/// What a text is as a language identifier on its own: every segment must
/// belong to the identifier.
pub open spec fn parse_subtags(text: Seq<u8>) -> Result<Subtags, LocaleError> {
    match read_prefix(split(text)) {
        Ok((subtags, taken)) => if taken == split(text).len() {
            Ok(subtags)
        } else {
            Err(LocaleError::ParserError(ParserError::InvalidSubtag))
        },
        Err(e) => Err(e),
    }
}

/// `unic_langid_impl::LanguageIdentifier::try_from_iter`, with extensions
/// allowed, on the segments from `from` up to `to`. The result is the one named
/// `subtags_read`; the last number is the count of segments left unread.
/// The crate keeps a language in a tiny string of 8 bytes, a script and a
/// region in one of 4, a variant in one of 8, and only moves its iterator
/// forward.
#[verifier::external_body]
fn read_subtags(segments: &Vec<Vec<u8>>, from: usize, to: usize) -> (r: Result<
    (Vec<u8>, Option<Vec<u8>>, Option<Vec<u8>>, Vec<Vec<u8>>, usize),
    LocaleError,
>)
    requires
        from <= to <= segments.len(),
    ensures
        match r {
            Ok((language, script, region, variants, left)) => {
                &&& left <= to - from
                &&& subtags_read(views(segments@).subrange(from as int, to as int)) == Ok::<
                    _,
                    LocaleError,
                >(
                    (
                        language@,
                        opt_view(script),
                        opt_view(region),
                        views(variants@),
                        (to - from - left) as nat,
                    ),
                )
                &&& is_tiny(language@, 8)
                &&& is_tiny_or_absent(opt_view(script), 4)
                &&& is_tiny_or_absent(opt_view(region), 4)
                &&& all_tiny(views(variants@), 8)
            },
            Err(e) => subtags_read(views(segments@).subrange(from as int, to as int)) == Err::<
                (Seq<u8>, Option<Seq<u8>>, Option<Seq<u8>>, Seq<Seq<u8>>, nat),
                _,
            >(e),
        },
{
    let mut iter = segments[from..to].iter().map(|s| s.as_slice()).peekable();
    match unic_langid_impl::LanguageIdentifier::try_from_iter(&mut iter, true) {
        Ok(id) => Ok((
            id.language().into(),
            id.script().map(Into::into),
            id.region().map(Into::into),
            id.variants().map(Into::into).collect(),
            iter.count(),
        )),
        Err(LanguageIdentifierError::Unknown) => Err(LocaleError::Unknown),
        Err(LanguageIdentifierError::ParserError(e)) => Err(LocaleError::ParserError(match e {
            GrammarError::InvalidLanguage => ParserError::InvalidLanguage,
            GrammarError::InvalidSubtag => ParserError::InvalidSubtag,
        })),
    }
}

/// `unic_langid_impl::LanguageIdentifier::from_parts` on the given parts.
/// The result is the one named `subtags_checked`. The crate keeps a language
/// in a tiny string of 8 bytes, a script and a region in one of 4, a variant
/// in one of 8.
#[verifier::external_body]
fn check_subtags(
    language: Option<&[u8]>,
    script: Option<&[u8]>,
    region: Option<&[u8]>,
    variants: &[&[u8]],
) -> (r: Result<(Vec<u8>, Option<Vec<u8>>, Option<Vec<u8>>, Vec<Vec<u8>>), LocaleError>)
    ensures
        match r {
            Ok((l, s, g, v)) => {
                &&& subtags_checked(
                    opt_slice_view(language),
                    opt_slice_view(script),
                    opt_slice_view(region),
                    slices(variants@),
                ) == Ok::<_, LocaleError>((l@, opt_view(s), opt_view(g), views(v@)))
                &&& is_tiny(l@, 8)
                &&& is_tiny_or_absent(opt_view(s), 4)
                &&& is_tiny_or_absent(opt_view(g), 4)
                &&& all_tiny(views(v@), 8)
            },
            Err(e) => subtags_checked(
                opt_slice_view(language),
                opt_slice_view(script),
                opt_slice_view(region),
                slices(variants@),
            ) == Err::<(Seq<u8>, Option<Seq<u8>>, Option<Seq<u8>>, Seq<Seq<u8>>), _>(e),
        },
{
    match unic_langid_impl::LanguageIdentifier::from_parts(language, script, region, variants) {
        Ok(id) => Ok((
            id.language().into(),
            id.script().map(Into::into),
            id.region().map(Into::into),
            id.variants().map(Into::into).collect(),
        )),
        Err(LanguageIdentifierError::Unknown) => Err(LocaleError::Unknown),
        Err(LanguageIdentifierError::ParserError(e)) => Err(LocaleError::ParserError(match e {
            GrammarError::InvalidLanguage => ParserError::InvalidLanguage,
            GrammarError::InvalidSubtag => ParserError::InvalidSubtag,
        })),
    }
}

/// The languages that `unic_langid_impl` lists as written right to left:
/// `ar`, `fa`, `he`, `ps`, `sd` and `ur`.
pub open spec fn is_rtl_language(language: Seq<u8>) -> bool {
    ||| language == seq![0x61u8, 0x72u8]
    ||| language == seq![0x66u8, 0x61u8]
    ||| language == seq![0x68u8, 0x65u8]
    ||| language == seq![0x70u8, 0x73u8]
    ||| language == seq![0x73u8, 0x64u8]
    ||| language == seq![0x75u8, 0x72u8]
}

/// `unic_langid_impl::LanguageIdentifier::character_direction` of the
/// identifier that holds the given language and nothing else: right to left
/// exactly for the six languages of the crate's table.
#[verifier::external_body]
fn language_is_rtl(language: Option<&[u8]>) -> (rtl: bool)
    ensures
        rtl == (language matches Some(l) && is_rtl_language(l@)),
{
    let subtag = language.and_then(|b| TinyStr8::from_bytes(b).ok());
    let id = unic_langid_impl::LanguageIdentifier::from_raw_parts_unchecked(subtag, None, None, None);
    matches!(id.character_direction(), unic_langid_impl::CharacterDirection::RTL)
}

/// What `unic_langid_impl::LanguageIdentifier::maximize` does to the
/// identifier with the given language, script and region: whether it changed
/// anything, and the language as written, the script and the region after it.
pub uninterp spec fn likely_maximized(
    language: Option<Seq<u8>>,
    script: Option<Seq<u8>>,
    region: Option<Seq<u8>>,
) -> (bool, Seq<u8>, Option<Seq<u8>>, Option<Seq<u8>>);

/// What `unic_langid_impl::LanguageIdentifier::minimize` does to the
/// identifier with the given language, script and region: whether it changed
/// anything, and the language as written, the script and the region after it.
pub uninterp spec fn likely_minimized(
    language: Option<Seq<u8>>,
    script: Option<Seq<u8>>,
    region: Option<Seq<u8>>,
) -> (bool, Seq<u8>, Option<Seq<u8>>, Option<Seq<u8>>);

/// `unic_langid_impl::LanguageIdentifier::maximize` on the identifier made of
/// the given subtags. The result is the one named `likely_maximized`; what
/// comes back is held in tiny strings of 8, 4 and 4 bytes.
#[verifier::external_body]
fn likely_maximize(language: Option<&[u8]>, script: Option<&[u8]>, region: Option<&[u8]>) -> (r: (
    bool,
    Vec<u8>,
    Option<Vec<u8>>,
    Option<Vec<u8>>,
))
    ensures
        (r.0, r.1@, opt_view(r.2), opt_view(r.3)) == likely_maximized(
            opt_slice_view(language),
            opt_slice_view(script),
            opt_slice_view(region),
        ),
        is_tiny(r.1@, 8),
        is_tiny_or_absent(opt_view(r.2), 4),
        is_tiny_or_absent(opt_view(r.3), 4),
{
    let mut id = unic_langid_impl::LanguageIdentifier::from_raw_parts_unchecked(
        language.and_then(|b| TinyStr8::from_bytes(b).ok()),
        script.and_then(|b| TinyStr4::from_bytes(b).ok()),
        region.and_then(|b| TinyStr4::from_bytes(b).ok()),
        None,
    );
    let changed = id.maximize();
    (changed, id.language().into(), id.script().map(Into::into), id.region().map(Into::into))
}

/// `unic_langid_impl::LanguageIdentifier::minimize` on the identifier made of
/// the given subtags. The result is the one named `likely_minimized`; what
/// comes back is held in tiny strings of 8, 4 and 4 bytes.
#[verifier::external_body]
fn likely_minimize(language: Option<&[u8]>, script: Option<&[u8]>, region: Option<&[u8]>) -> (r: (
    bool,
    Vec<u8>,
    Option<Vec<u8>>,
    Option<Vec<u8>>,
))
    ensures
        (r.0, r.1@, opt_view(r.2), opt_view(r.3)) == likely_minimized(
            opt_slice_view(language),
            opt_slice_view(script),
            opt_slice_view(region),
        ),
        is_tiny(r.1@, 8),
        is_tiny_or_absent(opt_view(r.2), 4),
        is_tiny_or_absent(opt_view(r.3), 4),
{
    let mut id = unic_langid_impl::LanguageIdentifier::from_raw_parts_unchecked(
        language.and_then(|b| TinyStr8::from_bytes(b).ok()),
        script.and_then(|b| TinyStr4::from_bytes(b).ok()),
        region.and_then(|b| TinyStr4::from_bytes(b).ok()),
        None,
    );
    let changed = id.minimize();
    (changed, id.language().into(), id.script().map(Into::into), id.region().map(Into::into))
}

/// The number that bytes spell when the first byte counts least.
pub open spec fn le_value(bytes: Seq<u8>) -> nat
    decreases bytes.len(),
{
    if bytes.len() == 0 {
        0
    } else {
        bytes[0] as nat + 256 * le_value(bytes.drop_first())
    }
}

/// `tinystr::TinyStr8::from_bytes` and the `u64` that the tiny string turns
/// into: the bytes of a subtag, the first one counting least.
#[verifier::external_body]
fn raw_of_tiny8(bytes: &[u8]) -> (r: u64)
    ensures
        is_tiny(bytes@, 8) ==> r == le_value(bytes@),
{
    match TinyStr8::from_bytes(bytes) {
        Ok(subtag) => subtag.into(),
        Err(_) => 0,
    }
}

/// `tinystr::TinyStr4::from_bytes` and the `u32` that the tiny string turns
/// into: the bytes of a subtag, the first one counting least.
#[verifier::external_body]
fn raw_of_tiny4(bytes: &[u8]) -> (r: u32)
    ensures
        is_tiny(bytes@, 4) ==> r == le_value(bytes@),
{
    match TinyStr4::from_bytes(bytes) {
        Ok(subtag) => subtag.into(),
        Err(_) => 0,
    }
}

/// A language identifier: an optional language, script and region, and a
/// list of variants, each as the grammar crate wrote it.
#[derive(Debug)]
pub struct LanguageIdentifier {
    language: Option<Vec<u8>>,
    script: Option<Vec<u8>>,
    region: Option<Vec<u8>>,
    variants: Vec<Vec<u8>>,
}

impl View for LanguageIdentifier {
    type V = Subtags;

    closed spec fn view(&self) -> Subtags {
        Subtags {
            language: opt_view(self.language),
            script: opt_view(self.script),
            region: opt_view(self.region),
            variants: views(self.variants@),
        }
    }
}

/// The result of a fallible construction, seen as mathematical values.
pub open spec fn subtags_result(r: Result<LanguageIdentifier, LocaleError>) -> Result<
    Subtags,
    LocaleError,
> {
    match r {
        Ok(id) => Ok(id@),
        Err(e) => Err(e),
    }
}

/// A copy of an optional subtag.
fn copy_opt(o: &Option<Vec<u8>>) -> (r: Option<Vec<u8>>)
    ensures
        opt_view(r) == opt_view(*o),
{
    match o {
        Some(v) => Some(copy_bytes(v.as_slice())),
        None => None,
    }
}

/// Tells whether two optional subtags are equal.
fn opt_eq(a: &Option<Vec<u8>>, b: &Option<Vec<u8>>) -> (r: bool)
    ensures
        r == (opt_view(*a) == opt_view(*b)),
{
    match (a, b) {
        (Some(x), Some(y)) => bytes_eq(x.as_slice(), y.as_slice()),
        (None, None) => true,
        _ => false,
    }
}

/// An optional subtag as a slice.
fn opt_slice(o: &Option<Vec<u8>>) -> (r: Option<&[u8]>)
    ensures
        opt_slice_view(r) == opt_view(*o),
{
    match o {
        Some(v) => Some(v.as_slice()),
        None => None,
    }
}

/// The language that a language text stands for: none for `und`.
fn language_from(text: Vec<u8>) -> (r: Option<Vec<u8>>)
    ensures
        opt_view(r) == language_of(text@),
{
    if text.len() == 3 && text[0] == 0x75 && text[1] == 0x6e && text[2] == 0x64 {
        assert(text@ =~= und());
        None
    } else {
        assert(text@ != und()) by {
            if text@ == und() {
                assert(und().len() == 3 && und()[0] == 0x75 && und()[1] == 0x6e && und()[2] == 0x64);
            }
        }
        Some(text)
    }
}

impl LanguageIdentifier {
    #[verifier::type_invariant]
    spec fn inv(self) -> bool {
        self@.well_formed()
    }

    /// Every value of this type is well formed.
    pub fn well_formed(&self)
        ensures
            self@.well_formed(),
    {
        proof {
            use_type_invariant(self);
        }
    }

    /// Reads a text as a language identifier.
    pub fn from_bytes(text: &[u8]) -> (r: Result<LanguageIdentifier, LocaleError>)
        ensures
            subtags_result(r) == parse_subtags(text@),
    {
        let segments = split_segments(text);
        assert(views(segments@).subrange(0, segments.len() as int) =~= views(segments@));
        match read_subtags(&segments, 0, segments.len()) {
            Ok((l, s, r, v, left)) => {
                if left == 0 {
                    Ok(LanguageIdentifier { language: language_from(l), script: s, region: r, variants: v })
                } else {
                    Err(LocaleError::ParserError(ParserError::InvalidSubtag))
                }
            },
            Err(e) => Err(e),
        }
    }

    /// Reads the longest run of segments that makes a language identifier,
    /// among those from `from` up to `to`, and tells how many it took.
    pub(crate) fn from_segments(segments: &Vec<Vec<u8>>, from: usize, to: usize) -> (r: Result<
        (LanguageIdentifier, usize),
        LocaleError,
    >)
        requires
            from <= to <= segments.len(),
        ensures
            match read_prefix(views(segments@).subrange(from as int, to as int)) {
                Ok((subtags, taken)) => r matches Ok((id, n)) && id@ == subtags && n == taken
                    && from + n <= to,
                Err(e) => r matches Err(f) && f == e,
            },
    {
        match read_subtags(segments, from, to) {
            Ok((l, s, r, v, left)) => {
                let id = LanguageIdentifier { language: language_from(l), script: s, region: r, variants: v };
                Ok((id, to - from - left))
            },
            Err(e) => Err(e),
        }
    }

    /// Checks the given parts and makes an identifier of them.
    pub fn from_parts(
        language: Option<&[u8]>,
        script: Option<&[u8]>,
        region: Option<&[u8]>,
        variants: &[&[u8]],
    ) -> (r: Result<LanguageIdentifier, LocaleError>)
        ensures
            subtags_result(r) == check_parts(
                opt_slice_view(language),
                opt_slice_view(script),
                opt_slice_view(region),
                slices(variants@),
            ),
    {
        match check_subtags(language, script, region, variants) {
            Ok((l, s, r, v)) => Ok(
                LanguageIdentifier { language: language_from(l), script: s, region: r, variants: v },
            ),
            Err(e) => Err(e),
        }
    }

    /// Makes an identifier of parts that the caller has validated before.
    pub fn from_raw_parts_unchecked(
        language: Option<Vec<u8>>,
        script: Option<Vec<u8>>,
        region: Option<Vec<u8>>,
        variants: Vec<Vec<u8>>,
    ) -> (r: LanguageIdentifier)
        requires
            (Subtags {
                language: opt_view(language),
                script: opt_view(script),
                region: opt_view(region),
                variants: views(variants@),
            }).well_formed(),
        ensures
            r@ == (Subtags {
                language: opt_view(language),
                script: opt_view(script),
                region: opt_view(region),
                variants: views(variants@),
            }),
    {
        LanguageIdentifier { language, script, region, variants }
    }

    /// Range-aware comparison: a side taken as a range matches any subtag
    /// where it has none.
    pub fn matches(&self, other: &LanguageIdentifier, self_as_range: bool, other_as_range: bool) -> (r:
        bool)
        ensures
            r == self@.matches(other@, self_as_range, other_as_range),
    {
        ((self_as_range && self.language.is_none()) || (other_as_range && other.language.is_none())
            || opt_eq(&self.language, &other.language)) && ((self_as_range && self.script.is_none())
            || (other_as_range && other.script.is_none()) || opt_eq(&self.script, &other.script))
            && ((self_as_range && self.region.is_none()) || (other_as_range
            && other.region.is_none()) || opt_eq(&self.region, &other.region)) && ((self_as_range
            && self.variants.len() == 0) || (other_as_range && other.variants.len() == 0)
            || list_eq(&self.variants, &other.variants))
    }

    /// The canonical text, as bytes.
    pub fn to_bytes(&self) -> (r: Vec<u8>)
        ensures
            r@ == self@.text(),
    {
        let mut out: Vec<u8> = match &self.language {
            Some(l) => copy_bytes(l.as_slice()),
            None => {
                let mut u: Vec<u8> = Vec::new();
                u.push(0x75);
                u.push(0x6e);
                u.push(0x64);
                assert(u@ =~= und());
                u
            },
        };
        let ghost head = seq![self@.language_text()];
        let ghost tail0 = Seq::<Seq<u8>>::empty();
        assert(hyphenated(tail0) =~= Seq::<u8>::empty());
        assert(out@ =~= self@.language_text() + hyphenated(tail0));
        let ghost tail1 = match self@.script {
            Some(s) => seq![s],
            None => Seq::<Seq<u8>>::empty(),
        };
        if let Some(s) = &self.script {
            push_segment(&mut out, s.as_slice());
            assert(tail1.drop_last() =~= tail0);
        }
        assert(out@ =~= self@.language_text() + hyphenated(tail1));
        let ghost tail2 = tail1 + (match self@.region {
            Some(r) => seq![r],
            None => Seq::<Seq<u8>>::empty(),
        });
        if let Some(r) = &self.region {
            push_segment(&mut out, r.as_slice());
            assert(tail2.drop_last() =~= tail1);
        } else {
            assert(tail2 =~= tail1);
        }
        assert(out@ =~= self@.language_text() + hyphenated(tail2));
        push_segments(&mut out, &self.variants);
        proof {
            lemma_hyphenated_concat(tail2, self@.variants);
            assert(self@.segments().skip(1) =~= tail2 + self@.variants);
        }
        out
    }

    /// The canonical text.
    pub fn to_string(&self) -> (r: String)
        ensures
            r@ == ascii_chars(self@.text()),
    {
        let bytes = self.to_bytes();
        proof {
            use_type_invariant(self);
            lemma_text_is_ascii(self@);
        }
        ascii_string(bytes)
    }

    /// The language, `und` where there is none.
    pub fn language(&self) -> (r: String)
        ensures
            r@ == ascii_chars(self@.language_text()),
    {
        proof {
            use_type_invariant(self);
        }
        match &self.language {
            Some(l) => ascii_string(copy_bytes(l.as_slice())),
            None => {
                let mut u: Vec<u8> = Vec::new();
                u.push(0x75);
                u.push(0x6e);
                u.push(0x64);
                assert(u@ =~= und());
                ascii_string(u)
            },
        }
    }

    /// The script, if there is one.
    pub fn script(&self) -> (r: Option<String>)
        ensures
            match self@.script {
                Some(s) => r matches Some(t) && t@ == ascii_chars(s),
                None => r is None,
            },
    {
        proof {
            use_type_invariant(self);
        }
        match &self.script {
            Some(s) => Some(ascii_string(copy_bytes(s.as_slice()))),
            None => None,
        }
    }

    /// The region, if there is one.
    pub fn region(&self) -> (r: Option<String>)
        ensures
            match self@.region {
                Some(s) => r matches Some(t) && t@ == ascii_chars(s),
                None => r is None,
            },
    {
        proof {
            use_type_invariant(self);
        }
        match &self.region {
            Some(s) => Some(ascii_string(copy_bytes(s.as_slice()))),
            None => None,
        }
    }

    /// The variants, in their order.
    pub fn variants(&self) -> (r: Vec<String>)
        ensures
            r.len() == self@.variants.len(),
            forall|i: int| 0 <= i < r.len() ==> (#[trigger] r[i])@ == ascii_chars(self@.variants[i]),
    {
        proof {
            use_type_invariant(self);
        }
        let mut out: Vec<String> = Vec::new();
        let mut i: usize = 0;
        while i < self.variants.len()
            invariant
                i <= self.variants.len(),
                out.len() == i,
                all_tiny(views(self.variants@), 8),
                forall|j: int| 0 <= j < i ==> (#[trigger] out[j])@ == ascii_chars(self.variants@[j]@),
            decreases self.variants.len() - i,
        {
            assert(is_tiny(views(self.variants@)[i as int], 8));
            out.push(ascii_string(copy_bytes(self.variants[i].as_slice())));
            i += 1;
        }
        out
    }

    /// Replaces the language by the checked form of the given one.
    pub fn set_language(&mut self, language: &[u8]) -> (r: Result<(), LocaleError>)
        ensures
            match check_parts(Some(language@), None, None, Seq::empty()) {
                Ok(checked) => r is Ok && final(self)@ == (Subtags {
                    language: checked.language,
                    ..old(self)@
                }),
                Err(e) => r == Err::<(), _>(e) && final(self)@ == old(self)@,
            },
    {
        proof {
            use_type_invariant(&*self);
        }
        let none: Vec<&[u8]> = Vec::new();
        assert(slices(none@) =~= Seq::<Seq<u8>>::empty());
        match check_subtags(Some(language), None, None, none.as_slice()) {
            Ok((l, _, _, _)) => {
                self.language = language_from(l);
                Ok(())
            },
            Err(e) => Err(e),
        }
    }

    /// Removes the language.
    pub fn clear_language(&mut self)
        ensures
            final(self)@ == (Subtags { language: None, ..old(self)@ }),
    {
        proof {
            use_type_invariant(&*self);
        }
        self.language = None;
    }

    /// Replaces the script by the checked form of the given one.
    pub fn set_script(&mut self, script: &[u8]) -> (r: Result<(), LocaleError>)
        ensures
            match check_parts(None, Some(script@), None, Seq::empty()) {
                Ok(checked) => r is Ok && final(self)@ == (Subtags {
                    script: checked.script,
                    ..old(self)@
                }),
                Err(e) => r == Err::<(), _>(e) && final(self)@ == old(self)@,
            },
    {
        proof {
            use_type_invariant(&*self);
        }
        let none: Vec<&[u8]> = Vec::new();
        assert(slices(none@) =~= Seq::<Seq<u8>>::empty());
        match check_subtags(None, Some(script), None, none.as_slice()) {
            Ok((_, s, _, _)) => {
                self.script = s;
                Ok(())
            },
            Err(e) => Err(e),
        }
    }

    /// Removes the script.
    pub fn clear_script(&mut self)
        ensures
            final(self)@ == (Subtags { script: None, ..old(self)@ }),
    {
        proof {
            use_type_invariant(&*self);
        }
        self.script = None;
    }

    /// Replaces the region by the checked form of the given one.
    pub fn set_region(&mut self, region: &[u8]) -> (r: Result<(), LocaleError>)
        ensures
            match check_parts(None, None, Some(region@), Seq::empty()) {
                Ok(checked) => r is Ok && final(self)@ == (Subtags {
                    region: checked.region,
                    ..old(self)@
                }),
                Err(e) => r == Err::<(), _>(e) && final(self)@ == old(self)@,
            },
    {
        proof {
            use_type_invariant(&*self);
        }
        let none: Vec<&[u8]> = Vec::new();
        assert(slices(none@) =~= Seq::<Seq<u8>>::empty());
        match check_subtags(None, None, Some(region), none.as_slice()) {
            Ok((_, _, r, _)) => {
                self.region = r;
                Ok(())
            },
            Err(e) => Err(e),
        }
    }

    /// Removes the region.
    pub fn clear_region(&mut self)
        ensures
            final(self)@ == (Subtags { region: None, ..old(self)@ }),
    {
        proof {
            use_type_invariant(&*self);
        }
        self.region = None;
    }

    /// Replaces the variants by the checked form of the given ones.
    pub fn set_variants(&mut self, variants: &[&[u8]]) -> (r: Result<(), LocaleError>)
        ensures
            match check_parts(None, None, None, slices(variants@)) {
                Ok(checked) => r is Ok && final(self)@ == (Subtags {
                    variants: checked.variants,
                    ..old(self)@
                }),
                Err(e) => r == Err::<(), _>(e) && final(self)@ == old(self)@,
            },
    {
        proof {
            use_type_invariant(&*self);
        }
        match check_subtags(None, None, None, variants) {
            Ok((_, _, _, v)) => {
                self.variants = v;
                Ok(())
            },
            Err(e) => Err(e),
        }
    }

    /// Removes the variants.
    pub fn clear_variants(&mut self)
        ensures
            final(self)@ == (Subtags { variants: Seq::empty(), ..old(self)@ }),
    {
        proof {
            use_type_invariant(&*self);
        }
        self.variants = Vec::new();
        assert(views(self.variants@) =~= Seq::<Seq<u8>>::empty());
    }

    /// The direction in which the language is written.
    pub fn character_direction(&self) -> (r: CharacterDirection)
        ensures
            r == (if self@.language matches Some(l) && is_rtl_language(l) {
                CharacterDirection::RTL
            } else {
                CharacterDirection::LTR
            }),
    {
        if language_is_rtl(opt_slice(&self.language)) {
            CharacterDirection::RTL
        } else {
            CharacterDirection::LTR
        }
    }

    /// Adds the subtags that are likely for this identifier, and tells
    /// whether anything changed. The variants stay.
    pub fn maximize(&mut self) -> (changed: bool)
        ensures
            changed == likely_maximized(old(self)@.language, old(self)@.script, old(self)@.region).0,
            final(self)@ == likely_applied(
                old(self)@,
                likely_maximized(old(self)@.language, old(self)@.script, old(self)@.region),
            ),
    {
        proof {
            use_type_invariant(&*self);
        }
        let (changed, l, s, r) = likely_maximize(
            opt_slice(&self.language),
            opt_slice(&self.script),
            opt_slice(&self.region),
        );
        if changed {
            self.language = language_from(l);
            self.script = s;
            self.region = r;
        }
        changed
    }

    /// Removes the subtags that are likely anyway, and tells whether
    /// anything changed. The variants stay.
    pub fn minimize(&mut self) -> (changed: bool)
        ensures
            changed == likely_minimized(old(self)@.language, old(self)@.script, old(self)@.region).0,
            final(self)@ == likely_applied(
                old(self)@,
                likely_minimized(old(self)@.language, old(self)@.script, old(self)@.region),
            ),
    {
        proof {
            use_type_invariant(&*self);
        }
        let (changed, l, s, r) = likely_minimize(
            opt_slice(&self.language),
            opt_slice(&self.script),
            opt_slice(&self.region),
        );
        if changed {
            self.language = language_from(l);
            self.script = s;
            self.region = r;
        }
        changed
    }

    /// The subtags as numbers, the first byte of each counting least; no
    /// list where there is no variant.
    pub fn into_raw_parts(self) -> (r: (Option<u64>, Option<u32>, Option<u32>, Option<Vec<u64>>))
        ensures
            is_raw8(r.0, self@.language),
            is_raw4(r.1, self@.script),
            is_raw4(r.2, self@.region),
            match r.3 {
                Some(list) => self@.variants.len() > 0 && list@.len() == self@.variants.len()
                    && forall|i: int|
                    0 <= i < list@.len() ==> #[trigger] list@[i] == le_value(self@.variants[i]),
                None => self@.variants.len() == 0,
            },
    {
        proof {
            use_type_invariant(&self);
        }
        let language = match &self.language {
            Some(l) => Some(raw_of_tiny8(l.as_slice())),
            None => None,
        };
        let script = match &self.script {
            Some(s) => Some(raw_of_tiny4(s.as_slice())),
            None => None,
        };
        let region = match &self.region {
            Some(r) => Some(raw_of_tiny4(r.as_slice())),
            None => None,
        };
        if self.variants.len() == 0 {
            return (language, script, region, None);
        }
        let mut list: Vec<u64> = Vec::new();
        let mut i: usize = 0;
        while i < self.variants.len()
            invariant
                i <= self.variants.len(),
                list.len() == i,
                all_tiny(views(self.variants@), 8),
                forall|j: int| 0 <= j < i ==> #[trigger] list@[j] == le_value(self.variants@[j]@),
            decreases self.variants.len() - i,
        {
            assert(is_tiny(views(self.variants@)[i as int], 8));
            list.push(raw_of_tiny8(self.variants[i].as_slice()));
            i += 1;
        }
        (language, script, region, Some(list))
    }
}

/// The number, if any, is that of the subtag, and is there exactly where
/// the subtag is.
pub open spec fn is_raw8(raw: Option<u64>, subtag: Option<Seq<u8>>) -> bool {
    match (raw, subtag) {
        (Some(x), Some(s)) => x == le_value(s),
        (None, None) => true,
        _ => false,
    }
}

/// The number, if any, is that of the subtag, and is there exactly where
/// the subtag is.
pub open spec fn is_raw4(raw: Option<u32>, subtag: Option<Seq<u8>>) -> bool {
    match (raw, subtag) {
        (Some(x), Some(s)) => x == le_value(s),
        (None, None) => true,
        _ => false,
    }
}

impl Default for LanguageIdentifier {
    fn default() -> (r: LanguageIdentifier)
        ensures
            r@ == Subtags::empty(),
    {
        let r = LanguageIdentifier { language: None, script: None, region: None, variants: Vec::new() };
        assert(r@.variants =~= Seq::<Seq<u8>>::empty());
        r
    }
}

impl Clone for LanguageIdentifier {
    fn clone(&self) -> (r: LanguageIdentifier)
        ensures
            r@ == self@,
    {
        proof {
            use_type_invariant(self);
        }
        LanguageIdentifier {
            language: copy_opt(&self.language),
            script: copy_opt(&self.script),
            region: copy_opt(&self.region),
            variants: copy_list(&self.variants),
        }
    }
}

impl std::str::FromStr for LanguageIdentifier {
    type Err = LocaleError;

    fn from_str(source: &str) -> (r: Result<LanguageIdentifier, LocaleError>)
        ensures
            subtags_result(r) == parse_subtags(source.spec_bytes()),
    {
        LanguageIdentifier::from_bytes(source.as_bytes())
    }
}

impl PartialEq for LanguageIdentifier {
    fn eq(&self, other: &LanguageIdentifier) -> (r: bool) {
        opt_eq(&self.language, &other.language) && opt_eq(&self.script, &other.script) && opt_eq(
            &self.region,
            &other.region,
        ) && list_eq(&self.variants, &other.variants)
    }
}

impl PartialEqSpecImpl for LanguageIdentifier {
    open spec fn obeys_eq_spec() -> bool {
        true
    }

    open spec fn eq_spec(&self, other: &LanguageIdentifier) -> bool {
        self@ == other@
    }
}

/// The subtags after likely subtags were added or removed: language, script
/// and region are replaced where anything changed.
pub open spec fn likely_applied(
    before: Subtags,
    outcome: (bool, Seq<u8>, Option<Seq<u8>>, Option<Seq<u8>>),
) -> Subtags {
    if outcome.0 {
        Subtags {
            language: language_of(outcome.1),
            script: outcome.2,
            region: outcome.3,
            variants: before.variants,
        }
    } else {
        before
    }
}

/// The segments of well-formed subtags are ASCII.
pub proof fn lemma_segments_ascii(subtags: Subtags)
    requires
        subtags.well_formed(),
    ensures
        forall|i: int| 0 <= i < subtags.segments().len() ==> all_ascii(#[trigger] subtags.segments()[i]),
{
    let segments = subtags.segments();
    assert forall|i: int| 0 <= i < segments.len() implies all_ascii(#[trigger] segments[i]) by {
        let s = segments[i];
        assert(is_tiny(s, 8) || s == und()) by {
            if i >= segments.len() - subtags.variants.len() {
                assert(s == subtags.variants[i - (segments.len() - subtags.variants.len())]);
            }
        }
    }
}

/// The canonical text of well-formed subtags is ASCII.
pub proof fn lemma_text_is_ascii(subtags: Subtags)
    requires
        subtags.well_formed(),
    ensures
        all_ascii(subtags.text()),
{
    lemma_segments_ascii(subtags);
    lemma_joined_ascii(subtags.segments());
}

} // verus!
