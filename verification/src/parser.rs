//! The grammar of a locale text and its parser. A text is cut into segments
//! at its separators; the language identifier takes the first of them, and
//! the rest are extension sequences, each started by a single letter.

use crate::entries::{EntryView, has_key, put};
use crate::errors::{LocaleError, ParserError};
use crate::extensions::{
    ExtensionType, Extensions, ExtensionsMap, UnicodeExtensionKey, is_field_key, is_known_letter,
    is_private_token, is_unicode_key, is_value, keyed, lone, LETTER_T, LETTER_U, LETTER_X,
};
use crate::langid::{LanguageIdentifier, read_prefix};
use crate::text::{
    byte_is_alpha, byte_lower, check_token, first_rejected, is_alpha, lemma_first_rejected,
    lemma_lowered, lower, lowered, split, split_segments, to_lower, views,
};
use crate::{Locale, LocaleView};
use vstd::prelude::*;

verus! {

/// A segment that starts an extension sequence: a single letter.
pub open spec fn is_letter(segment: Seq<u8>) -> bool {
    segment.len() == 1 && is_alpha(segment[0])
}

/// A segment that ends a sequence. A private-use sequence ends only at one
/// of the letters `u`, `t` and `x`, any other sequence at any letter.
pub open spec fn ends_sequence(segment: Seq<u8>, private: bool) -> bool {
    is_letter(segment) && (!private || is_known_letter(lower(segment[0])))
}

/// The end of the sequence that starts at `from`: the place of the next
/// segment that ends it, or the end of the list.
pub open spec fn sequence_end(segments: Seq<Seq<u8>>, from: int, private: bool) -> int
    decreases segments.len() - from,
{
    if from < 0 || from >= segments.len() {
        segments.len() as int
    } else if ends_sequence(segments[from], private) {
        from
    } else {
        sequence_end(segments, from + 1, private)
    }
}

/// The error for the segment at a place.
pub open spec fn bad_segment(at: int) -> ParserError {
    ParserError::InvalidExtension(at as usize)
}

/// A private-use sequence: each segment is a token that the map lacks.
pub open spec fn read_private(segments: Seq<Seq<u8>>, from: int, to: int, map: Extensions) -> Result<
    Extensions,
    ParserError,
>
    decreases to - from,
{
    if from >= to {
        Ok(map)
    } else {
        let token = lowered(segments[from]);
        if is_private_token(token) && !has_key(map.private, token) {
            read_private(
                segments,
                from + 1,
                to,
                Extensions { private: put(map.private, lone(token)), ..map },
            )
        } else {
            Err(bad_segment(from))
        }
    }
}

/// A unicode sequence. A segment of two bytes is a keyword, which must be
/// known and new; the segment after it is its value if it can be one. Any
/// other segment is an attribute, which must be new.
pub open spec fn read_unicode(segments: Seq<Seq<u8>>, from: int, to: int, map: Extensions) -> Result<
    Extensions,
    ParserError,
>
    decreases to - from,
{
    if from >= to {
        Ok(map)
    } else {
        let segment = lowered(segments[from]);
        if segment.len() == 2 {
            if !is_unicode_key(segment) || has_key(map.keywords, segment) {
                Err(bad_segment(from))
            } else if from + 1 < to && is_value(lowered(segments[from + 1])) {
                read_unicode(
                    segments,
                    from + 2,
                    to,
                    Extensions {
                        keywords: put(map.keywords, keyed(segment, Some(lowered(segments[from + 1])))),
                        ..map
                    },
                )
            } else {
                read_unicode(
                    segments,
                    from + 1,
                    to,
                    Extensions { keywords: put(map.keywords, keyed(segment, None)), ..map },
                )
            }
        } else if is_value(segment) && !has_key(map.attributes, segment) {
            read_unicode(
                segments,
                from + 1,
                to,
                Extensions { attributes: put(map.attributes, lone(segment)), ..map },
            )
        } else {
            Err(bad_segment(from))
        }
    }
}

/// The fields of a transform sequence: a new key, then its value, again
/// and again.
pub open spec fn read_fields(segments: Seq<Seq<u8>>, from: int, to: int, map: Extensions) -> Result<
    Extensions,
    ParserError,
>
    decreases to - from,
{
    if from >= to {
        Ok(map)
    } else {
        let key = lowered(segments[from]);
        if !is_field_key(key) || has_key(map.fields, key) {
            Err(bad_segment(from))
        } else if from + 1 >= to || !is_value(lowered(segments[from + 1])) {
            Err(bad_segment(from + 1))
        } else {
            read_fields(
                segments,
                from + 2,
                to,
                Extensions {
                    fields: put(map.fields, keyed(key, Some(lowered(segments[from + 1])))),
                    ..map
                },
            )
        }
    }
}

/// A transform sequence: the longest run of segments that makes a language
/// identifier, if the sequence starts with one, and then the fields.
pub open spec fn read_transform(segments: Seq<Seq<u8>>, from: int, to: int, map: Extensions) -> Result<
    Extensions,
    ParserError,
> {
    match read_prefix(segments.subrange(from, to)) {
        Ok((lang, taken)) => read_fields(
            segments,
            from + taken,
            to,
            Extensions { transform_lang: Some(lang), ..map },
        ),
        Err(_) => read_fields(segments, from, to, map),
    }
}

/// The sequence of another letter: every segment is a subtag, kept as
/// written.
pub open spec fn read_other(segments: Seq<Seq<u8>>, from: int, to: int, letter: u8, map: Extensions) -> Result<
    Extensions,
    ParserError,
> {
    let subtags = segments.subrange(from, to);
    let bad = first_rejected(subtags, 2, 8);
    if bad < subtags.len() {
        Err(bad_segment(from + bad))
    } else {
        Ok(Extensions { other: put(map.other, EntryView { key: seq![letter], values: subtags }), ..map })
    }
}

/// The sequence from `from` up to `to`, under the letter before it. A letter
/// whose extension the map has already is rejected.
pub open spec fn read_sequence(segments: Seq<Seq<u8>>, from: int, to: int, letter: u8, map: Extensions) -> Result<
    Extensions,
    ParserError,
> {
    if letter == LETTER_U {
        if map.has_unicode() {
            Err(bad_segment(from - 1))
        } else {
            read_unicode(segments, from, to, map)
        }
    } else if letter == LETTER_T {
        if map.has_transform() {
            Err(bad_segment(from - 1))
        } else {
            read_transform(segments, from, to, map)
        }
    } else if letter == LETTER_X {
        if map.has_private() {
            Err(bad_segment(from - 1))
        } else {
            read_private(segments, from, to, map)
        }
    } else {
        if has_key(map.other, seq![letter]) {
            Err(bad_segment(from - 1))
        } else {
            read_other(segments, from, to, letter, map)
        }
    }
}

/// The extension sequences from `from` on: each starts with a letter and
/// has at least one segment after it.
pub open spec fn read_extensions(segments: Seq<Seq<u8>>, from: int, map: Extensions) -> Result<
    Extensions,
    ParserError,
>
    decreases segments.len() - from,
{
    if from >= segments.len() {
        Ok(map)
    } else if from < 0 || !is_letter(segments[from]) {
        Err(bad_segment(from))
    } else {
        let letter = lower(segments[from][0]);
        let to = sequence_end(segments, from + 1, letter == LETTER_X);
        if to <= from + 1 {
            Err(bad_segment(from + 1))
        } else {
            proof {
                lemma_sequence_end(segments, from + 1, letter == LETTER_X);
            }
            match read_sequence(segments, from + 1, to, letter, map) {
                Ok(next) => read_extensions(segments, to, next),
                Err(e) => Err(e),
            }
        }
    }
}

/// What a text is as a locale: the language identifier takes the longest
/// run of leading segments that it can, and the rest are extensions.
pub open spec fn parse(text: Seq<u8>) -> Result<LocaleView, LocaleError> {
    match read_prefix(split(text)) {
        Ok((langid, taken)) => match read_extensions(split(text), taken as int, Extensions::empty()) {
            Ok(extensions) => Ok(LocaleView { langid, extensions }),
            Err(e) => Err(LocaleError::ParserError(e)),
        },
        Err(e) => Err(e),
    }
}

/// What a text is as the extension part of a locale, taken on its own: the
/// empty text holds no extension, any other text is read segment by segment.
pub open spec fn parse_tail(text: Seq<u8>) -> Result<Extensions, ParserError> {
    if text.len() == 0 {
        Ok(Extensions::empty())
    } else {
        read_extensions(split(text), 0, Extensions::empty())
    }
}

/// The result of parsing extensions, seen as mathematical values.
pub open spec fn extensions_result(r: Result<ExtensionsMap, ParserError>) -> Result<
    Extensions,
    ParserError,
> {
    match r {
        Ok(map) => Ok(map@),
        Err(e) => Err(e),
    }
}

/// The result of parsing a locale, seen as mathematical values.
pub open spec fn locale_result(r: Result<Locale, LocaleError>) -> Result<LocaleView, LocaleError> {
    match r {
        Ok(locale) => Ok(locale@),
        Err(e) => Err(e),
    }
}

/// What the end of a sequence is: no segment before it ends the sequence,
/// and the segment at it, if any, does.
pub proof fn lemma_sequence_end(segments: Seq<Seq<u8>>, from: int, private: bool)
    requires
        0 <= from <= segments.len(),
    ensures
        from <= sequence_end(segments, from, private) <= segments.len(),
        forall|i: int|
            from <= i < sequence_end(segments, from, private) ==> !ends_sequence(
                #[trigger] segments[i],
                private,
            ),
        sequence_end(segments, from, private) < segments.len() ==> ends_sequence(
            segments[sequence_end(segments, from, private)],
            private,
        ),
    decreases segments.len() - from,
{
    if from < segments.len() && !ends_sequence(segments[from], private) {
        lemma_sequence_end(segments, from + 1, private);
    }
}

/// Finds the end of the sequence that starts at `from`.
fn find_sequence_end(segments: &Vec<Vec<u8>>, from: usize, private: bool) -> (to: usize)
    requires
        from <= segments.len(),
    ensures
        to == sequence_end(views(segments@), from as int, private),
        from <= to <= segments.len(),
{
    let mut i: usize = from;
    while i < segments.len()
        invariant
            from <= i <= segments.len(),
            sequence_end(views(segments@), from as int, private) == sequence_end(
                views(segments@),
                i as int,
                private,
            ),
        decreases segments.len() - i,
    {
        let segment = &segments[i];
        if segment.len() == 1 && byte_is_alpha(segment[0]) {
            let l = byte_lower(segment[0]);
            if !private || l == LETTER_U || l == LETTER_T || l == LETTER_X {
                return i;
            }
        }
        i += 1;
    }
    i
}

/// Reads a private-use sequence into the map.
fn parse_private(map: &mut ExtensionsMap, segments: &Vec<Vec<u8>>, from: usize, to: usize) -> (r: Result<
    (),
    ParserError,
>)
    requires
        from <= to <= segments.len(),
    ensures
        match read_private(views(segments@), from as int, to as int, old(map)@) {
            Ok(next) => r is Ok && final(map)@ == next,
            Err(e) => r == Err::<(), _>(e),
        },
{
    let mut i: usize = from;
    while i < to
        invariant
            from <= i <= to <= segments.len(),
            read_private(views(segments@), from as int, to as int, old(map)@) == read_private(
                views(segments@),
                i as int,
                to as int,
                map@,
            ),
        decreases to - i,
    {
        match map.set_private_value(segments[i].as_slice(), None) {
            Ok(()) => {},
            Err(_) => {
                return Err(ParserError::InvalidExtension(i));
            },
        }
        i += 1;
    }
    Ok(())
}

/// Reads a unicode sequence into the map.
fn parse_unicode(map: &mut ExtensionsMap, segments: &Vec<Vec<u8>>, from: usize, to: usize) -> (r: Result<
    (),
    ParserError,
>)
    requires
        from <= to <= segments.len(),
    ensures
        match read_unicode(views(segments@), from as int, to as int, old(map)@) {
            Ok(next) => r is Ok && final(map)@ == next,
            Err(e) => r == Err::<(), _>(e),
        },
{
    let mut i: usize = from;
    while i < to
        invariant
            from <= i <= to <= segments.len(),
            read_unicode(views(segments@), from as int, to as int, old(map)@) == read_unicode(
                views(segments@),
                i as int,
                to as int,
                map@,
            ),
        decreases to - i,
    {
        proof {
            lemma_lowered(segments@[i as int]@);
        }
        let segment = to_lower(segments[i].as_slice());
        if segment.len() == 2 {
            match UnicodeExtensionKey::from_bytes(segment.as_slice()) {
                None => {
                    return Err(ParserError::InvalidExtension(i));
                },
                Some(key) => {
                    assert(key.segment() =~= segment@);
                    if map.has_unicode_key(segment.as_slice()) {
                        return Err(ParserError::InvalidExtension(i));
                    }
                    let mut with_value = false;
                    if i + 1 < to {
                        proof {
                            lemma_lowered(segments@[i + 1]@);
                        }
                        let value = to_lower(segments[i + 1].as_slice());
                        with_value = check_token(value.as_slice(), 3, 8);
                    }
                    if with_value {
                        let set = map.set_unicode_value(key, Some(segments[i + 1].as_slice()));
                        i += 2;
                    } else {
                        let set = map.set_unicode_value(key, None);
                        i += 1;
                    }
                },
            }
        } else {
            match map.set_unicode_attribute(segments[i].as_slice()) {
                Ok(()) => {},
                Err(_) => {
                    return Err(ParserError::InvalidExtension(i));
                },
            }
            i += 1;
        }
    }
    Ok(())
}

/// Reads the fields of a transform sequence into the map.
fn parse_fields(map: &mut ExtensionsMap, segments: &Vec<Vec<u8>>, from: usize, to: usize) -> (r: Result<
    (),
    ParserError,
>)
    requires
        from <= to <= segments.len(),
    ensures
        match read_fields(views(segments@), from as int, to as int, old(map)@) {
            Ok(next) => r is Ok && final(map)@ == next,
            Err(e) => r == Err::<(), _>(e),
        },
{
    let mut i: usize = from;
    while i < to
        invariant
            from <= i <= to <= segments.len(),
            read_fields(views(segments@), from as int, to as int, old(map)@) == read_fields(
                views(segments@),
                i as int,
                to as int,
                map@,
            ),
        decreases to - i,
    {
        proof {
            lemma_lowered(segments@[i as int]@);
        }
        let key = to_lower(segments[i].as_slice());
        if !check_token(key.as_slice(), 2, 2) || map.has_transform_field(key.as_slice()) {
            return Err(ParserError::InvalidExtension(i));
        }
        if i + 1 >= to {
            return Err(ParserError::InvalidExtension(i + 1));
        }
        match map.set_transform_field(segments[i].as_slice(), segments[i + 1].as_slice()) {
            Ok(()) => {},
            Err(_) => {
                return Err(ParserError::InvalidExtension(i + 1));
            },
        }
        i += 2;
    }
    Ok(())
}

/// Reads a transform sequence into the map.
fn parse_transform(map: &mut ExtensionsMap, segments: &Vec<Vec<u8>>, from: usize, to: usize) -> (r: Result<
    (),
    ParserError,
>)
    requires
        from <= to <= segments.len(),
    ensures
        match read_transform(views(segments@), from as int, to as int, old(map)@) {
            Ok(next) => r is Ok && final(map)@ == next,
            Err(e) => r == Err::<(), _>(e),
        },
{
    match LanguageIdentifier::from_segments(segments, from, to) {
        Ok((lang, taken)) => {
            let set = map.set_transform_lang(lang);
            parse_fields(map, segments, from + taken, to)
        },
        Err(_) => parse_fields(map, segments, from, to),
    }
}

/// Reads the sequence of another letter into the map.
fn parse_other(map: &mut ExtensionsMap, segments: &Vec<Vec<u8>>, from: usize, to: usize, letter: u8) -> (r:
    Result<(), ParserError>)
    requires
        1 <= from < to <= segments.len(),
        0x61 <= letter <= 0x7a,
        !is_known_letter(letter),
    ensures
        match read_other(views(segments@), from as int, to as int, letter, old(map)@) {
            Ok(next) => r is Ok && final(map)@ == next,
            Err(e) => r == Err::<(), _>(e),
        },
{
    proof {
        lemma_first_rejected(views(segments@).subrange(from as int, to as int), 2, 8);
    }
    match map.set_other_range(letter, segments, from, to) {
        Ok(()) => Ok(()),
        Err(LocaleError::ParserError(ParserError::InvalidExtension(k))) => Err(
            ParserError::InvalidExtension(from - 1 + k),
        ),
        Err(_) => Err(ParserError::InvalidExtension(from)),
    }
}

/// Reads the extension sequences that the segments from `from` on spell:
/// none where no segment is left.
pub fn parse_extensions(segments: &Vec<Vec<u8>>, from: usize) -> (r: Result<ExtensionsMap, ParserError>)
    ensures
        extensions_result(r) == read_extensions(views(segments@), from as int, Extensions::empty()),
{
    let mut map = ExtensionsMap::default();
    if from >= segments.len() {
        return Ok(map);
    }
    let mut i: usize = from;
    while i < segments.len()
        invariant
            from <= i <= segments.len(),
            read_extensions(views(segments@), from as int, Extensions::empty()) == read_extensions(
                views(segments@),
                i as int,
                map@,
            ),
        decreases segments.len() - i,
    {
        let segment = &segments[i];
        let kind = if segment.len() == 1 {
            ExtensionType::from_byte(segment[0])
        } else {
            None
        };
        let step = match kind {
            None => {
                return Err(ParserError::InvalidExtension(i));
            },
            Some(kind) => {
                let to = find_sequence_end(segments, i + 1, kind == ExtensionType::Private);
                if to == i + 1 {
                    return Err(ParserError::InvalidExtension(i + 1));
                }
                let read = match kind {
                    ExtensionType::Unicode => if map.has_unicode() {
                        Err(ParserError::InvalidExtension(i))
                    } else {
                        parse_unicode(&mut map, segments, i + 1, to)
                    },
                    ExtensionType::Transform => if map.has_transform() {
                        Err(ParserError::InvalidExtension(i))
                    } else {
                        parse_transform(&mut map, segments, i + 1, to)
                    },
                    ExtensionType::Private => if map.has_private() {
                        Err(ParserError::InvalidExtension(i))
                    } else {
                        parse_private(&mut map, segments, i + 1, to)
                    },
                    ExtensionType::Other(letter) => if map.has_other(letter) {
                        Err(ParserError::InvalidExtension(i))
                    } else {
                        parse_other(&mut map, segments, i + 1, to, letter)
                    },
                };
                i = to;
                read
            },
        };
        match step {
            Ok(()) => {},
            Err(e) => {
                return Err(e);
            },
        }
    }
    Ok(map)
}

/// Reads a text as the extension part of a locale, which is what follows
/// the language identifier and the separator after it.
pub fn parse_extension_tail(text: &[u8]) -> (r: Result<ExtensionsMap, ParserError>)
    ensures
        extensions_result(r) == parse_tail(text@),
{
    if text.len() == 0 {
        return Ok(ExtensionsMap::default());
    }
    let segments = split_segments(text);
    parse_extensions(&segments, 0)
}

/// Reads a text as a locale.
pub fn parse_locale(text: &[u8]) -> (r: Result<Locale, LocaleError>)
    ensures
        locale_result(r) == parse(text@),
{
    let segments = split_segments(text);
    assert(views(segments@).subrange(0, segments.len() as int) =~= views(segments@));
    match LanguageIdentifier::from_segments(&segments, 0, segments.len()) {
        Ok((langid, taken)) => match parse_extensions(&segments, taken) {
            Ok(extensions) => Ok(Locale { langid, extensions }),
            Err(e) => Err(LocaleError::ParserError(e)),
        },
        Err(e) => Err(e),
    }
}

} // verus!
