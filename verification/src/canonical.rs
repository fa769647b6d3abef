//! The canonical text read again: cutting the text of a locale gives back
//! its segments, and reading the segments of an extensions map gives back
//! the map.

use crate::entries::{
    entry_all, entry_segments, EntryView, has_key, lemma_list_segments_all,
    lemma_list_segments_front, lemma_put, lemma_slot, list_segments, put, slot, sorted,
};
use crate::errors::{LocaleError, ParserError};
use crate::extensions::{
    Extensions, is_attribute_entry, is_field_entry, is_field_key, is_keyword_entry,
    is_known_segment, is_other_entry, is_private_entry, is_private_token, is_unicode_key, is_value,
    keyed, lemma_empty_text, lemma_segments_all, lemma_tail_text, lone, LETTER_T, LETTER_U,
    LETTER_X,
};
use crate::langid::{read_prefix, reads_back};
use crate::parser::{
    ends_sequence, is_letter, parse, parse_tail, read_extensions, read_fields, read_other,
    read_private, read_sequence, read_transform, read_unicode, sequence_end,
};
use crate::text::{
    all_alnum, first_rejected, hyphenated, is_alnum, is_separator, joined, lemma_first_rejected,
    lemma_hyphenated_concat, lemma_lex_irreflexive, lemma_lowered, lemma_split_nonempty, lex_lt,
    lowered, no_separator, split, HYPHEN,
};
use crate::LocaleView;
use vstd::prelude::*;

verus! {

/// A hyphen and a segment at the end of a text make one more segment.
proof fn lemma_split_push(text: Seq<u8>, segment: Seq<u8>)
    requires
        no_separator(segment),
    ensures
        split(text + seq![HYPHEN] + segment) == split(text).push(segment),
    decreases segment.len(),
{
    let whole = text + seq![HYPHEN] + segment;
    lemma_split_nonempty(text);
    if segment.len() == 0 {
        assert(whole.drop_last() =~= text);
        assert(whole.last() == HYPHEN);
        assert(segment =~= Seq::<u8>::empty());
    } else {
        let shorter = segment.drop_last();
        assert(no_separator(shorter)) by {
            assert forall|i: int| 0 <= i < shorter.len() implies !is_separator(#[trigger] shorter[i]) by {
                assert(shorter[i] == segment[i]);
            }
        }
        lemma_split_push(text, shorter);
        assert(whole.drop_last() =~= text + seq![HYPHEN] + shorter);
        assert(whole.last() == segment[segment.len() - 1]);
        let before = split(text).push(shorter);
        assert(before.drop_last() =~= split(text));
        assert(before.last().push(segment.last()) =~= segment);
    }
}

/// A text without separator is one segment.
proof fn lemma_split_one(segment: Seq<u8>)
    requires
        no_separator(segment),
    ensures
        split(segment) == seq![segment],
    decreases segment.len(),
{
    if segment.len() == 0 {
        assert(segment =~= Seq::<u8>::empty());
    } else {
        let shorter = segment.drop_last();
        assert forall|i: int| 0 <= i < shorter.len() implies !is_separator(#[trigger] shorter[i]) by {
            assert(shorter[i] == segment[i]);
        }
        lemma_split_one(shorter);
        assert(segment.last() == segment[segment.len() - 1]);
        let before = seq![shorter];
        assert(before.last() == shorter);
        assert(shorter.push(segment.last()) =~= segment);
        assert(before.drop_last().push(segment) =~= seq![segment]);
    }
}

/// Cutting the joined text of segments without separator gives the
/// segments back.
pub proof fn lemma_split_joined(segments: Seq<Seq<u8>>)
    requires
        segments.len() >= 1,
        forall|i: int| 0 <= i < segments.len() ==> no_separator(#[trigger] segments[i]),
    ensures
        split(joined(segments)) == segments,
    decreases segments.len(),
{
    if segments.len() == 1 {
        assert(segments.skip(1).len() == 0);
        assert(hyphenated(segments.skip(1)) =~= Seq::<u8>::empty());
        assert(joined(segments) =~= segments[0]);
        lemma_split_one(segments[0]);
        assert(segments =~= seq![segments[0]]);
    } else {
        let front = segments.drop_last();
        assert forall|i: int| 0 <= i < front.len() implies no_separator(#[trigger] front[i]) by {
            assert(front[i] == segments[i]);
        }
        lemma_split_joined(front);
        let tail = segments.skip(1);
        assert(tail.drop_last() =~= front.skip(1));
        assert(tail.last() == segments[segments.len() - 1]);
        assert(joined(segments) =~= joined(front) + seq![HYPHEN] + segments.last());
        lemma_split_push(joined(front), segments.last());
        assert(front.push(segments.last()) =~= segments);
    }
}

/// An entry whose key comes after every key of a sorted list goes to the
/// end of the list, which does not hold its key.
proof fn lemma_put_last(done: Seq<EntryView>, entry: EntryView)
    requires
        sorted(done.push(entry)),
    ensures
        put(done, entry) == done.push(entry),
        !has_key(done, entry.key),
{
    let all = done.push(entry);
    lemma_slot(done, entry.key);
    let at = slot(done, entry.key);
    if at < done.len() {
        assert(lex_lt(all[at].key, all[done.len() as int].key));
    }
    assert(done.insert(at, entry) =~= done.push(entry));
    if has_key(done, entry.key) {
        let i = choose|i: int| 0 <= i < done.len() && #[trigger] done[i].key == entry.key;
        assert(lex_lt(all[i].key, all[done.len() as int].key));
        lemma_lex_irreflexive(entry.key);
    }
}

/// The first entry of the rest of a sorted list can be moved to the part
/// that is done.
proof fn lemma_sorted_step(done: Seq<EntryView>, rest: Seq<EntryView>)
    requires
        sorted(done + rest),
        rest.len() > 0,
    ensures
        sorted(done.push(rest[0])),
        done.push(rest[0]) + rest.drop_first() == done + rest,
{
    let all = done + rest;
    let next = done.push(rest[0]);
    assert forall|i: int, j: int| 0 <= i < j < next.len() implies lex_lt(
        #[trigger] next[i].key,
        #[trigger] next[j].key,
    ) by {
        assert(next[i] == all[i] && next[j] == all[j]);
    }
    assert(next + rest.drop_first() =~= all);
}

/// Reading the segments of private-use tokens gives the tokens back.
proof fn lemma_read_private(
    segments: Seq<Seq<u8>>,
    from: int,
    to: int,
    done: Seq<EntryView>,
    rest: Seq<EntryView>,
    map: Extensions,
)
    requires
        0 <= from <= to <= segments.len(),
        segments.subrange(from, to) == list_segments(rest),
        sorted(done + rest),
        forall|i: int| 0 <= i < rest.len() ==> is_private_entry(#[trigger] rest[i]),
        map.private == done,
    ensures
        read_private(segments, from, to, map) == Ok::<Extensions, ParserError>(
            Extensions { private: done + rest, ..map },
        ),
    decreases rest.len(),
{
    if rest.len() == 0 {
        assert(segments.subrange(from, to).len() == 0);
        assert(done + rest =~= done);
    } else {
        let entry = rest[0];
        let tail = rest.drop_first();
        lemma_list_segments_front(rest);
        assert(is_private_entry(entry));
        assert(entry_segments(entry) =~= seq![entry.key]);
        assert(segments.subrange(from, to)[0] == entry.key);
        assert(segments[from] == entry.key);
        lemma_lowered(entry.key);
        lemma_sorted_step(done, rest);
        lemma_put_last(done, entry);
        assert(entry.values =~= Seq::<Seq<u8>>::empty());
        assert(entry == lone(entry.key));
        let next = Extensions { private: done.push(entry), ..map };
        assert(segments.subrange(from + 1, to) =~= list_segments(tail)) by {
            assert(segments.subrange(from + 1, to) =~= segments.subrange(from, to).skip(1));
            assert(list_segments(rest).skip(1) =~= list_segments(tail));
        }
        assert forall|i: int| 0 <= i < tail.len() implies is_private_entry(#[trigger] tail[i]) by {
            assert(tail[i] == rest[i + 1]);
        }
        lemma_read_private(segments, from + 1, to, done.push(entry), tail, next);
    }
}

/// Reading the segments of transform fields gives the fields back.
proof fn lemma_read_fields(
    segments: Seq<Seq<u8>>,
    from: int,
    to: int,
    done: Seq<EntryView>,
    rest: Seq<EntryView>,
    map: Extensions,
)
    requires
        0 <= from <= to <= segments.len(),
        segments.subrange(from, to) == list_segments(rest),
        sorted(done + rest),
        forall|i: int| 0 <= i < rest.len() ==> is_field_entry(#[trigger] rest[i]),
        map.fields == done,
    ensures
        read_fields(segments, from, to, map) == Ok::<Extensions, ParserError>(
            Extensions { fields: done + rest, ..map },
        ),
    decreases rest.len(),
{
    if rest.len() == 0 {
        assert(segments.subrange(from, to).len() == 0);
        assert(done + rest =~= done);
    } else {
        let entry = rest[0];
        let tail = rest.drop_first();
        lemma_list_segments_front(rest);
        assert(is_field_entry(entry));
        assert(entry_segments(entry) =~= seq![entry.key, entry.values[0]]);
        assert(segments.subrange(from, to)[0] == entry.key);
        assert(segments.subrange(from, to)[1] == entry.values[0]);
        assert(segments[from] == entry.key);
        assert(segments[from + 1] == entry.values[0]);
        lemma_lowered(entry.key);
        lemma_lowered(entry.values[0]);
        assert(crate::text::is_lowered(entry.key));
        lemma_sorted_step(done, rest);
        lemma_put_last(done, entry);
        assert(entry.values =~= seq![entry.values[0]]);
        assert(entry == keyed(entry.key, Some(entry.values[0])));
        let next = Extensions { fields: done.push(entry), ..map };
        assert(segments.subrange(from + 2, to) =~= list_segments(tail)) by {
            assert(segments.subrange(from + 2, to) =~= segments.subrange(from, to).skip(2));
            assert(list_segments(rest).skip(2) =~= list_segments(tail));
        }
        assert forall|i: int| 0 <= i < tail.len() implies is_field_entry(#[trigger] tail[i]) by {
            assert(tail[i] == rest[i + 1]);
        }
        lemma_read_fields(segments, from + 2, to, done.push(entry), tail, next);
    }
}

/// Reading the segments of unicode keywords gives the keywords back.
proof fn lemma_read_keywords(
    segments: Seq<Seq<u8>>,
    from: int,
    to: int,
    done: Seq<EntryView>,
    rest: Seq<EntryView>,
    map: Extensions,
)
    requires
        0 <= from <= to <= segments.len(),
        segments.subrange(from, to) == list_segments(rest),
        sorted(done + rest),
        forall|i: int| 0 <= i < rest.len() ==> is_keyword_entry(#[trigger] rest[i]),
        map.keywords == done,
    ensures
        read_unicode(segments, from, to, map) == Ok::<Extensions, ParserError>(
            Extensions { keywords: done + rest, ..map },
        ),
    decreases rest.len(),
{
    if rest.len() == 0 {
        assert(segments.subrange(from, to).len() == 0);
        assert(done + rest =~= done);
    } else {
        let entry = rest[0];
        let tail = rest.drop_first();
        lemma_list_segments_front(rest);
        assert(is_keyword_entry(entry));
        assert(segments.subrange(from, to)[0] == entry.key);
        assert(segments[from] == entry.key);
        assert(crate::text::is_lowered(entry.key)) by {
            assert(crate::extensions::UnicodeExtensionKey::of_code(entry.key[0], entry.key[1]) is Some);
        }
        lemma_lowered(entry.key);
        lemma_sorted_step(done, rest);
        lemma_put_last(done, entry);
        let next = Extensions { keywords: done.push(entry), ..map };
        assert forall|i: int| 0 <= i < tail.len() implies is_keyword_entry(#[trigger] tail[i]) by {
            assert(tail[i] == rest[i + 1]);
        }
        if entry.values.len() == 1 {
            assert(entry_segments(entry) =~= seq![entry.key, entry.values[0]]);
            assert(segments.subrange(from, to)[1] == entry.values[0]);
            assert(segments[from + 1] == entry.values[0]);
            lemma_lowered(entry.values[0]);
            assert(entry.values =~= seq![entry.values[0]]);
            assert(entry == keyed(entry.key, Some(entry.values[0])));
            assert(segments.subrange(from + 2, to) =~= list_segments(tail)) by {
                assert(segments.subrange(from + 2, to) =~= segments.subrange(from, to).skip(2));
                assert(list_segments(rest).skip(2) =~= list_segments(tail));
            }
            lemma_read_keywords(segments, from + 2, to, done.push(entry), tail, next);
        } else {
            assert(entry_segments(entry) =~= seq![entry.key]);
            assert(entry.values =~= Seq::<Seq<u8>>::empty());
            assert(entry == keyed(entry.key, None));
            assert(segments.subrange(from + 1, to) =~= list_segments(tail)) by {
                assert(segments.subrange(from + 1, to) =~= segments.subrange(from, to).skip(1));
                assert(list_segments(rest).skip(1) =~= list_segments(tail));
            }
            if from + 1 < to {
                assert(tail.len() > 0) by {
                    if tail.len() == 0 {
                        assert(list_segments(tail).len() == 0);
                    }
                }
                lemma_list_segments_front(tail);
                assert(segments.subrange(from + 1, to)[0] == tail[0].key);
                assert(segments[from + 1] == tail[0].key);
                assert(is_keyword_entry(tail[0]));
                assert(lowered(segments[from + 1]).len() == 2);
            }
            lemma_read_keywords(segments, from + 1, to, done.push(entry), tail, next);
        }
    }
}

/// Reading the segments of a unicode extension, attributes and then
/// keywords, gives both back.
proof fn lemma_read_unicode(
    segments: Seq<Seq<u8>>,
    from: int,
    middle: int,
    to: int,
    done: Seq<EntryView>,
    rest: Seq<EntryView>,
    keywords: Seq<EntryView>,
    map: Extensions,
)
    requires
        0 <= from <= middle <= to <= segments.len(),
        segments.subrange(from, middle) == list_segments(rest),
        segments.subrange(middle, to) == list_segments(keywords),
        sorted(done + rest),
        sorted(keywords),
        forall|i: int| 0 <= i < rest.len() ==> is_attribute_entry(#[trigger] rest[i]),
        forall|i: int| 0 <= i < keywords.len() ==> is_keyword_entry(#[trigger] keywords[i]),
        map.attributes == done,
        map.keywords == Seq::<EntryView>::empty(),
    ensures
        read_unicode(segments, from, to, map) == Ok::<Extensions, ParserError>(
            Extensions { attributes: done + rest, keywords, ..map },
        ),
    decreases rest.len(),
{
    if rest.len() == 0 {
        assert(segments.subrange(from, middle).len() == 0);
        assert(done + rest =~= done);
        assert(Seq::<EntryView>::empty() + keywords =~= keywords);
        lemma_read_keywords(segments, middle, to, Seq::<EntryView>::empty(), keywords, map);
    } else {
        let entry = rest[0];
        let tail = rest.drop_first();
        lemma_list_segments_front(rest);
        assert(is_attribute_entry(entry));
        assert(entry_segments(entry) =~= seq![entry.key]);
        assert(segments.subrange(from, middle)[0] == entry.key);
        assert(segments[from] == entry.key);
        lemma_lowered(entry.key);
        lemma_sorted_step(done, rest);
        lemma_put_last(done, entry);
        assert(entry.values =~= Seq::<Seq<u8>>::empty());
        assert(entry == lone(entry.key));
        let next = Extensions { attributes: done.push(entry), ..map };
        assert(segments.subrange(from + 1, middle) =~= list_segments(tail)) by {
            assert(segments.subrange(from + 1, middle) =~= segments.subrange(from, middle).skip(1));
            assert(list_segments(rest).skip(1) =~= list_segments(tail));
        }
        assert forall|i: int| 0 <= i < tail.len() implies is_attribute_entry(#[trigger] tail[i]) by {
            assert(tail[i] == rest[i + 1]);
        }
        lemma_read_unicode(segments, from + 1, middle, to, done.push(entry), tail, keywords, next);
    }
}

/// Putting an entry of the right shape into a sorted list of such entries
/// gives a sorted list of such entries.
proof fn lemma_put_shape(list: Seq<EntryView>, entry: EntryView, shape: spec_fn(EntryView) -> bool)
    requires
        sorted(list),
        forall|i: int| 0 <= i < list.len() ==> shape(#[trigger] list[i]),
        shape(entry),
    ensures
        sorted(put(list, entry)),
        forall|i: int| 0 <= i < put(list, entry).len() ==> shape(#[trigger] put(list, entry)[i]),
{
    lemma_put(list, entry);
    let after = put(list, entry);
    assert forall|i: int| 0 <= i < after.len() implies shape(#[trigger] after[i]) by {
        if after[i] != entry {
            assert(list.contains(after[i]));
            let j = choose|j: int| 0 <= j < list.len() && list[j] == after[i];
            assert(shape(list[j]));
        }
    }
}

/// A private-use sequence that is read into well-formed lists leaves
/// well-formed lists.
proof fn lemma_private_well_formed(segments: Seq<Seq<u8>>, from: int, to: int, map: Extensions)
    requires
        map.lists_well_formed(),
        map.private_is_plain(),
        forall|i: int| from <= i < to ==> !ends_sequence(#[trigger] segments[i], true),
    ensures
        read_private(segments, from, to, map) matches Ok(out) ==> out.lists_well_formed()
            && out.private_is_plain(),
    decreases to - from,
{
    if from < to {
        let token = lowered(segments[from]);
        if is_private_token(token) && !has_key(map.private, token) {
            let shape = |e: EntryView| is_private_entry(e);
            assert forall|i: int| 0 <= i < map.private.len() implies shape(#[trigger] map.private[i]) by {
                assert(is_private_entry(map.private[i]));
            }
            lemma_put_shape(map.private, lone(token), shape);
            let list = put(map.private, lone(token));
            assert forall|i: int| 0 <= i < list.len() implies is_private_entry(#[trigger] list[i]) by {
                assert(shape(list[i]));
            }
            assert(!is_known_segment(token)) by {
                assert(!ends_sequence(segments[from], true));
                if is_known_segment(token) {
                    assert(is_letter(segments[from]));
                }
            }
            let plain = |e: EntryView| !is_known_segment(e.key);
            assert forall|i: int| 0 <= i < map.private.len() implies plain(#[trigger] map.private[i]) by {
                assert(!is_known_segment(map.private[i].key));
            }
            lemma_put_shape(map.private, lone(token), plain);
            assert forall|i: int| 0 <= i < list.len() implies !is_known_segment(#[trigger] list[i].key) by {
                assert(plain(list[i]));
            }
            lemma_private_well_formed(segments, from + 1, to, Extensions { private: list, ..map });
        }
    }
}

/// A unicode sequence that is read into well-formed lists leaves
/// well-formed lists.
proof fn lemma_unicode_well_formed(segments: Seq<Seq<u8>>, from: int, to: int, map: Extensions)
    requires
        map.lists_well_formed(),
        map.private_is_plain(),
    ensures
        read_unicode(segments, from, to, map) matches Ok(out) ==> out.lists_well_formed()
            && out.private_is_plain(),
    decreases to - from,
{
    if from < to {
        let segment = lowered(segments[from]);
        lemma_lowered(segments[from]);
        if segment.len() == 2 {
            if !(!is_unicode_key(segment) || has_key(map.keywords, segment)) {
                let shape = |e: EntryView| is_keyword_entry(e);
                assert forall|i: int| 0 <= i < map.keywords.len() implies shape(#[trigger] map.keywords[i]) by {
                    assert(is_keyword_entry(map.keywords[i]));
                }
                let entry = if from + 1 < to && is_value(lowered(segments[from + 1])) {
                    keyed(segment, Some(lowered(segments[from + 1])))
                } else {
                    keyed(segment, None)
                };
                lemma_put_shape(map.keywords, entry, shape);
                let list = put(map.keywords, entry);
                assert forall|i: int| 0 <= i < list.len() implies is_keyword_entry(#[trigger] list[i]) by {
                    assert(shape(list[i]));
                }
                let next = Extensions { keywords: list, ..map };
                if from + 1 < to && is_value(lowered(segments[from + 1])) {
                    lemma_unicode_well_formed(segments, from + 2, to, next);
                } else {
                    lemma_unicode_well_formed(segments, from + 1, to, next);
                }
            }
        } else if is_value(segment) && !has_key(map.attributes, segment) {
            let shape = |e: EntryView| is_attribute_entry(e);
            assert forall|i: int| 0 <= i < map.attributes.len() implies shape(
                #[trigger] map.attributes[i],
            ) by {
                assert(is_attribute_entry(map.attributes[i]));
            }
            lemma_put_shape(map.attributes, lone(segment), shape);
            let list = put(map.attributes, lone(segment));
            assert forall|i: int| 0 <= i < list.len() implies is_attribute_entry(#[trigger] list[i]) by {
                assert(shape(list[i]));
            }
            lemma_unicode_well_formed(segments, from + 1, to, Extensions { attributes: list, ..map });
        }
    }
}

/// Transform fields that are read into well-formed lists leave well-formed
/// lists.
proof fn lemma_fields_well_formed(segments: Seq<Seq<u8>>, from: int, to: int, map: Extensions)
    requires
        map.lists_well_formed(),
        map.private_is_plain(),
    ensures
        read_fields(segments, from, to, map) matches Ok(out) ==> out.lists_well_formed()
            && out.private_is_plain(),
    decreases to - from,
{
    if from < to {
        let key = lowered(segments[from]);
        if !(!is_field_key(key) || has_key(map.fields, key)) && !(from + 1 >= to || !is_value(
            lowered(segments[from + 1]),
        )) {
            let shape = |e: EntryView| is_field_entry(e);
            assert forall|i: int| 0 <= i < map.fields.len() implies shape(#[trigger] map.fields[i]) by {
                assert(is_field_entry(map.fields[i]));
            }
            let entry = keyed(key, Some(lowered(segments[from + 1])));
            lemma_put_shape(map.fields, entry, shape);
            let list = put(map.fields, entry);
            assert forall|i: int| 0 <= i < list.len() implies is_field_entry(#[trigger] list[i]) by {
                assert(shape(list[i]));
            }
            lemma_fields_well_formed(segments, from + 2, to, Extensions { fields: list, ..map });
        }
    }
}

/// A sequence that is read into well-formed lists leaves well-formed lists.
proof fn lemma_sequence_well_formed(
    segments: Seq<Seq<u8>>,
    from: int,
    to: int,
    letter: u8,
    map: Extensions,
)
    requires
        map.lists_well_formed(),
        map.private_is_plain(),
        0x61 <= letter <= 0x7a,
        0 <= from < to <= segments.len(),
        forall|i: int| from <= i < to ==> !ends_sequence(#[trigger] segments[i], letter == LETTER_X),
    ensures
        read_sequence(segments, from, to, letter, map) matches Ok(out) ==> out.lists_well_formed()
            && out.private_is_plain(),
{
    if letter == LETTER_U {
        lemma_unicode_well_formed(segments, from, to, map);
    } else if letter == LETTER_T {
        match read_prefix(segments.subrange(from, to)) {
            Ok((lang, taken)) => {
                lemma_fields_well_formed(
                    segments,
                    from + taken,
                    to,
                    Extensions { transform_lang: Some(lang), ..map },
                );
            },
            Err(_) => {
                lemma_fields_well_formed(segments, from, to, map);
            },
        }
    } else if letter == LETTER_X {
        lemma_private_well_formed(segments, from, to, map);
    } else {
        let subtags = segments.subrange(from, to);
        lemma_first_rejected(subtags, 2, 8);
        if !has_key(map.other, seq![letter]) && first_rejected(subtags, 2, 8) >= subtags.len() {
            let shape = |e: EntryView| is_other_entry(e);
            assert forall|i: int| 0 <= i < map.other.len() implies shape(#[trigger] map.other[i]) by {
                assert(is_other_entry(map.other[i]));
            }
            let entry = EntryView { key: seq![letter], values: subtags };
            assert(is_other_entry(entry));
            lemma_put_shape(map.other, entry, shape);
            let list = put(map.other, entry);
            assert forall|i: int| 0 <= i < list.len() implies is_other_entry(#[trigger] list[i]) by {
                assert(shape(list[i]));
            }
        }
    }
}

/// Extensions that are read into well-formed lists leave well-formed lists.
proof fn lemma_extensions_well_formed(segments: Seq<Seq<u8>>, from: int, map: Extensions)
    requires
        map.lists_well_formed(),
        map.private_is_plain(),
    ensures
        read_extensions(segments, from, map) matches Ok(out) ==> out.lists_well_formed()
            && out.private_is_plain(),
    decreases segments.len() - from,
{
    if 0 <= from < segments.len() && is_letter(segments[from]) {
        let letter = crate::text::lower(segments[from][0]);
        let to = sequence_end(segments, from + 1, letter == LETTER_X);
        crate::parser::lemma_sequence_end(segments, from + 1, letter == LETTER_X);
        if to > from + 1 {
            lemma_sequence_well_formed(segments, from + 1, to, letter, map);
            match read_sequence(segments, from + 1, to, letter, map) {
                Ok(next) => {
                    lemma_extensions_well_formed(segments, to, next);
                },
                Err(_) => {},
            }
        }
    }
}

/// The extension lists of a parsed locale are well formed: sorted, each key
/// once, every entry of the shape of its list. No private-use token of a
/// parsed locale is one of the letters `u`, `t` and `x` alone.
pub proof fn lemma_parse_well_formed(text: Seq<u8>)
    ensures
        parse(text) matches Ok(locale) ==> locale.extensions.lists_well_formed()
            && locale.extensions.private_is_plain(),
{
    match read_prefix(split(text)) {
        Ok((langid, taken)) => {
            lemma_extensions_well_formed(split(text), taken as int, Extensions::empty());
        },
        Err(_) => {},
    }
}

/// The grammar crate reads the language identifier of the transform
/// extension back from its segments, and takes the first field for no
/// language where the extension has no language identifier.
pub open spec fn transform_reads_back(map: Extensions) -> bool {
    match map.transform_lang {
        Some(lang) => lang.is_plain() && reads_back(lang, list_segments(map.fields)),
        None => map.fields.len() > 0 ==> read_prefix(list_segments(map.fields)) is Err,
    }
}

/// A sequence ends at the first segment that ends it.
pub proof fn lemma_sequence_end_at(segments: Seq<Seq<u8>>, from: int, to: int, private: bool)
    requires
        0 <= from <= to <= segments.len(),
        forall|i: int| from <= i < to ==> !ends_sequence(#[trigger] segments[i], private),
        to < segments.len() ==> ends_sequence(segments[to], private),
    ensures
        sequence_end(segments, from, private) == to,
    decreases to - from,
{
    if from < to {
        assert(!ends_sequence(segments[from], private));
        lemma_sequence_end_at(segments, from + 1, to, private);
    }
}

/// Reading the transform extension of a map from its segments.
proof fn lemma_step_transform(all: Seq<Seq<u8>>, from: int, to: int, map: Extensions, seen: Extensions)
    requires
        0 <= from <= to <= all.len(),
        map.lists_well_formed(),
        transform_reads_back(map),
        all.subrange(from, to) == map.transform_segments(),
        to < all.len() ==> is_letter(all[to]),
        !seen.has_transform(),
    ensures
        read_extensions(all, from, seen) == read_extensions(
            all,
            to,
            Extensions { transform_lang: map.transform_lang, fields: map.fields, ..seen },
        ),
{
    let part = map.transform_segments();
    if map.has_transform() {
        let lang_part = match map.transform_lang {
            Some(lang) => lang.segments(),
            None => Seq::<Seq<u8>>::empty(),
        };
        let f_part = list_segments(map.fields);
        let long = |s: Seq<u8>| s.len() >= 2;
        assert forall|i: int| 0 <= i < map.fields.len() implies entry_all(#[trigger] map.fields[i], long) by {
            assert(is_field_entry(map.fields[i]));
        }
        lemma_list_segments_all(map.fields, long);
        assert(part.len() == to - from);
        assert(all[from] == part[0]);
        assert(all[from] == seq![LETTER_T]);
        assert(is_letter(all[from]));
        assert forall|i: int| from + 1 <= i < to implies !ends_sequence(#[trigger] all[i], false) by {
            let k = i - from;
            assert(all[i] == part[k]);
            if k < 1 + lang_part.len() {
                assert(part[k] == lang_part[k - 1]);
            } else {
                assert(part[k] == f_part[k - 1 - lang_part.len()]);
                assert(long(f_part[k - 1 - lang_part.len()]));
            }
        }
        lemma_sequence_end_at(all, from + 1, to, false);
        crate::entries::lemma_list_segments_len(map.fields);
        assert(to > from + 1);
        assert(all.subrange(from + 1, to) =~= part.skip(1));
        assert(part.skip(1) =~= lang_part + f_part);
        assert(seen.fields =~= Seq::<EntryView>::empty());
        assert(Seq::<EntryView>::empty() + map.fields =~= map.fields);
        match map.transform_lang {
            Some(lang) => {
                let with_lang = Extensions { transform_lang: Some(lang), ..seen };
                assert(all.subrange(from + 1 + lang_part.len(), to) =~= part.skip(1 + lang_part.len() as int));
                assert(part.skip(1 + lang_part.len() as int) =~= f_part);
                lemma_read_fields(
                    all,
                    from + 1 + lang_part.len(),
                    to,
                    Seq::<EntryView>::empty(),
                    map.fields,
                    with_lang,
                );
            },
            None => {
                assert(lang_part + f_part =~= f_part);
                lemma_read_fields(all, from + 1, to, Seq::<EntryView>::empty(), map.fields, seen);
            },
        }
        assert(read_transform(all, from + 1, to, seen) == Ok::<Extensions, ParserError>(
            Extensions { transform_lang: map.transform_lang, fields: map.fields, ..seen },
        ));
    } else {
        assert(part.len() == 0);
        assert(seen.fields =~= map.fields);
    }
}

/// Reading the unicode extension of a map from its segments.
proof fn lemma_step_unicode(all: Seq<Seq<u8>>, from: int, to: int, map: Extensions, seen: Extensions)
    requires
        0 <= from <= to <= all.len(),
        map.lists_well_formed(),
        all.subrange(from, to) == map.unicode_segments(),
        to < all.len() ==> is_letter(all[to]),
        !seen.has_unicode(),
    ensures
        read_extensions(all, from, seen) == read_extensions(
            all,
            to,
            Extensions { attributes: map.attributes, keywords: map.keywords, ..seen },
        ),
{
    let part = map.unicode_segments();
    if map.has_unicode() {
        let a_part = list_segments(map.attributes);
        let k_part = list_segments(map.keywords);
        let long = |s: Seq<u8>| s.len() >= 2;
        assert forall|i: int| 0 <= i < map.attributes.len() implies entry_all(
            #[trigger] map.attributes[i],
            long,
        ) by {
            assert(is_attribute_entry(map.attributes[i]));
        }
        assert forall|i: int| 0 <= i < map.keywords.len() implies entry_all(
            #[trigger] map.keywords[i],
            long,
        ) by {
            assert(is_keyword_entry(map.keywords[i]));
        }
        lemma_list_segments_all(map.attributes, long);
        lemma_list_segments_all(map.keywords, long);
        assert(part.len() == to - from);
        assert(all[from] == part[0]);
        assert(all[from] == seq![LETTER_U]);
        assert(is_letter(all[from]));
        assert forall|i: int| from + 1 <= i < to implies !ends_sequence(#[trigger] all[i], false) by {
            let k = i - from;
            assert(all[i] == part[k]);
            if k < 1 + a_part.len() {
                assert(part[k] == a_part[k - 1]);
                assert(long(a_part[k - 1]));
            } else {
                assert(part[k] == k_part[k - 1 - a_part.len()]);
                assert(long(k_part[k - 1 - a_part.len()]));
            }
        }
        lemma_sequence_end_at(all, from + 1, to, false);
        crate::entries::lemma_list_segments_len(map.attributes);
        crate::entries::lemma_list_segments_len(map.keywords);
        assert(to > from + 1);
        assert(all.subrange(from + 1, from + 1 + a_part.len()) =~= part.subrange(
            1,
            1 + a_part.len() as int,
        ));
        assert(part.subrange(1, 1 + a_part.len() as int) =~= a_part);
        assert(all.subrange(from + 1 + a_part.len(), to) =~= part.skip(1 + a_part.len() as int));
        assert(part.skip(1 + a_part.len() as int) =~= k_part);
        assert(seen.attributes =~= Seq::<EntryView>::empty());
        assert(seen.keywords =~= Seq::<EntryView>::empty());
        assert(Seq::<EntryView>::empty() + map.attributes =~= map.attributes);
        lemma_read_unicode(
            all,
            from + 1,
            from + 1 + a_part.len(),
            to,
            Seq::<EntryView>::empty(),
            map.attributes,
            map.keywords,
            seen,
        );
    } else {
        assert(part.len() == 0);
        assert(seen.attributes =~= map.attributes);
        assert(seen.keywords =~= map.keywords);
    }
}

/// Reading the private-use extension of a map from its segments, which are
/// the last.
proof fn lemma_step_private(all: Seq<Seq<u8>>, from: int, map: Extensions, seen: Extensions)
    requires
        0 <= from <= all.len(),
        map.lists_well_formed(),
        map.private_is_plain(),
        all.subrange(from, all.len() as int) == map.private_segments(),
        !seen.has_private(),
    ensures
        read_extensions(all, from, seen) == Ok::<Extensions, ParserError>(
            Extensions { private: map.private, ..seen },
        ),
{
    let part = map.private_segments();
    let to = all.len() as int;
    if map.has_private() {
        let p_part = list_segments(map.private);
        let stays = |s: Seq<u8>| !ends_sequence(s, true);
        assert forall|i: int| 0 <= i < map.private.len() implies entry_all(#[trigger] map.private[i], stays) by {
            let e = map.private[i];
            assert(is_private_entry(e));
            assert(!is_known_segment(e.key));
            if e.key.len() == 1 {
                assert(crate::text::lower(e.key[0]) == e.key[0]);
            }
        }
        lemma_list_segments_all(map.private, stays);
        assert(part.len() == to - from);
        assert(all[from] == part[0]);
        assert(all[from] == seq![LETTER_X]);
        assert(is_letter(all[from]));
        assert forall|i: int| from + 1 <= i < to implies !ends_sequence(#[trigger] all[i], true) by {
            let k = i - from;
            assert(all[i] == part[k]);
            assert(part[k] == p_part[k - 1]);
            assert(stays(p_part[k - 1]));
        }
        lemma_sequence_end_at(all, from + 1, to, true);
        crate::entries::lemma_list_segments_len(map.private);
        assert(to > from + 1);
        assert(all.subrange(from + 1, to) =~= part.skip(1));
        assert(part.skip(1) =~= p_part);
        assert(seen.private =~= Seq::<EntryView>::empty());
        assert(Seq::<EntryView>::empty() + map.private =~= map.private);
        lemma_read_private(all, from + 1, to, Seq::<EntryView>::empty(), map.private, seen);
        let after = Extensions { private: map.private, ..seen };
        assert(read_sequence(all, from + 1, to, LETTER_X, seen) == Ok::<Extensions, ParserError>(after));
        assert(read_extensions(all, to, after) == Ok::<Extensions, ParserError>(after));
    } else {
        assert(part.len() == 0);
        assert(seen.private =~= map.private);
    }
}

/// Reading the extensions of other letters from their segments.
proof fn lemma_step_other(
    all: Seq<Seq<u8>>,
    from: int,
    to: int,
    done: Seq<EntryView>,
    rest: Seq<EntryView>,
    seen: Extensions,
)
    requires
        0 <= from <= to <= all.len(),
        all.subrange(from, to) == list_segments(rest),
        sorted(done + rest),
        forall|i: int| 0 <= i < rest.len() ==> is_other_entry(#[trigger] rest[i]),
        to < all.len() ==> is_letter(all[to]),
        seen.other == done,
    ensures
        read_extensions(all, from, seen) == read_extensions(
            all,
            to,
            Extensions { other: done + rest, ..seen },
        ),
    decreases rest.len(),
{
    if rest.len() == 0 {
        assert(all.subrange(from, to).len() == 0);
        assert(done + rest =~= done);
    } else {
        let entry = rest[0];
        let tail = rest.drop_first();
        lemma_list_segments_front(rest);
        assert(is_other_entry(entry));
        let letter = entry.key[0];
        let part = all.subrange(from, to);
        let end = from + 1 + entry.values.len();
        assert(part.len() == to - from);
        assert(all[from] == part[0]);
        assert(entry.key =~= seq![letter]);
        assert(is_letter(all[from]));
        assert(crate::text::lower(letter) == letter);
        assert(all.subrange(from + 1, end) =~= entry.values) by {
            assert forall|k: int| 0 <= k < entry.values.len() implies all[from + 1 + k] == entry.values[k] by {
                assert(all[from + 1 + k] == part[1 + k]);
                assert(entry_segments(entry)[1 + k] == entry.values[k]);
            }
        }
        assert(all.subrange(end, to) =~= list_segments(tail)) by {
            assert(all.subrange(end, to) =~= part.skip(end - from));
            assert(list_segments(rest).skip(end - from) =~= list_segments(tail));
        }
        assert forall|i: int| from + 1 <= i < end implies !ends_sequence(#[trigger] all[i], false) by {
            assert(all[i] == all.subrange(from + 1, end)[i - from - 1]);
            assert(crate::extensions::is_other_value(entry.values[i - from - 1]));
        }
        assert forall|i: int| 0 <= i < tail.len() implies is_other_entry(#[trigger] tail[i]) by {
            assert(tail[i] == rest[i + 1]);
        }
        if end < all.len() {
            if tail.len() > 0 {
                lemma_list_segments_front(tail);
                assert(all[end] == all.subrange(end, to)[0]);
                assert(is_other_entry(tail[0]));
                assert(is_letter(all[end]));
            } else {
                assert(list_segments(tail).len() == 0);
                assert(end == to);
            }
        }
        lemma_sequence_end_at(all, from + 1, end, false);
        lemma_sorted_step(done, rest);
        lemma_put_last(done, entry);
        lemma_first_rejected(entry.values, 2, 8);
        assert(first_rejected(entry.values, 2, 8) == entry.values.len()) by {
            let bad = first_rejected(entry.values, 2, 8);
            if bad < entry.values.len() {
                assert(crate::extensions::is_other_value(entry.values[bad]));
            }
        }
        assert(entry == EntryView { key: seq![letter], values: entry.values });
        let next = Extensions { other: done.push(entry), ..seen };
        assert(read_other(all, from + 1, end, letter, seen) == Ok::<Extensions, ParserError>(next));
        assert(read_sequence(all, from + 1, end, letter, seen) == Ok::<Extensions, ParserError>(next));
        lemma_step_other(all, end, to, done.push(entry), tail, next);
    }
}

/// Reading the segments of a map with well-formed lists, after any segments
/// that came before them, gives the map back, provided that no private-use
/// token is one of the letters `u`, `t` and `x` alone, and that the grammar
/// crate reads the language identifier of the transform extension back.
pub proof fn lemma_read_extensions(head: Seq<Seq<u8>>, map: Extensions)
    requires
        map.lists_well_formed(),
        map.private_is_plain(),
        transform_reads_back(map),
    ensures
        read_extensions(head + map.segments(), head.len() as int, Extensions::empty())
            == Ok::<Extensions, ParserError>(map),
{
    let t_part = map.transform_segments();
    let u_part = map.unicode_segments();
    let o_part = list_segments(map.other);
    let x_part = map.private_segments();
    let all = head + map.segments();
    let begin = head.len() as int;
    let t_end = begin + t_part.len();
    let u_end = t_end + u_part.len();
    let o_end = u_end + o_part.len();
    assert(all.len() == o_end + x_part.len());
    assert(all.subrange(begin, t_end) =~= t_part);
    assert(all.subrange(t_end, u_end) =~= u_part);
    assert(all.subrange(u_end, o_end) =~= o_part);
    assert(all.subrange(o_end, all.len() as int) =~= x_part);
    let x_letter = x_part.len() > 0 ==> is_letter(x_part[0]);
    assert(x_letter);
    if o_end < all.len() {
        assert(all[o_end] == x_part[0]);
    }
    if map.other.len() > 0 {
        lemma_list_segments_front(map.other);
        assert(is_other_entry(map.other[0]));
        assert(is_letter(o_part[0]));
    }
    if u_end < all.len() {
        if o_part.len() > 0 {
            assert(all[u_end] == o_part[0]);
        } else {
            assert(all[u_end] == x_part[0]);
        }
        assert(is_letter(all[u_end]));
    }
    if t_end < all.len() {
        if u_part.len() > 0 {
            assert(all[t_end] == u_part[0]);
            assert(u_part[0] == seq![LETTER_U]);
        } else {
            assert(t_end == u_end);
        }
        assert(is_letter(all[t_end]));
    }
    let none = Extensions::empty();
    let seen_t = Extensions { transform_lang: map.transform_lang, fields: map.fields, ..none };
    let seen_u = Extensions { attributes: map.attributes, keywords: map.keywords, ..seen_t };
    let seen_o = Extensions { other: map.other, ..seen_u };
    lemma_step_transform(all, begin, t_end, map, none);
    lemma_step_unicode(all, t_end, u_end, map, seen_t);
    assert(Seq::<EntryView>::empty() + map.other =~= map.other);
    lemma_step_other(all, u_end, o_end, Seq::<EntryView>::empty(), map.other, seen_u);
    lemma_step_private(all, o_end, map, seen_o);
    assert(Extensions { private: map.private, ..seen_o } == map);
}

/// No segment of a map with well-formed lists holds a separator, provided
/// that the language identifier of its transform extension holds none.
pub proof fn lemma_no_separator(map: Extensions)
    requires
        map.lists_well_formed(),
        map.transform_lang matches Some(lang) ==> lang.is_plain(),
    ensures
        forall|k: int| 0 <= k < map.segments().len() ==> no_separator(#[trigger] map.segments()[k]),
{
    let whole = |s: Seq<u8>| no_separator(s);
    assert forall|s: Seq<u8>| all_alnum(s) implies #[trigger] whole(s) by {
        assert forall|i: int| 0 <= i < s.len() implies !is_separator(#[trigger] s[i]) by {
            assert(is_alnum(s[i]));
        }
    }
    lemma_segments_all(map, whole);
}

/// The canonical text of a locale is its segments joined by hyphens.
pub proof fn lemma_text_joined(locale: LocaleView)
    ensures
        locale.text() == joined(locale.segments()),
{
    let head = locale.langid.segments();
    let tail = locale.extensions.segments();
    let all = head + tail;
    lemma_tail_text(locale.extensions);
    lemma_hyphenated_concat(head.skip(1), tail);
    assert(all.skip(1) =~= head.skip(1) + tail);
    assert(all[0] == head[0]);
    assert(locale.text() =~= locale.langid.text() + hyphenated(tail));
    assert(locale.text() =~= joined(all));
}

/// Reading the canonical text of a map gives the map back, provided that no
/// private-use token is one of the letters `u`, `t` and `x` alone, and that
/// the grammar crate reads the language identifier of the transform
/// extension back.
pub proof fn lemma_parse_tail_text(map: Extensions)
    requires
        map.lists_well_formed(),
        map.private_is_plain(),
        transform_reads_back(map),
    ensures
        parse_tail(map.text()) == Ok::<Extensions, ParserError>(map),
{
    lemma_empty_text(map);
    if map.is_empty() {
        assert(map.attributes =~= Seq::<EntryView>::empty());
        assert(map.keywords =~= Seq::<EntryView>::empty());
        assert(map.fields =~= Seq::<EntryView>::empty());
        assert(map.private =~= Seq::<EntryView>::empty());
        assert(map.other =~= Seq::<EntryView>::empty());
        assert(map == Extensions::empty());
    } else {
        lemma_no_separator(map);
        lemma_split_joined(map.segments());
        let none = Seq::<Seq<u8>>::empty();
        assert(none + map.segments() =~= map.segments());
        lemma_read_extensions(none, map);
    }
}

/// Writing a parsed locale and parsing it again changes nothing, wherever
/// the grammar crate reads the language identifiers of the locale back from
/// their own segments.
pub proof fn lemma_parse_again(text: Seq<u8>)
    requires
        parse(text) matches Ok(locale) && locale.langid.is_plain() && reads_back(
            locale.langid,
            locale.extensions.segments(),
        ) && transform_reads_back(locale.extensions),
    ensures
        parse(text) matches Ok(locale) && parse(locale.text()) == parse(text),
{
    lemma_parse_well_formed(text);
    lemma_parse_text(parse(text)->Ok_0);
}

/// Parsing the canonical text of a locale gives the locale back, wherever
/// no private-use token is one of the letters `u`, `t` and `x` alone and the
/// grammar crate reads the language identifiers of the locale back from
/// their own segments.
pub proof fn lemma_parse_text(locale: LocaleView)
    requires
        locale.extensions.lists_well_formed(),
        locale.extensions.private_is_plain(),
        locale.langid.is_plain(),
        reads_back(locale.langid, locale.extensions.segments()),
        transform_reads_back(locale.extensions),
    ensures
        parse(locale.text()) == Ok::<LocaleView, LocaleError>(locale),
{
    let head = locale.langid.segments();
    let tail = locale.extensions.segments();
    let all = head + tail;
    lemma_text_joined(locale);
    lemma_no_separator(locale.extensions);
    assert forall|i: int| 0 <= i < all.len() implies no_separator(#[trigger] all[i]) by {
        if i < head.len() {
            assert(all[i] == head[i]);
        } else {
            assert(all[i] == tail[i - head.len()]);
        }
    }
    lemma_split_joined(all);
    lemma_read_extensions(head, locale.extensions);
}

} // verus!
