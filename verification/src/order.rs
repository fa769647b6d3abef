//! The order of the extension sequences in a text: reading depends on what
//! the sequences are, not on where they stand or on what was read around
//! them, so sequences of different letters can change places.

use crate::canonical::lemma_sequence_end_at;
use crate::entries::{
    EntryView, has_key, lemma_put, lemma_slot, lemma_slot_sorted, put, slot, sorted,
};
use crate::errors::{LocaleError, ParserError};
use crate::extensions::{Extensions, keyed, lone, LETTER_T, LETTER_U, LETTER_X};
use crate::langid::{read_prefix, Subtags};
use crate::parser::{
    ends_sequence, is_letter, parse, read_extensions, read_fields, read_private, read_sequence,
    read_unicode,
};
use crate::text::{
    lemma_lex_irreflexive, lemma_lex_total, lemma_lex_transitive, lex_lt, lower, lowered, split,
};
use crate::LocaleView;
use vstd::prelude::*;

verus! {

/// What was read, if anything was.
pub open spec fn content(r: Result<Extensions, ParserError>) -> Option<Extensions> {
    match r {
        Ok(map) => Some(map),
        Err(_) => None,
    }
}

/// The map `base` with the part that belongs to a letter taken from `from`:
/// attributes and keywords for `u`, language and fields for `t`, tokens for
/// `x`, and the list of the other extensions for any other letter.
pub open spec fn with_part(letter: u8, base: Extensions, from: Extensions) -> Extensions {
    if letter == LETTER_U {
        Extensions { attributes: from.attributes, keywords: from.keywords, ..base }
    } else if letter == LETTER_T {
        Extensions { transform_lang: from.transform_lang, fields: from.fields, ..base }
    } else if letter == LETTER_X {
        Extensions { private: from.private, ..base }
    } else {
        Extensions { other: from.other, ..base }
    }
}

/// Reading the same private-use segments into maps with the same tokens
/// succeeds or fails alike, and changes nothing but the tokens.
proof fn lemma_same_private(
    s1: Seq<Seq<u8>>,
    f1: int,
    s2: Seq<Seq<u8>>,
    f2: int,
    n: int,
    m1: Extensions,
    m2: Extensions,
)
    requires
        forall|i: int| 0 <= i < n ==> #[trigger] s1[f1 + i] == s2[f2 + i],
        m1.private == m2.private,
    ensures
        match read_private(s1, f1, f1 + n, m1) {
            Ok(o1) => o1 == (Extensions { private: o1.private, ..m1 }) && read_private(
                s2,
                f2,
                f2 + n,
                m2,
            ) == Ok::<Extensions, ParserError>(Extensions { private: o1.private, ..m2 }),
            Err(_) => read_private(s2, f2, f2 + n, m2) is Err,
        },
    decreases n,
{
    if n > 0 {
        assert(s1[f1 + 0] == s2[f2 + 0]);
        let list = put(m1.private, lone(lowered(s1[f1])));
        assert forall|i: int| 0 <= i < n - 1 implies #[trigger] s1[f1 + 1 + i] == s2[f2 + 1 + i] by {
            assert(s1[f1 + (i + 1)] == s2[f2 + (i + 1)]);
        }
        lemma_same_private(
            s1,
            f1 + 1,
            s2,
            f2 + 1,
            n - 1,
            Extensions { private: list, ..m1 },
            Extensions { private: list, ..m2 },
        );
    }
}

/// Reading the same unicode segments into maps with the same attributes and
/// keywords succeeds or fails alike, and changes nothing but these.
proof fn lemma_same_unicode(
    s1: Seq<Seq<u8>>,
    f1: int,
    s2: Seq<Seq<u8>>,
    f2: int,
    n: int,
    m1: Extensions,
    m2: Extensions,
)
    requires
        forall|i: int| 0 <= i < n ==> #[trigger] s1[f1 + i] == s2[f2 + i],
        m1.attributes == m2.attributes,
        m1.keywords == m2.keywords,
    ensures
        match read_unicode(s1, f1, f1 + n, m1) {
            Ok(o1) => o1 == (Extensions { attributes: o1.attributes, keywords: o1.keywords, ..m1 })
                && read_unicode(s2, f2, f2 + n, m2) == Ok::<Extensions, ParserError>(
                Extensions { attributes: o1.attributes, keywords: o1.keywords, ..m2 },
            ),
            Err(_) => read_unicode(s2, f2, f2 + n, m2) is Err,
        },
    decreases n,
{
    if n > 0 {
        assert(s1[f1 + 0] == s2[f2 + 0]);
        let segment = lowered(s1[f1]);
        if n > 1 {
            assert(s1[f1 + 1] == s2[f2 + 1]);
        }
        assert forall|i: int| 0 <= i < n - 1 implies #[trigger] s1[f1 + 1 + i] == s2[f2 + 1 + i] by {
            assert(s1[f1 + (i + 1)] == s2[f2 + (i + 1)]);
        }
        assert forall|i: int| 0 <= i < n - 2 implies #[trigger] s1[f1 + 2 + i] == s2[f2 + 2 + i] by {
            assert(s1[f1 + (i + 2)] == s2[f2 + (i + 2)]);
        }
        if segment.len() == 2 {
            if f1 + 1 < f1 + n && crate::extensions::is_value(lowered(s1[f1 + 1])) {
                let list = put(m1.keywords, keyed(segment, Some(lowered(s1[f1 + 1]))));
                lemma_same_unicode(
                    s1,
                    f1 + 2,
                    s2,
                    f2 + 2,
                    n - 2,
                    Extensions { keywords: list, ..m1 },
                    Extensions { keywords: list, ..m2 },
                );
            } else {
                let list = put(m1.keywords, keyed(segment, None));
                lemma_same_unicode(
                    s1,
                    f1 + 1,
                    s2,
                    f2 + 1,
                    n - 1,
                    Extensions { keywords: list, ..m1 },
                    Extensions { keywords: list, ..m2 },
                );
            }
        } else {
            let list = put(m1.attributes, lone(segment));
            lemma_same_unicode(
                s1,
                f1 + 1,
                s2,
                f2 + 1,
                n - 1,
                Extensions { attributes: list, ..m1 },
                Extensions { attributes: list, ..m2 },
            );
        }
    }
}

/// Reading the same transform fields into maps with the same fields
/// succeeds or fails alike, and changes nothing but the fields.
proof fn lemma_same_fields(
    s1: Seq<Seq<u8>>,
    f1: int,
    s2: Seq<Seq<u8>>,
    f2: int,
    n: int,
    m1: Extensions,
    m2: Extensions,
)
    requires
        forall|i: int| 0 <= i < n ==> #[trigger] s1[f1 + i] == s2[f2 + i],
        m1.fields == m2.fields,
    ensures
        match read_fields(s1, f1, f1 + n, m1) {
            Ok(o1) => o1 == (Extensions { fields: o1.fields, ..m1 }) && read_fields(s2, f2, f2 + n, m2)
                == Ok::<Extensions, ParserError>(Extensions { fields: o1.fields, ..m2 }),
            Err(_) => read_fields(s2, f2, f2 + n, m2) is Err,
        },
    decreases n,
{
    if n > 0 {
        assert(s1[f1 + 0] == s2[f2 + 0]);
        if n > 1 {
            assert(s1[f1 + 1] == s2[f2 + 1]);
            let list = put(m1.fields, keyed(lowered(s1[f1]), Some(lowered(s1[f1 + 1]))));
            assert forall|i: int| 0 <= i < n - 2 implies #[trigger] s1[f1 + 2 + i] == s2[f2 + 2 + i] by {
                assert(s1[f1 + (i + 2)] == s2[f2 + (i + 2)]);
            }
            lemma_same_fields(
                s1,
                f1 + 2,
                s2,
                f2 + 2,
                n - 2,
                Extensions { fields: list, ..m1 },
                Extensions { fields: list, ..m2 },
            );
        }
    }
}

/// Reading the same sequence, wherever it stands, into maps that agree in
/// the part of its letter succeeds or fails alike, gives that part the same
/// content, and changes nothing else.
proof fn lemma_same_sequence(
    s1: Seq<Seq<u8>>,
    f1: int,
    s2: Seq<Seq<u8>>,
    f2: int,
    n: int,
    letter: u8,
    m1: Extensions,
    m2: Extensions,
)
    requires
        0 <= n,
        0 <= f1 && f1 + n <= s1.len(),
        0 <= f2 && f2 + n <= s2.len(),
        forall|i: int| 0 <= i < n ==> #[trigger] s1[f1 + i] == s2[f2 + i],
        with_part(letter, m1, m2) == m1,
    ensures
        match read_sequence(s1, f1, f1 + n, letter, m1) {
            Ok(o1) => o1 == with_part(letter, m1, o1) && read_sequence(s2, f2, f2 + n, letter, m2)
                == Ok::<Extensions, ParserError>(with_part(letter, m2, o1)),
            Err(_) => read_sequence(s2, f2, f2 + n, letter, m2) is Err,
        },
{
    let part1 = s1.subrange(f1, f1 + n);
    let part2 = s2.subrange(f2, f2 + n);
    assert(part1 =~= part2) by {
        assert forall|i: int| 0 <= i < n implies #[trigger] part1[i] == part2[i] by {
            assert(s1[f1 + i] == s2[f2 + i]);
        }
    }
    if letter == LETTER_U {
        lemma_same_unicode(s1, f1, s2, f2, n, m1, m2);
    } else if letter == LETTER_T {
        match read_prefix(s1.subrange(f1, f1 + n)) {
            Ok((lang, taken)) => {
                let k = n - taken;
                assert forall|i: int| 0 <= i < k implies #[trigger] s1[f1 + taken + i] == s2[f2 + taken
                    + i] by {
                    assert(s1[f1 + (taken + i)] == s2[f2 + (taken + i)]);
                }
                lemma_same_fields(
                    s1,
                    f1 + taken,
                    s2,
                    f2 + taken,
                    k,
                    Extensions { transform_lang: Some(lang), ..m1 },
                    Extensions { transform_lang: Some(lang), ..m2 },
                );
            },
            Err(_) => {
                lemma_same_fields(s1, f1, s2, f2, n, m1, m2);
            },
        }
    } else if letter == LETTER_X {
        lemma_same_private(s1, f1, s2, f2, n, m1, m2);
    } else {
    }
}

/// The place of a key in a list is the place before which every key is
/// smaller and at which the key is not.
proof fn lemma_slot_at(list: Seq<EntryView>, key: Seq<u8>, at: int)
    requires
        0 <= at <= list.len(),
        forall|j: int| 0 <= j < at ==> lex_lt(#[trigger] list[j].key, key),
        at < list.len() ==> !lex_lt(list[at].key, key),
    ensures
        slot(list, key) == at,
    decreases list.len(),
{
    if at > 0 {
        assert(lex_lt(list[0].key, key));
        let rest = list.drop_first();
        assert forall|j: int| 0 <= j < at - 1 implies lex_lt(#[trigger] rest[j].key, key) by {
            assert(rest[j] == list[j + 1]);
        }
        if at - 1 < rest.len() {
            assert(rest[at - 1] == list[at]);
        }
        lemma_slot_at(rest, key, at - 1);
    }
}

/// Two entries with keys that a sorted list lacks can be put into it in
/// either order, where the key of the first comes before the key of the
/// second.
proof fn lemma_put_two_ordered(list: Seq<EntryView>, a: EntryView, b: EntryView)
    requires
        sorted(list),
        !has_key(list, a.key),
        !has_key(list, b.key),
        lex_lt(a.key, b.key),
    ensures
        put(put(list, a), b) == put(put(list, b), a),
{
    lemma_slot(list, a.key);
    lemma_slot(list, b.key);
    lemma_slot_sorted(list, a.key);
    lemma_slot_sorted(list, b.key);
    lemma_lex_irreflexive(a.key);
    let sa = slot(list, a.key);
    let sb = slot(list, b.key);
    if sb < sa {
        assert(lex_lt(list[sb].key, a.key));
        lemma_lex_transitive(list[sb].key, a.key, b.key);
    }
    let with_a = list.insert(sa, a);
    let with_b = list.insert(sb, b);
    assert(put(list, a) == with_a);
    assert(put(list, b) == with_b);
    assert forall|j: int| 0 <= j < sb + 1 implies lex_lt(#[trigger] with_a[j].key, b.key) by {
        if j < sa {
            assert(with_a[j] == list[j]);
        } else if j == sa {
            assert(with_a[j] == a);
        } else {
            assert(with_a[j] == list[j - 1]);
        }
    }
    if sb + 1 < with_a.len() {
        assert(with_a[sb + 1] == list[sb]);
    }
    lemma_slot_at(with_a, b.key, sb + 1);
    assert forall|j: int| 0 <= j < sa implies lex_lt(#[trigger] with_b[j].key, a.key) by {
        assert(with_b[j] == list[j]);
    }
    if sa < sb {
        assert(with_b[sa] == list[sa]);
    } else {
        assert(with_b[sa] == b);
        if lex_lt(b.key, a.key) {
            lemma_lex_transitive(a.key, b.key, a.key);
        }
    }
    lemma_slot_at(with_b, a.key, sa);
    assert(put(with_a, b) == with_a.insert(sb + 1, b));
    assert(put(with_b, a) == with_b.insert(sa, a));
    assert(with_a.insert(sb + 1, b) =~= with_b.insert(sa, a));
}

/// Two entries with different keys that a sorted list lacks can be put
/// into it in either order.
proof fn lemma_put_two(list: Seq<EntryView>, a: EntryView, b: EntryView)
    requires
        sorted(list),
        !has_key(list, a.key),
        !has_key(list, b.key),
        a.key != b.key,
    ensures
        put(put(list, a), b) == put(put(list, b), a),
{
    if lex_lt(a.key, b.key) {
        lemma_put_two_ordered(list, a, b);
    } else {
        if !lex_lt(b.key, a.key) {
            lemma_lex_total(a.key, b.key);
        }
        lemma_put_two_ordered(list, b, a);
    }
}

/// The letter of a sequence: its first segment, in lower case.
pub open spec fn letter_of(sequence: Seq<Seq<u8>>) -> u8 {
    lower(sequence[0][0])
}

/// What reading one sequence, a letter and at least one segment after it,
/// makes of a map.
pub open spec fn read_one(sequence: Seq<Seq<u8>>, map: Extensions) -> Option<Extensions> {
    if sequence.len() >= 2 && is_letter(sequence[0]) {
        content(read_sequence(sequence, 1, sequence.len() as int, letter_of(sequence), map))
    } else {
        None
    }
}

/// What reading one more sequence makes of what was read, if anything was.
pub open spec fn then_read(map: Option<Extensions>, sequence: Seq<Seq<u8>>) -> Option<Extensions> {
    match map {
        Some(m) => read_one(sequence, m),
        None => None,
    }
}

/// What reading a list of sequences, one after the other, makes of a map.
pub open spec fn read_all(sequences: Seq<Seq<Seq<u8>>>, map: Extensions) -> Option<Extensions>
    decreases sequences.len(),
{
    if sequences.len() == 0 {
        Some(map)
    } else {
        match read_one(sequences[0], map) {
            Some(next) => read_all(sequences.drop_first(), next),
            None => None,
        }
    }
}

/// The segments of a list of sequences.
pub open spec fn flat(sequences: Seq<Seq<Seq<u8>>>) -> Seq<Seq<u8>>
    decreases sequences.len(),
{
    if sequences.len() == 0 {
        Seq::<Seq<u8>>::empty()
    } else {
        sequences[0] + flat(sequences.drop_first())
    }
}

/// A sequence as it stands in a text: a letter, and after it at least one
/// segment, none of which ends the sequence.
pub open spec fn is_sequence(sequence: Seq<Seq<u8>>) -> bool {
    &&& sequence.len() >= 2
    &&& is_letter(sequence[0])
    &&& forall|j: int|
        1 <= j < sequence.len() ==> !ends_sequence(
            #[trigger] sequence[j],
            letter_of(sequence) == LETTER_X,
        )
}

/// The sequences of a text, each ended by the letter of the next. After a
/// private-use sequence only one of the letters `u`, `t` and `x` does that.
pub open spec fn is_proper(sequences: Seq<Seq<Seq<u8>>>) -> bool {
    &&& forall|i: int| 0 <= i < sequences.len() ==> is_sequence(#[trigger] sequences[i])
    &&& forall|i: int|
        0 <= i < sequences.len() - 1 ==> ends_sequence(
            sequences[i + 1][0],
            letter_of(#[trigger] sequences[i]) == LETTER_X,
        )
}

/// Reading a sequence leaves the list of the other extensions sorted.
proof fn lemma_read_one_sorted(sequence: Seq<Seq<u8>>, map: Extensions)
    requires
        sorted(map.other),
    ensures
        read_one(sequence, map) matches Some(out) ==> sorted(out.other),
{
    if sequence.len() >= 2 && is_letter(sequence[0]) {
        let letter = letter_of(sequence);
        let n = sequence.len() - 1;
        lemma_same_sequence(sequence, 1, sequence, 1, n, letter, map, map);
        if letter != LETTER_U && letter != LETTER_T && letter != LETTER_X {
            let subtags = sequence.subrange(1, sequence.len() as int);
            lemma_put(map.other, EntryView { key: seq![letter], values: subtags });
        }
    }
}

/// Two sequences of different letters can be read in either order.
pub proof fn lemma_commute(x: Seq<Seq<u8>>, y: Seq<Seq<u8>>, map: Extensions)
    requires
        sorted(map.other),
        letter_of(x) != letter_of(y),
    ensures
        then_read(read_one(x, map), y) == then_read(read_one(y, map), x),
{
    if x.len() >= 2 && is_letter(x[0]) && y.len() >= 2 && is_letter(y[0]) {
        let la = letter_of(x);
        let lb = letter_of(y);
        let nx = x.len() - 1;
        let ny = y.len() - 1;
        let known_a = la == LETTER_U || la == LETTER_T || la == LETTER_X;
        let known_b = lb == LETTER_U || lb == LETTER_T || lb == LETTER_X;
        if !known_a && !known_b {
            let ea = EntryView { key: seq![la], values: x.subrange(1, x.len() as int) };
            let eb = EntryView { key: seq![lb], values: y.subrange(1, y.len() as int) };
            assert(ea.key != eb.key) by {
                if ea.key == eb.key {
                    assert(ea.key[0] == eb.key[0]);
                }
            }
            lemma_put(map.other, ea);
            lemma_put(map.other, eb);
            if !has_key(map.other, ea.key) && !has_key(map.other, eb.key) {
                lemma_put_two(map.other, ea, eb);
            }
        } else {
            lemma_same_sequence(x, 1, x, 1, nx, la, map, map);
            lemma_same_sequence(y, 1, y, 1, ny, lb, map, map);
            match read_sequence(x, 1, x.len() as int, la, map) {
                Ok(ox) => {
                    assert(with_part(lb, map, ox) == map);
                    lemma_same_sequence(y, 1, y, 1, ny, lb, map, ox);
                },
                Err(_) => {},
            }
            match read_sequence(y, 1, y.len() as int, lb, map) {
                Ok(oy) => {
                    assert(with_part(la, map, oy) == map);
                    lemma_same_sequence(x, 1, x, 1, nx, la, map, oy);
                },
                Err(_) => {},
            }
        }
    }
}

/// The segments of a proper list of sequences, after any segments that came
/// before them, are read as the sequences are, one after the other.
pub proof fn lemma_read_flat(head: Seq<Seq<u8>>, sequences: Seq<Seq<Seq<u8>>>, map: Extensions)
    requires
        is_proper(sequences),
    ensures
        content(read_extensions(head + flat(sequences), head.len() as int, map)) == read_all(
            sequences,
            map,
        ),
    decreases sequences.len(),
{
    let all = head + flat(sequences);
    let from = head.len() as int;
    if sequences.len() == 0 {
        assert(all =~= head);
    } else {
        let x = sequences[0];
        let rest = sequences.drop_first();
        let letter = letter_of(x);
        let private = letter == LETTER_X;
        let to = from + x.len();
        assert(is_sequence(x));
        assert(all[from] == x[0]);
        assert forall|i: int| from + 1 <= i < to implies !ends_sequence(#[trigger] all[i], private) by {
            assert(all[i] == x[i - from]);
        }
        assert forall|i: int| 0 <= i < rest.len() implies is_sequence(#[trigger] rest[i]) by {
            assert(rest[i] == sequences[i + 1]);
        }
        assert forall|i: int| 0 <= i < rest.len() - 1 implies ends_sequence(
            rest[i + 1][0],
            letter_of(#[trigger] rest[i]) == LETTER_X,
        ) by {
            assert(rest[i] == sequences[i + 1]);
            assert(rest[i + 1] == sequences[i + 1 + 1]);
        }
        assert(flat(sequences) == x + flat(rest));
        assert(all.len() == to + flat(rest).len());
        if to < all.len() {
            if rest.len() == 0 {
                assert(flat(rest).len() == 0);
            }
            assert(rest.len() > 0);
            assert(flat(rest) == rest[0] + flat(rest.drop_first()));
            assert(is_sequence(rest[0]));
            assert(all[to] == flat(rest)[0]);
            assert(flat(rest)[0] == rest[0][0]);
            assert(rest[0] == sequences[0int + 1]);
            assert(is_sequence(sequences[0]));
        }
        lemma_sequence_end_at(all, from + 1, to, private);
        assert forall|i: int| 0 <= i < x.len() - 1 implies #[trigger] all[from + 1 + i] == x[1 + i] by {
            assert(all[from + 1 + i] == x[1 + i]);
        }
        lemma_same_sequence(all, from + 1, x, 1, x.len() - 1, letter, map, map);
        match read_sequence(all, from + 1, to, letter, map) {
            Ok(next) => {
                assert(all =~= (head + x) + flat(rest));
                lemma_read_flat(head + x, rest, next);
            },
            Err(_) => {},
        }
    }
}

/// A sequence at the front of a list can go to its end, where no sequence
/// of the list has its letter.
proof fn lemma_front_to_end(x: Seq<Seq<u8>>, q: Seq<Seq<Seq<u8>>>, map: Extensions)
    requires
        sorted(map.other),
        forall|i: int| 0 <= i < q.len() ==> letter_of(#[trigger] q[i]) != letter_of(x),
    ensures
        read_all(seq![x] + q, map) == read_all(q.push(x), map),
    decreases q.len(),
{
    let left = seq![x] + q;
    let right = q.push(x);
    assert(left[0] == x);
    assert(left.drop_first() =~= q);
    if q.len() == 0 {
        assert(left =~= right);
    } else {
        let y = q[0];
        let tail = q.drop_first();
        assert(right[0] == y);
        assert(right.drop_first() =~= tail.push(x));
        assert(letter_of(y) != letter_of(x));
        lemma_commute(x, y, map);
        lemma_read_one_sorted(y, map);
        assert forall|i: int| 0 <= i < tail.len() implies letter_of(#[trigger] tail[i]) != letter_of(x) by {
            assert(tail[i] == q[i + 1]);
        }
        assert(read_all(right, map) == match read_one(y, map) {
            Some(oy) => read_all(tail.push(x), oy),
            None => None,
        });
        assert(read_all(left, map) == match read_one(x, map) {
            Some(ox) => read_all(q, ox),
            None => None,
        });
        match read_one(x, map) {
            Some(ox) => {
                assert(read_all(q, ox) == match read_one(y, ox) {
                    Some(oxy) => read_all(tail, oxy),
                    None => None,
                });
            },
            None => {},
        }
        match read_one(y, map) {
            Some(oy) => {
                lemma_front_to_end(x, tail, oy);
                let moved = seq![x] + tail;
                assert(moved[0] == x);
                assert(moved.drop_first() =~= tail);
                assert(read_all(moved, oy) == match read_one(x, oy) {
                    Some(oyx) => read_all(tail, oyx),
                    None => None,
                });
            },
            None => {},
        }
    }
}

/// A sequence can go to the end of a list of sequences, where no sequence
/// that it passes has its letter: the map that is read stays the same.
proof fn lemma_move_to_end(
    p: Seq<Seq<Seq<u8>>>,
    x: Seq<Seq<u8>>,
    q: Seq<Seq<Seq<u8>>>,
    map: Extensions,
)
    requires
        sorted(map.other),
        forall|i: int| 0 <= i < q.len() ==> letter_of(#[trigger] q[i]) != letter_of(x),
    ensures
        read_all(p + seq![x] + q, map) == read_all(p + q + seq![x], map),
    decreases p.len(),
{
    let left = p + seq![x] + q;
    let right = p + q + seq![x];
    if p.len() == 0 {
        assert(left =~= seq![x] + q);
        assert(right =~= q.push(x));
        lemma_front_to_end(x, q, map);
    } else {
        let rest = p.drop_first();
        assert(left[0] == p[0] && right[0] == p[0]);
        assert(left.drop_first() =~= rest + seq![x] + q);
        assert(right.drop_first() =~= rest + q + seq![x]);
        lemma_read_one_sorted(p[0], map);
        match read_one(p[0], map) {
            Some(next) => {
                lemma_move_to_end(rest, x, q, next);
            },
            None => {},
        }
    }
}

/// No two sequences of the list have the same letter.
pub open spec fn letters_differ(sequences: Seq<Seq<Seq<u8>>>) -> bool {
    forall|i: int, j: int|
        0 <= i < j < sequences.len() ==> letter_of(#[trigger] sequences[i]) != letter_of(
            #[trigger] sequences[j],
        )
}

/// Reading a list and one more sequence is reading the list and then the
/// sequence.
proof fn lemma_read_all_push(r: Seq<Seq<Seq<u8>>>, z: Seq<Seq<u8>>, map: Extensions)
    ensures
        read_all(r.push(z), map) == then_read(read_all(r, map), z),
    decreases r.len(),
{
    let all = r.push(z);
    if r.len() == 0 {
        assert(all[0] == z);
        assert(all.drop_first().len() == 0);
        match read_one(z, map) {
            Some(next) => {
                assert(read_all(all.drop_first(), next) == Some(next));
            },
            None => {},
        }
    } else {
        assert(all[0] == r[0]);
        assert(all.drop_first() =~= r.drop_first().push(z));
        match read_one(r[0], map) {
            Some(next) => {
                lemma_read_all_push(r.drop_first(), z, next);
            },
            None => {},
        }
    }
}

/// Sequences of different letters can be read in any order: two lists that
/// hold the same sequences give the same map, or both give none.
pub proof fn lemma_any_order(a: Seq<Seq<Seq<u8>>>, b: Seq<Seq<Seq<u8>>>, map: Extensions)
    requires
        sorted(map.other),
        a.to_multiset() == b.to_multiset(),
        letters_differ(a),
    ensures
        read_all(a, map) == read_all(b, map),
    decreases a.len(),
{
    a.to_multiset_ensures();
    b.to_multiset_ensures();
    if a.len() == 0 {
        assert(a =~= b);
    } else {
        let z = b.last();
        assert(b[b.len() - 1] == z);
        assert(b.contains(z));
        assert(b.to_multiset().count(z) > 0);
        assert(a.to_multiset().count(z) > 0);
        assert(a.contains(z));
        let j = choose|j: int| 0 <= j < a.len() && a[j] == z;
        let p = a.subrange(0, j);
        let q = a.subrange(j + 1, a.len() as int);
        let shorter_a = a.remove(j);
        let shorter_b = b.drop_last();
        assert(a =~= p + seq![z] + q);
        assert(shorter_a =~= p + q);
        assert(shorter_b =~= b.remove(b.len() - 1));
        assert(shorter_a.to_multiset() =~= shorter_b.to_multiset());
        assert forall|i: int| 0 <= i < q.len() implies letter_of(#[trigger] q[i]) != letter_of(z) by {
            assert(q[i] == a[j + 1 + i]);
        }
        lemma_move_to_end(p, z, q, map);
        assert(p + q + seq![z] =~= shorter_a.push(z));
        assert(shorter_b.push(z) =~= b);
        lemma_read_all_push(shorter_a, z, map);
        lemma_read_all_push(shorter_b, z, map);
        assert forall|i: int, k: int| 0 <= i < k < shorter_a.len() implies letter_of(
            #[trigger] shorter_a[i],
        ) != letter_of(#[trigger] shorter_a[k]) by {
            let i0 = if i < j { i } else { i + 1 };
            let k0 = if k < j { k } else { k + 1 };
            assert(shorter_a[i] == a[i0] && shorter_a[k] == a[k0]);
        }
        lemma_any_order(shorter_a, shorter_b, map);
    }
}

/// The order of the extension sequences in a list of segments does not
/// matter: two lists that are cut into the same sequences, of different
/// letters, are read as the same map, or neither is read.
pub proof fn lemma_extensions_any_order(
    head: Seq<Seq<u8>>,
    a: Seq<Seq<Seq<u8>>>,
    b: Seq<Seq<Seq<u8>>>,
    map: Extensions,
)
    requires
        sorted(map.other),
        is_proper(a),
        is_proper(b),
        a.to_multiset() == b.to_multiset(),
        letters_differ(a),
    ensures
        content(read_extensions(head + flat(a), head.len() as int, map)) == content(
            read_extensions(head + flat(b), head.len() as int, map),
        ),
{
    lemma_read_flat(head, a, map);
    lemma_read_flat(head, b, map);
    lemma_any_order(a, b, map);
}

/// The order of the extension sequences in a text does not matter: two
/// texts with the same language identifier whose extension parts are cut
/// into the same sequences, of different letters, are parsed as the same
/// locale, or neither is parsed. So they have the same canonical text.
pub proof fn lemma_parse_any_order(
    first: Seq<u8>,
    second: Seq<u8>,
    langid: Subtags,
    head: Seq<Seq<u8>>,
    a: Seq<Seq<Seq<u8>>>,
    b: Seq<Seq<Seq<u8>>>,
)
    requires
        split(first) == head + flat(a),
        split(second) == head + flat(b),
        read_prefix(split(first)) == Ok::<(Subtags, nat), LocaleError>((langid, head.len())),
        read_prefix(split(second)) == Ok::<(Subtags, nat), LocaleError>((langid, head.len())),
        is_proper(a),
        is_proper(b),
        a.to_multiset() == b.to_multiset(),
        letters_differ(a),
    ensures
        match parse(first) {
            Ok(locale) => parse(second) == Ok::<LocaleView, LocaleError>(locale),
            Err(_) => parse(second) is Err,
        },
{
    lemma_extensions_any_order(head, a, b, Extensions::empty());
}

} // verus!
