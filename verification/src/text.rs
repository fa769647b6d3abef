//! Bytes of a locale text: character classes, case folding, the order of
//! subtags, and the cutting of a text into segments.

use vstd::prelude::*;

verus! {

/// The hyphen, which separates the segments of a canonical text.
pub const HYPHEN: u8 = 0x2d;

/// The underscore, accepted as a separator on input.
pub const UNDERSCORE: u8 = 0x5f;

/// An ASCII letter.
pub open spec fn is_alpha(b: u8) -> bool {
    (0x41 <= b && b <= 0x5a) || (0x61 <= b && b <= 0x7a)
}

/// An ASCII decimal digit.
pub open spec fn is_digit(b: u8) -> bool {
    0x30 <= b && b <= 0x39
}

/// An ASCII letter or digit.
pub open spec fn is_alnum(b: u8) -> bool {
    is_alpha(b) || is_digit(b)
}

/// A byte that ends one segment and starts the next.
pub open spec fn is_separator(b: u8) -> bool {
    b == HYPHEN || b == UNDERSCORE
}

/// The lower-case form of a byte: upper-case ASCII letters move, nothing else does.
pub open spec fn lower(b: u8) -> u8 {
    if 0x41 <= b && b <= 0x5a {
        (b + 0x20) as u8
    } else {
        b
    }
}

/// Every byte is an ASCII letter or digit.
pub open spec fn all_alnum(s: Seq<u8>) -> bool {
    forall|i: int| 0 <= i < s.len() ==> is_alnum(#[trigger] s[i])
}

/// Every byte is ASCII.
pub open spec fn all_ascii(s: Seq<u8>) -> bool {
    forall|i: int| 0 <= i < s.len() ==> #[trigger] s[i] < 0x80
}

/// No byte is a separator.
pub open spec fn no_separator(s: Seq<u8>) -> bool {
    forall|i: int| 0 <= i < s.len() ==> !is_separator(#[trigger] s[i])
}

/// No byte is an upper-case letter.
pub open spec fn is_lowered(s: Seq<u8>) -> bool {
    forall|i: int| 0 <= i < s.len() ==> lower(#[trigger] s[i]) == s[i]
}

/// The segment with every byte in lower case.
pub open spec fn lowered(s: Seq<u8>) -> Seq<u8> {
    Seq::new(s.len(), |i: int| lower(s[i]))
}

/// Letters and digits only, with a length between `min` and `max`.
pub open spec fn is_token(s: Seq<u8>, min: int, max: int) -> bool {
    min <= s.len() && s.len() <= max && all_alnum(s)
}

/// The place of the first segment that is not made of `min` to `max`
/// letters and digits: the length of the list where every segment is.
pub open spec fn first_rejected(list: Seq<Seq<u8>>, min: int, max: int) -> int
    decreases list.len(),
{
    if list.len() == 0 || !is_token(list[0], min, max) {
        0
    } else {
        1 + first_rejected(list.drop_first(), min, max)
    }
}

/// The characters that ASCII bytes stand for.
pub open spec fn ascii_chars(s: Seq<u8>) -> Seq<char> {
    Seq::new(s.len(), |i: int| s[i] as char)
}

/// The byte sequences held by a vector of byte vectors.
pub open spec fn views(v: Seq<Vec<u8>>) -> Seq<Seq<u8>> {
    Seq::new(v.len(), |i: int| v[i]@)
}

/// The strict lexicographic order of byte sequences, a proper prefix first.
pub open spec fn lex_lt(a: Seq<u8>, b: Seq<u8>) -> bool
    decreases a.len(),
{
    if b.len() == 0 {
        false
    } else if a.len() == 0 {
        true
    } else if a[0] != b[0] {
        a[0] < b[0]
    } else {
        lex_lt(a.drop_first(), b.drop_first())
    }
}

/// Nothing comes before itself.
pub proof fn lemma_lex_irreflexive(a: Seq<u8>)
    ensures
        !lex_lt(a, a),
    decreases a.len(),
{
    if a.len() > 0 {
        lemma_lex_irreflexive(a.drop_first());
    }
}

/// The order is transitive.
pub proof fn lemma_lex_transitive(a: Seq<u8>, b: Seq<u8>, c: Seq<u8>)
    requires
        lex_lt(a, b),
        lex_lt(b, c),
    ensures
        lex_lt(a, c),
    decreases a.len(),
{
    if a.len() > 0 && a[0] == b[0] && b[0] == c[0] {
        lemma_lex_transitive(a.drop_first(), b.drop_first(), c.drop_first());
    }
}

/// Two sequences of which neither comes first are equal.
pub proof fn lemma_lex_total(a: Seq<u8>, b: Seq<u8>)
    requires
        !lex_lt(a, b),
        !lex_lt(b, a),
    ensures
        a == b,
    decreases a.len(),
{
    if a.len() > 0 && b.len() > 0 {
        lemma_lex_total(a.drop_first(), b.drop_first());
        assert(a =~= seq![a[0]] + a.drop_first());
        assert(b =~= seq![b[0]] + b.drop_first());
    } else {
        assert(a =~= b);
    }
}

/// The segments of a text: what stands between its separators. A text
/// without separator is one segment, the empty text included.
pub open spec fn split(text: Seq<u8>) -> Seq<Seq<u8>>
    decreases text.len(),
{
    if text.len() == 0 {
        seq![Seq::<u8>::empty()]
    } else {
        let before = split(text.drop_last());
        if is_separator(text.last()) {
            before.push(Seq::<u8>::empty())
        } else {
            before.drop_last().push(before.last().push(text.last()))
        }
    }
}

/// The text in which a hyphen stands before each segment.
pub open spec fn hyphenated(segments: Seq<Seq<u8>>) -> Seq<u8>
    decreases segments.len(),
{
    if segments.len() == 0 {
        Seq::<u8>::empty()
    } else {
        hyphenated(segments.drop_last()) + seq![HYPHEN] + segments.last()
    }
}

/// The text of one or more segments with a hyphen between neighbours.
pub open spec fn joined(segments: Seq<Seq<u8>>) -> Seq<u8>
    recommends
        segments.len() >= 1,
{
    segments[0] + hyphenated(segments.skip(1))
}

/// The text of two lists of segments, one after the other.
pub proof fn lemma_hyphenated_concat(a: Seq<Seq<u8>>, b: Seq<Seq<u8>>)
    ensures
        hyphenated(a + b) == hyphenated(a) + hyphenated(b),
    decreases b.len(),
{
    if b.len() == 0 {
        assert(a + b =~= a);
        assert(hyphenated(a) + hyphenated(b) =~= hyphenated(a));
    } else {
        lemma_hyphenated_concat(a, b.drop_last());
        assert((a + b).drop_last() =~= a + b.drop_last());
        assert((a + b).last() == b.last());
        assert(hyphenated(a + b) =~= hyphenated(a) + hyphenated(b));
    }
}

/// A hyphenated text of ASCII segments is ASCII.
pub proof fn lemma_hyphenated_ascii(segments: Seq<Seq<u8>>)
    requires
        forall|i: int| 0 <= i < segments.len() ==> all_ascii(#[trigger] segments[i]),
    ensures
        all_ascii(hyphenated(segments)),
    decreases segments.len(),
{
    if segments.len() > 0 {
        assert forall|i: int| 0 <= i < segments.drop_last().len() implies all_ascii(
            #[trigger] segments.drop_last()[i],
        ) by {
            assert(segments.drop_last()[i] == segments[i]);
        }
        lemma_hyphenated_ascii(segments.drop_last());
        assert(all_ascii(segments.last()));
    }
}

/// A joined text of ASCII segments is ASCII.
pub proof fn lemma_joined_ascii(segments: Seq<Seq<u8>>)
    requires
        segments.len() >= 1,
        forall|i: int| 0 <= i < segments.len() ==> all_ascii(#[trigger] segments[i]),
    ensures
        all_ascii(joined(segments)),
{
    assert forall|i: int| 0 <= i < segments.skip(1).len() implies all_ascii(
        #[trigger] segments.skip(1)[i],
    ) by {
        assert(segments.skip(1)[i] == segments[i + 1]);
    }
    lemma_hyphenated_ascii(segments.skip(1));
    assert(all_ascii(segments[0]));
}

/// The text of a single segment.
pub proof fn lemma_hyphenated_one(segment: Seq<u8>)
    ensures
        hyphenated(seq![segment]) == seq![HYPHEN] + segment,
{
    assert(seq![segment].drop_last().len() == 0);
    assert(seq![segment].last() == segment);
    assert(hyphenated(seq![segment].drop_last()) =~= Seq::<u8>::empty());
    assert(hyphenated(seq![segment]) =~= seq![HYPHEN] + segment);
}

/// A hyphenated text is a hyphen and the joined text.
pub proof fn lemma_hyphenated_joined(segments: Seq<Seq<u8>>)
    requires
        segments.len() >= 1,
    ensures
        hyphenated(segments) == seq![HYPHEN] + joined(segments),
{
    assert(segments =~= seq![segments[0]] + segments.skip(1));
    lemma_hyphenated_concat(seq![segments[0]], segments.skip(1));
    lemma_hyphenated_one(segments[0]);
    assert(hyphenated(segments) =~= seq![HYPHEN] + joined(segments));
}

/// A text has at least one segment.
pub proof fn lemma_split_nonempty(text: Seq<u8>)
    ensures
        split(text).len() >= 1,
    decreases text.len(),
{
    if text.len() > 0 {
        lemma_split_nonempty(text.drop_last());
    }
}

/// Tells whether a byte is an ASCII letter.
pub fn byte_is_alpha(b: u8) -> (r: bool)
    ensures
        r == is_alpha(b),
{
    (0x41 <= b && b <= 0x5a) || (0x61 <= b && b <= 0x7a)
}

/// Tells whether a byte is an ASCII decimal digit.
pub fn byte_is_digit(b: u8) -> (r: bool)
    ensures
        r == is_digit(b),
{
    0x30 <= b && b <= 0x39
}

/// Tells whether a byte separates segments.
pub fn byte_is_separator(b: u8) -> (r: bool)
    ensures
        r == is_separator(b),
{
    b == HYPHEN || b == UNDERSCORE
}

/// The lower-case form of a byte.
pub fn byte_lower(b: u8) -> (r: u8)
    ensures
        r == lower(b),
{
    if 0x41 <= b && b <= 0x5a {
        b + 0x20
    } else {
        b
    }
}

/// Tells whether a segment is made of letters and digits and has a length
/// between `min` and `max`.
pub fn check_token(s: &[u8], min: usize, max: usize) -> (r: bool)
    ensures
        r == is_token(s@, min as int, max as int),
{
    if s.len() < min || s.len() > max {
        return false;
    }
    let mut i: usize = 0;
    while i < s.len()
        invariant
            i <= s.len(),
            forall|j: int| 0 <= j < i ==> is_alnum(#[trigger] s@[j]),
        decreases s.len() - i,
    {
        if !(byte_is_alpha(s[i]) || byte_is_digit(s[i])) {
            return false;
        }
        i += 1;
    }
    true
}

/// What the place of the first rejected segment is: every segment before it
/// is accepted, and the one at it, if any, is not.
pub proof fn lemma_first_rejected(list: Seq<Seq<u8>>, min: int, max: int)
    ensures
        0 <= first_rejected(list, min, max) <= list.len(),
        forall|i: int| 0 <= i < first_rejected(list, min, max) ==> is_token(#[trigger] list[i], min, max),
        first_rejected(list, min, max) < list.len() ==> !is_token(
            list[first_rejected(list, min, max)],
            min,
            max,
        ),
    decreases list.len(),
{
    if !(list.len() == 0 || !is_token(list[0], min, max)) {
        let rest = list.drop_first();
        lemma_first_rejected(rest, min, max);
        assert forall|i: int| 0 <= i < first_rejected(list, min, max) implies is_token(
            #[trigger] list[i],
            min,
            max,
        ) by {
            if i > 0 {
                assert(list[i] == rest[i - 1]);
            }
        }
        if first_rejected(list, min, max) < list.len() {
            assert(list[first_rejected(list, min, max)] == rest[first_rejected(rest, min, max)]);
        }
    }
}

/// Finds the first segment, among those from `from` up to `to`, that is not
/// made of `min` to `max` letters and digits.
pub(crate) fn find_rejected(list: &Vec<Vec<u8>>, from: usize, to: usize, min: usize, max: usize) -> (r: usize)
    requires
        from <= to <= list.len(),
    ensures
        r == from + first_rejected(views(list@).subrange(from as int, to as int), min as int, max as int),
        from <= r <= to,
{
    let ghost part = views(list@).subrange(from as int, to as int);
    let mut i: usize = from;
    assert(part.skip(0) =~= part);
    while i < to && check_token(list[i].as_slice(), min, max)
        invariant
            from <= i <= to <= list.len(),
            part == views(list@).subrange(from as int, to as int),
            first_rejected(part, min as int, max as int) == (i - from) + first_rejected(
                part.skip(i - from),
                min as int,
                max as int,
            ),
        decreases to - i,
    {
        assert(part.skip(i - from)[0] == list@[i as int]@);
        assert(part.skip(i - from).drop_first() =~= part.skip(i - from + 1));
        i += 1;
    }
    if i < to {
        assert(part.skip(i - from)[0] == list@[i as int]@);
    }
    i
}

/// A copy of the bytes.
pub fn copy_bytes(s: &[u8]) -> (r: Vec<u8>)
    ensures
        r@ == s@,
{
    let mut out: Vec<u8> = Vec::new();
    let mut i: usize = 0;
    while i < s.len()
        invariant
            i <= s.len(),
            out@ == s@.take(i as int),
        decreases s.len() - i,
    {
        out.push(s[i]);
        assert(s@.take(i + 1) =~= s@.take(i as int).push(s@[i as int]));
        i += 1;
    }
    assert(s@.take(s.len() as int) =~= s@);
    out
}

/// A copy of the bytes in lower case.
pub fn to_lower(s: &[u8]) -> (r: Vec<u8>)
    ensures
        r@ == lowered(s@),
{
    let mut out: Vec<u8> = Vec::new();
    let mut i: usize = 0;
    while i < s.len()
        invariant
            i <= s.len(),
            out@ == lowered(s@).take(i as int),
        decreases s.len() - i,
    {
        out.push(byte_lower(s[i]));
        assert(lowered(s@).take(i + 1) =~= lowered(s@).take(i as int).push(lower(s@[i as int])));
        i += 1;
    }
    assert(lowered(s@).take(s.len() as int) =~= lowered(s@));
    out
}

/// Tells whether two byte strings are equal.
pub fn bytes_eq(a: &[u8], b: &[u8]) -> (r: bool)
    ensures
        r == (a@ == b@),
{
    if a.len() != b.len() {
        return false;
    }
    let mut i: usize = 0;
    while i < a.len()
        invariant
            i <= a.len(),
            a.len() == b.len(),
            forall|j: int| 0 <= j < i ==> a@[j] == b@[j],
        decreases a.len() - i,
    {
        if a[i] != b[i] {
            return false;
        }
        i += 1;
    }
    assert(a@ =~= b@);
    true
}

/// A copy of a list of byte strings.
pub fn copy_list(list: &Vec<Vec<u8>>) -> (r: Vec<Vec<u8>>)
    ensures
        views(r@) == views(list@),
{
    let mut out: Vec<Vec<u8>> = Vec::new();
    let mut i: usize = 0;
    while i < list.len()
        invariant
            i <= list.len(),
            out.len() == i,
            forall|j: int| 0 <= j < i ==> out@[j]@ == list@[j]@,
        decreases list.len() - i,
    {
        out.push(copy_bytes(list[i].as_slice()));
        i += 1;
    }
    assert(views(out@) =~= views(list@));
    out
}

/// Tells whether two lists of byte strings are equal.
pub fn list_eq(a: &Vec<Vec<u8>>, b: &Vec<Vec<u8>>) -> (r: bool)
    ensures
        r == (views(a@) == views(b@)),
{
    if a.len() != b.len() {
        assert(views(a@).len() != views(b@).len());
        return false;
    }
    let mut i: usize = 0;
    while i < a.len()
        invariant
            i <= a.len(),
            a.len() == b.len(),
            forall|j: int| 0 <= j < i ==> a@[j]@ == b@[j]@,
        decreases a.len() - i,
    {
        if !bytes_eq(a[i].as_slice(), b[i].as_slice()) {
            assert(views(a@)[i as int] != views(b@)[i as int]);
            return false;
        }
        i += 1;
    }
    assert(views(a@) =~= views(b@));
    true
}

/// Tells whether `a` comes before `b`.
pub fn bytes_lt(a: &[u8], b: &[u8]) -> (r: bool)
    ensures
        r == lex_lt(a@, b@),
{
    let mut i: usize = 0;
    assert(a@.skip(0) =~= a@ && b@.skip(0) =~= b@);
    loop
        invariant
            i <= a.len(),
            i <= b.len(),
            lex_lt(a@, b@) == lex_lt(a@.skip(i as int), b@.skip(i as int)),
        decreases a.len() - i,
    {
        if i >= b.len() {
            return false;
        }
        if i >= a.len() {
            return true;
        }
        if a[i] != b[i] {
            return a[i] < b[i];
        }
        assert(a@.skip(i as int).drop_first() =~= a@.skip(i + 1));
        assert(b@.skip(i as int).drop_first() =~= b@.skip(i + 1));
        i += 1;
    }
}

/// Cuts a text at its separators.
pub fn split_segments(text: &[u8]) -> (r: Vec<Vec<u8>>)
    ensures
        views(r@) == split(text@),
        r.len() >= 1,
{
    let mut done: Vec<Vec<u8>> = Vec::new();
    let mut current: Vec<u8> = Vec::new();
    let mut i: usize = 0;
    while i < text.len()
        invariant
            i <= text.len(),
            views(done@).push(current@) == split(text@.take(i as int)),
        decreases text.len() - i,
    {
        let ghost before = split(text@.take(i as int));
        assert(text@.take(i + 1).drop_last() =~= text@.take(i as int));
        if byte_is_separator(text[i]) {
            done.push(current);
            current = Vec::new();
            assert(views(done@).push(current@) =~= before.push(Seq::<u8>::empty()));
        } else {
            current.push(text[i]);
            assert(views(done@).push(current@) =~= before.drop_last().push(
                before.last().push(text@[i as int]),
            ));
        }
        i += 1;
    }
    assert(text@.take(text.len() as int) =~= text@);
    done.push(current);
    assert(views(done@) =~= split(text@));
    done
}

/// Appends bytes to a text.
pub fn push_bytes(out: &mut Vec<u8>, bytes: &[u8])
    ensures
        final(out)@ == old(out)@ + bytes@,
{
    let mut i: usize = 0;
    assert(out@ =~= old(out)@ + bytes@.take(0));
    while i < bytes.len()
        invariant
            i <= bytes.len(),
            out@ == old(out)@ + bytes@.take(i as int),
        decreases bytes.len() - i,
    {
        out.push(bytes[i]);
        assert(bytes@.take(i + 1) =~= bytes@.take(i as int).push(bytes@[i as int]));
        assert(out@ =~= old(out)@ + bytes@.take(i + 1));
        i += 1;
    }
    assert(bytes@.take(bytes.len() as int) =~= bytes@);
}

/// Appends a hyphen and a segment to a text.
pub fn push_segment(out: &mut Vec<u8>, segment: &[u8])
    ensures
        final(out)@ == old(out)@ + seq![HYPHEN] + segment@,
{
    out.push(HYPHEN);
    assert(out@ =~= old(out)@ + seq![HYPHEN]);
    push_bytes(out, segment);
}

/// The lower-case form of a segment is in lower case, and is made of
/// letters and digits exactly if the segment is.
pub proof fn lemma_lowered(s: Seq<u8>)
    ensures
        is_lowered(lowered(s)),
        lowered(s).len() == s.len(),
        all_alnum(lowered(s)) == all_alnum(s),
        is_lowered(s) ==> lowered(s) == s,
{
    if all_alnum(s) {
        assert forall|i: int| 0 <= i < lowered(s).len() implies is_alnum(#[trigger] lowered(s)[i]) by {
            assert(is_alnum(s[i]));
        }
    }
    if all_alnum(lowered(s)) {
        assert forall|i: int| 0 <= i < s.len() implies is_alnum(#[trigger] s[i]) by {
            assert(is_alnum(lowered(s)[i]));
        }
    }
    if is_lowered(s) {
        assert(lowered(s) =~= s);
    }
}

/// Appends each segment, with a hyphen before it, to a text.
pub fn push_segments(out: &mut Vec<u8>, segments: &Vec<Vec<u8>>)
    ensures
        final(out)@ == old(out)@ + hyphenated(views(segments@)),
{
    let mut i: usize = 0;
    assert(views(segments@).take(0) =~= Seq::<Seq<u8>>::empty());
    while i < segments.len()
        invariant
            i <= segments.len(),
            out@ == old(out)@ + hyphenated(views(segments@).take(i as int)),
        decreases segments.len() - i,
    {
        let ghost all = views(segments@);
        assert(all.take(i + 1).drop_last() =~= all.take(i as int));
        assert(all.take(i + 1).last() == segments@[i as int]@);
        push_segment(out, segments[i].as_slice());
        assert(out@ =~= old(out)@ + hyphenated(all.take(i + 1)));
        i += 1;
    }
    assert(views(segments@).take(segments.len() as int) =~= views(segments@));
}

/// `String::from_utf8` of std: ASCII bytes are valid UTF-8 and each stands
/// for the character of the same number, so the string of ASCII bytes holds
/// exactly those characters. Of other bytes nothing is claimed.
#[verifier::external_body]
pub(crate) fn ascii_string(bytes: Vec<u8>) -> (r: String)
    ensures
        all_ascii(bytes@) ==> r@ == ascii_chars(bytes@),
{
    match String::from_utf8(bytes) {
        Ok(s) => s,
        Err(_) => String::new(),
    }
}

} // verus!
