//! Sorted lists of keyed entries: the shape in which every extension keeps
//! its subtags. An entry is a key followed by its values; a list holds each
//! key once, the keys in ascending order.

use crate::text::{
    bytes_eq, bytes_lt, copy_bytes, copy_list, hyphenated, lemma_hyphenated_concat,
    lemma_lex_irreflexive, lemma_lex_total, lemma_lex_transitive, lex_lt, list_eq, push_segment,
    push_segments, views, HYPHEN,
};
use vstd::prelude::*;

verus! {

/// A key and its values, as mathematical values.
pub struct EntryView {
    pub key: Seq<u8>,
    pub values: Seq<Seq<u8>>,
}

/// A key and its values.
#[derive(Debug)]
pub struct Entry {
    pub key: Vec<u8>,
    pub values: Vec<Vec<u8>>,
}

impl View for Entry {
    type V = EntryView;

    open spec fn view(&self) -> EntryView {
        EntryView { key: self.key@, values: views(self.values@) }
    }
}

/// The entries held by a vector.
pub open spec fn entry_views(list: Seq<Entry>) -> Seq<EntryView> {
    Seq::new(list.len(), |i: int| list[i]@)
}

/// The keys ascend strictly, so no key occurs twice.
pub open spec fn sorted(list: Seq<EntryView>) -> bool {
    forall|i: int, j: int| 0 <= i < j < list.len() ==> lex_lt(#[trigger] list[i].key, #[trigger] list[j].key)
}

/// Some entry of the list has this key.
pub open spec fn has_key(list: Seq<EntryView>, key: Seq<u8>) -> bool {
    exists|i: int| 0 <= i < list.len() && #[trigger] list[i].key == key
}

/// The number of leading entries whose key comes before `key`: in a sorted
/// list, the place of the key, or the place where it would go.
pub open spec fn slot(list: Seq<EntryView>, key: Seq<u8>) -> int
    decreases list.len(),
{
    if list.len() > 0 && lex_lt(list[0].key, key) {
        1 + slot(list.drop_first(), key)
    } else {
        0
    }
}

/// The entry of a key, if the list has one at the place of the key.
pub open spec fn lookup(list: Seq<EntryView>, key: Seq<u8>) -> Option<EntryView> {
    let at = slot(list, key);
    if at < list.len() && list[at].key == key {
        Some(list[at])
    } else {
        None
    }
}

/// The list with the entry put at the place of its key: over the entry that
/// has the key, if there is one, and between its neighbours otherwise.
pub open spec fn put(list: Seq<EntryView>, entry: EntryView) -> Seq<EntryView> {
    let at = slot(list, entry.key);
    if at < list.len() && list[at].key == entry.key {
        list.update(at, entry)
    } else {
        list.insert(at, entry)
    }
}

/// The list without the entry of this key.
pub open spec fn without(list: Seq<EntryView>, key: Seq<u8>) -> Seq<EntryView> {
    let at = slot(list, key);
    if at < list.len() && list[at].key == key {
        list.remove(at)
    } else {
        list
    }
}

/// The segments that an entry is written as: its key, then its values.
pub open spec fn entry_segments(entry: EntryView) -> Seq<Seq<u8>> {
    seq![entry.key] + entry.values
}

/// The segments that a list is written as, entry by entry.
pub open spec fn list_segments(list: Seq<EntryView>) -> Seq<Seq<u8>>
    decreases list.len(),
{
    if list.len() == 0 {
        Seq::<Seq<u8>>::empty()
    } else {
        list_segments(list.drop_last()) + entry_segments(list.last())
    }
}

/// What the slot of a key is: every entry before it has a smaller key, and
/// the entry at it, if any, has not.
pub proof fn lemma_slot(list: Seq<EntryView>, key: Seq<u8>)
    ensures
        0 <= slot(list, key) <= list.len(),
        forall|i: int| 0 <= i < slot(list, key) ==> lex_lt(#[trigger] list[i].key, key),
        slot(list, key) < list.len() ==> !lex_lt(list[slot(list, key)].key, key),
    decreases list.len(),
{
    if list.len() > 0 && lex_lt(list[0].key, key) {
        let rest = list.drop_first();
        lemma_slot(rest, key);
        assert forall|i: int| 0 <= i < slot(list, key) implies lex_lt(#[trigger] list[i].key, key) by {
            if i > 0 {
                assert(list[i] == rest[i - 1]);
            }
        }
        if slot(list, key) < list.len() {
            assert(list[slot(list, key)] == rest[slot(rest, key)]);
        }
    }
}

/// In a sorted list a key is present exactly if it stands at its slot, and
/// every entry from the slot on that has another key has a greater one.
pub proof fn lemma_slot_sorted(list: Seq<EntryView>, key: Seq<u8>)
    requires
        sorted(list),
    ensures
        has_key(list, key) <==> (slot(list, key) < list.len() && list[slot(list, key)].key == key),
        forall|j: int|
            slot(list, key) <= j < list.len() && #[trigger] list[j].key != key ==> lex_lt(
                key,
                list[j].key,
            ),
        forall|j: int| slot(list, key) < j < list.len() ==> #[trigger] list[j].key != key,
{
    lemma_slot(list, key);
    let at = slot(list, key);
    assert forall|j: int| at <= j < list.len() && #[trigger] list[j].key != key implies lex_lt(
        key,
        list[j].key,
    ) by {
        if lex_lt(list[j].key, key) {
            if at < j {
                lemma_lex_transitive(list[at].key, list[j].key, key);
            }
        } else {
            if !lex_lt(key, list[j].key) {
                lemma_lex_total(key, list[j].key);
            }
        }
    }
    assert forall|j: int| at < j < list.len() implies #[trigger] list[j].key != key by {
        if list[j].key == key {
            assert(lex_lt(list[at].key, list[j].key));
        }
    }
    if has_key(list, key) {
        let i = choose|i: int| 0 <= i < list.len() && #[trigger] list[i].key == key;
        if i < at {
            lemma_lex_irreflexive(key);
        }
    }
}

/// Putting an entry keeps a list sorted; the new list holds the key, and
/// every other key exactly if the old list held it.
pub proof fn lemma_put(list: Seq<EntryView>, entry: EntryView)
    requires
        sorted(list),
    ensures
        sorted(put(list, entry)),
        has_key(put(list, entry), entry.key),
        forall|key: Seq<u8>| key != entry.key ==> (has_key(put(list, entry), key) <==> has_key(list, key)),
        put(list, entry).len() == list.len() + (if has_key(list, entry.key) { 0int } else { 1int }),
        forall|i: int|
            0 <= i < put(list, entry).len() ==> #[trigger] put(list, entry)[i] == entry
                || list.contains(put(list, entry)[i]),
{
    lemma_slot(list, entry.key);
    lemma_slot_sorted(list, entry.key);
    let at = slot(list, entry.key);
    let after = put(list, entry);
    assert(after[at] == entry);
    assert forall|i: int| 0 <= i < after.len() implies #[trigger] after[i] == entry || list.contains(
        after[i],
    ) by {
        if at < list.len() && list[at].key == entry.key {
            if i != at {
                assert(after[i] == list[i]);
            }
        } else {
            if i < at {
                assert(after[i] == list[i]);
            } else if i > at {
                assert(after[i] == list[i - 1]);
            }
        }
    }
    if at < list.len() && list[at].key == entry.key {
        assert forall|i: int, j: int| 0 <= i < j < after.len() implies lex_lt(
            #[trigger] after[i].key,
            #[trigger] after[j].key,
        ) by {
            assert(after[i].key == list[i].key && after[j].key == list[j].key);
        }
        assert forall|key: Seq<u8>| key != entry.key implies (has_key(after, key) <==> has_key(list, key)) by {
            if has_key(after, key) {
                let i = choose|i: int| 0 <= i < after.len() && #[trigger] after[i].key == key;
                assert(list[i].key == key);
            }
            if has_key(list, key) {
                let i = choose|i: int| 0 <= i < list.len() && #[trigger] list[i].key == key;
                assert(after[i].key == key);
            }
        }
    } else {
        assert forall|i: int, j: int| 0 <= i < j < after.len() implies lex_lt(
            #[trigger] after[i].key,
            #[trigger] after[j].key,
        ) by {
            if j < at {
                assert(after[i] == list[i] && after[j] == list[j]);
            } else if j == at {
                assert(after[i] == list[i]);
            } else if i < at {
                assert(after[i] == list[i] && after[j] == list[j - 1]);
            } else if i == at {
                assert(after[j] == list[j - 1]);
            } else {
                assert(after[i] == list[i - 1] && after[j] == list[j - 1]);
            }
        }
        assert forall|key: Seq<u8>| key != entry.key implies (has_key(after, key) <==> has_key(list, key)) by {
            if has_key(after, key) {
                let i = choose|i: int| 0 <= i < after.len() && #[trigger] after[i].key == key;
                if i < at {
                    assert(list[i].key == key);
                } else {
                    assert(list[i - 1].key == key);
                }
            }
            if has_key(list, key) {
                let i = choose|i: int| 0 <= i < list.len() && #[trigger] list[i].key == key;
                if i < at {
                    assert(after[i].key == key);
                } else {
                    assert(after[i + 1].key == key);
                }
            }
        }
    }
}

/// Taking a key out keeps a list sorted; the new list lacks the key, and
/// holds every other key exactly if the old list held it.
pub proof fn lemma_without(list: Seq<EntryView>, key: Seq<u8>)
    requires
        sorted(list),
    ensures
        sorted(without(list, key)),
        !has_key(without(list, key), key),
        forall|other: Seq<u8>| other != key ==> (has_key(without(list, key), other) <==> has_key(list, other)),
        forall|i: int| 0 <= i < without(list, key).len() ==> list.contains(#[trigger] without(list, key)[i]),
{
    lemma_slot(list, key);
    lemma_slot_sorted(list, key);
    let at = slot(list, key);
    let after = without(list, key);
    if at < list.len() && list[at].key == key {
        assert forall|i: int, j: int| 0 <= i < j < after.len() implies lex_lt(
            #[trigger] after[i].key,
            #[trigger] after[j].key,
        ) by {
            let i0 = if i < at { i } else { i + 1 };
            let j0 = if j < at { j } else { j + 1 };
            assert(after[i] == list[i0] && after[j] == list[j0]);
        }
        if has_key(after, key) {
            let i = choose|i: int| 0 <= i < after.len() && #[trigger] after[i].key == key;
            let i0 = if i < at { i } else { i + 1 };
            assert(after[i] == list[i0]);
            if i0 < at {
                lemma_lex_irreflexive(key);
            }
        }
        assert forall|other: Seq<u8>| other != key implies (has_key(after, other) <==> has_key(list, other)) by {
            if has_key(after, other) {
                let i = choose|i: int| 0 <= i < after.len() && #[trigger] after[i].key == other;
                let i0 = if i < at { i } else { i + 1 };
                assert(list[i0].key == other);
            }
            if has_key(list, other) {
                let i = choose|i: int| 0 <= i < list.len() && #[trigger] list[i].key == other;
                let i1 = if i < at { i } else { i - 1 };
                assert(after[i1].key == other);
            }
        }
        assert forall|i: int| 0 <= i < after.len() implies list.contains(#[trigger] after[i]) by {
            let i0 = if i < at { i } else { i + 1 };
            assert(list[i0] == after[i]);
        }
    } else {
        assert forall|i: int| 0 <= i < after.len() implies list.contains(#[trigger] after[i]) by {
            assert(list[i] == after[i]);
        }
    }
}

/// The segments of two lists of entries, one after the other.
pub proof fn lemma_list_segments_concat(a: Seq<EntryView>, b: Seq<EntryView>)
    ensures
        list_segments(a + b) == list_segments(a) + list_segments(b),
    decreases b.len(),
{
    if b.len() == 0 {
        assert(a + b =~= a);
        assert(list_segments(a) + list_segments(b) =~= list_segments(a));
    } else {
        lemma_list_segments_concat(a, b.drop_last());
        assert((a + b).drop_last() =~= a + b.drop_last());
        assert((a + b).last() == b.last());
        assert(list_segments(a + b) =~= list_segments(a) + list_segments(b));
    }
}

/// The segments of a list start with those of its first entry.
pub proof fn lemma_list_segments_front(list: Seq<EntryView>)
    requires
        list.len() > 0,
    ensures
        list_segments(list) == entry_segments(list[0]) + list_segments(list.drop_first()),
        list_segments(list).len() >= 1,
        list_segments(list)[0] == list[0].key,
{
    let one = seq![list[0]];
    assert(one.drop_last().len() == 0);
    assert(list_segments(one.drop_last()) =~= Seq::<Seq<u8>>::empty());
    assert(one.last() == list[0]);
    assert(list_segments(one) =~= entry_segments(list[0]));
    assert(list =~= one + list.drop_first());
    lemma_list_segments_concat(one, list.drop_first());
}

/// A list has at least as many segments as entries.
pub proof fn lemma_list_segments_len(list: Seq<EntryView>)
    ensures
        list_segments(list).len() >= list.len(),
    decreases list.len(),
{
    if list.len() > 0 {
        lemma_list_segments_len(list.drop_last());
    }
}

/// Key and values of the entry have the property.
pub open spec fn entry_all(entry: EntryView, p: spec_fn(Seq<u8>) -> bool) -> bool {
    p(entry.key) && forall|j: int| 0 <= j < entry.values.len() ==> p(#[trigger] entry.values[j])
}

/// Every segment of a list has a property that the key and the values of
/// every entry have.
pub proof fn lemma_list_segments_all(list: Seq<EntryView>, p: spec_fn(Seq<u8>) -> bool)
    requires
        forall|i: int| 0 <= i < list.len() ==> entry_all(#[trigger] list[i], p),
    ensures
        forall|k: int| 0 <= k < list_segments(list).len() ==> p(#[trigger] list_segments(list)[k]),
    decreases list.len(),
{
    if list.len() > 0 {
        let front = list.drop_last();
        assert forall|i: int| 0 <= i < front.len() implies entry_all(#[trigger] front[i], p) by {
            assert(front[i] == list[i]);
        }
        lemma_list_segments_all(front, p);
        let last = list.last();
        assert(entry_all(last, p));
        let before = list_segments(front);
        let all = list_segments(list);
        assert forall|k: int| 0 <= k < all.len() implies p(#[trigger] all[k]) by {
            if k < before.len() {
                assert(all[k] == before[k]);
            } else if k == before.len() {
                assert(all[k] == last.key);
            } else {
                assert(all[k] == last.values[k - before.len() - 1]);
            }
        }
    }
}

/// Finds the slot of a key, and tells whether the key stands there.
pub fn find_slot(list: &Vec<Entry>, key: &[u8]) -> (r: (usize, bool))
    ensures
        r.0 == slot(entry_views(list@), key@),
        r.0 <= list.len(),
        r.1 == (r.0 < list.len() && list@[r.0 as int].key@ == key@),
{
    let ghost all = entry_views(list@);
    let mut i: usize = 0;
    assert(all.skip(0) =~= all);
    while i < list.len() && bytes_lt(list[i].key.as_slice(), key)
        invariant
            i <= list.len(),
            all == entry_views(list@),
            slot(all, key@) == i + slot(all.skip(i as int), key@),
        decreases list.len() - i,
    {
        assert(all.skip(i as int)[0] == all[i as int]);
        assert(all.skip(i as int).drop_first() =~= all.skip(i + 1));
        i += 1;
    }
    if i < list.len() {
        assert(all.skip(i as int)[0] == all[i as int]);
        (i, bytes_eq(list[i].key.as_slice(), key))
    } else {
        (i, false)
    }
}

/// A copy of an entry.
pub fn copy_entry(entry: &Entry) -> (r: Entry)
    ensures
        r@ == entry@,
{
    Entry { key: copy_bytes(entry.key.as_slice()), values: copy_list(&entry.values) }
}

/// A copy of a list of entries.
pub fn copy_entries(list: &Vec<Entry>) -> (r: Vec<Entry>)
    ensures
        entry_views(r@) == entry_views(list@),
{
    let mut out: Vec<Entry> = Vec::new();
    let mut i: usize = 0;
    while i < list.len()
        invariant
            i <= list.len(),
            out.len() == i,
            forall|j: int| 0 <= j < i ==> out@[j]@ == list@[j]@,
        decreases list.len() - i,
    {
        out.push(copy_entry(&list[i]));
        i += 1;
    }
    assert(entry_views(out@) =~= entry_views(list@));
    out
}

/// Tells whether two lists of entries are equal.
pub fn entries_eq(a: &Vec<Entry>, b: &Vec<Entry>) -> (r: bool)
    ensures
        r == (entry_views(a@) == entry_views(b@)),
{
    if a.len() != b.len() {
        assert(entry_views(a@).len() != entry_views(b@).len());
        return false;
    }
    let mut i: usize = 0;
    while i < a.len()
        invariant
            i <= a.len(),
            a.len() == b.len(),
            forall|j: int| 0 <= j < i ==> a@[j]@ == b@[j]@,
        decreases a.len() - i,
    {
        if !bytes_eq(a[i].key.as_slice(), b[i].key.as_slice()) || !list_eq(&a[i].values, &b[i].values) {
            assert(entry_views(a@)[i as int] != entry_views(b@)[i as int]);
            return false;
        }
        i += 1;
    }
    assert(entry_views(a@) =~= entry_views(b@));
    true
}

/// The list with the entry put at the place of its key.
pub fn put_entry(list: &mut Vec<Entry>, entry: Entry)
    ensures
        entry_views(final(list)@) == put(entry_views(old(list)@), entry@),
{
    let (at, found) = find_slot(list, entry.key.as_slice());
    if found {
        list.set(at, entry);
    } else {
        list.insert(at, entry);
    }
    assert(entry_views(list@) =~= put(entry_views(old(list)@), entry@));
}

/// Takes the entry of a key out of the list, and tells whether there was one.
pub fn remove_entry(list: &mut Vec<Entry>, key: &[u8]) -> (found: bool)
    ensures
        entry_views(final(list)@) == without(entry_views(old(list)@), key@),
        found == (slot(entry_views(old(list)@), key@) < old(list).len() && entry_views(
            old(list)@,
        )[slot(entry_views(old(list)@), key@)].key == key@),
{
    let (at, found) = find_slot(list, key);
    if found {
        list.remove(at);
    }
    assert(entry_views(list@) =~= without(entry_views(old(list)@), key@));
    found
}

/// Appends the segments of every entry, each with a hyphen before it.
pub fn push_entries(out: &mut Vec<u8>, list: &Vec<Entry>)
    ensures
        final(out)@ == old(out)@ + hyphenated(list_segments(entry_views(list@))),
{
    let ghost all = entry_views(list@);
    let mut i: usize = 0;
    assert(all.take(0) =~= Seq::<EntryView>::empty());
    assert(hyphenated(list_segments(all.take(0))) =~= Seq::<u8>::empty());
    while i < list.len()
        invariant
            i <= list.len(),
            all == entry_views(list@),
            out@ == old(out)@ + hyphenated(list_segments(all.take(i as int))),
        decreases list.len() - i,
    {
        let ghost before = list_segments(all.take(i as int));
        assert(all.take(i + 1).drop_last() =~= all.take(i as int));
        assert(all.take(i + 1).last() == list@[i as int]@);
        push_segment(out, list[i].key.as_slice());
        push_segments(out, &list[i].values);
        proof {
            let key = list@[i as int]@.key;
            let values = list@[i as int]@.values;
            lemma_hyphenated_concat(before, seq![key]);
            lemma_hyphenated_concat(before + seq![key], values);
            assert(seq![key].drop_last().len() == 0);
            assert(seq![key].last() == key);
            assert(hyphenated(seq![key].drop_last()) =~= Seq::<u8>::empty());
            assert(hyphenated(seq![key]) =~= seq![HYPHEN] + key);
            assert(before + entry_segments(list@[i as int]@) =~= before + seq![key] + values);
        }
        i += 1;
    }
    assert(all.take(list.len() as int) =~= all);
}

} // verus!
