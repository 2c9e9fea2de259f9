//! The canonical order of relationships and index fields: the order in
//! which they are encoded, whatever order the caller gave them in.

use crate::envelope::{
    distinct_keys, entries_view, entry_well_formed, relationship_well_formed,
    relationships_view, EntryView, IndexValue, Relationship, RelationshipView,
};
use crate::wire::{
    bytes_less, lemma_lex_asymmetric, lemma_lex_connected, lemma_lex_transitive,
    lemma_utf8_injective, lex_less,
};
use vstd::prelude::*;
use vstd::seq_lib::{
    to_multiset_build, to_multiset_contains, to_multiset_insert, to_multiset_len,
    to_multiset_remove,
};
use vstd::utf8::encode_utf8;

verus! {

/// Whether `before` is a strict order: nothing comes before itself, and
/// coming before is transitive.
pub open spec fn strict_order<A>(before: spec_fn(A, A) -> bool) -> bool {
    &&& forall|a: A| !#[trigger] before(a, a)
    &&& forall|a: A, b: A, c: A|
        #[trigger] before(a, b) && #[trigger] before(b, c) ==> before(a, c)
}

/// Whether no item of `s` comes before an item that stands earlier.
pub open spec fn ordered<A>(s: Seq<A>, before: spec_fn(A, A) -> bool) -> bool {
    forall|i: int, j: int| 0 <= i < j < s.len() ==> !before(#[trigger] s[j], #[trigger] s[i])
}

/// Whether any two items of `s` of which neither comes before the other
/// are the same item.
pub open spec fn connected_on<A>(s: Seq<A>, before: spec_fn(A, A) -> bool) -> bool {
    forall|i: int, j: int|
        0 <= i < s.len() && 0 <= j < s.len() && !before(#[trigger] s[i], #[trigger] s[j])
            && !before(s[j], s[i]) ==> s[i] == s[j]
}

/// Where `x` goes into `s`: in front of the first item that it comes
/// before, or at the end.
pub open spec fn insertion_point<A>(s: Seq<A>, x: A, before: spec_fn(A, A) -> bool) -> int
    decreases s.len(),
{
    if s.len() == 0 || before(x, s[0]) {
        0
    } else {
        1 + insertion_point(s.drop_first(), x, before)
    }
}

/// The items of `s` in ascending order, items of equal rank in the order
/// in which they stood.
pub open spec fn sort_with<A>(s: Seq<A>, before: spec_fn(A, A) -> bool) -> Seq<A>
    decreases s.len(),
{
    if s.len() == 0 {
        Seq::empty()
    } else {
        let front = sort_with(s.drop_last(), before);
        front.insert(insertion_point(front, s.last(), before), s.last())
    }
}

/// The insertion point lies within the sequence or at its end; `x` comes
/// before the item there and before none of the items in front of it.
pub proof fn lemma_insertion_point<A>(s: Seq<A>, x: A, before: spec_fn(A, A) -> bool)
    ensures
        0 <= insertion_point(s, x, before) <= s.len(),
        insertion_point(s, x, before) < s.len() ==> before(
            x,
            s[insertion_point(s, x, before)],
        ),
        forall|j: int| 0 <= j < insertion_point(s, x, before) ==> !before(x, #[trigger] s[j]),
    decreases s.len(),
{
    if s.len() > 0 && !before(x, s[0]) {
        let rest = s.drop_first();
        lemma_insertion_point(rest, x, before);
        let p = insertion_point(rest, x, before);
        assert forall|j: int| 0 <= j < p + 1 implies !before(x, #[trigger] s[j]) by {
            if j > 0 {
                assert(s[j] == rest[j - 1]);
            }
        }
        if p < rest.len() {
            assert(s[p + 1] == rest[p]);
        }
    }
}

/// Sorting keeps every item, as often as it occurred.
pub proof fn lemma_sort_permutes<A>(s: Seq<A>, before: spec_fn(A, A) -> bool)
    ensures
        sort_with(s, before).to_multiset() == s.to_multiset(),
        sort_with(s, before).len() == s.len(),
    decreases s.len(),
{
    if s.len() > 0 {
        let front = sort_with(s.drop_last(), before);
        lemma_sort_permutes(s.drop_last(), before);
        lemma_insertion_point(front, s.last(), before);
        to_multiset_insert(front, insertion_point(front, s.last(), before), s.last());
        to_multiset_build(s.drop_last(), s.last());
        assert(s.drop_last().push(s.last()) =~= s);
    }
    to_multiset_len(s);
    to_multiset_len(sort_with(s, before));
}

/// Sorting keeps the items: what stands in the result stood in the
/// sequence, and the other way round.
pub proof fn lemma_sort_same_items<A>(s: Seq<A>, before: spec_fn(A, A) -> bool)
    ensures
        forall|x: A| sort_with(s, before).contains(x) <==> s.contains(x),
{
    lemma_sort_permutes(s, before);
    assert forall|x: A| sort_with(s, before).contains(x) <==> s.contains(x) by {
        to_multiset_contains(s, x);
        to_multiset_contains(sort_with(s, before), x);
    }
}

/// Under a strict order the result of sorting is in ascending order.
pub proof fn lemma_sort_ordered<A>(s: Seq<A>, before: spec_fn(A, A) -> bool)
    requires
        strict_order(before),
    ensures
        ordered(sort_with(s, before), before),
    decreases s.len(),
{
    if s.len() > 0 {
        let front = sort_with(s.drop_last(), before);
        let x = s.last();
        let p = insertion_point(front, x, before);
        let out = front.insert(p, x);
        lemma_sort_ordered(s.drop_last(), before);
        lemma_insertion_point(front, x, before);
        assert forall|i: int, j: int| 0 <= i < j < out.len() implies !before(
            #[trigger] out[j],
            #[trigger] out[i],
        ) by {
            if j == p {
                // out[j] is x, out[i] stands in front of the insertion point
                assert(out[i] == front[i]);
                assert(!before(x, front[i]));
            } else if i == p {
                // out[i] is x, out[j] stands at or behind the insertion point
                assert(out[j] == front[j - 1]);
                assert(before(x, front[p]));
                if before(front[j - 1], x) {
                    assert(before(front[j - 1], front[p]));
                    assert(!before(front[p], front[p]));
                }
            } else {
                let fi = if i < p {
                    i
                } else {
                    i - 1
                };
                let fj = if j < p {
                    j
                } else {
                    j - 1
                };
                assert(out[i] == front[fi] && out[j] == front[fj]);
            }
        }
    }
}

/// Two sequences in ascending order that hold the same items as often are
/// the same sequence, if items of equal rank are equal.
pub proof fn lemma_ordered_unique<A>(x: Seq<A>, y: Seq<A>, before: spec_fn(A, A) -> bool)
    requires
        ordered(x, before),
        ordered(y, before),
        connected_on(x, before),
        x.to_multiset() == y.to_multiset(),
    ensures
        x == y,
    decreases x.len(),
{
    to_multiset_len(x);
    to_multiset_len(y);
    if x.len() == 0 {
        assert(x =~= y);
    } else {
        to_multiset_contains(x, x[0]);
        to_multiset_contains(x, y[0]);
        to_multiset_contains(y, x[0]);
        to_multiset_contains(y, y[0]);
        assert(x.contains(x[0]));
        assert(y.contains(y[0]));
        let i = choose|i: int| 0 <= i < x.len() && x[i] == y[0];
        let j = choose|j: int| 0 <= j < y.len() && y[j] == x[0];
        // x[0] is no later than x[i], and y[0] no later than y[j]
        assert(i > 0 ==> !before(x[i], x[0]));
        assert(j > 0 ==> !before(y[j], y[0]));
        assert(!before(x[0], x[i]) || i == 0) by {
            if j > 0 {
                assert(!before(y[j], y[0]));
            }
        }
        assert(x[0] == x[i]);
        to_multiset_remove(x, 0);
        to_multiset_remove(y, 0);
        assert(x.remove(0) =~= x.drop_first());
        assert(y.remove(0) =~= y.drop_first());
        let xs = x.drop_first();
        let ys = y.drop_first();
        assert forall|a: int, b: int| 0 <= a < b < xs.len() implies !before(
            #[trigger] xs[b],
            #[trigger] xs[a],
        ) by {
            assert(xs[a] == x[a + 1] && xs[b] == x[b + 1]);
        }
        assert forall|a: int, b: int| 0 <= a < b < ys.len() implies !before(
            #[trigger] ys[b],
            #[trigger] ys[a],
        ) by {
            assert(ys[a] == y[a + 1] && ys[b] == y[b + 1]);
        }
        assert forall|a: int, b: int|
            0 <= a < xs.len() && 0 <= b < xs.len() && !before(#[trigger] xs[a], #[trigger] xs[b])
                && !before(xs[b], xs[a]) implies xs[a] == xs[b] by {
            assert(xs[a] == x[a + 1] && xs[b] == x[b + 1]);
        }
        lemma_ordered_unique(xs, ys, before);
        assert(x =~= seq![x[0]] + xs);
        assert(y =~= seq![y[0]] + ys);
    }
}

/// Whether `a` comes before `b` in canonical order: by the UTF-8 bytes of
/// the kind, then by the bytes of the target.
pub open spec fn relationship_before(a: RelationshipView, b: RelationshipView) -> bool {
    let ka = encode_utf8(a.rel_type);
    let kb = encode_utf8(b.rel_type);
    lex_less(ka, kb) || (ka == kb && lex_less(a.target, b.target))
}

/// Whether the field `a` comes before the field `b` in canonical order: by
/// the UTF-8 bytes of the key.
pub open spec fn entry_before(a: EntryView, b: EntryView) -> bool {
    lex_less(encode_utf8(a.0), encode_utf8(b.0))
}

/// The canonical order of relationships, as a relation.
pub open spec fn relationship_order() -> spec_fn(RelationshipView, RelationshipView) -> bool {
    |a: RelationshipView, b: RelationshipView| relationship_before(a, b)
}

/// The canonical order of index fields, as a relation.
pub open spec fn entry_order() -> spec_fn(EntryView, EntryView) -> bool {
    |a: EntryView, b: EntryView| entry_before(a, b)
}

/// The relationships in canonical order.
pub open spec fn canonical_relationships(rels: Seq<RelationshipView>) -> Seq<RelationshipView> {
    sort_with(rels, relationship_order())
}

/// The index fields in canonical order.
pub open spec fn canonical_index(entries: Seq<EntryView>) -> Seq<EntryView> {
    sort_with(entries, entry_order())
}

/// The canonical order of relationships is a strict order in which two
/// relationships of equal rank are equal.
pub proof fn lemma_relationship_order()
    ensures
        strict_order(relationship_order()),
        forall|a: RelationshipView, b: RelationshipView|
            !relationship_before(a, b) && !relationship_before(b, a) ==> a == b,
{
    let before = relationship_order();
    assert forall|a: RelationshipView| !#[trigger] before(a, a) by {
        lemma_lex_asymmetric(encode_utf8(a.rel_type), encode_utf8(a.rel_type));
        lemma_lex_asymmetric(a.target, a.target);
    }
    assert forall|a: RelationshipView, b: RelationshipView, c: RelationshipView|
        #[trigger] before(a, b) && #[trigger] before(b, c) implies before(a, c) by {
        let ka = encode_utf8(a.rel_type);
        let kb = encode_utf8(b.rel_type);
        let kc = encode_utf8(c.rel_type);
        if lex_less(ka, kb) && lex_less(kb, kc) {
            lemma_lex_transitive(ka, kb, kc);
        } else if ka == kb && kb == kc {
            lemma_lex_transitive(a.target, b.target, c.target);
        }
    }
    assert forall|a: RelationshipView, b: RelationshipView|
        !relationship_before(a, b) && !relationship_before(b, a) implies a == b by {
        let ka = encode_utf8(a.rel_type);
        let kb = encode_utf8(b.rel_type);
        lemma_lex_connected(ka, kb);
        lemma_utf8_injective(a.rel_type, b.rel_type);
        lemma_lex_connected(a.target, b.target);
    }
}

/// The canonical order of index fields is a strict order in which two
/// fields of equal rank have the same key.
pub proof fn lemma_entry_order()
    ensures
        strict_order(entry_order()),
        forall|a: EntryView, b: EntryView|
            !entry_before(a, b) && !entry_before(b, a) ==> a.0 == b.0,
{
    let before = entry_order();
    assert forall|a: EntryView| !#[trigger] before(a, a) by {
        lemma_lex_asymmetric(encode_utf8(a.0), encode_utf8(a.0));
    }
    assert forall|a: EntryView, b: EntryView, c: EntryView|
        #[trigger] before(a, b) && #[trigger] before(b, c) implies before(a, c) by {
        lemma_lex_transitive(encode_utf8(a.0), encode_utf8(b.0), encode_utf8(c.0));
    }
    assert forall|a: EntryView, b: EntryView|
        !entry_before(a, b) && !entry_before(b, a) implies a.0 == b.0 by {
        lemma_lex_connected(encode_utf8(a.0), encode_utf8(b.0));
        lemma_utf8_injective(a.0, b.0);
    }
}

/// Canonical order keeps the relationships: as many as before, each one
/// that can be encoded still one that can.
pub proof fn lemma_canonical_relationships(rels: Seq<RelationshipView>)
    ensures
        canonical_relationships(rels).len() == rels.len(),
        canonical_relationships(rels).to_multiset() == rels.to_multiset(),
        ordered(canonical_relationships(rels), relationship_order()),
        (forall|i: int| 0 <= i < rels.len() ==> relationship_well_formed(#[trigger] rels[i]))
            ==> (forall|i: int|
            0 <= i < rels.len() ==> relationship_well_formed(
                #[trigger] canonical_relationships(rels)[i],
            )),
{
    let sorted = canonical_relationships(rels);
    lemma_relationship_order();
    lemma_sort_permutes(rels, relationship_order());
    lemma_sort_ordered(rels, relationship_order());
    lemma_sort_same_items(rels, relationship_order());
    if forall|i: int| 0 <= i < rels.len() ==> relationship_well_formed(#[trigger] rels[i]) {
        assert forall|i: int| 0 <= i < rels.len() implies relationship_well_formed(
            #[trigger] sorted[i],
        ) by {
            assert(rels.contains(sorted[i]));
        }
    }
}

/// Canonical order keeps the index fields: as many as before, each one
/// that can be encoded still one that can, and no key twice if none was.
pub proof fn lemma_canonical_index(entries: Seq<EntryView>)
    ensures
        canonical_index(entries).len() == entries.len(),
        canonical_index(entries).to_multiset() == entries.to_multiset(),
        ordered(canonical_index(entries), entry_order()),
        (forall|i: int| 0 <= i < entries.len() ==> entry_well_formed(#[trigger] entries[i]))
            ==> (forall|i: int|
            0 <= i < entries.len() ==> entry_well_formed(#[trigger] canonical_index(entries)[i])),
        distinct_keys(entries) ==> distinct_keys(canonical_index(entries)),
{
    let sorted = canonical_index(entries);
    lemma_entry_order();
    lemma_sort_permutes(entries, entry_order());
    lemma_sort_ordered(entries, entry_order());
    lemma_sort_same_items(entries, entry_order());
    if forall|i: int| 0 <= i < entries.len() ==> entry_well_formed(#[trigger] entries[i]) {
        assert forall|i: int| 0 <= i < entries.len() implies entry_well_formed(
            #[trigger] sorted[i],
        ) by {
            assert(entries.contains(sorted[i]));
        }
    }
    if distinct_keys(entries) {
        assert forall|i: int, j: int| 0 <= i < j < sorted.len() implies (#[trigger] sorted[i]).0
            != (#[trigger] sorted[j]).0 by {
            assert(entries.contains(sorted[i]));
            assert(entries.contains(sorted[j]));
            let a = choose|a: int| 0 <= a < entries.len() && entries[a] == sorted[i];
            let b = choose|b: int| 0 <= b < entries.len() && entries[b] == sorted[j];
            if sorted[i].0 == sorted[j].0 {
                // the same key stands but once in `entries`, so the two are one
                // field, which then occurs twice in the result and once in
                // `entries`
                lemma_twice_in_multiset(sorted, i, j);
                lemma_distinct_keys_once(entries, a);
            }
        }
    }
}

/// An item that stands at two places occurs at least twice.
proof fn lemma_twice_in_multiset<A>(s: Seq<A>, i: int, j: int)
    requires
        0 <= i < j < s.len(),
        s[i] == s[j],
    ensures
        s.to_multiset().count(s[i]) >= 2,
{
    to_multiset_remove(s, j);
    let rest = s.remove(j);
    assert(rest[i] == s[i]);
    to_multiset_contains(rest, s[i]);
}

/// Where no key occurs twice, no field occurs twice.
proof fn lemma_distinct_keys_once(entries: Seq<EntryView>, a: int)
    requires
        distinct_keys(entries),
        0 <= a < entries.len(),
    ensures
        entries.to_multiset().count(entries[a]) == 1,
{
    to_multiset_remove(entries, a);
    let rest = entries.remove(a);
    to_multiset_contains(rest, entries[a]);
    to_multiset_contains(entries, entries[a]);
    assert(entries.contains(entries[a]));
    if rest.contains(entries[a]) {
        let k = choose|k: int| 0 <= k < rest.len() && rest[k] == entries[a];
        if k < a {
            assert(rest[k] == entries[k]);
        } else {
            assert(rest[k] == entries[k + 1]);
        }
    }
}

/// The mathematical values of borrowed relationships.
pub open spec fn relationship_refs_view(refs: Seq<&Relationship>) -> Seq<RelationshipView> {
    Seq::new(refs.len(), |i: int| refs[i]@)
}

/// The mathematical values of borrowed index fields.
pub open spec fn entry_refs_view(refs: Seq<&(String, IndexValue)>) -> Seq<EntryView> {
    Seq::new(refs.len(), |i: int| (refs[i].0@, refs[i].1@))
}

/// Whether `a` comes before `b` in canonical order.
pub fn relationship_precedes(a: &Relationship, b: &Relationship) -> (first: bool)
    ensures
        first == relationship_before(a@, b@),
{
    let ka = a.rel_type.as_str().as_bytes();
    let kb = b.rel_type.as_str().as_bytes();
    if bytes_less(ka, kb) {
        true
    } else if bytes_less(kb, ka) {
        proof {
            lemma_lex_asymmetric(ka@, kb@);
            lemma_lex_asymmetric(ka@, ka@);
        }
        false
    } else {
        proof {
            lemma_lex_connected(ka@, kb@);
        }
        bytes_less(a.target.as_bytes().as_slice(), b.target.as_bytes().as_slice())
    }
}

/// Whether the field `a` comes before the field `b` in canonical order.
pub fn entry_precedes(a: &(String, IndexValue), b: &(String, IndexValue)) -> (first: bool)
    ensures
        first == entry_before((a.0@, a.1@), (b.0@, b.1@)),
{
    bytes_less(a.0.as_str().as_bytes(), b.0.as_str().as_bytes())
}

/// The relationships of `rels` in canonical order.
pub fn sorted_relationships<'a>(rels: &'a Vec<Relationship>) -> (sorted: Vec<&'a Relationship>)
    ensures
        relationship_refs_view(sorted@) == canonical_relationships(relationships_view(rels@)),
{
    let ghost all = relationships_view(rels@);
    let ghost before = relationship_order();
    let mut sorted: Vec<&'a Relationship> = Vec::new();
    let mut i: usize = 0;
    assert(relationship_refs_view(sorted@) =~= sort_with(all.take(0), before));
    while i < rels.len()
        invariant
            i <= rels@.len(),
            all == relationships_view(rels@),
            before == relationship_order(),
            relationship_refs_view(sorted@) == sort_with(all.take(i as int), before),
        decreases rels@.len() - i,
    {
        let item = &rels[i];
        let ghost front = relationship_refs_view(sorted@);
        let mut p: usize = 0;
        let mut found = false;
        assert(front.skip(0) =~= front);
        while p < sorted.len() && !found
            invariant
                p <= sorted@.len(),
                front == relationship_refs_view(sorted@),
                before == relationship_order(),
                insertion_point(front, item@, before) == p + insertion_point(
                    front.skip(p as int),
                    item@,
                    before,
                ),
                found ==> p < sorted@.len() && before(item@, front[p as int]),
            decreases sorted@.len() - p + (if found { 0int } else { 1int }),
        {
            assert(front.skip(p as int)[0] == front[p as int]);
            if relationship_precedes(item, sorted[p]) {
                found = true;
            } else {
                assert(front.skip(p as int).drop_first() =~= front.skip(p + 1));
                p += 1;
            }
        }
        assert(insertion_point(front, item@, before) == p) by {
            if found {
                assert(front.skip(p as int)[0] == front[p as int]);
            }
        }
        sorted.insert(p, item);
        proof {
            assert(relationship_refs_view(sorted@) =~= front.insert(p as int, item@));
            assert(all.take(i + 1).drop_last() =~= all.take(i as int));
            assert(all.take(i + 1).last() == item@);
        }
        i += 1;
    }
    assert(all.take(i as int) =~= all);
    sorted
}

/// The index fields of `entries` in canonical order.
pub fn sorted_entries<'a>(entries: &'a Vec<(String, IndexValue)>) -> (sorted: Vec<
    &'a (String, IndexValue),
>)
    ensures
        entry_refs_view(sorted@) == canonical_index(entries_view(entries@)),
{
    let ghost all = entries_view(entries@);
    let ghost before = entry_order();
    let mut sorted: Vec<&'a (String, IndexValue)> = Vec::new();
    let mut i: usize = 0;
    assert(entry_refs_view(sorted@) =~= sort_with(all.take(0), before));
    while i < entries.len()
        invariant
            i <= entries@.len(),
            all == entries_view(entries@),
            before == entry_order(),
            entry_refs_view(sorted@) == sort_with(all.take(i as int), before),
        decreases entries@.len() - i,
    {
        let item = &entries[i];
        let ghost item_view = (item.0@, item.1@);
        let ghost front = entry_refs_view(sorted@);
        let mut p: usize = 0;
        let mut found = false;
        assert(front.skip(0) =~= front);
        while p < sorted.len() && !found
            invariant
                p <= sorted@.len(),
                front == entry_refs_view(sorted@),
                before == entry_order(),
                item_view == (item.0@, item.1@),
                insertion_point(front, item_view, before) == p + insertion_point(
                    front.skip(p as int),
                    item_view,
                    before,
                ),
                found ==> p < sorted@.len() && before(item_view, front[p as int]),
            decreases sorted@.len() - p + (if found { 0int } else { 1int }),
        {
            assert(front.skip(p as int)[0] == front[p as int]);
            if entry_precedes(item, sorted[p]) {
                found = true;
            } else {
                assert(front.skip(p as int).drop_first() =~= front.skip(p + 1));
                p += 1;
            }
        }
        assert(insertion_point(front, item_view, before) == p) by {
            if found {
                assert(front.skip(p as int)[0] == front[p as int]);
            }
        }
        sorted.insert(p, item);
        proof {
            assert(entry_refs_view(sorted@) =~= front.insert(p as int, item_view));
            assert(all.take(i + 1).drop_last() =~= all.take(i as int));
            assert(all.take(i + 1).last() == item_view);
        }
        i += 1;
    }
    assert(all.take(i as int) =~= all);
    sorted
}

} // verus!
