//! The order of texts, stable sorting by a textual key, and removal of repeats.

use vstd::hash_set::StringHashSet;
use vstd::prelude::*;
use vstd::relations::*;
use vstd::seq_lib::*;

use crate::text::chars_of;

verus! {

// ---------------------------------------------------------------------------
// The order of texts
// ---------------------------------------------------------------------------

/// Whether `a` stands before `b` in a dictionary that goes by the code points of
/// the characters, or is equal to it.
pub open spec fn text_le(a: Seq<char>, b: Seq<char>) -> bool
    decreases a.len(),
{
    if a.len() == 0 {
        true
    } else if b.len() == 0 {
        false
    } else if a[0] != b[0] {
        a[0] < b[0]
    } else {
        text_le(a.skip(1), b.skip(1))
    }
}

/// The order of texts as a relation.
pub open spec fn text_order() -> spec_fn(Seq<char>, Seq<char>) -> bool {
    |a: Seq<char>, b: Seq<char>| text_le(a, b)
}

proof fn lemma_text_le_reflexive(a: Seq<char>)
    ensures
        text_le(a, a),
    decreases a.len(),
{
    if a.len() > 0 {
        lemma_text_le_reflexive(a.skip(1));
    }
}

proof fn lemma_text_le_total(a: Seq<char>, b: Seq<char>)
    ensures
        text_le(a, b) || text_le(b, a),
    decreases a.len(),
{
    if a.len() > 0 && b.len() > 0 && a[0] == b[0] {
        lemma_text_le_total(a.skip(1), b.skip(1));
    }
}

proof fn lemma_text_le_antisymmetric(a: Seq<char>, b: Seq<char>)
    requires
        text_le(a, b),
        text_le(b, a),
    ensures
        a == b,
    decreases a.len(),
{
    if a.len() > 0 && b.len() > 0 {
        lemma_text_le_antisymmetric(a.skip(1), b.skip(1));
        assert(a =~= seq![a[0]] + a.skip(1));
        assert(b =~= seq![b[0]] + b.skip(1));
    } else {
        assert(a =~= b);
    }
}

proof fn lemma_text_le_transitive(a: Seq<char>, b: Seq<char>, c: Seq<char>)
    requires
        text_le(a, b),
        text_le(b, c),
    ensures
        text_le(a, c),
    decreases a.len(),
{
    if a.len() > 0 && b.len() > 0 && c.len() > 0 && a[0] == b[0] && b[0] == c[0] {
        lemma_text_le_transitive(a.skip(1), b.skip(1), c.skip(1));
    }
}

/// The order of texts is total: any two texts compare, and only equal texts
/// compare both ways.
pub proof fn law_text_order_is_total()
    ensures
        total_ordering(text_order()),
{
    let le = text_order();
    assert forall|a: Seq<char>| #[trigger] le(a, a) by {
        lemma_text_le_reflexive(a);
    }
    assert forall|a: Seq<char>, b: Seq<char>| #[trigger] le(a, b) && #[trigger] le(b, a) implies a
        == b by {
        lemma_text_le_antisymmetric(a, b);
    }
    assert forall|a: Seq<char>, b: Seq<char>, c: Seq<char>| #[trigger]
        le(a, b) && #[trigger] le(b, c) implies le(a, c) by {
        lemma_text_le_transitive(a, b, c);
    }
    assert forall|a: Seq<char>, b: Seq<char>| #[trigger] le(a, b) || #[trigger] le(b, a) by {
        lemma_text_le_total(a, b);
    }
}

/// The first place in which two texts differ decides which stands before the other.
pub proof fn law_first_difference_decides(a: Seq<char>, b: Seq<char>, at: int)
    requires
        0 <= at < a.len(),
        at < b.len(),
        forall|i: int| 0 <= i < at ==> #[trigger] a[i] == b[i],
        a[at] < b[at],
    ensures
        text_le(a, b),
        !text_le(b, a),
    decreases at,
{
    if at > 0 {
        assert(a[0] == b[0]);
        assert forall|i: int| 0 <= i < at - 1 implies #[trigger] a.skip(1)[i] == b.skip(1)[i] by {
            assert(a[i + 1] == b[i + 1]);
        }
        law_first_difference_decides(a.skip(1), b.skip(1), at - 1);
    }
}

/// A text stands before what continues it.
pub proof fn law_shorter_text_comes_first(a: Seq<char>, more: Seq<char>)
    ensures
        text_le(a, a + more),
        more.len() > 0 ==> !text_le(a + more, a),
    decreases a.len(),
{
    if a.len() > 0 {
        law_shorter_text_comes_first(a.skip(1), more);
        assert((a + more).skip(1) =~= a.skip(1) + more);
    }
}

/// Whether `a` stands before `b` or is equal to it.
pub fn not_after(a: &str, b: &str) -> (result: bool)
    ensures
        result == text_le(a@, b@),
{
    let left = chars_of(a);
    let right = chars_of(b);
    let mut i: usize = 0;
    assert(a@.skip(0) =~= a@);
    assert(b@.skip(0) =~= b@);
    while i < left.len() && i < right.len()
        invariant
            left@ == a@,
            right@ == b@,
            i <= left.len(),
            i <= right.len(),
            text_le(a@, b@) == text_le(a@.skip(i as int), b@.skip(i as int)),
        decreases left.len() - i,
    {
        assert(a@.skip(i as int).skip(1) =~= a@.skip(i + 1));
        assert(b@.skip(i as int).skip(1) =~= b@.skip(i + 1));
        if left[i] != right[i] {
            return left[i] < right[i];
        }
        i = i + 1;
    }
    i == left.len()
}

// ---------------------------------------------------------------------------
// Stable sorting
// ---------------------------------------------------------------------------

/// A value that is sorted by a text that belongs to it.
pub trait Keyed: Sized {
    /// The text that the value is sorted by.
    spec fn key(&self) -> Seq<char>;

    /// The text that the value is sorted by.
    fn key_text(&self) -> (key: &str)
        ensures
            key@ == self.key(),
    ;
}

impl Keyed for String {
    open spec fn key(&self) -> Seq<char> {
        self@
    }

    fn key_text(&self) -> (key: &str) {
        self.as_str()
    }
}

/// Holds of the values with the given key.
pub open spec fn has_key<T: Keyed>(key: Seq<char>) -> spec_fn(T) -> bool {
    |value: T| value.key() == key
}

/// The keys of `values`, in order.
pub open spec fn keys<T: Keyed>(values: Seq<T>) -> Seq<Seq<char>> {
    values.map_values(|value: T| value.key())
}

/// Whether `to` holds the values of `from`, ordered by key, with values of the
/// same key in the order in which they stand in `from`.
pub open spec fn stably_sorted<T: Keyed>(from: Seq<T>, to: Seq<T>) -> bool {
    &&& forall|i: int, j: int|
        0 <= i < j < to.len() ==> text_le((#[trigger] to[i]).key(), (#[trigger] to[j]).key())
    &&& forall|key: Seq<char>| #[trigger]
        to.filter(has_key(key)) == from.filter(has_key(key))
}

/// `values` ordered by key, values of the same key in their given order.
pub open spec fn stable_sort<T: Keyed>(values: Seq<T>) -> Seq<T> {
    choose|sorted: Seq<T>| stably_sorted(values, sorted)
}

/// Putting a value in front of the first one with a greater key keeps the
/// sequence stably sorted.
proof fn lemma_insert_keeps_sorted<T: Keyed>(from: Seq<T>, to: Seq<T>, value: T, at: int)
    requires
        stably_sorted(from, to),
        0 <= at <= to.len(),
        forall|i: int| 0 <= i < at ==> text_le((#[trigger] to[i]).key(), value.key()),
        forall|i: int| at <= i < to.len() ==> !text_le((#[trigger] to[i]).key(), value.key()),
    ensures
        stably_sorted(from.push(value), to.insert(at, value)),
{
    let grown = to.insert(at, value);
    let low = to.take(at);
    let high = to.skip(at);
    assert forall|i: int, j: int| 0 <= i < j < grown.len() implies text_le(
        (#[trigger] grown[i]).key(),
        (#[trigger] grown[j]).key(),
    ) by {
        let a = if i < at { i } else { i - 1 };
        let b = if j < at { j } else { j - 1 };
        if i == at {
            lemma_text_le_total(to[b].key(), value.key());
        } else if j == at {
        } else {
            assert(grown[i] == to[a]);
            assert(grown[j] == to[b]);
        }
    }
    assert forall|key: Seq<char>| #[trigger]
        grown.filter(has_key(key)) == from.push(value).filter(has_key(key)) by {
        let pred = has_key::<T>(key);
        assert(to =~= low + high);
        assert(grown =~= low.push(value) + high);
        Seq::filter_distributes_over_add(low, high, pred);
        Seq::filter_distributes_over_add(low.push(value), high, pred);
        low.lemma_filter_push(value, pred);
        from.lemma_filter_push(value, pred);
        assert(to.filter(pred) == from.filter(pred));
        if pred(value) {
            assert forall|i: int| 0 <= i < high.len() implies !pred(#[trigger] high[i]) by {
                assert(high[i] == to[at + i]);
                lemma_text_le_reflexive(key);
            }
            high.lemma_all_neg_filter_empty(pred);
            assert(high.filter(pred) =~= Seq::empty());
            assert(grown.filter(pred) =~= low.filter(pred).push(value));
            assert(to.filter(pred) =~= low.filter(pred));
        }
    }
}

/// Of the elements with the key of the first one, the first one comes first.
proof fn lemma_filter_first<T: Keyed>(values: Seq<T>)
    requires
        values.len() > 0,
    ensures
        values.filter(has_key(values[0].key())).len() > 0,
        values.filter(has_key(values[0].key()))[0] == values[0],
{
    let pred = has_key::<T>(values[0].key());
    assert(values =~= seq![values[0]] + values.skip(1));
    Seq::filter_distributes_over_add(seq![values[0]], values.skip(1), pred);
    assert(seq![values[0]].filter(pred) =~= seq![values[0]]) by {
        reveal(Seq::filter);
        assert(seq![values[0]].drop_last() =~= Seq::empty());
    }
}

/// The key of the first element of a stably sorted sequence is no greater than
/// that of any element of the sequence it came from.
proof fn lemma_first_key_least<T: Keyed>(a: Seq<T>, b: Seq<T>)
    requires
        a.len() > 0,
        b.len() > 0,
        forall|i: int, j: int|
            0 <= i < j < b.len() ==> text_le((#[trigger] b[i]).key(), (#[trigger] b[j]).key()),
        b.filter(has_key(a[0].key())) == a.filter(has_key(a[0].key())),
    ensures
        text_le(b[0].key(), a[0].key()),
{
    let pred = has_key::<T>(a[0].key());
    lemma_filter_first(a);
    let found = b.filter(pred)[0];
    b.lemma_filter_pred(pred, 0);
    b.lemma_filter_contains_rev(pred, found);
    let i = choose|i: int| 0 <= i < b.len() && b[i] == found;
    if i == 0 {
        lemma_text_le_reflexive(b[0].key());
    }
}

/// A sequence has only one stable arrangement by key.
pub proof fn law_stable_sort_is_unique<T: Keyed>(from: Seq<T>, a: Seq<T>, b: Seq<T>)
    requires
        stably_sorted(from, a),
        stably_sorted(from, b),
    ensures
        a == b,
    decreases a.len(),
{
    assert forall|key: Seq<char>| #[trigger] a.filter(has_key(key)) == b.filter(has_key(key)) by {
        assert(a.filter(has_key(key)) == from.filter(has_key(key)));
        assert(b.filter(has_key(key)) == from.filter(has_key(key)));
    }
    if a.len() == 0 && b.len() == 0 {
        assert(a =~= b);
    } else if a.len() == 0 {
        lemma_filter_first(b);
        let pred = has_key::<T>(b[0].key());
        assert(a.filter(pred) == b.filter(pred));
        a.lemma_filter_len(pred);
    } else if b.len() == 0 {
        lemma_filter_first(a);
        let pred = has_key::<T>(a[0].key());
        assert(a.filter(pred) == b.filter(pred));
        b.lemma_filter_len(pred);
    } else {
        let key = a[0].key();
        assert(a.filter(has_key(a[0].key())) == b.filter(has_key(a[0].key())));
        assert(a.filter(has_key(b[0].key())) == b.filter(has_key(b[0].key())));
        lemma_first_key_least(a, b);
        lemma_first_key_least(b, a);
        lemma_text_le_antisymmetric(a[0].key(), b[0].key());
        lemma_filter_first(a);
        lemma_filter_first(b);
        assert(a[0] == b[0]);
        let rest_a = a.skip(1);
        let rest_b = b.skip(1);
        assert(a =~= seq![a[0]] + rest_a);
        assert(b =~= seq![b[0]] + rest_b);
        assert forall|k: Seq<char>| #[trigger]
            rest_b.filter(has_key(k)) == rest_a.filter(has_key(k)) by {
            let pred = has_key::<T>(k);
            Seq::filter_distributes_over_add(seq![a[0]], rest_a, pred);
            Seq::filter_distributes_over_add(seq![b[0]], rest_b, pred);
            assert(a.filter(pred) == b.filter(pred));
            let head = seq![a[0]].filter(pred);
            assert(rest_a.filter(pred) =~= a.filter(pred).skip(head.len() as int));
            assert(rest_b.filter(pred) =~= b.filter(pred).skip(head.len() as int));
        }
        law_stable_sort_is_unique(rest_a, rest_a, rest_b);
    }
}

/// Orders `values` by key; values of the same key keep their order.
pub fn sort_by_key<T: Keyed>(values: Vec<T>) -> (sorted: Vec<T>)
    ensures
        stably_sorted(values@, sorted@),
        sorted@ == stable_sort(values@),
{
    let mut sorted: Vec<T> = Vec::new();
    let ghost all = values@;
    assert(all.take(0) =~= Seq::empty());
    for value in iter: values
        invariant
            iter.seq() == all,
            stably_sorted(all.take(iter.index() as int), sorted@),
    {
        let mut at: usize = sorted.len();
        while at > 0 && !not_after(sorted[at - 1].key_text(), value.key_text())
            invariant
                at <= sorted.len(),
                forall|i: int|
                    at <= i < sorted.len() ==> !text_le((#[trigger] sorted[i]).key(), value.key()),
            decreases at,
        {
            at = at - 1;
        }
        proof {
            let seen = all.take(iter.index() as int);
            assert forall|i: int| 0 <= i < at implies text_le(
                (#[trigger] sorted@[i]).key(),
                value.key(),
            ) by {
                if i < at - 1 {
                    lemma_text_le_transitive(
                        sorted@[i].key(),
                        sorted@[at - 1].key(),
                        value.key(),
                    );
                }
            }
            lemma_insert_keeps_sorted(seen, sorted@, value, at as int);
            assert(all.take(iter.index() + 1) =~= seen.push(value));
        }
        sorted.insert(at, value);
    }
    proof {
        assert(all.take(all.len() as int) =~= all);
        law_stable_sort_is_unique(all, sorted@, stable_sort(all));
    }
    sorted
}

/// Every sequence has a stable arrangement by key, and `stable_sort` is it.
pub proof fn law_stable_sort_sorts<T: Keyed>(values: Seq<T>)
    ensures
        stably_sorted(values, stable_sort(values)),
    decreases values.len(),
{
    if values.len() == 0 {
        assert(stably_sorted(values, values));
    } else {
        let front = values.drop_last();
        let value = values.last();
        law_stable_sort_sorts(front);
        let sorted = stable_sort(front);
        let at = lemma_insert_position(sorted, value);
        lemma_insert_keeps_sorted(front, sorted, value, at);
        assert(front.push(value) =~= values);
        assert(stably_sorted(values, sorted.insert(at, value)));
    }
}

/// In a sequence sorted by key there is a place for any value: after the last
/// element whose key is no greater.
proof fn lemma_insert_position<T: Keyed>(sorted: Seq<T>, value: T) -> (at: int)
    requires
        forall|i: int, j: int|
            0 <= i < j < sorted.len() ==> text_le(
                (#[trigger] sorted[i]).key(),
                (#[trigger] sorted[j]).key(),
            ),
    ensures
        0 <= at <= sorted.len(),
        forall|i: int| 0 <= i < at ==> text_le((#[trigger] sorted[i]).key(), value.key()),
        forall|i: int| at <= i < sorted.len() ==> !text_le((#[trigger] sorted[i]).key(), value.key()),
    decreases sorted.len(),
{
    if sorted.len() == 0 {
        0
    } else if text_le(sorted.last().key(), value.key()) {
        assert forall|i: int| 0 <= i < sorted.len() implies text_le(
            (#[trigger] sorted[i]).key(),
            value.key(),
        ) by {
            if i < sorted.len() - 1 {
                lemma_text_le_transitive(sorted[i].key(), sorted.last().key(), value.key());
            }
        }
        sorted.len() as int
    } else {
        let front = sorted.drop_last();
        let at = lemma_insert_position(front, value);
        assert forall|i: int| 0 <= i < at implies text_le(
            (#[trigger] sorted[i]).key(),
            value.key(),
        ) by {
            assert(sorted[i] == front[i]);
        }
        assert forall|i: int| at <= i < sorted.len() implies !text_le(
            (#[trigger] sorted[i]).key(),
            value.key(),
        ) by {
            if i < front.len() {
                assert(sorted[i] == front[i]);
            }
        }
        at
    }
}

/// How often a value occurs is how often it occurs among the values of its key.
proof fn lemma_count_among_key<T: Keyed>(values: Seq<T>, value: T)
    ensures
        values.to_multiset().count(value) == values.filter(
            has_key(value.key()),
        ).to_multiset().count(value),
    decreases values.len(),
{
    broadcast use group_to_multiset_ensures;

    let pred = has_key::<T>(value.key());
    reveal(Seq::filter);
    if values.len() > 0 {
        let front = values.drop_last();
        lemma_count_among_key(front, value);
        assert(values =~= front.push(values.last()));
    } else {
        assert(values.filter(pred) =~= values);
    }
}

/// Sorting by key neither loses, adds nor changes a value.
pub proof fn law_stable_sort_permutes<T: Keyed>(from: Seq<T>, to: Seq<T>)
    requires
        stably_sorted(from, to),
    ensures
        to.to_multiset() == from.to_multiset(),
        to.len() == from.len(),
{
    assert forall|value: T| #[trigger]
        to.to_multiset().count(value) == from.to_multiset().count(value) by {
        lemma_count_among_key(from, value);
        lemma_count_among_key(to, value);
        assert(to.filter(has_key(value.key())) == from.filter(has_key(value.key())));
    }
    assert(to.to_multiset() =~= from.to_multiset());
    from.to_multiset_ensures();
    to.to_multiset_ensures();
}

/// What sorting by key does, value by value: the result holds the given values as
/// often as they were given, no key stands behind a greater one, and the values of
/// any one key stand in the order in which they were given.
pub proof fn law_stable_sort_orders<T: Keyed>(values: Seq<T>, key: Seq<char>)
    ensures
        stable_sort(values).len() == values.len(),
        stable_sort(values).to_multiset() == values.to_multiset(),
        forall|i: int, j: int|
            0 <= i < j < values.len() ==> text_le(
                (#[trigger] stable_sort(values)[i]).key(),
                (#[trigger] stable_sort(values)[j]).key(),
            ),
        stable_sort(values).filter(|value: T| value.key() == key) == values.filter(
            |value: T| value.key() == key,
        ),
{
    law_stable_sort_sorts(values);
    law_stable_sort_permutes(values, stable_sort(values));
    let same = |value: T| value.key() == key;
    assert(same =~= has_key::<T>(key));
    assert(stable_sort(values).filter(has_key(key)) == values.filter(has_key(key)));
}

/// A sequence that is already ordered by key stays as it is.
pub proof fn law_stable_sort_of_sorted<T: Keyed>(values: Seq<T>)
    requires
        forall|i: int, j: int|
            0 <= i < j < values.len() ==> text_le(
                (#[trigger] values[i]).key(),
                (#[trigger] values[j]).key(),
            ),
    ensures
        stable_sort(values) == values,
{
    assert(stably_sorted(values, values));
    law_stable_sort_is_unique(values, values, stable_sort(values));
}

// ---------------------------------------------------------------------------
// Lines without repeats
// ---------------------------------------------------------------------------

/// `lines` without repeats: of equal lines only the first stays.
pub open spec fn without_repeats(lines: Seq<Seq<char>>) -> Seq<Seq<char>> {
    lines.remove_duplicates(Seq::empty())
}

/// `lines` in order and without repeats.
pub open spec fn sorted_without_repeats(lines: Seq<Seq<char>>) -> Seq<Seq<char>> {
    without_repeats(lines).sort_by(text_order())
}

/// No line occurs twice in what removing repeats leaves.
proof fn lemma_remove_duplicates_distinct(lines: Seq<Seq<char>>, seen: Seq<Seq<char>>)
    requires
        seen.no_duplicates(),
    ensures
        lines.remove_duplicates(seen).no_duplicates(),
    decreases lines.len(),
{
    if lines.len() == 0 {
    } else if seen.contains(lines[0]) {
        lemma_remove_duplicates_distinct(lines.skip(1), seen);
    } else {
        lemma_remove_duplicates_distinct(lines.skip(1), seen + seq![lines[0]]);
    }
}

/// Removing repeats keeps every line once.
pub proof fn law_without_repeats(lines: Seq<Seq<char>>)
    ensures
        without_repeats(lines).no_duplicates(),
        forall|line: Seq<char>| #[trigger]
            without_repeats(lines).contains(line) <==> lines.contains(line),
{
    lemma_remove_duplicates_distinct(lines, Seq::empty());
    lines.lemma_remove_duplicates_properties(Seq::empty());
    assert(lines + Seq::<Seq<char>>::empty() =~= lines);
}

/// Lines that come later change nothing about the lines that are kept of the earlier
/// ones nor about their order: of equal lines the first is kept, and what is kept
/// stays in order.
pub proof fn law_without_repeats_keeps_the_first(lines: Seq<Seq<char>>, upto: int)
    requires
        0 <= upto <= lines.len(),
    ensures
        without_repeats(lines.take(upto)).is_prefix_of(without_repeats(lines)),
    decreases lines.len() - upto,
{
    if upto == lines.len() {
        assert(lines.take(upto) =~= lines);
    } else {
        let before = lines.take(upto);
        law_without_repeats_keeps_the_first(lines, upto + 1);
        before.lemma_remove_duplicates_append(lines[upto], Seq::empty());
        assert(lines.take(upto + 1) =~= before + seq![lines[upto]]);
        let kept = without_repeats(before);
        let more = without_repeats(lines.take(upto + 1));
        assert(kept =~= more.take(kept.len() as int));
        assert(more =~= without_repeats(lines).take(more.len() as int));
        assert(kept =~= without_repeats(lines).take(kept.len() as int));
    }
}

/// Sorting without repeats keeps every line once and orders the lines.
pub proof fn law_sorted_without_repeats(lines: Seq<Seq<char>>)
    ensures
        forall|i: int, j: int|
            0 <= i < j < sorted_without_repeats(lines).len() ==> {
                &&& text_le(
                    #[trigger] sorted_without_repeats(lines)[i],
                    #[trigger] sorted_without_repeats(lines)[j],
                )
                &&& sorted_without_repeats(lines)[i] != sorted_without_repeats(lines)[j]
            },
        sorted_by(sorted_without_repeats(lines), text_order()),
        sorted_without_repeats(lines).no_duplicates(),
        forall|line: Seq<char>| #[trigger]
            sorted_without_repeats(lines).contains(line) <==> lines.contains(line),
{
    let distinct = without_repeats(lines);
    let sorted = sorted_without_repeats(lines);
    law_without_repeats(lines);
    law_text_order_is_total();
    distinct.lemma_sort_by_ensures(text_order());
    distinct.to_multiset_ensures();
    sorted.to_multiset_ensures();
    distinct.lemma_multiset_has_no_duplicates();
    sorted.lemma_multiset_has_no_duplicates_conv();
    assert forall|i: int, j: int| 0 <= i < j < sorted.len() implies text_le(
        #[trigger] sorted[i],
        #[trigger] sorted[j],
    ) && sorted[i] != sorted[j] by {
        assert(text_order()(sorted[i], sorted[j]));
    }
    assert forall|line: Seq<char>| #[trigger] sorted.contains(line) <==> lines.contains(line) by {
        assert(sorted.contains(line) <==> sorted.to_multiset().count(line) > 0);
        assert(distinct.contains(line) <==> distinct.to_multiset().count(line) > 0);
    }
}

/// Sorting without repeats depends only on which lines there are, not on their
/// order nor on how often each occurs.
pub proof fn law_sorted_without_repeats_is_unique(a: Seq<Seq<char>>, b: Seq<Seq<char>>)
    requires
        forall|line: Seq<char>| #[trigger] a.contains(line) <==> b.contains(line),
    ensures
        sorted_without_repeats(a) == sorted_without_repeats(b),
{
    let x = sorted_without_repeats(a);
    let y = sorted_without_repeats(b);
    law_sorted_without_repeats(a);
    law_sorted_without_repeats(b);
    law_text_order_is_total();
    x.lemma_multiset_has_no_duplicates();
    y.lemma_multiset_has_no_duplicates();
    x.to_multiset_ensures();
    y.to_multiset_ensures();
    assert forall|line: Seq<char>| #[trigger]
        x.to_multiset().count(line) == y.to_multiset().count(line) by {
        assert(a.contains(line) <==> b.contains(line));
        assert(x.contains(line) <==> y.contains(line));
        assert(x.contains(line) <==> x.to_multiset().count(line) > 0);
        assert(y.contains(line) <==> y.to_multiset().count(line) > 0);
    }
    assert(x.to_multiset() =~= y.to_multiset());
    lemma_sorted_unique(x, y, text_order());
}

/// How often a key occurs is how many values have it.
proof fn lemma_count_of_key<T: Keyed>(values: Seq<T>, key: Seq<char>)
    ensures
        keys(values).to_multiset().count(key) == values.filter(has_key(key)).len(),
    decreases values.len(),
{
    broadcast use group_to_multiset_ensures;

    reveal(Seq::filter);
    if values.len() > 0 {
        let front = values.drop_last();
        lemma_count_of_key(front, key);
        assert(keys(values) =~= keys(front).push(values.last().key()));
    } else {
        assert(keys(values) =~= Seq::empty());
    }
}

/// Takes the repeats out of `lines`: of equal lines only the first stays.
pub fn distinct(lines: Vec<String>) -> (result: Vec<String>)
    ensures
        result.deep_view() == without_repeats(lines.deep_view()),
{
    let mut seen = StringHashSet::new();
    let mut result: Vec<String> = Vec::new();
    let ghost all = lines.deep_view();
    assert(all.take(0) =~= Seq::empty());
    assert(result.deep_view() =~= Seq::empty());
    for line in iter: lines
        invariant
            iter.seq() == lines@,
            all == lines.deep_view(),
            seen@ == all.take(iter.index() as int).to_set(),
            result.deep_view() == without_repeats(all.take(iter.index() as int)),
    {
        let ghost before = all.take(iter.index() as int);
        let ghost kept = result.deep_view();
        proof {
            assert(all.take(iter.index() + 1) =~= before.push(line@));
            assert(before.push(line@) =~= before + seq![line@]);
            assert(before + Seq::<Seq<char>>::empty() =~= before);
            before.lemma_remove_duplicates_append(line@, Seq::empty());
            before.lemma_push_to_set_commute(line@);
        }
        if seen.insert(line.clone()) {
            result.push(line);
            assert(result.deep_view() =~= kept + seq![line@]);
        }
    }
    assert(all.take(all.len() as int) =~= all);
    result
}

/// Sorts `lines` and takes the repeats out.
pub fn sorted_distinct(lines: Vec<String>) -> (result: Vec<String>)
    ensures
        result.deep_view() == sorted_without_repeats(lines.deep_view()),
{
    let kept = distinct(lines);
    let ghost unsorted = kept@;
    let result = sort_by_key(kept);
    proof {
        let sorted = result@;
        assert(keys(unsorted) =~= without_repeats(lines.deep_view()));
        assert(keys(sorted) =~= result.deep_view());
        assert forall|key: Seq<char>| #[trigger]
            keys(sorted).to_multiset().count(key) == keys(unsorted).to_multiset().count(key) by {
            lemma_count_of_key(sorted, key);
            lemma_count_of_key(unsorted, key);
            assert(sorted.filter(has_key(key)) == unsorted.filter(has_key(key)));
        }
        assert(keys(sorted).to_multiset() =~= keys(unsorted).to_multiset());
        law_text_order_is_total();
        keys(unsorted).lemma_sort_by_ensures(text_order());
        assert(sorted_by(keys(sorted), text_order()));
        lemma_sorted_unique(
            keys(sorted),
            keys(unsorted).sort_by(text_order()),
            text_order(),
        );
    }
    result
}

} // verus!
