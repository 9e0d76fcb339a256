//! Stable sorting.
use crate::text::to_chars;
use vstd::prelude::*;
use vstd::string::*;

verus! {

/// Values in an order of rank. Different values may have the same rank.
pub trait Ranked: Sized {
    /// Whether this value ranks no later than another.
    spec fn not_after(self, other: Self) -> bool;

    /// Whether this value ranks no later than another.
    fn ranks_up_to(&self, other: &Self) -> (yes: bool)
        ensures
            yes == self.not_after(*other),
    ;

    /// A rank is no later than itself or a later one, and of two values one ranks no later
    /// than the other.
    proof fn ranks_are_ordered(a: Self, b: Self, c: Self)
        ensures
            a.not_after(b) || b.not_after(a),
            a.not_after(b) && b.not_after(c) ==> a.not_after(c),
    ;
}

/// The index behind the last value that ranks no later than another.
pub open spec fn place_of<T: Ranked>(values: Seq<T>, value: T) -> int
    decreases values.len(),
{
    if values.len() == 0 {
        0
    } else if values.last().not_after(value) {
        values.len() as int
    } else {
        place_of(values.drop_last(), value)
    }
}

/// The values in the order of their ranks, and those of the same rank in the order in
/// which they were.
pub open spec fn ranked<T: Ranked>(values: Seq<T>) -> Seq<T>
    decreases values.len(),
{
    if values.len() == 0 {
        values
    } else {
        let head = ranked(values.drop_last());
        head.insert(place_of(head, values.last()), values.last())
    }
}

/// Whether no value ranks later than one behind it.
pub open spec fn in_order<T: Ranked>(values: Seq<T>) -> bool {
    forall|i: int, j: int|
        0 <= i <= j < values.len() ==> #[trigger] values[i].not_after(#[trigger] values[j])
}

/// The values of the rank of another.
pub open spec fn same_rank<T: Ranked>(value: T) -> spec_fn(T) -> bool {
    |other: T| other.not_after(value) && value.not_after(other)
}

proof fn lemma_place_of<T: Ranked>(values: Seq<T>, value: T)
    requires
        in_order(values),
    ensures
        0 <= place_of(values, value) <= values.len(),
        forall|i: int| 0 <= i < place_of(values, value) ==> (#[trigger] values[i]).not_after(value),
        forall|i: int|
            place_of(values, value) <= i < values.len() ==> !(#[trigger] values[i]).not_after(value),
    decreases values.len(),
{
    if values.len() > 0 {
        let last = values.last();
        if last.not_after(value) {
            assert forall|i: int| 0 <= i < values.len() implies (#[trigger] values[i]).not_after(
                value,
            ) by {
                assert(values[i].not_after(values[values.len() - 1]));
                T::ranks_are_ordered(values[i], last, value);
            }
        } else {
            let head = values.drop_last();
            assert forall|i: int, j: int| 0 <= i <= j < head.len() implies #[trigger] head[i]
                .not_after(#[trigger] head[j]) by {
                assert(values[i].not_after(values[j]));
            }
            lemma_place_of(head, value);
            let place = place_of(values, value);
            assert forall|i: int| 0 <= i < values.len() implies (#[trigger] values[i]).not_after(
                value,
            ) == (i < place) by {
                if i < head.len() {
                    assert(values[i] == head[i]);
                }
            }
        }
    }
}

proof fn lemma_filter_insert<T>(values: Seq<T>, place: int, value: T, pred: spec_fn(T) -> bool)
    requires
        0 <= place <= values.len(),
        pred(value) ==> forall|i: int| place <= i < values.len() ==> !pred(#[trigger] values[i]),
    ensures
        values.insert(place, value).filter(pred) == if pred(value) {
            values.filter(pred).push(value)
        } else {
            values.filter(pred)
        },
    decreases values.len(),
{
    reveal(Seq::filter);
    let more = values.insert(place, value);
    if place == values.len() {
        assert(more.drop_last() =~= values);
    } else {
        let head = values.drop_last();
        assert(more.drop_last() =~= head.insert(place, value));
        assert(more.last() == values.last());
        assert(pred(value) ==> !pred(values[values.len() - 1]));
        lemma_filter_insert(head, place, value, pred);
    }
}

/// Sorting orders the values by their ranks, keeps all of them, and keeps those of the
/// same rank in their order.
pub proof fn law_sorting_is_stable<T: Ranked>(values: Seq<T>)
    ensures
        ranked(values).len() == values.len(),
        in_order(ranked(values)),
        ranked(values).to_multiset() == values.to_multiset(),
        forall|value: T| #[trigger]
            ranked(values).filter(same_rank(value)) == values.filter(same_rank(value)),
    decreases values.len(),
{
    if values.len() > 0 {
        let last = values.last();
        let rest = values.drop_last();
        law_sorting_is_stable(rest);
        let head = ranked(rest);
        let place = place_of(head, last);
        lemma_place_of(head, last);
        let sorted = ranked(values);
        assert forall|i: int, j: int| 0 <= i <= j < sorted.len() implies #[trigger] sorted[i]
            .not_after(#[trigger] sorted[j]) by {
            T::ranks_are_ordered(last, last, last);
            if i < place && j > place {
                assert(head[i].not_after(head[j - 1]));
            } else if i < place && j < place {
                assert(head[i].not_after(head[j]));
            } else if i > place {
                assert(head[i - 1].not_after(head[j - 1]));
            } else if i == place && j > place {
                T::ranks_are_ordered(last, head[j - 1], last);
            }
        }
        broadcast use vstd::seq_lib::group_to_multiset_ensures;

        assert(values =~= rest.push(last));
        assert(sorted.to_multiset() =~= values.to_multiset());
        assert forall|value: T| #[trigger]
            sorted.filter(same_rank(value)) == values.filter(same_rank(value)) by {
            let pred = same_rank(value);
            assert(pred(last) ==> forall|i: int|
                place <= i < head.len() ==> !pred(#[trigger] head[i])) by {
                if pred(last) {
                    assert forall|i: int| place <= i < head.len() implies !pred(
                        #[trigger] head[i],
                    ) by {
                        T::ranks_are_ordered(head[i], value, last);
                    }
                }
            }
            lemma_filter_insert(head, place, last, pred);
            assert(head.filter(pred) == rest.filter(pred));
            reveal(Seq::filter);
        }
    }
}

proof fn lemma_ranked_in_order<T: Ranked>(values: Seq<T>)
    requires
        in_order(values),
    ensures
        ranked(values) == values,
    decreases values.len(),
{
    if values.len() > 0 {
        let head = values.drop_last();
        assert forall|i: int, j: int| 0 <= i <= j < head.len() implies #[trigger] head[i].not_after(
            #[trigger] head[j],
        ) by {
            assert(values[i].not_after(values[j]));
        }
        lemma_ranked_in_order(head);
        if head.len() > 0 {
            assert(values[values.len() - 2].not_after(values[values.len() - 1]));
        }
        assert(ranked(values) =~= values);
    }
}

/// Sorting again changes nothing, and a value that is added to sorted values finds the
/// place that it would have had from the start.
pub proof fn law_sorting_twice_is_sorting_once<T: Ranked>(values: Seq<T>, value: T)
    ensures
        ranked(ranked(values)) == ranked(values),
        ranked(ranked(values).push(value)) == ranked(values.push(value)),
{
    law_sorting_is_stable(values);
    lemma_ranked_in_order(ranked(values));
    assert(ranked(values).push(value).drop_last() =~= ranked(values));
    assert(values.push(value).drop_last() =~= values);
}

/// Sorts values by their ranks; values of the same rank keep their order.
pub fn sort_ranked<T: Ranked>(values: &mut Vec<T>)
    ensures
        final(values)@ == ranked(old(values)@),
{
    let ghost all = values@;
    let total: usize = values.len();
    let mut count: usize = 0;
    assert(all.take(0) =~= Seq::<T>::empty());
    assert(values@ =~= ranked(all.take(0)) + all.skip(0));
    while count < total
        invariant
            count <= total == all.len(),
            values@.len() == total,
            values@ == ranked(all.take(count as int)) + all.skip(count as int),
            ranked(all.take(count as int)).len() == count,
        decreases total - count,
    {
        let ghost head = ranked(all.take(count as int));
        let ghost before = values@;
        assert(before[count as int] == all[count as int]);
        let value = values.remove(count);
        let ghost without = values@;
        assert(without =~= head + all.skip(count as int + 1));
        let mut place: usize = count;
        assert(head.take(count as int) =~= head);
        while place > 0 && !values[place - 1].ranks_up_to(&value)
            invariant
                place <= count < total,
                values@ == without,
                values@.len() == total - 1,
                head.len() == count,
                without == head + all.skip(count as int + 1),
                place_of(head, value) == place_of(head.take(place as int), value),
            decreases place,
        {
            assert(values@[place - 1] == head[place - 1]);
            assert(head.take(place as int).last() == head[place - 1]);
            assert(head.take(place as int).drop_last() =~= head.take(place - 1));
            place = place - 1;
        }
        proof {
            if place > 0 {
                assert(values@[place - 1] == head[place - 1]);
                assert(head.take(place as int).last() == head[place - 1]);
            }
            let taken = all.take(count as int + 1);
            assert(taken.drop_last() =~= all.take(count as int));
            assert(taken.last() == value);
        }
        values.insert(place, value);
        assert(values@ =~= ranked(all.take(count as int + 1)) + all.skip(count as int + 1));
        count = count + 1;
    }
    assert(all.take(total as int) =~= all);
    assert(values@ =~= ranked(all));
}

// ---------------------------------------------------------------------------
// Texts
// ---------------------------------------------------------------------------
/// Whether a text stands no later than another in the order of code points.
pub open spec fn text_not_after(a: Seq<char>, b: Seq<char>) -> bool
    decreases a.len(),
{
    if a.len() == 0 {
        true
    } else if b.len() == 0 {
        false
    } else if a[0] == b[0] {
        text_not_after(a.skip(1), b.skip(1))
    } else {
        a[0] < b[0]
    }
}

/// Texts are totally ordered.
pub proof fn lemma_texts_are_ordered(a: Seq<char>, b: Seq<char>, c: Seq<char>)
    ensures
        text_not_after(a, b) || text_not_after(b, a),
        text_not_after(a, b) && text_not_after(b, c) ==> text_not_after(a, c),
        text_not_after(a, b) && text_not_after(b, a) ==> a == b,
    decreases a.len(),
{
    if a.len() > 0 && b.len() > 0 && c.len() > 0 {
        lemma_texts_are_ordered(a.skip(1), b.skip(1), c.skip(1));
    } else if a.len() > 0 && b.len() > 0 {
        lemma_texts_are_ordered(a.skip(1), b.skip(1), c);
    }
    if text_not_after(a, b) && text_not_after(b, a) {
        if a.len() > 0 {
            assert(a =~= seq![a[0]] + a.skip(1));
            assert(b =~= seq![b[0]] + b.skip(1));
        } else {
            assert(a =~= b);
        }
    }
}

/// Whether a text stands no later than another in the order of code points.
pub fn text_up_to(a: &str, b: &str) -> (yes: bool)
    ensures
        yes == text_not_after(a@, b@),
{
    let left = to_chars(a);
    let right = to_chars(b);
    let mut index: usize = 0;
    assert(a@.skip(0) =~= a@);
    assert(b@.skip(0) =~= b@);
    while index < left.len() && index < right.len()
        invariant
            left@ == a@,
            right@ == b@,
            index <= left@.len(),
            index <= right@.len(),
            text_not_after(a@, b@) == text_not_after(a@.skip(index as int), b@.skip(index as int)),
        decreases left@.len() - index,
    {
        assert(a@.skip(index as int)[0] == left@[index as int]);
        assert(b@.skip(index as int)[0] == right@[index as int]);
        if left[index] != right[index] {
            return left[index] < right[index];
        }
        assert(a@.skip(index as int).skip(1) =~= a@.skip(index as int + 1));
        assert(b@.skip(index as int).skip(1) =~= b@.skip(index as int + 1));
        index = index + 1;
    }
    index == left.len()
}

/// Texts are ordered by the first character in which they differ, and a text comes before
/// every longer one that starts with it.
pub proof fn law_texts_are_ordered_by_their_first_difference(
    common: Seq<char>,
    a: char,
    b: char,
    rest_a: Seq<char>,
    rest_b: Seq<char>,
)
    requires
        a < b,
    ensures
        text_not_after(common + seq![a] + rest_a, common + seq![b] + rest_b),
        !text_not_after(common + seq![b] + rest_b, common + seq![a] + rest_a),
        text_not_after(common, common + seq![a] + rest_a),
        !text_not_after(common + seq![a] + rest_a, common),
    decreases common.len(),
{
    let left = common + seq![a] + rest_a;
    let right = common + seq![b] + rest_b;
    if common.len() == 0 {
        assert(left[0] == a && right[0] == b);
    } else {
        law_texts_are_ordered_by_their_first_difference(common.skip(1), a, b, rest_a, rest_b);
        assert(left[0] == common[0] && right[0] == common[0]);
        assert(left.skip(1) =~= common.skip(1) + seq![a] + rest_a);
        assert(right.skip(1) =~= common.skip(1) + seq![b] + rest_b);
    }
}

} // verus!
