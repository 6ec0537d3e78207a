//! Sets of numbers kept as lists in which the order of arrival is kept
//! and no number occurs twice.
use vstd::prelude::*;

verus! {

/// The list with `x` added at the end unless it is there.
pub open spec fn with_number(list: Seq<usize>, x: usize) -> Seq<usize> {
    if list.contains(x) {
        list
    } else {
        list.push(x)
    }
}

/// The list with every number of `more` added, first to last, unless it
/// is there.
pub open spec fn with_numbers(list: Seq<usize>, more: Seq<usize>) -> Seq<usize>
    decreases more.len(),
{
    if more.len() == 0 {
        list
    } else {
        with_number(with_numbers(list, more.drop_last()), more.last())
    }
}

/// The numbers of `list` that are not in `known`, in their order.
pub open spec fn without(list: Seq<usize>, known: Seq<usize>) -> Seq<usize>
    decreases list.len(),
{
    if list.len() == 0 {
        Seq::empty()
    } else if known.contains(list.last()) {
        without(list.drop_last(), known)
    } else {
        without(list.drop_last(), known).push(list.last())
    }
}

/// Whether the list holds `x`.
pub fn has_number(list: &Vec<usize>, x: usize) -> (found: bool)
    ensures
        found == list@.contains(x),
{
    let mut i: usize = 0;
    while i < list.len()
        invariant
            i <= list.len(),
            forall|j: int| 0 <= j < i ==> list[j] != x,
        decreases list.len() - i,
    {
        if list[i] == x {
            return true;
        }
        i += 1;
    }
    false
}

/// Adding a number to a list without a number twice leaves no number
/// twice.
pub proof fn lemma_with_number_distinct(list: Seq<usize>, x: usize)
    requires
        list.no_duplicates(),
    ensures
        with_number(list, x).no_duplicates(),
{
    if !list.contains(x) {
        let more = list.push(x);
        assert forall|i: int, j: int| 0 <= i < more.len() && 0 <= j < more.len() && i
            != j implies more[i] != more[j] by {
            if i < list.len() && j < list.len() {
                assert(more[i] == list[i] && more[j] == list[j]);
            } else if i < list.len() {
                assert(list[i] != x);
            } else {
                assert(list[j] != x);
            }
        }
    }
}

/// Adding numbers to a list without a number twice leaves no number twice.
pub proof fn lemma_with_numbers_distinct(list: Seq<usize>, more: Seq<usize>)
    requires
        list.no_duplicates(),
    ensures
        with_numbers(list, more).no_duplicates(),
    decreases more.len(),
{
    if more.len() > 0 {
        lemma_with_numbers_distinct(list, more.drop_last());
        lemma_with_number_distinct(with_numbers(list, more.drop_last()), more.last());
    }
}

/// Adds `x` unless the list holds it.
pub fn add_number(list: &mut Vec<usize>, x: usize)
    ensures
        final(list)@ == with_number(old(list)@, x),
        old(list)@.no_duplicates() ==> final(list)@.no_duplicates(),
{
    proof {
        if list@.no_duplicates() {
            lemma_with_number_distinct(list@, x);
        }
    }
    if !has_number(list, x) {
        list.push(x);
    }
}

/// Adds every number of `more` that the list does not hold.
pub fn add_numbers(list: &mut Vec<usize>, more: &Vec<usize>)
    ensures
        final(list)@ == with_numbers(old(list)@, more@),
        old(list)@.no_duplicates() ==> final(list)@.no_duplicates(),
{
    proof {
        if list@.no_duplicates() {
            lemma_with_numbers_distinct(list@, more@);
        }
    }
    let mut i: usize = 0;
    assert(more@.take(0) =~= Seq::<usize>::empty());
    while i < more.len()
        invariant
            i <= more.len(),
            list@ == with_numbers(old(list)@, more@.take(i as int)),
        decreases more.len() - i,
    {
        assert(more@.take(i + 1).drop_last() =~= more@.take(i as int));
        add_number(list, more[i]);
        i += 1;
    }
    assert(more@.take(more.len() as int) =~= more@);
}

/// The numbers of `list` that `known` does not hold.
pub fn numbers_without(list: &Vec<usize>, known: &Vec<usize>) -> (rest: Vec<usize>)
    ensures
        rest@ == without(list@, known@),
{
    let mut rest: Vec<usize> = Vec::new();
    let mut i: usize = 0;
    assert(list@.take(0) =~= Seq::<usize>::empty());
    while i < list.len()
        invariant
            i <= list.len(),
            rest@ == without(list@.take(i as int), known@),
        decreases list.len() - i,
    {
        assert(list@.take(i + 1).drop_last() =~= list@.take(i as int));
        if !has_number(known, list[i]) {
            rest.push(list[i]);
        }
        i += 1;
    }
    assert(list@.take(list.len() as int) =~= list@);
    rest
}

/// A copy of the list.
pub fn clone_numbers(list: &Vec<usize>) -> (copy: Vec<usize>)
    ensures
        copy@ == list@,
{
    let copy = list.clone();
    assert(copy@ =~= list@);
    copy
}

} // verus!
