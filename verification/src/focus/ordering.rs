use vstd::prelude::*;

use crate::subprograms::{ControlId, RegionId};

verus! {

/// An identifier that can be compared in executable code
pub trait Identifier: Copy + Sized {
    /// True if the two identifiers are the same
    fn same_id(&self, other: &Self) -> (same: bool)
        ensures
            same == (*self == *other),
    ;
}

impl Identifier for RegionId {
    fn same_id(&self, other: &Self) -> (same: bool) {
        self.0 == other.0
    }
}

impl Identifier for ControlId {
    fn same_id(&self, other: &Self) -> (same: bool) {
        self.0 == other.0
    }
}

/// `i` is the position of the first occurrence of `x` in `s`
pub open spec fn is_first_index<T>(s: Seq<T>, x: T, i: int) -> bool {
    &&& 0 <= i < s.len()
    &&& s[i] == x
    &&& forall|j: int| 0 <= j < i ==> s[j] != x
}

/// The position of the first occurrence of `x` in `s` (meaningful when `s` contains `x`)
pub open spec fn first_index<T>(s: Seq<T>, x: T) -> int {
    choose|i: int| is_first_index(s, x, i)
}

/// A sequence that contains `x` has a first occurrence of it
pub proof fn lemma_first_index<T>(s: Seq<T>, x: T)
    requires
        s.contains(x),
    ensures
        is_first_index(s, x, first_index(s, x)),
    decreases s.len(),
{
    if s[0] == x {
        assert(is_first_index(s, x, 0));
    } else {
        let k = choose|k: int| 0 <= k < s.len() && s[k] == x;
        assert(s.drop_first()[k - 1] == x);
        lemma_first_index(s.drop_first(), x);
        let i = first_index(s.drop_first(), x);
        assert(is_first_index(s, x, i + 1)) by {
            assert forall|j: int| 0 <= j < i + 1 implies s[j] != x by {
                if j > 0 {
                    assert(s[j] == s.drop_first()[j - 1]);
                }
            }
        }
    }
}

/// There is only one first occurrence
pub proof fn lemma_first_index_is<T>(s: Seq<T>, x: T, i: int)
    requires
        is_first_index(s, x, i),
    ensures
        first_index(s, x) == i,
{
    let k = first_index(s, x);
    assert(is_first_index(s, x, k));
    if k < i {
        assert(s[k] != x);
    } else if i < k {
        assert(s[i] != x);
    }
}

/// In a sequence without duplicates, the first occurrence of `s[i]` is `i`
pub proof fn lemma_first_index_no_duplicates<T>(s: Seq<T>, i: int)
    requires
        s.no_duplicates(),
        0 <= i < s.len(),
    ensures
        first_index(s, s[i]) == i,
{
    lemma_first_index_is(s, s[i], i);
}

/// `s` with every occurrence of `x` removed
pub open spec fn without<T>(s: Seq<T>, x: T) -> Seq<T> {
    s.filter(|y: T| y != x)
}

/// `s` reordered so that `item` comes just before `next`: every occurrence of `item` is
/// removed, then `item` is inserted before the first occurrence of `next`, or, where `next`
/// does not occur, `item` and then `next` are added at the end
pub open spec fn insert_before<T>(s: Seq<T>, item: T, next: T) -> Seq<T> {
    let rest = without(s, item);
    if rest.contains(next) {
        rest.insert(first_index(rest, next), item)
    } else {
        rest.push(item).push(next)
    }
}

/// The item that follows the first occurrence of `x` in `s`, wrapping around at the end
pub open spec fn following<T>(s: Seq<T>, x: T) -> Option<T> {
    if s.contains(x) {
        let i = first_index(s, x);
        Some(if i + 1 >= s.len() { s[0] } else { s[i + 1] })
    } else {
        None
    }
}

/// The item that precedes the first occurrence of `x` in `s`, wrapping around at the start
pub open spec fn preceding<T>(s: Seq<T>, x: T) -> Option<T> {
    if s.contains(x) {
        let i = first_index(s, x);
        Some(if i == 0 { s[s.len() - 1] } else { s[i - 1] })
    } else {
        None
    }
}

/// Finds the first position of `x` in `items`
pub fn position_of<T: Identifier>(items: &Vec<T>, x: &T) -> (pos: Option<usize>)
    ensures
        match pos {
            Some(i) => is_first_index(items@, *x, i as int),
            None => !items@.contains(*x),
        },
{
    let mut idx: usize = 0;
    while idx < items.len()
        invariant
            idx <= items.len(),
            forall|j: int| 0 <= j < idx ==> items@[j] != *x,
        decreases items.len() - idx,
    {
        if items[idx].same_id(x) {
            return Some(idx);
        }
        idx = idx + 1;
    }
    None
}

/// True if `items` holds `x`
pub fn holds<T: Identifier>(items: &Vec<T>, x: &T) -> (found: bool)
    ensures
        found == items@.contains(*x),
{
    match position_of(items, x) {
        Some(i) => {
            assert(items@[i as int] == *x);
            true
        },
        None => false,
    }
}

/// Removes every occurrence of `x` from `items`
pub fn remove_all<T: Identifier>(items: &mut Vec<T>, x: &T)
    ensures
        final(items)@ == without(old(items)@, *x),
{
    let ghost initial = items@;
    let mut kept: Vec<T> = Vec::new();
    let mut idx: usize = 0;
    while idx < items.len()
        invariant
            items@ == initial,
            idx <= items.len(),
            kept@ == without(initial.take(idx as int), *x),
        decreases items.len() - idx,
    {
        let item = items[idx];
        assert(initial.take(idx + 1).drop_last() =~= initial.take(idx as int));
        assert(initial.take(idx + 1).last() == item);
        proof {
            reveal(Seq::filter);
        }
        if !item.same_id(x) {
            kept.push(item);
        }
        idx = idx + 1;
    }
    assert(initial.take(initial.len() as int) =~= initial);
    *items = kept;
}

/// Moves `item` so that it comes just before `next` (see `insert_before`)
pub fn move_before<T: Identifier>(items: &mut Vec<T>, item: T, next: T)
    ensures
        final(items)@ == insert_before(old(items)@, item, next),
{
    remove_all(items, &item);
    match position_of(items, &next) {
        Some(idx) => {
            proof {
                lemma_first_index_is(items@, next, idx as int);
            }
            items.insert(idx, item);
        },
        None => {
            items.push(item);
            items.push(next);
        },
    }
}

} // verus!
