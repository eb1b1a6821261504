//! Small helpers on sequences: views, first indices, repeated names.

use vstd::prelude::*;

verus! {

/// The views of the items of a sequence, in the same order.
pub open spec fn views<T: View>(items: Seq<T>) -> Seq<T::V> {
    Seq::new(items.len(), |i: int| items[i]@)
}

/// What an optional string holds, as an optional sequence of characters.
pub open spec fn text_of(value: Option<String>) -> Option<Seq<char>> {
    match value {
        Some(s) => Some(s@),
        None => None,
    }
}

/// The smallest index below `len` that `hit` accepts; `len` when it accepts
/// none of them.
pub open spec fn first_index(len: int, hit: spec_fn(int) -> bool) -> int
    decreases len,
{
    if len <= 0 {
        0
    } else {
        let before = first_index(len - 1, hit);
        if before < len - 1 {
            before
        } else if hit(len - 1) {
            len - 1
        } else {
            len
        }
    }
}

/// `first_index` is in range, accepts nothing before it, and is accepted
/// itself unless it is `len`.
pub proof fn lemma_first_index(len: int, hit: spec_fn(int) -> bool)
    requires
        0 <= len,
    ensures
        0 <= first_index(len, hit) <= len,
        forall|k: int| 0 <= k < first_index(len, hit) ==> !#[trigger] hit(k),
        first_index(len, hit) < len ==> hit(first_index(len, hit)),
    decreases len,
{
    if len > 0 {
        lemma_first_index(len - 1, hit);
    }
}

/// An index that accepts nothing before it and is accepted itself, or is
/// `len`, is `first_index`.
pub proof fn lemma_first_index_is(len: int, hit: spec_fn(int) -> bool, n: int)
    requires
        0 <= n <= len,
        forall|k: int| 0 <= k < n ==> !#[trigger] hit(k),
        n < len ==> hit(n),
    ensures
        first_index(len, hit) == n,
{
    lemma_first_index(len, hit);
    let f = first_index(len, hit);
    if f < n {
        assert(!hit(f));
    } else if n < f {
        assert(hit(n));
    }
}

/// Whether the name at index `j` has already occurred at a smaller index.
pub open spec fn occurs_before(names: Seq<Seq<char>>, j: int) -> bool {
    exists|i: int| 0 <= i < j && #[trigger] names[i] == names[j]
}

/// Whether all names of the sequence differ from one another.
pub open spec fn all_distinct(names: Seq<Seq<char>>) -> bool {
    forall|i: int, j: int| 0 <= i < j < names.len() ==> names[i] != names[j]
}

/// The test that an index passes when its name has occurred before it.
pub open spec fn repeats(names: Seq<Seq<char>>) -> spec_fn(int) -> bool {
    |j: int| occurs_before(names, j)
}

/// The smallest index whose name has occurred before it; the length of the
/// sequence when all names differ.
pub open spec fn first_repeat(names: Seq<Seq<char>>) -> int {
    first_index(names.len() as int, repeats(names))
}

/// The first name, from the left, that repeats an earlier one.
pub open spec fn first_duplicate_of(names: Seq<Seq<char>>) -> Option<Seq<char>> {
    if first_repeat(names) < names.len() {
        Some(names[first_repeat(names)])
    } else {
        None
    }
}

/// A sequence has a repeated name exactly when its names are not all
/// different.
pub proof fn lemma_first_duplicate_none(names: Seq<Seq<char>>)
    ensures
        first_duplicate_of(names).is_none() <==> all_distinct(names),
{
    let hit = repeats(names);
    lemma_first_index(names.len() as int, hit);
    let f = first_repeat(names);
    if f < names.len() {
        assert(hit(f));
        let i = choose|i: int| 0 <= i < f && #[trigger] names[i] == names[f];
        assert(names[i] == names[f]);
    } else {
        assert forall|a: int, b: int| 0 <= a < b < names.len() implies names[a] != names[b] by {
            assert(!hit(b));
        }
    }
}

/// Whether `name` is one of the first `upto` names.
pub open spec fn among_first(names: Seq<Seq<char>>, upto: int, name: Seq<char>) -> bool {
    exists|i: int| 0 <= i < upto && #[trigger] names[i] == name
}

/// Looks for `name` among the first `upto` items.
pub fn seen_before(items: &Vec<String>, upto: usize, name: &String) -> (found: bool)
    requires
        upto <= items.len(),
    ensures
        found == among_first(views(items@), upto as int, name@),
{
    let mut i: usize = 0;
    while i < upto
        invariant
            i <= upto <= items.len(),
            forall|k: int| 0 <= k < i ==> views(items@)[k] != name@,
        decreases upto - i,
    {
        if items[i] == *name {
            assert(views(items@)[i as int] == name@);
            return true;
        }
        i += 1;
    }
    false
}

/// Scans the items from left to right and returns the first one that repeats
/// an earlier item; `None` when all items differ.
pub fn first_duplicate(items: &Vec<String>) -> (result: Option<String>)
    ensures
        text_of(result) == first_duplicate_of(views(items@)),
        result.is_none() <==> all_distinct(views(items@)),
{
    let ghost names = views(items@);
    let ghost hit = repeats(names);
    proof {
        lemma_first_duplicate_none(names);
    }
    let mut j: usize = 0;
    while j < items.len()
        invariant
            j <= items.len(),
            names == views(items@),
            hit == repeats(names),
            forall|k: int| 0 <= k < j ==> !#[trigger] hit(k),
        decreases items.len() - j,
    {
        if seen_before(items, j, &items[j]) {
            proof {
                assert(hit(j as int));
                lemma_first_index_is(names.len() as int, hit, j as int);
            }
            return Some(items[j].clone());
        }
        assert(!occurs_before(names, j as int));
        j += 1;
    }
    proof {
        lemma_first_index_is(names.len() as int, hit, names.len() as int);
    }
    None
}

} // verus!
