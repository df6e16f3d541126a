//! Strict orders on sequences, and sorting by them.

use vstd::prelude::*;

verus! {

/// Where one value stands relative to another.
#[derive(Debug, Clone, Copy, PartialEq, Eq, Structural)]
pub enum Placement {
    Before,
    Same,
    After,
}

/// Whether `before` is irreflexive, transitive, and decides every pair of distinct values.
pub open spec fn strict_order<A>(before: spec_fn(A, A) -> bool) -> bool {
    &&& forall|a: A| !#[trigger] before(a, a)
    &&& forall|a: A, b: A, c: A|
        #[trigger] before(a, b) && #[trigger] before(b, c) ==> before(a, c)
    &&& forall|a: A, b: A| a == b || #[trigger] before(a, b) || before(b, a)
}

/// Lexicographic order: the first differing element decides, and a proper prefix comes first.
pub open spec fn lex_before<A>(left: Seq<A>, right: Seq<A>, before: spec_fn(A, A) -> bool) -> bool
    decreases left.len(),
{
    if right.len() == 0 {
        false
    } else if left.len() == 0 {
        true
    } else if left[0] == right[0] {
        lex_before(left.skip(1), right.skip(1), before)
    } else {
        before(left[0], right[0])
    }
}

proof fn lemma_lex_irreflexive<A>(a: Seq<A>, before: spec_fn(A, A) -> bool)
    ensures
        !lex_before(a, a, before),
    decreases a.len(),
{
    if a.len() > 0 {
        lemma_lex_irreflexive(a.skip(1), before);
    }
}

proof fn lemma_lex_transitive<A>(
    a: Seq<A>,
    b: Seq<A>,
    c: Seq<A>,
    before: spec_fn(A, A) -> bool,
)
    requires
        strict_order(before),
        lex_before(a, b, before),
        lex_before(b, c, before),
    ensures
        lex_before(a, c, before),
    decreases a.len(),
{
    if a.len() > 0 && a[0] == b[0] && b[0] == c[0] {
        lemma_lex_transitive(a.skip(1), b.skip(1), c.skip(1), before);
    }
}

proof fn lemma_lex_total<A>(a: Seq<A>, b: Seq<A>, before: spec_fn(A, A) -> bool)
    requires
        strict_order(before),
    ensures
        a == b || lex_before(a, b, before) || lex_before(b, a, before),
    decreases a.len(),
{
    if a.len() > 0 && b.len() > 0 && a[0] == b[0] {
        lemma_lex_total(a.skip(1), b.skip(1), before);
        if a.skip(1) == b.skip(1) {
            assert(a =~= seq![a[0]] + a.skip(1));
            assert(b =~= seq![b[0]] + b.skip(1));
        }
    } else if a.len() == 0 && b.len() == 0 {
        assert(a =~= b);
    }
}

/// The lexicographic order over a strict order is itself a strict order.
pub proof fn lemma_lex_is_strict<A>(before: spec_fn(A, A) -> bool)
    requires
        strict_order(before),
    ensures
        strict_order(|a: Seq<A>, b: Seq<A>| lex_before(a, b, before)),
{
    let lex = |a: Seq<A>, b: Seq<A>| lex_before(a, b, before);
    assert forall|a: Seq<A>| !#[trigger] lex(a, a) by {
        lemma_lex_irreflexive(a, before);
    }
    assert forall|a: Seq<A>, b: Seq<A>, c: Seq<A>|
        #[trigger] lex(a, b) && #[trigger] lex(b, c) implies lex(a, c) by {
        lemma_lex_transitive(a, b, c, before);
    }
    assert forall|a: Seq<A>, b: Seq<A>| a == b || #[trigger] lex(a, b) || lex(b, a) by {
        lemma_lex_total(a, b, before);
    }
}

/// The numeric order of bytes.
pub open spec fn byte_order() -> spec_fn(u8, u8) -> bool {
    |a: u8, b: u8| a < b
}

/// Bytewise lexicographic order.
pub open spec fn bytes_before(left: Seq<u8>, right: Seq<u8>) -> bool {
    lex_before(left, right, byte_order())
}

/// The bytewise order as a relation.
pub open spec fn bytes_order() -> spec_fn(Seq<u8>, Seq<u8>) -> bool {
    |a: Seq<u8>, b: Seq<u8>| bytes_before(a, b)
}

/// The bytewise order is a strict order.
pub proof fn lemma_bytes_order()
    ensures
        strict_order(bytes_order()),
{
    lemma_lex_is_strict(byte_order());
    let lex = |a: Seq<u8>, b: Seq<u8>| lex_before(a, b, byte_order());
    assert forall|a: Seq<u8>| !#[trigger] bytes_order()(a, a) by {
        assert(!lex(a, a));
    }
    assert forall|a: Seq<u8>, b: Seq<u8>, c: Seq<u8>|
        #[trigger] bytes_order()(a, b) && #[trigger] bytes_order()(b, c) implies bytes_order()(
        a,
        c,
    ) by {
        assert(lex(a, b) && lex(b, c));
        assert(lex(a, c));
    }
    assert forall|a: Seq<u8>, b: Seq<u8>|
        a == b || #[trigger] bytes_order()(a, b) || bytes_order()(b, a) by {
        assert(a == b || lex(a, b) || lex(b, a));
    }
}

/// Compare two byte strings.
pub fn place_bytes(left: &[u8], right: &[u8]) -> (placement: Placement)
    ensures
        placement == Placement::Before <==> bytes_before(left@, right@),
        placement == Placement::Same <==> left@ == right@,
        placement == Placement::After <==> bytes_before(right@, left@),
{
    let mut i: usize = 0;
    proof {
        assert(left@.skip(0) =~= left@);
        assert(right@.skip(0) =~= right@);
        lemma_bytes_order();
        assert(!bytes_order()(left@, left@));
        assert(bytes_order()(left@, right@) && bytes_order()(right@, left@) ==> bytes_order()(left@, left@));
    }
    while i < left.len() && i < right.len()
        invariant
            i <= left@.len(),
            i <= right@.len(),
            left@.take(i as int) == right@.take(i as int),
            bytes_before(left@, right@) == bytes_before(
                left@.skip(i as int),
                right@.skip(i as int),
            ),
            bytes_before(right@, left@) == bytes_before(
                right@.skip(i as int),
                left@.skip(i as int),
            ),
            bytes_before(left@, right@) ==> left@ != right@,
            bytes_before(right@, left@) ==> left@ != right@,
            bytes_before(left@, right@) ==> !bytes_before(right@, left@),
        decreases left@.len() - i,
    {
        let a = left[i];
        let b = right[i];
        assert(left@.skip(i as int)[0] == a);
        assert(right@.skip(i as int)[0] == b);
        if a < b {
            return Placement::Before;
        }
        if b < a {
            return Placement::After;
        }
        assert(left@.skip(i as int).skip(1) =~= left@.skip(i + 1));
        assert(right@.skip(i as int).skip(1) =~= right@.skip(i + 1));
        assert(left@.take(i + 1) =~= left@.take(i as int).push(a));
        assert(right@.take(i + 1) =~= right@.take(i as int).push(b));
        i += 1;
    }
    if i < right.len() {
        Placement::Before
    } else if i < left.len() {
        Placement::After
    } else {
        assert(left@.take(i as int) =~= left@);
        assert(right@.take(i as int) =~= right@);
        Placement::Same
    }
}

/// Whether two byte strings are equal.
pub fn same_bytes(left: &[u8], right: &[u8]) -> (same: bool)
    ensures
        same == (left@ == right@),
{
    match place_bytes(left, right) {
        Placement::Same => true,
        _ => false,
    }
}

/// A type whose values can be arranged by a total preorder.
pub trait Sortable: Sized {
    /// Whether `self` may stand in front of `other`.
    spec fn may_precede(&self, other: &Self) -> bool;

    proof fn precedence_is_total(a: &Self, b: &Self)
        ensures
            a.may_precede(b) || b.may_precede(a),
    ;

    proof fn precedence_is_transitive(a: &Self, b: &Self, c: &Self)
        requires
            a.may_precede(b),
            b.may_precede(c),
        ensures
            a.may_precede(c),
    ;

    /// Decide whether `self` may stand in front of `other`.
    fn precedes(&self, other: &Self) -> (yes: bool)
        ensures
            yes == self.may_precede(other),
    ;
}

/// Whether every item may stand in front of every later one.
pub open spec fn arranged<T: Sortable>(items: Seq<T>) -> bool {
    forall|i: int, j: int|
        #![trigger items[i], items[j]]
        0 <= i < j < items.len() ==> items[i].may_precede(&items[j])
}

proof fn lemma_empty_multiset<T>(items: Seq<T>)
    requires
        items.len() == 0,
    ensures
        items.to_multiset() == vstd::multiset::Multiset::<T>::empty(),
{
    broadcast use vstd::seq_lib::group_to_multiset_ensures;

    assert(items.to_multiset() =~= vstd::multiset::Multiset::<T>::empty());
}

/// Merge two arranged runs into one.
fn merge<T: Sortable>(left: Vec<T>, right: Vec<T>) -> (merged: Vec<T>)
    requires
        arranged(left@),
        arranged(right@),
    ensures
        arranged(merged@),
        merged@.to_multiset() == left@.to_multiset().add(right@.to_multiset()),
{
    let mut left = left;
    let mut right = right;
    // Built from the back, so that the largest item of either run is always at hand.
    let mut backwards: Vec<T> = Vec::new();
    let ghost whole = left@.to_multiset().add(right@.to_multiset());
    proof {
        lemma_empty_multiset(backwards@);
    }
    while left.len() > 0 || right.len() > 0
        invariant
            arranged(left@),
            arranged(right@),
            left@.to_multiset().add(right@.to_multiset()).add(backwards@.to_multiset()) =~= whole,
            forall|i: int, j: int|
                #![trigger backwards@[i], backwards@[j]]
                0 <= i < j < backwards@.len() ==> backwards@[j].may_precede(&backwards@[i]),
            forall|i: int, j: int|
                #![trigger left@[i], backwards@[j]]
                0 <= i < left@.len() && 0 <= j < backwards@.len() ==> left@[i].may_precede(
                    &backwards@[j],
                ),
            forall|i: int, j: int|
                #![trigger right@[i], backwards@[j]]
                0 <= i < right@.len() && 0 <= j < backwards@.len() ==> right@[i].may_precede(
                    &backwards@[j],
                ),
        decreases left@.len() + right@.len(),
    {
        let ghost left_before = left@;
        let ghost right_before = right@;
        let take_right = if left.len() == 0 {
            true
        } else if right.len() == 0 {
            false
        } else {
            left[left.len() - 1].precedes(&right[right.len() - 1])
        };
        proof {
            broadcast use vstd::seq_lib::group_to_multiset_ensures;

            if left_before.len() > 0 && right_before.len() > 0 {
                let l = left_before.last();
                let r = right_before.last();
                T::precedence_is_total(&l, &r);
                if take_right {
                    assert forall|i: int| 0 <= i < left_before.len() implies (
                    #[trigger] left_before[i]).may_precede(&r) by {
                        if i < left_before.len() - 1 {
                            T::precedence_is_transitive(&left_before[i], &l, &r);
                        }
                    }
                } else {
                    assert forall|i: int| 0 <= i < right_before.len() implies (
                    #[trigger] right_before[i]).may_precede(&l) by {
                        if i < right_before.len() - 1 {
                            T::precedence_is_transitive(&right_before[i], &r, &l);
                        }
                    }
                }
            }
        }
        if take_right {
            let item = match right.pop() {
                Some(item) => item,
                None => {
                    return backwards;
                },
            };
            proof {
                assert(right_before =~= right@.push(item));
                broadcast use vstd::seq_lib::group_to_multiset_ensures;

            }
            backwards.push(item);
        } else {
            let item = match left.pop() {
                Some(item) => item,
                None => {
                    return backwards;
                },
            };
            proof {
                assert(left_before =~= left@.push(item));
                broadcast use vstd::seq_lib::group_to_multiset_ensures;

            }
            backwards.push(item);
        }
    }
    let mut merged: Vec<T> = Vec::new();
    proof {
        lemma_empty_multiset(left@);
        lemma_empty_multiset(right@);
        lemma_empty_multiset(merged@);
    }
    while backwards.len() > 0
        invariant
            merged@.to_multiset().add(backwards@.to_multiset()) =~= whole,
            arranged(merged@),
            forall|i: int, j: int|
                #![trigger backwards@[i], backwards@[j]]
                0 <= i < j < backwards@.len() ==> backwards@[j].may_precede(&backwards@[i]),
            forall|i: int, j: int|
                #![trigger merged@[i], backwards@[j]]
                0 <= i < merged@.len() && 0 <= j < backwards@.len() ==> merged@[i].may_precede(
                    &backwards@[j],
                ),
        decreases backwards@.len(),
    {
        let ghost before = backwards@;
        match backwards.pop() {
            Some(item) => {
                proof {
                    assert(before =~= backwards@.push(item));
                    broadcast use vstd::seq_lib::group_to_multiset_ensures;

                }
                merged.push(item);
            },
            None => {},
        }
    }
    proof {
        lemma_empty_multiset(backwards@);
    }
    merged
}

/// Arrange items by repeated halving and merging.
pub fn merge_sort<T: Sortable>(items: Vec<T>) -> (sorted: Vec<T>)
    ensures
        arranged(sorted@),
        sorted@.to_multiset() == items@.to_multiset(),
    decreases items@.len(),
{
    if items.len() < 2 {
        return items;
    }
    let ghost all = items@;
    let half = items.len() / 2;
    let mut left = items;
    let right = left.split_off(half);
    proof {
        assert(all =~= left@ + right@);
        vstd::seq_lib::lemma_multiset_commutative(left@, right@);
    }
    let left = merge_sort(left);
    let right = merge_sort(right);
    merge(left, right)
}

/// Images of rearranged items are rearranged images.
pub proof fn lemma_mapped_multiset<A, B>(left: Seq<A>, right: Seq<A>, f: spec_fn(A) -> B)
    requires
        left.to_multiset() == right.to_multiset(),
    ensures
        left.map_values(f).to_multiset() == right.map_values(f).to_multiset(),
    decreases left.len(),
{
    broadcast use vstd::seq_lib::group_to_multiset_ensures;

    assert(left.len() == left.to_multiset().len());
    assert(right.len() == right.to_multiset().len());
    if left.len() == 0 {
        assert(left.map_values(f) =~= right.map_values(f));
    } else {
        let item = left.last();
        assert(left.contains(left[left.len() - 1]));
        assert(right.to_multiset().count(item) > 0);
        assert(right.contains(item));
        let at = choose|at: int| 0 <= at < right.len() && right[at] == item;
        let front = left.drop_last();
        let rest = right.remove(at);
        assert(left =~= front.push(item));
        assert(front.to_multiset() =~= left.to_multiset().remove(item));
        assert(rest.to_multiset() =~= right.to_multiset().remove(item));
        lemma_mapped_multiset(front, rest, f);
        assert(left.map_values(f) =~= front.map_values(f).push(f(item)));
        assert(right.map_values(f).remove(at) =~= rest.map_values(f));
        assert(right.map_values(f) =~= rest.map_values(f).insert(at, f(item)));
        assert(left.map_values(f).to_multiset() =~= right.map_values(f).to_multiset());
    }
}

} // verus!
