//! Orders used to sort the library's outputs deterministically, and a verified stable
//! insertion sort over any type that supplies one.

use vstd::prelude::*;
use crate::path::{Comp, PathComponent};

verus! {

broadcast use vstd::seq_lib::group_to_multiset_ensures;

/// Lexicographic comparison of two sequences under the element comparison `f`, as
/// `-1`, `0` or `1` (the order of `Iterator::cmp` and of string and slice `Ord`).
pub open spec fn compare_lex<T>(a: Seq<T>, b: Seq<T>, f: spec_fn(T, T) -> int) -> int
    decreases a.len(),
{
    if a.len() == 0 {
        if b.len() == 0 { 0 } else { -1 }
    } else if b.len() == 0 {
        1
    } else if f(a[0], b[0]) != 0 {
        f(a[0], b[0])
    } else {
        compare_lex(a.drop_first(), b.drop_first(), f)
    }
}

/// `f` is a three-way comparison of a total order.
pub open spec fn is_total_order<T>(f: spec_fn(T, T) -> int) -> bool {
    &&& forall|x: T, y: T| #[trigger] f(x, y) == -f(y, x)
    &&& forall|x: T, y: T| -1 <= #[trigger] f(x, y) <= 1
    &&& forall|x: T, y: T| #[trigger] f(x, y) == 0 <==> x == y
    &&& forall|x: T, y: T, z: T| #[trigger] f(x, y) <= 0 && #[trigger] f(y, z) <= 0 ==> f(x, z) <= 0
}

/// The lexicographic extension of a total order is a total order.
pub proof fn lemma_compare_lex<T>(a: Seq<T>, b: Seq<T>, c: Seq<T>, f: spec_fn(T, T) -> int)
    requires
        is_total_order(f),
    ensures
        compare_lex(a, b, f) == -compare_lex(b, a, f),
        -1 <= compare_lex(a, b, f) <= 1,
        compare_lex(a, b, f) == 0 <==> a == b,
        compare_lex(a, b, f) <= 0 && compare_lex(b, c, f) <= 0 ==> compare_lex(a, c, f) <= 0,
    decreases a.len(),
{
    if a.len() > 0 && b.len() > 0 {
        lemma_compare_lex(a.drop_first(), b.drop_first(), c.drop_first(), f);
        if f(a[0], b[0]) == 0 && compare_lex(a, b, f) == 0 {
            assert(a =~= seq![a[0]] + a.drop_first());
            assert(b =~= seq![b[0]] + b.drop_first());
        }
        if a == b {
            assert(a.drop_first() == b.drop_first());
        }
        if c.len() > 0 {
            assert(f(a[0], b[0]) <= 0 && f(b[0], c[0]) <= 0 ==> f(a[0], c[0]) <= 0);
            if f(a[0], b[0]) < 0 && f(b[0], c[0]) <= 0 {
                if f(a[0], c[0]) == 0 {
                    assert(a[0] == c[0]);
                    assert(f(b[0], a[0]) > 0);
                }
            }
            if f(a[0], b[0]) <= 0 && f(b[0], c[0]) < 0 {
                if f(a[0], c[0]) == 0 {
                    assert(a[0] == c[0]);
                }
            }
            if f(a[0], b[0]) == 0 && f(b[0], c[0]) == 0 {
                assert(a[0] == b[0] && b[0] == c[0]);
            }
        }
    } else if a.len() == 0 && b.len() == 0 {
        assert(a =~= b);
    }
}

/// Three-way comparison of characters by code point.
pub open spec fn compare_char(x: char, y: char) -> int {
    if x < y { -1 } else if x > y { 1 } else { 0 }
}

/// Code point order of strings, the order of `String`'s `Ord`.
pub open spec fn compare_text(a: Seq<char>, b: Seq<char>) -> int {
    compare_lex(a, b, |x: char, y: char| compare_char(x, y))
}

/// `compare_text` is a total order: antisymmetric, reflexive only on equal strings,
/// transitive.
pub proof fn lemma_compare_text(a: Seq<char>, b: Seq<char>, c: Seq<char>)
    ensures
        compare_text(a, b) == -compare_text(b, a),
        -1 <= compare_text(a, b) <= 1,
        compare_text(a, b) == 0 <==> a == b,
        compare_text(a, b) <= 0 && compare_text(b, c) <= 0 ==> compare_text(a, c) <= 0,
{
    let f = |x: char, y: char| compare_char(x, y);
    assert(is_total_order(f));
    lemma_compare_lex(a, b, c, f);
}

/// Rank of a component's kind in `std::path::Component`'s order.
pub open spec fn comp_rank(c: Comp) -> int {
    match c {
        Comp::RootDir => 1,
        Comp::CurDir => 2,
        Comp::ParentDir => 3,
        Comp::Normal(_) => 4,
    }
}

/// `std::path::Component`'s order: by kind (root, `.`, `..`, normal), normal components by
/// their text.
pub open spec fn compare_comp(a: Comp, b: Comp) -> int {
    if comp_rank(a) < comp_rank(b) {
        -1
    } else if comp_rank(a) > comp_rank(b) {
        1
    } else {
        match (a, b) {
            (Comp::Normal(x), Comp::Normal(y)) => compare_text(x, y),
            _ => 0,
        }
    }
}

/// `Path`'s order: lexicographic over components.
pub open spec fn compare_comps(a: Seq<Comp>, b: Seq<Comp>) -> int {
    compare_lex(a, b, |x: Comp, y: Comp| compare_comp(x, y))
}

proof fn lemma_compare_comp_total()
    ensures
        is_total_order(|x: Comp, y: Comp| compare_comp(x, y)),
{
    assert forall|x: Comp, y: Comp, z: Comp|
        compare_comp(x, y) <= 0 && compare_comp(y, z) <= 0 implies compare_comp(x, z) <= 0 by {
        if let (Comp::Normal(a), Comp::Normal(b), Comp::Normal(c)) = (x, y, z) {
            lemma_compare_text(a, b, c);
        }
    }
    assert forall|x: Comp, y: Comp| compare_comp(x, y) == -compare_comp(y, x) && -1 <= compare_comp(x, y) <= 1
        && (compare_comp(x, y) == 0 <==> x == y) by {
        if let (Comp::Normal(a), Comp::Normal(b)) = (x, y) {
            lemma_compare_text(a, b, b);
        }
    }
}

/// `compare_comps` is a total order on component lists.
pub proof fn lemma_compare_comps(a: Seq<Comp>, b: Seq<Comp>, c: Seq<Comp>)
    ensures
        compare_comps(a, b) == -compare_comps(b, a),
        -1 <= compare_comps(a, b) <= 1,
        compare_comps(a, b) == 0 <==> a == b,
        compare_comps(a, b) <= 0 && compare_comps(b, c) <= 0 ==> compare_comps(a, c) <= 0,
{
    lemma_compare_comp_total();
    lemma_compare_lex(a, b, c, |x: Comp, y: Comp| compare_comp(x, y));
}

/// Code point order of two strings, as `-1`, `0` or `1`.
pub fn compare_strs(a: &str, b: &str) -> (r: i8)
    ensures
        r as int == compare_text(a@, b@),
{
    let ca = crate::path::chars_of(a);
    let cb = crate::path::chars_of(b);
    let mut i: usize = 0;
    assert(a@.skip(0) =~= a@ && b@.skip(0) =~= b@);
    while i < ca.len() && i < cb.len()
        invariant
            ca@ == a@,
            cb@ == b@,
            i <= ca@.len() && i <= cb@.len(),
            compare_text(a@, b@) == compare_text(a@.skip(i as int), b@.skip(i as int)),
        decreases ca@.len() - i,
    {
        assert(a@.skip(i as int).drop_first() =~= a@.skip(i + 1));
        assert(b@.skip(i as int).drop_first() =~= b@.skip(i + 1));
        if ca[i] < cb[i] {
            return -1;
        }
        if ca[i] > cb[i] {
            return 1;
        }
        i = i + 1;
    }
    if ca.len() == cb.len() {
        0
    } else if i == ca.len() {
        -1
    } else {
        1
    }
}

/// Component order, as `-1`, `0` or `1`.
pub fn compare_components(a: &PathComponent, b: &PathComponent) -> (r: i8)
    ensures
        r as int == compare_comp(a@, b@),
{
    let ra: u8 = match a {
        PathComponent::RootDir => 1,
        PathComponent::CurDir => 2,
        PathComponent::ParentDir => 3,
        PathComponent::Normal(_) => 4,
    };
    let rb: u8 = match b {
        PathComponent::RootDir => 1,
        PathComponent::CurDir => 2,
        PathComponent::ParentDir => 3,
        PathComponent::Normal(_) => 4,
    };
    if ra < rb {
        -1
    } else if ra > rb {
        1
    } else {
        match (a, b) {
            (PathComponent::Normal(x), PathComponent::Normal(y)) => compare_strs(x.as_str(), y.as_str()),
            _ => 0,
        }
    }
}

/// Path order of two component lists, as `-1`, `0` or `1`.
pub fn compare_component_lists(a: &Vec<PathComponent>, b: &Vec<PathComponent>) -> (r: i8)
    ensures
        r as int == compare_comps(
            a@.map_values(|c: PathComponent| c@),
            b@.map_values(|c: PathComponent| c@),
        ),
{
    let ghost av = a@.map_values(|c: PathComponent| c@);
    let ghost bv = b@.map_values(|c: PathComponent| c@);
    let mut i: usize = 0;
    assert(av.skip(0) =~= av && bv.skip(0) =~= bv);
    while i < a.len() && i < b.len()
        invariant
            av == a@.map_values(|c: PathComponent| c@),
            bv == b@.map_values(|c: PathComponent| c@),
            i <= a@.len() && i <= b@.len(),
            compare_comps(av, bv) == compare_comps(av.skip(i as int), bv.skip(i as int)),
        decreases a@.len() - i,
    {
        assert(av.skip(i as int).drop_first() =~= av.skip(i + 1));
        assert(bv.skip(i as int).drop_first() =~= bv.skip(i + 1));
        assert(av.skip(i as int)[0] == a@[i as int]@);
        assert(bv.skip(i as int)[0] == b@[i as int]@);
        let c = compare_components(&a[i], &b[i]);
        if c != 0 {
            return c;
        }
        i = i + 1;
    }
    if a.len() == b.len() {
        0
    } else if i == a.len() {
        -1
    } else {
        1
    }
}

/// Two sequences with the same elements (as multisets) still have the same elements after
/// mapping both with `f`.
pub proof fn lemma_multiset_map<A, B>(s1: Seq<A>, s2: Seq<A>, f: spec_fn(A) -> B)
    requires
        s1.to_multiset() == s2.to_multiset(),
    ensures
        s1.map_values(f).to_multiset() == s2.map_values(f).to_multiset(),
    decreases s1.len(),
{
    broadcast use vstd::multiset::group_multiset_axioms;
    vstd::seq_lib::to_multiset_len(s1);
    vstd::seq_lib::to_multiset_len(s2);
    if s1.len() == 0 {
        assert(s2.len() == 0);
        assert(s1.map_values(f) =~= Seq::<B>::empty());
        assert(s2.map_values(f) =~= Seq::<B>::empty());
    } else {
        let x = s1.last();
        let s1r = s1.drop_last();
        assert(s1 == s1r.push(x));
        vstd::seq_lib::to_multiset_build(s1r, x);
        assert(s1.contains(x)) by {
            assert(s1[s1.len() - 1] == x);
        }
        vstd::seq_lib::to_multiset_contains(s1, x);
        vstd::seq_lib::to_multiset_contains(s2, x);
        let j = choose|j: int| 0 <= j < s2.len() && s2[j] == x;
        let s2r = s2.remove(j);
        vstd::seq_lib::to_multiset_remove(s2, j);
        assert(s1r.to_multiset() =~= s1.to_multiset().remove(x));
        lemma_multiset_map(s1r, s2r, f);
        assert(s1.map_values(f) =~= s1r.map_values(f).push(f(x)));
        vstd::seq_lib::to_multiset_build(s1r.map_values(f), f(x));
        assert(s2.map_values(f) =~= s2r.map_values(f).insert(j, f(x)));
        vstd::seq_lib::to_multiset_insert(s2r.map_values(f), j, f(x));
    }
}

/// Two sequences with the same elements contain the same values.
pub proof fn lemma_multiset_contains<A>(s1: Seq<A>, s2: Seq<A>, x: A)
    requires
        s1.to_multiset() == s2.to_multiset(),
    ensures
        s1.contains(x) <==> s2.contains(x),
{
    vstd::seq_lib::to_multiset_contains(s1, x);
    vstd::seq_lib::to_multiset_contains(s2, x);
}

/// A rearrangement of a sequence without duplicates has none either.
pub proof fn lemma_multiset_no_duplicates<A>(s1: Seq<A>, s2: Seq<A>)
    requires
        s1.to_multiset() == s2.to_multiset(),
        s2.no_duplicates(),
    ensures
        s1.no_duplicates(),
{
    s2.lemma_multiset_has_no_duplicates();
    s1.lemma_multiset_has_no_duplicates_conv();
}

/// A type with a total preorder, given as a three-way comparison.
pub trait Ordered: Sized {
    /// `-1`, `0` or `1` as `self` sorts before, with, or after `other`.
    spec fn order(self, other: Self) -> int;

    fn compare(&self, other: &Self) -> (r: i8)
        ensures
            r as int == self.order(*other),
    ;

    proof fn lemma_order(a: Self, b: Self, c: Self)
        ensures
            a.order(b) == -b.order(a),
            -1 <= a.order(b) <= 1,
            a.order(b) <= 0 && b.order(c) <= 0 ==> a.order(c) <= 0,
    ;
}

/// `s` is in non-decreasing order.
pub open spec fn is_sorted<T: Ordered>(s: Seq<T>) -> bool {
    forall|i: int, j: int| 0 <= i < j < s.len() ==> (#[trigger] s[i]).order(#[trigger] s[j]) <= 0
}

/// Sorts `v` (stable insertion sort).
#[verifier::spinoff_prover]
pub fn sort_ordered<T: Ordered>(v: Vec<T>) -> (r: Vec<T>)
    ensures
        r@.to_multiset() == v@.to_multiset(),
        r@.len() == v@.len(),
        is_sorted(r@),
{
    let mut rest = v;
    let mut out: Vec<T> = Vec::new();
    proof {
        assert(out@.to_multiset() =~= vstd::multiset::Multiset::empty());
    }
    while rest.len() > 0
        invariant
            out@.to_multiset().add(rest@.to_multiset()) == v@.to_multiset(),
            is_sorted(out@),
        decreases rest@.len(),
    {
        let ghost rest_before = rest@;
        let x = rest.pop().unwrap();
        proof {
            assert(rest_before == rest@.push(x));
            vstd::seq_lib::to_multiset_build(rest@, x);
        }
        // Insert `x` before the first element that does not sort strictly before it, so
        // equal elements keep their original relative order.
        let mut pos: usize = 0;
        while pos < out.len() && out[pos].compare(&x) < 0
            invariant
                pos <= out@.len(),
                forall|i: int| 0 <= i < pos ==> (#[trigger] out@[i]).order(x) < 0,
            decreases out@.len() - pos,
        {
            pos = pos + 1;
        }
        let ghost before = out@;
        proof {
            vstd::seq_lib::to_multiset_insert(before, pos as int, x);
        }
        out.insert(pos, x);
        proof {
            assert(out@ == before.insert(pos as int, x));
            assert forall|i: int, j: int| 0 <= i < j < out@.len() implies (#[trigger] out@[i]).order(
                #[trigger] out@[j],
            ) <= 0 by {
                if i < pos && j == pos {
                    assert(out@[i] == before[i]);
                    T::lemma_order(before[i], x, x);
                } else if i < pos && j > pos {
                    assert(out@[i] == before[i]);
                    assert(out@[j] == before[j - 1]);
                } else if i == pos {
                    assert(out@[j] == before[j - 1]);
                    T::lemma_order(before[pos as int], x, x);
                    T::lemma_order(x, before[pos as int], before[j - 1]);
                } else if i > pos {
                    assert(out@[i] == before[i - 1] && out@[j] == before[j - 1]);
                } else {
                    assert(out@[i] == before[i] && out@[j] == before[j]);
                }
            }
            assert(out@.to_multiset().add(rest@.to_multiset()) =~= v@.to_multiset());
        }
    }
    proof {
        assert(rest@ =~= Seq::<T>::empty());
        assert(out@.to_multiset().add(rest@.to_multiset()) =~= out@.to_multiset());
        vstd::seq_lib::to_multiset_len(out@);
        vstd::seq_lib::to_multiset_len(v@);
    }
    out
}

} // verus!
