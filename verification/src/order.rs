//! Strict orders and sorting.

use vstd::prelude::*;

verus! {

/// `less` orders any two different values one way, and never a value before
/// itself.
pub open spec fn is_strict_order<T>(less: spec_fn(T, T) -> bool) -> bool {
    &&& forall|a: T| !(#[trigger] less(a, a))
    &&& forall|a: T, b: T, c: T| #[trigger] less(a, b) && #[trigger] less(b, c) ==> less(a, c)
    &&& forall|a: T, b: T| #[trigger] less(a, b) || less(b, a) || a == b
}

/// Dictionary order: the first difference decides, and a prefix comes first.
pub open spec fn lexical<T>(a: Seq<T>, b: Seq<T>, less: spec_fn(T, T) -> bool) -> bool
    decreases a.len(),
{
    if b.len() == 0 {
        false
    } else if a.len() == 0 {
        true
    } else if a[0] == b[0] {
        lexical(a.skip(1), b.skip(1), less)
    } else {
        less(a[0], b[0])
    }
}

/// Dictionary order as a relation.
pub open spec fn lexical_order<T>(less: spec_fn(T, T) -> bool) -> spec_fn(Seq<T>, Seq<T>) -> bool {
    |a: Seq<T>, b: Seq<T>| lexical(a, b, less)
}

pub open spec fn byte_order() -> spec_fn(u8, u8) -> bool {
    |a: u8, b: u8| a < b
}

pub open spec fn char_order() -> spec_fn(char, char) -> bool {
    |a: char, b: char| a < b
}

/// Dictionary order of texts by code point.
pub open spec fn text_before(a: Seq<char>, b: Seq<char>) -> bool {
    lexical(a, b, char_order())
}

proof fn lemma_lexical_irreflexive<T>(a: Seq<T>, less: spec_fn(T, T) -> bool)
    ensures
        !lexical(a, a, less),
    decreases a.len(),
{
    if a.len() > 0 {
        lemma_lexical_irreflexive(a.skip(1), less);
    }
}

proof fn lemma_lexical_transitive<T>(
    a: Seq<T>,
    b: Seq<T>,
    c: Seq<T>,
    less: spec_fn(T, T) -> bool,
)
    requires
        is_strict_order(less),
        lexical(a, b, less),
        lexical(b, c, less),
    ensures
        lexical(a, c, less),
    decreases a.len(),
{
    if a.len() > 0 {
        if a[0] == b[0] && b[0] == c[0] {
            lemma_lexical_transitive(a.skip(1), b.skip(1), c.skip(1), less);
        } else if a[0] != b[0] && b[0] != c[0] {
            assert(less(a[0], b[0]) && less(b[0], c[0]));
            assert(less(a[0], c[0]));
            if a[0] == c[0] {
                assert(!less(a[0], a[0]));
            }
        }
    }
}

proof fn lemma_lexical_total<T>(a: Seq<T>, b: Seq<T>, less: spec_fn(T, T) -> bool)
    requires
        is_strict_order(less),
    ensures
        lexical(a, b, less) || lexical(b, a, less) || a == b,
    decreases a.len(),
{
    if a.len() == 0 || b.len() == 0 {
        if a.len() == b.len() {
            assert(a =~= b);
        }
    } else if a[0] == b[0] {
        lemma_lexical_total(a.skip(1), b.skip(1), less);
        if a.skip(1) == b.skip(1) {
            assert(a =~= seq![a[0]] + a.skip(1));
            assert(b =~= seq![b[0]] + b.skip(1));
        }
    } else {
        assert(less(a[0], b[0]) || less(b[0], a[0]));
    }
}

/// Dictionary order over a strict order is a strict order.
pub proof fn law_lexical_is_strict<T>(less: spec_fn(T, T) -> bool)
    requires
        is_strict_order(less),
    ensures
        is_strict_order(lexical_order(less)),
{
    let lex = lexical_order(less);
    assert forall|a: Seq<T>| !(#[trigger] lex(a, a)) by {
        lemma_lexical_irreflexive(a, less);
    }
    assert forall|a: Seq<T>, b: Seq<T>, c: Seq<T>| #[trigger]
        lex(a, b) && #[trigger] lex(b, c) implies lex(a, c) by {
        lemma_lexical_transitive(a, b, c, less);
    }
    assert forall|a: Seq<T>, b: Seq<T>| #[trigger] lex(a, b) || lex(b, a) || a == b by {
        lemma_lexical_total(a, b, less);
    }
}

/// Each item comes before every later one, so none occurs twice.
pub open spec fn is_ascending_by<T>(s: Seq<T>, less: spec_fn(T, T) -> bool) -> bool {
    forall|i: int, j: int| 0 <= i < j < s.len() ==> less(#[trigger] s[i], #[trigger] s[j])
}

/// An ascending list is determined by the items in it.
pub proof fn law_ascending_is_unique<T>(a: Seq<T>, b: Seq<T>, less: spec_fn(T, T) -> bool)
    requires
        is_strict_order(less),
        is_ascending_by(a, less),
        is_ascending_by(b, less),
        forall|x: T| a.contains(x) <==> b.contains(x),
    ensures
        a == b,
    decreases a.len(),
{
    if a.len() == 0 {
        if b.len() > 0 {
            assert(b.contains(b[0]));
            assert(a.contains(b[0]));
        }
        assert(a =~= b);
    } else {
        let x = a.last();
        assert(a.contains(x));
        assert(b.contains(x));
        let k = choose|k: int| 0 <= k < b.len() && b[k] == x;
        let y = b.last();
        assert(b.contains(y));
        assert(a.contains(y));
        let l = choose|l: int| 0 <= l < a.len() && a[l] == y;
        if x != y {
            assert(less(a[l], a[a.len() - 1]) && less(b[k], b[b.len() - 1]));
            assert(less(y, x) && less(x, y));
            assert(less(x, x));
        }
        let a1 = a.drop_last();
        let b1 = b.drop_last();
        assert forall|v: T| a1.contains(v) <==> b1.contains(v) by {
            if a1.contains(v) {
                let i = choose|i: int| 0 <= i < a1.len() && a1[i] == v;
                assert(less(a[i], a[a.len() - 1]));
                assert(v != x);
                assert(a.contains(a[i]));
                assert(b.contains(v));
                let j = choose|j: int| 0 <= j < b.len() && b[j] == v;
                assert(b1[j] == v);
            }
            if b1.contains(v) {
                let i = choose|i: int| 0 <= i < b1.len() && b1[i] == v;
                assert(less(b[i], b[b.len() - 1]));
                assert(v != x);
                assert(b.contains(b[i]));
                assert(a.contains(v));
                let j = choose|j: int| 0 <= j < a.len() && a[j] == v;
                assert(a1[j] == v);
            }
        }
        law_ascending_is_unique(a1, b1, less);
        assert(a =~= a1.push(x));
        assert(b =~= b1.push(x));
    }
}

/// The dictionary order of texts is a strict order.
pub proof fn law_text_order_is_strict()
    ensures
        is_strict_order(lexical_order(char_order())),
{
    law_lexical_is_strict(char_order());
}

/// Whether one byte string comes before another in dictionary order.
pub fn bytes_before(a: &[u8], b: &[u8]) -> (res: bool)
    ensures
        res == lexical(a@, b@, byte_order()),
{
    let mut i: usize = 0;
    assert(a@.skip(0) == a@ && b@.skip(0) == b@);
    while i < a.len() && i < b.len()
        invariant
            i <= a.len(),
            i <= b.len(),
            lexical(a@, b@, byte_order()) == lexical(
                a@.skip(i as int),
                b@.skip(i as int),
                byte_order(),
            ),
        decreases a.len() - i,
    {
        if a[i] != b[i] {
            return a[i] < b[i];
        }
        assert(a@.skip(i as int).skip(1) == a@.skip(i + 1));
        assert(b@.skip(i as int).skip(1) == b@.skip(i + 1));
        i = i + 1;
    }
    i < b.len()
}

/// Whether one list of characters comes before another in dictionary order.
pub fn chars_before(a: &[char], b: &[char]) -> (res: bool)
    ensures
        res == text_before(a@, b@),
{
    let mut i: usize = 0;
    assert(a@.skip(0) == a@ && b@.skip(0) == b@);
    while i < a.len() && i < b.len()
        invariant
            i <= a.len(),
            i <= b.len(),
            text_before(a@, b@) == text_before(a@.skip(i as int), b@.skip(i as int)),
        decreases a.len() - i,
    {
        if a[i] != b[i] {
            return a[i] < b[i];
        }
        assert(a@.skip(i as int).skip(1) == a@.skip(i + 1));
        assert(b@.skip(i as int).skip(1) == b@.skip(i + 1));
        i = i + 1;
    }
    i < b.len()
}

/// Values that can be sorted.
pub trait Ranked: Sized {
    spec fn ranks_before(self, other: Self) -> bool;

    fn comes_before(&self, other: &Self) -> (res: bool)
        ensures
            res == self.ranks_before(*other),
    ;

    /// Not coming after is transitive.
    proof fn rank_is_transitive(a: Self, b: Self, c: Self)
        requires
            !b.ranks_before(a),
            !c.ranks_before(b),
        ensures
            !c.ranks_before(a),
    ;

    /// Of two values at most one comes before the other.
    proof fn rank_is_asymmetric(a: Self, b: Self)
        requires
            a.ranks_before(b),
        ensures
            !b.ranks_before(a),
    ;
}

/// No later item comes before an earlier one.
pub open spec fn is_sorted<T: Ranked>(s: Seq<T>) -> bool {
    forall|i: int, j: int| 0 <= i < j < s.len() ==> !(#[trigger] s[j]).ranks_before(#[trigger] s[i])
}

proof fn lemma_push_sorted<T: Ranked>(s: Seq<T>, x: T)
    requires
        is_sorted(s),
        s.len() > 0 ==> !x.ranks_before(s.last()),
    ensures
        is_sorted(s.push(x)),
{
    let t = s.push(x);
    assert forall|i: int, j: int| 0 <= i < j < t.len() implies !(#[trigger] t[j]).ranks_before(
        #[trigger] t[i],
    ) by {
        if j == s.len() && i < s.len() - 1 {
            assert(!s[s.len() - 1].ranks_before(s[i]));
            T::rank_is_transitive(s[i], s.last(), x);
        }
    }
}

/// No item of `s` comes before an earlier one when read backwards.
spec fn is_sorted_backwards<T: Ranked>(s: Seq<T>) -> bool {
    forall|i: int, j: int| 0 <= i < j < s.len() ==> !(#[trigger] s[i]).ranks_before(#[trigger] s[j])
}

/// Every item of `low` may stand before every item of `high`.
spec fn stays_below<T: Ranked>(low: Seq<T>, high: Seq<T>) -> bool {
    forall|i: int, j: int|
        0 <= i < low.len() && 0 <= j < high.len() ==> !(#[trigger] high[j]).ranks_before(
            #[trigger] low[i],
        )
}

proof fn lemma_last_is_top<T: Ranked>(s: Seq<T>, top: T)
    requires
        is_sorted(s),
        s.len() > 0 ==> !top.ranks_before(s.last()),
    ensures
        forall|i: int| 0 <= i < s.len() ==> !top.ranks_before(#[trigger] s[i]),
{
    assert forall|i: int| 0 <= i < s.len() implies !top.ranks_before(#[trigger] s[i]) by {
        if i < s.len() - 1 {
            assert(!s[s.len() - 1].ranks_before(s[i]));
            T::rank_is_transitive(s[i], s.last(), top);
        }
    }
}

/// Merges two sorted lists.
fn merge<T: Ranked>(a: Vec<T>, b: Vec<T>) -> (out: Vec<T>)
    requires
        is_sorted(a@),
        is_sorted(b@),
    ensures
        is_sorted(out@),
        out@.to_multiset() == a@.to_multiset().add(b@.to_multiset()),
{
    broadcast use vstd::seq_lib::group_to_multiset_ensures;

    let mut a = a;
    let mut b = b;
    let ghost whole = a@.to_multiset().add(b@.to_multiset());
    let mut backwards: Vec<T> = Vec::new();
    while a.len() > 0 || b.len() > 0
        invariant
            is_sorted(a@),
            is_sorted(b@),
            is_sorted_backwards(backwards@),
            stays_below(a@, backwards@),
            stays_below(b@, backwards@),
            a@.to_multiset().add(b@.to_multiset()).add(backwards@.to_multiset()) == whole,
        decreases a.len() + b.len(),
    {
        let from_b = if a.len() == 0 {
            true
        } else if b.len() == 0 {
            false
        } else {
            !b[b.len() - 1].comes_before(&a[a.len() - 1])
        };
        let ghost a0 = a@;
        let ghost b0 = b@;
        let ghost done = backwards@;
        if from_b {
            let top = b.pop().unwrap();
            proof {
                assert(b0 == b@.push(top));
                lemma_last_is_top(a0, top);
                if b@.len() > 0 {
                    assert(!b0[b0.len() - 1].ranks_before(b0[b@.len() - 1]));
                }
                lemma_last_is_top(b@, top);
                vstd::seq_lib::to_multiset_build(b@, top);
                vstd::seq_lib::to_multiset_build(done, top);
            }
            backwards.push(top);
        } else {
            let top = a.pop().unwrap();
            proof {
                assert(a0 == a@.push(top));
                if b@.len() > 0 {
                    T::rank_is_asymmetric(b@.last(), top);
                }
                lemma_last_is_top(b0, top);
                if a@.len() > 0 {
                    assert(!a0[a0.len() - 1].ranks_before(a0[a@.len() - 1]));
                }
                lemma_last_is_top(a@, top);
                vstd::seq_lib::to_multiset_build(a@, top);
                vstd::seq_lib::to_multiset_build(done, top);
            }
            backwards.push(top);
        }
        assert(a@.to_multiset().add(b@.to_multiset()).add(backwards@.to_multiset()) =~= whole);
    }
    assert(backwards@.to_multiset() =~= whole);
    let mut out: Vec<T> = Vec::new();
    while backwards.len() > 0
        invariant
            is_sorted(out@),
            is_sorted_backwards(backwards@),
            stays_below(out@, backwards@),
            out@.to_multiset().add(backwards@.to_multiset()) == whole,
        decreases backwards.len(),
    {
        let ghost before = backwards@;
        let ghost done = out@;
        let next = backwards.pop().unwrap();
        proof {
            assert(before == backwards@.push(next));
            assert(!next.ranks_before(next)) by {
                if next.ranks_before(next) {
                    T::rank_is_asymmetric(next, next);
                }
            }
            if done.len() > 0 {
                assert(!before[before.len() - 1].ranks_before(done[done.len() - 1]));
            }
            lemma_push_sorted(done, next);
            vstd::seq_lib::to_multiset_build(backwards@, next);
            vstd::seq_lib::to_multiset_build(done, next);
            assert forall|j: int| 0 <= j < backwards@.len() implies !(
            #[trigger] backwards@[j]).ranks_before(next) by {
                assert(!before[j].ranks_before(before[before.len() - 1]));
            }
        }
        out.push(next);
        assert(out@.to_multiset().add(backwards@.to_multiset()) =~= whole);
    }
    assert(out@.to_multiset() =~= whole);
    out
}

/// The same items in rank order.
pub fn sort<T: Ranked>(items: Vec<T>) -> (out: Vec<T>)
    ensures
        is_sorted(out@),
        out@.to_multiset() == items@.to_multiset(),
    decreases items.len(),
{
    broadcast use vstd::seq_lib::group_to_multiset_ensures;

    let n = items.len();
    if n < 2 {
        return items;
    }
    let mut left = items;
    let ghost whole = left@;
    let right = left.split_off(n / 2);
    proof {
        assert(whole == left@ + right@);
        vstd::seq_lib::lemma_multiset_commutative(left@, right@);
    }
    let left = sort(left);
    let right = sort(right);
    merge(left, right)
}

/// The first difference decides: of two lists that agree up to `k`, the one that
/// ends there comes first, and otherwise the one with the smaller item there.
pub proof fn law_first_difference_decides<T>(
    a: Seq<T>,
    b: Seq<T>,
    less: spec_fn(T, T) -> bool,
    k: int,
)
    requires
        0 <= k <= a.len(),
        k <= b.len(),
        forall|i: int| 0 <= i < k ==> #[trigger] a[i] == b[i],
    ensures
        k == b.len() ==> !lexical(a, b, less),
        k == a.len() && k < b.len() ==> lexical(a, b, less),
        k < a.len() && k < b.len() && a[k] != b[k] ==> lexical(a, b, less) == less(a[k], b[k]),
    decreases k,
{
    if k > 0 {
        assert(a[0] == b[0]);
        let x = a.skip(1);
        let y = b.skip(1);
        assert forall|i: int| 0 <= i < k - 1 implies #[trigger] x[i] == y[i] by {
            assert(a[i + 1] == b[i + 1]);
        }
        law_first_difference_decides(x, y, less, k - 1);
    }
}

/// Texts are ordered by the code point, and byte strings by the byte, at their
/// first difference.
pub proof fn law_texts_are_ordered_by_code_point(
    a: Seq<char>,
    b: Seq<char>,
    x: Seq<u8>,
    y: Seq<u8>,
    k: int,
)
    requires
        0 <= k,
    ensures
        k < a.len() && k < b.len() && (forall|i: int| 0 <= i < k ==> #[trigger] a[i] == b[i])
            && a[k] != b[k] ==> text_before(a, b) == (a[k] < b[k]),
        k == a.len() && k < b.len() && (forall|i: int| 0 <= i < k ==> #[trigger] a[i] == b[i])
            ==> text_before(a, b),
        k < x.len() && k < y.len() && (forall|i: int| 0 <= i < k ==> #[trigger] x[i] == y[i])
            && x[k] != y[k] ==> lexical(x, y, byte_order()) == (x[k] < y[k]),
        k == x.len() && k < y.len() && (forall|i: int| 0 <= i < k ==> #[trigger] x[i] == y[i])
            ==> lexical(x, y, byte_order()),
{
    if k <= a.len() && k <= b.len() && (forall|i: int| 0 <= i < k ==> #[trigger] a[i] == b[i]) {
        law_first_difference_decides(a, b, char_order(), k);
    }
    if k <= x.len() && k <= y.len() && (forall|i: int| 0 <= i < k ==> #[trigger] x[i] == y[i]) {
        law_first_difference_decides(x, y, byte_order(), k);
    }
}

} // verus!
