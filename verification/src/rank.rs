//! Orders by which items are ranked against each other.

use crate::order;
use vstd::prelude::*;

verus! {

/// A type whose values are ranked by a total preorder on what they stand
/// for.
pub trait Ranked: Sized {
    /// The mathematical value that an item stands for.
    type Model;

    /// What `self` stands for.
    spec fn model(&self) -> Self::Model;

    /// `a` ranks at most as high as `b`.
    spec fn le(a: Self::Model, b: Self::Model) -> bool;

    /// Of two values one ranks at most as high as the other.
    proof fn lemma_le_total(a: Self::Model, b: Self::Model)
        ensures
            Self::le(a, b) || Self::le(b, a),
    ;

    /// Ranking is transitive.
    proof fn lemma_le_transitive(a: Self::Model, b: Self::Model, c: Self::Model)
        requires
            Self::le(a, b),
            Self::le(b, c),
        ensures
            Self::le(a, c),
    ;

    /// Decides whether `self` ranks at most as high as `other`.
    fn at_most(&self, other: &Self) -> (r: bool)
        ensures
            r == Self::le(self.model(), other.model()),
    ;
}

/// What the items of `s` stand for, in the same order.
pub open spec fn models<T: Ranked>(s: Seq<T>) -> Seq<T::Model> {
    Seq::new(s.len(), |i: int| s[i].model())
}

/// `s` is in non-decreasing order of rank.
pub open spec fn sorted<T: Ranked>(s: Seq<T::Model>) -> bool {
    forall|i: int, j: int| 0 <= i <= j < s.len() ==> T::le(s[i], s[j])
}

/// `a` comes before `b`, or equals it, when both are read as strings of
/// characters ordered by code point.
pub open spec fn chars_le(a: Seq<char>, b: Seq<char>) -> bool
    decreases a.len(),
{
    if a.len() == 0 {
        true
    } else if b.len() == 0 {
        false
    } else if a[0] != b[0] {
        (a[0] as u32) < (b[0] as u32)
    } else {
        chars_le(a.drop_first(), b.drop_first())
    }
}

/// Of two character strings one is at most the other.
pub proof fn lemma_chars_le_total(a: Seq<char>, b: Seq<char>)
    ensures
        chars_le(a, b) || chars_le(b, a),
    decreases a.len(),
{
    if a.len() > 0 && b.len() > 0 {
        if a[0] == b[0] {
            lemma_chars_le_total(a.drop_first(), b.drop_first());
        } else {
            vstd::utf8::char_u32_cast(a[0], a[0] as u32);
            vstd::utf8::char_u32_cast(b[0], b[0] as u32);
        }
    }
}

/// The order of character strings is transitive.
pub proof fn lemma_chars_le_transitive(a: Seq<char>, b: Seq<char>, c: Seq<char>)
    requires
        chars_le(a, b),
        chars_le(b, c),
    ensures
        chars_le(a, c),
    decreases a.len(),
{
    if a.len() > 0 && b.len() > 0 && c.len() > 0 {
        vstd::utf8::char_u32_cast(a[0], a[0] as u32);
        vstd::utf8::char_u32_cast(b[0], b[0] as u32);
        vstd::utf8::char_u32_cast(c[0], c[0] as u32);
        if a[0] == b[0] && b[0] == c[0] {
            lemma_chars_le_transitive(a.drop_first(), b.drop_first(), c.drop_first());
        }
    }
}

/// Comparing from position `i` on decides the order of two character strings
/// that agree before `i`.
proof fn lemma_chars_le_skip(a: Seq<char>, b: Seq<char>, i: int)
    requires
        0 <= i <= a.len(),
        i <= b.len(),
        a.take(i) == b.take(i),
    ensures
        chars_le(a, b) == chars_le(a.skip(i), b.skip(i)),
    decreases i,
{
    if i == 0 {
        assert(a.skip(0) =~= a);
        assert(b.skip(0) =~= b);
    } else {
        assert(a.take(i - 1) =~= a.take(i).take(i - 1));
        assert(b.take(i - 1) =~= b.take(i).take(i - 1));
        lemma_chars_le_skip(a, b, i - 1);
        let x = a.skip(i - 1);
        let y = b.skip(i - 1);
        assert(a.take(i)[i - 1] == a[i - 1]);
        assert(b.take(i)[i - 1] == b[i - 1]);
        assert(x[0] == a[i - 1]);
        assert(y[0] == b[i - 1]);
        assert(x.drop_first() =~= a.skip(i));
        assert(y.drop_first() =~= b.skip(i));
        assert(chars_le(x, y) == chars_le(x.drop_first(), y.drop_first()));
    }
}

impl Ranked for i64 {
    type Model = i64;

    open spec fn model(&self) -> i64 {
        *self
    }

    open spec fn le(a: i64, b: i64) -> bool {
        a <= b
    }

    proof fn lemma_le_total(a: i64, b: i64) {
    }

    proof fn lemma_le_transitive(a: i64, b: i64, c: i64) {
    }

    fn at_most(&self, other: &Self) -> (r: bool) {
        *self <= *other
    }
}

impl Ranked for Vec<u8> {
    type Model = Seq<u8>;

    open spec fn model(&self) -> Seq<u8> {
        self@
    }

    open spec fn le(a: Seq<u8>, b: Seq<u8>) -> bool {
        order::lex_le(a, b)
    }

    proof fn lemma_le_total(a: Seq<u8>, b: Seq<u8>) {
        order::lemma_lex_le_total(a, b);
    }

    proof fn lemma_le_transitive(a: Seq<u8>, b: Seq<u8>, c: Seq<u8>) {
        order::lemma_lex_le_transitive(a, b, c);
    }

    fn at_most(&self, other: &Self) -> (r: bool) {
        order::bytes_le(self.as_slice(), other.as_slice())
    }
}

impl Ranked for Vec<char> {
    type Model = Seq<char>;

    open spec fn model(&self) -> Seq<char> {
        self@
    }

    open spec fn le(a: Seq<char>, b: Seq<char>) -> bool {
        chars_le(a, b)
    }

    proof fn lemma_le_total(a: Seq<char>, b: Seq<char>) {
        lemma_chars_le_total(a, b);
    }

    proof fn lemma_le_transitive(a: Seq<char>, b: Seq<char>, c: Seq<char>) {
        lemma_chars_le_transitive(a, b, c);
    }

    fn at_most(&self, other: &Self) -> (r: bool) {
        let mut i: usize = 0;
        while i < self.len() && i < other.len()
            invariant
                i <= self.len(),
                i <= other.len(),
                self@.take(i as int) == other@.take(i as int),
            decreases self.len() - i,
        {
            if self[i] != other[i] {
                proof {
                    lemma_chars_le_skip(self@, other@, i as int);
                }
                return (self[i] as u32) < (other[i] as u32);
            }
            assert(self@.take(i + 1) =~= self@.take(i as int).push(self@[i as int]));
            assert(other@.take(i + 1) =~= other@.take(i as int).push(other@[i as int]));
            i += 1;
        }
        proof {
            lemma_chars_le_skip(self@, other@, i as int);
        }
        i == self.len()
    }
}

/// Pairs rank by their first part, and by their second where the first
/// parts rank alike.
impl<A: Ranked, B: Ranked> Ranked for (A, B) {
    type Model = (A::Model, B::Model);

    open spec fn model(&self) -> (A::Model, B::Model) {
        (self.0.model(), self.1.model())
    }

    open spec fn le(a: (A::Model, B::Model), b: (A::Model, B::Model)) -> bool {
        if !A::le(b.0, a.0) {
            true
        } else if !A::le(a.0, b.0) {
            false
        } else {
            B::le(a.1, b.1)
        }
    }

    proof fn lemma_le_total(a: (A::Model, B::Model), b: (A::Model, B::Model)) {
        A::lemma_le_total(a.0, b.0);
        B::lemma_le_total(a.1, b.1);
    }

    proof fn lemma_le_transitive(
        a: (A::Model, B::Model),
        b: (A::Model, B::Model),
        c: (A::Model, B::Model),
    ) {
        A::lemma_le_total(a.0, b.0);
        A::lemma_le_total(b.0, c.0);
        A::lemma_le_total(a.0, c.0);
        if A::le(a.0, b.0) && A::le(b.0, c.0) {
            A::lemma_le_transitive(a.0, b.0, c.0);
        }
        if A::le(c.0, a.0) && A::le(a.0, b.0) {
            A::lemma_le_transitive(c.0, a.0, b.0);
        }
        if A::le(b.0, c.0) && A::le(c.0, a.0) {
            A::lemma_le_transitive(b.0, c.0, a.0);
        }
        if B::le(a.1, b.1) && B::le(b.1, c.1) {
            B::lemma_le_transitive(a.1, b.1, c.1);
        }
    }

    fn at_most(&self, other: &Self) -> (r: bool) {
        if !other.0.at_most(&self.0) {
            true
        } else if !self.0.at_most(&other.0) {
            false
        } else {
            self.1.at_most(&other.1)
        }
    }
}

/// Where `x` goes into the sorted sequence `s`: behind the last item that
/// ranks at most as high as `x`.
pub open spec fn rank_of<T: Ranked>(s: Seq<T::Model>, x: T::Model) -> int
    decreases s.len(),
{
    if s.len() == 0 {
        0
    } else if T::le(s.last(), x) {
        s.len() as int
    } else {
        rank_of::<T>(s.drop_last(), x)
    }
}

/// The sorted sequence `s` with `x` put in at its rank.
pub open spec fn insert_sorted<T: Ranked>(s: Seq<T::Model>, x: T::Model) -> Seq<T::Model> {
    s.insert(rank_of::<T>(s, x), x)
}

/// The rank of `x` in a sorted sequence parts it: what stands before ranks at
/// most as high as `x`, and `x` ranks at most as high as what stands behind.
pub proof fn lemma_rank_of<T: Ranked>(s: Seq<T::Model>, x: T::Model)
    requires
        sorted::<T>(s),
    ensures
        0 <= rank_of::<T>(s, x) <= s.len(),
        forall|i: int| 0 <= i < rank_of::<T>(s, x) ==> T::le(#[trigger] s[i], x),
        forall|i: int|
            rank_of::<T>(s, x) <= i < s.len() ==> T::le(x, #[trigger] s[i]) && !T::le(s[i], x),
    decreases s.len(),
{
    if s.len() > 0 {
        if T::le(s.last(), x) {
            assert forall|i: int| 0 <= i < s.len() implies T::le(#[trigger] s[i], x) by {
                T::lemma_le_transitive(s[i], s.last(), x);
            }
        } else {
            let rest = s.drop_last();
            assert(sorted::<T>(rest)) by {
                assert forall|i: int, j: int| 0 <= i <= j < rest.len() implies T::le(
                    rest[i],
                    rest[j],
                ) by {
                    assert(rest[i] == s[i] && rest[j] == s[j]);
                }
            }
            lemma_rank_of::<T>(rest, x);
            T::lemma_le_total(s.last(), x);
            assert forall|i: int| 0 <= i < rank_of::<T>(s, x) implies T::le(#[trigger] s[i], x) by {
                assert(rest[i] == s[i]);
            }
            assert forall|i: int| rank_of::<T>(s, x) <= i < s.len() implies T::le(
                x,
                #[trigger] s[i],
            ) && !T::le(s[i], x) by {
                if i < rest.len() {
                    assert(rest[i] == s[i]);
                }
            }
        }
    }
}

/// Putting an item into a sorted sequence at its rank leaves it sorted.
pub proof fn lemma_insert_sorted<T: Ranked>(s: Seq<T::Model>, x: T::Model)
    requires
        sorted::<T>(s),
    ensures
        sorted::<T>(insert_sorted::<T>(s, x)),
        insert_sorted::<T>(s, x).len() == s.len() + 1,
{
    lemma_rank_of::<T>(s, x);
    let p = rank_of::<T>(s, x);
    let t = insert_sorted::<T>(s, x);
    T::lemma_le_total(x, x);
    assert forall|i: int, j: int| 0 <= i <= j < t.len() implies T::le(t[i], t[j]) by {
        if i < p {
            assert(t[i] == s[i]);
        } else if i > p {
            assert(t[i] == s[i - 1]);
        }
        if j < p {
            assert(t[j] == s[j]);
        } else if j > p {
            assert(t[j] == s[j - 1]);
        }
    }
}

/// The rank is the one place that parts a sorted sequence so.
pub proof fn lemma_rank_unique<T: Ranked>(s: Seq<T::Model>, x: T::Model, p: int)
    requires
        sorted::<T>(s),
        0 <= p <= s.len(),
        forall|i: int| 0 <= i < p ==> T::le(#[trigger] s[i], x),
        forall|i: int| p <= i < s.len() ==> !T::le(#[trigger] s[i], x),
    ensures
        p == rank_of::<T>(s, x),
{
    lemma_rank_of::<T>(s, x);
    let r = rank_of::<T>(s, x);
    if p < r {
        assert(T::le(s[p], x));
    } else if r < p {
        assert(T::le(s[r], x));
    }
}

/// A prefix of a sorted sequence is sorted.
pub proof fn lemma_sorted_take<T: Ranked>(s: Seq<T::Model>, m: int)
    requires
        sorted::<T>(s),
        0 <= m <= s.len(),
    ensures
        sorted::<T>(s.take(m)),
{
    let t = s.take(m);
    assert forall|i: int, j: int| 0 <= i <= j < t.len() implies T::le(t[i], t[j]) by {
        assert(t[i] == s[i] && t[j] == s[j]);
    }
}

/// The rank of an item in a prefix of a sorted sequence is its rank in the
/// whole, or the end of the prefix where that lies beyond.
pub proof fn lemma_rank_in_prefix<T: Ranked>(s: Seq<T::Model>, m: int, x: T::Model)
    requires
        sorted::<T>(s),
        0 <= m <= s.len(),
    ensures
        rank_of::<T>(s.take(m), x) == if rank_of::<T>(s, x) <= m {
            rank_of::<T>(s, x)
        } else {
            m
        },
{
    lemma_rank_of::<T>(s, x);
    lemma_sorted_take::<T>(s, m);
    let t = s.take(m);
    let r = rank_of::<T>(s, x);
    let p = if r <= m {
        r
    } else {
        m
    };
    assert forall|i: int| 0 <= i < p implies T::le(#[trigger] t[i], x) by {
        assert(t[i] == s[i]);
    }
    assert forall|i: int| p <= i < t.len() implies !T::le(#[trigger] t[i], x) by {
        assert(t[i] == s[i]);
    }
    lemma_rank_unique::<T>(t, x, p);
}

/// The items of `all` sorted by rank, items that rank alike in the order in
/// which they come.
pub open spec fn sort_of<T: Ranked>(all: Seq<T::Model>) -> Seq<T::Model>
    decreases all.len(),
{
    if all.len() == 0 {
        Seq::empty()
    } else {
        insert_sorted::<T>(sort_of::<T>(all.drop_last()), all.last())
    }
}

/// Sorting gives a sorted sequence of the same items.
pub proof fn lemma_sort_of<T: Ranked>(all: Seq<T::Model>)
    ensures
        sorted::<T>(sort_of::<T>(all)),
        sort_of::<T>(all).len() == all.len(),
        sort_of::<T>(all).to_multiset() == all.to_multiset(),
    decreases all.len(),
{
    if all.len() > 0 {
        let rest = all.drop_last();
        let x = all.last();
        lemma_sort_of::<T>(rest);
        let before = sort_of::<T>(rest);
        lemma_rank_of::<T>(before, x);
        lemma_insert_sorted::<T>(before, x);
        vstd::seq_lib::to_multiset_insert(before, rank_of::<T>(before, x), x);
        vstd::seq_lib::to_multiset_build(rest, x);
        assert(all =~= rest.push(x));
    } else {
        assert(all =~= Seq::<T::Model>::empty());
    }
}

/// Finds the rank of `data` in the sorted vector `items` by bisection.
pub fn rank_position<T: Ranked>(items: &Vec<T>, data: &T) -> (p: usize)
    requires
        sorted::<T>(models(items@)),
    ensures
        p == rank_of::<T>(models(items@), data.model()),
        p <= items.len(),
        p > 0 ==> T::le(items@[p - 1].model(), data.model()),
{
    let ghost all = models(items@);
    let ghost x = data.model();
    let mut lo: usize = 0;
    let mut hi: usize = items.len();
    while lo < hi
        invariant
            lo <= hi <= items.len(),
            all == models(items@),
            x == data.model(),
            sorted::<T>(all),
            forall|i: int| 0 <= i < lo ==> T::le(#[trigger] all[i], x),
            forall|i: int| hi <= i < all.len() ==> !T::le(#[trigger] all[i], x),
        decreases hi - lo,
    {
        let mid = lo + (hi - lo) / 2;
        if items[mid].at_most(data) {
            assert forall|i: int| 0 <= i < mid + 1 implies T::le(#[trigger] all[i], x) by {
                T::lemma_le_transitive(all[i], all[mid as int], x);
            }
            lo = mid + 1;
        } else {
            assert forall|i: int| mid <= i < all.len() implies !T::le(#[trigger] all[i], x) by {
                if T::le(all[i], x) {
                    T::lemma_le_transitive(all[mid as int], all[i], x);
                }
            }
            hi = mid;
        }
    }
    proof {
        lemma_rank_unique::<T>(all, x, lo as int);
        if lo > 0 {
            assert(all[lo - 1] == items@[lo - 1].model());
        }
    }
    lo
}

/// Puts `data` into the sorted vector `items` at its rank.
pub fn insert_ranked<T: Ranked>(items: &mut Vec<T>, data: T)
    requires
        sorted::<T>(models(old(items)@)),
    ensures
        models(final(items)@) == insert_sorted::<T>(models(old(items)@), data.model()),
        sorted::<T>(models(final(items)@)),
        final(items)@.len() == old(items)@.len() + 1,
{
    let ghost before = models(items@);
    let p = rank_position(items, &data);
    proof {
        lemma_insert_sorted::<T>(before, data.model());
    }
    items.insert(p, data);
    assert(models(items@) =~= before.insert(p as int, data.model()));
}

} // verus!
