//! Bounded containers that keep the k lowest or the k highest of the items
//! pushed into them.

use crate::rank;
use crate::rank::Ranked;
use vstd::prelude::*;

verus! {

/// What a container of the lowest items holds after `x` is pushed: below its
/// limit it takes `x` in; at its limit it keeps what it has where `x` ranks
/// at least as high as the highest kept, and else lets the highest go for `x`.
pub open spec fn lowest_pushed<T: Ranked>(s: Seq<T::Model>, limit: nat, x: T::Model) -> Seq<
    T::Model,
> {
    if s.len() < limit {
        rank::insert_sorted::<T>(s, x)
    } else if s.len() == 0 || T::le(s.last(), x) {
        s
    } else {
        rank::insert_sorted::<T>(s.drop_last(), x)
    }
}

/// What a container with limit `limit` holds after the items of `all` were
/// pushed into it one by one, beginning empty.
pub open spec fn lowest_of<T: Ranked>(all: Seq<T::Model>, limit: nat) -> Seq<T::Model>
    decreases all.len(),
{
    if all.len() == 0 {
        Seq::empty()
    } else {
        lowest_pushed::<T>(lowest_of::<T>(all.drop_last(), limit), limit, all.last())
    }
}

/// What a container holds. After the items of `all` were pushed into a
/// container with limit `limit`, it holds the first `limit` of them in
/// sorted order, or all of them where they are fewer: the lowest, and of
/// items that rank alike those that came first.
pub proof fn lemma_lowest_of<T: Ranked>(all: Seq<T::Model>, limit: nat)
    ensures
        lowest_of::<T>(all, limit) == rank::sort_of::<T>(all).take(
            if limit <= all.len() {
                limit as int
            } else {
                all.len() as int
            },
        ),
    decreases all.len(),
{
    if all.len() == 0 {
        assert(rank::sort_of::<T>(all).take(0) =~= Seq::<T::Model>::empty());
    } else {
        let rest = all.drop_last();
        let x = all.last();
        let n = rest.len() as int;
        let k = limit as int;
        let s = rank::sort_of::<T>(rest);
        let after = rank::sort_of::<T>(all);
        lemma_lowest_of::<T>(rest, limit);
        rank::lemma_sort_of::<T>(rest);
        rank::lemma_rank_of::<T>(s, x);
        let r = rank::rank_of::<T>(s, x);
        let kept = lowest_of::<T>(rest, limit);
        if n < k {
            assert(kept =~= s);
            assert(after.take(n + 1) =~= after);
        } else if k == 0 {
            assert(after.take(0) =~= kept);
        } else {
            assert(kept.last() == s[k - 1]);
            if T::le(s[k - 1], x) {
                assert(after.take(k) =~= kept);
            } else {
                rank::lemma_rank_in_prefix::<T>(s, k - 1, x);
                assert(kept.drop_last() =~= s.take(k - 1));
                assert(s.take(k - 1).insert(r, x) =~= after.take(k));
            }
        }
    }
}

/// After the items of `all` were pushed into a container of the highest
/// with limit `limit`, it holds the first `limit` of them sorted from the
/// highest down: the highest, and of items that rank alike those that came
/// first.
pub proof fn lemma_highest_of<T: Ranked>(all: Seq<T::Model>, limit: nat)
    ensures
        highest_of::<T>(all, limit) == rank::sort_of::<Reversed<T>>(all).take(
            if limit <= all.len() {
                limit as int
            } else {
                all.len() as int
            },
        ),
{
    lemma_lowest_of::<Reversed<T>>(all, limit);
}

/// A push keeps a container's items sorted and within its limit.
pub proof fn lemma_lowest_pushed<T: Ranked>(s: Seq<T::Model>, limit: nat, x: T::Model)
    requires
        rank::sorted::<T>(s),
        s.len() <= limit,
    ensures
        rank::sorted::<T>(lowest_pushed::<T>(s, limit, x)),
        lowest_pushed::<T>(s, limit, x).len() <= limit,
        lowest_pushed::<T>(s, limit, x).len() == if s.len() < limit {
            s.len() + 1
        } else {
            s.len()
        },
{
    if s.len() < limit {
        rank::lemma_insert_sorted::<T>(s, x);
    } else if s.len() == 0 || T::le(s.last(), x) {
    } else {
        let rest = s.drop_last();
        assert(rank::sorted::<T>(rest)) by {
            assert forall|i: int, j: int| 0 <= i <= j < rest.len() implies T::le(
                rest[i],
                rest[j],
            ) by {
                assert(rest[i] == s[i] && rest[j] == s[j]);
            }
        }
        rank::lemma_insert_sorted::<T>(rest, x);
    }
}

/// Keeps the `k` lowest of the items pushed into it.
pub struct BottomK<T: Ranked> {
    items: Vec<T>,
    k: usize,
}

impl<T: Ranked> View for BottomK<T> {
    type V = Seq<T::Model>;

    /// The items kept, lowest first.
    closed spec fn view(&self) -> Seq<T::Model> {
        rank::models(self.items@)
    }
}

impl<T: Ranked> BottomK<T> {
    #[verifier::type_invariant]
    spec fn well_formed(&self) -> bool {
        &&& self.k >= 1
        &&& self.items.len() <= self.k
        &&& rank::sorted::<T>(rank::models(self.items@))
    }

    /// How many items the container keeps at most.
    pub closed spec fn limit(&self) -> nat {
        self.k as nat
    }

    /// An empty container that keeps up to `k` items.
    pub fn new(k: usize) -> (r: Self)
        requires
            k > 0,
        ensures
            r@ == Seq::<T::Model>::empty(),
            r.limit() == k,
    {
        let r = BottomK { items: Vec::new(), k };
        assert(rank::models(r.items@) =~= Seq::<T::Model>::empty());
        r
    }
}

/// A container that selects up to a fixed number of the items pushed into
/// it.
pub trait SelectK<T: Ranked>: Sized {
    /// The items kept, in the order in which they come out sorted.
    spec fn kept(&self) -> Seq<T::Model>;

    /// How many items are kept at most.
    spec fn bound(&self) -> nat;

    /// What is kept after a push of `data` onto `kept` under `bound`.
    spec fn pushed(kept: Seq<T::Model>, bound: nat, data: T::Model) -> Seq<T::Model>;

    /// Offers `data` to the container.
    fn push(&mut self, data: T)
        ensures
            final(self).bound() == old(self).bound(),
            final(self).kept() == Self::pushed(old(self).kept(), old(self).bound(), data.model()),
            final(self).kept().len() <= final(self).bound(),
    ;

    /// Hands out the items kept.
    fn into_vector(self) -> (r: Vec<T>)
        ensures
            rank::models(r@) == self.kept(),
    ;

    /// Hands out the items kept, sorted: the best first.
    fn into_sorted_vector(self) -> (r: Vec<T>)
        ensures
            rank::models(r@) == self.kept(),
    ;

    /// How many items are kept.
    fn len(&self) -> (n: usize)
        ensures
            n == self.kept().len(),
    ;

    /// Whether nothing is kept.
    fn is_empty(&self) -> (b: bool)
        ensures
            b == (self.kept().len() == 0),
    ;
}

impl<T: Ranked> SelectK<T> for BottomK<T> {
    open spec fn kept(&self) -> Seq<T::Model> {
        self@
    }

    open spec fn bound(&self) -> nat {
        self.limit()
    }

    open spec fn pushed(kept: Seq<T::Model>, bound: nat, data: T::Model) -> Seq<T::Model> {
        lowest_pushed::<T>(kept, bound, data)
    }

    fn push(&mut self, data: T) {
        proof {
            use_type_invariant(&*self);
            lemma_lowest_pushed::<T>(self@, self.limit(), data.model());
        }
        let mut items: Vec<T> = Vec::new();
        assert(rank::models(items@) =~= Seq::<T::Model>::empty());
        std::mem::swap(&mut items, &mut self.items);
        let ghost before = rank::models(items@);
        if items.len() == self.k {
            if items[items.len() - 1].at_most(&data) {
                self.items = items;
                return ;
            }
            items.pop();
            assert(rank::models(items@) =~= before.drop_last());
        }
        rank::insert_ranked(&mut items, data);
        self.items = items;
    }

    fn into_vector(self) -> (r: Vec<T>) {
        self.items
    }

    fn into_sorted_vector(self) -> (r: Vec<T>) {
        self.items
    }

    fn len(&self) -> (n: usize) {
        self.items.len()
    }

    fn is_empty(&self) -> (b: bool) {
        self.items.len() == 0
    }
}

/// An item ranked the other way round: what ranks high ranks low.
pub struct Reversed<T>(pub T);

impl<T: Ranked> Ranked for Reversed<T> {
    type Model = T::Model;

    open spec fn model(&self) -> T::Model {
        self.0.model()
    }

    open spec fn le(a: T::Model, b: T::Model) -> bool {
        T::le(b, a)
    }

    proof fn lemma_le_total(a: T::Model, b: T::Model) {
        T::lemma_le_total(a, b);
    }

    proof fn lemma_le_transitive(a: T::Model, b: T::Model, c: T::Model) {
        T::lemma_le_transitive(c, b, a);
    }

    fn at_most(&self, other: &Self) -> (r: bool) {
        other.0.at_most(&self.0)
    }
}

/// What a container of the highest items holds after `x` is pushed: as one
/// of the lowest does, with the order turned round.
pub open spec fn highest_pushed<T: Ranked>(s: Seq<T::Model>, limit: nat, x: T::Model) -> Seq<
    T::Model,
> {
    lowest_pushed::<Reversed<T>>(s, limit, x)
}

/// What a container of the highest items with limit `limit` holds after the
/// items of `all` were pushed into it one by one, beginning empty.
pub open spec fn highest_of<T: Ranked>(all: Seq<T::Model>, limit: nat) -> Seq<T::Model> {
    lowest_of::<Reversed<T>>(all, limit)
}

/// Takes the items out of their wrappers, in the same order.
fn unwrap_all<T: Ranked>(wrapped: Vec<Reversed<T>>) -> (r: Vec<T>)
    ensures
        rank::models(r@) == rank::models(wrapped@),
{
    let ghost target = rank::models(wrapped@);
    let mut wrapped = wrapped;
    let mut backwards: Vec<T> = Vec::new();
    while wrapped.len() > 0
        invariant
            wrapped@.len() + backwards@.len() == target.len(),
            forall|i: int| 0 <= i < wrapped@.len() ==> (#[trigger] wrapped@[i]).model() == target[i],
            forall|i: int|
                0 <= i < backwards@.len() ==> (#[trigger] backwards@[i]).model() == target[
                    target.len() - 1 - i
                ],
        decreases wrapped.len(),
    {
        let item = wrapped.pop().unwrap();
        backwards.push(item.0);
    }
    let mut r: Vec<T> = Vec::new();
    while backwards.len() > 0
        invariant
            r@.len() + backwards@.len() == target.len(),
            forall|i: int| 0 <= i < r@.len() ==> (#[trigger] r@[i]).model() == target[i],
            forall|i: int|
                0 <= i < backwards@.len() ==> (#[trigger] backwards@[i]).model() == target[
                    target.len() - 1 - i
                ],
        decreases backwards.len(),
    {
        let item = backwards.pop().unwrap();
        r.push(item);
    }
    assert(rank::models(r@) =~= target);
    r
}

/// Keeps the `k` highest of the items pushed into it.
pub struct TopK<T: Ranked> {
    heap: BottomK<Reversed<T>>,
}

impl<T: Ranked> View for TopK<T> {
    type V = Seq<T::Model>;

    /// The items kept, highest first.
    closed spec fn view(&self) -> Seq<T::Model> {
        self.heap@
    }
}

impl<T: Ranked> TopK<T> {
    /// How many items the container keeps at most.
    pub closed spec fn limit(&self) -> nat {
        self.heap.limit()
    }

    /// An empty container that keeps up to `k` items.
    pub fn new(k: usize) -> (r: Self)
        requires
            k > 0,
        ensures
            r@ == Seq::<T::Model>::empty(),
            r.limit() == k,
    {
        TopK { heap: BottomK::new(k) }
    }
}

impl<T: Ranked> SelectK<T> for TopK<T> {
    open spec fn kept(&self) -> Seq<T::Model> {
        self@
    }

    open spec fn bound(&self) -> nat {
        self.limit()
    }

    open spec fn pushed(kept: Seq<T::Model>, bound: nat, data: T::Model) -> Seq<T::Model> {
        highest_pushed::<T>(kept, bound, data)
    }

    fn push(&mut self, data: T) {
        self.heap.push(Reversed(data));
    }

    fn into_vector(self) -> (r: Vec<T>) {
        unwrap_all(self.heap.into_vector())
    }

    fn into_sorted_vector(self) -> (r: Vec<T>) {
        unwrap_all(self.heap.into_sorted_vector())
    }

    fn len(&self) -> (n: usize) {
        self.heap.len()
    }

    fn is_empty(&self) -> (b: bool) {
        self.heap.is_empty()
    }
}

} // verus!
