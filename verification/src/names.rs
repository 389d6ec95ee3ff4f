//! Sets of names, and the measure by which walks over named nodes end.
use crate::ordered_map::OrderedMap;
use crate::text::Str;
use vstd::prelude::*;

verus! {

/// A list of names after `x` is added, unless it is there already.
pub open spec fn with_name(s: Seq<Str>, x: Str) -> Seq<Str> {
    if s.contains(x) {
        s
    } else {
        s.push(x)
    }
}

/// A list of names after each name of `more` is added in turn.
pub open spec fn with_names(s: Seq<Str>, more: Seq<Str>) -> Seq<Str>
    decreases more.len(),
{
    if more.len() == 0 {
        s
    } else {
        with_name(with_names(s, more.drop_last()), more.last())
    }
}

/// A set of names in the order in which they were added.
pub struct NameSet {
    names: OrderedMap<bool>,
}

impl NameSet {
    /// The set is in order.
    pub closed spec fn wf(&self) -> bool {
        self.names.wf()
    }
}

impl DeepView for NameSet {
    type V = Seq<Str>;

    closed spec fn deep_view(&self) -> Seq<Str> {
        self.names.deep_view().keys
    }
}

impl NameSet {
    /// The set without names.
    pub fn new() -> (s: Self)
        ensures
            s.wf(),
            s.deep_view() == Seq::<Str>::empty(),
    {
        NameSet { names: OrderedMap::new() }
    }

    /// The number of names.
    pub fn len(&self) -> (n: usize)
        requires
            self.wf(),
        ensures
            n == self.deep_view().len(),
            self.deep_view().no_duplicates(),
    {
        self.names.len()
    }

    /// The name at position `i`.
    pub fn name(&self, i: usize) -> (r: &String)
        requires
            self.wf(),
            i < self.deep_view().len(),
        ensures
            r@ == self.deep_view()[i as int],
    {
        self.names.name(i)
    }

    /// Whether `x` is in the set.
    pub fn contains(&self, x: &str) -> (r: bool)
        requires
            self.wf(),
        ensures
            r == self.deep_view().contains(x@),
    {
        proof {
            self.names.lemma_valid();
        }
        self.names.contains_key(x)
    }

    /// Adds `x`, and says whether it was new.
    pub fn insert(&mut self, x: &str) -> (r: bool)
        requires
            old(self).wf(),
        ensures
            final(self).wf(),
            r == !old(self).deep_view().contains(x@),
            final(self).deep_view() == with_name(old(self).deep_view(), x@),
    {
        proof {
            self.names.lemma_valid();
        }
        let fresh = !self.names.contains_key(x);
        self.names.insert(x.to_owned(), true);
        fresh
    }

    /// Adds each name of a list in turn.
    pub fn extend(&mut self, list: &Vec<String>)
        requires
            old(self).wf(),
        ensures
            final(self).wf(),
            final(self).deep_view() == with_names(old(self).deep_view(), list.deep_view()),
    {
        let mut i: usize = 0;
        let ghost start = self.deep_view();
        while i < list.len()
            invariant
                i <= list.len(),
                self.wf(),
                self.deep_view() == with_names(start, list.deep_view().take(i as int)),
            decreases list.len() - i,
        {
            let ghost next = list.deep_view().take(i + 1);
            assert(next.drop_last() =~= list.deep_view().take(i as int));
            assert(next.last() == list[i as int]@);
            self.insert(list[i].as_str());
            i = i + 1;
        }
        assert(list.deep_view().take(i as int) =~= list.deep_view());
    }

    /// The names in their order.
    pub fn to_list(&self) -> (r: Vec<String>)
        requires
            self.wf(),
        ensures
            r.deep_view() == self.deep_view(),
    {
        self.names.names()
    }
}

/// Whether each name of `a` is in `b`.
pub open spec fn within(a: Seq<Str>, b: Seq<Str>) -> bool {
    forall|x: Str| a.contains(x) ==> #[trigger] b.contains(x)
}

/// How many of the names in `all` are not in `seen`.
pub open spec fn unseen(all: Seq<Str>, seen: Seq<Str>) -> nat
    decreases all.len(),
{
    if all.len() == 0 {
        0
    } else {
        unseen(all.drop_last(), seen) + (if seen.contains(all.last()) {
            0nat
        } else {
            1nat
        })
    }
}

/// More seen names leave no more unseen.
pub proof fn lemma_unseen_mono(all: Seq<Str>, seen: Seq<Str>, more: Seq<Str>)
    requires
        forall|x: Str| seen.contains(x) ==> #[trigger] more.contains(x),
    ensures
        unseen(all, more) <= unseen(all, seen),
    decreases all.len(),
{
    if all.len() > 0 {
        lemma_unseen_mono(all.drop_last(), seen, more);
    }
}

/// A name that is new in `seen` and stands in `all` leaves fewer unseen.
pub proof fn lemma_unseen_less(all: Seq<Str>, seen: Seq<Str>, x: Str)
    requires
        all.contains(x),
        !seen.contains(x),
    ensures
        unseen(all, seen.push(x)) < unseen(all, seen),
    decreases all.len(),
{
    let more = seen.push(x);
    assert(more[seen.len() as int] == x);
    assert forall|y: Str| seen.contains(y) implies #[trigger] more.contains(y) by {
        let i = choose|i: int| 0 <= i < seen.len() && seen[i] == y;
        assert(more[i] == y);
    }
    lemma_unseen_mono(all.drop_last(), seen, more);
    if all.last() != x {
        let i = choose|i: int| 0 <= i < all.len() && all[i] == x;
        assert(all.drop_last()[i] == x);
        lemma_unseen_less(all.drop_last(), seen, x);
        assert forall|y: Str| y != x implies more.contains(y) == #[trigger] seen.contains(y) by {
            if more.contains(y) {
                let j = choose|j: int| 0 <= j < more.len() && more[j] == y;
                assert(seen[j] == y);
            }
        }
    }
}

/// The names of a list are in it, and the added one too.
pub proof fn lemma_with_name(s: Seq<Str>, x: Str)
    ensures
        with_name(s, x).contains(x),
        forall|y: Str| s.contains(y) ==> #[trigger] with_name(s, x).contains(y),
        forall|y: Str| #[trigger] with_name(s, x).contains(y) ==> y == x || s.contains(y),
{
    if !s.contains(x) {
        let t = s.push(x);
        assert(t[s.len() as int] == x);
        assert forall|y: Str| s.contains(y) implies #[trigger] t.contains(y) by {
            let i = choose|i: int| 0 <= i < s.len() && s[i] == y;
            assert(t[i] == y);
        }
        assert forall|y: Str| #[trigger] t.contains(y) implies y == x || s.contains(y) by {
            let i = choose|i: int| 0 <= i < t.len() && t[i] == y;
            if i < s.len() {
                assert(s[i] == y);
            }
        }
    }
}

} // verus!
