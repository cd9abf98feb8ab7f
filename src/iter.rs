use crate::partial::{Partial, ToPartial};
use crate::set::{lists, PartialSet};
use std::hash::{BuildHasher, Hash};
use std::marker::PhantomData;
use vstd::prelude::*;

verus! {

/// The values of a vector of entries, in order.
pub(crate) open spec fn values_of<V, P>(entries: Seq<Partial<V, P>>) -> Seq<V> {
    entries.map_values(|e: Partial<V, P>| e@)
}

/// Whether a value's key is missing from `m`.
pub open spec fn key_absent<V: ToPartial<P>, P>(m: Map<P, V>) -> spec_fn(V) -> bool {
    |v: V| !m.contains_key(v.partial())
}

/// The elements of `s`, in order, whose keys are missing from `m`.
pub open spec fn missing_from<V: ToPartial<P>, P>(s: Seq<V>, m: Map<P, V>) -> Seq<V> {
    s.filter(key_absent(m))
}

/// Filtering a sequence one element at a time from the front.
proof fn lemma_filter_front<A>(x: A, rest: Seq<A>, pred: spec_fn(A) -> bool)
    ensures
        (seq![x] + rest).filter(pred) == if pred(x) {
            seq![x] + rest.filter(pred)
        } else {
            rest.filter(pred)
        },
{
    Seq::filter_distributes_over_add(seq![x], rest, pred);
    reveal_with_fuel(Seq::filter, 2);
    assert(seq![x].drop_last() =~= Seq::<A>::empty());
}

/// A sequence that lists a map, read backwards, lists it too.
pub(crate) proof fn lemma_lists_reverse<V: ToPartial<P>, P>(s: Seq<V>, m: Map<P, V>)
    requires
        lists(s, m),
    ensures
        lists(s.reverse(), m),
{
    let r = s.reverse();
    assert forall|i: int, j: int|
        0 <= i < r.len() && 0 <= j < r.len() && i != j implies #[trigger] r[i].partial()
        != #[trigger] r[j].partial() by {
        assert(r[i] == s[s.len() - 1 - i] && r[j] == s[s.len() - 1 - j]);
    }
    assert forall|i: int| 0 <= i < r.len() implies m.contains_key(#[trigger] r[i].partial())
        && m[r[i].partial()] == r[i] by {
        assert(r[i] == s[s.len() - 1 - i]);
    }
    assert forall|k: P| #[trigger] m.contains_key(k) implies exists|i: int|
        0 <= i < r.len() && r[i].partial() == k by {
        let j = choose|j: int| 0 <= j < s.len() && s[j].partial() == k;
        assert(r[s.len() - 1 - j] == s[j]);
    }
}

/// Filtering keeps keys distinct.
proof fn lemma_filter_distinct_keys<V: ToPartial<P>, P>(s: Seq<V>, pred: spec_fn(V) -> bool)
    requires
        forall|i: int, j: int|
            0 <= i < s.len() && 0 <= j < s.len() && i != j ==> #[trigger] s[i].partial()
                != #[trigger] s[j].partial(),
    ensures
        forall|i: int, j: int|
            0 <= i < s.filter(pred).len() && 0 <= j < s.filter(pred).len() && i != j
                ==> #[trigger] s.filter(pred)[i].partial() != #[trigger] s.filter(pred)[j].partial(),
    decreases s.len(),
{
    reveal(Seq::filter);
    if s.len() > 0 {
        let d = s.drop_last();
        assert forall|i: int, j: int|
            0 <= i < d.len() && 0 <= j < d.len() && i != j implies #[trigger] d[i].partial()
            != #[trigger] d[j].partial() by {
            assert(d[i] == s[i] && d[j] == s[j]);
        }
        lemma_filter_distinct_keys(d, pred);
        let f = d.filter(pred);
        if pred(s.last()) {
            assert forall|i: int| 0 <= i < f.len() implies #[trigger] f[i].partial() != s.last().partial() by {
                d.lemma_filter_contains_rev(pred, f[i]);
                let j = choose|j: int| 0 <= j < d.len() && d[j] == f[i];
                assert(s[j] == d[j]);
            }
            let g = s.filter(pred);
            assert(g == f.push(s.last()));
            assert forall|i: int, j: int|
                0 <= i < g.len() && 0 <= j < g.len() && i != j implies #[trigger] g[i].partial()
                != #[trigger] g[j].partial() by {
                if i < f.len() && j < f.len() {
                    assert(g[i] == f[i] && g[j] == f[j]);
                } else if i < f.len() {
                    assert(g[i] == f[i]);
                } else if j < f.len() {
                    assert(g[j] == f[j]);
                }
            }
        }
    }
}

/// The elements of a listing of `m1` whose keys are missing from `m2` list
/// what is left of `m1` once the keys of `m2` are removed.
pub proof fn lemma_missing_from_lists<V: ToPartial<P>, P>(s: Seq<V>, m1: Map<P, V>, m2: Map<P, V>)
    requires
        lists(s, m1),
    ensures
        lists(missing_from(s, m2), m1.remove_keys(m2.dom())),
{
    let pred = key_absent(m2);
    let f = s.filter(pred);
    let m = m1.remove_keys(m2.dom());
    lemma_filter_distinct_keys(s, pred);
    assert forall|i: int| 0 <= i < f.len() implies m.contains_key(#[trigger] f[i].partial())
        && m[f[i].partial()] == f[i] by {
        s.lemma_filter_contains_rev(pred, f[i]);
        let j = choose|j: int| 0 <= j < s.len() && s[j] == f[i];
        s.lemma_filter_pred(pred, i);
    }
    assert forall|k: P| #[trigger] m.contains_key(k) implies exists|i: int|
        0 <= i < f.len() && f[i].partial() == k by {
        let j = choose|j: int| 0 <= j < s.len() && s[j].partial() == k;
        s.lemma_filter_contains(pred, j);
        let i = choose|i: int| 0 <= i < f.len() && f[i] == s[j];
    }
}

/// A borrowing traversal of a set's members.
pub struct Iter<'a, V: ToPartial<P>, P> {
    entries: &'a Vec<Partial<V, P>>,
    pos: usize,
}

impl<'a, V: ToPartial<P>, P> View for Iter<'a, V, P> {
    type V = Seq<V>;

    /// The values not handed out yet, in the order they will come.
    closed spec fn view(&self) -> Seq<V> {
        values_of(self.entries@).subrange(self.pos as int, self.entries@.len() as int)
    }
}

impl<'a, V: ToPartial<P>, P> Iter<'a, V, P> {
    #[verifier::type_invariant]
    closed spec fn inv(&self) -> bool {
        self.pos <= self.entries@.len()
    }

    pub(crate) fn new(entries: &'a Vec<Partial<V, P>>) -> (r: Self)
        ensures
            r@ == values_of(entries@),
    {
        let r = Iter { entries, pos: 0 };
        proof {
            assert(r@ =~= values_of(entries@));
        }
        r
    }

    /// The next value, if any is left.
    pub fn next(&mut self) -> (r: Option<&'a V>)
        ensures
            match r {
                Some(v) => old(self)@.len() > 0 && *v == old(self)@[0] && final(self)@
                    == old(self)@.drop_first(),
                None => old(self)@.len() == 0 && final(self)@ == old(self)@,
            },
    {
        proof {
            use_type_invariant(&*self);
        }
        if self.pos < self.entries.len() {
            let e = &self.entries[self.pos];
            self.pos = self.pos + 1;
            proof {
                assert(self@ =~= old(self)@.drop_first());
            }
            Some(e.value())
        } else {
            None
        }
    }
}

/// The values taken out of a set by `drain`, handed out one at a time.
pub struct Drain<'a, V: ToPartial<P>, P> {
    rest: Vec<Partial<V, P>>,
    marker: PhantomData<&'a ()>,
}

impl<'a, V: ToPartial<P>, P> View for Drain<'a, V, P> {
    type V = Seq<V>;

    /// The values not handed out yet, in the order they will come.
    closed spec fn view(&self) -> Seq<V> {
        values_of(self.rest@).reverse()
    }
}

impl<'a, V: ToPartial<P>, P> Drain<'a, V, P> {
    pub(crate) fn new(rest: Vec<Partial<V, P>>) -> (r: Self)
        ensures
            r@ == values_of(rest@).reverse(),
    {
        Drain { rest, marker: PhantomData }
    }

    /// The next value, if any is left.
    pub fn next(&mut self) -> (r: Option<V>)
        ensures
            match r {
                Some(v) => old(self)@.len() > 0 && v == old(self)@[0] && final(self)@
                    == old(self)@.drop_first(),
                None => old(self)@.len() == 0 && final(self)@ == old(self)@,
            },
    {
        match self.rest.pop() {
            Some(e) => {
                proof {
                    assert(self@ =~= old(self)@.drop_first());
                }
                Some(e.into_value())
            },
            None => None,
        }
    }
}

/// The members of a set that was consumed, handed out one at a time.
pub struct IntoIter<V: ToPartial<P>, P> {
    rest: Vec<Partial<V, P>>,
}

impl<V: ToPartial<P>, P> View for IntoIter<V, P> {
    type V = Seq<V>;

    /// The values not handed out yet, in the order they will come.
    closed spec fn view(&self) -> Seq<V> {
        values_of(self.rest@).reverse()
    }
}

impl<V: ToPartial<P>, P> IntoIter<V, P> {
    pub(crate) fn new(rest: Vec<Partial<V, P>>) -> (r: Self)
        ensures
            r@ == values_of(rest@).reverse(),
    {
        IntoIter { rest }
    }

    /// The next value, if any is left.
    pub fn next(&mut self) -> (r: Option<V>)
        ensures
            match r {
                Some(v) => old(self)@.len() > 0 && v == old(self)@[0] && final(self)@
                    == old(self)@.drop_first(),
                None => old(self)@.len() == 0 && final(self)@ == old(self)@,
            },
    {
        match self.rest.pop() {
            Some(e) => {
                proof {
                    assert(self@ =~= old(self)@.drop_first());
                }
                Some(e.into_value())
            },
            None => None,
        }
    }
}

/// The members of one set whose keys the other set lacks, found one at a
/// time.
#[verifier::reject_recursive_types(P)]
pub struct Difference<'a, V: ToPartial<P>, P: Hash + Eq, S: BuildHasher> {
    entries: &'a Vec<Partial<V, P>>,
    other: &'a PartialSet<V, P, S>,
    pos: usize,
}

impl<'a, V: ToPartial<P>, P: Hash + Eq, S: BuildHasher> View for Difference<'a, V, P, S> {
    type V = Seq<V>;

    /// The values not handed out yet, in the order they will come.
    closed spec fn view(&self) -> Seq<V> {
        missing_from(
            values_of(self.entries@).subrange(self.pos as int, self.entries@.len() as int),
            self.other@,
        )
    }
}

impl<'a, V: ToPartial<P>, P: Hash + Eq, S: BuildHasher> Difference<'a, V, P, S> {
    #[verifier::type_invariant]
    closed spec fn inv(&self) -> bool {
        &&& self.pos <= self.entries@.len()
        &&& self.other.well_formed()
    }

    pub(crate) fn new(entries: &'a Vec<Partial<V, P>>, other: &'a PartialSet<V, P, S>) -> (r: Self)
        requires
            other.well_formed(),
        ensures
            r@ == missing_from(values_of(entries@), other@),
    {
        let r = Difference { entries, other, pos: 0 };
        proof {
            assert(values_of(entries@).subrange(0, entries@.len() as int) =~= values_of(entries@));
        }
        r
    }

    /// The next value, if any is left.
    pub fn next(&mut self) -> (r: Option<&'a V>)
        ensures
            match r {
                Some(v) => old(self)@.len() > 0 && *v == old(self)@[0] && final(self)@
                    == old(self)@.drop_first(),
                None => old(self)@.len() == 0 && final(self)@ == old(self)@,
            },
    {
        proof {
            use_type_invariant(&*self);
        }
        let ghost all = values_of(self.entries@);
        let ghost n = self.entries@.len() as int;
        let ghost pred = key_absent(self.other@);
        let mut i = self.pos;
        while i < self.entries.len()
            invariant
                self.pos <= i <= n,
                n == self.entries@.len(),
                all == values_of(self.entries@),
                pred == key_absent(self.other@),
                self.other.well_formed(),
                *self == *old(self),
                old(self)@ == all.subrange(i as int, n).filter(pred),
            decreases n - i,
        {
            let e = &self.entries[i];
            proof {
                assert(all.subrange(i as int, n) =~= seq![all[i as int]] + all.subrange(i + 1, n));
                lemma_filter_front(all[i as int], all.subrange(i + 1, n), pred);
            }
            if !self.other.contains(e.partial_key()) {
                self.pos = i + 1;
                proof {
                    assert(e@ == all[i as int]);
                }
                return Some(e.value());
            }
            i = i + 1;
        }
        proof {
            assert(all.subrange(i as int, n) =~= Seq::<V>::empty());
        }
        self.pos = i;
        None
    }
}

} // verus!
