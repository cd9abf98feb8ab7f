use crate::iter::{
    lemma_lists_reverse, lemma_missing_from_lists, missing_from, values_of, Difference, Drain, IntoIter,
    Iter,
};
use crate::partial::{Partial, ToPartial};
use std::collections::TryReserveError;
use std::hash::{BuildHasher, Hash, RandomState};
use vstd::laws_eq::obeys_concrete_eq;
use vstd::layout::size_of;
use vstd::prelude::*;

verus! {

/// Relies on `RandomState::new`: it only builds a fresh hashing strategy,
/// whose seed nothing here may assume anything about.
pub assume_specification[ RandomState::new ]() -> RandomState;

/// Relies on `Vec::capacity`: the number of elements the vector can hold
/// without reallocating, so at least as many as it holds.
#[verifier::external_body]
fn vec_capacity<T>(v: &Vec<T>) -> (r: usize)
    ensures
        r >= v@.len(),
{
    v.capacity()
}

/// Relies on `Vec::try_reserve`: the elements stay as they are, and a request
/// that overflows the capacity is refused with an error. The capacity
/// overflows when the total length does not fit in `usize`, or when that many
/// elements would take more than `isize::MAX` bytes, the most any allocation
/// may hold.
#[verifier::external_body]
fn vec_try_reserve<T>(v: &mut Vec<T>, additional: usize) -> (r: Result<(), TryReserveError>)
    ensures
        final(v)@ == old(v)@,
        old(v)@.len() + additional > usize::MAX ==> r is Err,
        (old(v)@.len() + additional) * size_of::<T>() > isize::MAX ==> r is Err,
{
    v.try_reserve(additional)
}

/// Relies on `Vec::shrink_to`: only the capacity changes, never the elements.
#[verifier::external_body]
fn vec_shrink_to<T>(v: &mut Vec<T>, min_capacity: usize)
    ensures
        final(v)@ == old(v)@,
{
    v.shrink_to(min_capacity)
}

/// Relies on `Vec::shrink_to_fit`: only the capacity changes, never the
/// elements.
#[verifier::external_body]
fn vec_shrink_to_fit<T>(v: &mut Vec<T>)
    ensures
        final(v)@ == old(v)@,
{
    v.shrink_to_fit()
}

/// `s` lists the values of `m`, each exactly once: every element is stored in
/// `m` under its own key, no two elements share a key, and every key of `m`
/// belongs to some element.
pub open spec fn lists<V: ToPartial<P>, P>(s: Seq<V>, m: Map<P, V>) -> bool {
    &&& forall|i: int, j: int|
        0 <= i < s.len() && 0 <= j < s.len() && i != j ==> #[trigger] s[i].partial()
            != #[trigger] s[j].partial()
    &&& forall|i: int|
        0 <= i < s.len() ==> m.contains_key(#[trigger] s[i].partial()) && m[s[i].partial()]
            == s[i]
    &&& forall|k: P| #[trigger]
        m.contains_key(k) ==> exists|i: int| 0 <= i < s.len() && s[i].partial() == k
}

/// The contents after adding `v` when the value already stored under its key
/// is kept.
pub open spec fn add_keep_first<V: ToPartial<P>, P>(m: Map<P, V>, v: V) -> Map<P, V> {
    if m.contains_key(v.partial()) {
        m
    } else {
        m.insert(v.partial(), v)
    }
}

/// The contents after adding `v` when `v` takes the place of the value already
/// stored under its key.
pub open spec fn add_keep_last<V: ToPartial<P>, P>(m: Map<P, V>, v: V) -> Map<P, V> {
    m.insert(v.partial(), v)
}

/// A set of values of type `V`, identified by the partial key `P` that each
/// value projects to. No two members share a key.
///
/// Its contents are modelled as the map from each member's key to the member.
/// The members are kept in a vector; lookups compare projected keys, so a bare
/// key is enough to find, remove or take a member. The hashing strategy `S`
/// is kept for the caller and handed back by `hasher`.
///
/// Keys are compared with `==` on `P`; the constructors ask that it agree
/// with equality of values (`obeys_concrete_eq`), as it does for integers.
#[verifier::reject_recursive_types(P)]
pub struct PartialSet<V, P, S = RandomState> where V: ToPartial<P>, P: Hash + Eq, S: BuildHasher {
    entries: Vec<Partial<V, P>>,
    contents: Ghost<Map<P, V>>,
    hash_builder: S,
}

impl<V, P, S> View for PartialSet<V, P, S> where V: ToPartial<P>, P: Hash + Eq, S: BuildHasher {
    type V = Map<P, V>;

    closed spec fn view(&self) -> Map<P, V> {
        self.contents@
    }
}

impl<V, P> PartialSet<V, P, RandomState> where V: ToPartial<P>, P: Hash + Eq {
    /// An empty set with the default hashing strategy.
    pub fn new() -> (r: Self)
        requires
            obeys_concrete_eq::<P>(),
        ensures
            r.well_formed(),
            r@ == Map::<P, V>::empty(),
    {
        Self::with_hasher(RandomState::new())
    }

    /// An empty set with room for at least `capacity` members.
    pub fn with_capacity(capacity: usize) -> (r: Self)
        requires
            obeys_concrete_eq::<P>(),
        ensures
            r.well_formed(),
            r@ == Map::<P, V>::empty(),
    {
        Self::with_capacity_and_hasher(capacity, RandomState::new())
    }
}

impl<V, P, S> PartialSet<V, P, S> where V: ToPartial<P>, P: Hash + Eq, S: BuildHasher {
    /// The members in the order in which they are stored.
    pub closed spec fn members(&self) -> Seq<V> {
        values_of(self.entries@)
    }

    /// The hashing strategy the set was built with.
    pub closed spec fn hash_builder_spec(&self) -> S {
        self.hash_builder
    }

    /// The members list the contents, each exactly once, and key equality on
    /// `P` is identity.
    pub closed spec fn well_formed(&self) -> bool {
        &&& obeys_concrete_eq::<P>()
        &&& self@.dom().finite()
        &&& self@.len() == self.entries@.len()
        &&& lists(self.members(), self@)
    }

    /// An empty set with the hashing strategy `hasher`.
    pub fn with_hasher(hasher: S) -> (r: Self)
        requires
            obeys_concrete_eq::<P>(),
        ensures
            r.well_formed(),
            r@ == Map::<P, V>::empty(),
            r.hash_builder_spec() == hasher,
    {
        let r = PartialSet { entries: Vec::new(), contents: Ghost(Map::empty()), hash_builder: hasher };
        proof {
            assert(r.members() =~= Seq::<V>::empty());
        }
        r
    }

    /// An empty set with room for at least `capacity` members and the hashing
    /// strategy `hasher`.
    pub fn with_capacity_and_hasher(capacity: usize, hasher: S) -> (r: Self)
        requires
            obeys_concrete_eq::<P>(),
        ensures
            r.well_formed(),
            r@ == Map::<P, V>::empty(),
            r.hash_builder_spec() == hasher,
    {
        let r = PartialSet {
            entries: Vec::with_capacity(capacity),
            contents: Ghost(Map::empty()),
            hash_builder: hasher,
        };
        proof {
            assert(r.members() =~= Seq::<V>::empty());
        }
        r
    }

    /// The number of members.
    pub fn len(&self) -> (r: usize)
        requires
            self.well_formed(),
        ensures
            r == self@.len(),
    {
        self.entries.len()
    }

    /// Whether the set has no member.
    pub fn is_empty(&self) -> (r: bool)
        requires
            self.well_formed(),
        ensures
            r == (self@.len() == 0),
    {
        self.entries.len() == 0
    }

    /// The hashing strategy the set was built with.
    pub fn hasher(&self) -> (r: &S)
        ensures
            *r == self.hash_builder_spec(),
    {
        &self.hash_builder
    }

    /// Where the member with key `partial` is stored, if there is one.
    fn position(&self, partial: &P) -> (r: Option<usize>)
        requires
            self.well_formed(),
        ensures
            match r {
                Some(i) => i < self.entries@.len() && self.members()[i as int].partial() == *partial,
                None => !self@.contains_key(*partial),
            },
    {
        let mut i: usize = 0;
        while i < self.entries.len()
            invariant
                self.well_formed(),
                0 <= i <= self.entries@.len(),
                forall|j: int| 0 <= j < i ==> self.members()[j].partial() != *partial,
            decreases self.entries@.len() - i,
        {
            let same = self.entries[i].eq(partial);
            proof {
                reveal(obeys_concrete_eq);
            }
            if same {
                return Some(i);
            }
            i += 1;
        }
        None
    }

    /// Stores `value`, whose key no member has.
    fn push_new(&mut self, value: V)
        requires
            old(self).well_formed(),
            !old(self)@.contains_key(value.partial()),
        ensures
            final(self).well_formed(),
            final(self)@ == old(self)@.insert(value.partial(), value),
            final(self).hash_builder_spec() == old(self).hash_builder_spec(),
    {
        let ghost m0 = self@;
        let ghost s0 = self.members();
        let ghost k = value.partial();
        self.entries.push(Partial::new(value));
        proof {
            self.contents@ = m0.insert(k, value);
            let s = self.members();
            assert(s =~= s0.push(value));
            assert(lists(s, self@)) by {
                assert forall|k2: P| #[trigger] self@.contains_key(k2) implies exists|i: int|
                    0 <= i < s.len() && s[i].partial() == k2 by {
                    if k2 == k {
                        assert(s[s0.len() as int].partial() == k2);
                    } else {
                        assert(m0.contains_key(k2));
                        let i = choose|i: int| 0 <= i < s0.len() && s0[i].partial() == k2;
                        assert(s[i] == s0[i]);
                    }
                }
            }
        }
    }

    /// Takes out the member stored at `i`.
    fn remove_at(&mut self, i: usize) -> (r: V)
        requires
            old(self).well_formed(),
            i < old(self).entries@.len(),
        ensures
            final(self).well_formed(),
            r == old(self).members()[i as int],
            old(self)@.contains_key(r.partial()),
            old(self)@[r.partial()] == r,
            final(self)@ == old(self)@.remove(r.partial()),
            final(self).hash_builder_spec() == old(self).hash_builder_spec(),
    {
        let ghost m0 = self@;
        let ghost s0 = self.members();
        let ghost n = s0.len();
        let entry = self.entries.swap_remove(i);
        let r = entry.into_value();
        proof {
            assert(r == s0[i as int]);
            let k = r.partial();
            self.contents@ = m0.remove(k);
            let s = self.members();
            assert(s =~= s0.update(i as int, s0[n - 1]).drop_last());
            assert forall|j: int| 0 <= j < s.len() implies #[trigger] s[j] == (if j == i {
                s0[n - 1]
            } else {
                s0[j]
            }) by {}
            assert(lists(s, self@)) by {
                assert forall|a: int, b: int|
                    0 <= a < s.len() && 0 <= b < s.len() && a != b implies #[trigger] s[a].partial()
                    != #[trigger] s[b].partial() by {
                    let a0 = if a == i { n - 1 } else { a };
                    let b0 = if b == i { n - 1 } else { b };
                    assert(s[a] == s0[a0] && s[b] == s0[b0]);
                }
                assert forall|j: int| 0 <= j < s.len() implies self@.contains_key(
                    #[trigger] s[j].partial(),
                ) && self@[s[j].partial()] == s[j] by {
                    let j0 = if j == i { n - 1 } else { j };
                    assert(s[j] == s0[j0]);
                    assert(s0[j0].partial() != s0[i as int].partial());
                }
                assert forall|k2: P| #[trigger] self@.contains_key(k2) implies exists|j: int|
                    0 <= j < s.len() && s[j].partial() == k2 by {
                    assert(m0.contains_key(k2));
                    let j0 = choose|j: int| 0 <= j < n && s0[j].partial() == k2;
                    assert(j0 != i);
                    if j0 == n - 1 {
                        assert(s[i as int].partial() == k2);
                    } else {
                        assert(s[j0].partial() == k2);
                    }
                }
            }
        }
        r
    }

    /// Whether a member has the key `partial`.
    pub fn contains(&self, partial: &P) -> (r: bool)
        requires
            self.well_formed(),
        ensures
            r == self@.contains_key(*partial),
    {
        match self.position(partial) {
            Some(_) => true,
            None => false,
        }
    }

    /// The member with the key `partial`, if there is one.
    pub fn get(&self, partial: &P) -> (r: Option<&V>)
        requires
            self.well_formed(),
        ensures
            match r {
                Some(v) => self@.contains_key(*partial) && *v == self@[*partial],
                None => !self@.contains_key(*partial),
            },
    {
        match self.position(partial) {
            Some(i) => Some(self.entries[i].value()),
            None => None,
        }
    }

    /// Adds `value` unless a member already has its key, in which case the
    /// member stays and `value` is dropped. Returns whether `value` was added.
    pub fn insert(&mut self, value: V) -> (r: bool)
        requires
            old(self).well_formed(),
        ensures
            final(self).well_formed(),
            r == !old(self)@.contains_key(value.partial()),
            final(self)@ == add_keep_first(old(self)@, value),
            final(self).hash_builder_spec() == old(self).hash_builder_spec(),
    {
        match self.position(value.to_partial()) {
            Some(_) => false,
            None => {
                self.push_new(value);
                true
            },
        }
    }

    /// Adds `value`, taking out the member with the same key if there is one
    /// and handing it back.
    pub fn replace(&mut self, value: V) -> (r: Option<V>)
        requires
            old(self).well_formed(),
        ensures
            final(self).well_formed(),
            final(self)@ == add_keep_last(old(self)@, value),
            match r {
                Some(prev) => old(self)@.contains_key(value.partial()) && prev == old(
                    self,
                )@[value.partial()],
                None => !old(self)@.contains_key(value.partial()),
            },
            final(self).hash_builder_spec() == old(self).hash_builder_spec(),
    {
        let ghost m0 = self@;
        let ghost k = value.partial();
        let prev = match self.position(value.to_partial()) {
            Some(i) => Some(self.remove_at(i)),
            None => None,
        };
        proof {
            if m0.contains_key(k) {
                assert(self@ == m0.remove(k));
            } else {
                assert(self@ == m0);
            }
        }
        self.push_new(value);
        proof {
            assert(self@ =~= m0.insert(k, value));
        }
        prev
    }

    /// Removes the member with the key `partial`, if there is one, and drops
    /// it. Returns whether there was one.
    pub fn remove(&mut self, partial: &P) -> (r: bool)
        requires
            old(self).well_formed(),
        ensures
            final(self).well_formed(),
            r == old(self)@.contains_key(*partial),
            final(self)@ == old(self)@.remove(*partial),
            final(self).hash_builder_spec() == old(self).hash_builder_spec(),
    {
        match self.take(partial) {
            Some(_) => true,
            None => false,
        }
    }

    /// Takes out the member with the key `partial`, if there is one, and hands
    /// it back.
    pub fn take(&mut self, partial: &P) -> (r: Option<V>)
        requires
            old(self).well_formed(),
        ensures
            final(self).well_formed(),
            final(self)@ == old(self)@.remove(*partial),
            match r {
                Some(v) => old(self)@.contains_key(*partial) && v == old(self)@[*partial],
                None => !old(self)@.contains_key(*partial),
            },
            final(self).hash_builder_spec() == old(self).hash_builder_spec(),
    {
        match self.position(partial) {
            Some(i) => Some(self.remove_at(i)),
            None => {
                proof {
                    assert(self@ =~= self@.remove(*partial));
                }
                None
            },
        }
    }

    /// Removes every member, keeping the room already allocated.
    pub fn clear(&mut self)
        requires
            old(self).well_formed(),
        ensures
            final(self).well_formed(),
            final(self)@ == Map::<P, V>::empty(),
            final(self).hash_builder_spec() == old(self).hash_builder_spec(),
    {
        self.entries.clear();
        proof {
            self.contents@ = Map::empty();
            assert(self.members() =~= Seq::<V>::empty());
        }
    }
    /// How many members the set can hold without reallocating.
    pub fn capacity(&self) -> (r: usize)
        requires
            self.well_formed(),
        ensures
            r >= self@.len(),
    {
        vec_capacity(&self.entries)
    }

    /// Makes room for at least `additional` more members.
    pub fn reserve(&mut self, additional: usize)
        requires
            old(self).well_formed(),
        ensures
            final(self).well_formed(),
            final(self)@ == old(self)@,
            final(self).hash_builder_spec() == old(self).hash_builder_spec(),
    {
        self.entries.reserve(additional);
        proof {
            assert(self.members() =~= old(self).members());
        }
    }

    /// Tries to make room for at least `additional` more members, reporting
    /// an allocation failure instead of aborting. The contents never change.
    /// A request that brings the total beyond `isize::MAX` members always
    /// fails, whatever the size of a value.
    pub fn try_reserve(&mut self, additional: usize) -> (r: Result<(), TryReserveError>)
        requires
            old(self).well_formed(),
        ensures
            final(self).well_formed(),
            final(self)@ == old(self)@,
            old(self)@.len() + additional > isize::MAX ==> r is Err,
            final(self).hash_builder_spec() == old(self).hash_builder_spec(),
    {
        let len = self.entries.len();
        if additional > isize::MAX as usize || len > isize::MAX as usize - additional {
            // Too many members for any allocation: report the capacity
            // overflow that std gives for an impossible request of bytes.
            let mut bytes: Vec<u8> = Vec::new();
            proof {
                broadcast use vstd::layout::layout_of_primitives;

                assert(size_of::<u8>() == 1);
            }
            return vec_try_reserve(&mut bytes, usize::MAX);
        }
        let r = vec_try_reserve(&mut self.entries, additional);
        proof {
            assert(self.members() =~= old(self).members());
        }
        r
    }

    /// Lowers the capacity towards `min_capacity`, never below the number of
    /// members.
    pub fn shrink_to(&mut self, min_capacity: usize)
        requires
            old(self).well_formed(),
        ensures
            final(self).well_formed(),
            final(self)@ == old(self)@,
            final(self).hash_builder_spec() == old(self).hash_builder_spec(),
    {
        vec_shrink_to(&mut self.entries, min_capacity);
        proof {
            assert(self.members() =~= old(self).members());
        }
    }

    /// Lowers the capacity as far as the members allow.
    pub fn shrink_to_fit(&mut self)
        requires
            old(self).well_formed(),
        ensures
            final(self).well_formed(),
            final(self)@ == old(self)@,
            final(self).hash_builder_spec() == old(self).hash_builder_spec(),
    {
        vec_shrink_to_fit(&mut self.entries);
        proof {
            assert(self.members() =~= old(self).members());
        }
    }

    /// Keeps the members for which `f` returns true and drops the others;
    /// `f` is called once on each member.
    pub fn retain<F>(&mut self, mut f: F) where F: FnMut(&V) -> bool
        requires
            old(self).well_formed(),
            forall|v: &V| #[trigger] f.requires((v,)),
        ensures
            final(self).well_formed(),
            forall|k: P| #[trigger] final(self)@.contains_key(k) ==> old(self)@.contains_key(k),
            forall|k: P| #[trigger]
                old(self)@.contains_key(k) ==> if final(self)@.contains_key(k) {
                    final(self)@[k] == old(self)@[k] && f.ensures((&old(self)@[k],), true)
                } else {
                    f.ensures((&old(self)@[k],), false)
                },
            final(self).hash_builder_spec() == old(self).hash_builder_spec(),
    {
        let ghost m0 = self@;
        let ghost s0 = self.members();
        let ghost hb = self.hash_builder_spec();
        let ghost f0 = f;
        let mut rest: Vec<Partial<V, P>> = Vec::new();
        std::mem::swap(&mut self.entries, &mut rest);
        proof {
            self.contents@ = Map::empty();
            assert(self.members() =~= Seq::<V>::empty());
        }
        while rest.len() > 0
            invariant
                self.well_formed(),
                self.hash_builder_spec() == hb,
                f == f0,
                lists(s0, m0),
                forall|v: &V| #[trigger] f.requires((v,)),
                rest@.len() <= s0.len(),
                forall|j: int| 0 <= j < rest@.len() ==> #[trigger] rest@[j]@ == s0[j],
                forall|j: int|
                    rest@.len() <= j < s0.len() ==> if self@.contains_key(
                        #[trigger] s0[j].partial(),
                    ) {
                        self@[s0[j].partial()] == s0[j] && f.ensures((&s0[j],), true)
                    } else {
                        f.ensures((&s0[j],), false)
                    },
                forall|k: P| #[trigger]
                    self@.contains_key(k) ==> exists|j: int|
                        rest@.len() <= j < s0.len() && s0[j].partial() == k,
            decreases rest@.len(),
        {
            let ghost n = rest@.len() - 1;
            let entry = rest.pop().unwrap();
            proof {
                assert(entry@ == s0[n]);
            }
            let keep = f(entry.value());
            if keep {
                proof {
                    if self@.contains_key(s0[n].partial()) {
                        let j = choose|j: int| n + 1 <= j < s0.len() && s0[j].partial() == s0[n].partial();
                        assert(false);
                    }
                }
                self.push_new(entry.into_value());
            }
            proof {
                assert forall|k: P| #[trigger] self@.contains_key(k) implies exists|j: int|
                    n <= j < s0.len() && s0[j].partial() == k by {
                    if k != s0[n].partial() {
                        let j = choose|j: int| n + 1 <= j < s0.len() && s0[j].partial() == k;
                    }
                }
                assert forall|j: int| n <= j < s0.len() implies if self@.contains_key(
                    #[trigger] s0[j].partial(),
                ) {
                    self@[s0[j].partial()] == s0[j] && f.ensures((&s0[j],), true)
                } else {
                    f.ensures((&s0[j],), false)
                } by {
                    if j != n {
                        assert(s0[j].partial() != s0[n].partial());
                    }
                }
            }
        }
        proof {
            assert forall|k: P| #[trigger] old(self)@.contains_key(k) implies if self@.contains_key(k) {
                self@[k] == old(self)@[k] && f.ensures((&old(self)@[k],), true)
            } else {
                f.ensures((&old(self)@[k],), false)
            } by {
                let j = choose|j: int| 0 <= j < s0.len() && s0[j].partial() == k;
                assert(s0[j] == m0[k]);
            }
            assert forall|k: P| #[trigger] self@.contains_key(k) implies old(self)@.contains_key(k) by {
                let j = choose|j: int| 0 <= j < s0.len() && s0[j].partial() == k;
            }
        }
    }
    /// A traversal of the members, each handed out once. Every call starts
    /// afresh, in the same order while the set is not changed.
    pub fn iter(&self) -> (r: Iter<'_, V, P>)
        requires
            self.well_formed(),
        ensures
            r@ == self.members(),
            lists(r@, self@),
    {
        Iter::new(&self.entries)
    }

    /// Takes every member out at once, leaving the set empty; the returned
    /// value hands them out one at a time.
    pub fn drain(&mut self) -> (r: Drain<'_, V, P>)
        requires
            old(self).well_formed(),
        ensures
            final(self).well_formed(),
            final(self)@ == Map::<P, V>::empty(),
            lists(r@, old(self)@),
            r@.len() == old(self)@.len(),
            final(self).hash_builder_spec() == old(self).hash_builder_spec(),
    {
        let mut rest: Vec<Partial<V, P>> = Vec::new();
        std::mem::swap(&mut self.entries, &mut rest);
        proof {
            lemma_lists_reverse(values_of(rest@), old(self)@);
            self.contents@ = Map::empty();
            assert(self.members() =~= Seq::<V>::empty());
        }
        Drain::new(rest)
    }

    /// The members whose keys `other` lacks, found one at a time.
    pub fn difference<'a>(&'a self, other: &'a Self) -> (r: Difference<'a, V, P, S>)
        requires
            self.well_formed(),
            other.well_formed(),
        ensures
            r@ == missing_from(self.members(), other@),
            lists(r@, self@.remove_keys(other@.dom())),
    {
        proof {
            lemma_missing_from_lists(self.members(), self@, other@);
        }
        Difference::new(&self.entries, other)
    }

    /// Consumes the set, handing its members out one at a time.
    pub fn into_iter(self) -> (r: IntoIter<V, P>)
        requires
            self.well_formed(),
        ensures
            lists(r@, self@),
            r@.len() == self@.len(),
    {
        proof {
            lemma_lists_reverse(self.members(), self@);
        }
        IntoIter::new(self.entries)
    }
}

} // verus!
