use crate::iter::missing_from;
use crate::partial::ToPartial;
use crate::set::{add_keep_first, add_keep_last, lists};
use vstd::prelude::*;

verus! {

/// First writer wins: adding `a` and then `b` with the same key to a set
/// that lacks that key keeps exactly one member under the key, `a`, and the
/// second `insert` reports that nothing was added.
pub proof fn lemma_insert_keeps_first<V: ToPartial<P>, P>(m: Map<P, V>, a: V, b: V)
    requires
        a.partial() == b.partial(),
        !m.contains_key(a.partial()),
    ensures
        add_keep_first(m, a).contains_key(b.partial()),
        add_keep_first(add_keep_first(m, a), b) == m.insert(a.partial(), a),
        add_keep_first(add_keep_first(m, a), b)[b.partial()] == a,
{
}

/// Last writer wins: adding `a` and then replacing with `b` of the same key,
/// in a set that lacks that key, keeps exactly one member under the key, `b`,
/// and `replace` hands `a` back.
pub proof fn lemma_replace_keeps_last<V: ToPartial<P>, P>(m: Map<P, V>, a: V, b: V)
    requires
        a.partial() == b.partial(),
        !m.contains_key(a.partial()),
    ensures
        add_keep_first(m, a).contains_key(b.partial()),
        add_keep_first(m, a)[b.partial()] == a,
        add_keep_last(add_keep_first(m, a), b) == m.insert(b.partial(), b),
        add_keep_last(add_keep_first(m, a), b)[b.partial()] == b,
{
    assert(add_keep_last(add_keep_first(m, a), b) =~= m.insert(b.partial(), b));
}

/// Taking back what was just added: after `insert(v)` into a set that lacks
/// the key of `v`, `take` of that key hands `v` back, and the set no longer
/// contains the key; it is the set from before.
pub proof fn lemma_insert_then_take<V: ToPartial<P>, P>(m: Map<P, V>, v: V)
    requires
        !m.contains_key(v.partial()),
    ensures
        add_keep_first(m, v).contains_key(v.partial()),
        add_keep_first(m, v)[v.partial()] == v,
        !add_keep_first(m, v).remove(v.partial()).contains_key(v.partial()),
        add_keep_first(m, v).remove(v.partial()) == m,
{
    assert(add_keep_first(m, v).remove(v.partial()) =~= m);
}

/// A drain hands every stored value out exactly once: the values it holds
/// (handed out in order by `next`) list the contents the set had, so each
/// stored value stands in them at exactly one place, and nothing else does.
pub proof fn lemma_drain_yields_each_once<V: ToPartial<P>, P>(d: Seq<V>, m: Map<P, V>)
    requires
        lists(d, m),
    ensures
        forall|k: P| #[trigger]
            m.contains_key(k) ==> exists|i: int|
                0 <= i < d.len() && d[i] == m[k] && forall|j: int|
                    0 <= j < d.len() && #[trigger] d[j] == m[k] ==> j == i,
        forall|i: int| 0 <= i < d.len() ==> m.contains_key(#[trigger] d[i].partial()) && m[d[i].partial()] == d[i],
{
    assert forall|k: P| #[trigger] m.contains_key(k) implies exists|i: int|
        0 <= i < d.len() && d[i] == m[k] && forall|j: int|
            0 <= j < d.len() && #[trigger] d[j] == m[k] ==> j == i by {
        let i = choose|i: int| 0 <= i < d.len() && d[i].partial() == k;
        assert forall|j: int| 0 <= j < d.len() && #[trigger] d[j] == m[k] implies j == i by {
            if j != i {
                assert(d[j].partial() != d[i].partial());
            }
        }
    }
}

/// The difference of a set with a set that has all of its keys is empty.
pub proof fn lemma_difference_of_subset<V: ToPartial<P>, P>(s: Seq<V>, m1: Map<P, V>, m2: Map<P, V>)
    requires
        lists(s, m1),
        m1.dom().subset_of(m2.dom()),
    ensures
        missing_from(s, m2).len() == 0,
{
    crate::iter::lemma_missing_from_lists(s, m1, m2);
    let d = missing_from(s, m2);
    if d.len() > 0 {
        assert(m1.remove_keys(m2.dom()).contains_key(d[0].partial()));
        assert(false);
    }
}

} // verus!
