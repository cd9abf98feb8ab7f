use std::borrow::Borrow;
use std::hash::{Hash, Hasher};
use std::marker::PhantomData;
use vstd::prelude::*;
use vstd::std_specs::cmp::PartialEqSpec;

verus! {

/// The projection of a value onto the partial key that identifies it.
///
/// `partial` is the key in specifications; `to_partial` hands it out and must
/// agree with it, so the key of a value never changes while it is not mutated.
pub trait ToPartial<P> {
    /// The key that this value projects to. Code outside verification
    /// defines it as a plain method that returns the key by value.
    spec fn partial(&self) -> P;

    fn to_partial(&self) -> (r: &P)
        ensures
            *r == self.partial(),
    ;
}

impl<'a, V: ToPartial<P>, P> ToPartial<P> for &'a V {
    open spec fn partial(&self) -> P {
        (**self).partial()
    }

    fn to_partial(&self) -> (r: &P) {
        (**self).to_partial()
    }
}

/// A value together with the type of its partial key: the entry stored by a
/// set, compared with other entries and with bare keys by its key alone.
#[derive(Debug)]
pub struct Partial<V, P> {
    value: V,
    marker: PhantomData<P>,
}

impl<V, P> View for Partial<V, P> {
    type V = V;

    closed spec fn view(&self) -> V {
        self.value
    }
}

impl<V: ToPartial<P>, P> Partial<V, P> {
    /// The key of the wrapped value.
    pub open spec fn key(&self) -> P {
        self@.partial()
    }

    /// Wraps `value` as an entry.
    pub fn new(value: V) -> (r: Self)
        ensures
            r@ == value,
    {
        Partial { value, marker: PhantomData }
    }

    /// An entry made by `from` wraps exactly the value it was given.
    pub proof fn lemma_from(v: V)
        ensures
            <Self as vstd::std_specs::convert::FromSpec<V>>::from_spec(v)@ == v,
            <Self as vstd::std_specs::convert::FromSpec<V>>::from_spec(v).key() == v.partial(),
    {
    }

    /// Unwraps the entry, handing its value back.
    pub fn into_value(self) -> (r: V)
        ensures
            r == self@,
    {
        self.value
    }

    /// Borrows the wrapped value.
    pub fn value(&self) -> (r: &V)
        ensures
            *r == self@,
    {
        &self.value
    }

    /// The key of the wrapped value.
    pub fn partial_key(&self) -> (r: &P)
        ensures
            *r == self.key(),
    {
        self.value.to_partial()
    }
}

/// An entry equals a bare key when its own key equals it.
impl<V: ToPartial<P>, P: PartialEq> PartialEq<P> for Partial<V, P> {
    fn eq(&self, other: &P) -> (r: bool) {
        self.value.to_partial().eq(other)
    }
}

impl<V: ToPartial<P>, P: PartialEq> vstd::std_specs::cmp::PartialEqSpecImpl<P> for Partial<V, P> {
    open spec fn obeys_eq_spec() -> bool {
        <P as PartialEqSpec>::obeys_eq_spec()
    }

    open spec fn eq_spec(&self, other: &P) -> bool {
        self.key().eq_spec(other)
    }
}

/// Two entries are equal when their keys are, whatever else their values hold.
impl<V: ToPartial<P>, P: PartialEq> PartialEq<Partial<V, P>> for Partial<V, P> {
    fn eq(&self, other: &Partial<V, P>) -> (r: bool) {
        self.value.to_partial().eq(other.value.to_partial())
    }
}

impl<V: ToPartial<P>, P: PartialEq> vstd::std_specs::cmp::PartialEqSpecImpl<Partial<V, P>> for Partial<V, P> {
    open spec fn obeys_eq_spec() -> bool {
        <P as PartialEqSpec>::obeys_eq_spec()
    }

    open spec fn eq_spec(&self, other: &Partial<V, P>) -> bool {
        self.key().eq_spec(&other.key())
    }
}

impl<V: ToPartial<P>, P: Eq> Eq for Partial<V, P> {

}

impl<V: ToPartial<P>, P> From<V> for Partial<V, P> {
    fn from(value: V) -> (r: Self)
        ensures
            r@ == value,
    {
        Partial { value, marker: PhantomData }
    }
}

impl<V: ToPartial<P>, P> vstd::std_specs::convert::FromSpecImpl<V> for Partial<V, P> {
    open spec fn obeys_from_spec() -> bool {
        true
    }

    closed spec fn from_spec(v: V) -> Self {
        Partial { value: v, marker: PhantomData }
    }
}

/// An entry can stand for its key, so a bare key finds it.
impl<V: ToPartial<P>, P> Borrow<P> for Partial<V, P> {
    fn borrow(&self) -> &P {
        self.value.to_partial()
    }
}

/// An entry hashes as its key does.
impl<V: ToPartial<P>, P: Hash> Hash for Partial<V, P> {
    /// Relies on `Hash::hash` of the key type: the entry feeds `state` exactly
    /// what its key would.
    #[verifier::external_body]
    fn hash<H: Hasher>(&self, state: &mut H) {
        self.value.to_partial().hash(state)
    }
}

} // verus!
