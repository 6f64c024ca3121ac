use vstd::prelude::*;

verus! {

/// A context with one element per option of a decision, and an inner value
/// that all options share.
#[derive(Debug, Clone, PartialEq, Eq)]
pub struct VecContext<C, I> {
    data: Vec<C>,
    inner: I,
}

impl<C, I> VecContext<C, I> {
    /// The elements, one per option.
    pub closed spec fn spec_data(&self) -> Seq<C> {
        self.data@
    }

    pub closed spec fn spec_inner(&self) -> I {
        self.inner
    }

    /// A context without elements and the default inner value.
    pub fn new() -> (r: Self)
        where
            I: Default,
        ensures
            r.spec_data().len() == 0,
    {
        Self::with_inner(I::default())
    }

    /// A context without elements.
    pub fn with_inner(inner: I) -> (r: Self)
        ensures
            r.spec_data().len() == 0,
            r.spec_inner() == inner,
    {
        Self { data: Vec::new(), inner }
    }

    pub fn with_data(data: Vec<C>, inner: I) -> (r: Self)
        ensures
            r.spec_data() == data@,
            r.spec_inner() == inner,
    {
        Self { data, inner }
    }

    pub fn inner(&self) -> (r: &I)
        ensures
            *r == self.spec_inner(),
    {
        &self.inner
    }

    pub fn len(&self) -> (r: usize)
        ensures
            r == self.spec_data().len(),
    {
        self.data.len()
    }

    pub fn is_empty(&self) -> (r: bool)
        ensures
            r == (self.spec_data().len() == 0),
    {
        self.data.len() == 0
    }

    /// The element of an option.
    pub fn get(&self, index: usize) -> (r: &C)
        requires
            index < self.spec_data().len(),
        ensures
            *r == self.spec_data()[index as int],
    {
        &self.data[index]
    }

    /// The elements.
    pub fn as_slice(&self) -> (r: &[C])
        ensures
            r@ == self.spec_data(),
    {
        self.data.as_slice()
    }

    /// The elements, to be changed in place.
    pub fn data(&mut self) -> (r: &mut Vec<C>)
        ensures
            r@ == old(self).spec_data(),
            final(self).spec_data() == final(r)@,
            final(self).spec_inner() == old(self).spec_inner(),
    {
        &mut self.data
    }

    /// Adds the element of a new option.
    pub fn push(&mut self, el: C)
        ensures
            final(self).spec_data() == old(self).spec_data().push(el),
            final(self).spec_inner() == old(self).spec_inner(),
    {
        self.data.push(el)
    }

    /// `other` holds a clone of each element and of the inner value.
    pub open spec fn spec_cloned_to(&self, other: VecContext<C, I>) -> bool
        where
            C: Clone,
            I: Clone,
    {
        &&& other.spec_data().len() == self.spec_data().len()
        &&& forall|k: int| 0 <= k < self.spec_data().len() ==> vstd::pervasive::cloned(
            self.spec_data()[k],
            #[trigger] other.spec_data()[k],
        )
        &&& vstd::pervasive::cloned(self.spec_inner(), other.spec_inner())
    }

    /// A clone of the elements and of the inner value.
    pub fn duplicate(&self) -> (r: Self)
        where
            C: Clone,
            I: Clone,
        ensures
            self.spec_cloned_to(r),
    {
        Self { data: self.data.clone(), inner: self.inner.clone() }
    }

    /// The elements.
    pub fn into_vec(self) -> (r: Vec<C>)
        ensures
            r@ == self.spec_data(),
    {
        self.data
    }
}

} // verus!
