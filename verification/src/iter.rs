//! The lazy reference iterator: produces child references for positions
//! zero, one, two and so on, without resolving or sizing the container.
//! It never signals an end itself; the consumer learns the container is
//! exhausted when resolving the next reference fails with a path error.

use vstd::prelude::*;

use crate::path::{PathSegment, Seg};
use crate::reference::{ReflectReference, RefModel};

verus! {

/// The position an iterator will produce next.
#[derive(PartialEq, Eq, Structural, Debug)]
pub enum IterationKey {
    Index(usize),
}

/// An unbounded iterator over the children of a base reference.
#[derive(Debug)]
pub struct ReflectRefIter {
    pub base: ReflectReference,
    pub index: IterationKey,
}

impl ReflectRefIter {
    /// An iterator over `base`'s children, starting at position zero.
    pub fn new_indexed(base: ReflectReference) -> (r: ReflectRefIter)
        ensures
            r.base.deep_view() == base.deep_view(),
            r.index == IterationKey::Index(0usize),
    {
        ReflectRefIter { base, index: IterationKey::Index(0) }
    }

    /// The position the next call will produce.
    pub fn index(&self) -> (r: IterationKey)
        ensures
            r == self.index,
    {
        match self.index {
            IterationKey::Index(i) => IterationKey::Index(i),
        }
    }

    /// The next child reference and the position it denotes. There is no
    /// halting condition: every call produces the reference one position
    /// further, whether or not the container has a value there.
    pub fn next_ref(&mut self) -> (r: (ReflectReference, IterationKey))
        requires
            old(self).index matches IterationKey::Index(i) && i < usize::MAX,
        ensures
            final(self).base.deep_view() == old(self).base.deep_view(),
            old(self).index matches IterationKey::Index(i) && {
                &&& r.1 == IterationKey::Index(i)
                &&& final(self).index == IterationKey::Index((i + 1) as usize)
                &&& r.0.deep_view() == (RefModel {
                    base: old(self).base.deep_view().base,
                    path: old(self).base.deep_view().path.push(Seg::ListIndex(i as int)),
                })
            },
    {
        match self.index {
            IterationKey::Index(i) => {
                let next = self.base.extend_path(&PathSegment::ListIndex(i));
                self.index = IterationKey::Index(i + 1);
                (next, IterationKey::Index(i))
            },
        }
    }
}

impl ReflectReference {
    /// An unbounded iterator over this reference's children. It keeps
    /// returning the next child reference forever; resolution of a
    /// position past the container's end fails with a path error.
    pub fn into_iter_infinite(self) -> (r: ReflectRefIter)
        ensures
            r.base.deep_view() == self.deep_view(),
            r.index == IterationKey::Index(0usize),
    {
        ReflectRefIter::new_indexed(self)
    }
}

} // verus!
