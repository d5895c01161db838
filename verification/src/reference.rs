//! References: serializable, cheap-to-copy handles made of a base locator
//! and a navigation path. A reference never holds live data; it resolves
//! to a value only inside a short, access-checked window.

use vstd::prelude::*;

use crate::access::ReflectAccessId;
use crate::arena::ReflectAllocationId;
use crate::path::{AccessPath, PathSegment, Seg};
use crate::{ComponentId, Entity, TypeTag};

verus! {

/// Which runtime type identifier a reference query asks for.
#[derive(Clone, Copy, PartialEq, Eq, Structural, Debug)]
pub enum TypeIdSource {
    /// The type of the value the reference points to after walking the
    /// path.
    Tail,
    /// Given the tail is a container, the type of its elements.
    Element,
    /// Given the tail is a container, the type of its keys.
    Key,
}

/// Where a reference's root value lives.
#[derive(Clone, Copy, PartialEq, Eq, Structural, Debug)]
pub enum ReflectBase {
    /// An arena allocation.
    Owned(ReflectAllocationId),
    /// An entity-scoped field group of the host graph.
    Component(Entity, ComponentId),
    /// A global singleton of the host graph.
    Resource(ComponentId),
    /// The root of the host graph itself.
    World,
}

/// A base locator together with the runtime type identifier of the root
/// value it locates.
#[derive(Clone, Copy, PartialEq, Eq, Structural, Debug)]
pub struct ReflectBaseType {
    pub type_id: TypeTag,
    pub base_id: ReflectBase,
}

/// The aliasing-control identity of a base: two references sharing a
/// root share the identity, whatever their paths.
pub open spec fn access_id_of(base: ReflectBase) -> ReflectAccessId {
    match base {
        ReflectBase::Owned(id) => ReflectAccessId::Allocation(id),
        ReflectBase::Component(ent, comp) => ReflectAccessId::Component(ent, comp),
        ReflectBase::Resource(comp) => ReflectAccessId::Resource(comp),
        ReflectBase::World => ReflectAccessId::World,
    }
}

/// An accessor to a type-erased value: a base identity plus a navigation
/// path. Safe to build and copy freely; resolving it checks aliasing.
#[derive(Debug)]
pub struct ReflectReference {
    pub base: ReflectBaseType,
    pub reflect_path: AccessPath,
}

/// The mathematical shape of a reference.
#[verifier::ext_equal]
pub struct RefModel {
    pub base: ReflectBaseType,
    pub path: Seq<Seg>,
}

impl DeepView for ReflectReference {
    type V = RefModel;

    open spec fn deep_view(&self) -> RefModel {
        RefModel { base: self.base, path: self.reflect_path.deep_view() }
    }
}

impl Default for ReflectReference {
    /// The default reference: arena slot zero under the stand-in type
    /// identifier, with an empty path.
    fn default() -> (r: Self)
        ensures
            r.deep_view() == (RefModel {
                base: ReflectBaseType {
                    type_id: TypeTag(crate::value::FAKE_TAG),
                    base_id: ReflectBase::Owned(ReflectAllocationId(0)),
                },
                path: Seq::<Seg>::empty(),
            }),
    {
        ReflectReference {
            base: ReflectBaseType {
                type_id: TypeTag(crate::value::FAKE_TAG),
                base_id: ReflectBase::Owned(ReflectAllocationId(0)),
            },
            reflect_path: AccessPath::empty(),
        }
    }
}

impl ReflectReference {
    /// A reference to the given base with an empty path.
    pub fn new_base(base: ReflectBaseType) -> (r: ReflectReference)
        ensures
            r.deep_view() == (RefModel { base, path: Seq::<Seg>::empty() }),
    {
        ReflectReference { base, reflect_path: AccessPath::empty() }
    }

    /// An equal copy of this reference.
    pub fn dup(&self) -> (r: ReflectReference)
        ensures
            r.deep_view() == self.deep_view(),
    {
        ReflectReference { base: self.base, reflect_path: self.reflect_path.dup() }
    }

    /// The aliasing-control identity of this reference's base.
    pub fn access_id(&self) -> (r: ReflectAccessId)
        ensures
            r == access_id_of(self.deep_view().base.base_id),
    {
        match self.base.base_id {
            ReflectBase::Owned(id) => ReflectAccessId::Allocation(id),
            ReflectBase::Component(ent, comp) => ReflectAccessId::Component(ent, comp),
            ReflectBase::Resource(comp) => ReflectAccessId::Resource(comp),
            ReflectBase::World => ReflectAccessId::World,
        }
    }

    /// Appends every segment of `path` to this reference's own path.
    /// Purely a description change: nothing is resolved.
    pub fn index_path(&mut self, path: &AccessPath)
        ensures
            final(self).base == old(self).base,
            final(self).deep_view().path == old(self).deep_view().path + path.deep_view(),
    {
        let joined = self.reflect_path.join(path);
        self.reflect_path = joined;
    }

    /// A new reference denoting one navigation step further into the
    /// value this reference denotes. Pure and non-resolving.
    pub fn extend_path(&self, seg: &PathSegment) -> (r: ReflectReference)
        ensures
            r.deep_view().base == self.deep_view().base,
            r.deep_view().path == self.deep_view().path.push(seg.deep_view()),
    {
        let mut path = self.reflect_path.dup();
        path.push(seg.dup());
        ReflectReference { base: self.base, reflect_path: path }
    }
}

} // verus!
