//! Well-known host type groups and the providers that register them.
//! Each marker type names one host type that scripts can reference; a
//! provider registers a group's runtime type identifiers with a
//! context's registry, so references rooted in those types resolve.

use vstd::prelude::*;

use crate::world::{world_wf, ScriptWorld, WorldModel};
use crate::TypeTag;

verus! {

/// The host's fixed-timestep clock.
#[derive(Clone, Copy, Debug)]
pub struct Fixed;

/// The host's real (wall) clock.
#[derive(Clone, Copy, Debug)]
pub struct Real;

/// The host's virtual (game) clock.
#[derive(Clone, Copy, Debug)]
pub struct Virtual;

/// A countdown timer of the host.
#[derive(Clone, Copy, Debug)]
pub struct Timer;

/// How a timer behaves when it finishes.
#[derive(Clone, Copy, Debug)]
pub struct TimerMode;

/// An accumulating stopwatch of the host.
#[derive(Clone, Copy, Debug)]
pub struct Stopwatch;

/// The parent link of an entity.
#[derive(Clone, Copy, Debug)]
pub struct Parent;

/// The child list of an entity.
#[derive(Clone, Copy, Debug)]
pub struct Children;

/// A change notice of the entity hierarchy.
#[derive(Clone, Copy, Debug)]
pub struct HierarchyEvent;

/// How a window is presented: windowed, borderless, or fullscreen.
#[derive(Clone, Copy, Debug)]
pub struct WindowMode;

/// Where a window stacks relative to others.
#[derive(Clone, Copy, Debug)]
pub struct WindowLevel;

/// The light or dark theme a window requests.
#[derive(Clone, Copy, Debug)]
pub struct WindowTheme;

/// Where a window is placed on screen.
#[derive(Clone, Copy, Debug)]
pub struct WindowPosition;

/// The logical and physical size of a window.
#[derive(Clone, Copy, Debug)]
pub struct WindowResolution;

/// How a window's frames reach the screen.
#[derive(Clone, Copy, Debug)]
pub struct PresentMode;

/// The pointer shape a window shows.
#[derive(Clone, Copy, Debug)]
pub struct CursorIcon;

/// Whether a window confines or locks the pointer.
#[derive(Clone, Copy, Debug)]
pub struct CursorGrabMode;

/// The marker on the host's primary window.
#[derive(Clone, Copy, Debug)]
pub struct PrimaryWindow;

impl Fixed {
    /// The registered runtime type identifier of this host type.
    pub fn tag() -> (t: TypeTag)
        ensures
            t == TypeTag(101u64),
    {
        TypeTag(101)
    }
}

impl Real {
    /// The registered runtime type identifier of this host type.
    pub fn tag() -> (t: TypeTag)
        ensures
            t == TypeTag(102u64),
    {
        TypeTag(102)
    }
}

impl Virtual {
    /// The registered runtime type identifier of this host type.
    pub fn tag() -> (t: TypeTag)
        ensures
            t == TypeTag(103u64),
    {
        TypeTag(103)
    }
}

impl Timer {
    /// The registered runtime type identifier of this host type.
    pub fn tag() -> (t: TypeTag)
        ensures
            t == TypeTag(104u64),
    {
        TypeTag(104)
    }
}

impl TimerMode {
    /// The registered runtime type identifier of this host type.
    pub fn tag() -> (t: TypeTag)
        ensures
            t == TypeTag(105u64),
    {
        TypeTag(105)
    }
}

impl Stopwatch {
    /// The registered runtime type identifier of this host type.
    pub fn tag() -> (t: TypeTag)
        ensures
            t == TypeTag(106u64),
    {
        TypeTag(106)
    }
}

impl Parent {
    /// The registered runtime type identifier of this host type.
    pub fn tag() -> (t: TypeTag)
        ensures
            t == TypeTag(111u64),
    {
        TypeTag(111)
    }
}

impl Children {
    /// The registered runtime type identifier of this host type.
    pub fn tag() -> (t: TypeTag)
        ensures
            t == TypeTag(112u64),
    {
        TypeTag(112)
    }
}

impl HierarchyEvent {
    /// The registered runtime type identifier of this host type.
    pub fn tag() -> (t: TypeTag)
        ensures
            t == TypeTag(113u64),
    {
        TypeTag(113)
    }
}

impl WindowMode {
    /// The registered runtime type identifier of this host type.
    pub fn tag() -> (t: TypeTag)
        ensures
            t == TypeTag(121u64),
    {
        TypeTag(121)
    }
}

impl WindowLevel {
    /// The registered runtime type identifier of this host type.
    pub fn tag() -> (t: TypeTag)
        ensures
            t == TypeTag(122u64),
    {
        TypeTag(122)
    }
}

impl WindowTheme {
    /// The registered runtime type identifier of this host type.
    pub fn tag() -> (t: TypeTag)
        ensures
            t == TypeTag(123u64),
    {
        TypeTag(123)
    }
}

impl WindowPosition {
    /// The registered runtime type identifier of this host type.
    pub fn tag() -> (t: TypeTag)
        ensures
            t == TypeTag(124u64),
    {
        TypeTag(124)
    }
}

impl WindowResolution {
    /// The registered runtime type identifier of this host type.
    pub fn tag() -> (t: TypeTag)
        ensures
            t == TypeTag(125u64),
    {
        TypeTag(125)
    }
}

impl PresentMode {
    /// The registered runtime type identifier of this host type.
    pub fn tag() -> (t: TypeTag)
        ensures
            t == TypeTag(126u64),
    {
        TypeTag(126)
    }
}

impl CursorIcon {
    /// The registered runtime type identifier of this host type.
    pub fn tag() -> (t: TypeTag)
        ensures
            t == TypeTag(127u64),
    {
        TypeTag(127)
    }
}

impl CursorGrabMode {
    /// The registered runtime type identifier of this host type.
    pub fn tag() -> (t: TypeTag)
        ensures
            t == TypeTag(128u64),
    {
        TypeTag(128)
    }
}

impl PrimaryWindow {
    /// The registered runtime type identifier of this host type.
    pub fn tag() -> (t: TypeTag)
        ensures
            t == TypeTag(129u64),
    {
        TypeTag(129)
    }
}

/// Registers the host's clock and timer types.
#[derive(Clone, Copy, Debug)]
pub struct BevyTimeAPIProvider;

impl BevyTimeAPIProvider {
    /// The identifiers this provider registers, in order.
    pub open spec fn tags() -> Seq<TypeTag> {
        seq![
            TypeTag(101u64),
            TypeTag(102u64),
            TypeTag(103u64),
            TypeTag(104u64),
            TypeTag(105u64),
            TypeTag(106u64),
        ]
    }

    /// Registers the clock and timer types with the context's registry.
    pub fn register(world: &mut ScriptWorld)
        requires
            world_wf(old(world)@),
        ensures
            world_wf(final(world)@),
            final(world)@ == (WorldModel {
                registry: old(world)@.registry + Self::tags(),
                ..old(world)@
            }),
    {
        world.register_type(Fixed::tag());
        world.register_type(Real::tag());
        world.register_type(Virtual::tag());
        world.register_type(Timer::tag());
        world.register_type(TimerMode::tag());
        world.register_type(Stopwatch::tag());
        proof {
            assert(world@.registry =~= old(world)@.registry + Self::tags());
            assert(world@ =~= (WorldModel {
                registry: old(world)@.registry + Self::tags(),
                ..old(world)@
            }));
        }
    }
}

/// Registers the host's entity-hierarchy types.
#[derive(Clone, Copy, Debug)]
pub struct BevyHierarchyAPIProvider;

impl BevyHierarchyAPIProvider {
    /// The identifiers this provider registers, in order.
    pub open spec fn tags() -> Seq<TypeTag> {
        seq![TypeTag(111u64), TypeTag(112u64), TypeTag(113u64)]
    }

    /// Registers the hierarchy types with the context's registry.
    pub fn register(world: &mut ScriptWorld)
        requires
            world_wf(old(world)@),
        ensures
            world_wf(final(world)@),
            final(world)@ == (WorldModel {
                registry: old(world)@.registry + Self::tags(),
                ..old(world)@
            }),
    {
        world.register_type(Parent::tag());
        world.register_type(Children::tag());
        world.register_type(HierarchyEvent::tag());
        proof {
            assert(world@.registry =~= old(world)@.registry + Self::tags());
            assert(world@ =~= (WorldModel {
                registry: old(world)@.registry + Self::tags(),
                ..old(world)@
            }));
        }
    }
}

/// Registers the host's windowing types.
#[derive(Clone, Copy, Debug)]
pub struct BevyWindowAPIProvider;

impl BevyWindowAPIProvider {
    /// The identifiers this provider registers, in order.
    pub open spec fn tags() -> Seq<TypeTag> {
        seq![
            TypeTag(121u64),
            TypeTag(122u64),
            TypeTag(123u64),
            TypeTag(124u64),
            TypeTag(125u64),
            TypeTag(126u64),
            TypeTag(127u64),
            TypeTag(128u64),
            TypeTag(129u64),
        ]
    }

    /// Registers the windowing types with the context's registry.
    pub fn register(world: &mut ScriptWorld)
        requires
            world_wf(old(world)@),
        ensures
            world_wf(final(world)@),
            final(world)@ == (WorldModel {
                registry: old(world)@.registry + Self::tags(),
                ..old(world)@
            }),
    {
        world.register_type(WindowMode::tag());
        world.register_type(WindowLevel::tag());
        world.register_type(WindowTheme::tag());
        world.register_type(WindowPosition::tag());
        world.register_type(WindowResolution::tag());
        world.register_type(PresentMode::tag());
        world.register_type(CursorIcon::tag());
        world.register_type(CursorGrabMode::tag());
        world.register_type(PrimaryWindow::tag());
        proof {
            assert(world@.registry =~= old(world)@.registry + Self::tags());
            assert(world@ =~= (WorldModel {
                registry: old(world)@.registry + Self::tags(),
                ..old(world)@
            }));
        }
    }
}

/// The aggregate provider: registers every group the others cover.
#[derive(Clone, Copy, Debug)]
pub struct BevyAPIProvider;

impl BevyAPIProvider {
    /// The identifiers this provider registers, in order.
    pub open spec fn tags() -> Seq<TypeTag> {
        BevyTimeAPIProvider::tags() + BevyHierarchyAPIProvider::tags()
            + BevyWindowAPIProvider::tags()
    }

    /// Registers every group with the context's registry.
    pub fn register(world: &mut ScriptWorld)
        requires
            world_wf(old(world)@),
        ensures
            world_wf(final(world)@),
            final(world)@ == (WorldModel {
                registry: old(world)@.registry + Self::tags(),
                ..old(world)@
            }),
    {
        BevyTimeAPIProvider::register(world);
        BevyHierarchyAPIProvider::register(world);
        BevyWindowAPIProvider::register(world);
        proof {
            assert(world@.registry =~= old(world)@.registry + Self::tags());
            assert(world@ =~= (WorldModel {
                registry: old(world)@.registry + Self::tags(),
                ..old(world)@
            }));
        }
    }
}

} // verus!
