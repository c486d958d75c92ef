use vstd::prelude::*;

verus! {

/// How the integrator treats a body.
#[derive(Clone, Copy, Debug, PartialEq, Eq, Structural)]
pub enum BodyStatus {
    /// Never moved by forces or contacts.
    Static,
    /// Moved by forces and contacts.
    Dynamic,
}

/// The store's record of a rigid body: the values a body is created with.
/// The integrator keeps the body's running state (pose, velocity) under the
/// handle of the object that owns this record.
#[derive(Clone, Copy, Debug, PartialEq, Eq, Structural)]
pub struct RigidBody {
    pub status: BodyStatus,
    pub mass: u32,
    pub gravity_enabled: bool,
    pub x: i32,
    pub y: i32,
}

impl RigidBody {
    /// A dynamic body of the given mass at the given place.
    pub fn dynamic(mass: u32, x: i32, y: i32) -> (body: RigidBody)
        ensures
            body == (RigidBody { status: BodyStatus::Dynamic, mass, gravity_enabled: true, x, y }),
    {
        RigidBody { status: BodyStatus::Dynamic, mass, gravity_enabled: true, x, y }
    }

    /// The body that drag constraints are anchored to.
    pub open spec fn spec_reference_point() -> RigidBody {
        RigidBody { status: BodyStatus::Static, mass: 0, gravity_enabled: true, x: 0, y: 0 }
    }

    /// A static, massless body at the origin.
    pub fn reference_point() -> (body: RigidBody)
        ensures
            body == Self::spec_reference_point(),
    {
        RigidBody { status: BodyStatus::Static, mass: 0, gravity_enabled: true, x: 0, y: 0 }
    }
}

} // verus!
