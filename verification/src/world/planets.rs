use vstd::prelude::*;
use vstd::string::*;
use super::bodies::BodyStatus;
use super::bodies::RigidBody;
use super::Handle;
use super::World;
use super::WorldView;
use super::WorldlyObject;

verus! {

/// The mass of the earth.
pub const EARTH_MASS: u32 = 500;

/// The radius of the earth.
pub const EARTH_RADIUS: u32 = 25;

/// The id of the earth.
pub const EARTH_ID: u16 = 0;

/// The tag of a collider that belongs to a celestial object.
#[derive(Clone, Copy, Debug, PartialEq, Eq, Structural)]
pub struct AmPlanet {
    pub id: u16,
}

/// A fixed, massive body that parts fall towards and collide with.
pub struct CelestialObject {
    pub name: String,
    pub display_name: String,
    pub radius: u32,
    pub mass: u32,
    pub position: (i32, i32),
    pub body: Handle,
    pub id: u16,
}

impl CelestialObject {
    /// The tag for the colliders of this object.
    pub fn tag(&self) -> (tag: AmPlanet)
        ensures
            tag.id == self.id,
    {
        AmPlanet { id: self.id }
    }
}

/// The celestial objects of a simulation.
pub struct Planets {
    pub earth: CelestialObject,
}

impl Planets {
    /// The body of the earth: static, untouched by gravity, at the origin.
    pub open spec fn earth_body() -> RigidBody {
        RigidBody { status: BodyStatus::Static, mass: EARTH_MASS, gravity_enabled: false, x: 0, y: 0 }
    }

    /// Puts the earth into `bodies` and returns the registry.
    pub fn new(bodies: &mut World) -> (planets: Planets)
        requires
            old(bodies).wf(),
        ensures
            final(bodies).wf(),
            !old(bodies)@.objects.dom().contains(planets.earth.body),
            planets.earth.body.generation == old(bodies)@.generation,
            final(bodies)@ == (WorldView {
                objects: old(bodies)@.objects.insert(
                    planets.earth.body,
                    WorldlyObject::CelestialObject(Self::earth_body()),
                ),
                ..old(bodies)@
            }),
            planets.earth.name@ == "earth"@,
            planets.earth.display_name@ == "Earth"@,
            planets.earth.radius == EARTH_RADIUS,
            planets.earth.mass == EARTH_MASS,
            planets.earth.position == (0i32, 0i32),
            planets.earth.id == EARTH_ID,
    {
        let body = RigidBody {
            status: BodyStatus::Static,
            mass: EARTH_MASS,
            gravity_enabled: false,
            x: 0,
            y: 0,
        };
        let body_handle = bodies.add_celestial_object(body);
        Planets {
            earth: CelestialObject {
                name: String::from_str("earth"),
                display_name: String::from_str("Earth"),
                radius: EARTH_RADIUS,
                mass: EARTH_MASS,
                position: (0, 0),
                body: body_handle,
                id: EARTH_ID,
            },
        }
    }

    pub fn celestial_objects<'a>(&'a self) -> (objects: [&'a CelestialObject; 1])
        ensures
            *objects[0] == self.earth,
    {
        [&self.earth]
    }
}

} // verus!
