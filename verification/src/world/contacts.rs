use vstd::prelude::*;
use super::planets::AmPlanet;
use super::tree::is_part;
use super::tree::part_at;
use super::tree::Objects;
use super::Handle;
use super::World;

verus! {

/// What a collider tells of itself: the tag of a celestial object, if it
/// belongs to one, and the body it is fixed to.
#[derive(Clone, Copy, Debug, PartialEq, Eq, Structural)]
pub struct ContactSide {
    pub planet: Option<AmPlanet>,
    pub body: Handle,
}

/// Two colliders began or stopped touching. A side is `None` where the
/// collider is gone.
#[derive(Clone, Copy, Debug, PartialEq, Eq, Structural)]
pub enum ContactEvent {
    Started(Option<ContactSide>, Option<ContactSide>),
    Stopped(Option<ContactSide>, Option<ContactSide>),
}

/// What the game loop is told of a tick.
#[derive(Clone, Copy, Debug, PartialEq, Eq, Structural)]
pub enum SimulationEvent {
    PlayerTouchPlanet { player: u16, part: Handle, planet: u16 },
    PlayerUntouchPlanet { player: u16, part: Handle, planet: u16 },
}

/// A part of a player that is in contact with a celestial object.
#[derive(Clone, Copy, Debug, PartialEq, Eq, Structural)]
pub struct Touch {
    pub player: u16,
    pub part: Handle,
    pub planet: u16,
}

/// The touch of the celestial object `planet` and the body `body`, if that
/// is a live part with an owning player.
pub open spec fn touch_of(objects: Objects, planet: u16, body: Handle) -> Option<Touch> {
    if is_part(objects, body) {
        match part_at(objects, body).part_of_player {
            Some(player) => Some(Touch { player, part: body, planet }),
            None => None,
        }
    } else {
        None
    }
}

/// The touch that a contact between `first` and `second` is: there is one
/// where both colliders are there, exactly one of them belongs to a
/// celestial object, and the other is fixed to a live part with an owning player.
pub open spec fn touch_between(objects: Objects, first: Option<ContactSide>, second: Option<ContactSide>) -> Option<
    Touch,
> {
    match (first, second) {
        (Some(a), Some(b)) => match (a.planet, b.planet) {
            (Some(planet), None) => touch_of(objects, planet.id, b.body),
            (None, Some(planet)) => touch_of(objects, planet.id, a.body),
            _ => None,
        },
        _ => None,
    }
}

/// The event that `contact` gives rise to, if any.
pub open spec fn classify(objects: Objects, contact: ContactEvent) -> Option<SimulationEvent> {
    match contact {
        ContactEvent::Started(first, second) => match touch_between(objects, first, second) {
            Some(touch) => Some(
                SimulationEvent::PlayerTouchPlanet {
                    player: touch.player,
                    part: touch.part,
                    planet: touch.planet,
                },
            ),
            None => None,
        },
        ContactEvent::Stopped(first, second) => match touch_between(objects, first, second) {
            Some(touch) => Some(
                SimulationEvent::PlayerUntouchPlanet {
                    player: touch.player,
                    part: touch.part,
                    planet: touch.planet,
                },
            ),
            None => None,
        },
    }
}

/// The events that `contacts` give rise to, in their order.
pub open spec fn classify_all(objects: Objects, contacts: Seq<ContactEvent>) -> Seq<SimulationEvent>
    decreases contacts.len(),
{
    if contacts.len() == 0 {
        Seq::empty()
    } else {
        classify_all(objects, contacts.drop_last()) + match classify(objects, contacts.last()) {
            Some(event) => seq![event],
            None => Seq::empty(),
        }
    }
}

/// A contact between two colliders of which none belongs to a celestial
/// object gives no event, and so does one with a part that has no owning
/// player; a contact between a collider of the celestial object `planet` and
/// one of the live part `part` of the player `player`, in either order,
/// gives one event, which names the three: a touch when it starts, an
/// untouch when it stops.
pub proof fn lemma_classification(
    objects: Objects,
    first: ContactSide,
    second: ContactSide,
    planet: AmPlanet,
    part: Handle,
    player: u16,
)
    ensures
        first.planet is None && second.planet is None ==> classify(
            objects,
            ContactEvent::Started(Some(first), Some(second)),
        ) is None && classify(objects, ContactEvent::Stopped(Some(first), Some(second))) is None,
        is_part(objects, part) && part_at(objects, part).part_of_player is None && (first.body == part
            || second.body == part) && (first.planet is Some && second.body == part || second.planet is Some
            && first.body == part) ==> classify(objects, ContactEvent::Started(Some(first), Some(second))) is None
            && classify(objects, ContactEvent::Stopped(Some(first), Some(second))) is None,
        is_part(objects, part) && part_at(objects, part).part_of_player == Some(player) ==> {
            let of_planet = ContactSide { planet: Some(planet), body: first.body };
            let of_part = ContactSide { planet: None, body: part };
            let touch = SimulationEvent::PlayerTouchPlanet { player, part, planet: planet.id };
            let untouch = SimulationEvent::PlayerUntouchPlanet { player, part, planet: planet.id };
            &&& classify(objects, ContactEvent::Started(Some(of_planet), Some(of_part))) == Some(touch)
            &&& classify(objects, ContactEvent::Started(Some(of_part), Some(of_planet))) == Some(touch)
            &&& classify(objects, ContactEvent::Stopped(Some(of_planet), Some(of_part))) == Some(untouch)
            &&& classify(objects, ContactEvent::Stopped(Some(of_part), Some(of_planet))) == Some(untouch)
        },
{
}

impl World {
    fn touch_of(&self, planet: u16, body: Handle) -> (touch: Option<Touch>)
        ensures
            touch == touch_of(self@.objects, planet, body),
    {
        match self.get_part(body) {
            Some(part) => match part.part_of_player() {
                Some(player) => Some(Touch { player, part: body, planet }),
                None => None,
            },
            None => None,
        }
    }

    fn touch_between(&self, first: Option<ContactSide>, second: Option<ContactSide>) -> (touch: Option<Touch>)
        ensures
            touch == touch_between(self@.objects, first, second),
    {
        match (first, second) {
            (Some(a), Some(b)) => match (a.planet, b.planet) {
                (Some(planet), None) => self.touch_of(planet.id, b.body),
                (None, Some(planet)) => self.touch_of(planet.id, a.body),
                _ => None,
            },
            _ => None,
        }
    }

    /// The event that `contact` gives rise to, if any.
    pub fn classify_contact(&self, contact: ContactEvent) -> (event: Option<SimulationEvent>)
        ensures
            event == classify(self@.objects, contact),
    {
        match contact {
            ContactEvent::Started(first, second) => match self.touch_between(first, second) {
                Some(touch) => Some(
                    SimulationEvent::PlayerTouchPlanet {
                        player: touch.player,
                        part: touch.part,
                        planet: touch.planet,
                    },
                ),
                None => None,
            },
            ContactEvent::Stopped(first, second) => match self.touch_between(first, second) {
                Some(touch) => Some(
                    SimulationEvent::PlayerUntouchPlanet {
                        player: touch.player,
                        part: touch.part,
                        planet: touch.planet,
                    },
                ),
                None => None,
            },
        }
    }

    /// Adds to `events` the events that `contacts` give rise to, in their order.
    pub fn classify_contacts(&self, contacts: &Vec<ContactEvent>, events: &mut Vec<SimulationEvent>)
        ensures
            final(events)@ == old(events)@ + classify_all(self@.objects, contacts@),
    {
        let mut i: usize = 0;
        while i < contacts.len()
            invariant
                i <= contacts.len(),
                events@ == old(events)@ + classify_all(self@.objects, contacts@.take(i as int)),
            decreases contacts.len() - i,
        {
            proof {
                assert(contacts@.take(i + 1).drop_last() =~= contacts@.take(i as int));
                assert(contacts@.take(i + 1).last() == contacts@[i as int]);
            }
            match self.classify_contact(contacts[i]) {
                Some(event) => {
                    events.push(event);
                },
                None => {},
            }
            i += 1;
        }
        proof {
            assert(contacts@.take(contacts@.len() as int) =~= contacts@);
        }
    }
}

} // verus!
