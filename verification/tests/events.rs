use part_world::world::bodies::RigidBody;
use part_world::world::contacts::ContactEvent;
use part_world::world::contacts::ContactSide;
use part_world::world::contacts::SimulationEvent;
use part_world::world::parts::Part;
use part_world::world::parts::PartKind;
use part_world::world::simulation::Simulation;
use part_world::world::Handle;
use part_world::world::WorldAddHandle;
use part_world::world::WorldlyObject;

fn add_part(simulation: &mut Simulation, player: Option<u16>) -> Handle {
    let part = Part::new(PartKind::new([None, None, None, None]), RigidBody::dynamic(1, 0, 0), player);
    WorldAddHandle::from(&mut simulation.world).add_now(WorldlyObject::Part(part))
}

fn of_earth(simulation: &Simulation) -> Option<ContactSide> {
    Some(ContactSide { planet: Some(simulation.planets.earth.tag()), body: simulation.planets.earth.body })
}

fn of_part(part: Handle) -> Option<ContactSide> {
    Some(ContactSide { planet: None, body: part })
}

#[test]
fn two_parts_touching_give_no_event() {
    let mut simulation = Simulation::new();
    let a = add_part(&mut simulation, Some(1));
    let b = add_part(&mut simulation, Some(2));
    assert_eq!(simulation.world.classify_contact(ContactEvent::Started(of_part(a), of_part(b))), None);
    assert_eq!(simulation.world.classify_contact(ContactEvent::Stopped(of_part(a), of_part(b))), None);
}

#[test]
fn an_unowned_part_on_the_earth_gives_no_event() {
    let mut simulation = Simulation::new();
    let part = add_part(&mut simulation, None);
    let earth = of_earth(&simulation);
    assert_eq!(simulation.world.classify_contact(ContactEvent::Started(earth, of_part(part))), None);
    assert_eq!(simulation.world.classify_contact(ContactEvent::Started(of_part(part), earth)), None);
    assert_eq!(simulation.world.classify_contact(ContactEvent::Stopped(earth, of_part(part))), None);
}

#[test]
fn an_owned_part_on_the_earth_gives_touch_and_untouch() {
    let mut simulation = Simulation::new();
    let part = add_part(&mut simulation, Some(9));
    let earth = of_earth(&simulation);
    let planet = simulation.planets.earth.id;
    let touch = SimulationEvent::PlayerTouchPlanet { player: 9, part, planet };
    let untouch = SimulationEvent::PlayerUntouchPlanet { player: 9, part, planet };
    assert_eq!(simulation.world.classify_contact(ContactEvent::Started(earth, of_part(part))), Some(touch));
    assert_eq!(simulation.world.classify_contact(ContactEvent::Started(of_part(part), earth)), Some(touch));
    assert_eq!(simulation.world.classify_contact(ContactEvent::Stopped(earth, of_part(part))), Some(untouch));
    assert_eq!(simulation.world.classify_contact(ContactEvent::Stopped(of_part(part), earth)), Some(untouch));
}

#[test]
fn contacts_with_what_is_gone_or_with_two_planets_are_dropped() {
    let mut simulation = Simulation::new();
    let part = add_part(&mut simulation, Some(9));
    let earth = of_earth(&simulation);
    assert_eq!(simulation.world.classify_contact(ContactEvent::Started(earth, earth)), None);
    assert_eq!(simulation.world.classify_contact(ContactEvent::Started(earth, None)), None);
    assert_eq!(simulation.world.classify_contact(ContactEvent::Stopped(None, of_part(part))), None);
    let anchor = simulation.world.reference_point_body();
    assert_eq!(simulation.world.classify_contact(ContactEvent::Started(earth, of_part(anchor))), None);
    simulation.world.remove_part_unprotected(part);
    assert_eq!(simulation.world.classify_contact(ContactEvent::Started(earth, of_part(part))), None);
    assert_eq!(simulation.world.classify_contact(ContactEvent::Stopped(of_part(part), earth)), None);
}

#[test]
fn a_tick_reports_events_in_the_order_of_its_contacts() {
    let mut simulation = Simulation::new();
    let owned = add_part(&mut simulation, Some(3));
    let other = add_part(&mut simulation, Some(4));
    let unowned = add_part(&mut simulation, None);
    let earth = of_earth(&simulation);
    let planet = simulation.planets.earth.id;
    let contacts = vec![
        ContactEvent::Started(earth, of_part(owned)),
        ContactEvent::Started(of_part(owned), of_part(other)),
        ContactEvent::Stopped(of_part(owned), earth),
        ContactEvent::Started(of_part(unowned), earth),
        ContactEvent::Started(of_part(other), earth),
        ContactEvent::Started(earth, of_part(owned)),
    ];
    let before = SimulationEvent::PlayerTouchPlanet { player: 0, part: unowned, planet };
    let mut events = vec![before];
    simulation.simulate(&contacts, &mut events);
    assert_eq!(
        events,
        vec![
            before,
            SimulationEvent::PlayerTouchPlanet { player: 3, part: owned, planet },
            SimulationEvent::PlayerUntouchPlanet { player: 3, part: owned, planet },
            SimulationEvent::PlayerTouchPlanet { player: 4, part: other, planet },
            SimulationEvent::PlayerTouchPlanet { player: 3, part: owned, planet },
        ]
    );
    let mut none = Vec::new();
    simulation.simulate(&Vec::new(), &mut none);
    assert!(none.is_empty());
}
