use game_sync::codec::Verb;
use game_sync::protocol::{fan_out, Delivery, ServerEvent};
use game_sync::registry::SessionRegistry;

fn d(to: u32, verb: Verb) -> Delivery {
    Delivery { to, verb }
}

fn three() -> SessionRegistry {
    let mut reg = SessionRegistry::new();
    for _ in 0..3 {
        reg.register().unwrap();
    }
    reg
}

#[test]
fn motion_goes_to_sender_then_others() {
    let plan = fan_out(&three(), 2, ServerEvent::Moved);
    assert_eq!(plan, vec![d(2, Verb::Position), d(1, Verb::Position), d(3, Verb::Position)]);
}

#[test]
fn image_acks_sender_then_roster_to_everyone() {
    let plan = fan_out(&three(), 3, ServerEvent::ImagePlaced);
    assert_eq!(
        plan,
        vec![d(3, Verb::Image), d(1, Verb::AllClients), d(2, Verb::AllClients), d(3, Verb::AllClients)]
    );
}

#[test]
fn departure_notifies_remaining() {
    let mut reg = three();
    assert!(reg.deregister(1));
    let plan = fan_out(&reg, 1, ServerEvent::Left);
    assert_eq!(plan, vec![d(2, Verb::ClientLeft), d(3, Verb::ClientLeft)]);
}
