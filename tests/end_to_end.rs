use game_sync::client::{classify_line, Inbound, Roster, ServerMessage};
use game_sync::codec::{encode_line, Verb};
use game_sync::geometry::{Color, Image};
use game_sync::line_reader::IncrementalLineReader;
use game_sync::registry::SessionRegistry;

#[test]
fn upload_then_leave_reaches_peer() {
    let mut reg = SessionRegistry::new();
    let a = reg.register().unwrap();
    let b = reg.register().unwrap();
    let sprite = Image::from_pixels(2, 2, vec![Color::new(200, 0, 0); 4]).unwrap();
    let (pos, snapshot) = reg.apply_image(a, sprite).unwrap();
    assert!(pos.x >= 0 && pos.x <= 800 && pos.y >= 0 && pos.y <= 600);

    // Session B's side: the all_clients line arrives in two pieces.
    let mut reader = IncrementalLineReader::new();
    let line = encode_line(Verb::AllClients, b"[...]");
    let (head, tail) = line.split_at(5);
    assert!(reader.feed(head).is_empty());
    let lines = reader.feed(tail);
    assert_eq!(lines.len(), 1);
    assert!(matches!(classify_line(&lines[0]), Inbound::Payload(Verb::AllClients, _)));

    let mut roster = Roster::new();
    assert!(roster.apply(ServerMessage::AllClients { entries: snapshot }));
    assert_eq!(roster.position_of(a), Some(pos));
    assert!(roster.position_of(b).is_some());

    assert!(reg.deregister(a));
    assert_eq!(reg.all_ids(), vec![b]);
    let left = encode_line(Verb::ClientLeft, a.to_string().as_bytes());
    let lines = reader.feed(&left);
    let id = match classify_line(&lines[0]) {
        Inbound::ClientLeft(id) => id,
        _ => panic!("expected client_left"),
    };
    assert_eq!(id, a);
    assert!(roster.apply(ServerMessage::ClientLeft { id }));
    assert_eq!(roster.position_of(a), None);
}
