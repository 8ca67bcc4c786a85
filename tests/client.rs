use game_sync::client::{
    classify_line, decode_input, redraw, tick_status, Inbound, Input, Roster, ServerMessage,
    UpdateStatus,
};
use game_sync::codec::Verb;
use game_sync::compositor::Screen;
use game_sync::geometry::{Color, Image, Point};
use game_sync::registry::Session;

fn img(w: usize, h: usize, c: Color) -> Image {
    Image::from_pixels(w, h, vec![c; w * h]).unwrap()
}

#[test]
fn arrow_keys_request_moves() {
    assert_eq!(decode_input(b"KP", b"Left"), Input::Move(Point::new(-10, 0)));
    assert_eq!(decode_input(b"KP", b"Right"), Input::Move(Point::new(10, 0)));
    assert_eq!(decode_input(b"KP", b"Up"), Input::Move(Point::new(0, -10)));
    assert_eq!(decode_input(b"KP", b"Down"), Input::Move(Point::new(0, 10)));
}

#[test]
fn other_events_map_to_status_requests() {
    assert_eq!(decode_input(b"KP", b"Escape"), Input::Quit);
    assert_eq!(decode_input(b"KP", b" "), Input::Redraw);
    assert_eq!(decode_input(b"KP", b"a"), Input::Nothing);
    assert_eq!(decode_input(b"C", b""), Input::Redraw);
    assert_eq!(decode_input(b"Q", b""), Input::Quit);
    assert_eq!(decode_input(b"T", b"Left"), Input::Nothing);
}

#[test]
fn tick_status_precedence() {
    assert_eq!(tick_status(Input::Nothing, false, false), UpdateStatus::GoOn);
    assert_eq!(tick_status(Input::Nothing, true, false), UpdateStatus::Redraw);
    assert_eq!(tick_status(Input::Move(Point::new(1, 0)), false, false), UpdateStatus::Redraw);
    assert_eq!(tick_status(Input::Redraw, true, true), UpdateStatus::Quit);
    assert_eq!(tick_status(Input::Quit, true, false), UpdateStatus::Quit);
}

#[test]
fn roster_applies_each_message_kind() {
    let mut r = Roster::new();
    let red = Color::new(255, 0, 0);
    assert!(r.apply(ServerMessage::Image { id: 3, image: img(1, 1, red), position: Point::new(5, 5) }));
    assert!(!r.apply(ServerMessage::Position { id: 9, position: Point::new(1, 1) }));
    assert!(r.apply(ServerMessage::Position { id: 3, position: Point::new(6, 7) }));
    assert_eq!(r.position_of(3), Some(Point::new(6, 7)));
    let entries = vec![
        Session { id: 3, position: Point::new(1, 1), image: img(1, 1, red) },
        Session { id: 4, position: Point::new(2, 2), image: img(1, 1, red) },
    ];
    assert!(r.apply(ServerMessage::AllClients { entries }));
    assert_eq!(r.len(), 2);
    assert_eq!(r.position_of(3), Some(Point::new(1, 1)));
    assert!(r.apply(ServerMessage::ClientLeft { id: 3 }));
    assert!(!r.apply(ServerMessage::ClientLeft { id: 3 }));
    assert_eq!(r.position_of(3), None);
    assert_eq!(r.len(), 1);
}

#[test]
fn classify_sorts_lines() {
    assert!(matches!(classify_line(b"\n"), Inbound::Disconnect));
    assert!(matches!(classify_line(b""), Inbound::Disconnect));
    assert!(matches!(classify_line(b"client_left 12\n"), Inbound::ClientLeft(12)));
    assert!(matches!(classify_line(b"client_left x\n"), Inbound::Malformed));
    assert!(matches!(classify_line(b"motion {}\n"), Inbound::Ignored));
    assert!(matches!(classify_line(b"hello\n"), Inbound::Ignored));
    match classify_line(b"position [1,{\"x\":1,\"y\":2}]\n") {
        Inbound::Payload(Verb::Position, p) => assert_eq!(p, b"[1,{\"x\":1,\"y\":2}]".to_vec()),
        _ => panic!("expected a position payload"),
    }
}

#[test]
fn redraw_washes_and_draws_with_key() {
    let mut r = Roster::new();
    let key = Color::new(0, 255, 0);
    let red = Color::new(255, 0, 0);
    let sprite = Image::from_pixels(2, 1, vec![red, key]).unwrap();
    r.apply(ServerMessage::Image { id: 1, image: sprite, position: Point::new(1, 0) });
    let mut s = Screen::new(3, 1, Color::new(9, 9, 9)).unwrap();
    redraw(&r, &mut s);
    let bg = Color::new(10, 25, 35);
    assert_eq!(s.pixels, vec![bg, red, bg]);
}

#[test]
fn repeated_position_still_redraws() {
    let mut r = Roster::new();
    let red = Color::new(255, 0, 0);
    r.apply(ServerMessage::Image { id: 1, image: img(1, 1, red), position: Point::new(4, 4) });
    let changed = r.apply(ServerMessage::Position { id: 1, position: Point::new(4, 4) });
    assert!(changed);
    assert_eq!(tick_status(Input::Nothing, changed, false), UpdateStatus::Redraw);
}

#[test]
fn left_session_stays_absent() {
    let mut r = Roster::new();
    let red = Color::new(255, 0, 0);
    r.apply(ServerMessage::Image { id: 1, image: img(1, 1, red), position: Point::new(0, 0) });
    r.apply(ServerMessage::Image { id: 2, image: img(1, 1, red), position: Point::new(0, 0) });
    assert!(r.apply(ServerMessage::ClientLeft { id: 1 }));
    assert!(!r.apply(ServerMessage::Position { id: 1, position: Point::new(3, 3) }));
    let entries = vec![Session { id: 2, position: Point::new(5, 5), image: img(1, 1, red) }];
    r.apply(ServerMessage::AllClients { entries });
    assert_eq!(r.position_of(1), None);
    assert_eq!(r.position_of(2), Some(Point::new(5, 5)));
}
