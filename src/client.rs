//! The client's side of a session: its roster of remote sessions, how
//! harness input maps to requests, how inbound lines are sorted, and how
//! the frame is repainted.

use vstd::prelude::*;
use crate::codec::{
    decode_line, is_blank, is_disconnect_signal, parse_id, same_bytes, starts_with, strip_newline,
    trim,
    all_digits, decimal_value, verb_prefix, Verb,
};
use crate::compositor::{blit_spec, clear_to, draw_image, shift_color, tint, Screen};
use crate::geometry::{Color, Image, Point};
use crate::registry::{ids_of, views, Session, SessionView};

verus! {

/// What a roster update carries: one server message, its JSON already read.
#[derive(Debug)]
pub enum ServerMessage {
    /// A session moved.
    Position { id: u32, position: Point },
    /// A session's sprite and position, sent on upload.
    Image { id: u32, image: Image, position: Point },
    /// A session left.
    ClientLeft { id: u32 },
    /// Every registered session.
    AllClients { entries: Vec<Session> },
}

impl ServerMessage {
    /// Every sprite in the message is well formed.
    pub open spec fn wf(&self) -> bool {
        match self {
            ServerMessage::Image { image, .. } => image.wf(),
            ServerMessage::AllClients { entries } => forall|i: int|
                0 <= i < entries@.len() ==> (#[trigger] entries@[i]).image.wf(),
            _ => true,
        }
    }
}

/// `s` with `e` in place of the entry that has `e`'s id, or with `e` added
/// at the end when there is none.
pub open spec fn upsert(s: Seq<SessionView>, e: SessionView) -> Seq<SessionView> {
    if ids_of(s).contains(e.id) {
        s.update(choose|i: int| 0 <= i < s.len() && s[i].id == e.id, e)
    } else {
        s.push(e)
    }
}

/// `upsert` of each of `es` in turn.
pub open spec fn upsert_all(s: Seq<SessionView>, es: Seq<SessionView>) -> Seq<SessionView>
    decreases es.len(),
{
    if es.len() == 0 {
        s
    } else {
        upsert(upsert_all(s, es.drop_last()), es.last())
    }
}

/// The key colour that roster sprites are drawn with: pure green.
pub open spec fn sprite_key() -> Color {
    Color { r: 0, g: 255, b: 0 }
}

/// The background wash of a repaint.
pub open spec fn background() -> Color {
    shift_color(Color { r: 0, g: 0, b: 0 }, 10, 25, 35)
}

/// A screen `sw` pixels wide after drawing each entry's sprite in turn.
pub open spec fn paint_all(before: Seq<Color>, sw: int, entries: Seq<SessionView>) -> Seq<Color>
    decreases entries.len(),
{
    if entries.len() == 0 {
        before
    } else {
        let e = entries.last();
        blit_spec(
            paint_all(before, sw, entries.drop_last()),
            sw,
            e.image.pixels,
            e.image.width as int,
            e.image.height as int,
            e.position,
            Some(sprite_key()),
        )
    }
}

/// Whether `msg` carries an entry for the id `a`, which applying it may add.
pub open spec fn carries(msg: ServerMessage, a: u32) -> bool {
    match msg {
        ServerMessage::Image { id, .. } => id == a,
        ServerMessage::AllClients { entries } => ids_of(views(entries@)).contains(a),
        _ => false,
    }
}

/// `upsert` adds no id but that of the entry put in.
pub proof fn lemma_upsert_ids(s: Seq<SessionView>, e: SessionView)
    ensures
        forall|a: u32|
            #[trigger] ids_of(upsert(s, e)).contains(a) <==> ids_of(s).contains(a) || a == e.id,
{
    if ids_of(s).contains(e.id) {
        let j = choose|j: int| 0 <= j < ids_of(s).len() && ids_of(s)[j] == e.id;
        assert(s[j].id == e.id);
        let i = choose|i: int| 0 <= i < s.len() && s[i].id == e.id;
        assert(ids_of(s.update(i, e)) =~= ids_of(s));
    } else {
        assert(ids_of(s.push(e)) =~= ids_of(s).push(e.id));
        assert forall|a: u32| #[trigger] ids_of(s.push(e)).contains(a) <==> ids_of(s).contains(a)
            || a == e.id by {
            if ids_of(s).contains(a) {
                let j = choose|j: int| 0 <= j < ids_of(s).len() && ids_of(s)[j] == a;
                assert(ids_of(s.push(e))[j] == a);
            }
            if a == e.id {
                assert(ids_of(s.push(e))[s.len() as int] == a);
            }
            if ids_of(s.push(e)).contains(a) && a != e.id {
                let j = choose|j: int| 0 <= j < ids_of(s.push(e)).len() && ids_of(s.push(e))[j] == a;
                assert(ids_of(s)[j] == a);
            }
        }
    }
}

/// `upsert_all` adds no id but those of the entries put in.
pub proof fn lemma_upsert_all_ids(s: Seq<SessionView>, es: Seq<SessionView>)
    ensures
        forall|a: u32|
            #[trigger] ids_of(upsert_all(s, es)).contains(a) ==> ids_of(s).contains(a) || ids_of(
                es,
            ).contains(a),
    decreases es.len(),
{
    if es.len() > 0 {
        let init = es.drop_last();
        lemma_upsert_all_ids(s, init);
        lemma_upsert_ids(upsert_all(s, init), es.last());
        assert forall|a: u32| #[trigger] ids_of(upsert_all(s, es)).contains(a) implies ids_of(
            s,
        ).contains(a) || ids_of(es).contains(a) by {
            if a == es.last().id {
                assert(ids_of(es)[es.len() - 1] == a);
            } else if ids_of(init).contains(a) {
                let j = choose|j: int| 0 <= j < ids_of(init).len() && ids_of(init)[j] == a;
                assert(ids_of(es)[j] == a);
            }
        }
    }
}

/// The remote sessions this client knows of, in the order it learnt of them.
#[derive(Debug)]
pub struct Roster {
    entries: Vec<Session>,
}

impl View for Roster {
    type V = Seq<SessionView>;

    closed spec fn view(&self) -> Seq<SessionView> {
        views(self.entries@)
    }
}

impl Roster {
    /// Ids are distinct and sprites well formed.
    pub closed spec fn wf(&self) -> bool {
        &&& ids_of(self@).no_duplicates()
        &&& forall|i: int| 0 <= i < self.entries@.len() ==> (#[trigger] self.entries@[i]).image.wf()
    }

    /// No two known sessions share an id.
    pub proof fn lemma_ids_distinct(&self)
        requires
            self.wf(),
        ensures
            ids_of(self@).no_duplicates(),
    {
    }

    /// An empty roster.
    pub fn new() -> (r: Roster)
        ensures
            r.wf(),
            r@ == Seq::<SessionView>::empty(),
    {
        let r = Roster { entries: Vec::new() };
        assert(r@ =~= Seq::<SessionView>::empty());
        r
    }

    /// How many sessions are known.
    pub fn len(&self) -> (r: usize)
        ensures
            r == self@.len(),
    {
        self.entries.len()
    }

    /// The index of the entry with this id.
    fn find(&self, id: u32) -> (r: Option<usize>)
        ensures
            r matches Some(i) ==> i < self@.len() && self@[i as int].id == id,
            r is None ==> !ids_of(self@).contains(id),
    {
        let mut i: usize = 0;
        while i < self.entries.len()
            invariant
                i <= self.entries@.len(),
                forall|j: int| 0 <= j < i ==> self.entries@[j].id != id,
            decreases self.entries@.len() - i,
        {
            if self.entries[i].id == id {
                return Some(i);
            }
            i += 1;
        }
        proof {
            if ids_of(self@).contains(id) {
                let j = choose|j: int| 0 <= j < ids_of(self@).len() && ids_of(self@)[j] == id;
                assert(self.entries@[j].id == id);
            }
        }
        None
    }

    /// The position of the entry with this id, if there is one.
    pub fn position_of(&self, id: u32) -> (r: Option<Point>)
        ensures
            r is None <==> !ids_of(self@).contains(id),
            r matches Some(p) ==> exists|i: int|
                0 <= i < self@.len() && self@[i].id == id && self@[i].position == p,
    {
        match self.find(id) {
            Some(i) => {
                assert(ids_of(self@)[i as int] == id);
                Some(self.entries[i].position)
            },
            None => None,
        }
    }

    proof fn lemma_unique_index(&self, i: int)
        requires
            self.wf(),
            0 <= i < self@.len(),
        ensures
            (choose|j: int| 0 <= j < self@.len() && self@[j].id == self@[i].id) == i,
    {
        let j = choose|j: int| 0 <= j < self@.len() && self@[j].id == self@[i].id;
        assert(ids_of(self@)[i] == self@[i].id);
        if j != i {
            assert(ids_of(self@)[j] == ids_of(self@)[i]);
        }
    }

    /// Puts `e` in place of the entry with its id, or adds it at the end.
    pub fn upsert(&mut self, e: Session)
        requires
            old(self).wf(),
            e.image.wf(),
        ensures
            final(self).wf(),
            final(self)@ == upsert(old(self)@, e@),
    {
        let ghost ev = e@;
        match self.find(e.id) {
            Some(i) => {
                proof {
                    self.lemma_unique_index(i as int);
                    assert(ids_of(self@).contains(ev.id)) by {
                        assert(ids_of(self@)[i as int] == ev.id);
                    }
                }
                let ghost prev = self.entries@;
                self.entries.set(i, e);
                proof {
                    assert(self@ =~= old(self)@.update(i as int, ev));
                    assert(ids_of(self@) =~= ids_of(old(self)@));
                    assert forall|j: int| 0 <= j < self.entries@.len() implies (
                    #[trigger] self.entries@[j]).image.wf() by {
                        if j != i {
                            assert(self.entries@[j] == prev[j]);
                        }
                    }
                }
            },
            None => {
                let ghost prev = self.entries@;
                self.entries.push(e);
                proof {
                    assert(self@ =~= old(self)@.push(ev));
                    assert(ids_of(self@) =~= ids_of(old(self)@).push(ev.id));
                    assert forall|j: int| 0 <= j < self.entries@.len() implies (
                    #[trigger] self.entries@[j]).image.wf() by {
                        if j < prev.len() {
                            assert(self.entries@[j] == prev[j]);
                        }
                    }
                }
            },
        }
    }

    /// Applies one server message and says whether it calls for a repaint:
    /// `Position` moves a known entry (a repaint even when the position is
    /// the same), `Image` puts an entry in place or adds it, `ClientLeft`
    /// removes a known entry, and `AllClients` puts each listed entry in
    /// place or adds it, in list order. A `Position` or `ClientLeft` for an
    /// unknown id changes nothing and calls for no repaint. Only `Image` and
    /// `AllClients` can add an id.
    pub fn apply(&mut self, msg: ServerMessage) -> (changed: bool)
        requires
            old(self).wf(),
            msg.wf(),
        ensures
            final(self).wf(),
            changed <==> final(self)@ != old(self)@ || match msg {
                ServerMessage::Image { .. } => true,
                ServerMessage::AllClients { .. } => true,
                ServerMessage::Position { id, .. } => ids_of(old(self)@).contains(id),
                ServerMessage::ClientLeft { .. } => false,
            },
            msg matches ServerMessage::ClientLeft { id } ==> !ids_of(final(self)@).contains(id),
            forall|a: u32|
                !ids_of(old(self)@).contains(a) && #[trigger] ids_of(final(self)@).contains(a)
                    ==> carries(msg, a),
            match msg {
                ServerMessage::Position { id, position } => if ids_of(old(self)@).contains(id) {
                    exists|i: int|
                        0 <= i < old(self)@.len() && old(self)@[i].id == id && final(self)@ == old(
                            self,
                        )@.update(i, (SessionView { position, ..old(self)@[i] }))
                } else {
                    final(self)@ == old(self)@
                },
                ServerMessage::Image { id, image, position } => final(self)@ == upsert(
                    old(self)@,
                    (SessionView { id, position, image: image@ }),
                ),
                ServerMessage::ClientLeft { id } => if ids_of(old(self)@).contains(id) {
                    exists|i: int|
                        0 <= i < old(self)@.len() && old(self)@[i].id == id && final(self)@ == old(
                            self,
                        )@.remove(i)
                } else {
                    final(self)@ == old(self)@
                },
                ServerMessage::AllClients { entries } => final(self)@ == upsert_all(
                    old(self)@,
                    views(entries@),
                ),
            },
    {
        match msg {
            ServerMessage::Position { id, position } => {
                match self.find(id) {
                    Some(i) => {
                        let ghost prev = self.entries@;
                        self.entries[i].position = position;
                        proof {
                            assert(self.entries@ == prev.update(
                                i as int,
                                Session { position, ..prev[i as int] },
                            ));
                            assert(self@ =~= old(self)@.update(
                                i as int,
                                SessionView { position, ..old(self)@[i as int] },
                            ));
                            assert(ids_of(self@) =~= ids_of(old(self)@));
                            assert forall|j: int| 0 <= j < self.entries@.len() implies (
                            #[trigger] self.entries@[j]).image.wf() by {
                                if j != i {
                                    assert(self.entries@[j] == prev[j]);
                                }
                            }
                            assert(ids_of(old(self)@)[i as int] == id);
                        }
                        true
                    },
                    None => false,
                }
            },
            ServerMessage::Image { id, image, position } => {
                let ghost ev = SessionView { id, position, image: image@ };
                self.upsert(Session { id, position, image });
                proof {
                    lemma_upsert_ids(old(self)@, ev);
                }
                true
            },
            ServerMessage::ClientLeft { id } => {
                match self.find(id) {
                    Some(i) => {
                        let ghost prev = self.entries@;
                        let _gone = self.entries.remove(i);
                        proof {
                            assert(self.entries@ =~= prev.remove(i as int));
                            assert(self@ =~= old(self)@.remove(i as int));
                            assert(ids_of(self@) =~= ids_of(old(self)@).remove(i as int));
                            assert forall|a: int, b: int|
                                0 <= a < ids_of(self@).len() && 0 <= b < ids_of(self@).len() && a
                                    != b implies ids_of(self@)[a] != ids_of(self@)[b] by {
                                let oa = if a < i { a } else { a + 1 };
                                let ob = if b < i { b } else { b + 1 };
                                assert(ids_of(self@)[a] == ids_of(old(self)@)[oa]);
                                assert(ids_of(self@)[b] == ids_of(old(self)@)[ob]);
                            }
                            assert forall|j: int| 0 <= j < self.entries@.len() implies (
                            #[trigger] self.entries@[j]).image.wf() by {
                                if j < i {
                                    assert(self.entries@[j] == prev[j]);
                                } else {
                                    assert(self.entries@[j] == prev[j + 1]);
                                }
                            }
                            assert(ids_of(old(self)@)[i as int] == id);
                            assert(self@.len() != old(self)@.len());
                            assert forall|a: u32| #[trigger] ids_of(self@).contains(a) implies ids_of(
                                old(self)@,
                            ).contains(a) && a != id by {
                                let j = choose|j: int|
                                    0 <= j < ids_of(self@).len() && ids_of(self@)[j] == a;
                                let oj = if j < i { j } else { j + 1 };
                                assert(ids_of(self@)[j] == ids_of(old(self)@)[oj]);
                                assert(oj != i);
                            }
                        }
                        true
                    },
                    None => false,
                }
            },
            ServerMessage::AllClients { entries } => {
                let ghost listed = views(entries@);
                let mut entries = entries;
                let mut taken: Vec<Session> = Vec::new();
                // Entries are applied in list order; moving them out of the
                // vector from the back, then back to front, keeps that order.
                while entries.len() > 0
                    invariant
                        views(entries@) + views(taken@).reverse() == listed,
                        forall|i: int| 0 <= i < entries@.len() ==> (#[trigger] entries@[i]).image.wf(),
                        forall|i: int| 0 <= i < taken@.len() ==> (#[trigger] taken@[i]).image.wf(),
                    decreases entries@.len(),
                {
                    let ghost before_e = entries@;
                    let ghost before_t = taken@;
                    let e = entries.pop().unwrap();
                    taken.push(e);
                    proof {
                        assert(entries@ == before_e.drop_last());
                        assert(views(entries@) + views(taken@).reverse() =~= views(before_e)
                            + views(before_t).reverse());
                    }
                }
                let n = taken.len();
                proof {
                    assert(views(taken@).reverse() =~= listed);
                    assert(listed.subrange(0, 0) =~= Seq::<SessionView>::empty());
                    assert(listed.subrange(0, n as int) =~= listed);
                }
                let mut k: usize = 0;
                while k < n
                    invariant
                        k <= n,
                        self.wf(),
                        views(taken@).reverse() == listed.subrange(k as int, n as int),
                        listed.len() == n,
                        forall|i: int| 0 <= i < taken@.len() ==> (#[trigger] taken@[i]).image.wf(),
                        taken@.len() == n - k,
                        self@ == upsert_all(old(self)@, listed.subrange(0, k as int)),
                    decreases n - k,
                {
                    let ghost before_t = taken@;
                    let e = taken.pop().unwrap();
                    proof {
                        assert(e@ == listed[k as int]) by {
                            assert(views(before_t).reverse()[0] == views(before_t)[n - 1 - k]);
                            assert(listed.subrange(k as int, n as int)[0] == listed[k as int]);
                        }
                        assert(taken@ == before_t.drop_last());
                        assert forall|m: int| 0 <= m < n - k - 1 implies views(taken@).reverse()[m]
                            == listed.subrange(k + 1, n as int)[m] by {
                            assert(views(taken@).reverse()[m] == views(before_t).reverse()[m + 1]);
                            assert(listed.subrange(k as int, n as int)[m + 1] == listed[k + 1 + m]);
                        }
                        assert(views(taken@).reverse() =~= listed.subrange(k + 1, n as int));
                    }
                    self.upsert(e);
                    proof {
                        assert(listed.subrange(0, k + 1).drop_last() =~= listed.subrange(
                            0,
                            k as int,
                        ));
                    }
                    k += 1;
                }
                proof {
                    assert(listed.subrange(0, n as int) =~= listed);
                    lemma_upsert_all_ids(old(self)@, listed);
                }
                true
            },
        }
    }
}

/// What one harness event asks of the client.
#[derive(Debug, Clone, Copy, PartialEq, Eq, Structural)]
pub enum Input {
    /// Nothing.
    Nothing,
    /// Repaint the frame.
    Redraw,
    /// Stop the client.
    Quit,
    /// Ask the server to move this session by the given delta.
    Move(Point),
}

/// What the client reports to the harness after a tick.
#[derive(Debug, Clone, Copy, PartialEq, Eq, Structural)]
pub enum UpdateStatus {
    GoOn,
    Redraw,
    Quit,
}

/// How far one arrow key press moves the session.
pub const STEP: i32 = 10;

/// The request made by a harness event with tag `evt` and key name `key`:
/// `C` (expose) repaints, `Q` (window closed) quits, and `KP` (key press)
/// maps Escape to quitting, the arrows to moves of `STEP`, and space to a
/// repaint. Anything else asks nothing.
pub open spec fn input_spec(evt: Seq<u8>, key: Seq<u8>) -> Input {
    if evt == seq![67u8] {
        Input::Redraw
    } else if evt == seq![81u8] {
        Input::Quit
    } else if evt == seq![75u8, 80] {
        if key == seq![69u8, 115, 99, 97, 112, 101] {
            Input::Quit
        } else if key == seq![76u8, 101, 102, 116] {
            Input::Move(Point { x: (-STEP) as i32, y: 0 })
        } else if key == seq![82u8, 105, 103, 104, 116] {
            Input::Move(Point { x: STEP, y: 0 })
        } else if key == seq![85u8, 112] {
            Input::Move(Point { x: 0, y: (-STEP) as i32 })
        } else if key == seq![68u8, 111, 119, 110] {
            Input::Move(Point { x: 0, y: STEP })
        } else if key == seq![32u8] {
            Input::Redraw
        } else {
            Input::Nothing
        }
    } else {
        Input::Nothing
    }
}

/// Maps a harness event to the request it makes.
pub fn decode_input(evt: &[u8], key: &[u8]) -> (r: Input)
    ensures
        r == input_spec(evt@, key@),
{
    let expose: Vec<u8> = vec![67u8];
    let close: Vec<u8> = vec![81u8];
    let key_press: Vec<u8> = vec![75u8, 80];
    let escape: Vec<u8> = vec![69u8, 115, 99, 97, 112, 101];
    let left: Vec<u8> = vec![76u8, 101, 102, 116];
    let right: Vec<u8> = vec![82u8, 105, 103, 104, 116];
    let up: Vec<u8> = vec![85u8, 112];
    let down: Vec<u8> = vec![68u8, 111, 119, 110];
    let space: Vec<u8> = vec![32u8];
    assert(expose@ =~= seq![67u8]);
    assert(close@ =~= seq![81u8]);
    assert(key_press@ =~= seq![75u8, 80]);
    assert(escape@ =~= seq![69u8, 115, 99, 97, 112, 101]);
    assert(left@ =~= seq![76u8, 101, 102, 116]);
    assert(right@ =~= seq![82u8, 105, 103, 104, 116]);
    assert(up@ =~= seq![85u8, 112]);
    assert(down@ =~= seq![68u8, 111, 119, 110]);
    assert(space@ =~= seq![32u8]);
    if same_bytes(evt, expose.as_slice()) {
        Input::Redraw
    } else if same_bytes(evt, close.as_slice()) {
        Input::Quit
    } else if same_bytes(evt, key_press.as_slice()) {
        if same_bytes(key, escape.as_slice()) {
            Input::Quit
        } else if same_bytes(key, left.as_slice()) {
            Input::Move(Point { x: -STEP, y: 0 })
        } else if same_bytes(key, right.as_slice()) {
            Input::Move(Point { x: STEP, y: 0 })
        } else if same_bytes(key, up.as_slice()) {
            Input::Move(Point { x: 0, y: -STEP })
        } else if same_bytes(key, down.as_slice()) {
            Input::Move(Point { x: 0, y: STEP })
        } else if same_bytes(key, space.as_slice()) {
            Input::Redraw
        } else {
            Input::Nothing
        }
    } else {
        Input::Nothing
    }
}

/// The status of a tick: quitting when asked to or when the server went
/// away; otherwise repainting when asked to, after a move request, or when
/// the roster changed; otherwise going on.
pub open spec fn status_spec(input: Input, roster_changed: bool, server_gone: bool) -> UpdateStatus {
    if input == Input::Quit || server_gone {
        UpdateStatus::Quit
    } else if input == Input::Redraw || input is Move || roster_changed {
        UpdateStatus::Redraw
    } else {
        UpdateStatus::GoOn
    }
}

/// Decides what a tick reports to the harness.
pub fn tick_status(input: Input, roster_changed: bool, server_gone: bool) -> (r: UpdateStatus)
    ensures
        r == status_spec(input, roster_changed, server_gone),
{
    let quit = match input {
        Input::Quit => true,
        _ => false,
    };
    let asks_redraw = match input {
        Input::Redraw => true,
        Input::Move(_) => true,
        _ => false,
    };
    if quit || server_gone {
        UpdateStatus::Quit
    } else if asks_redraw || roster_changed {
        UpdateStatus::Redraw
    } else {
        UpdateStatus::GoOn
    }
}

/// What an inbound line turns out to be.
#[derive(Debug)]
pub enum Inbound {
    /// A blank line: the server closed the connection.
    Disconnect,
    /// `client_left` with the id of the session that left.
    ClientLeft(u32),
    /// `position`, `image` or `all_clients`, with the JSON payload to read.
    Payload(Verb, Vec<u8>),
    /// `client_left` whose payload is not an id.
    Malformed,
    /// A line with no verb a client handles.
    Ignored,
}

/// The payload of a line that carries verb `v`.
pub open spec fn payload_of(line: Seq<u8>, v: Verb) -> Seq<u8> {
    strip_newline(line.subrange(verb_prefix(v).len() as int, line.len() as int))
}

/// Every byte of `line` is ASCII whitespace.
pub open spec fn blank_line(line: Seq<u8>) -> bool {
    forall|i: int| 0 <= i < line.len() ==> is_blank(#[trigger] line[i])
}

/// Sorts one inbound line: blank lines signal disconnection, `client_left`
/// lines give the id read from their payload, `position`, `image` and
/// `all_clients` lines hand over their payload, and any other line is
/// ignored.
pub fn classify_line(line: &[u8]) -> (r: Inbound)
    ensures
        r is Disconnect <==> blank_line(line@),
        !blank_line(line@) && starts_with(line@, verb_prefix(Verb::ClientLeft)) ==> {
            let t = trim(payload_of(line@, Verb::ClientLeft));
            if t.len() > 0 && all_digits(t) && decimal_value(t) <= u32::MAX {
                r == Inbound::ClientLeft(decimal_value(t) as u32)
            } else {
                r is Malformed
            }
        },
        forall|v: Verb|
            #![trigger verb_prefix(v)]
            v != Verb::ClientLeft && v != Verb::Motion && !blank_line(line@) && starts_with(
                line@,
                verb_prefix(v),
            ) ==> (r matches Inbound::Payload(w, p) && w == v && p@ == payload_of(line@, v)),
        !blank_line(line@) && (starts_with(line@, verb_prefix(Verb::Motion)) || forall|v: Verb|
            !starts_with(line@, #[trigger] verb_prefix(v))) ==> r is Ignored,
{
    if is_disconnect_signal(line) {
        return Inbound::Disconnect;
    }
    match decode_line(line) {
        Err(_) => Inbound::Ignored,
        Ok((verb, payload)) => {
            proof {
                lemma_one_verb(line@, verb);
            }
            match verb {
                Verb::ClientLeft => match parse_id(payload.as_slice()) {
                    Ok(id) => Inbound::ClientLeft(id),
                    Err(_) => Inbound::Malformed,
                },
                Verb::Motion => Inbound::Ignored,
                _ => Inbound::Payload(verb, payload),
            }
        },
    }
}

/// A line starts with at most one verb's prefix.
proof fn lemma_one_verb(line: Seq<u8>, v: Verb)
    requires
        starts_with(line, verb_prefix(v)),
    ensures
        forall|w: Verb| #[trigger] starts_with(line, verb_prefix(w)) ==> w == v,
{
    assert forall|w: Verb| #[trigger] starts_with(line, verb_prefix(w)) implies w == v by {
        assert(line[0] == verb_prefix(w)[0]);
        assert(line[0] == verb_prefix(v)[0]);
    }
}

/// Repaints the frame: washes it to the background colour, then draws each
/// known session's sprite at its position, in roster order, with pure
/// green as the transparency key.
pub fn redraw(roster: &Roster, screen: &mut Screen)
    requires
        roster.wf(),
        old(screen).wf(),
    ensures
        final(screen).width == old(screen).width,
        final(screen).height == old(screen).height,
        final(screen).pixels@ == paint_all(
            Seq::new(old(screen).pixels@.len(), |i: int| background()),
            old(screen).width as int,
            roster@,
        ),
{
    clear_to(screen, Color { r: 0, g: 0, b: 0 });
    tint(screen, 10, 25, 35);
    let ghost bg = Seq::new(old(screen).pixels@.len(), |i: int| background());
    assert(screen.pixels@ =~= bg);
    assert(roster@.subrange(0, 0) =~= Seq::<SessionView>::empty());
    let key = Color { r: 0, g: 255, b: 0 };
    let mut k: usize = 0;
    while k < roster.entries.len()
        invariant
            roster.wf(),
            key == sprite_key(),
            k <= roster@.len(),
            roster@.len() == roster.entries@.len(),
            screen.wf(),
            screen.width == old(screen).width,
            screen.height == old(screen).height,
            screen.pixels@ == paint_all(bg, old(screen).width as int, roster@.subrange(0, k as int)),
        decreases roster@.len() - k,
    {
        let entry = &roster.entries[k];
        let ghost painted = screen.pixels@;
        draw_image(screen, &entry.image, entry.position, Some(key));
        proof {
            let done = roster@.subrange(0, k + 1);
            assert(done.drop_last() =~= roster@.subrange(0, k as int));
            assert(done.last() == entry@);
            assert(paint_all(bg, old(screen).width as int, done) == blit_spec(
                painted,
                old(screen).width as int,
                entry.image.pixels@,
                entry.image.width as int,
                entry.image.height as int,
                entry.position,
                Some(sprite_key()),
            ));
        }
        k += 1;
    }
    assert(roster@.subrange(0, k as int) =~= roster@);
}

} // verus!
