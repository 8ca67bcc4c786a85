//! The server's registry of connected sessions: identity, position and
//! sprite of each. Callers hold it behind one exclusive lock; every method
//! here is one atomic step of that lock's holder.

use vstd::prelude::*;
use rand::Rng;
use crate::geometry::{
    Image, ImageView, Point, empty_image_view, in_world, step, step_spec, WORLD_HEIGHT, WORLD_WIDTH,
};

verus! {

/// Why a registry operation did not take place.
#[derive(Debug, Clone, Copy, PartialEq, Eq, Structural)]
pub enum RegistryError {
    /// The id names no registered session.
    UnknownSession,
    /// Every id a `u32` can hold has been handed out.
    IdsExhausted,
}

/// One connected session.
#[derive(Debug)]
pub struct Session {
    pub id: u32,
    pub position: Point,
    pub image: Image,
}

/// What a session holds, as mathematical values.
pub struct SessionView {
    pub id: u32,
    pub position: Point,
    pub image: ImageView,
}

impl View for Session {
    type V = SessionView;

    open spec fn view(&self) -> SessionView {
        SessionView { id: self.id, position: self.position, image: self.image@ }
    }
}

impl Session {
    /// A copy of this session's id, position and sprite.
    pub fn duplicate(&self) -> (r: Session)
        ensures
            r@ == self@,
    {
        Session { id: self.id, position: self.position, image: self.image.duplicate() }
    }
}

/// The views of a sequence of sessions.
pub open spec fn views(s: Seq<Session>) -> Seq<SessionView> {
    s.map_values(|e: Session| e@)
}

/// The ids of a sequence of session views, in order.
pub open spec fn ids_of(s: Seq<SessionView>) -> Seq<u32> {
    s.map_values(|e: SessionView| e.id)
}

/// `ids` less every occurrence of `id`, in order.
pub open spec fn without(ids: Seq<u32>, id: u32) -> Seq<u32>
    decreases ids.len(),
{
    if ids.len() == 0 {
        Seq::empty()
    } else {
        let rest = without(ids.drop_last(), id);
        if ids.last() != id {
            rest.push(ids.last())
        } else {
            rest
        }
    }
}

/// Ids strictly increase along the sequence, so none occurs twice.
pub open spec fn strictly_increasing(ids: Seq<u32>) -> bool {
    forall|i: int, j: int| 0 <= i < j < ids.len() ==> ids[i] < ids[j]
}

/// Relies on rand's thread-local generator: `gen_range(0..bound)` returns a
/// value in `[0, bound)`, and panics only on an empty range.
#[verifier::external_body]
fn random_below(bound: i32) -> (r: i32)
    requires
        bound > 0,
    ensures
        0 <= r < bound,
{
    rand::thread_rng().gen_range(0..bound)
}

/// All connected sessions, kept in order of registration, and the next id
/// to hand out.
#[derive(Debug)]
pub struct SessionRegistry {
    next_id: u32,
    sessions: Vec<Session>,
}

impl View for SessionRegistry {
    type V = Seq<SessionView>;

    closed spec fn view(&self) -> Seq<SessionView> {
        views(self.sessions@)
    }
}

impl SessionRegistry {
    /// The id the next registration receives.
    pub closed spec fn next_id_spec(&self) -> u32 {
        self.next_id
    }

    /// Ids are positive, increase in registration order and stay below the
    /// next id; stored positions lie in the world; sprites are well formed.
    pub closed spec fn wf(&self) -> bool {
        &&& self.next_id >= 1
        &&& strictly_increasing(ids_of(self@))
        &&& forall|i: int|
            0 <= i < self.sessions@.len() ==> {
                &&& 1 <= #[trigger] self.sessions@[i].id < self.next_id
                &&& in_world(self.sessions@[i].position)
                &&& self.sessions@[i].image.wf()
            }
    }

    /// The ids of the registered sessions, in registration order.
    pub open spec fn ids(&self) -> Seq<u32> {
        ids_of(self@)
    }

    /// The registered ids are distinct, and all lie below the next id.
    pub proof fn lemma_wf_facts(&self)
        requires
            self.wf(),
        ensures
            strictly_increasing(self.ids()),
            self.ids().no_duplicates(),
            forall|i: int|
                0 <= i < self@.len() ==> 1 <= #[trigger] self@[i].id < self.next_id_spec()
                    && in_world(self@[i].position),
    {
        assert forall|i: int, j: int|
            0 <= i < self.ids().len() && 0 <= j < self.ids().len() && i != j implies self.ids()[i]
            != self.ids()[j] by {
            if i < j {
                assert(self.ids()[i] < self.ids()[j]);
            } else {
                assert(self.ids()[j] < self.ids()[i]);
            }
        }
        assert forall|i: int| 0 <= i < self@.len() implies 1 <= #[trigger] self@[i].id
            < self.next_id_spec() && in_world(self@[i].position) by {
            assert(self@[i] == self.sessions@[i]@);
        }
    }

    /// An empty registry whose first id will be 1.
    pub fn new() -> (r: SessionRegistry)
        ensures
            r.wf(),
            r@ == Seq::<SessionView>::empty(),
            r.next_id_spec() == 1,
    {
        let r = SessionRegistry { next_id: 1, sessions: Vec::new() };
        assert(r@ =~= Seq::<SessionView>::empty());
        r
    }

    /// How many sessions are registered.
    pub fn len(&self) -> (r: usize)
        ensures
            r == self@.len(),
    {
        self.sessions.len()
    }

    /// The index of the session with this id.
    fn find(&self, id: u32) -> (r: Option<usize>)
        ensures
            r matches Some(i) ==> i < self@.len() && self@[i as int].id == id,
            r is None ==> !self.ids().contains(id),
    {
        let mut i: usize = 0;
        while i < self.sessions.len()
            invariant
                i <= self.sessions@.len(),
                forall|j: int| 0 <= j < i ==> self.sessions@[j].id != id,
            decreases self.sessions@.len() - i,
        {
            if self.sessions[i].id == id {
                return Some(i);
            }
            i += 1;
        }
        proof {
            if self.ids().contains(id) {
                let j = choose|j: int| 0 <= j < self.ids().len() && self.ids()[j] == id;
                assert(self.sessions@[j].id == id);
            }
        }
        None
    }

    /// Registers a new session at (0, 0) with an empty sprite and returns
    /// its id, which is the next id; ids are never handed out twice.
    pub fn register(&mut self) -> (r: Result<u32, RegistryError>)
        requires
            old(self).wf(),
        ensures
            final(self).wf(),
            old(self).next_id_spec() < u32::MAX ==> r == Ok::<u32, RegistryError>(
                old(self).next_id_spec(),
            ) && final(self).next_id_spec() == old(self).next_id_spec() + 1 && final(self)@ == old(
                self,
            )@.push(
                (SessionView {
                    id: old(self).next_id_spec(),
                    position: (Point { x: 0, y: 0 }),
                    image: empty_image_view(),
                }),
            ),
            old(self).next_id_spec() == u32::MAX ==> r == Err::<u32, RegistryError>(
                RegistryError::IdsExhausted,
            ) && *final(self) == *old(self),
    {
        if self.next_id == u32::MAX {
            return Err(RegistryError::IdsExhausted);
        }
        let id = self.next_id;
        self.next_id = id + 1;
        self.sessions.push(Session { id, position: Point { x: 0, y: 0 }, image: Image::empty() });
        proof {
            assert(self@ =~= old(self)@.push(
                SessionView { id, position: Point { x: 0, y: 0 }, image: empty_image_view() },
            ));
            assert(ids_of(self@) =~= ids_of(old(self)@).push(id));
            assert forall|i: int|
                0 <= i < self.sessions@.len() implies 1 <= #[trigger] self.sessions@[i].id
                < self.next_id by {
                if i < old(self).sessions@.len() {
                    assert(self.sessions@[i] == old(self).sessions@[i]);
                }
            }
            assert forall|i: int, j: int|
                0 <= i < j < ids_of(self@).len() implies ids_of(self@)[i] < ids_of(self@)[j] by {
                if j < old(self).sessions@.len() {
                    assert(ids_of(old(self)@)[i] < ids_of(old(self)@)[j]);
                } else {
                    assert(ids_of(self@)[i] == self.sessions@[i].id);
                }
            }
        }
        Ok(id)
    }

    /// Moves the session `id` by `delta`, clamping to the world, and returns
    /// its new position. Fails with `UnknownSession`, changing nothing, when
    /// no session has that id.
    pub fn apply_motion(&mut self, id: u32, delta: Point) -> (r: Result<Point, RegistryError>)
        requires
            old(self).wf(),
        ensures
            final(self).wf(),
            final(self).next_id_spec() == old(self).next_id_spec(),
            r is Err <==> !old(self).ids().contains(id),
            r is Err ==> r == Err::<Point, RegistryError>(RegistryError::UnknownSession)
                && final(self)@ == old(self)@,
            r matches Ok(p) ==> exists|i: int|
                0 <= i < old(self)@.len() && old(self)@[i].id == id && p == step_spec(
                    old(self)@[i].position,
                    delta,
                ) && final(self)@ == old(self)@.update(
                    i,
                    (SessionView { position: p, ..old(self)@[i] }),
                ),
    {
        match self.find(id) {
            None => Err(RegistryError::UnknownSession),
            Some(i) => {
                let p = step(self.sessions[i].position, delta);
                let ghost prev = self.sessions@;
                self.sessions[i].position = p;
                proof {
                    assert(self.sessions@ == prev.update(i as int, Session { position: p, ..prev[i as int] }));
                    assert(self@ =~= old(self)@.update(
                        i as int,
                        SessionView { position: p, ..old(self)@[i as int] },
                    ));
                    assert(ids_of(self@) =~= ids_of(old(self)@));
                    assert forall|j: int| 0 <= j < self.sessions@.len() implies 1
                        <= #[trigger] self.sessions@[j].id < self.next_id && in_world(self.sessions@[j].position)
                        && self.sessions@[j].image.wf() by {
                        if j != i {
                            assert(self.sessions@[j] == prev[j]);
                        }
                    }
                    assert(ids_of(old(self)@)[i as int] == id);
                }
                Ok(p)
            },
        }
    }

    /// Copies of every registered session, in registration order.
    pub fn snapshot(&self) -> (r: Vec<Session>)
        ensures
            views(r@) == self@,
    {
        let mut r: Vec<Session> = Vec::with_capacity(self.sessions.len());
        let mut i: usize = 0;
        while i < self.sessions.len()
            invariant
                i <= self.sessions@.len(),
                r@.len() == i,
                forall|j: int| 0 <= j < i ==> #[trigger] r@[j]@ == self.sessions@[j]@,
            decreases self.sessions@.len() - i,
        {
            r.push(self.sessions[i].duplicate());
            i += 1;
        }
        assert(views(r@) =~= views(self.sessions@));
        r
    }

    /// Gives the session `id` the sprite `image` and the position `position`,
    /// and returns copies of every registered session afterwards. Fails with
    /// `UnknownSession`, changing nothing, when no session has that id.
    pub fn place_image(&mut self, id: u32, image: Image, position: Point) -> (r: Result<
        Vec<Session>,
        RegistryError,
    >)
        requires
            old(self).wf(),
            image.wf(),
            in_world(position),
        ensures
            final(self).wf(),
            final(self).next_id_spec() == old(self).next_id_spec(),
            r is Err <==> !old(self).ids().contains(id),
            r is Err ==> r == Err::<Vec<Session>, RegistryError>(RegistryError::UnknownSession)
                && final(self)@ == old(self)@,
            r matches Ok(snapshot) ==> views(snapshot@) == final(self)@ && exists|i: int|
                0 <= i < old(self)@.len() && old(self)@[i].id == id && final(self)@ == old(
                    self,
                )@.update(i, (SessionView { id, position, image: image@ })),
    {
        match self.find(id) {
            None => Err(RegistryError::UnknownSession),
            Some(i) => {
                let ghost prev = self.sessions@;
                let ghost new_view = image@;
                self.sessions.set(i, Session { id, position, image });
                proof {
                    assert(self@ =~= old(self)@.update(
                        i as int,
                        SessionView { id, position, image: new_view },
                    ));
                    assert(ids_of(self@) =~= ids_of(old(self)@));
                    assert forall|j: int| 0 <= j < self.sessions@.len() implies 1
                        <= #[trigger] self.sessions@[j].id < self.next_id && in_world(self.sessions@[j].position)
                        && self.sessions@[j].image.wf() by {
                        if j != i {
                            assert(self.sessions@[j] == prev[j]);
                        } else {
                            assert(ids_of(old(self)@)[j] == id);
                        }
                    }
                    assert(ids_of(old(self)@)[i as int] == id);
                }
                Ok(self.snapshot())
            },
        }
    }

    /// Gives the session `id` the sprite `image` at a freshly drawn random
    /// position inside the world, and returns that position with copies of
    /// every registered session afterwards. Fails with `UnknownSession`,
    /// changing nothing, when no session has that id.
    pub fn apply_image(&mut self, id: u32, image: Image) -> (r: Result<
        (Point, Vec<Session>),
        RegistryError,
    >)
        requires
            old(self).wf(),
            image.wf(),
        ensures
            final(self).wf(),
            final(self).next_id_spec() == old(self).next_id_spec(),
            r is Err <==> !old(self).ids().contains(id),
            r is Err ==> r == Err::<(Point, Vec<Session>), RegistryError>(
                RegistryError::UnknownSession,
            ) && final(self)@ == old(self)@,
            r matches Ok((p, snapshot)) ==> 0 <= p.x < WORLD_WIDTH && 0 <= p.y < WORLD_HEIGHT
                && views(snapshot@) == final(self)@ && ids_of(views(snapshot@)) == old(self).ids()
                && ids_of(views(snapshot@)).no_duplicates() && exists|i: int|
                0 <= i < old(self)@.len() && old(self)@[i].id == id && final(self)@ == old(
                    self,
                )@.update(i, (SessionView { id, position: p, image: image@ })),
    {
        let position = Point { x: random_below(WORLD_WIDTH), y: random_below(WORLD_HEIGHT) };
        let ghost img = image@;
        match self.place_image(id, image, position) {
            Ok(snapshot) => {
                proof {
                    let i = choose|i: int|
                        0 <= i < old(self)@.len() && old(self)@[i].id == id && self@ == old(
                            self,
                        )@.update(i, SessionView { id, position, image: img });
                    assert(ids_of(self@) =~= ids_of(old(self)@));
                    self.lemma_wf_facts();
                }
                Ok((position, snapshot))
            },
            Err(e) => Err(e),
        }
    }

    /// Removes the session `id` and says whether it was registered; the
    /// other sessions keep their order, and no id is ever handed out again.
    pub fn deregister(&mut self, id: u32) -> (r: bool)
        requires
            old(self).wf(),
        ensures
            final(self).wf(),
            final(self).next_id_spec() == old(self).next_id_spec(),
            r == old(self).ids().contains(id),
            !r ==> final(self)@ == old(self)@,
            r ==> exists|i: int|
                0 <= i < old(self)@.len() && old(self)@[i].id == id && final(self)@ == old(
                    self,
                )@.remove(i),
    {
        match self.find(id) {
            None => false,
            Some(i) => {
                let ghost prev = self.sessions@;
                let _gone = self.sessions.remove(i);
                proof {
                    assert(self.sessions@ =~= prev.remove(i as int));
                    assert(self@ =~= old(self)@.remove(i as int));
                    assert(ids_of(self@) =~= ids_of(old(self)@).remove(i as int));
                    assert forall|j: int| 0 <= j < self.sessions@.len() implies 1
                        <= #[trigger] self.sessions@[j].id < self.next_id && in_world(self.sessions@[j].position)
                        && self.sessions@[j].image.wf() by {
                        if j < i {
                            assert(self.sessions@[j] == prev[j]);
                        } else {
                            assert(self.sessions@[j] == prev[j + 1]);
                        }
                    }
                    assert forall|a: int, b: int|
                        0 <= a < b < ids_of(self@).len() implies ids_of(self@)[a] < ids_of(self@)[b] by {
                        let oa = if a < i { a } else { a + 1 };
                        let ob = if b < i { b } else { b + 1 };
                        assert(ids_of(self@)[a] == ids_of(old(self)@)[oa]);
                        assert(ids_of(self@)[b] == ids_of(old(self)@)[ob]);
                    }
                    assert(ids_of(old(self)@)[i as int] == id);
                }
                true
            },
        }
    }

    /// The ids of every registered session but `id`, in registration order:
    /// the peers a broadcast from `id` goes to.
    pub fn other_ids(&self, id: u32) -> (r: Vec<u32>)
        ensures
            r@ == without(self.ids(), id),
    {
        let mut r: Vec<u32> = Vec::new();
        let mut i: usize = 0;
        while i < self.sessions.len()
            invariant
                i <= self.sessions@.len(),
                r@ == without(self.ids().subrange(0, i as int), id),
            decreases self.sessions@.len() - i,
        {
            let other = self.sessions[i].id;
            proof {
                assert(self.ids().subrange(0, i + 1).drop_last() =~= self.ids().subrange(0, i as int));
                assert(self.ids().subrange(0, i + 1).last() == other);
            }
            if other != id {
                r.push(other);
            }
            i += 1;
        }
        assert(self.ids().subrange(0, i as int) =~= self.ids());
        r
    }

    /// The ids of every registered session, in registration order.
    pub fn all_ids(&self) -> (r: Vec<u32>)
        ensures
            r@ == self.ids(),
    {
        let mut r: Vec<u32> = Vec::new();
        let mut i: usize = 0;
        while i < self.sessions.len()
            invariant
                i <= self.sessions@.len(),
                r@ == self.ids().subrange(0, i as int),
            decreases self.sessions@.len() - i,
        {
            r.push(self.sessions[i].id);
            i += 1;
            assert(r@ =~= self.ids().subrange(0, i as int));
        }
        assert(self.ids().subrange(0, i as int) =~= self.ids());
        r
    }

    /// The position of the session `id`, if it is registered.
    pub fn position_of(&self, id: u32) -> (r: Option<Point>)
        ensures
            r is None <==> !self.ids().contains(id),
            r matches Some(p) ==> exists|i: int|
                0 <= i < self@.len() && self@[i].id == id && self@[i].position == p,
    {
        match self.find(id) {
            Some(i) => {
                assert(self.ids()[i as int] == id);
                Some(self.sessions[i].position)
            },
            None => None,
        }
    }
}

/// Ids handed out by `register` over any run of registry operations are
/// the first next id, then each following number in turn, so they strictly
/// increase; none was in use when it was handed out, and every id in use
/// then lies below it, so an id of a removed session never comes back.
/// `states[k]` is the registry just before the k-th registration: each
/// registration hands out the registry's next id and raises it by one, and
/// no other operation changes it, so each of these states has a next id one
/// above the state before.
pub proof fn lemma_issued_ids_fresh_and_increasing(states: Seq<SessionRegistry>, issued: Seq<u32>)
    requires
        states.len() == issued.len(),
        forall|k: int| 0 <= k < states.len() ==> #[trigger] states[k].wf(),
        forall|k: int| 0 <= k < issued.len() ==> issued[k] == #[trigger] states[k].next_id_spec(),
        forall|k: int|
            0 <= k < states.len() - 1 ==> #[trigger] states[k + 1].next_id_spec()
                == states[k].next_id_spec() + 1,
    ensures
        forall|k: int| 0 <= k < issued.len() ==> #[trigger] issued[k] == issued[0] + k,
        strictly_increasing(issued),
        forall|k: int| 0 <= k < issued.len() ==> !(#[trigger] states[k].ids()).contains(issued[k]),
        forall|k: int, x: u32|
            0 <= k < issued.len() && #[trigger] states[k].ids().contains(x) ==> x < issued[k],
    decreases states.len(),
{
    if states.len() > 0 {
        let n = states.len() - 1;
        lemma_issued_ids_fresh_and_increasing(states.drop_last(), issued.drop_last());
        assert forall|k: int| 0 <= k < issued.len() implies #[trigger] issued[k] == issued[0] + k by {
            if k < n {
                assert(issued.drop_last()[k] == issued.drop_last()[0] + k);
            } else if n > 0 {
                assert(issued.drop_last()[n - 1] == issued.drop_last()[0] + (n - 1));
                assert(states[n - 1 + 1].next_id_spec() == states[n - 1].next_id_spec() + 1);
            }
        }
        assert forall|k: int, x: u32|
            0 <= k < issued.len() && #[trigger] states[k].ids().contains(x) implies x
            < issued[k] by {
            states[k].lemma_wf_facts();
            let j = choose|j: int| 0 <= j < states[k].ids().len() && states[k].ids()[j] == x;
            assert(states[k]@[j].id == states[k].ids()[j]);
        }
    }
}

} // verus!
